# order_book_engine

A limit order book and matching engine, verified with Verus.

Orders rest in price levels, best price first, oldest first within a level.
An incoming order trades against the opposite side under price-time priority;
what is left of a limit order rests, what is left of a market order is
cancelled. Every trade goes out on a channel to a background logger. Prices and
quantities are `rust_decimal` decimals, never floats.

## Layout

- `src/decimal.rs` — the decimal type (mantissa and scale) and the calls into
  `rust_decimal` for comparison, subtraction and display.
- `src/order.rs`, `src/trade.rs` — orders, index pointers, trades and their
  log lines.
- `src/matching.rs` — the model of the book and of each operation on it.
- `src/orderbook.rs` — the book itself: resting, cancelling, matching,
  processing; each operation proved to do what the model says, down to the
  trades handed to the channel, each once and in order (the one call that hands
  a trade over, `Sender::send`, is trusted to do so; whether it is delivered
  depends on the receiving end).
- `src/laws.rs`, `src/consistency.rs`, `src/quantity.rs` — what holds of every
  book: price-time priority, limit prices respected, an uncrossed book stays
  uncrossed, the index always leads to the resting orders, cancelling finds
  exactly the resting orders; processing leaves no negative remainder and no
  resting order without a positive quantity; and wherever no subtraction of
  quantities taken while matching has to round, quantities are conserved.
- `src/logger.rs` — where the trade log goes.
- `app/main.rs` — the program: the logging thread and a sample order.
- `tests/` — scenarios for each operation and each law.
