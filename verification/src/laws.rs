//! What holds of every book and every sequence of operations on it.
use vstd::prelude::*;

use crate::decimal::{
    checked_difference, exact_difference, exact_sub_fits, lemma_exact_difference_units,
    lemma_zero_units, DecimalModel,
};
use crate::matching::{
    ahead, best, book_insert, book_remove, crosses, fill_queue, fill_side, insert_position,
    lemma_insert_position_props, level_index, match_incoming, opposite, process, rests_at, side_insert, BookModel, LevelModel,
};
use crate::order::{OrderExcType, OrderModel, OrderStatus, OrderType, PointerModel};
use crate::trade::TradeModel;

verus! {

/// The id of the resting order in a trade made by an incoming order of this side.
pub open spec fn resting_id(t: TradeModel, incoming_side: OrderType) -> i32 {
    match incoming_side {
        OrderType::Bid => t.sell_order_id,
        OrderType::Ask => t.buy_order_id,
    }
}

/// The orders of a side in priority order: best price first, oldest first.
pub open spec fn priority_order(levels: Seq<LevelModel>) -> Seq<OrderModel>
    decreases levels.len(),
{
    if levels.len() == 0 {
        seq![]
    } else {
        levels[0].orders + priority_order(levels.drop_first())
    }
}

/// The sum of the trades' quantities, in units of 10^-28.
pub open spec fn traded_units(trades: Seq<TradeModel>) -> int
    decreases trades.len(),
{
    if trades.len() == 0 {
        0
    } else {
        traded_units(trades.drop_last()) + trades.last().qty.units()
    }
}

/// The best bid is below the best ask, where both sides hold orders.
pub open spec fn uncrossed(b: BookModel) -> bool {
    b.bids.len() == 0 || b.asks.len() == 0 || b.bids[0].price.units() < b.asks[0].price.units()
}

/// Two orders that differ at most in quantity.
pub open spec fn same_but_qty(a: OrderModel, b: OrderModel) -> bool {
    a == b.with_qty(a.qty)
}

// ---------------------------------------------------------------- facts about matching

proof fn lemma_fill_queue_facts(
    inc: OrderModel,
    price: DecimalModel,
    orders: Seq<OrderModel>,
    counter: int,
    trades: Seq<TradeModel>,
    filled: Seq<i32>,
)
    requires
        fill_queue(inc, price, orders, counter, trades, filled) is Some,
    ensures
        ({
            let q = fill_queue(inc, price, orders, counter, trades, filled)->0;
            let k = q.trades.len() - trades.len();
            &&& same_but_qty(q.incoming, inc)
            &&& q.orders.len() > 0 ==> q.incoming.qty.units() <= 0
            &&& q.trades.len() >= trades.len()
            &&& q.trades.subrange(0, trades.len() as int) == trades
            &&& q.counter == counter + k
            &&& k <= orders.len()
            &&& q.orders.len() == 0 ==> k == orders.len()
            &&& forall|t: int|
                0 <= t < k ==> resting_id(#[trigger] q.trades[trades.len() + t], inc.order_type)
                    == orders[t].id
            &&& forall|t: int| 0 <= t < k ==> (#[trigger] q.trades[trades.len() + t]).price == price
        }),
    decreases orders.len(),
{
    let q = fill_queue(inc, price, orders, counter, trades, filled)->0;
    if orders.len() == 0 || inc.qty.units() <= 0 {
        assert(q.trades.subrange(0, trades.len() as int) =~= trades);
    } else {
        let r = orders[0];
        if r.qty.units() <= inc.qty.units() {
            let left = checked_difference(inc.qty, r.qty)->0;
            let t1 = trades.push(crate::matching::make_trade(inc, r, price, r.qty));
            let rest = orders.drop_first();
            lemma_fill_queue_facts(inc.with_qty(left), price, rest, counter + 1, t1, filled.push(r.id));
            assert(q.trades.subrange(0, trades.len() as int) =~= trades) by {
                assert(q.trades.subrange(0, t1.len() as int) == t1);
                assert forall|x: int| 0 <= x < trades.len() implies q.trades[x] == trades[x] by {
                    assert(q.trades.subrange(0, t1.len() as int)[x] == t1[x]);
                }
            }
            let k = q.trades.len() - trades.len();
            assert forall|t: int| 0 <= t < k implies resting_id(#[trigger] q.trades[trades.len() + t], inc.order_type)
                == orders[t].id && q.trades[trades.len() + t].price == price by {
                if t == 0 {
                    assert(q.trades.subrange(0, t1.len() as int)[trades.len() as int] == t1[trades.len() as int]);
                } else {
                    assert(q.trades[t1.len() + (t - 1)] == q.trades[trades.len() + t]);
                    assert(rest[t - 1] == orders[t]);
                }
            }
        } else {
            assert(q.trades =~= trades.push(crate::matching::make_trade(inc, r, price, inc.qty)));
            assert(q.trades.subrange(0, trades.len() as int) =~= trades);
            lemma_zero_units(inc.qty.scale);
        }
    }
}

proof fn lemma_fill_side_facts(
    inc: OrderModel,
    levels: Seq<LevelModel>,
    counter: int,
    trades: Seq<TradeModel>,
    filled: Seq<i32>,
)
    requires
        fill_side(inc, levels, counter, trades, filled) is Some,
        forall|i: int| 0 <= i < levels.len() ==> (#[trigger] levels[i]).orders.len() > 0,
    ensures
        ({
            let s = fill_side(inc, levels, counter, trades, filled)->0;
            let k = s.trades.len() - trades.len();
            &&& same_but_qty(s.incoming, inc)
            &&& s.incoming.qty.units() > 0 ==> (s.levels.len() == 0 || !crosses(inc, s.levels[0].price))
            &&& s.levels.len() <= levels.len()
            &&& forall|i: int|
                0 <= i < s.levels.len() ==> (#[trigger] s.levels[i]).price == levels[i + levels.len()
                    - s.levels.len()].price
            &&& forall|i: int|
                1 <= i < s.levels.len() ==> #[trigger] s.levels[i] == levels[i + levels.len() - s.levels.len()]
            &&& s.trades.len() >= trades.len()
            &&& s.trades.subrange(0, trades.len() as int) == trades
            &&& s.counter == counter + k
            &&& k <= priority_order(levels).len()
            &&& forall|t: int|
                0 <= t < k ==> resting_id(#[trigger] s.trades[trades.len() + t], inc.order_type)
                    == priority_order(levels)[t].id
            &&& forall|t: int| 0 <= t < k ==> crosses(inc, (#[trigger] s.trades[trades.len() + t]).price)
        }),
    decreases levels.len(),
{
    let s = fill_side(inc, levels, counter, trades, filled)->0;
    if levels.len() == 0 || !crosses(inc, levels[0].price) {
        assert(s.trades.subrange(0, trades.len() as int) =~= trades);
    } else {
        let l = levels[0];
        lemma_fill_queue_facts(inc, l.price, l.orders, counter, trades, filled);
        let q = fill_queue(inc, l.price, l.orders, counter, trades, filled)->0;
        let k0 = q.trades.len() - trades.len();
        let rest = levels.drop_first();
        assert(priority_order(levels) == l.orders + priority_order(rest));
        if q.orders.len() > 0 {
            assert forall|t: int| 0 <= t < k0 implies resting_id(#[trigger] s.trades[trades.len() + t], inc.order_type)
                == priority_order(levels)[t].id by {
                assert(priority_order(levels)[t] == l.orders[t]);
            }
        } else {
            assert forall|i: int| 0 <= i < rest.len() implies (#[trigger] rest[i]).orders.len() > 0 by {
                assert(rest[i] == levels[i + 1]);
            }
            lemma_fill_side_facts(q.incoming, rest, q.counter, q.trades, q.filled);
            assert(crosses(q.incoming, levels[0].price) == crosses(inc, levels[0].price));
            assert forall|i: int| 0 <= i < rest.len() implies #[trigger] crosses(q.incoming, rest[i].price) == crosses(inc, rest[i].price) by {}
            let s2 = s;
            assert(s2.trades.subrange(0, q.trades.len() as int) == q.trades);
            assert(s.trades.subrange(0, trades.len() as int) =~= trades) by {
                assert forall|x: int| 0 <= x < trades.len() implies s.trades[x] == trades[x] by {
                    assert(s.trades.subrange(0, q.trades.len() as int)[x] == q.trades[x]);
                    assert(q.trades.subrange(0, trades.len() as int)[x] == trades[x]);
                }
            }
            let k = s.trades.len() - trades.len();
            assert forall|t: int| 0 <= t < k implies resting_id(#[trigger] s.trades[trades.len() + t], inc.order_type)
                == priority_order(levels)[t].id && crosses(inc, s.trades[trades.len() + t].price) by {
                if t < k0 {
                    assert(s.trades.subrange(0, q.trades.len() as int)[trades.len() + t] == q.trades[trades.len() + t]);
                    assert(priority_order(levels)[t] == l.orders[t]);
                } else {
                    assert(s.trades[q.trades.len() + (t - k0)] == s.trades[trades.len() + t]);
                    assert(priority_order(levels)[t] == priority_order(rest)[t - k0]);
                }
            }
            assert forall|i: int| 0 <= i < s.levels.len() implies (#[trigger] s.levels[i]).price == levels[i + levels.len()
                - s.levels.len()].price by {
                assert(rest[i + rest.len() - s.levels.len()] == levels[i + levels.len() - s.levels.len()]);
            }
            assert forall|i: int| 1 <= i < s.levels.len() implies #[trigger] s.levels[i] == levels[i + levels.len() - s.levels.len()] by {
                assert(rest[i + rest.len() - s.levels.len()] == levels[i + levels.len() - s.levels.len()]);
            }
        }
    }
}

// ---------------------------------------------------------------- laws of matching

/// Price-time priority: an incoming order trades with the resting orders of the
/// opposite side in the order of the book, best price first and oldest first at
/// each price; the k-th trade is with the k-th order in that order. Every trade
/// is at a price that the incoming order accepts.
pub proof fn law_price_time_priority(b: BookModel, inc: OrderModel)
    requires
        b.wf(),
        process(b, inc) is Some,
    ensures
        ({
            let trades = process(b, inc)->0.trades;
            let queue = priority_order(b.side(opposite(inc.order_type)));
            &&& trades.len() <= queue.len()
            &&& forall|k: int|
                0 <= k < trades.len() ==> resting_id(#[trigger] trades[k], inc.order_type)
                    == queue[k].id
            &&& forall|k: int| 0 <= k < trades.len() ==> crosses(inc, (#[trigger] trades[k]).price)
        }),
{
    let side = opposite(inc.order_type);
    let levels = b.side(side);
    assert forall|i: int| 0 <= i < levels.len() implies (#[trigger] levels[i]).orders.len() > 0 by {
        assert(crate::matching::level_wf(levels[i], side));
    }
    lemma_fill_side_facts(inc, levels, b.trade_counter, seq![], seq![]);
    let s = fill_side(inc, levels, b.trade_counter, seq![], seq![])->0;
    assert forall|k: int| 0 <= k < s.trades.len() implies resting_id(#[trigger] s.trades[k], inc.order_type)
        == priority_order(levels)[k].id && crosses(inc, s.trades[k].price) by {
        assert(s.trades[0 + k] == s.trades[k]);
    }
}

/// A limit bid trades at no price above its limit, a limit ask at no price below it.
pub proof fn law_limit_price_respected(b: BookModel, inc: OrderModel)
    requires
        b.wf(),
        process(b, inc) is Some,
        inc.exc_type == OrderExcType::Limit,
    ensures
        forall|k: int|
            0 <= k < process(b, inc)->0.trades.len() ==> match inc.order_type {
                OrderType::Bid => (#[trigger] process(b, inc)->0.trades[k]).price.units()
                    <= inc.price->0.units(),
                OrderType::Ask => process(b, inc)->0.trades[k].price.units()
                    >= inc.price->0.units(),
            },
{
    law_price_time_priority(b, inc);
    let trades = process(b, inc)->0.trades;
    if trades.len() > 0 {
        assert(crosses(inc, trades[0].price));
        assert(inc.price is Some);
    }
}

/// The trade counter counts the trades.
pub proof fn law_counter_counts_trades(b: BookModel, inc: OrderModel)
    requires
        b.wf(),
        process(b, inc) is Some,
    ensures
        process(b, inc)->0.book.trade_counter == b.trade_counter + process(b, inc)->0.trades.len(),
{
    let side = opposite(inc.order_type);
    let levels = b.side(side);
    assert forall|i: int| 0 <= i < levels.len() implies (#[trigger] levels[i]).orders.len() > 0 by {
        assert(crate::matching::level_wf(levels[i], side));
    }
    lemma_fill_side_facts(inc, levels, b.trade_counter, seq![], seq![]);
}

/// The first level after resting an order is priced at the old first level's price
/// or at the order's price.
proof fn lemma_side_insert_front(levels: Seq<LevelModel>, side: OrderType, o: OrderModel, p: DecimalModel)
    ensures
        side_insert(levels, side, o, p).len() > 0,
        side_insert(levels, side, o, p)[0].price == p || (levels.len() > 0
            && side_insert(levels, side, o, p)[0].price == levels[0].price && !ahead(side, p, levels[0].price)),
{
    lemma_insert_position_props(levels, side, p);
    let i = insert_position(levels, side, p) as int;
    let r = side_insert(levels, side, o, p);
    if i > 0 {
        assert(ahead(side, levels[0].price, p));
        assert(r[0] == levels[0]);
    } else if levels.len() > 0 && levels[0].price.units() == p.units() {
        assert(r[0].price == levels[0].price);
    }
}

/// Matching and resting never leave the book crossed: after processing an order,
/// the best bid is still below the best ask.
pub proof fn law_process_keeps_book_uncrossed(b: BookModel, inc: OrderModel)
    requires
        b.wf(),
        uncrossed(b),
        process(b, inc) is Some,
    ensures
        uncrossed(process(b, inc)->0.book),
{
    let side = opposite(inc.order_type);
    let levels = b.side(side);
    assert forall|i: int| 0 <= i < levels.len() implies (#[trigger] levels[i]).orders.len() > 0 by {
        assert(crate::matching::level_wf(levels[i], side));
    }
    lemma_fill_side_facts(inc, levels, b.trade_counter, seq![], seq![]);
    let s = fill_side(inc, levels, b.trade_counter, seq![], seq![])->0;
    let m = match_incoming(b, inc)->0;
    let out = process(b, inc)->0.book;
    // the opposite side keeps a suffix of its levels: its first price can only get worse
    if s.levels.len() > 0 {
        let d = levels.len() - s.levels.len();
        assert(s.levels[0].price == levels[d].price);
        if d > 0 {
            assert(ahead(side, levels[0].price, levels[d].price));
        }
    }
    if m.order.qty.units() > 0 && m.order.exc_type == OrderExcType::Limit {
        let p = m.order.price->0;
        lemma_side_insert_front(b.side(inc.order_type), inc.order_type, m.order, p);
        assert(m.order.price == inc.price);
    }
}

/// A market order never rests: processing it leaves its own side as it was.
pub proof fn law_market_order_never_rests(b: BookModel, inc: OrderModel)
    requires
        process(b, inc) is Some,
        inc.exc_type == OrderExcType::Market,
    ensures
        process(b, inc)->0.book.side(inc.order_type) == b.side(inc.order_type),
        process(b, inc)->0.order.status == OrderStatus::Filled || process(b, inc)->0.order.status
            == OrderStatus::Cancelled,
{
    let side = opposite(inc.order_type);
    let levels = b.side(side);
    let m = match_incoming(b, inc)->0;
    let s = fill_side(inc, levels, b.trade_counter, seq![], seq![])->0;
    lemma_fill_side_same_fields(inc, levels, b.trade_counter, seq![], seq![]);
}

proof fn lemma_fill_queue_same_fields(
    inc: OrderModel,
    price: DecimalModel,
    orders: Seq<OrderModel>,
    counter: int,
    trades: Seq<TradeModel>,
    filled: Seq<i32>,
)
    requires
        fill_queue(inc, price, orders, counter, trades, filled) is Some,
    ensures
        same_but_qty(fill_queue(inc, price, orders, counter, trades, filled)->0.incoming, inc),
    decreases orders.len(),
{
    if orders.len() > 0 && inc.qty.units() > 0 && orders[0].qty.units() <= inc.qty.units() {
        let r = orders[0];
        let left = checked_difference(inc.qty, r.qty)->0;
        lemma_fill_queue_same_fields(
            inc.with_qty(left),
            price,
            orders.drop_first(),
            counter + 1,
            trades.push(crate::matching::make_trade(inc, r, price, r.qty)),
            filled.push(r.id),
        );
    }
}

pub proof fn lemma_fill_side_same_fields(
    inc: OrderModel,
    levels: Seq<LevelModel>,
    counter: int,
    trades: Seq<TradeModel>,
    filled: Seq<i32>,
)
    requires
        fill_side(inc, levels, counter, trades, filled) is Some,
    ensures
        same_but_qty(fill_side(inc, levels, counter, trades, filled)->0.incoming, inc),
    decreases levels.len(),
{
    if levels.len() > 0 && crosses(inc, levels[0].price) {
        let l = levels[0];
        lemma_fill_queue_same_fields(inc, l.price, l.orders, counter, trades, filled);
        let q = fill_queue(inc, l.price, l.orders, counter, trades, filled)->0;
        if q.orders.len() == 0 {
            lemma_fill_side_same_fields(q.incoming, levels.drop_first(), q.counter, q.trades, q.filled);
        }
    }
}


// ---------------------------------------------------------------- who trades, and what rests

/// The id of the incoming order's own side in a trade it made: the buyer for an
/// incoming bid, the seller for an incoming ask.
pub open spec fn incoming_id(t: TradeModel, incoming_side: OrderType) -> i32 {
    match incoming_side {
        OrderType::Bid => t.buy_order_id,
        OrderType::Ask => t.sell_order_id,
    }
}

proof fn lemma_fill_queue_own_id(
    inc: OrderModel,
    price: DecimalModel,
    orders: Seq<OrderModel>,
    counter: int,
    trades: Seq<TradeModel>,
    filled: Seq<i32>,
)
    requires
        fill_queue(inc, price, orders, counter, trades, filled) is Some,
        forall|t: int| 0 <= t < trades.len() ==> incoming_id(#[trigger] trades[t], inc.order_type) == inc.id,
    ensures
        ({
            let q = fill_queue(inc, price, orders, counter, trades, filled)->0;
            &&& q.incoming.id == inc.id
            &&& q.incoming.order_type == inc.order_type
            &&& forall|t: int|
                0 <= t < q.trades.len() ==> incoming_id(#[trigger] q.trades[t], inc.order_type) == inc.id
        }),
    decreases orders.len(),
{
    if orders.len() > 0 && inc.qty.units() > 0 && counter < i32::MAX {
        let r = orders[0];
        if r.qty.units() <= inc.qty.units() {
            if let Some(left) = checked_difference(inc.qty, r.qty) {
                let t1 = trades.push(crate::matching::make_trade(inc, r, price, r.qty));
                assert forall|t: int| 0 <= t < t1.len() implies incoming_id(#[trigger] t1[t], inc.order_type)
                    == inc.id by {
                    if t < trades.len() {
                        assert(t1[t] == trades[t]);
                    }
                }
                lemma_fill_queue_own_id(inc.with_qty(left), price, orders.drop_first(), counter + 1, t1, filled.push(r.id));
            }
        } else {
            let t1 = trades.push(crate::matching::make_trade(inc, r, price, inc.qty));
            assert forall|t: int| 0 <= t < t1.len() implies incoming_id(#[trigger] t1[t], inc.order_type)
                == inc.id by {
                if t < trades.len() {
                    assert(t1[t] == trades[t]);
                }
            }
        }
    }
}

proof fn lemma_fill_side_own_id(
    inc: OrderModel,
    levels: Seq<LevelModel>,
    counter: int,
    trades: Seq<TradeModel>,
    filled: Seq<i32>,
)
    requires
        fill_side(inc, levels, counter, trades, filled) is Some,
        forall|t: int| 0 <= t < trades.len() ==> incoming_id(#[trigger] trades[t], inc.order_type) == inc.id,
    ensures
        ({
            let s = fill_side(inc, levels, counter, trades, filled)->0;
            forall|t: int|
                0 <= t < s.trades.len() ==> incoming_id(#[trigger] s.trades[t], inc.order_type) == inc.id
        }),
    decreases levels.len(),
{
    if levels.len() > 0 && !(inc.exc_type == OrderExcType::Limit && inc.price is None) && crosses(
        inc,
        levels[0].price,
    ) {
        let l = levels[0];
        lemma_fill_queue_own_id(inc, l.price, l.orders, counter, trades, filled);
        let q = fill_queue(inc, l.price, l.orders, counter, trades, filled)->0;
        if q.orders.len() == 0 {
            lemma_fill_side_own_id(q.incoming, levels.drop_first(), q.counter, q.trades, q.filled);
        }
    }
}

/// Every trade that an incoming order makes names it on its own side: an incoming
/// bid as the buyer, an incoming ask as the seller.
pub proof fn law_trades_name_incoming(b: BookModel, inc: OrderModel)
    requires
        process(b, inc) is Some,
    ensures
        forall|k: int|
            0 <= k < process(b, inc)->0.trades.len() ==> incoming_id(
                #[trigger] process(b, inc)->0.trades[k],
                inc.order_type,
            ) == inc.id,
        forall|k: int|
            0 <= k < process(b, inc)->0.trades.len() ==> match inc.order_type {
                OrderType::Bid => (#[trigger] process(b, inc)->0.trades[k]).buy_order_id == inc.id,
                OrderType::Ask => process(b, inc)->0.trades[k].sell_order_id == inc.id,
            },
{
    lemma_fill_side_own_id(inc, b.side(opposite(inc.order_type)), b.trade_counter, seq![], seq![]);
}

proof fn lemma_fill_side_prices(
    inc: OrderModel,
    levels: Seq<LevelModel>,
    counter: int,
    trades: Seq<TradeModel>,
    filled: Seq<i32>,
)
    requires
        fill_side(inc, levels, counter, trades, filled) is Some,
        forall|i: int| 0 <= i < levels.len() ==> (#[trigger] levels[i]).orders.len() > 0,
        forall|i: int, j: int|
            0 <= i < levels.len() && 0 <= j < levels[i].orders.len() ==> (#[trigger] levels[i].orders[j]).price
                is Some && levels[i].orders[j].price->0.units() == levels[i].price.units(),
    ensures
        ({
            let s = fill_side(inc, levels, counter, trades, filled)->0;
            forall|t: int|
                0 <= t < s.trades.len() - trades.len() ==> (#[trigger] s.trades[trades.len() + t]).price.units()
                    == priority_order(levels)[t].price->0.units()
        }),
    decreases levels.len(),
{
    lemma_fill_side_facts(inc, levels, counter, trades, filled);
    let s = fill_side(inc, levels, counter, trades, filled)->0;
    if levels.len() > 0 && !(inc.exc_type == OrderExcType::Limit && inc.price is None) && crosses(
        inc,
        levels[0].price,
    ) {
        let l = levels[0];
        lemma_fill_queue_facts(inc, l.price, l.orders, counter, trades, filled);
        let q = fill_queue(inc, l.price, l.orders, counter, trades, filled)->0;
        let k0 = q.trades.len() - trades.len();
        let rest = levels.drop_first();
        assert(priority_order(levels) == l.orders + priority_order(rest));
        if q.orders.len() > 0 {
            assert forall|t: int| 0 <= t < s.trades.len() - trades.len() implies (#[trigger] s.trades[trades.len()
                + t]).price.units() == priority_order(levels)[t].price->0.units() by {
                assert(priority_order(levels)[t] == l.orders[t]);
                assert(l.orders[t].price is Some && l.orders[t].price->0.units() == l.price.units());
            }
        } else {
            assert forall|i: int| 0 <= i < rest.len() implies (#[trigger] rest[i]).orders.len() > 0 by {
                assert(rest[i] == levels[i + 1]);
            }
            assert forall|i: int, j: int| 0 <= i < rest.len() && 0 <= j < rest[i].orders.len() implies (
            #[trigger] rest[i].orders[j]).price is Some && rest[i].orders[j].price->0.units() == rest[i].price.units() by {
                assert(rest[i] == levels[i + 1]);
            }
            lemma_fill_side_facts(q.incoming, rest, q.counter, q.trades, q.filled);
            lemma_fill_side_prices(q.incoming, rest, q.counter, q.trades, q.filled);
            assert forall|t: int| 0 <= t < s.trades.len() - trades.len() implies (#[trigger] s.trades[trades.len()
                + t]).price.units() == priority_order(levels)[t].price->0.units() by {
                if t < k0 {
                    assert(s.trades.subrange(0, q.trades.len() as int)[trades.len() + t] == q.trades[trades.len() + t]);
                    assert(priority_order(levels)[t] == l.orders[t]);
                    assert(l.orders[t].price is Some && l.orders[t].price->0.units() == l.price.units());
                } else {
                    assert(s.trades[q.trades.len() + (t - k0)] == s.trades[trades.len() + t]);
                    assert(priority_order(levels)[t] == priority_order(rest)[t - k0]);
                }
            }
        }
    }
}

/// Every trade is at the price of the resting order it fills: the k-th trade is at
/// the limit price of the k-th resting order of the opposite side, in the order of
/// the book.
pub proof fn law_trades_at_resting_price(b: BookModel, inc: OrderModel)
    requires
        b.wf(),
        process(b, inc) is Some,
    ensures
        forall|k: int|
            0 <= k < process(b, inc)->0.trades.len() ==> (#[trigger] process(b, inc)->0.trades[k]).price.units()
                == priority_order(b.side(opposite(inc.order_type)))[k].price->0.units(),
{
    let side = opposite(inc.order_type);
    let levels = b.side(side);
    assert forall|i: int| 0 <= i < levels.len() implies (#[trigger] levels[i]).orders.len() > 0 by {
        assert(crate::matching::level_wf(levels[i], side));
    }
    assert forall|i: int, j: int| 0 <= i < levels.len() && 0 <= j < levels[i].orders.len() implies (
    #[trigger] levels[i].orders[j]).price is Some && levels[i].orders[j].price->0.units() == levels[i].price.units() by {
        assert(crate::matching::level_wf(levels[i], side));
        assert(rests_at(levels[i].orders[j], side, levels[i].price));
    }
    let e = Seq::<TradeModel>::empty();
    lemma_fill_side_prices(inc, levels, b.trade_counter, e, seq![]);
    lemma_fill_side_facts(inc, levels, b.trade_counter, e, seq![]);
    let s = fill_side(inc, levels, b.trade_counter, e, seq![])->0;
    assert forall|k: int| 0 <= k < s.trades.len() implies (#[trigger] s.trades[k]).price.units()
        == priority_order(levels)[k].price->0.units() by {
        assert(e.len() == 0);
        assert(s.trades[e.len() + k] == s.trades[k]);
    }
}

proof fn lemma_fill_queue_quantities(
    inc: OrderModel,
    price: DecimalModel,
    orders: Seq<OrderModel>,
    counter: int,
    trades: Seq<TradeModel>,
    filled: Seq<i32>,
)
    requires
        fill_queue(inc, price, orders, counter, trades, filled) is Some,
    ensures
        ({
            let q = fill_queue(inc, price, orders, counter, trades, filled)->0;
            let k = q.trades.len() - trades.len();
            forall|t: int|
                0 <= t < k ==> (#[trigger] q.trades[trades.len() + t]).qty == orders[t].qty || (t == k - 1
                    && q.incoming.qty.units() <= 0)
        }),
    decreases orders.len(),
{
    lemma_fill_queue_facts(inc, price, orders, counter, trades, filled);
    let q = fill_queue(inc, price, orders, counter, trades, filled)->0;
    if orders.len() > 0 && inc.qty.units() > 0 && counter < i32::MAX {
        let r = orders[0];
        if r.qty.units() <= inc.qty.units() {
            let left = checked_difference(inc.qty, r.qty)->0;
            let t1 = trades.push(crate::matching::make_trade(inc, r, price, r.qty));
            let rest = orders.drop_first();
            lemma_fill_queue_facts(inc.with_qty(left), price, rest, counter + 1, t1, filled.push(r.id));
            lemma_fill_queue_quantities(inc.with_qty(left), price, rest, counter + 1, t1, filled.push(r.id));
            let k = q.trades.len() - trades.len();
            assert forall|t: int| 0 <= t < k implies (#[trigger] q.trades[trades.len() + t]).qty == orders[t].qty
                || (t == k - 1 && q.incoming.qty.units() <= 0) by {
                if t == 0 {
                    assert(q.trades.subrange(0, t1.len() as int)[trades.len() as int] == t1[trades.len() as int]);
                } else {
                    assert(q.trades[t1.len() + (t - 1)] == q.trades[trades.len() + t]);
                    assert(rest[t - 1] == orders[t]);
                }
            }
        } else {
            lemma_zero_units(inc.qty.scale);
        }
    }
}

proof fn lemma_fill_side_quantities(
    inc: OrderModel,
    levels: Seq<LevelModel>,
    counter: int,
    trades: Seq<TradeModel>,
    filled: Seq<i32>,
)
    requires
        fill_side(inc, levels, counter, trades, filled) is Some,
        forall|i: int| 0 <= i < levels.len() ==> (#[trigger] levels[i]).orders.len() > 0,
    ensures
        ({
            let s = fill_side(inc, levels, counter, trades, filled)->0;
            let k = s.trades.len() - trades.len();
            forall|t: int|
                0 <= t < k ==> (#[trigger] s.trades[trades.len() + t]).qty == priority_order(levels)[t].qty
                    || t == k - 1
        }),
    decreases levels.len(),
{
    lemma_fill_side_facts(inc, levels, counter, trades, filled);
    let s = fill_side(inc, levels, counter, trades, filled)->0;
    if levels.len() > 0 && !(inc.exc_type == OrderExcType::Limit && inc.price is None) && crosses(
        inc,
        levels[0].price,
    ) {
        let l = levels[0];
        lemma_fill_queue_facts(inc, l.price, l.orders, counter, trades, filled);
        lemma_fill_queue_quantities(inc, l.price, l.orders, counter, trades, filled);
        let q = fill_queue(inc, l.price, l.orders, counter, trades, filled)->0;
        let k0 = q.trades.len() - trades.len();
        let rest = levels.drop_first();
        assert(priority_order(levels) == l.orders + priority_order(rest));
        if q.orders.len() > 0 {
            assert forall|t: int| 0 <= t < k0 implies (#[trigger] s.trades[trades.len() + t]).qty
                == priority_order(levels)[t].qty || t == k0 - 1 by {
                assert(priority_order(levels)[t] == l.orders[t]);
            }
        } else {
            assert forall|i: int| 0 <= i < rest.len() implies (#[trigger] rest[i]).orders.len() > 0 by {
                assert(rest[i] == levels[i + 1]);
            }
            lemma_fill_side_facts(q.incoming, rest, q.counter, q.trades, q.filled);
            lemma_fill_side_quantities(q.incoming, rest, q.counter, q.trades, q.filled);
            let k = s.trades.len() - trades.len();
            if k0 > 0 && q.incoming.qty.units() <= 0 && rest.len() > 0 && !(q.incoming.exc_type
                == OrderExcType::Limit && q.incoming.price is None) && crosses(q.incoming, rest[0].price) {
                assert(s.trades == q.trades);
            }
            assert forall|t: int| 0 <= t < k implies (#[trigger] s.trades[trades.len() + t]).qty
                == priority_order(levels)[t].qty || t == k - 1 by {
                if t < k0 {
                    assert(s.trades.subrange(0, q.trades.len() as int)[trades.len() + t] == q.trades[trades.len() + t]);
                    assert(priority_order(levels)[t] == l.orders[t]);
                } else {
                    assert(s.trades[q.trades.len() + (t - k0)] == s.trades[trades.len() + t]);
                    assert(priority_order(levels)[t] == priority_order(rest)[t - k0]);
                }
            }
        }
    }
}

/// Every trade but the last takes the whole of its resting order: the k-th trade,
/// where it is not the last, is for the full quantity of the k-th resting order of
/// the opposite side in the order of the book.
pub proof fn law_earlier_trades_fill_completely(b: BookModel, inc: OrderModel)
    requires
        b.wf(),
        process(b, inc) is Some,
    ensures
        forall|k: int|
            0 <= k < process(b, inc)->0.trades.len() - 1 ==> (#[trigger] process(b, inc)->0.trades[k]).qty
                == priority_order(b.side(opposite(inc.order_type)))[k].qty,
{
    let side = opposite(inc.order_type);
    let levels = b.side(side);
    assert forall|i: int| 0 <= i < levels.len() implies (#[trigger] levels[i]).orders.len() > 0 by {
        assert(crate::matching::level_wf(levels[i], side));
    }
    let e = Seq::<TradeModel>::empty();
    lemma_fill_side_quantities(inc, levels, b.trade_counter, e, seq![]);
    let s = fill_side(inc, levels, b.trade_counter, e, seq![])->0;
    assert forall|k: int| 0 <= k < s.trades.len() - 1 implies (#[trigger] s.trades[k]).qty
        == priority_order(levels)[k].qty by {
        assert(e.len() == 0);
        assert(s.trades[e.len() + k] == s.trades[k]);
    }
}

/// A limit order that is not filled completely rests at its own limit price: what
/// is left of it is the incoming order with only its quantity reduced, it stands
/// last at the level of its side priced at its limit, and the index points there.
pub proof fn law_limit_remainder_rests_at_limit(b: BookModel, inc: OrderModel)
    requires
        process(b, inc) is Some,
        inc.exc_type == OrderExcType::Limit,
        process(b, inc)->0.order.qty.units() > 0,
    ensures
        process(b, inc)->0.order == inc.with_qty(process(b, inc)->0.order.qty),
        process(b, inc)->0.book.index.contains_key(inc.id),
        process(b, inc)->0.book.index[inc.id] == (PointerModel {
            price: inc.price->0,
            order_type: inc.order_type,
        }),
        exists|i: int|
            0 <= i < process(b, inc)->0.book.side(inc.order_type).len() && (#[trigger] process(
                b,
                inc,
            )->0.book.side(inc.order_type)[i]).price.units() == inc.price->0.units()
                && process(b, inc)->0.book.side(inc.order_type)[i].orders.len() > 0
                && process(b, inc)->0.book.side(inc.order_type)[i].orders.last() == process(
                b,
                inc,
            )->0.order,
{
    let side = opposite(inc.order_type);
    lemma_fill_side_same_fields(inc, b.side(side), b.trade_counter, seq![], seq![]);
    let m = match_incoming(b, inc)->0;
    let out = process(b, inc)->0;
    let own = inc.order_type;
    let p = inc.price->0;
    assert(m.order.price == inc.price);
    assert(out.book == book_insert(m.book, m.order));
    lemma_insert_position_props(m.book.side(own), own, p);
    let levels = m.book.side(own);
    let i = insert_position(levels, own, p) as int;
    let r = side_insert(levels, own, m.order, p);
    assert(out.book.side(own) == r) by {
        match own {
            OrderType::Bid => {},
            OrderType::Ask => {},
        }
    }
    if i < levels.len() && levels[i].price.units() == p.units() {
        assert(r[i].orders == levels[i].orders.push(m.order));
        assert(r[i].orders.last() == m.order);
    } else {
        assert(r[i].orders == seq![m.order]);
    }
    assert(r[i].price.units() == p.units());
}

/// The opposite side after processing: the orders that trade completely leave its
/// front, those behind them stay as they were, and the one order that can be left
/// partly filled, now first, is the same order with only a smaller quantity and the
/// status PartiallyFilled.
proof fn lemma_fill_queue_rest(
    inc: OrderModel,
    price: DecimalModel,
    orders: Seq<OrderModel>,
    counter: int,
    trades: Seq<TradeModel>,
    filled: Seq<i32>,
)
    requires
        fill_queue(inc, price, orders, counter, trades, filled) is Some,
    ensures
        ({
            let q = fill_queue(inc, price, orders, counter, trades, filled)->0;
            let d = orders.len() - q.orders.len();
            &&& 0 <= d
            &&& forall|j: int| 1 <= j < q.orders.len() ==> #[trigger] q.orders[j] == orders[d + j]
            &&& q.orders.len() > 0 ==> (q.orders[0] == orders[d] || q.orders[0] == orders[d].with_qty(
                q.orders[0].qty,
            ).with_status(OrderStatus::PartiallyFilled))
        }),
    decreases orders.len(),
{
    if orders.len() > 0 && inc.qty.units() > 0 && counter < i32::MAX {
        let r = orders[0];
        let rest = orders.drop_first();
        if r.qty.units() <= inc.qty.units() {
            if let Some(left) = checked_difference(inc.qty, r.qty) {
                lemma_fill_queue_rest(
                    inc.with_qty(left),
                    price,
                    rest,
                    counter + 1,
                    trades.push(crate::matching::make_trade(inc, r, price, r.qty)),
                    filled.push(r.id),
                );
                let q = fill_queue(inc, price, orders, counter, trades, filled)->0;
                let d = orders.len() - q.orders.len();
                assert forall|j: int| 0 <= j < q.orders.len() implies #[trigger] rest[d - 1 + j] == orders[d + j] by {}
            }
        } else {
            let q = fill_queue(inc, price, orders, counter, trades, filled)->0;
            if let Some(rq) = checked_difference(r.qty, inc.qty) {
                if rq.units() == 0 {
                    assert forall|j: int| 0 <= j < q.orders.len() implies #[trigger] q.orders[j] == orders[1 + j] by {}
                } else {
                    assert forall|j: int| 1 <= j < q.orders.len() implies #[trigger] q.orders[j] == orders[j] by {}
                }
            }
        }
    }
}

proof fn lemma_fill_side_rest(
    inc: OrderModel,
    levels: Seq<LevelModel>,
    counter: int,
    trades: Seq<TradeModel>,
    filled: Seq<i32>,
)
    requires
        fill_side(inc, levels, counter, trades, filled) is Some,
    ensures
        ({
            let before = priority_order(levels);
            let after = priority_order(fill_side(inc, levels, counter, trades, filled)->0.levels);
            let d = before.len() - after.len();
            &&& 0 <= d
            &&& forall|k: int| 1 <= k < after.len() ==> #[trigger] after[k] == before[d + k]
            &&& after.len() > 0 ==> (after[0] == before[d] || after[0] == before[d].with_qty(
                after[0].qty,
            ).with_status(OrderStatus::PartiallyFilled))
        }),
    decreases levels.len(),
{
    if levels.len() > 0 && !(inc.exc_type == OrderExcType::Limit && inc.price is None) && crosses(
        inc,
        levels[0].price,
    ) {
        let l = levels[0];
        let rest = levels.drop_first();
        let before = priority_order(levels);
        assert(before == l.orders + priority_order(rest));
        lemma_fill_queue_rest(inc, l.price, l.orders, counter, trades, filled);
        let q = fill_queue(inc, l.price, l.orders, counter, trades, filled)->0;
        if q.orders.len() > 0 {
            let u = levels.update(0, LevelModel { price: l.price, orders: q.orders });
            assert(u.drop_first() =~= rest);
            let after = priority_order(u);
            assert(after == q.orders + priority_order(rest));
            let d = l.orders.len() - q.orders.len();
            assert(before[d] == l.orders[d]);
            assert forall|k: int| 1 <= k < after.len() implies #[trigger] after[k] == before[d + k] by {
                if k < q.orders.len() {
                    assert(after[k] == q.orders[k]);
                    assert(before[d + k] == l.orders[d + k]);
                } else {
                    assert(after[k] == priority_order(rest)[k - q.orders.len()]);
                    assert(before[d + k] == priority_order(rest)[d + k - l.orders.len()]);
                }
            }
        } else {
            lemma_fill_side_rest(q.incoming, rest, q.counter, q.trades, q.filled);
            let after = priority_order(fill_side(q.incoming, rest, q.counter, q.trades, q.filled)->0.levels);
            let pr = priority_order(rest);
            let d2 = pr.len() - after.len();
            let d = before.len() - after.len();
            assert forall|k: int| 0 <= k < after.len() implies #[trigger] before[d + k] == pr[d2 + k] by {
                assert(d + k == l.orders.len() + (d2 + k));
            }
        }
    }
}

/// A resting order that processing leaves on the book with its quantity reduced is
/// marked PartiallyFilled, whichever side the incoming order is on; every other
/// order left on the opposite side is as it was, in the same order. In the order
/// of the book, the opposite side loses only orders from its front.
pub proof fn law_partial_fill_marked(b: BookModel, inc: OrderModel)
    requires
        process(b, inc) is Some,
    ensures
        ({
            let before = priority_order(b.side(opposite(inc.order_type)));
            let after = priority_order(process(b, inc)->0.book.side(opposite(inc.order_type)));
            let d = before.len() - after.len();
            &&& 0 <= d
            &&& forall|k: int| 1 <= k < after.len() ==> #[trigger] after[k] == before[d + k]
            &&& after.len() > 0 ==> (after[0] == before[d] || after[0] == before[d].with_qty(
                after[0].qty,
            ).with_status(OrderStatus::PartiallyFilled))
        }),
{
    let side = opposite(inc.order_type);
    lemma_fill_side_rest(inc, b.side(side), b.trade_counter, seq![], seq![]);
    let m = match_incoming(b, inc)->0;
    let out = process(b, inc)->0;
    assert(m.book.side(side) == fill_side(inc, b.side(side), b.trade_counter, seq![], seq![])->0.levels) by {
        match inc.order_type {
            OrderType::Bid => {},
            OrderType::Ask => {},
        }
    }
    lemma_fill_side_same_fields(inc, b.side(side), b.trade_counter, seq![], seq![]);
    if m.order.qty.units() > 0 && m.order.exc_type == OrderExcType::Limit {
        assert(m.order.order_type == inc.order_type);
        assert(out.book == book_insert(m.book, m.order));
        assert(out.book.side(side) == m.book.side(side)) by {
            match inc.order_type {
                OrderType::Bid => {},
                OrderType::Ask => {},
            }
        }
    } else {
        assert(out.book == m.book);
    }
}

// ---------------------------------------------------------------- conservation

/// No subtraction that matching `inc` against these orders, oldest first, takes
/// has to round.
pub open spec fn queue_exact(inc: OrderModel, orders: Seq<OrderModel>) -> bool
    decreases orders.len(),
{
    if orders.len() == 0 || inc.qty.units() <= 0 {
        true
    } else if orders[0].qty.units() <= inc.qty.units() {
        exact_sub_fits(inc.qty, orders[0].qty) && queue_exact(
            inc.with_qty(exact_difference(inc.qty, orders[0].qty)),
            orders.drop_first(),
        )
    } else {
        exact_sub_fits(orders[0].qty, inc.qty)
    }
}

/// No subtraction that matching `inc` against these levels, best first, takes has
/// to round.
pub open spec fn side_exact(
    inc: OrderModel,
    levels: Seq<LevelModel>,
    counter: int,
    trades: Seq<TradeModel>,
    filled: Seq<i32>,
) -> bool
    decreases levels.len(),
{
    if levels.len() == 0 || (inc.exc_type == OrderExcType::Limit && inc.price is None) || !crosses(
        inc,
        levels[0].price,
    ) {
        true
    } else {
        &&& queue_exact(inc, levels[0].orders)
        &&& match fill_queue(inc, levels[0].price, levels[0].orders, counter, trades, filled) {
            Some(q) => q.orders.len() > 0 || side_exact(
                q.incoming,
                levels.drop_first(),
                q.counter,
                q.trades,
                q.filled,
            ),
            None => true,
        }
    }
}

/// Processing `inc` against `b` takes no subtraction of quantities that has to round.
pub open spec fn match_exact(b: BookModel, inc: OrderModel) -> bool {
    side_exact(inc, b.side(opposite(inc.order_type)), b.trade_counter, seq![], seq![])
}

/// Every quantity resting on these levels is a valid decimal.
pub open spec fn quantities_valid(levels: Seq<LevelModel>) -> bool {
    forall|k: int| 0 <= k < priority_order(levels).len() ==> (#[trigger] priority_order(levels)[k]).qty.wf()
}

/// No quantity resting on these levels is negative.
pub open spec fn quantities_not_negative(levels: Seq<LevelModel>) -> bool {
    forall|k: int|
        0 <= k < priority_order(levels).len() ==> (#[trigger] priority_order(levels)[k]).qty.units()
            >= 0
}

/// A subtraction that need not round gives the exact difference, a valid decimal.
pub proof fn lemma_exact_step(a: DecimalModel, b: DecimalModel)
    requires
        a.wf(),
        b.wf(),
        exact_sub_fits(a, b),
    ensures
        checked_difference(a, b) == Some(exact_difference(a, b)),
        exact_difference(a, b).units() == a.units() - b.units(),
        exact_difference(a, b).wf(),
{
    lemma_exact_difference_units(a, b);
}

pub proof fn lemma_traded_units_push(trades: Seq<TradeModel>, t: TradeModel)
    ensures
        traded_units(trades.push(t)) == traded_units(trades) + t.qty.units(),
{
    assert(trades.push(t).drop_last() =~= trades);
}

pub proof fn lemma_fill_queue_conserves(
    inc: OrderModel,
    price: DecimalModel,
    orders: Seq<OrderModel>,
    counter: int,
    trades: Seq<TradeModel>,
    filled: Seq<i32>,
)
    requires
        fill_queue(inc, price, orders, counter, trades, filled) is Some,
        queue_exact(inc, orders),
        inc.qty.wf(),
        forall|j: int| 0 <= j < orders.len() ==> (#[trigger] orders[j]).qty.wf(),
    ensures
        ({
            let q = fill_queue(inc, price, orders, counter, trades, filled)->0;
            &&& q.incoming.qty.wf()
            &&& inc.qty.units() + traded_units(trades) == q.incoming.qty.units() + traded_units(q.trades)
            &&& inc.qty.units() >= 0 && (forall|j: int|
                0 <= j < orders.len() ==> (#[trigger] orders[j]).qty.units() >= 0) ==> {
                &&& q.incoming.qty.units() >= 0
                &&& traded_units(trades) <= traded_units(q.trades)
            }
        }),
    decreases orders.len(),
{
    if orders.len() == 0 || inc.qty.units() <= 0 {
    } else {
        let r = orders[0];
        if r.qty.units() <= inc.qty.units() {
            lemma_exact_step(inc.qty, r.qty);
            let left = checked_difference(inc.qty, r.qty)->0;
            let t = crate::matching::make_trade(inc, r, price, r.qty);
            lemma_traded_units_push(trades, t);
            let rest = orders.drop_first();
            assert forall|j: int| 0 <= j < rest.len() implies (#[trigger] rest[j]).qty.wf()
                && rest[j] == orders[j + 1] by {
                assert(rest[j] == orders[j + 1]);
            }
            lemma_fill_queue_conserves(
                inc.with_qty(left),
                price,
                rest,
                counter + 1,
                trades.push(t),
                filled.push(r.id),
            );
        } else {
            let t = crate::matching::make_trade(inc, r, price, inc.qty);
            lemma_traded_units_push(trades, t);
            lemma_zero_units(inc.qty.scale);
        }
    }
}

proof fn lemma_fill_side_conserves(
    inc: OrderModel,
    levels: Seq<LevelModel>,
    counter: int,
    trades: Seq<TradeModel>,
    filled: Seq<i32>,
)
    requires
        fill_side(inc, levels, counter, trades, filled) is Some,
        side_exact(inc, levels, counter, trades, filled),
        inc.qty.wf(),
        quantities_valid(levels),
    ensures
        ({
            let s = fill_side(inc, levels, counter, trades, filled)->0;
            &&& inc.qty.units() + traded_units(trades) == s.incoming.qty.units() + traded_units(s.trades)
            &&& inc.qty.units() >= 0 && quantities_not_negative(levels) ==> {
                &&& s.incoming.qty.units() >= 0
                &&& traded_units(trades) <= traded_units(s.trades)
            }
        }),
    decreases levels.len(),
{
    if levels.len() > 0 && !(inc.exc_type == OrderExcType::Limit && inc.price is None) && crosses(
        inc,
        levels[0].price,
    ) {
        let l = levels[0];
        let rest = levels.drop_first();
        assert(priority_order(levels) == l.orders + priority_order(rest));
        assert forall|j: int| 0 <= j < l.orders.len() implies (#[trigger] l.orders[j]).qty.wf() && (
        quantities_not_negative(levels) ==> l.orders[j].qty.units() >= 0) by {
            assert(priority_order(levels)[j] == l.orders[j]);
        }
        lemma_fill_queue_conserves(inc, l.price, l.orders, counter, trades, filled);
        let q = fill_queue(inc, l.price, l.orders, counter, trades, filled)->0;
        if q.orders.len() == 0 {
            assert forall|k: int| 0 <= k < priority_order(rest).len() implies (#[trigger] priority_order(
                rest,
            )[k]).qty.wf() && (quantities_not_negative(levels) ==> priority_order(rest)[k].qty.units()
                >= 0) by {
                assert(priority_order(levels)[l.orders.len() + k] == priority_order(rest)[k]);
            }
            lemma_fill_side_conserves(q.incoming, rest, q.counter, q.trades, q.filled);
        }
    }
}

/// Conservation of quantity: wherever processing takes no subtraction that has to
/// round, what the incoming order traded and what is left of it add up to what it
/// came with; where in addition no quantity met is negative, what is left lies
/// between zero and what it came with.
pub proof fn law_quantity_conservation(b: BookModel, inc: OrderModel)
    requires
        process(b, inc) is Some,
        match_exact(b, inc),
        inc.qty.wf(),
        quantities_valid(b.side(opposite(inc.order_type))),
    ensures
        inc.qty.units() == process(b, inc)->0.order.qty.units() + traded_units(
            process(b, inc)->0.trades,
        ),
        inc.qty.units() >= 0 && quantities_not_negative(b.side(opposite(inc.order_type))) ==> 0
            <= process(b, inc)->0.order.qty.units() <= inc.qty.units(),
{
    lemma_fill_side_conserves(inc, b.side(opposite(inc.order_type)), b.trade_counter, seq![], seq![]);
    assert(traded_units(Seq::<TradeModel>::empty()) == 0);
}

/// Matching goes on while it can: where something of the incoming order is left,
/// no level of the opposite side that it crosses is left after processing (a market
/// order leaves that side empty).
pub proof fn law_match_exhausts(b: BookModel, inc: OrderModel)
    requires
        b.wf(),
        process(b, inc) is Some,
    ensures
        process(b, inc)->0.order.qty.units() > 0 ==> {
            let opp = process(b, inc)->0.book.side(opposite(inc.order_type));
            opp.len() == 0 || !crosses(inc, opp[0].price)
        },
{
    let side = opposite(inc.order_type);
    let levels = b.side(side);
    assert forall|i: int| 0 <= i < levels.len() implies (#[trigger] levels[i]).orders.len() > 0 by {
        assert(crate::matching::level_wf(levels[i], side));
    }
    lemma_fill_side_facts(inc, levels, b.trade_counter, seq![], seq![]);
    lemma_fill_side_same_fields(inc, levels, b.trade_counter, seq![], seq![]);
    let m = match_incoming(b, inc)->0;
    let out = process(b, inc)->0;
    assert(m.book.side(side) == fill_side(inc, levels, b.trade_counter, seq![], seq![])->0.levels);
    if m.order.qty.units() > 0 && m.order.exc_type == OrderExcType::Limit {
        let p = m.order.price->0;
        assert(out.book.side(side) == m.book.side(side));
    } else {
        assert(out.book == m.book);
    }
}

// ---------------------------------------------------------------- laws of resting and cancelling

/// Resting an order whose id is nowhere in the book, then taking it off by its id,
/// gives back the book as it was and the order as it was.
pub proof fn law_insert_then_remove_restores(b: BookModel, o: OrderModel)
    requires
        b.wf(),
        o.price is Some,
        !b.index.contains_key(o.id),
        forall|i: int, j: int|
            0 <= i < b.side(o.order_type).len() && 0 <= j < b.side(o.order_type)[i].orders.len()
                ==> (#[trigger] b.side(o.order_type)[i].orders[j]).id != o.id,
    ensures
        book_remove(book_insert(b, o), o.id) == (b, Some(o)),
{
    let side = o.order_type;
    let p = o.price->0;
    let levels = b.side(side);
    lemma_insert_position_props(levels, side, p);
    let i = insert_position(levels, side, p) as int;
    let new_levels = side_insert(levels, side, o, p);
    assert forall|k: int| 0 <= k < i implies (#[trigger] new_levels[k].price).units() != p.units() by {
        assert(new_levels[k] == levels[k]);
        assert(ahead(side, levels[k].price, p));
    }
    crate::matching::lemma_level_index(new_levels, p, i);
    let bi = book_insert(b, o);
    assert(bi.index[o.id].price == p);
    assert(bi.side(side) == new_levels);
    if i < levels.len() && levels[i].price.units() == p.units() {
        let olds = levels[i].orders;
        let news = olds.push(o);
        assert(new_levels[i].orders == news);
        assert forall|k: int| 0 <= k < olds.len() implies (#[trigger] news[k]).id != o.id by {
            assert(news[k] == olds[k]);
            assert(levels[i].orders[k].id != o.id);
        }
        crate::matching::lemma_order_position(news, o.id, olds.len() as int);
        assert(news.remove(olds.len() as int) =~= olds);
        assert(crate::matching::level_wf(levels[i], side));
        assert(new_levels.update(i, LevelModel { price: levels[i].price, orders: olds }) =~= levels);
    } else {
        crate::matching::lemma_order_position(seq![o], o.id, 0);
        assert(new_levels.remove(i) =~= levels);
    }
    assert(bi.index.remove(o.id) =~= b.index);
}

/// An id that was taken off the book is no longer indexed, and an order taken off
/// is the order with that id.
pub proof fn law_removed_id_leaves_index(b: BookModel, id: i32)
    ensures
        !book_remove(b, id).0.index.contains_key(id),
        book_remove(b, id).1 matches Some(o) ==> o.id == id,
{
    if b.index.contains_key(id) {
        let ptr = b.index[id];
        let levels = b.side(ptr.order_type);
        crate::matching::lemma_level_index_bound(levels, ptr.price);
        let i = level_index(levels, ptr.price) as int;
        if i < levels.len() {
            crate::matching::lemma_order_position_bound(levels[i].orders, id);
        }
    }
}

// ---------------------------------------------------------------- the best prices

/// The best bid is priced at or above every resting bid, and every other bid at
/// its price is younger; likewise the best ask is priced at or below every ask.
pub proof fn law_best_prices(b: BookModel)
    requires
        b.wf(),
    ensures
        best(b.bids) matches Some(o) ==> forall|i: int, j: int|
            0 <= i < b.bids.len() && 0 <= j < b.bids[i].orders.len() ==> {
                let r = #[trigger] b.bids[i].orders[j];
                &&& r.price->0.units() <= o.price->0.units()
                &&& r.price->0.units() == o.price->0.units() ==> i == 0
            },
        best(b.asks) matches Some(o) ==> forall|i: int, j: int|
            0 <= i < b.asks.len() && 0 <= j < b.asks[i].orders.len() ==> {
                let r = #[trigger] b.asks[i].orders[j];
                &&& r.price->0.units() >= o.price->0.units()
                &&& r.price->0.units() == o.price->0.units() ==> i == 0
            },
{
    if b.bids.len() > 0 {
        assert(crate::matching::level_wf(b.bids[0], OrderType::Bid));
        assert(rests_at(b.bids[0].orders[0], OrderType::Bid, b.bids[0].price));
        assert forall|i: int, j: int| 0 <= i < b.bids.len() && 0 <= j < b.bids[i].orders.len() implies {
            let r = #[trigger] b.bids[i].orders[j];
            &&& r.price->0.units() <= best(b.bids)->0.price->0.units()
            &&& r.price->0.units() == best(b.bids)->0.price->0.units() ==> i == 0
        } by {
            assert(crate::matching::level_wf(b.bids[i], OrderType::Bid));
            assert(rests_at(b.bids[i].orders[j], OrderType::Bid, b.bids[i].price));
            if i > 0 {
                assert(ahead(OrderType::Bid, b.bids[0].price, b.bids[i].price));
            }
        }
    }
    if b.asks.len() > 0 {
        assert(crate::matching::level_wf(b.asks[0], OrderType::Ask));
        assert(rests_at(b.asks[0].orders[0], OrderType::Ask, b.asks[0].price));
        assert forall|i: int, j: int| 0 <= i < b.asks.len() && 0 <= j < b.asks[i].orders.len() implies {
            let r = #[trigger] b.asks[i].orders[j];
            &&& r.price->0.units() >= best(b.asks)->0.price->0.units()
            &&& r.price->0.units() == best(b.asks)->0.price->0.units() ==> i == 0
        } by {
            assert(crate::matching::level_wf(b.asks[i], OrderType::Ask));
            assert(rests_at(b.asks[i].orders[j], OrderType::Ask, b.asks[i].price));
            if i > 0 {
                assert(ahead(OrderType::Ask, b.asks[0].price, b.asks[i].price));
            }
        }
    }
}

} // verus!
