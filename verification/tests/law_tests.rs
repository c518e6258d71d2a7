use std::sync::mpsc;

use order_book_engine::decimal::Decimal;
use order_book_engine::logger::Logger;
use order_book_engine::order::{Order, OrderExcType, OrderStatus, OrderType, Timestamp};
use order_book_engine::orderbook::OrderBook;
use order_book_engine::trade::Trade;

fn order(id: i32, side: OrderType, exc: OrderExcType, price: Option<Decimal>, qty: Decimal) -> Order {
    Order {
        id,
        order_type: side,
        exc_type: exc,
        price,
        qty,
        status: OrderStatus::Open,
        timestamp: Timestamp::new(1_700_000_000, 0),
        expiration: Timestamp::new(1_700_086_400, 0),
    }
}

fn bid(id: i32, qty: i64, price: i64) -> Order {
    order(id, OrderType::Bid, OrderExcType::Limit, Some(Decimal::new(price, 0)), Decimal::new(qty, 0))
}

fn ask(id: i32, qty: i64, price: i64) -> Order {
    order(id, OrderType::Ask, OrderExcType::Limit, Some(Decimal::new(price, 0)), Decimal::new(qty, 0))
}

fn book() -> (OrderBook, mpsc::Receiver<Trade>) {
    let (tx, rx) = mpsc::channel();
    (OrderBook::new(tx), rx)
}

#[test]
fn trades_follow_price_then_time_priority() {
    let (mut b, _rx) = book();
    b.process_order(ask(1, 5, 103));
    b.process_order(ask(2, 5, 101));
    b.process_order(ask(3, 5, 102));
    b.process_order(ask(4, 5, 101));
    let (left, trades) = b.execute_order(bid(9, 17, 103));
    let ids: Vec<i32> = trades.iter().map(|t| t.sell_order_id).collect();
    assert_eq!(ids, vec![2, 4, 3, 1]);
    let prices: Vec<Decimal> = trades.iter().map(|t| t.price).collect();
    assert_eq!(prices, vec![Decimal::new(101, 0), Decimal::new(101, 0), Decimal::new(102, 0), Decimal::new(103, 0)]);
    assert_eq!(trades[3].qty, Decimal::new(2, 0));
    assert_eq!(left.status, OrderStatus::Filled);
    assert!(trades.iter().all(|t| t.buy_order_id == 9 && t.timestamp == 123456789));
}

#[test]
fn limit_order_trades_only_within_its_limit() {
    let (mut b, _rx) = book();
    b.process_order(bid(1, 5, 100));
    b.process_order(bid(2, 5, 98));
    let (left, trades) = b.execute_order(ask(3, 20, 99));
    assert_eq!(trades.len(), 1);
    assert_eq!(trades[0].price, Decimal::new(100, 0));
    assert_eq!(trades[0].buy_order_id, 1);
    assert_eq!(left.qty, Decimal::new(15, 0));
    assert_eq!(left.status, OrderStatus::Open);
    // the rest of the ask rests at its limit, and the book stays uncrossed
    assert_eq!(b.best_ask().unwrap().id, 3);
    assert_eq!(b.best_bid().unwrap().id, 2);
    assert!(b.best_bid().unwrap().price.unwrap().compare(&b.best_ask().unwrap().price.unwrap()) < 0);
}

#[test]
fn processed_quantity_is_conserved() {
    let (mut b, _rx) = book();
    b.process_order(ask(1, 7, 10));
    b.process_order(ask(2, 4, 11));
    let incoming = bid(3, 20, 11);
    let (left, trades) = b.execute_order(incoming);
    let mut total = left.qty.mantissa();
    for t in &trades {
        total += t.qty.mantissa();
    }
    assert_eq!(total, 20);
    assert_eq!(left.qty, Decimal::new(9, 0));
}

#[test]
fn trade_counter_counts_trades() {
    let (mut b, _rx) = book();
    b.process_order(ask(1, 1, 10));
    b.process_order(ask(2, 1, 10));
    b.process_order(ask(3, 1, 10));
    assert_eq!(b.trade_counter, 0);
    let (_, trades) = b.execute_order(bid(4, 2, 10));
    assert_eq!(trades.len(), 2);
    assert_eq!(b.trade_counter, 2);
}

#[test]
fn market_order_never_rests() {
    let (mut b, _rx) = book();
    b.process_order(ask(1, 3, 10));
    let m = order(2, OrderType::Bid, OrderExcType::Market, None, Decimal::new(8, 0));
    let out = b.process_order(m);
    assert_eq!(out.status, OrderStatus::Cancelled);
    assert_eq!(out.qty, Decimal::new(5, 0));
    assert!(b.bids.is_empty());
    assert!(b.asks.is_empty());
    assert!(b.order_index.get(&2).is_none());
}

#[test]
fn market_order_on_empty_book_is_cancelled_whole() {
    let (mut b, rx) = book();
    let m = order(2, OrderType::Ask, OrderExcType::Market, None, Decimal::new(8, 0));
    let out = b.process_order(m);
    assert_eq!(out.status, OrderStatus::Cancelled);
    assert_eq!(out.qty, Decimal::new(8, 0));
    assert!(rx.try_recv().is_err());
}

#[test]
fn insert_then_remove_restores_the_book() {
    let (mut b, _rx) = book();
    b.insert_order(bid(1, 5, 100));
    b.insert_order(bid(2, 5, 99));
    let o = bid(3, 5, 100);
    b.insert_order(o);
    let removed = b.remove_order(3).unwrap();
    assert_eq!(removed.id, 3);
    assert_eq!(removed.qty, Decimal::new(5, 0));
    assert_eq!(b.bids.len(), 2);
    assert_eq!(b.bids_at(&Decimal::new(100, 0)).unwrap().len(), 1);
    assert!(b.order_index.get(&3).is_none());
    assert_eq!(b.order_index.len(), 2);
}

#[test]
fn cancelled_id_leaves_the_index() {
    let (mut b, _rx) = book();
    b.insert_order(ask(1, 5, 100));
    let c = b.cancel_order(1).unwrap();
    assert_eq!(c.id, 1);
    assert_eq!(c.status, OrderStatus::Cancelled);
    assert!(b.order_index.get(&1).is_none());
    assert!(b.cancel_order(1).is_none());
    assert!(b.asks.is_empty());
}

#[test]
fn best_prices_are_best_and_oldest() {
    let (mut b, _rx) = book();
    b.insert_order(bid(1, 5, 99));
    b.insert_order(bid(2, 5, 101));
    b.insert_order(bid(3, 5, 101));
    b.insert_order(ask(4, 5, 105));
    b.insert_order(ask(5, 5, 103));
    b.insert_order(ask(6, 5, 103));
    assert_eq!(b.best_bid().unwrap().id, 2);
    assert_eq!(b.best_ask().unwrap().id, 5);
}

#[test]
fn equal_prices_of_other_scale_share_a_level() {
    let (mut b, _rx) = book();
    b.insert_order(order(1, OrderType::Bid, OrderExcType::Limit, Some(Decimal::new(100, 0)), Decimal::new(1, 0)));
    b.insert_order(order(2, OrderType::Bid, OrderExcType::Limit, Some(Decimal::new(10000, 2)), Decimal::new(1, 0)));
    assert_eq!(b.bids.len(), 1);
    let q = b.bids_at(&Decimal::new(1000, 1)).unwrap();
    assert_eq!(q.len(), 2);
    assert_eq!(q[1].id, 2);
}

#[test]
fn partial_fill_marks_resting_order() {
    let (mut b, rx) = book();
    b.process_order(ask(1, 10, 50));
    let out = b.process_order(bid(2, 4, 50));
    assert_eq!(out.status, OrderStatus::Filled);
    let q = b.asks_at(&Decimal::new(50, 0)).unwrap();
    assert_eq!(q[0].status, OrderStatus::PartiallyFilled);
    assert_eq!(q[0].qty, Decimal::new(6, 0));
    let t = rx.try_recv().unwrap();
    assert_eq!((t.buy_order_id, t.sell_order_id), (2, 1));
    assert_eq!(t.qty, Decimal::new(4, 0));
}

#[test]
fn can_process_refuses_limit_without_price() {
    let (mut b, _rx) = book();
    b.insert_order(ask(1, 5, 100));
    let no_price = order(2, OrderType::Bid, OrderExcType::Limit, None, Decimal::new(5, 0));
    assert!(!b.can_process(&no_price));
    assert!(b.try_process_order(no_price).is_none());
    assert_eq!(b.asks.len(), 1);
    assert_eq!(b.best_ask().unwrap().qty, Decimal::new(5, 0));
    // with nothing to meet and nothing to rest it goes through
    let (tx, _rx2) = mpsc::channel();
    let mut empty = OrderBook::new(tx);
    let zero = order(3, OrderType::Bid, OrderExcType::Limit, None, Decimal::new(0, 0));
    assert!(empty.can_process(&zero));
    assert_eq!(empty.try_process_order(zero).unwrap().status, OrderStatus::Filled);
}

#[test]
fn can_process_refuses_counter_overflow() {
    let (mut b, _rx) = book();
    b.insert_order(ask(1, 1, 10));
    b.insert_order(ask(2, 1, 10));
    b.trade_counter = i32::MAX - 1;
    assert!(b.can_process(&bid(3, 1, 10)));
    assert!(!b.can_process(&bid(3, 2, 10)));
    assert!(b.try_process_order(bid(3, 2, 10)).is_none());
    assert_eq!(b.trade_counter, i32::MAX - 1);
    let done = b.try_process_order(bid(3, 1, 10)).unwrap();
    assert_eq!(done.status, OrderStatus::Filled);
    assert_eq!(b.trade_counter, i32::MAX);
}

#[test]
fn can_process_refuses_quantity_overflow() {
    let (mut b, _rx) = book();
    let huge = Decimal::from_i128_with_scale(79228162514264337593543950335, 0);
    let neg = Decimal::from_i128_with_scale(-79228162514264337593543950335, 0);
    b.insert_order(order(1, OrderType::Ask, OrderExcType::Limit, Some(Decimal::new(10, 0)), neg));
    let incoming = order(2, OrderType::Bid, OrderExcType::Limit, Some(Decimal::new(10, 0)), huge);
    assert!(!b.can_process(&incoming));
    assert!(b.try_process_order(incoming).is_none());
    assert_eq!(b.asks.len(), 1);
}

#[test]
fn update_order_changes_nothing() {
    let (mut b, _rx) = book();
    b.insert_order(bid(1, 5, 100));
    b.update_order(bid(1, 9, 101));
    assert_eq!(b.best_bid().unwrap().qty, Decimal::new(5, 0));
    assert_eq!(b.bids.len(), 1);
}

#[test]
fn logger_keeps_its_path() {
    let logger = Logger::new("trade.log");
    assert_eq!(logger.file_path, "trade.log");
}

#[test]
fn every_resting_order_can_be_cancelled() {
    let (mut b, _rx) = book();
    b.process_order(bid(1, 5, 100));
    b.process_order(bid(2, 5, 99));
    b.process_order(ask(3, 5, 103));
    b.process_order(ask(4, 8, 101));
    b.process_order(ask(5, 7, 100));
    b.process_order(bid(6, 9, 102));
    let mut ids: Vec<i32> = b.order_index.keys().copied().collect();
    ids.sort();
    assert_eq!(ids, vec![2, 3, 4]);
    for id in ids {
        let c = b.cancel_order(id).expect("a resting order can be cancelled");
        assert_eq!(c.id, id);
    }
    assert!(b.bids.is_empty());
    assert!(b.asks.is_empty());
    assert!(b.order_index.is_empty());
}

#[test]
fn resting_quantity_never_exceeds_submissions() {
    let (mut b, _rx) = book();
    let orders = vec![bid(1, 5, 100), ask(2, 3, 99), ask(3, 10, 101), bid(4, 12, 101), bid(5, 1, 98)];
    let mut submitted = 0i128;
    for o in orders {
        submitted += o.qty.mantissa();
        b.process_order(o);
    }
    let mut resting = 0i128;
    for level in b.bids.iter().chain(b.asks.iter()) {
        for o in level.orders.iter() {
            resting += o.qty.mantissa();
        }
    }
    // 5 + 3 + 10 + 12 + 1 submitted; 3 traded at 100, 10 at 101: 31 - 2 * 13 = 5 rest
    assert_eq!(submitted, 31);
    assert_eq!(resting, 5);
}

#[test]
fn mixed_scale_quantity_is_conserved() {
    let (mut b, rx) = book();
    let price = Some(Decimal::new(10, 0));
    b.process_order(order(1, OrderType::Ask, OrderExcType::Limit, price, Decimal::new(15, 1)));
    b.process_order(order(2, OrderType::Ask, OrderExcType::Limit, price, Decimal::new(25, 2)));
    let left = b.process_order(order(3, OrderType::Bid, OrderExcType::Limit, price, Decimal::new(2, 0)));
    // 2 - 1.5 = 0.5, then 0.5 - 0.25 = 0.25, written at the finer scale
    assert_eq!(left.qty.mantissa(), 25);
    assert_eq!(left.qty.scale(), 2);
    let t1 = rx.try_recv().unwrap();
    let t2 = rx.try_recv().unwrap();
    assert!(rx.try_recv().is_err());
    assert_eq!(t1.qty, Decimal::new(15, 1));
    assert_eq!(t2.qty, Decimal::new(25, 2));
    let traded = t1.qty.checked_sub(&Decimal::new(0, 0)).unwrap();
    let sum_left = Decimal::new(2, 0).checked_sub(&traded).unwrap().checked_sub(&t2.qty).unwrap();
    assert_eq!(sum_left, left.qty);
    // what is left rests as a bid; the asks are gone
    assert!(b.asks.is_empty());
    assert_eq!(b.best_bid().unwrap().id, 3);
    assert_eq!(b.best_bid().unwrap().qty, Decimal::new(25, 2));
}

#[test]
fn partial_fill_across_scales_leaves_a_positive_rest() {
    let (mut b, _rx) = book();
    let price = Some(Decimal::new(10, 0));
    b.process_order(order(1, OrderType::Ask, OrderExcType::Limit, price, Decimal::new(15, 1)));
    let left = b.process_order(order(2, OrderType::Bid, OrderExcType::Market, None, Decimal::new(25, 2)));
    assert_eq!(left.status, OrderStatus::Filled);
    assert!(left.qty.is_zero());
    let resting = b.best_ask().unwrap();
    assert_eq!(resting.id, 1);
    assert_eq!(resting.qty.mantissa(), 125);
    assert_eq!(resting.qty.scale(), 2);
    assert!(resting.qty.is_positive());
    assert_eq!(resting.status, OrderStatus::PartiallyFilled);
}

#[test]
fn rounded_remainder_is_never_negative() {
    let (mut b, rx) = book();
    let price = Some(Decimal::new(1, 0));
    b.process_order(order(1, OrderType::Ask, OrderExcType::Limit, price, Decimal::new(5, 1)));
    let huge = Decimal::from_i128_with_scale(79228162514264337593543950335, 0);
    let incoming = order(2, OrderType::Bid, OrderExcType::Limit, price, huge);
    assert!(b.can_process(&incoming));
    let left = b.process_order(incoming);
    // 79228162514264337593543950335 - 0.5 does not fit at one digit after the point
    // and is rounded; what is left is still positive and rests
    assert!(left.qty.is_positive());
    assert_eq!(left.status, OrderStatus::Open);
    assert_eq!(rx.try_recv().unwrap().qty, Decimal::new(5, 1));
    assert!(b.asks.is_empty());
    assert!(b.best_bid().unwrap().qty.is_positive());
}
