use std::sync::mpsc;

use chrono::{DateTime, Duration, Utc};
use order_book_engine::decimal::Decimal;
use order_book_engine::order::{Order, OrderExcType, OrderStatus, OrderType, Timestamp};
use order_book_engine::orderbook::OrderBook;
use order_book_engine::trade::Trade;

fn ts(t: DateTime<Utc>) -> Timestamp {
    Timestamp::new(t.timestamp(), t.timestamp_subsec_nanos())
}

fn make_order(id: i32, order_type: OrderType, price: Decimal) -> Order {
    Order {
        id,
        order_type,
        exc_type: OrderExcType::Limit,
        price: Some(price),
        qty: Decimal::new(100, 1),
        status: OrderStatus::Open,
        timestamp: ts(Utc::now()),
        expiration: ts(Utc::now()),
    }
}

fn setup_test_orderbook() -> (OrderBook, mpsc::Receiver<Trade>) {
    let (tx, rx) = mpsc::channel::<Trade>();
    let orderbook = OrderBook::new(tx);
    (orderbook, rx)
}

fn limit(id: i32, order_type: OrderType, qty: Decimal, price: Decimal) -> Order {
    Order {
        id,
        qty,
        price: Some(price),
        order_type,
        exc_type: OrderExcType::Limit,
        status: OrderStatus::Open,
        timestamp: ts(Utc::now()),
        expiration: ts(Utc::now() + Duration::minutes(2)),
    }
}

#[test]
fn test_insert_bid_order() {
    let (tx, _rx) = mpsc::channel();
    let mut orderbook = OrderBook::new(tx);
    let price = Decimal::new(1005, 1);
    let bid_order = make_order(1, OrderType::Bid, price);
    orderbook.insert_order(bid_order);

    let queue = orderbook.bids_at(&price).expect("Bid queue missing at this price lavel.");
    assert_eq!(queue.len(), 1);
    assert_eq!(queue[0].id, 1);
}

#[test]
fn test_insert_ask_order() {
    let (tx, _rx) = mpsc::channel();
    let mut orderbook = OrderBook::new(tx);
    let price = Decimal::new(1205, 1);
    let ask_order = make_order(5, OrderType::Ask, price);
    orderbook.insert_order(ask_order);

    let queue = orderbook.asks_at(&price).expect("Ask queue missing at this price.");
    assert_eq!(queue.len(), 1);
    assert_eq!(queue[0].id, 5);
}

#[test]
#[should_panic(expected = "Limit Order must have value.")]
fn test_insert_maket_order_panic() {
    let (tx, _rx) = mpsc::channel();
    let mut orderbook = OrderBook::new(tx);
    let market_order = Order {
        id: 5,
        order_type: OrderType::Bid,
        exc_type: OrderExcType::Market,
        price: None,
        qty: Decimal::new(500, 1),
        status: OrderStatus::Open,
        timestamp: ts(Utc::now()),
        expiration: ts(Utc::now()),
    };
    orderbook.insert_order(market_order);
}

#[test]
fn test_remove_bid_order() {
    let (tx, _rx) = mpsc::channel();
    let mut orderbook = OrderBook::new(tx);
    let price = Decimal::new(1000, 1);

    let bid_order = make_order(10, OrderType::Bid, price);
    orderbook.insert_order(bid_order);

    let removed = orderbook.remove_order(bid_order.id);
    let removed_order = removed.expect("Expected an order to be returned.");
    assert_eq!(removed_order.id, bid_order.id);
    assert_eq!(removed_order.order_type, OrderType::Bid);

    assert!(orderbook.order_index.get(&10).is_none());
    assert!(
        orderbook.bids_at(&Decimal::new(1000, 1)).is_none(),
        "Queue should be completely removed if empty."
    )
}

#[test]
fn test_remove_ask_order() {
    let (tx, _rx) = mpsc::channel();
    let mut orderbook = OrderBook::new(tx);
    let price = Decimal::new(2890, 1);
    let ask_order = make_order(11, OrderType::Ask, price);
    orderbook.insert_order(ask_order);

    let removed = orderbook.remove_order(ask_order.id);
    let removed_order = removed.expect("Expected an order to be returned.");
    assert_eq!(removed_order.id, ask_order.id);
    assert_eq!(removed_order.order_type, OrderType::Ask);
    assert!(orderbook.order_index.get(&11).is_none());
    assert!(
        orderbook.asks_at(&Decimal::new(2890, 1)).is_none(),
        "Queue should be completely removed if empty."
    )
}

#[test]
fn test_remove_order_panic() {
    let (tx, _rx) = mpsc::channel();
    let mut orderbook = OrderBook::new(tx);
    let result = orderbook.remove_order(999);

    assert!(result.is_none(), "Removing a non-existent order must return None");
}

#[test]
fn test_best_bid_returns_highest_price() {
    let (tx, _rx) = mpsc::channel();
    let mut orderbook = OrderBook::new(tx);

    let low_bid = make_order(1, OrderType::Bid, Decimal::new(1000, 1));
    let high_bid = make_order(2, OrderType::Bid, Decimal::new(1050, 1));
    orderbook.insert_order(low_bid);
    orderbook.insert_order(high_bid);

    let best_bid = orderbook.best_bid().expect("Should return best bid");
    assert_eq!(best_bid.id, 2);
    assert_eq!(best_bid.price, Some(Decimal::new(1050, 1)));
}

#[test]
fn test_best_ask_returns_lowest_price() {
    let (tx, _rx) = mpsc::channel();
    let mut orderbook = OrderBook::new(tx);

    let high_ask = make_order(3, OrderType::Ask, Decimal::new(1200, 1));
    let low_ask = make_order(4, OrderType::Ask, Decimal::new(1150, 1));
    orderbook.insert_order(high_ask);
    orderbook.insert_order(low_ask);

    let best = orderbook.best_ask().expect("Should find a best ask.");
    assert_eq!(best.id, 4);
    assert_eq!(best.price, Some(Decimal::new(1150, 1)));
}

#[test]
fn test_best_prices_should_return_none() {
    let (tx, _rx) = mpsc::channel();
    let orderbook = OrderBook::new(tx);
    let best_bid = orderbook.best_bid();
    let best_ask = orderbook.best_ask();
    assert!(best_bid.is_none());
    assert!(best_ask.is_none());
}

#[test]
fn test_best_bid_fifo_at_same_price() {
    let (tx, _rx) = mpsc::channel();
    let mut orderbook = OrderBook::new(tx);
    let price = Decimal::new(1000, 1);
    let first_bid = make_order(10, OrderType::Bid, price);
    let second_bid = make_order(11, OrderType::Bid, price);
    orderbook.insert_order(first_bid);
    orderbook.insert_order(second_bid);

    let best_bid = orderbook.best_bid().expect("Should find a best bid.");
    assert_eq!(best_bid.id, first_bid.id);
    assert_eq!(best_bid.price, Some(price));
}

#[test]
fn test_price_time_priority_fifo() {
    let (mut ordebook, rx) = setup_test_orderbook();
    let order1 = Order {
        id: 1,
        price: Some(Decimal::new(1000, 1)),
        order_type: OrderType::Bid,
        exc_type: OrderExcType::Limit,
        status: OrderStatus::Open,
        qty: Decimal::new(40, 0),
        timestamp: ts(Utc::now()),
        expiration: ts(Utc::now() + Duration::minutes(5)),
    };
    let order2 = Order {
        id: 2,
        price: Some(Decimal::new(1000, 1)),
        order_type: OrderType::Bid,
        exc_type: OrderExcType::Limit,
        status: OrderStatus::Open,
        qty: Decimal::new(10, 0),
        timestamp: ts(Utc::now()),
        expiration: ts(Utc::now() + Duration::minutes(5)),
    };
    ordebook.process_order(order1);
    ordebook.process_order(order2);

    let sell_order = Order {
        id: 3,
        order_type: OrderType::Ask,
        exc_type: OrderExcType::Limit,
        price: Some(Decimal::new(1000, 1)),
        qty: Decimal::new(45, 0),
        status: OrderStatus::Open,
        timestamp: ts(Utc::now()),
        expiration: ts(Utc::now() + Duration::minutes(5)),
    };
    let returned_sell = ordebook.process_order(sell_order);
    assert_eq!(returned_sell.status, OrderStatus::Filled);
    assert_eq!(returned_sell.qty, Decimal::new(0, 0));
    assert!(ordebook.order_index.get(&1).is_none());
    assert!(ordebook.order_index.get(&2).is_some());
    let queue = ordebook
        .bids_at(&Decimal::new(1000, 1))
        .expect("Orderbook must contain the left orders.");
    assert_eq!(queue[0].qty, Decimal::new(5, 0));
    assert_eq!(queue[0].id, 2);

    let trade = rx.try_recv().expect("First trade execution report missing.");
    assert_eq!(trade.buy_order_id, 1);
    assert_eq!(trade.sell_order_id, 3);
    assert_eq!(trade.price, Decimal::new(1000, 1));
    assert_eq!(trade.qty, Decimal::new(40, 0));

    let trade_2 = rx.try_recv().expect("Second trade execution report missing");
    assert_eq!(trade_2.buy_order_id, 2);
    assert_eq!(trade.price, Decimal::new(1000, 1));
    assert_eq!(trade.sell_order_id, 3);
    assert_eq!(trade_2.qty, Decimal::new(5, 0));
    assert!(rx.try_recv().is_err(), "There should be no third trade in the channel");
}

#[test]
fn test_market_order_multilevel_sweep_and_expiry() {
    let (mut orderbook, rx) = setup_test_orderbook();
    let ask_level_1 = Order {
        id: 10,
        qty: Decimal::new(5, 0),
        price: Some(Decimal::new(101, 0)),
        order_type: OrderType::Ask,
        exc_type: OrderExcType::Limit,
        status: OrderStatus::Open,
        timestamp: ts(Utc::now()),
        expiration: ts(Utc::now() + Duration::minutes(2)),
    };
    let ask_level_2 = Order {
        id: 11,
        qty: Decimal::new(10, 0),
        price: Some(Decimal::new(102, 0)),
        order_type: OrderType::Ask,
        exc_type: OrderExcType::Limit,
        status: OrderStatus::Open,
        timestamp: ts(Utc::now()),
        expiration: ts(Utc::now() + Duration::minutes(2)),
    };
    orderbook.process_order(ask_level_1);
    orderbook.process_order(ask_level_2);

    let market_buy = Order {
        id: 12,
        qty: Decimal::new(20, 0),
        price: None,
        order_type: OrderType::Bid,
        exc_type: OrderExcType::Market,
        status: OrderStatus::Open,
        timestamp: ts(Utc::now()),
        expiration: ts(Utc::now() + Duration::minutes(2)),
    };
    let returned_buy = orderbook.process_order(market_buy);
    assert_eq!(returned_buy.status, OrderStatus::Cancelled);
    assert_eq!(returned_buy.qty, Decimal::new(5, 0));
    assert!(orderbook.order_index.get(&11).is_none());

    assert!(orderbook.bids.is_empty());

    let trade_1 = rx.try_recv().unwrap();
    assert_eq!(trade_1.price, Decimal::new(101, 0));
    assert_eq!(trade_1.qty, Decimal::new(5, 0));

    let trade_2 = rx.try_recv().unwrap();
    assert_eq!(trade_2.price, Decimal::new(102, 0));
    assert_eq!(trade_2.qty, Decimal::new(10, 0));

    assert!(rx.try_recv().is_err(), "No more trades should exist");
}

#[test]
fn test_time_priority_preservation_after_middle_queue_cancel() {
    let (mut orderbook, rx) = setup_test_orderbook();

    let order_x = limit(100, OrderType::Bid, Decimal::new(10, 0), Decimal::new(50, 0));
    let order_y = limit(101, OrderType::Bid, Decimal::new(10, 0), Decimal::new(50, 0));
    let order_z = limit(102, OrderType::Bid, Decimal::new(10, 0), Decimal::new(50, 0));
    orderbook.process_order(order_x);
    orderbook.process_order(order_y);
    orderbook.process_order(order_z);

    let cancelled = orderbook
        .cancel_order(101)
        .expect("Cancellation should return the modified order instance");
    assert_eq!(cancelled.status, OrderStatus::Cancelled);

    let inbound_sell = limit(103, OrderType::Ask, Decimal::new(15, 0), Decimal::new(50, 0));
    orderbook.process_order(inbound_sell);

    assert!(orderbook.order_index.get(&100).is_none());
    assert!(orderbook.order_index.get(&101).is_none());

    let remaining_order_z = orderbook.bids_at(&Decimal::new(50, 0)).unwrap().front().unwrap();
    assert_eq!(remaining_order_z.id, 102);
    assert_eq!(remaining_order_z.qty, Decimal::new(5, 0));

    let t1 = rx.try_recv().unwrap();
    assert_eq!(t1.sell_order_id, 103);

    let t2 = rx.try_recv().unwrap();
    assert_eq!(t2.buy_order_id, 102);
}

#[test]
fn test_time_priority_preservation_after_middle_cancel() {
    let (mut orderbook, rx) = setup_test_orderbook();

    let order_1 = limit(1, OrderType::Bid, Decimal::new(10, 0), Decimal::new(100, 0));
    let order_2 = limit(2, OrderType::Bid, Decimal::new(10, 0), Decimal::new(100, 0));
    let order_3 = limit(3, OrderType::Bid, Decimal::new(10, 0), Decimal::new(100, 0));

    orderbook.process_order(order_1);
    orderbook.process_order(order_2);
    orderbook.process_order(order_3);
    println!("OrderBook=> bids {:?} asks {:?}", orderbook.bids, orderbook.asks);

    let cancelled_order = orderbook.cancel_order(2);
    assert!(cancelled_order.is_some());
    assert_eq!(cancelled_order.unwrap().status, OrderStatus::Cancelled);
    println!("");
    println!("OrderBook after cancellation=> bids {:?} asks {:?}", orderbook.bids, orderbook.asks);
    let incoming_sell = limit(4, OrderType::Ask, Decimal::new(15, 0), Decimal::new(100, 0));
    orderbook.process_order(incoming_sell);
    println!("After processing sell-->");
    println!("OrderBook bids {:?} asks {:?}", orderbook.bids, orderbook.asks);

    assert!(orderbook.order_index.get(&1).is_none(), "Order 1 should be fully filled and removed");
    assert!(
        orderbook.order_index.get(&2).is_none(),
        "Order 2 was canceled and should remain removed"
    );
    assert!(orderbook.order_index.get(&3).is_some(), "Order 3 must still exist in the index map");

    let queue = orderbook.bids_at(&Decimal::new(100, 0)).expect("Price level $100 must exist");
    println!("QUEUE {:?}", queue);

    assert_eq!(queue.len(), 1, "Only Order 3 should be left in this queue");
    assert_eq!(queue[0].id, 3, "Order 3 must have preserved its position and shifted forward");
    assert_eq!(
        queue[0].qty,
        Decimal::new(5, 0),
        "Order 3 original 10 - 5 remaining incoming sell units = 5 left"
    );
    let trade_1 = rx.try_recv().expect("First trade execution report missing");
    assert_eq!(trade_1.buy_order_id, 1, "First trade must be against Order 1");
    assert_eq!(trade_1.qty, Decimal::new(10, 0));

    let trade_2 = rx.try_recv().expect("Second trade execution report missing");
    assert_eq!(trade_2.buy_order_id, 3, "Second trade must skip Order 2 and hit Order 3");
    assert_eq!(trade_2.qty, Decimal::new(5, 0));

    assert!(rx.try_recv().is_err(), "No more trades should exist in the channel buffer");
}

#[test]
fn test_too_late_cancel_on_fully_executed_order() {
    let (mut orderbook, _rx) = setup_test_orderbook();
    let resting_ask = limit(50, OrderType::Ask, Decimal::new(10, 0), Decimal::new(200, 0));
    orderbook.process_order(resting_ask);
    let incoming_bid = limit(51, OrderType::Bid, Decimal::new(10, 0), Decimal::new(200, 0));
    orderbook.process_order(incoming_bid);

    let cancelled_order = orderbook.cancel_order(50);
    assert!(
        cancelled_order.is_none(),
        "A cancel command sent to an already filled order must return None gracefully"
    );
}
