use chrono::Utc;
use order_book_engine::decimal::Decimal;
use order_book_engine::trade::Trade;

#[test]
fn trade_struct_construction() {
    let now = Utc::now();
    let trade = Trade {
        buy_order_id: 1,
        sell_order_id: 2,
        price: Decimal::new(520005, 1),
        qty: Decimal::new(10, 1),
        timestamp: now.timestamp_millis(),
    };
    assert_eq!(trade.qty, Decimal::new(10, 1));
    assert_eq!(trade.price, Decimal::new(520005, 1));
}

#[test]
fn trade_ordering_trade_by_timestamp() {
    let mut trades = vec![
        Trade {
            buy_order_id: 1,
            sell_order_id: 2,
            price: Decimal::new(10, 0),
            qty: Decimal::new(1, 0),
            timestamp: 3000,
        },
        Trade {
            buy_order_id: 1,
            sell_order_id: 3,
            price: Decimal::new(10, 0),
            qty: Decimal::new(1, 0),
            timestamp: 1000,
        },
        Trade {
            buy_order_id: 2,
            sell_order_id: 4,
            price: Decimal::new(10, 0),
            qty: Decimal::new(1, 0),
            timestamp: 2000,
        }
    ];
    trades.sort_by_key(|trade| trade.timestamp);
    assert_eq!(trades[0].timestamp, 1000);
    assert_eq!(trades[1].timestamp, 2000);
    assert_eq!(trades[2].timestamp, 3000);
}

#[test]
fn trade_log_line_lists_the_fields() {
    let trade = Trade {
        buy_order_id: 12,
        sell_order_id: -3,
        price: Decimal::new(520005, 1),
        qty: Decimal::new(5, 3),
        timestamp: 123456789,
    };
    assert_eq!(trade.log_line(), "12,-3,52000.5,0.005,123456789\n");
}

#[test]
fn decimal_text_matches_its_scale() {
    assert_eq!(Decimal::new(0, 0).to_text(), "0");
    assert_eq!(Decimal::new(0, 2).to_text(), "0.00");
    assert_eq!(Decimal::new(100, 1).to_text(), "10.0");
    assert_eq!(Decimal::new(-15, 3).to_text(), "-0.015");
    assert_eq!(Decimal::new(-1500, 0).to_text(), "-1500");
}

#[test]
fn trade_log_line_writes_zero_and_extreme_integers() {
    let trade = Trade {
        buy_order_id: 0,
        sell_order_id: i32::MIN,
        price: Decimal::new(1, 0),
        qty: Decimal::new(0, 0),
        timestamp: i64::MIN,
    };
    assert_eq!(trade.log_line(), "0,-2147483648,1,0,-9223372036854775808\n");
    let trade = Trade {
        buy_order_id: i32::MAX,
        sell_order_id: 10,
        price: Decimal::new(7, 0),
        qty: Decimal::new(1, 0),
        timestamp: i64::MAX,
    };
    assert_eq!(trade.log_line(), "2147483647,10,7,1,9223372036854775807\n");
}
