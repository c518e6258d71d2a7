use chrono::{DateTime, Duration, TimeZone, Utc};
use order_book_engine::decimal::Decimal;
use order_book_engine::order::{Order, OrderExcType, OrderStatus, OrderType, Timestamp};

fn ts(t: DateTime<Utc>) -> Timestamp {
    Timestamp::new(t.timestamp(), t.timestamp_subsec_nanos())
}

#[test]
fn order_struct_construction() {
    let now = Utc::now();
    let order = Order {
        id: 1,
        order_type: OrderType::Bid,
        exc_type: OrderExcType::Limit,
        price: Some(Decimal::new(520005, 1)),
        qty: Decimal::new(15, 1),
        status: OrderStatus::Open,
        timestamp: ts(now),
        expiration: ts(now + Duration::days(1)),
    };
    assert_eq!(order.id, 1);
    assert_eq!(order.price, Some(Decimal::new(520005, 1)));
}

#[test]
fn test_ordering_orders_by_timestamp() {
    let base_time = Utc.with_ymd_and_hms(2026, 09, 13, 21, 0, 0).unwrap();
    let early_time = base_time - Duration::minutes(10);
    let late_time = base_time + Duration::minutes(10);

    let make_order = |id: i32, time: DateTime<Utc>| Order {
        id: id,
        order_type: OrderType::Ask,
        exc_type: OrderExcType::Market,
        price: Some(Decimal::new(125, 1)),
        qty: Decimal::new(35, 1),
        status: OrderStatus::Open,
        timestamp: ts(time),
        expiration: ts(time + Duration::days(1)),
    };
    let mut orders = vec![make_order(3, late_time), make_order(1, early_time), make_order(2, base_time)];
    orders.sort_by_key(|order| order.timestamp);
    assert_eq!(orders[0].id, 1, "Oldest order should be first");
    assert_eq!(orders[1].id, 2, "Middle order should be second");
    assert_eq!(orders[2].id, 3, "Newest order should be last");
}

#[test]
fn decimal_equality_is_by_value() {
    assert_eq!(Decimal::new(10, 1), Decimal::new(1, 0));
    assert_eq!(Decimal::new(1000, 1), Decimal::new(100, 0));
    assert_ne!(Decimal::new(1005, 1), Decimal::new(100, 0));
}

#[test]
fn decimal_compare_orders_by_value() {
    assert_eq!(Decimal::new(1005, 1).compare(&Decimal::new(100, 0)), 1);
    assert_eq!(Decimal::new(100, 0).compare(&Decimal::new(1005, 1)), -1);
    assert_eq!(Decimal::new(-1, 0).compare(&Decimal::new(1, 28)), -1);
    assert_eq!(Decimal::new(50, 1).compare(&Decimal::new(5, 0)), 0);
}

#[test]
fn decimal_checked_sub_values() {
    let d = Decimal::new(45, 0).checked_sub(&Decimal::new(40, 0)).unwrap();
    assert_eq!(d.mantissa(), 5);
    assert_eq!(d.scale(), 0);
    let d = Decimal::new(100, 1).checked_sub(&Decimal::new(25, 2)).unwrap();
    assert_eq!(d, Decimal::new(975, 2));
    let max = Decimal::from_i128_with_scale(79228162514264337593543950335, 0);
    let min = Decimal::from_i128_with_scale(-79228162514264337593543950335, 0);
    assert!(max.checked_sub(&min).is_none());
    assert!(min.checked_sub(&max).is_none());
}

#[test]
fn decimal_sign_tests() {
    assert!(Decimal::new(0, 3).is_zero());
    assert!(!Decimal::new(1, 28).is_zero());
    assert!(Decimal::new(1, 28).is_positive());
    assert!(!Decimal::new(-1, 0).is_positive());
    assert!(!Decimal::new(0, 0).is_positive());
}

#[test]
fn decimal_checked_sub_across_scales() {
    // exact at the larger scale
    let d = Decimal::new(100, 1).checked_sub(&Decimal::new(25, 2)).unwrap();
    assert_eq!(d.mantissa(), 975);
    assert_eq!(d.scale(), 2);
    let d = Decimal::new(25, 2).checked_sub(&Decimal::new(3, 0)).unwrap();
    assert_eq!(d.mantissa(), -275);
    assert_eq!(d.scale(), 2);
    // a zero operand keeps the scale of the other one
    let d = Decimal::new(0, 4).checked_sub(&Decimal::new(15, 1)).unwrap();
    assert_eq!(d.mantissa(), -15);
    assert_eq!(d.scale(), 1);
    let d = Decimal::new(125, 2).checked_sub(&Decimal::new(0, 5)).unwrap();
    assert_eq!(d.mantissa(), 125);
    assert_eq!(d.scale(), 2);
}
