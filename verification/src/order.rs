use vstd::prelude::*;

use crate::decimal::{Decimal, DecimalModel};

verus! {

/// The side of the book an order belongs to: a bid buys, an ask sells.
#[derive(Clone, Copy, Debug, PartialEq, Eq, Structural)]
pub enum OrderType {
    Bid,
    Ask,
}

/// How an order executes: a limit order trades up to its price and rests with what
/// is left; a market order takes what the book offers and rests with nothing.
#[derive(Clone, Copy, Debug, PartialEq, Eq, Structural)]
pub enum OrderExcType {
    Limit,
    Market,
}

#[derive(Clone, Copy, Debug, PartialEq, Eq, Structural)]
pub enum OrderStatus {
    Open,
    PartiallyFilled,
    Filled,
    Cancelled,
    Expired,
    Rejected,
}

/// A point in time in UTC: whole seconds since the Unix epoch and the
/// nanoseconds within that second. Ordered by time.
#[derive(Clone, Copy, Debug, PartialEq, Eq, PartialOrd, Ord, Hash, Structural)]
pub struct Timestamp {
    pub secs: i64,
    pub nanos: u32,
}

impl Timestamp {
    pub fn new(secs: i64, nanos: u32) -> (t: Timestamp)
        ensures
            t.secs == secs,
            t.nanos == nanos,
    {
        Timestamp { secs, nanos }
    }
}

/// Where a resting order can be found: its side and its price level.
#[derive(Clone, Copy, Debug)]
pub struct OrderPointer {
    pub price: Decimal,
    pub order_type: OrderType,
}

pub ghost struct PointerModel {
    pub price: DecimalModel,
    pub order_type: OrderType,
}

impl View for OrderPointer {
    type V = PointerModel;

    open spec fn view(&self) -> PointerModel {
        PointerModel { price: self.price@, order_type: self.order_type }
    }
}

#[derive(Clone, Copy, Debug, PartialEq, Eq)]
pub struct Order {
    pub id: i32,
    pub order_type: OrderType,
    pub exc_type: OrderExcType,
    /// `Some` for a limit order, `None` for a market order.
    pub price: Option<Decimal>,
    pub qty: Decimal,
    pub status: OrderStatus,
    pub timestamp: Timestamp,
    pub expiration: Timestamp,
}

pub ghost struct OrderModel {
    pub id: i32,
    pub order_type: OrderType,
    pub exc_type: OrderExcType,
    pub price: Option<DecimalModel>,
    pub qty: DecimalModel,
    pub status: OrderStatus,
    pub timestamp: Timestamp,
    pub expiration: Timestamp,
}

pub open spec fn option_decimal_view(p: Option<Decimal>) -> Option<DecimalModel> {
    match p {
        Some(d) => Some(d@),
        None => None,
    }
}

impl View for Order {
    type V = OrderModel;

    open spec fn view(&self) -> OrderModel {
        OrderModel {
            id: self.id,
            order_type: self.order_type,
            exc_type: self.exc_type,
            price: option_decimal_view(self.price),
            qty: self.qty@,
            status: self.status,
            timestamp: self.timestamp,
            expiration: self.expiration,
        }
    }
}

impl OrderModel {
    /// The same order with another quantity.
    pub open spec fn with_qty(self, qty: DecimalModel) -> OrderModel {
        OrderModel { qty, ..self }
    }

    /// The same order with another status.
    pub open spec fn with_status(self, status: OrderStatus) -> OrderModel {
        OrderModel { status, ..self }
    }
}

} // verus!
