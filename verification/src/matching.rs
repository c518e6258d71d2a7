//! The model of the order book and of each operation on it.
use vstd::prelude::*;

use crate::decimal::{checked_difference, zero_with_scale, DecimalModel};
use crate::order::{OrderExcType, OrderModel, OrderStatus, OrderType, PointerModel};
use crate::trade::TradeModel;

verus! {

/// The timestamp that every trade carries.
pub const TRADE_TIMESTAMP: i64 = 123456789;

/// A price level: its price and the orders resting there, oldest first.
pub ghost struct LevelModel {
    pub price: DecimalModel,
    pub orders: Seq<OrderModel>,
}

/// The whole book: the trade counter, the ask levels from the lowest price up,
/// the bid levels from the highest price down, and the index from order id to
/// where the order rests.
pub ghost struct BookModel {
    pub trade_counter: int,
    pub asks: Seq<LevelModel>,
    pub bids: Seq<LevelModel>,
    pub index: Map<i32, PointerModel>,
}

/// On a side of the book, price `a` comes before price `b`: a higher bid, a lower ask.
pub open spec fn ahead(side: OrderType, a: DecimalModel, b: DecimalModel) -> bool {
    match side {
        OrderType::Bid => a.units() > b.units(),
        OrderType::Ask => a.units() < b.units(),
    }
}

/// An order that rests at a level of the given side and price.
pub open spec fn rests_at(o: OrderModel, side: OrderType, price: DecimalModel) -> bool {
    &&& o.order_type == side
    &&& o.price matches Some(p) && p.units() == price.units()
}

pub open spec fn level_wf(l: LevelModel, side: OrderType) -> bool {
    &&& l.orders.len() > 0
    &&& forall|j: int| 0 <= j < l.orders.len() ==> rests_at(#[trigger] l.orders[j], side, l.price)
}

/// The levels of a side are nonempty, hold orders of that side at their price, and
/// are strictly ordered best price first.
pub open spec fn side_wf(levels: Seq<LevelModel>, side: OrderType) -> bool {
    &&& forall|i: int| 0 <= i < levels.len() ==> level_wf(#[trigger] levels[i], side)
    &&& forall|i: int, j: int|
        0 <= i < j < levels.len() ==> ahead(side, #[trigger] levels[i].price, #[trigger] levels[j].price)
}

impl BookModel {
    pub open spec fn wf(self) -> bool {
        &&& side_wf(self.asks, OrderType::Ask)
        &&& side_wf(self.bids, OrderType::Bid)
        &&& i32::MIN <= self.trade_counter <= i32::MAX
    }

    /// The levels of the given side.
    pub open spec fn side(self, side: OrderType) -> Seq<LevelModel> {
        match side {
            OrderType::Bid => self.bids,
            OrderType::Ask => self.asks,
        }
    }

    /// The same book with the levels of one side replaced.
    pub open spec fn with_side(self, side: OrderType, levels: Seq<LevelModel>) -> BookModel {
        match side {
            OrderType::Bid => BookModel { bids: levels, ..self },
            OrderType::Ask => BookModel { asks: levels, ..self },
        }
    }
}

/// No order resting on these levels holds a negative quantity.
pub open spec fn levels_not_negative(levels: Seq<LevelModel>) -> bool {
    forall|i: int, j: int|
        0 <= i < levels.len() && 0 <= j < levels[i].orders.len() ==> (#[trigger] levels[i].orders[j]).qty.units()
            >= 0
}

/// Every order resting on these levels holds a positive quantity.
pub open spec fn levels_positive(levels: Seq<LevelModel>) -> bool {
    forall|i: int, j: int|
        0 <= i < levels.len() && 0 <= j < levels[i].orders.len() ==> (#[trigger] levels[i].orders[j]).qty.units()
            > 0
}

pub open spec fn opposite(side: OrderType) -> OrderType {
    match side {
        OrderType::Bid => OrderType::Ask,
        OrderType::Ask => OrderType::Bid,
    }
}

/// The first order of the first level: the best-priced, oldest order of a side.
pub open spec fn best(levels: Seq<LevelModel>) -> Option<OrderModel> {
    if levels.len() == 0 {
        None
    } else {
        Some(levels[0].orders[0])
    }
}

// ---------------------------------------------------------------- insertion

/// How many levels of the side are ahead of price `p`.
pub open spec fn insert_position(levels: Seq<LevelModel>, side: OrderType, p: DecimalModel) -> nat
    decreases levels.len(),
{
    if levels.len() == 0 {
        0
    } else if ahead(side, levels[0].price, p) {
        1 + insert_position(levels.drop_first(), side, p)
    } else {
        0
    }
}

/// Appends `o` to the level of price `p`, opening that level where it belongs
/// when there is none.
pub open spec fn side_insert(
    levels: Seq<LevelModel>,
    side: OrderType,
    o: OrderModel,
    p: DecimalModel,
) -> Seq<LevelModel> {
    let i = insert_position(levels, side, p) as int;
    if i < levels.len() && levels[i].price.units() == p.units() {
        levels.update(i, LevelModel { price: levels[i].price, orders: levels[i].orders.push(o) })
    } else {
        levels.insert(i, LevelModel { price: p, orders: seq![o] })
    }
}

/// The book after resting the limit order `o` on its side.
pub open spec fn book_insert(b: BookModel, o: OrderModel) -> BookModel
    recommends
        o.price is Some,
{
    let p = o.price->0;
    let b1 = b.with_side(o.order_type, side_insert(b.side(o.order_type), o.order_type, o, p));
    BookModel {
        index: b.index.insert(o.id, PointerModel { price: p, order_type: o.order_type }),
        ..b1
    }
}

// ---------------------------------------------------------------- removal

/// The index of the level priced at `p` (as a value), or the number of levels.
pub open spec fn level_index(levels: Seq<LevelModel>, p: DecimalModel) -> nat
    decreases levels.len(),
{
    if levels.len() == 0 {
        0
    } else if levels[0].price.units() == p.units() {
        0
    } else {
        1 + level_index(levels.drop_first(), p)
    }
}

/// The position of the first order with this id, or the number of orders.
pub open spec fn order_position(orders: Seq<OrderModel>, id: i32) -> nat
    decreases orders.len(),
{
    if orders.len() == 0 {
        0
    } else if orders[0].id == id {
        0
    } else {
        1 + order_position(orders.drop_first(), id)
    }
}

/// Removes the first order with this id from the level priced at `p`; a level
/// left empty goes too.
pub open spec fn side_remove(levels: Seq<LevelModel>, p: DecimalModel, id: i32) -> (Seq<
    LevelModel,
>, Option<OrderModel>) {
    let i = level_index(levels, p) as int;
    if i >= levels.len() {
        (levels, None)
    } else {
        let l = levels[i];
        let j = order_position(l.orders, id) as int;
        if j >= l.orders.len() {
            (levels, None)
        } else {
            let rest = l.orders.remove(j);
            (
                if rest.len() == 0 {
                    levels.remove(i)
                } else {
                    levels.update(i, LevelModel { price: l.price, orders: rest })
                },
                Some(l.orders[j]),
            )
        }
    }
}

/// The book after taking the order with this id off it, and the order taken.
/// The id leaves the index whether or not its order is found where the index points.
pub open spec fn book_remove(b: BookModel, id: i32) -> (BookModel, Option<OrderModel>) {
    if !b.index.contains_key(id) {
        (b, None)
    } else {
        let ptr = b.index[id];
        let b1 = BookModel { index: b.index.remove(id), ..b };
        let (levels, removed) = side_remove(b.side(ptr.order_type), ptr.price, id);
        (b1.with_side(ptr.order_type, levels), removed)
    }
}

// ---------------------------------------------------------------- matching

/// The incoming order may trade at a level of this price.
pub open spec fn crosses(inc: OrderModel, price: DecimalModel) -> bool {
    match inc.exc_type {
        OrderExcType::Market => true,
        OrderExcType::Limit => match inc.price {
            Some(lp) => match inc.order_type {
                OrderType::Bid => price.units() <= lp.units(),
                OrderType::Ask => price.units() >= lp.units(),
            },
            None => true,
        },
    }
}

/// The trade of `qty` between the incoming order and a resting one at `price`.
pub open spec fn make_trade(inc: OrderModel, resting: OrderModel, price: DecimalModel, qty: DecimalModel) -> TradeModel {
    match inc.order_type {
        OrderType::Bid => TradeModel {
            buy_order_id: inc.id,
            sell_order_id: resting.id,
            price,
            qty,
            timestamp: TRADE_TIMESTAMP,
        },
        OrderType::Ask => TradeModel {
            buy_order_id: resting.id,
            sell_order_id: inc.id,
            price,
            qty,
            timestamp: TRADE_TIMESTAMP,
        },
    }
}

/// The smaller of two quantities; the first where they are equal.
pub open spec fn min_qty(a: DecimalModel, b: DecimalModel) -> DecimalModel {
    if a.units() <= b.units() {
        a
    } else {
        b
    }
}

/// The state of matching: the incoming order, the orders or levels still resting,
/// the trade counter, the trades so far and the ids of the resting orders filled.
pub ghost struct QueueFill {
    pub incoming: OrderModel,
    pub orders: Seq<OrderModel>,
    pub counter: int,
    pub trades: Seq<TradeModel>,
    pub filled: Seq<i32>,
}

pub ghost struct SideFill {
    pub incoming: OrderModel,
    pub levels: Seq<LevelModel>,
    pub counter: int,
    pub trades: Seq<TradeModel>,
    pub filled: Seq<i32>,
}

/// Matches the incoming order against the orders of one price level, oldest
/// first, while both remain; `None` where an arithmetic overflow would stop it.
pub open spec fn fill_queue(
    inc: OrderModel,
    price: DecimalModel,
    orders: Seq<OrderModel>,
    counter: int,
    trades: Seq<TradeModel>,
    filled: Seq<i32>,
) -> Option<QueueFill>
    decreases orders.len(),
{
    if orders.len() == 0 || inc.qty.units() <= 0 {
        Some(QueueFill { incoming: inc, orders, counter, trades, filled })
    } else if counter >= i32::MAX {
        None
    } else {
        let r = orders[0];
        if r.qty.units() <= inc.qty.units() {
            // the resting order is filled completely
            match checked_difference(inc.qty, r.qty) {
                None => None,
                Some(left) => fill_queue(
                    inc.with_qty(left),
                    price,
                    orders.drop_first(),
                    counter + 1,
                    trades.push(make_trade(inc, r, price, r.qty)),
                    filled.push(r.id),
                ),
            }
        } else {
            // the incoming order is filled completely
            match checked_difference(r.qty, inc.qty) {
                None => None,
                Some(rest) => {
                    let inc2 = inc.with_qty(zero_with_scale(inc.qty.scale));
                    let trades2 = trades.push(make_trade(inc, r, price, inc.qty));
                    if rest.units() == 0 {
                        Some(
                            QueueFill {
                                incoming: inc2,
                                orders: orders.drop_first(),
                                counter: counter + 1,
                                trades: trades2,
                                filled: filled.push(r.id),
                            },
                        )
                    } else {
                        Some(
                            QueueFill {
                                incoming: inc2,
                                orders: orders.update(
                                    0,
                                    r.with_qty(rest).with_status(OrderStatus::PartiallyFilled),
                                ),
                                counter: counter + 1,
                                trades: trades2,
                                filled,
                            },
                        )
                    }
                },
            }
        }
    }
}

/// Matches the incoming order against the levels of the opposite side, best price
/// first, while they cross its limit; levels emptied are dropped.
pub open spec fn fill_side(
    inc: OrderModel,
    levels: Seq<LevelModel>,
    counter: int,
    trades: Seq<TradeModel>,
    filled: Seq<i32>,
) -> Option<SideFill>
    decreases levels.len(),
{
    if levels.len() == 0 {
        Some(SideFill { incoming: inc, levels, counter, trades, filled })
    } else if inc.exc_type == OrderExcType::Limit && inc.price is None {
        None
    } else if !crosses(inc, levels[0].price) {
        Some(SideFill { incoming: inc, levels, counter, trades, filled })
    } else {
        match fill_queue(inc, levels[0].price, levels[0].orders, counter, trades, filled) {
            None => None,
            Some(q) => if q.orders.len() > 0 {
                Some(
                    SideFill {
                        incoming: q.incoming,
                        levels: levels.update(
                            0,
                            LevelModel { price: levels[0].price, orders: q.orders },
                        ),
                        counter: q.counter,
                        trades: q.trades,
                        filled: q.filled,
                    },
                )
            } else {
                fill_side(q.incoming, levels.drop_first(), q.counter, q.trades, q.filled)
            },
        }
    }
}

/// The book after matching an incoming order, the incoming order with what is
/// left of it, and the trades, in the order they happened.
pub ghost struct Matched {
    pub book: BookModel,
    pub order: OrderModel,
    pub trades: Seq<TradeModel>,
}

pub open spec fn match_incoming(b: BookModel, inc: OrderModel) -> Option<Matched> {
    let side = opposite(inc.order_type);
    match fill_side(inc, b.side(side), b.trade_counter, seq![], seq![]) {
        None => None,
        Some(s) => Some(
            Matched {
                book: BookModel {
                    trade_counter: s.counter,
                    index: b.index.remove_keys(s.filled.to_set()),
                    ..b.with_side(side, s.levels)
                },
                order: s.incoming,
                trades: s.trades,
            },
        ),
    }
}

/// Processing an incoming order: match it, then rest what is left of a limit order,
/// cancel what is left of a market order, or mark it filled. `None` exactly where
/// processing would stop on an arithmetic overflow or on a limit order without price.
pub open spec fn process(b: BookModel, inc: OrderModel) -> Option<Matched> {
    match match_incoming(b, inc) {
        None => None,
        Some(m) => if m.order.qty.units() > 0 {
            match m.order.exc_type {
                OrderExcType::Limit => if m.order.price is Some {
                    Some(Matched { book: book_insert(m.book, m.order), ..m })
                } else {
                    None
                },
                OrderExcType::Market => match checked_difference(inc.qty, m.order.qty) {
                    None => None,
                    Some(_) => Some(
                        Matched { order: m.order.with_status(OrderStatus::Cancelled), ..m },
                    ),
                },
            }
        } else {
            Some(Matched { order: m.order.with_status(OrderStatus::Filled), ..m })
        },
    }
}


// ---------------------------------------------------------------- lemmas on the model

/// The insertion position is where the levels ahead of `p` end.
pub proof fn lemma_insert_position_props(levels: Seq<LevelModel>, side: OrderType, p: DecimalModel)
    ensures
        insert_position(levels, side, p) <= levels.len(),
        forall|k: int|
            0 <= k < insert_position(levels, side, p) ==> ahead(side, #[trigger] levels[k].price, p),
        insert_position(levels, side, p) < levels.len() ==> !ahead(
            side,
            levels[insert_position(levels, side, p) as int].price,
            p,
        ),
    decreases levels.len(),
{
    if levels.len() > 0 && ahead(side, levels[0].price, p) {
        let rest = levels.drop_first();
        lemma_insert_position_props(rest, side, p);
        assert forall|k: int|
            0 <= k < insert_position(levels, side, p) implies ahead(side, #[trigger] levels[k].price, p) by {
            if k > 0 {
                assert(levels[k] == rest[k - 1]);
            }
        }
    }
}

/// The first position that stops a scan for the levels ahead of `p` is the
/// insertion position.
pub proof fn lemma_insert_position(levels: Seq<LevelModel>, side: OrderType, p: DecimalModel, i: int)
    requires
        0 <= i <= levels.len(),
        forall|k: int| 0 <= k < i ==> ahead(side, #[trigger] levels[k].price, p),
        i == levels.len() || !ahead(side, levels[i].price, p),
    ensures
        insert_position(levels, side, p) == i,
    decreases i,
{
    if i > 0 {
        let rest = levels.drop_first();
        assert(ahead(side, levels[0].price, p));
        assert forall|k: int| 0 <= k < i - 1 implies ahead(side, #[trigger] rest[k].price, p) by {
            assert(rest[k] == levels[k + 1]);
        }
        lemma_insert_position(rest, side, p, i - 1);
    }
}

/// The first position whose price equals `p` is the level index.
pub proof fn lemma_level_index(levels: Seq<LevelModel>, p: DecimalModel, i: int)
    requires
        0 <= i <= levels.len(),
        forall|k: int| 0 <= k < i ==> (#[trigger] levels[k].price).units() != p.units(),
        i == levels.len() || levels[i].price.units() == p.units(),
    ensures
        level_index(levels, p) == i,
    decreases i,
{
    if i > 0 {
        let rest = levels.drop_first();
        assert(levels[0].price.units() != p.units());
        assert forall|k: int| 0 <= k < i - 1 implies (#[trigger] rest[k].price).units() != p.units() by {
            assert(rest[k] == levels[k + 1]);
        }
        lemma_level_index(rest, p, i - 1);
    }
}

/// The first position holding the id is the order position.
pub proof fn lemma_order_position(orders: Seq<OrderModel>, id: i32, j: int)
    requires
        0 <= j <= orders.len(),
        forall|k: int| 0 <= k < j ==> (#[trigger] orders[k]).id != id,
        j == orders.len() || orders[j].id == id,
    ensures
        order_position(orders, id) == j,
    decreases j,
{
    if j > 0 {
        let rest = orders.drop_first();
        assert(orders[0].id != id);
        assert forall|k: int| 0 <= k < j - 1 implies (#[trigger] rest[k]).id != id by {
            assert(rest[k] == orders[k + 1]);
        }
        lemma_order_position(rest, id, j - 1);
    }
}

pub proof fn lemma_level_index_bound(levels: Seq<LevelModel>, p: DecimalModel)
    ensures
        level_index(levels, p) <= levels.len(),
        level_index(levels, p) < levels.len() ==> levels[level_index(levels, p) as int].price.units()
            == p.units(),
    decreases levels.len(),
{
    if levels.len() > 0 && levels[0].price.units() != p.units() {
        lemma_level_index_bound(levels.drop_first(), p);
    }
}

pub proof fn lemma_order_position_bound(orders: Seq<OrderModel>, id: i32)
    ensures
        order_position(orders, id) <= orders.len(),
        order_position(orders, id) < orders.len() ==> orders[order_position(orders, id) as int].id
            == id,
    decreases orders.len(),
{
    if orders.len() > 0 && orders[0].id != id {
        lemma_order_position_bound(orders.drop_first(), id);
    }
}

/// Resting an order keeps a side well formed.
pub proof fn lemma_side_insert_wf(levels: Seq<LevelModel>, side: OrderType, o: OrderModel, p: DecimalModel)
    requires
        side_wf(levels, side),
        rests_at(o, side, p),
    ensures
        side_wf(side_insert(levels, side, o, p), side),
{
    lemma_insert_position_props(levels, side, p);
    let i = insert_position(levels, side, p) as int;
    let r = side_insert(levels, side, o, p);
    if i < levels.len() && levels[i].price.units() == p.units() {
        let l = LevelModel { price: levels[i].price, orders: levels[i].orders.push(o) };
        assert(level_wf(l, side)) by {
            assert forall|j: int| 0 <= j < l.orders.len() implies rests_at(#[trigger] l.orders[j], side, l.price) by {
                if j < levels[i].orders.len() {
                    assert(l.orders[j] == levels[i].orders[j]);
                }
            }
        }
        assert forall|a: int, b: int| 0 <= a < b < r.len() implies ahead(side, #[trigger] r[a].price, #[trigger] r[b].price) by {
            assert(levels[a].price == r[a].price);
            assert(levels[b].price == r[b].price);
        }
    } else {
        let l = LevelModel { price: p, orders: seq![o] };
        assert(level_wf(l, side));
        assert forall|k: int| 0 <= k < r.len() implies level_wf(#[trigger] r[k], side) by {
            if k < i {
                assert(r[k] == levels[k]);
            } else if k > i {
                assert(r[k] == levels[k - 1]);
            }
        }
        assert forall|a: int, b: int| 0 <= a < b < r.len() implies ahead(side, #[trigger] r[a].price, #[trigger] r[b].price) by {
            if b < i {
                assert(r[a] == levels[a] && r[b] == levels[b]);
            } else if b == i {
                assert(r[a] == levels[a]);
            } else if a == i {
                assert(r[b] == levels[b - 1]);
                assert(ahead(side, levels[i].price, levels[b - 1].price) || i == b - 1);
            } else if a < i {
                assert(r[a] == levels[a] && r[b] == levels[b - 1]);
            } else {
                assert(r[a] == levels[a - 1] && r[b] == levels[b - 1]);
            }
        }
    }
}

/// Taking an order off keeps a side well formed.
pub proof fn lemma_side_remove_wf(levels: Seq<LevelModel>, side: OrderType, p: DecimalModel, id: i32)
    requires
        side_wf(levels, side),
    ensures
        side_wf(side_remove(levels, p, id).0, side),
{
    lemma_level_index_bound(levels, p);
    let i = level_index(levels, p) as int;
    if i < levels.len() {
        let l = levels[i];
        lemma_order_position_bound(l.orders, id);
        let j = order_position(l.orders, id) as int;
        if j < l.orders.len() {
            let rest = l.orders.remove(j);
            let r = side_remove(levels, p, id).0;
            if rest.len() == 0 {
                assert(r == levels.remove(i));
                assert forall|k: int| 0 <= k < r.len() implies level_wf(#[trigger] r[k], side) by {
                    if k < i {
                        assert(r[k] == levels[k]);
                    } else {
                        assert(r[k] == levels[k + 1]);
                    }
                }
                assert forall|a: int, b: int| 0 <= a < b < r.len() implies ahead(side, #[trigger] r[a].price, #[trigger] r[b].price) by {
                    let a2 = if a < i { a } else { a + 1 };
                    let b2 = if b < i { b } else { b + 1 };
                    assert(r[a] == levels[a2] && r[b] == levels[b2]);
                }
            } else {
                let l2 = LevelModel { price: l.price, orders: rest };
                assert(level_wf(l2, side)) by {
                    assert forall|k: int| 0 <= k < rest.len() implies rests_at(#[trigger] rest[k], side, l2.price) by {
                        if k < j {
                            assert(rest[k] == l.orders[k]);
                        } else {
                            assert(rest[k] == l.orders[k + 1]);
                        }
                    }
                }
                assert forall|a: int, b: int| 0 <= a < b < r.len() implies ahead(side, #[trigger] r[a].price, #[trigger] r[b].price) by {
                    assert(r[a].price == levels[a].price && r[b].price == levels[b].price);
                }
            }
        }
    }
}


/// Matching against a level leaves orders that rest where they rested, and only
/// counts up.
pub proof fn lemma_fill_queue_rests(
    inc: OrderModel,
    price: DecimalModel,
    orders: Seq<OrderModel>,
    counter: int,
    trades: Seq<TradeModel>,
    filled: Seq<i32>,
    side: OrderType,
    lp: DecimalModel,
)
    requires
        forall|j: int| 0 <= j < orders.len() ==> rests_at(#[trigger] orders[j], side, lp),
        fill_queue(inc, price, orders, counter, trades, filled) is Some,
    ensures
        ({
            let q = fill_queue(inc, price, orders, counter, trades, filled)->0;
            &&& forall|j: int| 0 <= j < q.orders.len() ==> rests_at(#[trigger] q.orders[j], side, lp)
            &&& q.orders.len() <= orders.len()
            &&& counter <= q.counter
            &&& (q.counter == counter || q.counter <= i32::MAX)
        }),
    decreases orders.len(),
{
    if orders.len() == 0 || inc.qty.units() <= 0 {
    } else {
        let r = orders[0];
        let rest = orders.drop_first();
        assert forall|j: int| 0 <= j < rest.len() implies rests_at(#[trigger] rest[j], side, lp) by {
            assert(rest[j] == orders[j + 1]);
        }
        if r.qty.units() <= inc.qty.units() {
            let left = checked_difference(inc.qty, r.qty)->0;
            lemma_fill_queue_rests(
                inc.with_qty(left),
                price,
                rest,
                counter + 1,
                trades.push(make_trade(inc, r, price, r.qty)),
                filled.push(r.id),
                side,
                lp,
            );
        } else {
            let q = fill_queue(inc, price, orders, counter, trades, filled)->0;
            assert forall|j: int| 0 <= j < q.orders.len() implies rests_at(#[trigger] q.orders[j], side, lp) by {
                if j > 0 || checked_difference(r.qty, inc.qty)->0.units() == 0 {
                    assert(q.orders[j] == orders[j] || q.orders[j] == orders[j + 1]);
                }
            }
        }
    }
}

/// Matching against a side keeps it well formed, and only counts up.
pub proof fn lemma_fill_side_wf(
    inc: OrderModel,
    levels: Seq<LevelModel>,
    counter: int,
    trades: Seq<TradeModel>,
    filled: Seq<i32>,
    side: OrderType,
)
    requires
        side_wf(levels, side),
        fill_side(inc, levels, counter, trades, filled) is Some,
    ensures
        ({
            let s = fill_side(inc, levels, counter, trades, filled)->0;
            &&& side_wf(s.levels, side)
            &&& counter <= s.counter
            &&& (s.counter == counter || s.counter <= i32::MAX)
        }),
    decreases levels.len(),
{
    if levels.len() == 0 || (inc.exc_type == OrderExcType::Limit && inc.price is None) || !crosses(
        inc,
        levels[0].price,
    ) {
    } else {
        let l = levels[0];
        assert(level_wf(l, side));
        lemma_fill_queue_rests(inc, l.price, l.orders, counter, trades, filled, side, l.price);
        let q = fill_queue(inc, l.price, l.orders, counter, trades, filled)->0;
        let rest = levels.drop_first();
        if q.orders.len() > 0 {
            let r = levels.update(0, LevelModel { price: l.price, orders: q.orders });
            assert forall|k: int| 0 <= k < r.len() implies level_wf(#[trigger] r[k], side) by {
                if k > 0 {
                    assert(r[k] == levels[k]);
                }
            }
            assert forall|a: int, b: int| 0 <= a < b < r.len() implies ahead(side, #[trigger] r[a].price, #[trigger] r[b].price) by {
                assert(r[a].price == levels[a].price && r[b].price == levels[b].price);
            }
        } else {
            assert forall|k: int| 0 <= k < rest.len() implies level_wf(#[trigger] rest[k], side) by {
                assert(rest[k] == levels[k + 1]);
            }
            assert forall|a: int, b: int| 0 <= a < b < rest.len() implies ahead(side, #[trigger] rest[a].price, #[trigger] rest[b].price) by {
                assert(rest[a] == levels[a + 1] && rest[b] == levels[b + 1]);
            }
            lemma_fill_side_wf(q.incoming, rest, q.counter, q.trades, q.filled, side);
        }
    }
}

/// Matching keeps the book well formed.
pub proof fn lemma_match_wf(b: BookModel, inc: OrderModel)
    requires
        b.wf(),
        match_incoming(b, inc) is Some,
    ensures
        match_incoming(b, inc)->0.book.wf(),
{
    let side = opposite(inc.order_type);
    lemma_fill_side_wf(inc, b.side(side), b.trade_counter, seq![], seq![], side);
}

/// Processing keeps the book well formed.
pub proof fn lemma_process_wf(b: BookModel, inc: OrderModel)
    requires
        b.wf(),
        process(b, inc) is Some,
    ensures
        process(b, inc)->0.book.wf(),
{
    lemma_match_wf(b, inc);
    let m = match_incoming(b, inc)->0;
    if m.order.qty.units() > 0 && m.order.exc_type == OrderExcType::Limit {
        let p = m.order.price->0;
        lemma_side_insert_wf(m.book.side(m.order.order_type), m.order.order_type, m.order, p);
    }
}

/// Resting an order of positive quantity keeps every resting quantity positive.
pub proof fn lemma_side_insert_positive(
    levels: Seq<LevelModel>,
    side: OrderType,
    o: OrderModel,
    p: DecimalModel,
)
    requires
        levels_positive(levels),
        o.qty.units() > 0,
    ensures
        levels_positive(side_insert(levels, side, o, p)),
{
    lemma_insert_position_props(levels, side, p);
    let i = insert_position(levels, side, p) as int;
    let r = side_insert(levels, side, o, p);
    if i < levels.len() && levels[i].price.units() == p.units() {
        assert forall|a: int, b: int| 0 <= a < r.len() && 0 <= b < r[a].orders.len() implies (
        #[trigger] r[a].orders[b]).qty.units() > 0 by {
            if a == i && b == levels[i].orders.len() {
                assert(r[a].orders[b] == o);
            } else {
                assert(r[a].orders[b] == levels[a].orders[b]);
            }
        }
    } else {
        assert forall|a: int, b: int| 0 <= a < r.len() && 0 <= b < r[a].orders.len() implies (
        #[trigger] r[a].orders[b]).qty.units() > 0 by {
            if a < i {
                assert(r[a] == levels[a]);
            } else if a > i {
                assert(r[a] == levels[a - 1]);
            }
        }
    }
}

} // verus!
