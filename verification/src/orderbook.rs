use std::collections::{HashMap, VecDeque};
use std::sync::mpsc::Sender;

use vstd::prelude::*;

use crate::decimal::Decimal;
use crate::decimal::{checked_difference, lemma_zero_units, zero_with_scale};
use crate::matching::{
    ahead, best, book_insert, book_remove, crosses, fill_queue, fill_side, levels_not_negative, levels_positive, lemma_side_insert_positive,
    lemma_insert_position,
    lemma_level_index, lemma_match_wf, level_index, lemma_order_position, lemma_process_wf,
    lemma_side_insert_wf, lemma_side_remove_wf, make_trade, match_incoming, min_qty, opposite,
    process, rests_at, side_insert, side_remove, side_wf, BookModel, LevelModel, Matched,
    QueueFill, SideFill, TRADE_TIMESTAMP,
};
use crate::order::{
    Order, OrderExcType, OrderModel, OrderPointer, OrderStatus, OrderType, PointerModel,
};
use crate::consistency::{
    ids_of, index_consistent, law_empty_book_consistent, law_insert_keeps_index_consistent,
    law_process_keeps_index_consistent,
    law_remove_keeps_index_consistent, resting,
};
use crate::laws::{law_process_keeps_book_uncrossed, uncrossed};
use crate::trade::{Trade, TradeModel};

verus! {

broadcast use vstd::std_specs::hash::group_hash_axioms;

#[verifier::external_type_specification]
#[verifier::external_body]
#[verifier::reject_recursive_types(T)]
pub struct ExSender<T>(Sender<T>);

/// The orders resting at one price, oldest first.
#[derive(Debug)]
pub struct PriceLevel {
    pub price: Decimal,
    pub orders: VecDeque<Order>,
}

pub open spec fn orders_view(s: Seq<Order>) -> Seq<OrderModel> {
    s.map_values(|o: Order| o@)
}

pub open spec fn trades_view(s: Seq<Trade>) -> Seq<TradeModel> {
    s.map_values(|t: Trade| t@)
}

pub open spec fn levels_view(s: Seq<PriceLevel>) -> Seq<LevelModel> {
    s.map_values(|l: PriceLevel| l@)
}

pub open spec fn index_view(m: Map<i32, OrderPointer>) -> Map<i32, PointerModel> {
    m.map_values(|p: OrderPointer| p@)
}

pub open spec fn option_order_view(o: Option<Order>) -> Option<OrderModel> {
    match o {
        Some(o) => Some(o@),
        None => None,
    }
}

pub open spec fn option_ref_view(o: Option<&Order>) -> Option<OrderModel> {
    match o {
        Some(o) => Some((*o)@),
        None => None,
    }
}

impl View for PriceLevel {
    type V = LevelModel;

    open spec fn view(&self) -> LevelModel {
        LevelModel { price: self.price@, orders: orders_view(self.orders@) }
    }
}

/// A limit order book: asks from the lowest price up, bids from the highest price
/// down, each level first in first out; trades go out on `trade_sender`, and `sent`
/// records, for the proofs alone, every trade handed to it.
pub struct OrderBook {
    pub trade_counter: i32,
    pub asks: VecDeque<PriceLevel>,
    pub bids: VecDeque<PriceLevel>,
    pub order_index: HashMap<i32, OrderPointer>,
    pub trade_sender: Sender<Trade>,
    sent: Ghost<Seq<TradeModel>>,
}

impl OrderBook {
    /// The trades handed to the trade channel so far, oldest first.
    pub closed spec fn sent_trades(&self) -> Seq<TradeModel> {
        self.sent@
    }

    /// The channel that trades go out on.
    pub closed spec fn sender(&self) -> Sender<Trade> {
        self.trade_sender
    }

    /// Calls `std::sync::mpsc::Sender::send` on `trade_sender` with the trade, and
    /// records the trade as sent; the book is otherwise unchanged. Nothing is claimed
    /// of the delivery, which depends on whether the receiving end is still open.
    #[verifier::external_body]
    fn send_trade(&mut self, trade: Trade)
        ensures
            final(self).sent_trades() == old(self).sent_trades().push(trade@),
            final(self)@ == old(self)@,
            final(self).sender() == old(self).sender(),
    {
        let _ = self.trade_sender.send(trade);
    }
}

impl View for OrderBook {
    type V = BookModel;

    closed spec fn view(&self) -> BookModel {
        BookModel {
            trade_counter: self.trade_counter as int,
            asks: levels_view(self.asks@),
            bids: levels_view(self.bids@),
            index: index_view(self.order_index@),
        }
    }
}

/// `a` comes before `b` on this side.
fn is_ahead(side: OrderType, a: &Decimal, b: &Decimal) -> (r: bool)
    ensures
        r == ahead(side, a@, b@),
{
    match side {
        OrderType::Bid => a.compare(b) > 0,
        OrderType::Ask => a.compare(b) < 0,
    }
}

/// Rests `order` at price `price` on a side.
fn insert_into_side(levels: &mut VecDeque<PriceLevel>, side: OrderType, order: Order, price: Decimal)
    requires
        side_wf(levels_view(old(levels)@), side),
        rests_at(order@, side, price@),
    ensures
        levels_view(final(levels)@) == side_insert(levels_view(old(levels)@), side, order@, price@),
        side_wf(levels_view(final(levels)@), side),
{
    let ghost lv = levels_view(levels@);
    let mut i: usize = 0;
    while i < levels.len() && is_ahead(side, &levels[i].price, &price)
        invariant
            levels_view(levels@) == lv,
            0 <= i <= levels@.len(),
            forall|k: int| 0 <= k < i ==> ahead(side, #[trigger] lv[k].price, price@),
        decreases levels@.len() - i,
    {
        i = i + 1;
    }
    proof {
        lemma_insert_position(lv, side, price@, i as int);
        lemma_side_insert_wf(lv, side, order@, price@);
    }
    if i < levels.len() && levels[i].price.compare(&price) == 0 {
        let mut level = levels.remove(i).unwrap();
        level.orders.push_back(order);
        levels.insert(i, level);
        proof {
            assert(orders_view(level.orders@) =~= lv[i as int].orders.push(order@));
            assert(levels_view(levels@) =~= side_insert(lv, side, order@, price@));
        }
    } else {
        let mut orders = VecDeque::new();
        orders.push_back(order);
        let level = PriceLevel { price, orders };
        levels.insert(i, level);
        proof {
            assert(orders_view(level.orders@) =~= seq![order@]);
            assert(levels_view(levels@) =~= side_insert(lv, side, order@, price@));
        }
    }
}

/// Takes the first order with this id off the level priced at `price`.
fn remove_from_side(levels: &mut VecDeque<PriceLevel>, price: &Decimal, order_id: i32) -> (r: Option<Order>)
    ensures
        (levels_view(final(levels)@), option_order_view(r)) == side_remove(
            levels_view(old(levels)@),
            price@,
            order_id,
        ),
{
    let ghost lv = levels_view(levels@);
    let mut i: usize = 0;
    while i < levels.len() && levels[i].price.compare(price) != 0
        invariant
            levels_view(levels@) == lv,
            0 <= i <= levels@.len(),
            forall|k: int| 0 <= k < i ==> (#[trigger] lv[k].price).units() != price@.units(),
        decreases levels@.len() - i,
    {
        i = i + 1;
    }
    proof {
        lemma_level_index(lv, price@, i as int);
    }
    if i == levels.len() {
        return None;
    }
    let n = levels[i].orders.len();
    let ghost ov = lv[i as int].orders;
    let mut j: usize = 0;
    while j < n && levels[i].orders[j].id != order_id
        invariant
            levels_view(levels@) == lv,
            i < levels@.len(),
            n == levels@[i as int].orders@.len(),
            ov == orders_view(levels@[i as int].orders@),
            0 <= j <= n,
            forall|k: int| 0 <= k < j ==> (#[trigger] ov[k]).id != order_id,
        decreases n - j,
    {
        j = j + 1;
    }
    proof {
        lemma_order_position(ov, order_id, j as int);
    }
    if j == n {
        return None;
    }
    let mut level = levels.remove(i).unwrap();
    let removed = level.orders.remove(j).unwrap();
    proof {
        assert(orders_view(level.orders@) =~= ov.remove(j as int));
    }
    if level.orders.len() > 0 {
        levels.insert(i, level);
    }
    proof {
        assert(levels_view(levels@) =~= side_remove(lv, price@, order_id).0);
    }
    Some(removed)
}

/// Trades the smaller of the two quantities between a resting and an incoming order
/// at the resting order's price, and takes it off both.
fn execute_trade(
    trade_counter: i32,
    resting_order: &mut Order,
    incoming_order: &mut Order,
    trade_price: Decimal,
) -> (trade: Trade)
    requires
        checked_difference(
            old(resting_order).qty@,
            min_qty(old(resting_order).qty@, old(incoming_order).qty@),
        ) is Some,
        checked_difference(
            old(incoming_order).qty@,
            min_qty(old(resting_order).qty@, old(incoming_order).qty@),
        ) is Some,
    ensures
        ({
            let fill = min_qty(old(resting_order).qty@, old(incoming_order).qty@);
            &&& final(resting_order)@ == old(resting_order)@.with_qty(
                checked_difference(old(resting_order).qty@, fill)->0,
            )
            &&& final(incoming_order)@ == old(incoming_order)@.with_qty(
                checked_difference(old(incoming_order).qty@, fill)->0,
            )
            &&& trade@ == make_trade(old(incoming_order)@, old(resting_order)@, trade_price@, fill)
        }),
        old(resting_order).qty@.units() >= 0 && old(incoming_order).qty@.units() >= 0
            ==> final(resting_order).qty@.units() >= 0 && final(incoming_order).qty@.units() >= 0,
{
    let min_trade_qty = if resting_order.qty.compare(&incoming_order.qty) <= 0 {
        resting_order.qty
    } else {
        incoming_order.qty
    };
    resting_order.qty = resting_order.qty.checked_sub(&min_trade_qty).unwrap();
    incoming_order.qty = incoming_order.qty.checked_sub(&min_trade_qty).unwrap();
    let (buy_order_id, sell_order_id) = match incoming_order.order_type {
        OrderType::Bid => (incoming_order.id, resting_order.id),
        OrderType::Ask => (resting_order.id, incoming_order.id),
    };
    Trade {
        buy_order_id,
        sell_order_id,
        price: trade_price,
        qty: min_trade_qty,
        timestamp: TRADE_TIMESTAMP,
    }
}

/// The incoming order may trade at a level of this price.
fn crosses_level(incoming: &Order, level_price: &Decimal) -> (r: bool)
    requires
        incoming.exc_type == OrderExcType::Limit ==> incoming.price is Some,
    ensures
        r == crosses(incoming@, level_price@),
{
    match incoming.exc_type {
        OrderExcType::Market => true,
        OrderExcType::Limit => {
            let limit_price = incoming.price.expect("Limit Order must have values.");
            match incoming.order_type {
                OrderType::Bid => level_price.compare(&limit_price) <= 0,
                OrderType::Ask => level_price.compare(&limit_price) >= 0,
            }
        },
    }
}

/// Matches the incoming order against the orders of one level, oldest first.
fn match_level(
    orders: &mut VecDeque<Order>,
    price: Decimal,
    incoming: &mut Order,
    counter: &mut i32,
    trades: &mut Vec<Trade>,
    filled: &mut Vec<i32>,
)
    requires
        fill_queue(
            old(incoming)@,
            price@,
            orders_view(old(orders)@),
            *old(counter) as int,
            trades_view(old(trades)@),
            old(filled)@,
        ) is Some,
    ensures
        fill_queue(
            old(incoming)@,
            price@,
            orders_view(old(orders)@),
            *old(counter) as int,
            trades_view(old(trades)@),
            old(filled)@,
        ) == Some(
            QueueFill {
                incoming: final(incoming)@,
                orders: orders_view(final(orders)@),
                counter: *final(counter) as int,
                trades: trades_view(final(trades)@),
                filled: final(filled)@,
            },
        ),
        old(incoming)@.qty.units() >= 0 && (forall|j: int|
            0 <= j < old(orders)@.len() ==> (#[trigger] old(orders)@[j]).qty@.units() >= 0)
            ==> final(incoming)@.qty.units() >= 0 && (forall|j: int|
            0 <= j < final(orders)@.len() ==> (#[trigger] final(orders)@[j]).qty@.units() >= 0),
        old(incoming)@.qty.units() >= 0 && (forall|j: int|
            0 <= j < old(orders)@.len() ==> (#[trigger] old(orders)@[j]).qty@.units() > 0)
            ==> (forall|j: int|
            0 <= j < final(orders)@.len() ==> (#[trigger] final(orders)@[j]).qty@.units() > 0),
{
    let ghost nn = incoming@.qty.units() >= 0 && (forall|j: int|
        0 <= j < orders@.len() ==> (#[trigger] orders@[j]).qty@.units() >= 0);
    let ghost pp = incoming@.qty.units() >= 0 && (forall|j: int|
        0 <= j < orders@.len() ==> (#[trigger] orders@[j]).qty@.units() > 0);
    proof {
        if pp {
            assert forall|j: int| 0 <= j < orders@.len() implies (#[trigger] orders@[j]).qty@.units() >= 0 by {}
        }
    }
    let ghost goal = fill_queue(
        incoming@,
        price@,
        orders_view(orders@),
        *counter as int,
        trades_view(trades@),
        filled@,
    );
    loop
        invariant
            goal is Some,
            goal == fill_queue(
                incoming@,
                price@,
                orders_view(orders@),
                *counter as int,
                trades_view(trades@),
                filled@,
            ),
            nn ==> incoming@.qty.units() >= 0 && (forall|j: int|
                0 <= j < orders@.len() ==> (#[trigger] orders@[j]).qty@.units() >= 0),
            pp ==> nn,
            pp ==> (forall|j: int| 0 <= j < orders@.len() ==> (#[trigger] orders@[j]).qty@.units() > 0),
        ensures
            goal == Some(
                QueueFill {
                    incoming: incoming@,
                    orders: orders_view(orders@),
                    counter: *counter as int,
                    trades: trades_view(trades@),
                    filled: filled@,
                },
            ),
        decreases orders@.len() * 2 + if incoming@.qty.units() > 0 {
            1int
        } else {
            0int
        },
    {
        if orders.len() == 0 || !incoming.qty.is_positive() {
            break;
        }
        let ghost inc0 = incoming@;
        let ghost ov0 = orders_view(orders@);
        let ghost t0 = trades_view(trades@);
        *counter = *counter + 1;
        let ghost o0 = orders@;
        let mut resting = orders.pop_front().unwrap();
        proof {
            assert(resting@ == ov0[0]);
            assert(orders_view(orders@) =~= ov0.drop_first());
            assert(resting == o0[0]);
            assert forall|j: int| 0 <= j < orders@.len() implies #[trigger] orders@[j] == o0[j + 1] by {}
        }
        let trade = execute_trade(*counter, &mut resting, incoming, price);
        trades.push(trade);
        proof {
            assert(trades_view(trades@) =~= t0.push(trade@));
            lemma_zero_units(inc0.qty.scale);
            let r = ov0[0];
            if r.qty.units() <= inc0.qty.units() {
                assert(resting@.qty == zero_with_scale(r.qty.scale));
                lemma_zero_units(r.qty.scale);
            } else {
                assert(incoming@.qty == zero_with_scale(inc0.qty.scale));
            }
        }
        if resting.qty.is_zero() {
            resting.status = OrderStatus::Filled;
            filled.push(resting.id);
        } else {
            resting.status = OrderStatus::PartiallyFilled;
            let ghost o1 = orders@;
            orders.push_front(resting);
            proof {
                assert forall|j: int| 0 < j < orders@.len() implies #[trigger] orders@[j] == o1[j - 1] by {}
                assert(orders@[0] == resting);
                assert(orders_view(orders@) =~= ov0.update(
                    0,
                    ov0[0].with_qty(resting@.qty).with_status(OrderStatus::PartiallyFilled),
                ));
            }
        }
    }
}

/// Matches the incoming order against the levels of a side, best price first.
fn match_side(
    levels: &mut VecDeque<PriceLevel>,
    incoming: &mut Order,
    counter: &mut i32,
    trades: &mut Vec<Trade>,
    filled: &mut Vec<i32>,
)
    requires
        fill_side(
            old(incoming)@,
            levels_view(old(levels)@),
            *old(counter) as int,
            trades_view(old(trades)@),
            old(filled)@,
        ) is Some,
    ensures
        fill_side(
            old(incoming)@,
            levels_view(old(levels)@),
            *old(counter) as int,
            trades_view(old(trades)@),
            old(filled)@,
        ) == Some(
            SideFill {
                incoming: final(incoming)@,
                levels: levels_view(final(levels)@),
                counter: *final(counter) as int,
                trades: trades_view(final(trades)@),
                filled: final(filled)@,
            },
        ),
        old(incoming)@.qty.units() >= 0 && levels_not_negative(levels_view(old(levels)@))
            ==> final(incoming)@.qty.units() >= 0,
        old(incoming)@.qty.units() >= 0 && levels_positive(levels_view(old(levels)@))
            ==> levels_positive(levels_view(final(levels)@)),
{
    let ghost nn = incoming@.qty.units() >= 0 && levels_not_negative(levels_view(levels@));
    let ghost pp = incoming@.qty.units() >= 0 && levels_positive(levels_view(levels@));
    proof {
        if pp {
            let lv = levels_view(levels@);
            assert forall|i: int, j: int| 0 <= i < lv.len() && 0 <= j < lv[i].orders.len() implies (
            #[trigger] lv[i].orders[j]).qty.units() >= 0 by {}
        }
    }
    let ghost goal = fill_side(
        incoming@,
        levels_view(levels@),
        *counter as int,
        trades_view(trades@),
        filled@,
    );
    loop
        invariant_except_break
            goal == fill_side(
                incoming@,
                levels_view(levels@),
                *counter as int,
                trades_view(trades@),
                filled@,
            ),
            nn ==> levels_not_negative(levels_view(levels@)),
        invariant
            goal is Some,
            nn ==> incoming@.qty.units() >= 0,
            pp ==> nn,
            pp ==> levels_positive(levels_view(levels@)),
        ensures
            goal == Some(
                SideFill {
                    incoming: incoming@,
                    levels: levels_view(levels@),
                    counter: *counter as int,
                    trades: trades_view(trades@),
                    filled: filled@,
                },
            ),
        decreases levels@.len(),
    {
        if levels.len() == 0 {
            break;
        }
        let ghost lv0 = levels_view(levels@);
        let level_price = levels[0].price;
        proof {
            assert(lv0[0] == levels@[0]@);
        }
        if !crosses_level(incoming, &level_price) {
            break;
        }
        let mut level = levels.pop_front().unwrap();
        proof {
            assert(levels_view(levels@) =~= lv0.drop_first());
            assert(lv0[0] == level@);
            if nn {
                assert forall|j: int| 0 <= j < level.orders@.len() implies (#[trigger] level.orders@[j]).qty@.units()
                    >= 0 by {
                    assert(lv0[0].orders[j] == level.orders@[j]@);
                }
                let rest = levels_view(levels@);
                assert forall|i: int, j: int| 0 <= i < rest.len() && 0 <= j < rest[i].orders.len() implies (
                #[trigger] rest[i].orders[j]).qty.units() >= 0 by {
                    assert(rest[i] == lv0[i + 1]);
                }
            }
            if pp {
                assert forall|j: int| 0 <= j < level.orders@.len() implies (#[trigger] level.orders@[j]).qty@.units()
                    > 0 by {
                    assert(lv0[0].orders[j] == level.orders@[j]@);
                }
                let rest = levels_view(levels@);
                assert forall|i: int, j: int| 0 <= i < rest.len() && 0 <= j < rest[i].orders.len() implies (
                #[trigger] rest[i].orders[j]).qty.units() > 0 by {
                    assert(rest[i] == lv0[i + 1]);
                }
            }
        }
        match_level(&mut level.orders, level_price, incoming, counter, trades, filled);
        if level.orders.len() > 0 {
            levels.push_front(level);
            proof {
                assert(levels_view(levels@) =~= lv0.update(
                    0,
                    LevelModel { price: lv0[0].price, orders: orders_view(level.orders@) },
                ));
                if pp {
                    let now = levels_view(levels@);
                    assert forall|i: int, j: int| 0 <= i < now.len() && 0 <= j < now[i].orders.len() implies (
                    #[trigger] now[i].orders[j]).qty.units() > 0 by {
                        if i == 0 {
                            assert(now[0].orders[j] == level.orders@[j]@);
                        } else {
                            assert(now[i] == lv0[i]);
                        }
                    }
                }
            }
            break;
        }
    }
}

/// The orders resting at the level priced at `price`, if there is one.
fn level_at<'a>(levels: &'a VecDeque<PriceLevel>, price: &Decimal) -> (r: Option<&'a VecDeque<Order>>)
    ensures
        match r {
            Some(q) => level_index(levels_view(levels@), price@) < levels@.len() && orders_view(q@)
                == levels_view(levels@)[level_index(levels_view(levels@), price@) as int].orders,
            None => level_index(levels_view(levels@), price@) == levels@.len(),
        },
{
    let ghost lv = levels_view(levels@);
    let mut i: usize = 0;
    while i < levels.len() && levels[i].price.compare(price) != 0
        invariant
            lv == levels_view(levels@),
            0 <= i <= levels@.len(),
            forall|k: int| 0 <= k < i ==> (#[trigger] lv[k].price).units() != price@.units(),
        decreases levels@.len() - i,
    {
        i = i + 1;
    }
    proof {
        lemma_level_index(lv, price@, i as int);
    }
    if i == levels.len() {
        None
    } else {
        proof {
            assert(lv[i as int] == levels@[i as int]@);
        }
        Some(&levels[i].orders)
    }
}

impl OrderBook {
    pub fn new(trade_sender: Sender<Trade>) -> (book: OrderBook)
        ensures
            book@ == (BookModel {
                trade_counter: 0,
                asks: Seq::empty(),
                bids: Seq::empty(),
                index: Map::empty(),
            }),
            book@.wf(),
            book.sender() == trade_sender,
            book.sent_trades() == Seq::<TradeModel>::empty(),
            index_consistent(book@),
            uncrossed(book@),
    {
        let book = OrderBook {
            trade_counter: 0,
            asks: VecDeque::new(),
            bids: VecDeque::new(),
            order_index: HashMap::new(),
            trade_sender,
            sent: Ghost(Seq::empty()),
        };
        proof {
            assert(book@.asks =~= Seq::empty());
            assert(book@.bids =~= Seq::empty());
            assert(book@.index =~= Map::empty());
            law_empty_book_consistent(book@);
        }
        book
    }

    /// Rests a limit order at the back of its price level, and indexes it.
    pub fn insert_order(&mut self, order: Order)
        requires
            old(self)@.wf(),
            order.price is Some,
        ensures
            final(self)@ == book_insert(old(self)@, order@),
            final(self)@.wf(),
            final(self).sender() == old(self).sender(),
            final(self).sent_trades() == old(self).sent_trades(),
            index_consistent(old(self)@) && !old(self)@.index.contains_key(order.id)
                ==> index_consistent(final(self)@),
    {
        proof {
            if index_consistent(self@) && !self@.index.contains_key(order.id) {
                law_insert_keeps_index_consistent(self@, order@);
            }
        }
        let price = order.price.expect("Limit Order must have value.");
        let order_type = order.order_type;
        proof {
            assert(rests_at(order@, order_type, price@));
        }
        match order.order_type {
            OrderType::Bid => insert_into_side(&mut self.bids, OrderType::Bid, order, price),
            OrderType::Ask => insert_into_side(&mut self.asks, OrderType::Ask, order, price),
        }
        self.order_index.insert(order.id, OrderPointer { price, order_type });
        proof {
            assert(self@.index =~= old(self)@.index.insert(
                order.id,
                PointerModel { price: price@, order_type },
            ));
            assert(self@ == book_insert(old(self)@, order@));
        }
    }

    /// Takes an order off the book by its id: `None` where the id is not indexed or
    /// its order is not where the index points. The id leaves the index either way.
    pub fn remove_order(&mut self, order_id: i32) -> (r: Option<Order>)
        requires
            old(self)@.wf(),
        ensures
            (final(self)@, option_order_view(r)) == book_remove(old(self)@, order_id),
            final(self)@.wf(),
            final(self).sender() == old(self).sender(),
            final(self).sent_trades() == old(self).sent_trades(),
            index_consistent(old(self)@) ==> (r is Some <==> ids_of(resting(old(self)@)).contains(
                order_id,
            )) && index_consistent(final(self)@),
    {
        proof {
            if index_consistent(self@) {
                law_remove_keeps_index_consistent(self@, order_id);
            }
        }
        let pointer = match self.order_index.remove(&order_id) {
            Some(p) => p,
            None => {
                proof {
                    assert(self.order_index@ =~= old(self).order_index@);
                    assert(!old(self)@.index.contains_key(order_id));
                }
                return None;
            },
        };
        proof {
            assert(index_view(self.order_index@) =~= old(self)@.index.remove(order_id));
            lemma_side_remove_wf(old(self)@.bids, OrderType::Bid, pointer.price@, order_id);
            lemma_side_remove_wf(old(self)@.asks, OrderType::Ask, pointer.price@, order_id);
        }
        match pointer.order_type {
            OrderType::Bid => remove_from_side(&mut self.bids, &pointer.price, order_id),
            OrderType::Ask => remove_from_side(&mut self.asks, &pointer.price, order_id),
        }
    }

    /// Cancels a resting order: the order taken off the book, marked cancelled.
    pub fn cancel_order(&mut self, order_id: i32) -> (r: Option<Order>)
        requires
            old(self)@.wf(),
        ensures
            final(self)@ == book_remove(old(self)@, order_id).0,
            option_order_view(r) == match book_remove(old(self)@, order_id).1 {
                Some(o) => Some(o.with_status(OrderStatus::Cancelled)),
                None => None,
            },
            final(self)@.wf(),
            final(self).sender() == old(self).sender(),
            final(self).sent_trades() == old(self).sent_trades(),
            index_consistent(old(self)@) ==> (r is Some <==> ids_of(resting(old(self)@)).contains(
                order_id,
            )) && index_consistent(final(self)@),
    {
        proof {
            if index_consistent(self@) {
                law_remove_keeps_index_consistent(self@, order_id);
            }
        }
        let mut order = self.remove_order(order_id)?;
        order.status = OrderStatus::Cancelled;
        Some(order)
    }

    /// The highest bid; the oldest among those at that price.
    pub fn best_bid(&self) -> (r: Option<&Order>)
        requires
            self@.wf(),
        ensures
            option_ref_view(r) == best(self@.bids),
    {
        if self.bids.len() == 0 {
            None
        } else {
            let level = &self.bids[0];
            proof {
                assert(self@.bids[0] == level@);
            }
            Some(&level.orders[0])
        }
    }

    /// The lowest ask; the oldest among those at that price.
    pub fn best_ask(&self) -> (r: Option<&Order>)
        requires
            self@.wf(),
        ensures
            option_ref_view(r) == best(self@.asks),
    {
        if self.asks.len() == 0 {
            None
        } else {
            let level = &self.asks[0];
            proof {
                assert(self@.asks[0] == level@);
            }
            Some(&level.orders[0])
        }
    }

    /// Changes nothing: updating a resting order in place is not supported.
    pub fn update_order(&mut self, order: Order)
        ensures
            *final(self) == *old(self),
    {
    }

    /// Where a market order's rest is cancelled: changes nothing.
    fn emit_market_partial_cancel_event(
        &mut self,
        order: &Order,
        filled_qty: Decimal,
        cancelled_qty: Decimal,
    )
        ensures
            *final(self) == *old(self),
    {
    }

    /// Matches the incoming order against the opposite side: the trades, in the
    /// order they happened; the incoming order keeps what is left of it.
    fn match_orders(&mut self, incoming_order: &mut Order) -> (trades: Vec<Trade>)
        requires
            old(self)@.wf(),
            match_incoming(old(self)@, old(incoming_order)@) is Some,
        ensures
            match_incoming(old(self)@, old(incoming_order)@) == Some(
                Matched {
                    book: final(self)@,
                    order: final(incoming_order)@,
                    trades: trades_view(trades@),
                },
            ),
            old(incoming_order)@.qty.units() >= 0 && levels_not_negative(
                old(self)@.side(opposite(old(incoming_order).order_type)),
            ) ==> final(incoming_order)@.qty.units() >= 0,
            old(incoming_order)@.qty.units() >= 0 && levels_positive(
                old(self)@.side(opposite(old(incoming_order).order_type)),
            ) ==> levels_positive(final(self)@.side(opposite(old(incoming_order).order_type))),
            final(self).sender() == old(self).sender(),
            final(self).sent_trades() == old(self).sent_trades(),
    {
        let mut filled_ids: Vec<i32> = Vec::new();
        let mut trades: Vec<Trade> = Vec::new();
        proof {
            assert(trades_view(trades@) =~= Seq::<TradeModel>::empty());
            assert(filled_ids@ =~= Seq::<i32>::empty());
        }
        match incoming_order.order_type {
            OrderType::Bid => match_side(
                &mut self.asks,
                incoming_order,
                &mut self.trade_counter,
                &mut trades,
                &mut filled_ids,
            ),
            OrderType::Ask => match_side(
                &mut self.bids,
                incoming_order,
                &mut self.trade_counter,
                &mut trades,
                &mut filled_ids,
            ),
        }
        let ghost idx0 = self@.index;
        let ghost mid = *self;
        let mut k: usize = 0;
        while k < filled_ids.len()
            invariant
                self.asks == mid.asks,
                self.bids == mid.bids,
                self.trade_counter == mid.trade_counter,
                self.trade_sender == mid.trade_sender,
                self.sent == mid.sent,
                0 <= k <= filled_ids@.len(),
                self@.index == idx0.remove_keys(filled_ids@.take(k as int).to_set()),
            decreases filled_ids@.len() - k,
        {
            let ghost before = self.order_index@;
            self.order_index.remove(&filled_ids[k]);
            proof {
                let ids = filled_ids@;
                assert(ids.take(k + 1) =~= ids.take(k as int).push(ids[k as int]));
                ids.take(k as int).lemma_push_to_set_commute(ids[k as int]);
                assert(self.order_index@ =~= before.remove(ids[k as int]));
                assert(index_view(self.order_index@) =~= index_view(before).remove(ids[k as int]));
                assert(self@.index =~= idx0.remove_keys(ids.take(k + 1).to_set()));
            }
            k = k + 1;
        }
        proof {
            assert(filled_ids@.take(filled_ids@.len() as int) =~= filled_ids@);
        }
        trades
    }

    /// Processes an incoming order: matches it against the book, then rests what is
    /// left of a limit order, or cancels what is left of a market order. Returns the
    /// incoming order as it ends, and the trades in the order they happened.
    pub fn execute_order(&mut self, incoming_order: Order) -> (r: (Order, Vec<Trade>))
        requires
            old(self)@.wf(),
            process(old(self)@, incoming_order@) is Some,
        ensures
            process(old(self)@, incoming_order@) == Some(
                Matched { book: final(self)@, order: r.0@, trades: trades_view(r.1@) },
            ),
            incoming_order@.qty.units() >= 0 && levels_not_negative(
                old(self)@.side(opposite(incoming_order.order_type)),
            ) ==> r.0@.qty.units() >= 0,
            incoming_order@.qty.units() >= 0 && levels_positive(old(self)@.asks) && levels_positive(
                old(self)@.bids,
            ) ==> levels_positive(final(self)@.asks) && levels_positive(final(self)@.bids),
            final(self)@.wf(),
            final(self).sender() == old(self).sender(),
            final(self).sent_trades() == old(self).sent_trades(),
    {
        proof {
            lemma_match_wf(self@, incoming_order@);
            lemma_process_wf(self@, incoming_order@);
        }
        let ghost b0 = self@;
        let ghost pp = incoming_order@.qty.units() >= 0 && levels_positive(b0.asks)
            && levels_positive(b0.bids);
        let mut incoming_order = incoming_order;
        let original_qty: Decimal = incoming_order.qty;
        let ghost inc0 = incoming_order@;
        let trades = self.match_orders(&mut incoming_order);
        proof {
            let own = inc0.order_type;
            let m = match_incoming(b0, inc0)->0;
            assert(m.book == self@);
            let sf = fill_side(inc0, b0.side(opposite(own)), b0.trade_counter, seq![], seq![]);
            assert(sf is Some);
            assert(m.book.side(own) == b0.side(own)) by {
                match own {
                    OrderType::Bid => {},
                    OrderType::Ask => {},
                }
            }
            crate::laws::lemma_fill_side_same_fields(inc0, b0.side(opposite(own)), b0.trade_counter, seq![], seq![]);
            assert(incoming_order.order_type == own);
            if pp {
                assert(levels_positive(b0.side(opposite(own))));
                assert(levels_positive(self@.side(opposite(own))));
                assert(levels_positive(self@.side(own)));
                assert(levels_positive(self@.asks) && levels_positive(self@.bids)) by {
                    match own {
                        OrderType::Bid => {},
                        OrderType::Ask => {},
                    }
                }
            }
        }
        if incoming_order.qty.is_positive() {
            match incoming_order.exc_type {
                OrderExcType::Limit => {
                    let ghost b1 = self@;
                    self.insert_order(incoming_order);
                    proof {
                        if pp {
                            let own = incoming_order.order_type;
                            lemma_side_insert_positive(
                                b1.side(own),
                                own,
                                incoming_order@,
                                incoming_order@.price->0,
                            );
                            assert(self@.side(own) == side_insert(
                                b1.side(own),
                                own,
                                incoming_order@,
                                incoming_order@.price->0,
                            ));
                            assert(self@.side(opposite(own)) == b1.side(opposite(own)));
                            assert(levels_positive(self@.asks) && levels_positive(self@.bids)) by {
                                match own {
                                    OrderType::Bid => {},
                                    OrderType::Ask => {},
                                }
                            }
                        }
                    }
                },
                OrderExcType::Market => {
                    let cancelled_qty: Decimal = incoming_order.qty;
                    let filled_qty = original_qty.checked_sub(&cancelled_qty).unwrap();
                    self.emit_market_partial_cancel_event(
                        &incoming_order,
                        filled_qty,
                        cancelled_qty,
                    );
                    incoming_order.status = OrderStatus::Cancelled;
                },
            }
        } else {
            incoming_order.status = OrderStatus::Filled;
        }
        (incoming_order, trades)
    }

    /// Processes an incoming order as `execute_order` does, and sends each trade
    /// on the trade channel, in the order they happened.
    pub fn process_order(&mut self, incoming_order: Order) -> (r: Order)
        requires
            old(self)@.wf(),
            process(old(self)@, incoming_order@) is Some,
        ensures
            final(self)@ == process(old(self)@, incoming_order@)->0.book,
            r@ == process(old(self)@, incoming_order@)->0.order,
            incoming_order@.qty.units() >= 0 && levels_not_negative(
                old(self)@.side(opposite(incoming_order.order_type)),
            ) ==> r@.qty.units() >= 0,
            incoming_order@.qty.units() >= 0 && levels_positive(old(self)@.asks) && levels_positive(
                old(self)@.bids,
            ) ==> levels_positive(final(self)@.asks) && levels_positive(final(self)@.bids),
            final(self)@.wf(),
            final(self).sender() == old(self).sender(),
            final(self).sent_trades() == old(self).sent_trades() + process(
                old(self)@,
                incoming_order@,
            )->0.trades,
            uncrossed(old(self)@) ==> uncrossed(final(self)@),
            index_consistent(old(self)@) && !old(self)@.index.contains_key(incoming_order.id)
                ==> index_consistent(final(self)@),
    {
        proof {
            if uncrossed(self@) {
                law_process_keeps_book_uncrossed(self@, incoming_order@);
            }
            if index_consistent(self@) && !self@.index.contains_key(incoming_order.id) {
                law_process_keeps_index_consistent(self@, incoming_order@);
            }
        }
        let (order, trades) = self.execute_order(incoming_order);
        let ghost sent0 = self.sent_trades();
        let ghost all = trades@;
        for trade in it: trades
            invariant
                it.seq() == all,
                self.sent_trades() == sent0 + trades_view(all.take(it.index())),
                self.sender() == old(self).sender(),
                self@ == process(old(self)@, incoming_order@)->0.book,
        {
            let ghost t = trade@;
            let ghost k = it.index();
            proof {
                assert(trade == all[k]);
                assert(all.take(k + 1) =~= all.take(k).push(all[k]));
                assert(trades_view(all.take(k + 1)) =~= trades_view(all.take(k)).push(t));
                assert(sent0 + trades_view(all.take(k + 1)) =~= (sent0 + trades_view(all.take(k))).push(t));
            }
            self.send_trade(trade);
        }
        proof {
            assert(all.take(all.len() as int) =~= all);
        }
        order
    }

    /// Whether `process_order` can process this order: false exactly where processing
    /// it would stop on an arithmetic overflow (of a quantity or of the trade counter)
    /// or on a limit order without a price. Reads the book without changing it.
    pub fn can_process(&self, incoming_order: &Order) -> (ok: bool)
        requires
            self@.wf(),
        ensures
            ok == process(self@, incoming_order@) is Some,
    {
        let levels = match incoming_order.order_type {
            OrderType::Bid => &self.asks,
            OrderType::Ask => &self.bids,
        };
        let ghost lv = levels_view(levels@);
        proof {
            assert(lv == self@.side(opposite(incoming_order.order_type)));
        }
        let mut inc = *incoming_order;
        let mut counter: i32 = self.trade_counter;
        let ghost mut t: Seq<TradeModel> = seq![];
        let ghost mut f: Seq<i32> = seq![];
        let ghost goal = fill_side(inc@, lv, counter as int, t, f);
        proof {
            assert(lv.subrange(0, lv.len() as int) =~= lv);
            assert(goal == fill_side(
                incoming_order@,
                self@.side(opposite(incoming_order.order_type)),
                self@.trade_counter,
                seq![],
                seq![],
            ));
            assert(goal is None ==> process(self@, incoming_order@) is None);
        }
        let mut i: usize = 0;
        loop
            invariant_except_break
                goal == fill_side(inc@, lv.subrange(i as int, lv.len() as int), counter as int, t, f),
            invariant
                goal is None ==> process(self@, incoming_order@) is None,
                lv == levels_view(levels@),
                0 <= i <= lv.len(),
                inc.order_type == incoming_order.order_type,
                inc.exc_type == incoming_order.exc_type,
                inc.price == incoming_order.price,
                inc.id == incoming_order.id,
            ensures
                goal is Some,
                goal->0.incoming == inc@,
            decreases lv.len() - i,
        {
            let ghost rest_levels = lv.subrange(i as int, lv.len() as int);
            if i == levels.len() {
                break;
            }
            if inc.exc_type == OrderExcType::Limit && inc.price.is_none() {
                proof {
                    assert(goal is None);
                }
                return false;
            }
            let level = &levels[i];
            proof {
                assert(rest_levels[0] == level@);
                assert(rest_levels.drop_first() =~= lv.subrange(i + 1, lv.len() as int));
            }
            if !crosses_level(&inc, &level.price) {
                break;
            }
            let n = level.orders.len();
            let ghost ov = orders_view(level.orders@);
            let ghost qgoal = fill_queue(inc@, level.price@, ov, counter as int, t, f);
            proof {
                assert(ov.subrange(0, n as int) =~= ov);
            }
            proof {
                assert(qgoal is None ==> goal is None);
            }
            let mut j: usize = 0;
            let mut emptied = false;
            loop
                invariant_except_break
                    qgoal == fill_queue(
                        inc@,
                        level.price@,
                        ov.subrange(j as int, n as int),
                        counter as int,
                        t,
                        f,
                    ),
                    !emptied,
                invariant
                    qgoal is None ==> goal is None,
                    goal is None ==> process(self@, incoming_order@) is None,
                    ov == orders_view(level.orders@),
                    n == ov.len(),
                    0 <= j <= n,
                    inc.order_type == incoming_order.order_type,
                    inc.exc_type == incoming_order.exc_type,
                    inc.price == incoming_order.price,
                    inc.id == incoming_order.id,
                ensures
                    qgoal is Some,
                    qgoal->0.incoming == inc@,
                    qgoal->0.counter == counter,
                    qgoal->0.trades == t,
                    qgoal->0.filled == f,
                    (qgoal->0.orders.len() == 0) == emptied,
                decreases n - j,
            {
                let ghost rest_orders = ov.subrange(j as int, n as int);
                if j == n {
                    emptied = true;
                    break;
                }
                if !inc.qty.is_positive() {
                    break;
                }
                if counter == i32::MAX {
                    return false;
                }
                let resting = &level.orders[j];
                proof {
                    assert(rest_orders[0] == resting@);
                    assert(rest_orders.drop_first() =~= ov.subrange(j + 1, n as int));
                }
                if resting.qty.compare(&inc.qty) <= 0 {
                    let left = match inc.qty.checked_sub(&resting.qty) {
                        Some(d) => d,
                        None => {
                            return false;
                        },
                    };
                    proof {
                        t = t.push(make_trade(inc@, resting@, level.price@, resting.qty@));
                        f = f.push(resting.id);
                    }
                    inc.qty = left;
                    counter = counter + 1;
                    j = j + 1;
                } else {
                    let rest = match resting.qty.checked_sub(&inc.qty) {
                        Some(d) => d,
                        None => {
                            return false;
                        },
                    };
                    proof {
                        t = t.push(make_trade(inc@, resting@, level.price@, inc.qty@));
                        lemma_zero_units(inc.qty@.scale);
                    }
                    inc.qty = inc.qty.checked_sub(&inc.qty).unwrap();
                    counter = counter + 1;
                    if rest.is_zero() {
                        proof {
                            f = f.push(resting.id);
                        }
                        j = j + 1;
                    } else {
                        proof {
                            assert(qgoal->0.orders.len() > 0);
                        }
                        break;
                    }
                }
            }
            if !emptied {
                break;
            }
            i = i + 1;
        }
        proof {
            lemma_match_wf(self@, incoming_order@);
        }
        if inc.qty.is_positive() {
            match inc.exc_type {
                OrderExcType::Limit => inc.price.is_some(),
                OrderExcType::Market => incoming_order.qty.checked_sub(&inc.qty).is_some(),
            }
        } else {
            true
        }
    }

    /// Processes an incoming order as `process_order` does, where `can_process`
    /// allows it; otherwise leaves the book as it is and returns `None`.
    pub fn try_process_order(&mut self, incoming_order: Order) -> (r: Option<Order>)
        requires
            old(self)@.wf(),
        ensures
            r is None <==> process(old(self)@, incoming_order@) is None,
            r is None ==> *final(self) == *old(self),
            r matches Some(o) ==> final(self)@ == process(old(self)@, incoming_order@)->0.book
                && o@ == process(old(self)@, incoming_order@)->0.order
                && (incoming_order@.qty.units() >= 0 && levels_not_negative(
                old(self)@.side(opposite(incoming_order.order_type)),
            ) ==> o@.qty.units() >= 0)
                && (incoming_order@.qty.units() >= 0 && levels_positive(old(self)@.asks)
                && levels_positive(old(self)@.bids) ==> levels_positive(final(self)@.asks)
                && levels_positive(final(self)@.bids))
                && final(self).sent_trades() == old(self).sent_trades() + process(
                old(self)@,
                incoming_order@,
            )->0.trades,
            final(self)@.wf(),
            final(self).sender() == old(self).sender(),
    {
        if self.can_process(&incoming_order) {
            Some(self.process_order(incoming_order))
        } else {
            None
        }
    }

    /// The bids resting at this price, oldest first, if any rest there.
    pub fn bids_at(&self, price: &Decimal) -> (r: Option<&VecDeque<Order>>)
        ensures
            match r {
                Some(q) => level_index(self@.bids, price@) < self@.bids.len() && orders_view(q@)
                    == self@.bids[level_index(self@.bids, price@) as int].orders,
                None => level_index(self@.bids, price@) == self@.bids.len(),
            },
    {
        level_at(&self.bids, price)
    }

    /// The asks resting at this price, oldest first, if any rest there.
    pub fn asks_at(&self, price: &Decimal) -> (r: Option<&VecDeque<Order>>)
        ensures
            match r {
                Some(q) => level_index(self@.asks, price@) < self@.asks.len() && orders_view(q@)
                    == self@.asks[level_index(self@.asks, price@) as int].orders,
                None => level_index(self@.asks, price@) == self@.asks.len(),
            },
    {
        level_at(&self.asks, price)
    }
}

} // verus!
