//! The index of a book agrees with the orders resting in it, and every operation
//! keeps it so.
use vstd::prelude::*;

use crate::decimal::checked_difference;
use crate::laws::{lemma_fill_side_same_fields, priority_order};
use crate::matching::{
    ahead, book_insert, book_remove, crosses, fill_queue, fill_side, insert_position,
    lemma_insert_position_props, lemma_level_index, lemma_order_position, level_wf, make_trade,
    match_incoming, opposite, process, rests_at, side_insert, side_remove, side_wf, BookModel,
    LevelModel,
};
use crate::order::{OrderExcType, OrderModel, OrderType, PointerModel};
use crate::trade::TradeModel;

verus! {

/// Where the orders of level `i` begin in the priority order of a side.
pub open spec fn level_start(levels: Seq<LevelModel>, i: int) -> int
    decreases i,
{
    if i <= 0 || levels.len() == 0 {
        0
    } else {
        levels[0].orders.len() + level_start(levels.drop_first(), i - 1)
    }
}

pub proof fn lemma_priority_split(levels: Seq<LevelModel>)
    requires
        levels.len() > 0,
    ensures
        priority_order(levels) == levels[0].orders + priority_order(levels.drop_first()),
{
}

/// The level start of the last level plus its length is the whole length.
pub proof fn lemma_level_start_bounds(levels: Seq<LevelModel>, i: int)
    requires
        0 <= i <= levels.len(),
    ensures
        0 <= level_start(levels, i) <= priority_order(levels).len(),
        i < levels.len() ==> level_start(levels, i) + levels[i].orders.len() <= priority_order(
            levels,
        ).len(),
        i == levels.len() ==> level_start(levels, i) == priority_order(levels).len(),
    decreases i,
{
    if levels.len() > 0 {
        lemma_priority_split(levels);
        if i > 0 {
            lemma_level_start_bounds(levels.drop_first(), i - 1);
            if i < levels.len() {
                assert(levels.drop_first()[i - 1] == levels[i]);
            }
        }
    }
}

/// The orders of level `i` stand in the priority order from its level start on.
pub proof fn lemma_priority_at(levels: Seq<LevelModel>, i: int, j: int)
    requires
        0 <= i < levels.len(),
        0 <= j < levels[i].orders.len(),
    ensures
        level_start(levels, i) + j < priority_order(levels).len(),
        priority_order(levels)[level_start(levels, i) + j] == levels[i].orders[j],
    decreases i,
{
    lemma_priority_split(levels);
    let rest = levels.drop_first();
    if i > 0 {
        assert(rest[i - 1] == levels[i]);
        lemma_priority_at(rest, i - 1, j);
        lemma_level_start_bounds(rest, i - 1);
        let k = level_start(rest, i - 1) + j;
        assert(k < priority_order(rest).len());
        assert(priority_order(levels).len() == levels[0].orders.len() + priority_order(rest).len());
        assert(level_start(levels, i) + j == levels[0].orders.len() + k);
        let cat = levels[0].orders + priority_order(rest);
        assert(cat[levels[0].orders.len() + k] == priority_order(rest)[k]);
        assert(priority_order(levels) == cat);
    }
}

/// Every position of the priority order belongs to some level.
pub proof fn lemma_priority_locate(levels: Seq<LevelModel>, k: int) -> (ij: (int, int))
    requires
        0 <= k < priority_order(levels).len(),
    ensures
        0 <= ij.0 < levels.len(),
        0 <= ij.1 < levels[ij.0].orders.len(),
        k == level_start(levels, ij.0) + ij.1,
    decreases levels.len(),
{
    lemma_priority_split(levels);
    let rest = levels.drop_first();
    if k < levels[0].orders.len() {
        (0, k)
    } else {
        let (i, j) = lemma_priority_locate(rest, k - levels[0].orders.len());
        assert(rest[i] == levels[i + 1]);
        (i + 1, j)
    }
}

/// Replacing the orders of a level replaces them in the priority order.
pub proof fn lemma_priority_update(levels: Seq<LevelModel>, i: int, l: LevelModel)
    requires
        0 <= i < levels.len(),
    ensures
        priority_order(levels.update(i, l)) == priority_order(levels).take(level_start(levels, i))
            + l.orders + priority_order(levels).skip(level_start(levels, i) + levels[i].orders.len()),
    decreases i,
{
    lemma_level_start_bounds(levels, i);
    let u = levels.update(i, l);
    lemma_priority_split(levels);
    lemma_priority_split(u);
    let rest = levels.drop_first();
    if i == 0 {
        assert(u.drop_first() =~= rest);
        assert(priority_order(levels).take(0) =~= Seq::<OrderModel>::empty());
        assert(priority_order(levels).skip(levels[0].orders.len() as int) =~= priority_order(rest));
        assert(priority_order(u) =~= priority_order(levels).take(level_start(levels, i)) + l.orders
            + priority_order(levels).skip(level_start(levels, i) + levels[i].orders.len()));
    } else {
        assert(u.drop_first() =~= rest.update(i - 1, l));
        assert(rest[i - 1] == levels[i]);
        lemma_priority_update(rest, i - 1, l);
        lemma_level_start_bounds(rest, i - 1);
        let po = priority_order(levels);
        let pr = priority_order(rest);
        let n0 = levels[0].orders.len() as int;
        assert(po.take(level_start(levels, i)) =~= levels[0].orders + pr.take(level_start(rest, i - 1)));
        assert(po.skip(level_start(levels, i) + levels[i].orders.len()) =~= pr.skip(
            level_start(rest, i - 1) + rest[i - 1].orders.len(),
        ));
        assert(priority_order(u) =~= po.take(level_start(levels, i)) + l.orders + po.skip(
            level_start(levels, i) + levels[i].orders.len(),
        ));
    }
}

/// Dropping a level drops its orders from the priority order.
pub proof fn lemma_priority_remove_level(levels: Seq<LevelModel>, i: int)
    requires
        0 <= i < levels.len(),
    ensures
        priority_order(levels.remove(i)) == priority_order(levels).take(level_start(levels, i))
            + priority_order(levels).skip(level_start(levels, i) + levels[i].orders.len()),
    decreases i,
{
    lemma_level_start_bounds(levels, i);
    let u = levels.remove(i);
    lemma_priority_split(levels);
    let rest = levels.drop_first();
    if i == 0 {
        assert(u =~= rest);
        assert(priority_order(levels).take(0) =~= Seq::<OrderModel>::empty());
        assert(priority_order(levels).skip(levels[0].orders.len() as int) =~= priority_order(rest));
        assert(priority_order(u) =~= priority_order(levels).take(level_start(levels, i))
            + priority_order(levels).skip(level_start(levels, i) + levels[i].orders.len()));
    } else {
        lemma_priority_split(u);
        assert(u.drop_first() =~= rest.remove(i - 1));
        assert(u[0] == levels[0]);
        assert(rest[i - 1] == levels[i]);
        lemma_priority_remove_level(rest, i - 1);
        lemma_level_start_bounds(rest, i - 1);
        let po = priority_order(levels);
        let pr = priority_order(rest);
        assert(po.take(level_start(levels, i)) =~= levels[0].orders + pr.take(level_start(rest, i - 1)));
        assert(po.skip(level_start(levels, i) + levels[i].orders.len()) =~= pr.skip(
            level_start(rest, i - 1) + rest[i - 1].orders.len(),
        ));
        assert(priority_order(u) =~= po.take(level_start(levels, i)) + po.skip(
            level_start(levels, i) + levels[i].orders.len(),
        ));
    }
}

/// Opening a level puts its orders into the priority order where the level goes.
pub proof fn lemma_priority_insert_level(levels: Seq<LevelModel>, i: int, l: LevelModel)
    requires
        0 <= i <= levels.len(),
    ensures
        priority_order(levels.insert(i, l)) == priority_order(levels).take(level_start(levels, i))
            + l.orders + priority_order(levels).skip(level_start(levels, i)),
    decreases i,
{
    lemma_level_start_bounds(levels, i);
    let u = levels.insert(i, l);
    lemma_priority_split(u);
    if i == 0 {
        assert(u.drop_first() =~= levels);
        assert(priority_order(levels).take(0) =~= Seq::<OrderModel>::empty());
        assert(priority_order(levels).skip(0) =~= priority_order(levels));
        assert(priority_order(u) =~= priority_order(levels).take(level_start(levels, i)) + l.orders
            + priority_order(levels).skip(level_start(levels, i)));
    } else {
        lemma_priority_split(levels);
        let rest = levels.drop_first();
        assert(u.drop_first() =~= rest.insert(i - 1, l));
        assert(u[0] == levels[0]);
        lemma_priority_insert_level(rest, i - 1, l);
        lemma_level_start_bounds(rest, i - 1);
        let po = priority_order(levels);
        let pr = priority_order(rest);
        assert(po.take(level_start(levels, i)) =~= levels[0].orders + pr.take(level_start(rest, i - 1)));
        assert(po.skip(level_start(levels, i)) =~= pr.skip(level_start(rest, i - 1)));
        assert(priority_order(u) =~= po.take(level_start(levels, i)) + l.orders + po.skip(
            level_start(levels, i),
        ));
    }
}


/// The orders of a level, as they stand in the priority order of the side.
pub proof fn lemma_priority_level_slice(levels: Seq<LevelModel>, i: int)
    requires
        0 <= i < levels.len(),
    ensures
        priority_order(levels) == priority_order(levels).take(level_start(levels, i))
            + levels[i].orders + priority_order(levels).skip(level_start(levels, i) + levels[i].orders.len()),
{
    lemma_level_start_bounds(levels, i);
    let po = priority_order(levels);
    let st = level_start(levels, i);
    let n = levels[i].orders.len() as int;
    assert forall|j: int| 0 <= j < n implies po[st + j] == levels[i].orders[j] by {
        lemma_priority_at(levels, i, j);
    }
    assert(po =~= po.take(st) + levels[i].orders + po.skip(st + n));
}

/// Resting an order inserts it into the priority order of its side.
pub proof fn lemma_priority_side_insert(levels: Seq<LevelModel>, side: OrderType, o: OrderModel, p: crate::decimal::DecimalModel) -> (m: int)
    ensures
        0 <= m <= priority_order(levels).len(),
        priority_order(side_insert(levels, side, o, p)) == priority_order(levels).insert(m, o),
{
    lemma_insert_position_props(levels, side, p);
    let i = insert_position(levels, side, p) as int;
    let po = priority_order(levels);
    lemma_level_start_bounds(levels, i);
    let st = level_start(levels, i);
    if i < levels.len() && levels[i].price.units() == p.units() {
        let l = crate::matching::LevelModel { price: levels[i].price, orders: levels[i].orders.push(o) };
        lemma_priority_update(levels, i, l);
        lemma_priority_level_slice(levels, i);
        let n = levels[i].orders.len() as int;
        assert(po.take(st) + l.orders + po.skip(st + n) =~= po.insert(st + n, o)) by {
            assert(po =~= po.take(st) + levels[i].orders + po.skip(st + n));
        }
        st + n
    } else {
        let l = crate::matching::LevelModel { price: p, orders: seq![o] };
        lemma_priority_insert_level(levels, i, l);
        assert(po.take(st) + l.orders + po.skip(st) =~= po.insert(st, o));
        st
    }
}

// ---------------------------------------------------------------- the invariant

pub open spec fn ids_of(s: Seq<OrderModel>) -> Seq<i32> {
    s.map_values(|o: OrderModel| o.id)
}

/// Every order resting in the book: the asks, then the bids, each in priority order.
pub open spec fn resting(b: BookModel) -> Seq<OrderModel> {
    priority_order(b.asks) + priority_order(b.bids)
}

/// The index entry leads to the order: its side and the price of its level.
pub open spec fn points_at(ptr: PointerModel, o: OrderModel) -> bool {
    &&& ptr.order_type == o.order_type
    &&& o.price matches Some(p) && ptr.price.units() == p.units()
}

/// The index and the resting orders agree: no id rests twice, exactly the resting
/// ids are indexed, and each entry leads to its order.
pub open spec fn index_consistent(b: BookModel) -> bool {
    &&& ids_of(resting(b)).no_duplicates()
    &&& forall|id: i32| b.index.contains_key(id) <==> ids_of(resting(b)).contains(id)
    &&& forall|k: int|
        0 <= k < resting(b).len() ==> points_at(b.index[#[trigger] resting(b)[k].id], resting(b)[k])
}

proof fn lemma_ids_insert(s: Seq<OrderModel>, m: int, o: OrderModel)
    requires
        0 <= m <= s.len(),
        ids_of(s).no_duplicates(),
        !ids_of(s).contains(o.id),
    ensures
        ids_of(s.insert(m, o)) == ids_of(s).insert(m, o.id),
        ids_of(s.insert(m, o)).no_duplicates(),
{
    let a = ids_of(s);
    let r = ids_of(s.insert(m, o));
    assert(r =~= a.insert(m, o.id));
    assert forall|x: int, y: int| 0 <= x < r.len() && 0 <= y < r.len() && x != y implies r[x] != r[y] by {
        if x == m {
            let y2 = if y < m { y } else { y - 1 };
            assert(a[y2] == r[y]);
        } else if y == m {
            let x2 = if x < m { x } else { x - 1 };
            assert(a[x2] == r[x]);
        } else {
            let x2 = if x < m { x } else { x - 1 };
            let y2 = if y < m { y } else { y - 1 };
            assert(a[x2] == r[x] && a[y2] == r[y]);
        }
    }
}

/// The empty book is consistent.
pub proof fn law_empty_book_consistent(b: BookModel)
    requires
        b.asks.len() == 0,
        b.bids.len() == 0,
        b.index == Map::<i32, PointerModel>::empty(),
    ensures
        index_consistent(b),
{
    assert(priority_order(b.asks) =~= Seq::<OrderModel>::empty());
    assert(priority_order(b.bids) =~= Seq::<OrderModel>::empty());
    assert(resting(b) =~= Seq::<OrderModel>::empty());
    assert(ids_of(resting(b)) =~= Seq::<i32>::empty());
}

/// Resting an order whose id is not indexed keeps the index consistent.
pub proof fn law_insert_keeps_index_consistent(b: BookModel, o: OrderModel)
    requires
        index_consistent(b),
        o.price is Some,
        !b.index.contains_key(o.id),
    ensures
        index_consistent(book_insert(b, o)),
{
    let side = o.order_type;
    let p = o.price->0;
    let b2 = book_insert(b, o);
    let m = lemma_priority_side_insert(b.side(side), side, o, p);
    let r = resting(b);
    let m2 = match side {
        OrderType::Ask => m,
        OrderType::Bid => priority_order(b.asks).len() + m,
    };
    assert(resting(b2) =~= r.insert(m2, o));
    lemma_ids_insert(r, m2, o);
    assert forall|id: i32| b2.index.contains_key(id) <==> ids_of(resting(b2)).contains(id) by {
        if ids_of(resting(b2)).contains(id) && id != o.id {
            let x = choose|x: int| 0 <= x < ids_of(resting(b2)).len() && ids_of(resting(b2))[x] == id;
            let x2 = if x < m2 { x } else { x - 1 };
            assert(ids_of(r)[x2] == id);
        }
        if b.index.contains_key(id) {
            let x = choose|x: int| 0 <= x < ids_of(r).len() && ids_of(r)[x] == id;
            let x2 = if x < m2 { x } else { x + 1 };
            assert(ids_of(resting(b2))[x2] == id);
        }
        if id == o.id {
            assert(ids_of(resting(b2))[m2] == id);
        }
    }
    assert forall|k: int| 0 <= k < resting(b2).len() implies points_at(b2.index[#[trigger] resting(b2)[k].id], resting(b2)[k]) by {
        if k != m2 {
            let k2 = if k < m2 { k } else { k - 1 };
            assert(resting(b2)[k] == r[k2]);
            assert(ids_of(r)[k2] == r[k2].id);
            assert(r[k2].id != o.id);
        }
    }
}


proof fn lemma_ids_remove(s: Seq<OrderModel>, k: int)
    requires
        0 <= k < s.len(),
        ids_of(s).no_duplicates(),
    ensures
        ids_of(s.remove(k)) == ids_of(s).remove(k),
        ids_of(s.remove(k)).no_duplicates(),
        !ids_of(s.remove(k)).contains(s[k].id),
        forall|id: i32| ids_of(s.remove(k)).contains(id) <==> (ids_of(s).contains(id) && id != s[k].id),
{
    let a = ids_of(s);
    let r = ids_of(s.remove(k));
    assert(r =~= a.remove(k));
    assert forall|x: int, y: int| 0 <= x < r.len() && 0 <= y < r.len() && x != y implies r[x] != r[y] by {
        let x2 = if x < k { x } else { x + 1 };
        let y2 = if y < k { y } else { y + 1 };
        assert(a[x2] == r[x] && a[y2] == r[y]);
    }
    assert forall|x: int| 0 <= x < r.len() implies r[x] != s[k].id by {
        let x2 = if x < k { x } else { x + 1 };
        assert(a[x2] == r[x]);
        assert(a[k] == s[k].id);
    }
    assert forall|id: i32| r.contains(id) <==> (a.contains(id) && id != s[k].id) by {
        if r.contains(id) {
            let x = choose|x: int| 0 <= x < r.len() && r[x] == id;
            let x2 = if x < k { x } else { x + 1 };
            assert(a[x2] == id);
        }
        if a.contains(id) && id != s[k].id {
            let x = choose|x: int| 0 <= x < a.len() && a[x] == id;
            assert(x != k);
            let x2 = if x < k { x } else { x - 1 };
            assert(r[x2] == id);
        }
    }
}

/// Taking off the order at position `k` of a side's priority order: the removal
/// finds its level by its price and it by its id.
proof fn lemma_side_remove_at(levels: Seq<LevelModel>, side: OrderType, p: crate::decimal::DecimalModel, k: int)
    requires
        side_wf(levels, side),
        0 <= k < priority_order(levels).len(),
        ids_of(priority_order(levels)).no_duplicates(),
        priority_order(levels)[k].price matches Some(q) && q.units() == p.units(),
    ensures
        side_remove(levels, p, priority_order(levels)[k].id).1 == Some(priority_order(levels)[k]),
        priority_order(side_remove(levels, p, priority_order(levels)[k].id).0) == priority_order(
            levels,
        ).remove(k),
        priority_order(levels)[k].order_type == side,
{
    let po = priority_order(levels);
    let id = po[k].id;
    let (i, j) = lemma_priority_locate(levels, k);
    lemma_priority_at(levels, i, j);
    lemma_level_start_bounds(levels, i);
    let st = level_start(levels, i);
    let l = levels[i];
    assert(level_wf(l, side));
    assert(rests_at(l.orders[j], side, l.price));
    assert forall|x: int| 0 <= x < i implies (#[trigger] levels[x].price).units() != p.units() by {
        assert(ahead(side, levels[x].price, levels[i].price));
    }
    lemma_level_index(levels, p, i);
    assert forall|x: int| 0 <= x < j implies (#[trigger] l.orders[x]).id != id by {
        lemma_priority_at(levels, i, x);
        assert(ids_of(po)[st + x] == l.orders[x].id);
        assert(ids_of(po)[k] == id);
    }
    lemma_order_position(l.orders, id, j);
    let rest = l.orders.remove(j);
    lemma_priority_level_slice(levels, i);
    let n = l.orders.len() as int;
    if rest.len() == 0 {
        lemma_priority_remove_level(levels, i);
        assert(po.take(st) + po.skip(st + n) =~= po.remove(k)) by {
            assert(po =~= po.take(st) + l.orders + po.skip(st + n));
        }
    } else {
        lemma_priority_update(levels, i, LevelModel { price: l.price, orders: rest });
        assert(po.take(st) + rest + po.skip(st + n) =~= po.remove(k)) by {
            assert(po =~= po.take(st) + l.orders + po.skip(st + n));
        }
    }
}

/// Taking an order off keeps the index consistent. The removal finds an order
/// exactly when the id rests in the book, and the order it finds is that one.
pub proof fn law_remove_keeps_index_consistent(b: BookModel, id: i32)
    requires
        b.wf(),
        index_consistent(b),
    ensures
        index_consistent(book_remove(b, id).0),
        book_remove(b, id).1 is Some <==> ids_of(resting(b)).contains(id),
        book_remove(b, id).1 matches Some(o) ==> o.id == id && resting(b).contains(o),
        !ids_of(resting(book_remove(b, id).0)).contains(id),
{
    let r = resting(b);
    if b.index.contains_key(id) {
        let k = choose|k: int| 0 <= k < ids_of(r).len() && ids_of(r)[k] == id;
        let o = r[k];
        assert(points_at(b.index[o.id], o));
        let ptr = b.index[id];
        let na = priority_order(b.asks).len() as int;
        let k2 = if k < na { k } else { k - na };
        let levels = if k < na { b.asks } else { b.bids };
        let side = if k < na { OrderType::Ask } else { OrderType::Bid };
        assert(priority_order(levels)[k2] == o);
        assert(ids_of(priority_order(levels)).no_duplicates()) by {
            let a = ids_of(priority_order(levels));
            let off = if k < na { 0 } else { na };
            assert forall|x: int, y: int| 0 <= x < a.len() && 0 <= y < a.len() && x != y implies a[x] != a[y] by {
                assert(ids_of(r)[x + off] == a[x]);
                assert(ids_of(r)[y + off] == a[y]);
            }
        }
        lemma_side_remove_at(levels, side, ptr.price, k2);
        let b2 = book_remove(b, id).0;
        assert(ptr.order_type == side);
        assert(resting(b2) =~= r.remove(k));
        lemma_ids_remove(r, k);
        assert forall|id2: i32| b2.index.contains_key(id2) <==> ids_of(resting(b2)).contains(id2) by {}
        assert forall|x: int| 0 <= x < resting(b2).len() implies points_at(b2.index[#[trigger] resting(b2)[x].id], resting(b2)[x]) by {
            let x2 = if x < k { x } else { x + 1 };
            assert(resting(b2)[x] == r[x2]);
            assert(ids_of(r)[x2] == r[x2].id);
            assert(ids_of(resting(b2))[x] == r[x2].id);
        }
        assert(r.contains(o)) by {
            assert(r[k] == o);
        }
    }
}


// ---------------------------------------------------------------- matching and the index

/// Two orders with the same id, side and price.
pub open spec fn same_key(a: OrderModel, b: OrderModel) -> bool {
    &&& a.id == b.id
    &&& a.order_type == b.order_type
    &&& a.price == b.price
}

/// Matching against a level fills a prefix of its orders, whose ids are recorded
/// as filled, and keeps the others with their ids, sides and prices.
proof fn lemma_fill_queue_keys(
    inc: OrderModel,
    price: crate::decimal::DecimalModel,
    orders: Seq<OrderModel>,
    counter: int,
    trades: Seq<TradeModel>,
    filled: Seq<i32>,
)
    requires
        fill_queue(inc, price, orders, counter, trades, filled) is Some,
    ensures
        ({
            let q = fill_queue(inc, price, orders, counter, trades, filled)->0;
            let n = q.filled.len() - filled.len();
            &&& 0 <= n <= orders.len()
            &&& q.orders.len() == orders.len() - n
            &&& q.filled == filled + ids_of(orders.take(n))
            &&& forall|x: int| 0 <= x < q.orders.len() ==> same_key(#[trigger] q.orders[x], orders[n + x])
        }),
    decreases orders.len(),
{
    let q = fill_queue(inc, price, orders, counter, trades, filled)->0;
    if orders.len() == 0 || inc.qty.units() <= 0 {
        assert(ids_of(orders.take(0)) =~= Seq::<i32>::empty());
        assert(q.filled =~= filled + ids_of(orders.take(0)));
    } else {
        let r = orders[0];
        let rest = orders.drop_first();
        if r.qty.units() <= inc.qty.units() {
            let left = checked_difference(inc.qty, r.qty)->0;
            let f1 = filled.push(r.id);
            lemma_fill_queue_keys(
                inc.with_qty(left),
                price,
                rest,
                counter + 1,
                trades.push(make_trade(inc, r, price, r.qty)),
                f1,
            );
            let n1 = q.filled.len() - f1.len();
            assert(ids_of(orders.take(n1 + 1)) =~= seq![r.id] + ids_of(rest.take(n1)));
            assert(q.filled =~= filled + ids_of(orders.take(n1 + 1)));
            assert forall|x: int| 0 <= x < q.orders.len() implies same_key(#[trigger] q.orders[x], orders[n1 + 1 + x]) by {
                assert(rest[n1 + x] == orders[n1 + 1 + x]);
            }
        } else {
            let rest_qty = checked_difference(r.qty, inc.qty)->0;
            if rest_qty.units() == 0 {
                assert(ids_of(orders.take(1)) =~= seq![r.id]);
                assert(q.filled =~= filled + ids_of(orders.take(1)));
                assert forall|x: int| 0 <= x < q.orders.len() implies same_key(#[trigger] q.orders[x], orders[1 + x]) by {
                    assert(rest[x] == orders[1 + x]);
                }
            } else {
                assert(ids_of(orders.take(0)) =~= Seq::<i32>::empty());
                assert(q.filled =~= filled + ids_of(orders.take(0)));
            }
        }
    }
}

/// Matching against a side fills a prefix of its priority order, whose ids are
/// recorded as filled, and keeps the rest in order with their ids, sides and prices.
proof fn lemma_fill_side_keys(
    inc: OrderModel,
    levels: Seq<LevelModel>,
    counter: int,
    trades: Seq<TradeModel>,
    filled: Seq<i32>,
)
    requires
        fill_side(inc, levels, counter, trades, filled) is Some,
    ensures
        ({
            let s = fill_side(inc, levels, counter, trades, filled)->0;
            let n = s.filled.len() - filled.len();
            let po = priority_order(levels);
            &&& 0 <= n <= po.len()
            &&& priority_order(s.levels).len() == po.len() - n
            &&& s.filled == filled + ids_of(po.take(n))
            &&& forall|x: int|
                0 <= x < priority_order(s.levels).len() ==> same_key(
                    #[trigger] priority_order(s.levels)[x],
                    po[n + x],
                )
        }),
    decreases levels.len(),
{
    let s = fill_side(inc, levels, counter, trades, filled)->0;
    let po = priority_order(levels);
    if levels.len() == 0 || (inc.exc_type == OrderExcType::Limit && inc.price is None) || !crosses(
        inc,
        levels[0].price,
    ) {
        assert(ids_of(po.take(0)) =~= Seq::<i32>::empty());
        assert(s.filled =~= filled + ids_of(po.take(0)));
    } else {
        let l = levels[0];
        let rest = levels.drop_first();
        lemma_priority_split(levels);
        lemma_fill_queue_keys(inc, l.price, l.orders, counter, trades, filled);
        let q = fill_queue(inc, l.price, l.orders, counter, trades, filled)->0;
        let n0 = q.filled.len() - filled.len();
        if q.orders.len() > 0 {
            let u = levels.update(0, LevelModel { price: l.price, orders: q.orders });
            lemma_priority_split(u);
            assert(u.drop_first() =~= rest);
            assert(po.take(n0) =~= l.orders.take(n0));
            assert forall|x: int| 0 <= x < priority_order(s.levels).len() implies same_key(
                #[trigger] priority_order(s.levels)[x],
                po[n0 + x],
            ) by {
                if x < q.orders.len() {
                    assert(priority_order(s.levels)[x] == q.orders[x]);
                    assert(po[n0 + x] == l.orders[n0 + x]);
                } else {
                    assert(priority_order(s.levels)[x] == priority_order(rest)[x - q.orders.len()]);
                    assert(po[n0 + x] == priority_order(rest)[n0 + x - l.orders.len()]);
                }
            }
        } else {
            lemma_fill_side_keys(q.incoming, rest, q.counter, q.trades, q.filled);
            let n1 = s.filled.len() - q.filled.len();
            let pr = priority_order(rest);
            assert(n0 == l.orders.len());
            assert(l.orders.take(n0) =~= l.orders);
            assert(po.take(n0 + n1) =~= l.orders + pr.take(n1));
            assert(ids_of(po.take(n0 + n1)) =~= ids_of(l.orders) + ids_of(pr.take(n1)));
            assert(s.filled =~= filled + ids_of(po.take(n0 + n1)));
            assert forall|x: int| 0 <= x < priority_order(s.levels).len() implies same_key(
                #[trigger] priority_order(s.levels)[x],
                po[n0 + n1 + x],
            ) by {
                assert(po[n0 + n1 + x] == pr[n1 + x]);
            }
        }
    }
}


/// Processing an order whose id is not indexed keeps the index consistent: the
/// resting orders it fills leave the index, and what rests of it enters it.
pub proof fn law_process_keeps_index_consistent(b: BookModel, inc: OrderModel)
    requires
        b.wf(),
        index_consistent(b),
        !b.index.contains_key(inc.id),
        process(b, inc) is Some,
    ensures
        index_consistent(process(b, inc)->0.book),
{
    let side = opposite(inc.order_type);
    let levels = b.side(side);
    let s = fill_side(inc, levels, b.trade_counter, seq![], seq![])->0;
    lemma_fill_side_keys(inc, levels, b.trade_counter, seq![], seq![]);
    lemma_fill_side_same_fields(inc, levels, b.trade_counter, seq![], seq![]);
    let m = match_incoming(b, inc)->0;
    let mb = m.book;
    let po = priority_order(levels);
    let n = s.filled.len() as int;
    let na = priority_order(b.asks).len() as int;
    let off = if side == OrderType::Ask { 0 } else { na };
    let r = resting(b);
    let r2 = resting(mb);
    let ids = ids_of(r);
    let ids2 = ids_of(r2);
    assert(s.filled =~= ids_of(po.take(n)));
    // where each order still resting stood before
    assert(r2.len() == r.len() - n);
    assert forall|x: int| 0 <= x < r2.len() implies same_key(#[trigger] r2[x], r[if x < off { x } else { x + n }]) by {
        if side == OrderType::Ask {
            assert(r2[x] == (if x < priority_order(s.levels).len() { priority_order(s.levels)[x] } else { priority_order(b.bids)[x - priority_order(s.levels).len()] }));
            if x < priority_order(s.levels).len() {
                assert(r[x + n] == po[n + x]);
            } else {
                assert(r[x + n] == priority_order(b.bids)[x + n - na]);
            }
        } else {
            if x < na {
                assert(r2[x] == r[x]);
            } else {
                assert(r2[x] == priority_order(s.levels)[x - na]);
                assert(r[x + n] == po[n + x - na]);
            }
        }
    }
    assert forall|t: int| 0 <= t < n implies #[trigger] s.filled[t] == ids[off + t] by {
        assert(s.filled[t] == po[t].id);
        assert(r[off + t] == po[t]);
    }
    assert forall|x: int| 0 <= x < ids2.len() implies #[trigger] ids2[x] == ids[if x < off { x } else { x + n }] by {
        assert(same_key(r2[x], r[if x < off { x } else { x + n }]));
    }
    // no id rests twice
    assert forall|x: int, y: int| 0 <= x < ids2.len() && 0 <= y < ids2.len() && x != y implies ids2[x] != ids2[y] by {
        assert(ids2[x] == ids[if x < off { x } else { x + n }]);
        assert(ids2[y] == ids[if y < off { y } else { y + n }]);
    }
    // exactly the resting ids are indexed
    assert forall|id: i32| mb.index.contains_key(id) <==> ids2.contains(id) by {
        if ids2.contains(id) {
            let x = choose|x: int| 0 <= x < ids2.len() && ids2[x] == id;
            let y = if x < off { x } else { x + n };
            assert(ids[y] == id);
            assert(b.index.contains_key(id));
            if s.filled.to_set().contains(id) {
                let t = choose|t: int| 0 <= t < s.filled.len() && s.filled[t] == id;
                assert(ids[off + t] == id);
            }
        }
        if mb.index.contains_key(id) {
            assert(b.index.contains_key(id));
            let y = choose|y: int| 0 <= y < ids.len() && ids[y] == id;
            if off <= y < off + n {
                assert(s.filled[y - off] == id);
                assert(s.filled.contains(id));
            }
            let x = if y < off { y } else { y - n };
            assert(ids2[x] == id);
        }
    }
    // each entry leads to its order
    assert forall|x: int| 0 <= x < r2.len() implies points_at(mb.index[#[trigger] r2[x].id], r2[x]) by {
        let y = if x < off { x } else { x + n };
        assert(same_key(r2[x], r[y]));
        assert(ids2[x] == r2[x].id);
        assert(mb.index.contains_key(r2[x].id)) by {
            assert(ids2.contains(r2[x].id));
        }
    }
    assert(index_consistent(mb));
    if m.order.qty.units() > 0 && m.order.exc_type == OrderExcType::Limit {
        assert(!mb.index.contains_key(m.order.id));
        law_insert_keeps_index_consistent(mb, m.order);
    }
}

} // verus!
