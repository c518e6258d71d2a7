//! How much rests in the book, and how processing an order changes it.
use vstd::prelude::*;

use crate::consistency::{lemma_priority_side_insert, lemma_priority_split};
use crate::decimal::{checked_difference, DecimalModel};
use crate::laws::{
    lemma_exact_step, lemma_fill_queue_conserves, lemma_fill_side_same_fields,
    lemma_traded_units_push, law_quantity_conservation, priority_order, quantities_not_negative,
    quantities_valid, queue_exact, side_exact, match_exact, traded_units,
};
use crate::matching::{
    crosses, fill_queue, fill_side, make_trade, match_incoming, opposite, process,
    BookModel, LevelModel,
};
use crate::order::{OrderExcType, OrderModel, OrderType};
use crate::trade::TradeModel;

verus! {

/// The quantities of the orders, added up in units of 10^-28.
pub open spec fn total_units(s: Seq<OrderModel>) -> int
    decreases s.len(),
{
    if s.len() == 0 {
        0
    } else {
        s[0].qty.units() + total_units(s.drop_first())
    }
}

/// All that rests in the book.
pub open spec fn book_units(b: BookModel) -> int {
    total_units(priority_order(b.asks)) + total_units(priority_order(b.bids))
}

pub proof fn lemma_total_add(a: Seq<OrderModel>, b: Seq<OrderModel>)
    ensures
        total_units(a + b) == total_units(a) + total_units(b),
    decreases a.len(),
{
    if a.len() == 0 {
        assert(a + b =~= b);
    } else {
        assert((a + b).drop_first() =~= a.drop_first() + b);
        lemma_total_add(a.drop_first(), b);
    }
}

pub proof fn lemma_total_insert(s: Seq<OrderModel>, m: int, o: OrderModel)
    requires
        0 <= m <= s.len(),
    ensures
        total_units(s.insert(m, o)) == total_units(s) + o.qty.units(),
{
    assert(s =~= s.take(m) + s.skip(m));
    assert(s.insert(m, o) =~= s.take(m) + (seq![o] + s.skip(m)));
    lemma_total_add(s.take(m), s.skip(m));
    lemma_total_add(s.take(m), seq![o] + s.skip(m));
    lemma_total_add(seq![o], s.skip(m));
    assert(seq![o].drop_first() =~= Seq::<OrderModel>::empty());
    assert(total_units(seq![o]) == o.qty.units() + total_units(Seq::<OrderModel>::empty()));
    assert(total_units(Seq::<OrderModel>::empty()) == 0);
    assert(total_units(s) == total_units(s.take(m) + s.skip(m)));
}

proof fn lemma_fill_queue_units(
    inc: OrderModel,
    price: DecimalModel,
    orders: Seq<OrderModel>,
    counter: int,
    trades: Seq<TradeModel>,
    filled: Seq<i32>,
)
    requires
        fill_queue(inc, price, orders, counter, trades, filled) is Some,
        queue_exact(inc, orders),
        inc.qty.wf(),
        forall|j: int| 0 <= j < orders.len() ==> (#[trigger] orders[j]).qty.wf(),
    ensures
        ({
            let q = fill_queue(inc, price, orders, counter, trades, filled)->0;
            total_units(orders) + traded_units(trades) == total_units(q.orders) + traded_units(q.trades)
        }),
    decreases orders.len(),
{
    if orders.len() == 0 || inc.qty.units() <= 0 {
    } else {
        let r = orders[0];
        let rest = orders.drop_first();
        assert forall|j: int| 0 <= j < rest.len() implies (#[trigger] rest[j]).qty.wf() by {
            assert(rest[j] == orders[j + 1]);
        }
        if r.qty.units() <= inc.qty.units() {
            lemma_exact_step(inc.qty, r.qty);
            let left = checked_difference(inc.qty, r.qty)->0;
            let t = make_trade(inc, r, price, r.qty);
            lemma_traded_units_push(trades, t);
            lemma_fill_queue_units(inc.with_qty(left), price, rest, counter + 1, trades.push(t), filled.push(r.id));
        } else {
            lemma_exact_step(r.qty, inc.qty);
            let rest_qty = checked_difference(r.qty, inc.qty)->0;
            let t = make_trade(inc, r, price, inc.qty);
            lemma_traded_units_push(trades, t);
            let q = fill_queue(inc, price, orders, counter, trades, filled)->0;
            if rest_qty.units() != 0 {
                assert(q.orders.drop_first() =~= rest);
            }
        }
    }
}

proof fn lemma_fill_side_units(
    inc: OrderModel,
    levels: Seq<LevelModel>,
    counter: int,
    trades: Seq<TradeModel>,
    filled: Seq<i32>,
)
    requires
        fill_side(inc, levels, counter, trades, filled) is Some,
        side_exact(inc, levels, counter, trades, filled),
        inc.qty.wf(),
        quantities_valid(levels),
    ensures
        ({
            let s = fill_side(inc, levels, counter, trades, filled)->0;
            total_units(priority_order(levels)) + traded_units(trades) == total_units(
                priority_order(s.levels),
            ) + traded_units(s.trades)
        }),
    decreases levels.len(),
{
    if levels.len() > 0 && !(inc.exc_type == OrderExcType::Limit && inc.price is None) && crosses(
        inc,
        levels[0].price,
    ) {
        let l = levels[0];
        let rest = levels.drop_first();
        lemma_priority_split(levels);
        lemma_total_add(l.orders, priority_order(rest));
        assert forall|j: int| 0 <= j < l.orders.len() implies (#[trigger] l.orders[j]).qty.wf() by {
            assert(priority_order(levels)[j] == l.orders[j]);
        }
        lemma_fill_queue_units(inc, l.price, l.orders, counter, trades, filled);
        lemma_fill_queue_conserves(inc, l.price, l.orders, counter, trades, filled);
        let q = fill_queue(inc, l.price, l.orders, counter, trades, filled)->0;
        if q.orders.len() > 0 {
            let u = levels.update(0, LevelModel { price: l.price, orders: q.orders });
            lemma_priority_split(u);
            assert(u.drop_first() =~= rest);
            lemma_total_add(q.orders, priority_order(rest));
        } else {
            assert forall|k: int| 0 <= k < priority_order(rest).len() implies (#[trigger] priority_order(
                rest,
            )[k]).qty.wf() by {
                assert(priority_order(levels)[l.orders.len() + k] == priority_order(rest)[k]);
            }
            assert(q.orders =~= Seq::<OrderModel>::empty());
            lemma_fill_side_units(q.incoming, rest, q.counter, q.trades, q.filled);
        }
    }
}

/// What rests in the book never grows by more than what is submitted: wherever
/// processing takes no subtraction that has to round, the opposite side loses
/// exactly what traded, and the order's own side gains exactly what is left of it
/// where that rests and nothing otherwise; where in addition no quantity met is
/// negative, the book as a whole holds at most what it held plus the incoming
/// quantity.
pub proof fn law_book_quantity(b: BookModel, inc: OrderModel)
    requires
        process(b, inc) is Some,
        match_exact(b, inc),
        inc.qty.wf(),
        quantities_valid(b.side(opposite(inc.order_type))),
    ensures
        total_units(priority_order(process(b, inc)->0.book.side(opposite(inc.order_type))))
            + traded_units(process(b, inc)->0.trades) == total_units(
            priority_order(b.side(opposite(inc.order_type))),
        ),
        total_units(priority_order(process(b, inc)->0.book.side(inc.order_type))) == total_units(
            priority_order(b.side(inc.order_type)),
        ) + if inc.exc_type == OrderExcType::Limit && process(b, inc)->0.order.qty.units() > 0 {
            process(b, inc)->0.order.qty.units()
        } else {
            0
        },
        inc.qty.units() >= 0 && quantities_not_negative(b.side(opposite(inc.order_type)))
            ==> book_units(process(b, inc)->0.book) <= book_units(b) + inc.qty.units(),
{
    let side = opposite(inc.order_type);
    let levels = b.side(side);
    lemma_fill_side_units(inc, levels, b.trade_counter, seq![], seq![]);
    law_quantity_conservation(b, inc);
    lemma_fill_side_same_fields(inc, levels, b.trade_counter, seq![], seq![]);
    let m = match_incoming(b, inc)->0;
    let out = process(b, inc)->0;
    assert(traded_units(Seq::<TradeModel>::empty()) == 0);
    if m.order.qty.units() > 0 && m.order.exc_type == OrderExcType::Limit {
        let own = inc.order_type;
        let p = m.order.price->0;
        let mm = lemma_priority_side_insert(m.book.side(own), own, m.order, p);
        lemma_total_insert(priority_order(m.book.side(own)), mm, m.order);
        assert(out.book.side(own) == crate::matching::side_insert(m.book.side(own), own, m.order, p));
        assert(out.book.side(side) == m.book.side(side));
    } else {
        assert(out.book == m.book);
    }
    assert(m.book.side(inc.order_type) == b.side(inc.order_type));
    assert(out.order.qty == m.order.qty);
    match inc.order_type {
        OrderType::Bid => {
            assert(book_units(out.book) == total_units(priority_order(out.book.side(side))) + total_units(priority_order(out.book.side(inc.order_type))));
            assert(book_units(b) == total_units(priority_order(b.side(side))) + total_units(priority_order(b.side(inc.order_type))));
        },
        OrderType::Ask => {
            assert(book_units(out.book) == total_units(priority_order(out.book.side(side))) + total_units(priority_order(out.book.side(inc.order_type))));
            assert(book_units(b) == total_units(priority_order(b.side(side))) + total_units(priority_order(b.side(inc.order_type))));
        },
    }
}

/// Every order resting on these levels holds a positive quantity.
pub open spec fn positive_quantities(levels: Seq<LevelModel>) -> bool {
    forall|k: int|
        0 <= k < priority_order(levels).len() ==> (#[trigger] priority_order(levels)[k]).qty.units()
            > 0
}

proof fn lemma_fill_queue_positive(
    inc: OrderModel,
    price: DecimalModel,
    orders: Seq<OrderModel>,
    counter: int,
    trades: Seq<TradeModel>,
    filled: Seq<i32>,
)
    requires
        fill_queue(inc, price, orders, counter, trades, filled) is Some,
        queue_exact(inc, orders),
        inc.qty.wf(),
        forall|j: int| 0 <= j < orders.len() ==> (#[trigger] orders[j]).qty.wf(),
        forall|j: int| 0 <= j < orders.len() ==> (#[trigger] orders[j]).qty.units() > 0,
    ensures
        ({
            let q = fill_queue(inc, price, orders, counter, trades, filled)->0;
            forall|j: int| 0 <= j < q.orders.len() ==> (#[trigger] q.orders[j]).qty.units() > 0
        }),
    decreases orders.len(),
{
    if orders.len() == 0 || inc.qty.units() <= 0 {
    } else {
        let r = orders[0];
        let rest = orders.drop_first();
        assert forall|j: int| 0 <= j < rest.len() implies (#[trigger] rest[j]).qty.wf()
            && rest[j].qty.units() > 0 by {
            assert(rest[j] == orders[j + 1]);
        }
        if r.qty.units() <= inc.qty.units() {
            lemma_exact_step(inc.qty, r.qty);
            let left = checked_difference(inc.qty, r.qty)->0;
            lemma_fill_queue_positive(
                inc.with_qty(left),
                price,
                rest,
                counter + 1,
                trades.push(make_trade(inc, r, price, r.qty)),
                filled.push(r.id),
            );
        } else {
            lemma_exact_step(r.qty, inc.qty);
            let q = fill_queue(inc, price, orders, counter, trades, filled)->0;
            assert forall|j: int| 0 <= j < q.orders.len() implies (#[trigger] q.orders[j]).qty.units() > 0 by {
                if checked_difference(r.qty, inc.qty)->0.units() == 0 {
                    assert(q.orders[j] == orders[j + 1]);
                } else if j > 0 {
                    assert(q.orders[j] == orders[j]);
                }
            }
        }
    }
}

proof fn lemma_fill_side_positive(
    inc: OrderModel,
    levels: Seq<LevelModel>,
    counter: int,
    trades: Seq<TradeModel>,
    filled: Seq<i32>,
)
    requires
        fill_side(inc, levels, counter, trades, filled) is Some,
        side_exact(inc, levels, counter, trades, filled),
        inc.qty.wf(),
        quantities_valid(levels),
        positive_quantities(levels),
    ensures
        positive_quantities(fill_side(inc, levels, counter, trades, filled)->0.levels),
    decreases levels.len(),
{
    if levels.len() > 0 && !(inc.exc_type == OrderExcType::Limit && inc.price is None) && crosses(
        inc,
        levels[0].price,
    ) {
        let l = levels[0];
        let rest = levels.drop_first();
        lemma_priority_split(levels);
        assert forall|j: int| 0 <= j < l.orders.len() implies (#[trigger] l.orders[j]).qty.wf()
            && l.orders[j].qty.units() > 0 by {
            assert(priority_order(levels)[j] == l.orders[j]);
        }
        assert forall|k: int| 0 <= k < priority_order(rest).len() implies (#[trigger] priority_order(
            rest,
        )[k]).qty.wf() && priority_order(rest)[k].qty.units() > 0 by {
            assert(priority_order(levels)[l.orders.len() + k] == priority_order(rest)[k]);
        }
        lemma_fill_queue_positive(inc, l.price, l.orders, counter, trades, filled);
        lemma_fill_queue_conserves(inc, l.price, l.orders, counter, trades, filled);
        let q = fill_queue(inc, l.price, l.orders, counter, trades, filled)->0;
        if q.orders.len() > 0 {
            let u = levels.update(0, LevelModel { price: l.price, orders: q.orders });
            lemma_priority_split(u);
            assert(u.drop_first() =~= rest);
            let po = priority_order(u);
            assert forall|k: int| 0 <= k < po.len() implies (#[trigger] po[k]).qty.units() > 0 by {
                if k < q.orders.len() {
                    assert(po[k] == q.orders[k]);
                } else {
                    assert(po[k] == priority_order(rest)[k - q.orders.len()]);
                }
            }
        } else {
            lemma_fill_side_positive(q.incoming, rest, q.counter, q.trades, q.filled);
        }
    }
}

/// Processing never leaves an order resting with nothing to trade: where every
/// resting order holds a positive quantity and processing takes no subtraction that
/// has to round, every order resting afterwards holds a positive quantity.
pub proof fn law_resting_quantities_positive(b: BookModel, inc: OrderModel)
    requires
        process(b, inc) is Some,
        positive_quantities(b.asks),
        positive_quantities(b.bids),
        match_exact(b, inc),
        inc.qty.wf(),
        quantities_valid(b.side(opposite(inc.order_type))),
    ensures
        positive_quantities(process(b, inc)->0.book.asks),
        positive_quantities(process(b, inc)->0.book.bids),
{
    let side = opposite(inc.order_type);
    let levels = b.side(side);
    assert(positive_quantities(levels));
    lemma_fill_side_positive(inc, levels, b.trade_counter, seq![], seq![]);
    lemma_fill_side_same_fields(inc, levels, b.trade_counter, seq![], seq![]);
    let m = match_incoming(b, inc)->0;
    let out = process(b, inc)->0;
    assert(positive_quantities(m.book.side(side)));
    assert(positive_quantities(m.book.side(inc.order_type))) by {
        assert(m.book.side(inc.order_type) == b.side(inc.order_type));
    }
    if m.order.qty.units() > 0 && m.order.exc_type == OrderExcType::Limit {
        let own = inc.order_type;
        let p = m.order.price->0;
        let mm = lemma_priority_side_insert(m.book.side(own), own, m.order, p);
        let before = priority_order(m.book.side(own));
        let after = priority_order(out.book.side(own));
        assert(out.book.side(own) == crate::matching::side_insert(m.book.side(own), own, m.order, p));
        assert(out.book.side(side) == m.book.side(side));
        assert forall|k: int| 0 <= k < after.len() implies (#[trigger] after[k]).qty.units() > 0 by {
            if k < mm {
                assert(after[k] == before[k]);
            } else if k > mm {
                assert(after[k] == before[k - 1]);
            }
        }
        assert(positive_quantities(out.book.side(own)));
    } else {
        assert(out.book == m.book);
    }
    match inc.order_type {
        OrderType::Bid => {
            assert(out.book.asks == out.book.side(side));
            assert(out.book.bids == out.book.side(inc.order_type));
        },
        OrderType::Ask => {
            assert(out.book.bids == out.book.side(side));
            assert(out.book.asks == out.book.side(inc.order_type));
        },
    }
}

} // verus!
