//! Properties of the book that hold for every input, stated over the spec model.
use vstd::prelude::*;

use crate::book::lemma_consumed_ids;
use crate::model::{
    add_spec, better, better_prefix, book_has, book_wf, BookView, cancel_spec,
    consumed_from_front, crosses, has_id, keeps_residual, LevelView, liquidity, opposite,
    other_side, own_side, pos_of, queue_qty, remove_id, rest, resting_ok, side_wf, sweep,
    trade_of,
};
use crate::order::{
    MARKET_PRICE, Order, OrderId, OrderType, Price, repriced, Side, Trade,
};

verus! {

/// Submitting an order whose id already rests on the book yields no trades and leaves
/// the book as it was.
pub proof fn lemma_duplicate_id_is_ignored(b: BookView, o: Order)
    requires
        book_has(b, o.order_id),
    ensures
        add_spec(b, o).0 == b,
        add_spec(b, o).1.len() == 0,
{
}

/// Cancelling an id that is not on the book changes nothing.
pub proof fn lemma_cancel_unknown_is_noop(b: BookView, id: OrderId)
    requires
        !book_has(b, id),
    ensures
        cancel_spec(b, id) == b,
{
}

/// Every id on a well-formed book is found at exactly one level and queue position, on
/// the side it belongs to, at its own price.
pub proof fn lemma_index_consistent(b: BookView, id: OrderId)
    requires
        book_wf(b),
        book_has(b, id),
    ensures
        ({
            let side = if has_id(b.0, id) { Side::Buy } else { Side::Sell };
            let levels = own_side(b, side);
            let (i, j) = pos_of(levels, id);
            &&& !has_id(other_side(b, side), id)
            &&& 0 <= i < levels.len()
            &&& 0 <= j < levels[i].1.len()
            &&& levels[i].1[j].order_id == id
            &&& resting_ok(levels[i].1[j], side, levels[i].0)
            &&& forall|a: int, c: int|
                0 <= a < levels.len() && 0 <= c < levels[a].1.len()
                    && #[trigger] levels[a].1[c].order_id == id ==> a == i && c == j
        }),
{
    let side = if has_id(b.0, id) { Side::Buy } else { Side::Sell };
    let levels = own_side(b, side);
    let (i, j) = pos_of(levels, id);
    assert(levels[i].1[j].order_id == id);
}

/// On a well-formed book every bid price is below every ask price, and no level is
/// empty.
pub proof fn lemma_book_not_crossed(b: BookView)
    requires
        book_wf(b),
    ensures
        forall|i: int, k: int|
            0 <= i < b.0.len() && 0 <= k < b.1.len() ==> #[trigger] b.0[i].0 < #[trigger] b.1[k].0,
        forall|i: int| 0 <= i < b.0.len() ==> #[trigger] b.0[i].1.len() > 0,
        forall|k: int| 0 <= k < b.1.len() ==> #[trigger] b.1[k].1.len() > 0,
{
    assert forall|i: int, k: int|
        0 <= i < b.0.len() && 0 <= k < b.1.len() implies #[trigger] b.0[i].0 < #[trigger] b.1[k].0 by {
        if i > 0 {
            assert(b.0[0].0 > b.0[i].0);
        }
        if k > 0 {
            assert(b.1[0].0 < b.1[k].0);
        }
    }
}

/// Matching only ever touches the front of the other side: whole levels from the best
/// end, then the oldest orders of the next level, the first one left perhaps partly
/// filled. An order is never filled before an older one at its price.
pub proof fn lemma_sweep_takes_oldest_first(t: Order, opp: Seq<LevelView>)
    ensures
        consumed_from_front(opp, sweep(t, opp).1),
    decreases opp.len(), (if opp.len() > 0 { opp[0].1.len() } else { 0 }),
{
    let r = sweep(t, opp);
    if opp.len() == 0 || t.remaining_quantity == 0 || !crosses(t, opp[0].0) || opp[0].1.len()
        == 0 {
    } else {
        let maker = opp[0].1[0];
        let q = if t.remaining_quantity <= maker.remaining_quantity {
            t.remaining_quantity
        } else {
            maker.remaining_quantity
        };
        let m2 = crate::order::filled_by(maker, q);
        let t2 = crate::order::filled_by(t, q);
        if m2.remaining_quantity > 0 {
        } else {
            let rest = opp[0].1.drop_first();
            let opp2 = if rest.len() == 0 {
                opp.drop_first()
            } else {
                opp.update(0, (opp[0].0, rest))
            };
            lemma_sweep_takes_oldest_first(t2, opp2);
            let after = r.1;
            assert(after == sweep(t2, opp2).1);
            let d2 = opp2.len() - after.len();
            if rest.len() == 0 {
                assert forall|i: int| 1 <= i < after.len() implies #[trigger] after[i] == opp[i + (
                opp.len() - after.len())] by {
                    assert(after[i] == opp2[i + d2]);
                }
            } else {
                assert forall|i: int| 1 <= i < after.len() implies #[trigger] after[i] == opp[i + (
                opp.len() - after.len())] by {
                    assert(after[i] == opp2[i + d2]);
                }
                if after.len() > 0 && d2 == 0 {
                    let e2 = opp2[0].1.len() - after[0].1.len();
                    assert forall|j: int| 1 <= j < after[0].1.len() implies #[trigger] after[0].1[j]
                        == opp[0].1[j + (opp[0].1.len() - after[0].1.len())] by {
                        assert(after[0].1[j] == opp2[0].1[j + e2]);
                    }
                    if after[0].1.len() > 0 {
                        assert(opp2[0].1[e2] == opp[0].1[e2 + 1]);
                    }
                }
            }
        }
    }
}

/// After the call that accepts a fill-and-kill or fill-or-kill order, its id is not on
/// the book: what it did not fill at once is dropped.
pub proof fn lemma_kill_orders_do_not_rest(b: BookView, o: Order)
    requires
        book_wf(b),
        !book_has(b, o.order_id),
        o.order_type == OrderType::FillAndKill || o.order_type == OrderType::FillOrKill,
    ensures
        !book_has(add_spec(b, o).0, o.order_id),
{
    let opp = other_side(b, o.side);
    let r = sweep(o, opp);
    lemma_sweep_takes_oldest_first(o, opp);
    lemma_consumed_ids(opp, r.1, opposite(o.side));
    lemma_sweep_keeps_taker(o, opp);
}

/// The taker that comes out of a sweep is the same order, perhaps more filled.
pub proof fn lemma_sweep_keeps_taker(t: Order, opp: Seq<LevelView>)
    ensures
        sweep(t, opp).0.order_id == t.order_id,
        sweep(t, opp).0.order_type == t.order_type,
        sweep(t, opp).0.side == t.side,
        sweep(t, opp).0.price == t.price,
    decreases opp.len(), (if opp.len() > 0 { opp[0].1.len() } else { 0 }),
{
    if opp.len() == 0 || t.remaining_quantity == 0 || !crosses(t, opp[0].0) || opp[0].1.len()
        == 0 {
    } else {
        let maker = opp[0].1[0];
        let q = if t.remaining_quantity <= maker.remaining_quantity {
            t.remaining_quantity
        } else {
            maker.remaining_quantity
        };
        let m2 = crate::order::filled_by(maker, q);
        let t2 = crate::order::filled_by(t, q);
        if m2.remaining_quantity == 0 {
            let rest = opp[0].1.drop_first();
            let opp2 = if rest.len() == 0 {
                opp.drop_first()
            } else {
                opp.update(0, (opp[0].0, rest))
            };
            lemma_sweep_keeps_taker(t2, opp2);
        }
    }
}

/// A sweep that yields no trades leaves the taker and the other side as they were.
pub proof fn lemma_sweep_without_trades(t: Order, opp: Seq<LevelView>)
    requires
        sweep(t, opp).2.len() == 0,
    ensures
        sweep(t, opp).0 == t,
        sweep(t, opp).1 == opp,
{
    if opp.len() == 0 || t.remaining_quantity == 0 || !crosses(t, opp[0].0) || opp[0].1.len()
        == 0 {
    } else {
        let maker = opp[0].1[0];
        let q = if t.remaining_quantity <= maker.remaining_quantity {
            t.remaining_quantity
        } else {
            maker.remaining_quantity
        };
        let m2 = crate::order::filled_by(maker, q);
        if m2.remaining_quantity == 0 {
            let rest = opp[0].1.drop_first();
            let opp2 = if rest.len() == 0 {
                opp.drop_first()
            } else {
                opp.update(0, (opp[0].0, rest))
            };
            let t2 = crate::order::filled_by(t, q);
            assert((seq![trade_of(t, maker, q)] + sweep(t2, opp2).2).len() > 0);
        }
    }
}

proof fn lemma_better_prefix_bound(levels: Seq<LevelView>, side: Side, p: Price)
    ensures
        better_prefix(levels, side, p) <= levels.len(),
        forall|k: int|
            0 <= k < better_prefix(levels, side, p) ==> better(side, #[trigger] levels[k].0, p),
        better_prefix(levels, side, p) < levels.len() ==> !better(
            side,
            levels[better_prefix(levels, side, p) as int].0,
            p,
        ),
    decreases levels.len(),
{
    if levels.len() > 0 && better(side, levels[0].0, p) {
        lemma_better_prefix_bound(levels.drop_first(), side, p);
        let n = better_prefix(levels, side, p);
        assert forall|k: int| 0 <= k < n implies better(side, #[trigger] levels[k].0, p) by {
            if k > 0 {
                assert(levels[k] == levels.drop_first()[k - 1]);
            }
        }
    }
}

/// Cancelling an order right after it came to rest gives back the side it joined.
proof fn lemma_rest_then_remove(s: Seq<LevelView>, o: Order)
    requires
        forall|i: int| 0 <= i < s.len() ==> #[trigger] s[i].1.len() > 0,
        !has_id(s, o.order_id),
    ensures
        remove_id(rest(s, o), o.order_id) == s,
{
    lemma_better_prefix_bound(s, o.side, o.price);
    let i = better_prefix(s, o.side, o.price) as int;
    let nv = rest(s, o);
    if i < s.len() && s[i].0 == o.price {
        let q = s[i].1;
        assert(nv[i].1[q.len() as int].order_id == o.order_id);
        let (a, c) = pos_of(nv, o.order_id);
        if !(a == i && c == q.len()) {
            assert(nv[a].1[c] == s[a].1[c]);
        }
        assert(nv[i].1.remove(q.len() as int) =~= q);
        assert(remove_id(nv, o.order_id) =~= s);
    } else {
        assert(nv[i].1[0].order_id == o.order_id);
        let (a, c) = pos_of(nv, o.order_id);
        if a != i {
            let a1 = if a < i { a } else { a - 1 };
            assert(nv[a] == s[a1]);
        }
        assert(nv.remove(i) =~= s);
    }
}

/// Adding an order that yields no trades and then cancelling it gives back the book as
/// it was before the add.
pub proof fn lemma_add_then_cancel(b: BookView, o: Order)
    requires
        book_wf(b),
        o.wf(),
        !book_has(b, o.order_id),
        add_spec(b, o).1.len() == 0,
    ensures
        cancel_spec(add_spec(b, o).0, o.order_id) == b,
{
    let opp = other_side(b, o.side);
    if o.remaining_quantity == 0 {
    } else if o.order_type == OrderType::Market {
        if opp.len() == 0 || opp.last().0 == MARKET_PRICE {
        } else {
            let o2 = repriced(o, opp.last().0);
            if opp.len() > 1 {
                assert(better(opposite(o.side), opp[0].0, opp[opp.len() - 1].0));
            }
            assert(crosses(o2, opp[0].0));
            assert(opp[0].1.len() > 0);
            lemma_sweep_without_trades(o2, opp);
            let maker = opp[0].1[0];
            assert(maker.remaining_quantity > 0);
        }
    } else if o.order_type == OrderType::FillAndKill && (opp.len() == 0 || !crosses(o, opp[0].0)) {
    } else if o.order_type == OrderType::FillOrKill && liquidity(opp, o) < o.remaining_quantity {
    } else {
        let r = sweep(o, opp);
        lemma_sweep_without_trades(o, opp);
        let own = own_side(b, o.side);
        if o.remaining_quantity > 0 && keeps_residual(o.order_type) {
            lemma_rest_then_remove(own, o);
            assert(!has_id(opp, o.order_id));
        }
    }
}

/// Total bid-leg quantity of a list of trades.
pub open spec fn bid_volume(trs: Seq<Trade>) -> nat
    decreases trs.len(),
{
    if trs.len() == 0 {
        0
    } else {
        (trs[0].bid_trade.quantity + bid_volume(trs.drop_first())) as nat
    }
}

/// Total ask-leg quantity of a list of trades.
pub open spec fn ask_volume(trs: Seq<Trade>) -> nat
    decreases trs.len(),
{
    if trs.len() == 0 {
        0
    } else {
        (trs[0].ask_trade.quantity + ask_volume(trs.drop_first())) as nat
    }
}

/// Total remaining quantity resting on a side.
pub open spec fn side_qty(levels: Seq<LevelView>) -> nat
    decreases levels.len(),
{
    if levels.len() == 0 {
        0
    } else {
        queue_qty(levels[0].1) + side_qty(levels.drop_first())
    }
}

proof fn lemma_queue_qty_front(q: Seq<Order>)
    requires
        q.len() > 0,
    ensures
        queue_qty(q) == q[0].remaining_quantity + queue_qty(q.drop_first()),
    decreases q.len(),
{
    if q.len() > 1 {
        lemma_queue_qty_front(q.drop_last());
        assert(q.drop_last().drop_first() =~= q.drop_first().drop_last());
    } else {
        assert(q.drop_last() =~= Seq::<Order>::empty());
        assert(q.drop_first() =~= Seq::<Order>::empty());
    }
}

/// Matching conserves quantity: the bid legs and the ask legs of the trades add up to
/// the same amount, which is exactly what the incoming order filled and exactly what
/// left the other side.
pub proof fn lemma_sweep_conserves_quantity(t: Order, opp: Seq<LevelView>)
    requires
        t.wf(),
    ensures
        bid_volume(sweep(t, opp).2) == ask_volume(sweep(t, opp).2),
        bid_volume(sweep(t, opp).2) == t.remaining_quantity - sweep(t, opp).0.remaining_quantity,
        sweep(t, opp).0.filled_quantity == t.filled_quantity + bid_volume(sweep(t, opp).2),
        side_qty(opp) == side_qty(sweep(t, opp).1) + bid_volume(sweep(t, opp).2),
    decreases opp.len(), (if opp.len() > 0 { opp[0].1.len() } else { 0 }),
{
    let r = sweep(t, opp);
    if opp.len() == 0 || t.remaining_quantity == 0 || !crosses(t, opp[0].0) || opp[0].1.len()
        == 0 {
    } else {
        let maker = opp[0].1[0];
        let q = if t.remaining_quantity <= maker.remaining_quantity {
            t.remaining_quantity
        } else {
            maker.remaining_quantity
        };
        let m2 = crate::order::filled_by(maker, q);
        let t2 = crate::order::filled_by(t, q);
        let tr = trade_of(t, maker, q);
        let ql = opp[0].1;
        lemma_queue_qty_front(ql);
        if m2.remaining_quantity > 0 {
            let nq = ql.update(0, m2);
            lemma_queue_qty_front(nq);
            assert(nq.drop_first() =~= ql.drop_first());
            assert(r.1.drop_first() =~= opp.drop_first());
            assert(r.2.drop_first() =~= Seq::<Trade>::empty());
            assert(bid_volume(r.2) == q + bid_volume(r.2.drop_first()));
            assert(ask_volume(r.2) == q + ask_volume(r.2.drop_first()));
        } else {
            let rest = ql.drop_first();
            let opp2 = if rest.len() == 0 {
                opp.drop_first()
            } else {
                opp.update(0, (opp[0].0, rest))
            };
            lemma_sweep_conserves_quantity(t2, opp2);
            let r2 = sweep(t2, opp2);
            assert(r.2.drop_first() =~= r2.2);
            assert(bid_volume(r.2) == q + bid_volume(r.2.drop_first()));
            assert(ask_volume(r.2) == q + ask_volume(r.2.drop_first()));
            if rest.len() > 0 {
                assert(opp2.drop_first() =~= opp.drop_first());
            } else {
                assert(queue_qty(rest) == 0);
            }
        }
    }
}

/// Every submission conserves quantity: the bid legs and the ask legs of its trades add
/// up to the same amount.
pub proof fn lemma_add_conserves_quantity(b: BookView, o: Order)
    requires
        o.wf(),
    ensures
        bid_volume(add_spec(b, o).1) == ask_volume(add_spec(b, o).1),
{
    let opp = other_side(b, o.side);
    if book_has(b, o.order_id) || o.remaining_quantity == 0 {
    } else if o.order_type == OrderType::Market {
        if opp.len() > 0 && opp.last().0 != MARKET_PRICE {
            lemma_sweep_conserves_quantity(repriced(o, opp.last().0), opp);
        }
    } else {
        lemma_sweep_conserves_quantity(o, opp);
    }
}

/// An order that comes to rest at a price already on its side joins the back of that
/// level's queue, behind every order that was there before it.
pub proof fn lemma_rest_queues_behind(levels: Seq<LevelView>, o: Order, k: int)
    requires
        side_wf(levels, o.side),
        0 <= k < levels.len(),
        levels[k].0 == o.price,
    ensures
        rest(levels, o).len() == levels.len(),
        rest(levels, o)[k].1 == levels[k].1.push(o),
        forall|a: int| 0 <= a < levels.len() && a != k ==> #[trigger] rest(levels, o)[a] == levels[a],
{
    lemma_better_prefix_bound(levels, o.side, o.price);
    let i = better_prefix(levels, o.side, o.price) as int;
    if k < i {
        assert(better(o.side, levels[k].0, o.price));
    }
    if k > i {
        assert(better(o.side, levels[i].0, levels[k].0));
    }
}

/// Cancelling an order keeps every other order of its level, in the same order of
/// arrival; a level is dropped only when the cancelled order was its last one.
pub proof fn lemma_cancel_keeps_queue_order(levels: Seq<LevelView>, side: Side, id: OrderId)
    requires
        side_wf(levels, side),
        has_id(levels, id),
    ensures
        ({
            let (i, j) = pos_of(levels, id);
            let after = remove_id(levels, id);
            &&& levels[i].1.len() == 1 ==> after == levels.remove(i)
            &&& levels[i].1.len() > 1 ==> after.len() == levels.len() && after[i].0 == levels[i].0
                && after[i].1 == levels[i].1.remove(j)
                && forall|a: int| 0 <= a < levels.len() && a != i ==> #[trigger] after[a] == levels[a]
        }),
{
}

} // verus!
