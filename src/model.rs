//! The abstract book and what each operation does to it.
use vstd::prelude::*;

use crate::order::{
    filled_by, LevelInfo, MARKET_PRICE, Order, OrderId, OrderModify, OrderType, Price, Quantity,
    repriced, Side, Trade, TradeInfo,
};

verus! {

/// A price level: its price and its queue, oldest order first.
pub type LevelView = (Price, Seq<Order>);

/// The abstract book: bid levels best (highest) first, ask levels best (lowest) first.
pub type BookView = (Seq<LevelView>, Seq<LevelView>);

/// Whether a level at price `p` is strictly better than price `q` on `side`.
pub open spec fn better(side: Side, p: Price, q: Price) -> bool {
    match side {
        Side::Buy => p > q,
        Side::Sell => p < q,
    }
}

/// Whether an incoming order on `taker.side` may trade with a resting level at `p`.
pub open spec fn crosses(taker: Order, p: Price) -> bool {
    side_crosses(taker.side, taker.price, p)
}

/// Whether an order on `side` at `price` may trade with a resting level at `p`.
pub open spec fn side_crosses(side: Side, price: Price, p: Price) -> bool {
    match side {
        Side::Buy => price >= p,
        Side::Sell => price <= p,
    }
}

/// The side an order on `side` trades against.
pub open spec fn opposite(side: Side) -> Side {
    match side {
        Side::Buy => Side::Sell,
        Side::Sell => Side::Buy,
    }
}

/// The smaller of two quantities.
pub open spec fn min_q(a: Quantity, b: Quantity) -> Quantity {
    if a <= b {
        a
    } else {
        b
    }
}

/// The trade between an incoming order and a resting one, each leg at its own price.
pub open spec fn trade_of(taker: Order, maker: Order, q: Quantity) -> Trade {
    let t = TradeInfo { order_id: taker.order_id, price: taker.price, quantity: q };
    let m = TradeInfo { order_id: maker.order_id, price: maker.price, quantity: q };
    if taker.side == Side::Buy {
        Trade { bid_trade: t, ask_trade: m }
    } else {
        Trade { bid_trade: m, ask_trade: t }
    }
}

/// The incoming order `taker` trades against `opp`, the other side's levels best first:
/// always with the oldest order of the best level, for as much as both have, until it is
/// filled, the other side is empty, or the best level no longer crosses. Yields the
/// taker afterwards, the other side afterwards, and the trades in order.
pub open spec fn sweep(taker: Order, opp: Seq<LevelView>) -> (Order, Seq<LevelView>, Seq<Trade>)
    decreases opp.len(), (if opp.len() > 0 { opp[0].1.len() } else { 0 }),
{
    if opp.len() == 0 || taker.remaining_quantity == 0 || !crosses(taker, opp[0].0)
        || opp[0].1.len() == 0 {
        (taker, opp, Seq::empty())
    } else {
        let maker = opp[0].1[0];
        let q = min_q(taker.remaining_quantity, maker.remaining_quantity);
        let tr = trade_of(taker, maker, q);
        let t2 = filled_by(taker, q);
        let m2 = filled_by(maker, q);
        if m2.remaining_quantity > 0 {
            (t2, opp.update(0, (opp[0].0, opp[0].1.update(0, m2))), seq![tr])
        } else {
            let rest = opp[0].1.drop_first();
            let opp2 = if rest.len() == 0 {
                opp.drop_first()
            } else {
                opp.update(0, (opp[0].0, rest))
            };
            let r = sweep(t2, opp2);
            (r.0, r.1, seq![tr] + r.2)
        }
    }
}

/// `after` is `before` with some leading levels gone and some leading orders of the new
/// best level gone; the oldest order left there may have been partly filled.
pub open spec fn consumed_from_front(before: Seq<LevelView>, after: Seq<LevelView>) -> bool {
    let d = before.len() - after.len();
    &&& after.len() <= before.len()
    &&& forall|i: int| 1 <= i < after.len() ==> #[trigger] after[i] == before[i + d]
    &&& after.len() > 0 ==> {
        let e = before[d].1.len() - after[0].1.len();
        &&& after[0].0 == before[d].0
        &&& after[0].1.len() <= before[d].1.len()
        &&& forall|j: int| 1 <= j < after[0].1.len() ==> #[trigger] after[0].1[j] == before[d].1[j + e]
        &&& after[0].1.len() > 0 ==> same_order(after[0].1[0], before[d].1[e])
    }
}

/// The same order, perhaps with more of it filled.
pub open spec fn same_order(a: Order, b: Order) -> bool {
    &&& a.order_id == b.order_id
    &&& a.side == b.side
    &&& a.price == b.price
    &&& a.order_type == b.order_type
    &&& a.remaining_quantity <= b.remaining_quantity
}

/// Number of leading levels of `levels` strictly better than `p` on `side`.
pub open spec fn better_prefix(levels: Seq<LevelView>, side: Side, p: Price) -> nat
    decreases levels.len(),
{
    if levels.len() == 0 || !better(side, levels[0].0, p) {
        0
    } else {
        1 + better_prefix(levels.drop_first(), side, p)
    }
}

/// `o` joins its own side: at the back of the queue at its price, or as a new level
/// placed by price.
pub open spec fn rest(levels: Seq<LevelView>, o: Order) -> Seq<LevelView> {
    let i = better_prefix(levels, o.side, o.price) as int;
    if i < levels.len() && levels[i].0 == o.price {
        levels.update(i, (o.price, levels[i].1.push(o)))
    } else {
        levels.insert(i, (o.price, seq![o]))
    }
}

/// The levels of `b` on `side`.
pub open spec fn own_side(b: BookView, side: Side) -> Seq<LevelView> {
    if side == Side::Buy {
        b.0
    } else {
        b.1
    }
}

/// The levels of `b` on the side opposite to `side`.
pub open spec fn other_side(b: BookView, side: Side) -> Seq<LevelView> {
    if side == Side::Buy {
        b.1
    } else {
        b.0
    }
}

/// The book whose `side` is `own` and whose other side is `other`.
pub open spec fn with_sides(side: Side, own: Seq<LevelView>, other: Seq<LevelView>) -> BookView {
    if side == Side::Buy {
        (own, other)
    } else {
        (other, own)
    }
}

/// Order types whose unfilled part rests on the book.
pub open spec fn keeps_residual(t: OrderType) -> bool {
    t == OrderType::GoodTillCancel || t == OrderType::GoodForDay
}

/// An accepted order crosses the other side, then what is left of it rests, if its type
/// lets it.
pub open spec fn place(b: BookView, o: Order) -> (BookView, Seq<Trade>) {
    let r = sweep(o, other_side(b, o.side));
    let own = own_side(b, o.side);
    let own2 = if r.0.remaining_quantity > 0 && keeps_residual(r.0.order_type) {
        rest(own, r.0)
    } else {
        own
    };
    (with_sides(o.side, own2, r.1), r.2)
}

/// What submitting `o` does to the book `b`, and the trades it yields.
/// Refused, leaving the book as it is: an id already in the book, nothing left to
/// fill, a market order with nothing on the other side (or only unpriced bids), a
/// fill-and-kill order that crosses nothing, and a fill-or-kill order that the crossing
/// quantity cannot fill whole. A market order is priced at the worst level of the other
/// side and then rests, if at all, as good-till-cancel.
pub open spec fn add_spec(b: BookView, o: Order) -> (BookView, Seq<Trade>) {
    let opp = other_side(b, o.side);
    if book_has(b, o.order_id) || o.remaining_quantity == 0 {
        (b, Seq::empty())
    } else if o.order_type == OrderType::Market {
        if opp.len() == 0 || opp.last().0 == MARKET_PRICE {
            (b, Seq::empty())
        } else {
            place(b, repriced(o, opp.last().0))
        }
    } else if o.order_type == OrderType::FillAndKill && (opp.len() == 0 || !crosses(o, opp[0].0)) {
        (b, Seq::empty())
    } else if o.order_type == OrderType::FillOrKill && liquidity(opp, o) < o.remaining_quantity {
        (b, Seq::empty())
    } else {
        place(b, o)
    }
}

/// The level and queue position at which `id` rests in `levels`.
pub open spec fn pos_of(levels: Seq<LevelView>, id: OrderId) -> (int, int) {
    choose|i: int, j: int|
        0 <= i < levels.len() && 0 <= j < levels[i].1.len() && #[trigger] levels[i].1[j].order_id
            == id
}

/// `levels` without the order at level `i`, position `j`; a level left empty goes too.
pub open spec fn remove_at(levels: Seq<LevelView>, i: int, j: int) -> Seq<LevelView> {
    if levels[i].1.len() == 1 {
        levels.remove(i)
    } else {
        levels.update(i, (levels[i].0, levels[i].1.remove(j)))
    }
}

/// `levels` without the order `id`, if it rests there.
pub open spec fn remove_id(levels: Seq<LevelView>, id: OrderId) -> Seq<LevelView> {
    if has_id(levels, id) {
        let (i, j) = pos_of(levels, id);
        remove_at(levels, i, j)
    } else {
        levels
    }
}

/// The book after cancelling `id`: the order leaves whichever side holds it.
pub open spec fn cancel_spec(b: BookView, id: OrderId) -> BookView {
    (remove_id(b.0, id), remove_id(b.1, id))
}

/// The resting order with id `id`.
pub open spec fn book_order(b: BookView, id: OrderId) -> Order {
    let levels = if has_id(b.0, id) {
        b.0
    } else {
        b.1
    };
    order_of(levels, id)
}

/// The order with id `id` in `levels`.
pub open spec fn order_of(levels: Seq<LevelView>, id: OrderId) -> Order {
    let (i, j) = pos_of(levels, id);
    levels[i].1[j]
}

/// A modification cancels the order and submits a fresh one of the same type, which
/// queues behind the orders already at its price. An unknown id changes nothing.
pub open spec fn modify_spec(b: BookView, m: OrderModify) -> (BookView, Seq<Trade>) {
    if !book_has(b, m.order_id) {
        (b, Seq::empty())
    } else {
        add_spec(
            cancel_spec(b, m.order_id),
            m.as_order(book_order(b, m.order_id).order_type),
        )
    }
}

/// The summary of one level: its price and its remaining quantity, capped at `u64::MAX`.
pub open spec fn level_info(l: LevelView) -> LevelInfo {
    LevelInfo {
        price: l.0,
        quantity: if queue_qty(l.1) > u64::MAX {
            u64::MAX
        } else {
            queue_qty(l.1) as u64
        },
    }
}

/// `id` rests somewhere in `levels`.
pub open spec fn has_id(levels: Seq<LevelView>, id: OrderId) -> bool {
    exists|i: int, j: int|
        0 <= i < levels.len() && 0 <= j < levels[i].1.len() && #[trigger] levels[i].1[j].order_id
            == id
}

/// Number of resting orders in `levels`.
pub open spec fn count(levels: Seq<LevelView>) -> nat
    decreases levels.len(),
{
    if levels.len() == 0 {
        0
    } else {
        levels[0].1.len() + count(levels.drop_first())
    }
}

/// Total remaining quantity of a queue.
pub open spec fn queue_qty(q: Seq<Order>) -> nat
    decreases q.len(),
{
    if q.len() == 0 {
        0
    } else {
        (queue_qty(q.drop_last()) + q.last().remaining_quantity) as nat
    }
}

/// Remaining quantity that `taker` could trade against, over the leading levels it crosses.
pub open spec fn liquidity(levels: Seq<LevelView>, taker: Order) -> nat
    decreases levels.len(),
{
    if levels.len() == 0 || !crosses(taker, levels[0].0) {
        0
    } else {
        queue_qty(levels[0].1) + liquidity(levels.drop_first(), taker)
    }
}

/// A well-formed side: non-empty queues, strictly ordered prices, live resting orders
/// of that side at their level's price, and no id twice.
pub open spec fn side_wf(levels: Seq<LevelView>, side: Side) -> bool {
    &&& forall|i: int| 0 <= i < levels.len() ==> #[trigger] levels[i].1.len() > 0
    &&& forall|i: int, k: int|
        0 <= i < k < levels.len() ==> better(side, #[trigger] levels[i].0, #[trigger] levels[k].0)
    &&& forall|i: int, j: int|
        0 <= i < levels.len() && 0 <= j < levels[i].1.len() ==> resting_ok(
            #[trigger] levels[i].1[j],
            side,
            levels[i].0,
        )
    &&& forall|i1: int, j1: int, i2: int, j2: int|
        0 <= i1 < levels.len() && 0 <= j1 < levels[i1].1.len() && 0 <= i2 < levels.len() && 0
            <= j2 < levels[i2].1.len() && #[trigger] levels[i1].1[j1].order_id
            == #[trigger] levels[i2].1[j2].order_id ==> i1 == i2 && j1 == j2
}

/// An order that may rest on `side` at price `p`.
pub open spec fn resting_ok(o: Order, side: Side, p: Price) -> bool {
    &&& o.wf()
    &&& o.remaining_quantity > 0
    &&& o.side == side
    &&& o.price == p
    &&& (o.order_type == OrderType::GoodTillCancel || o.order_type == OrderType::GoodForDay)
}

/// A well-formed book: both sides well formed, no id on both sides, and not crossed.
pub open spec fn book_wf(b: BookView) -> bool {
    &&& side_wf(b.0, Side::Buy)
    &&& side_wf(b.1, Side::Sell)
    &&& forall|id: OrderId| !(has_id(b.0, id) && has_id(b.1, id))
    &&& (b.0.len() > 0 && b.1.len() > 0 ==> b.0[0].0 < b.1[0].0)
}

/// `id` rests on either side of `b`.
pub open spec fn book_has(b: BookView, id: OrderId) -> bool {
    has_id(b.0, id) || has_id(b.1, id)
}

/// Number of live orders on `b`.
pub open spec fn size_of(b: BookView) -> nat {
    count(b.0) + count(b.1)
}

/// The queue without its good-for-day orders; the others keep their order.
pub open spec fn without_gfd(q: Seq<Order>) -> Seq<Order>
    decreases q.len(),
{
    if q.len() == 0 {
        q
    } else {
        let head = if q[0].order_type == OrderType::GoodForDay {
            Seq::empty()
        } else {
            seq![q[0]]
        };
        head + without_gfd(q.drop_first())
    }
}

/// The side with every good-for-day order gone and the levels left empty dropped.
pub open spec fn prune_side(levels: Seq<LevelView>) -> Seq<LevelView>
    decreases levels.len(),
{
    if levels.len() == 0 {
        levels
    } else {
        let q = without_gfd(levels[0].1);
        let head = if q.len() == 0 {
            Seq::empty()
        } else {
            seq![(levels[0].0, q)]
        };
        head + prune_side(levels.drop_first())
    }
}

/// The book at the end of a session: both sides pruned of good-for-day orders.
pub open spec fn prune_spec(b: BookView) -> BookView {
    (prune_side(b.0), prune_side(b.1))
}

} // verus!
