//! The book: two sides of price levels and the matching engine over them.
use std::collections::HashMap;

use vstd::prelude::*;

use crate::model::{
    add_spec, better, better_prefix, book_has, book_order, book_wf, BookView, cancel_spec,
    consumed_from_front, count, crosses, has_id, keeps_residual, level_info, LevelView,
    liquidity, modify_spec, opposite, other_side, own_side, place, pos_of, prune_side,
    prune_spec, queue_qty, remove_at, rest, resting_ok, same_order, side_crosses, side_wf,
    size_of, sweep, trade_of, without_gfd,
};
use crate::order::{
    LevelInfo, Order, OrderbookLevelInfos, OrderId, OrderModify, OrderType, Price, Quantity,
    Side, Trade, TradeInfo,
};

verus! {

broadcast use vstd::std_specs::hash::group_hash_axioms;

/// The id index holds exactly the ids on the book, each with the side it rests on.
spec fn index_matches(index: Map<OrderId, Side>, b: BookView) -> bool {
    &&& forall|id: OrderId| #[trigger] index.contains_key(id) <==> book_has(b, id)
    &&& forall|id: OrderId|
        #[trigger] index.contains_key(id) ==> (index[id] == Side::Buy <==> has_id(b.0, id))
}

#[derive(Debug)]
struct Level {
    price: Price,
    orders: Vec<Order>,
}

spec fn levels_view(levels: Seq<Level>) -> Seq<LevelView> {
    levels.map_values(|l: Level| (l.price, l.orders@))
}

/// A limit order book with price-time priority.
#[derive(Debug)]
pub struct Orderbook {
    bids: Vec<Level>,
    asks: Vec<Level>,
    index: HashMap<OrderId, Side>,
    size: usize,
}

impl View for Orderbook {
    type V = BookView;

    closed spec fn view(&self) -> BookView {
        (levels_view(self.bids@), levels_view(self.asks@))
    }
}

impl Orderbook {
    /// The book's invariant.
    pub closed spec fn wf(&self) -> bool {
        &&& book_wf(self@)
        &&& self.size == size_of(self@)
        &&& index_matches(self.index@, self@)
    }

    /// A book that meets its invariant is well formed in the model: both sides well
    /// formed (no empty level, each id at one place, each order at its level's price on
    /// its side), no id on both sides, and not crossed.
    pub proof fn lemma_wf(&self)
        requires
            self.wf(),
        ensures
            book_wf(self@),
    {
    }

    pub fn new() -> (r: Orderbook)
        ensures
            r.wf(),
            r@.0.len() == 0,
            r@.1.len() == 0,
    {
        let r = Orderbook { bids: Vec::new(), asks: Vec::new(), index: HashMap::new(), size: 0 };
        assert(r@.0 =~= Seq::<LevelView>::empty());
        assert(r@.1 =~= Seq::<LevelView>::empty());
        r
    }

    /// Number of live orders.
    pub fn size(&self) -> (r: usize)
        requires
            self.wf(),
        ensures
            r == size_of(self@),
    {
        self.size
    }

    /// Cancels the order `id`; an unknown id changes nothing.
    pub fn cancel_order(&mut self, order_id: OrderId)
        requires
            old(self).wf(),
        ensures
            final(self).wf(),
            final(self)@ == cancel_spec(old(self)@, order_id),
            size_of(final(self)@) == if book_has(old(self)@, order_id) {
                size_of(old(self)@) - 1
            } else {
                size_of(old(self)@) as int
            },
    {
        let ghost b = self@;
        let side = match self.index.get(&order_id) {
            Some(side) => *side,
            None => {
                return;
            },
        };
        if side == Side::Buy {
            if let Some((i, j)) = find_in(&self.bids, order_id) {
                proof {
                    lemma_pos_unique(b.0, Side::Buy, order_id, i as int, j as int);
                }
                remove_from(&mut self.bids, i, j, Side::Buy);
                self.index.remove(&order_id);
                self.size = self.size - 1;
                proof {
                    assert(!has_id(b.1, order_id));
                }
            }
        } else {
            if let Some((i, j)) = find_in(&self.asks, order_id) {
                proof {
                    lemma_pos_unique(b.1, Side::Sell, order_id, i as int, j as int);
                }
                remove_from(&mut self.asks, i, j, Side::Sell);
                self.index.remove(&order_id);
                self.size = self.size - 1;
            }
        }
        proof {
            let nb = self@;
            assert forall|id: OrderId| !(has_id(nb.0, id) && has_id(nb.1, id)) by {
                if has_id(nb.0, id) && has_id(nb.1, id) {
                    assert(has_id(b.0, id));
                    assert(has_id(b.1, id));
                }
            }
            if nb.0.len() > 0 && nb.1.len() > 0 {
                assert(b.0.len() > 0 && b.1.len() > 0);
            }
        }
    }

    /// Replaces an order by a fresh one of the same type at the end of its new level.
    pub fn modify_order(&mut self, order: OrderModify) -> (trades: Vec<Trade>)
        requires
            old(self).wf(),
        ensures
            final(self).wf(),
            (final(self)@, trades@) == modify_spec(old(self)@, order),
    {
        let ghost b = self@;
        let id = order.get_order_id();
        let side = match self.index.get(&id) {
            Some(side) => *side,
            None => {
                return Vec::new();
            },
        };
        let found = if side == Side::Buy {
            find_in(&self.bids, id)
        } else {
            find_in(&self.asks, id)
        };
        let order_type = match found {
            Some((i, j)) => {
                if side == Side::Buy {
                    proof {
                        lemma_pos_unique(b.0, Side::Buy, id, i as int, j as int);
                    }
                    self.bids[i].orders[j].order_type
                } else {
                    proof {
                        lemma_pos_unique(b.1, Side::Sell, id, i as int, j as int);
                    }
                    self.asks[i].orders[j].order_type
                }
            },
            None => {
                return Vec::new();
            },
        };
        self.cancel_order(id);
        self.add_order(order.to_order_pointer(order_type))
    }

    /// Per-side summaries of the levels, each side in ascending price order.
    pub fn get_order_infos(&self) -> (r: OrderbookLevelInfos)
        requires
            self.wf(),
        ensures
            r.bid_infos@ == self@.0.reverse().map_values(|l: LevelView| level_info(l)),
            r.ask_infos@ == self@.1.map_values(|l: LevelView| level_info(l)),
    {
        let best_first = level_infos(&self.bids);
        let bid_infos = reversed(&best_first);
        let ask_infos = level_infos(&self.asks);
        proof {
            let n = self@.0.len();
            assert(bid_infos@ =~= self@.0.reverse().map_values(|l: LevelView| level_info(l))) by {
                if n > 0 {
                    assert forall|k: int| 0 <= k < n implies #[trigger] self@.0.reverse()[k]
                        == self@.0[n - 1 - k] by {}
                }
            }
        }
        OrderbookLevelInfos { bid_infos, ask_infos }
    }

    /// Removes every good-for-day order, as at the end of a session; the other orders
    /// stay as they are.
    pub fn prune_gfd_orders(&mut self)
        requires
            old(self).wf(),
        ensures
            final(self).wf(),
            final(self)@ == prune_spec(old(self)@),
            forall|i: int, j: int|
                0 <= i < final(self)@.0.len() && 0 <= j < final(self)@.0[i].1.len()
                    ==> #[trigger] final(self)@.0[i].1[j].order_type != OrderType::GoodForDay,
            forall|i: int, j: int|
                0 <= i < final(self)@.1.len() && 0 <= j < final(self)@.1[i].1.len()
                    ==> #[trigger] final(self)@.1[i].1[j].order_type != OrderType::GoodForDay,
    {
        let ghost orig = self@;
        let mut done = false;
        while !done
            invariant
                self.wf(),
                prune_spec(self@) == prune_spec(orig),
                done ==> self@ == prune_spec(orig),
                done ==> forall|i: int, j: int|
                    0 <= i < self@.0.len() && 0 <= j < self@.0[i].1.len()
                        ==> #[trigger] self@.0[i].1[j].order_type != OrderType::GoodForDay,
                done ==> forall|i: int, j: int|
                    0 <= i < self@.1.len() && 0 <= j < self@.1[i].1.len()
                        ==> #[trigger] self@.1[i].1[j].order_type != OrderType::GoodForDay,
            decreases self.size, (if done { 0int } else { 1int }),
        {
            let ghost cur = self@;
            let found = match find_gfd(&self.bids) {
                Some((i, j)) => Some(self.bids[i].orders[j].order_id),
                None => match find_gfd(&self.asks) {
                    Some((i, j)) => Some(self.asks[i].orders[j].order_id),
                    None => None,
                },
            };
            match found {
                Some(id) => {
                    proof {
                        assert(book_has(cur, id));
                        assert(book_order(cur, id).order_type == OrderType::GoodForDay) by {
                            if has_id(cur.0, id) {
                                let (i, j) = choose|i: int, j: int|
                                    0 <= i < cur.0.len() && 0 <= j < cur.0[i].1.len()
                                        && #[trigger] cur.0[i].1[j].order_id == id
                                        && cur.0[i].1[j].order_type == OrderType::GoodForDay;
                                lemma_pos_unique(cur.0, Side::Buy, id, i, j);
                            } else {
                                let (i, j) = choose|i: int, j: int|
                                    0 <= i < cur.1.len() && 0 <= j < cur.1[i].1.len()
                                        && #[trigger] cur.1[i].1[j].order_id == id
                                        && cur.1[i].1[j].order_type == OrderType::GoodForDay;
                                lemma_pos_unique(cur.1, Side::Sell, id, i, j);
                            }
                        }
                    }
                    self.cancel_order(id);
                    proof {
                        if has_id(cur.0, id) {
                            let (i, j) = pos_of(cur.0, id);
                            lemma_prune_remove_gfd(cur.0, i, j);
                            assert(!has_id(cur.1, id));
                        } else {
                            let (i, j) = pos_of(cur.1, id);
                            lemma_prune_remove_gfd(cur.1, i, j);
                        }
                    }
                },
                None => {
                    done = true;
                    proof {
                        lemma_prune_side_id(cur.0);
                        lemma_prune_side_id(cur.1);
                    }
                },
            }
        }
    }

    /// Whether `id` rests on the book.
    pub fn contains(&self, id: OrderId) -> (r: bool)
        requires
            self.wf(),
        ensures
            r == book_has(self@, id),
    {
        self.index.contains_key(&id)
    }

    /// Whether an order on `side` at `price` would cross the best level of the other side.
    fn can_match(&self, side: Side, price: Price) -> (r: bool)
        ensures
            r == (other_side(self@, side).len() > 0 && side_crosses(
                side,
                price,
                other_side(self@, side)[0].0,
            )),
    {
        match side {
            Side::Buy => {
                if self.asks.len() == 0 {
                    return false;
                }
                price >= self.asks[0].price
            },
            Side::Sell => {
                if self.bids.len() == 0 {
                    return false;
                }
                price <= self.bids[0].price
            },
        }
    }

    /// Whether the levels that `taker` crosses hold at least its remaining quantity.
    fn has_liquidity(&self, taker: &Order) -> (r: bool)
        ensures
            r == (liquidity(other_side(self@, taker.side), *taker) >= taker.remaining_quantity),
    {
        let levels = if taker.side == Side::Buy {
            &self.asks
        } else {
            &self.bids
        };
        let ghost lv = levels_view(levels@);
        assert(lv == other_side(self@, taker.side));
        let mut acc: u64 = 0;
        let ghost mut seen: nat = 0;
        let mut i: usize = 0;
        assert(lv.skip(0) =~= lv);
        while i < levels.len() && crosses_exec(taker, levels[i].price)
            invariant
                lv == levels_view(levels@),
                0 <= i <= lv.len(),
                seen + liquidity(lv.skip(i as int), *taker) == liquidity(lv, *taker),
                acc == if seen > u64::MAX { u64::MAX as nat } else { seen },
            decreases lv.len() - i,
        {
            let q = &levels[i].orders;
            let ghost base = seen;
            let mut j: usize = 0;
            assert(q@.take(0) =~= Seq::<Order>::empty());
            while j < q.len()
                invariant
                    lv == levels_view(levels@),
                    0 <= i < lv.len(),
                    q@ == lv[i as int].1,
                    0 <= j <= q@.len(),
                    seen == base + queue_qty(q@.take(j as int)),
                    acc == if seen > u64::MAX { u64::MAX as nat } else { seen },
                decreases q@.len() - j,
            {
                assert(q@.take(j + 1).drop_last() =~= q@.take(j as int));
                acc = acc.saturating_add(q[j].remaining_quantity as u64);
                proof {
                    seen = (seen + q@[j as int].remaining_quantity) as nat;
                }
                j = j + 1;
            }
            assert(q@.take(j as int) =~= q@);
            assert(lv.skip(i as int).drop_first() =~= lv.skip(i + 1));
            i = i + 1;
        }
        acc >= taker.remaining_quantity as u64
    }

    /// Submits an order and runs the matching it causes, as `add_spec` says.
    pub fn add_order(&mut self, order: Order) -> (trades: Vec<Trade>)
        requires
            old(self).wf(),
            order.wf(),
            size_of(old(self)@) < usize::MAX,
        ensures
            final(self).wf(),
            (final(self)@, trades@) == add_spec(old(self)@, order),
    {
        if self.contains(order.order_id) || order.remaining_quantity == 0 {
            return Vec::new();
        }
        let mut o = order;
        match o.order_type {
            OrderType::Market => {
                let worst = if o.side == Side::Buy {
                    if self.asks.len() == 0 {
                        return Vec::new();
                    }
                    self.asks[self.asks.len() - 1].price
                } else {
                    if self.bids.len() == 0 {
                        return Vec::new();
                    }
                    self.bids[self.bids.len() - 1].price
                };
                if o.to_good_till_cancel(worst).is_err() {
                    return Vec::new();
                }
            },
            OrderType::FillAndKill => {
                if !self.can_match(o.side, o.price) {
                    return Vec::new();
                }
            },
            OrderType::FillOrKill => {
                if !self.has_liquidity(&o) {
                    return Vec::new();
                }
            },
            _ => {},
        }
        self.place(o)
    }

    /// Crosses an accepted order against the other side and rests what is left of it.
    fn place(&mut self, o: Order) -> (trades: Vec<Trade>)
        requires
            old(self).wf(),
            o.wf(),
            o.remaining_quantity > 0,
            !book_has(old(self)@, o.order_id),
            size_of(old(self)@) < usize::MAX,
        ensures
            final(self).wf(),
            (final(self)@, trades@) == place(old(self)@, o),
    {
        let ghost b = self@;
        let mut trades: Vec<Trade> = Vec::new();
        let mut t = o;
        let ghost idx0 = self.index@;
        let removed = if o.side == Side::Buy {
            sweep_levels(&mut t, &mut self.asks, &mut trades, &mut self.index)
        } else {
            sweep_levels(&mut t, &mut self.bids, &mut trades, &mut self.index)
        };
        let ghost idx1 = self.index@;
        proof {
            lemma_consumed_ids(other_side(b, o.side), other_side(self@, o.side), opposite(o.side));
            assert(trades@ =~= sweep(o, other_side(b, o.side)).2);
        }
        self.size = self.size - removed;
        if t.remaining_quantity > 0 && keeps_residual_exec(t.order_type) {
            if t.side == Side::Buy {
                rest_order(&mut self.bids, t);
            } else {
                rest_order(&mut self.asks, t);
            }
            self.index.insert(t.order_id, t.side);
            self.size = self.size + 1;
        }
        proof {
            let nb = self@;
            assert forall|id: OrderId| !(has_id(nb.0, id) && has_id(nb.1, id)) by {
                if has_id(nb.0, id) && has_id(nb.1, id) {
                    assert(has_id(b.0, id) || id == o.order_id);
                    assert(has_id(b.1, id) || id == o.order_id);
                }
            }
            assert forall|id: OrderId| #[trigger] self.index@.contains_key(id) <==> book_has(nb, id) by {
                if id != o.order_id {
                    assert(has_id(own_side(nb, o.side), id) == has_id(own_side(b, o.side), id));
                }
            }
            assert forall|id: OrderId| #[trigger] self.index@.contains_key(id) implies (
            self.index@[id] == Side::Buy <==> has_id(nb.0, id)) by {
                if id != o.order_id {
                    assert(has_id(own_side(nb, o.side), id) == has_id(own_side(b, o.side), id));
                    assert(idx1[id] == idx0[id]);
                }
            }
            if nb.0.len() > 0 && nb.1.len() > 0 {
                if o.side == Side::Buy {
                    if b.1.len() > 0 && side_wf(b.1, Side::Sell) {
                        assert(!better(Side::Sell, nb.1[0].0, b.1[0].0));
                    }
                } else {
                    if b.0.len() > 0 && side_wf(b.0, Side::Buy) {
                        assert(!better(Side::Buy, nb.0[0].0, b.0[0].0));
                    }
                }
            }
        }
        trades
    }
}

proof fn lemma_count_concat(a: Seq<LevelView>, b: Seq<LevelView>)
    ensures
        count(a + b) == count(a) + count(b),
    decreases a.len(),
{
    if a.len() > 0 {
        assert((a + b).drop_first() =~= a.drop_first() + b);
        lemma_count_concat(a.drop_first(), b);
    } else {
        assert(a + b =~= b);
    }
}

proof fn lemma_count_split(s: Seq<LevelView>, i: int)
    requires
        0 <= i < s.len(),
    ensures
        count(s) == count(s.take(i)) + s[i].1.len() + count(s.skip(i + 1)),
{
    let one = seq![s[i]];
    assert(s =~= s.take(i) + (one + s.skip(i + 1)));
    lemma_count_concat(s.take(i), one + s.skip(i + 1));
    lemma_count_concat(one, s.skip(i + 1));
    assert(one.drop_first() =~= Seq::<LevelView>::empty());
    assert(count(one) == s[i].1.len() + count(one.drop_first()));
}

proof fn lemma_count_insert(s: Seq<LevelView>, i: int, x: LevelView)
    requires
        0 <= i <= s.len(),
    ensures
        count(s.insert(i, x)) == count(s) + x.1.len(),
{
    let one = seq![x];
    assert(s.insert(i, x) =~= s.take(i) + (one + s.skip(i)));
    assert(s =~= s.take(i) + s.skip(i));
    lemma_count_concat(s.take(i), one + s.skip(i));
    lemma_count_concat(one, s.skip(i));
    lemma_count_concat(s.take(i), s.skip(i));
    assert(one.drop_first() =~= Seq::<LevelView>::empty());
    assert(count(one) == x.1.len() + count(one.drop_first()));
}

proof fn lemma_count_update(s: Seq<LevelView>, i: int, x: LevelView)
    requires
        0 <= i < s.len(),
    ensures
        count(s.update(i, x)) == count(s) - s[i].1.len() + x.1.len(),
{
    let t = s.update(i, x);
    lemma_count_split(s, i);
    lemma_count_split(t, i);
    assert(t.take(i) =~= s.take(i));
    assert(t.skip(i + 1) =~= s.skip(i + 1));
}

proof fn lemma_count_remove(s: Seq<LevelView>, i: int)
    requires
        0 <= i < s.len(),
    ensures
        count(s.remove(i)) == count(s) - s[i].1.len(),
{
    lemma_count_split(s, i);
    assert(s.remove(i) =~= s.take(i) + s.skip(i + 1));
    lemma_count_concat(s.take(i), s.skip(i + 1));
}

/// Adds `o` to its own side, as `rest` says.
#[verifier::rlimit(40)]
fn rest_order(levels: &mut Vec<Level>, o: Order)
    requires
        side_wf(levels_view(old(levels)@), o.side),
        resting_ok(o, o.side, o.price),
        !has_id(levels_view(old(levels)@), o.order_id),
    ensures
        levels_view(final(levels)@) == rest(levels_view(old(levels)@), o),
        side_wf(levels_view(final(levels)@), o.side),
        count(levels_view(final(levels)@)) == count(levels_view(old(levels)@)) + 1,
        forall|id: OrderId|
            has_id(levels_view(final(levels)@), id) <==> has_id(levels_view(old(levels)@), id)
                || id == o.order_id,
        levels_view(final(levels)@).len() > 0,
        levels_view(old(levels)@).len() > 0 ==> !better(
            o.side,
            levels_view(old(levels)@)[0].0,
            levels_view(final(levels)@)[0].0,
        ),
        !better(o.side, o.price, levels_view(final(levels)@)[0].0),
        levels_view(final(levels)@)[0].0 == o.price || (levels_view(old(levels)@).len() > 0
            && levels_view(final(levels)@)[0].0 == levels_view(old(levels)@)[0].0),
{
    let ghost lv = levels_view(levels@);
    let ghost side = o.side;
    let mut i: usize = 0;
    assert(lv.skip(0) =~= lv);
    while i < levels.len() && better_exec(side_of(&o), levels[i].price, o.price)
        invariant
            lv == levels_view(levels@),
            side == o.side,
            0 <= i <= lv.len(),
            better_prefix(lv, side, o.price) == i + better_prefix(lv.skip(i as int), side, o.price),
            forall|k: int| 0 <= k < i ==> better(side, #[trigger] lv[k].0, o.price),
        decreases lv.len() - i,
    {
        assert(lv.skip(i as int).drop_first() =~= lv.skip(i + 1));
        i = i + 1;
    }
    assert(better_prefix(lv, side, o.price) == i);
    if i < levels.len() && levels[i].price == o.price {
        let mut level = levels.remove(i);
        level.orders.push(o);
        levels.insert(i, level);
        proof {
            let nv = levels_view(levels@);
            let ql = lv[i as int].1;
            assert(nv =~= lv.update(i as int, (o.price, ql.push(o))));
            lemma_count_update(lv, i as int, (o.price, ql.push(o)));
            assert forall|i1: int, j1: int, i2: int, j2: int|
                0 <= i1 < nv.len() && 0 <= j1 < nv[i1].1.len() && 0 <= i2 < nv.len() && 0 <= j2
                    < nv[i2].1.len() && #[trigger] nv[i1].1[j1].order_id
                    == #[trigger] nv[i2].1[j2].order_id implies i1 == i2 && j1 == j2 by {
                if nv[i1].1[j1].order_id != o.order_id {
                    assert(nv[i1].1[j1] == lv[i1].1[j1]);
                    assert(nv[i2].1[j2] == lv[i2].1[j2]);
                } else {
                    if !(i1 == i && j1 == ql.len()) {
                        assert(nv[i1].1[j1] == lv[i1].1[j1]);
                    }
                    if !(i2 == i && j2 == ql.len()) {
                        assert(nv[i2].1[j2] == lv[i2].1[j2]);
                    }
                }
            }
            assert forall|id: OrderId| has_id(nv, id) <==> has_id(lv, id) || id == o.order_id by {
                if has_id(nv, id) {
                    let (a, b) = choose|a: int, b: int|
                        0 <= a < nv.len() && 0 <= b < nv[a].1.len() && #[trigger] nv[a].1[b].order_id
                            == id;
                    if !(a == i && b == ql.len()) {
                        assert(nv[a].1[b] == lv[a].1[b]);
                    }
                }
                if has_id(lv, id) {
                    let (a, b) = choose|a: int, b: int|
                        0 <= a < lv.len() && 0 <= b < lv[a].1.len() && #[trigger] lv[a].1[b].order_id
                            == id;
                    assert(nv[a].1[b] == lv[a].1[b]);
                }
                if id == o.order_id {
                    assert(nv[i as int].1[ql.len() as int].order_id == id);
                }
            }
        }
    } else {
        let mut q: Vec<Order> = Vec::new();
        q.push(o);
        let level = Level { price: o.price, orders: q };
        levels.insert(i, level);
        proof {
            let nv = levels_view(levels@);
            assert(nv =~= lv.insert(i as int, (o.price, seq![o])));
            lemma_count_insert(lv, i as int, (o.price, seq![o]));
            assert forall|k: int| 0 <= k < nv.len() implies #[trigger] nv[k] == if k < i {
                lv[k]
            } else if k == i {
                (o.price, seq![o])
            } else {
                lv[k - 1]
            } by {}
            assert forall|k: int| i < k < nv.len() implies better(side, o.price, #[trigger] nv[k].0) by {
                assert(!better(side, lv[i as int].0, o.price));
                assert(lv[i as int].0 != o.price);
                if k > i + 1 {
                    assert(better(side, lv[i as int].0, lv[k - 1].0));
                }
            }
            assert forall|i1: int, j1: int, i2: int, j2: int|
                0 <= i1 < nv.len() && 0 <= j1 < nv[i1].1.len() && 0 <= i2 < nv.len() && 0 <= j2
                    < nv[i2].1.len() && #[trigger] nv[i1].1[j1].order_id
                    == #[trigger] nv[i2].1[j2].order_id implies i1 == i2 && j1 == j2 by {
                if i1 != i {
                    let a1 = if i1 < i { i1 } else { i1 - 1 };
                    assert(nv[i1].1[j1] == lv[a1].1[j1]);
                }
                if i2 != i {
                    let a2 = if i2 < i { i2 } else { i2 - 1 };
                    assert(nv[i2].1[j2] == lv[a2].1[j2]);
                }
            }
            assert forall|id: OrderId| has_id(nv, id) <==> has_id(lv, id) || id == o.order_id by {
                if has_id(nv, id) {
                    let (a, b) = choose|a: int, b: int|
                        0 <= a < nv.len() && 0 <= b < nv[a].1.len() && #[trigger] nv[a].1[b].order_id
                            == id;
                    if a != i {
                        let a1 = if a < i { a } else { a - 1 };
                        assert(nv[a].1[b] == lv[a1].1[b]);
                    }
                }
                if has_id(lv, id) {
                    let (a, b) = choose|a: int, b: int|
                        0 <= a < lv.len() && 0 <= b < lv[a].1.len() && #[trigger] lv[a].1[b].order_id
                            == id;
                    let a1 = if a < i { a } else { a + 1 };
                    assert(nv[a1].1[b] == lv[a].1[b]);
                }
                if id == o.order_id {
                    assert(nv[i as int].1[0].order_id == id);
                }
            }
        }
    }
}

/// The side of `o`.
fn side_of(o: &Order) -> (r: Side)
    ensures
        r == o.side,
{
    o.side
}

/// Whether `p` is strictly better than `q` on `side`.
fn better_exec(side: Side, p: Price, q: Price) -> (r: bool)
    ensures
        r == better(side, p, q),
{
    match side {
        Side::Buy => p > q,
        Side::Sell => p < q,
    }
}

/// Every id left after the front of a side was consumed was there before, and the best
/// price left is no better than the best price before.
pub proof fn lemma_consumed_ids(before: Seq<LevelView>, after: Seq<LevelView>, side: Side)
    requires
        consumed_from_front(before, after),
    ensures
        forall|id: OrderId| has_id(after, id) ==> has_id(before, id),
        side_wf(before, side) && after.len() > 0 && before.len() > 0 ==> !better(
            side,
            after[0].0,
            before[0].0,
        ),
{
    let d = before.len() - after.len();
    assert forall|id: OrderId| has_id(after, id) implies has_id(before, id) by {
        let (a, b) = choose|a: int, b: int|
            0 <= a < after.len() && 0 <= b < after[a].1.len() && #[trigger] after[a].1[b].order_id
                == id;
        if a == 0 {
            let e = before[d].1.len() - after[0].1.len();
            if b == 0 {
                assert(before[d].1[e].order_id == id);
            } else {
                assert(before[d].1[b + e].order_id == id);
            }
        } else {
            assert(before[a + d].1[b].order_id == id);
        }
    }
    if after.len() > 0 && before.len() > 0 && side_wf(before, side) && d > 0 {
        assert(better(side, before[0].0, before[d].0));
    }
}

/// Where `id` rests in `levels`, if anywhere.
fn find_in(levels: &Vec<Level>, id: OrderId) -> (r: Option<(usize, usize)>)
    ensures
        r is None <==> !has_id(levels_view(levels@), id),
        r matches Some((i, j)) ==> i < levels@.len() && j < levels@[i as int].orders@.len()
            && levels_view(levels@)[i as int].1[j as int].order_id == id,
{
    let ghost lv = levels_view(levels@);
    let mut i: usize = 0;
    while i < levels.len()
        invariant
            lv == levels_view(levels@),
            0 <= i <= lv.len(),
            forall|a: int, b: int|
                0 <= a < i && 0 <= b < lv[a].1.len() ==> #[trigger] lv[a].1[b].order_id != id,
        decreases lv.len() - i,
    {
        let q = &levels[i].orders;
        let mut j: usize = 0;
        while j < q.len()
            invariant
                lv == levels_view(levels@),
                0 <= i < lv.len(),
                q@ == lv[i as int].1,
                0 <= j <= q@.len(),
                forall|b: int| 0 <= b < j ==> #[trigger] q@[b].order_id != id,
            decreases q@.len() - j,
        {
            if q[j].order_id == id {
                return Some((i, j));
            }
            j = j + 1;
        }
        i = i + 1;
    }
    None
}

/// Whether an order of type `t` rests what it did not fill.
fn keeps_residual_exec(t: OrderType) -> (r: bool)
    ensures
        r == keeps_residual(t),
{
    match t {
        OrderType::GoodTillCancel => true,
        OrderType::GoodForDay => true,
        _ => false,
    }
}

/// Takes the order at level `i`, position `j` off a side.
fn remove_from(levels: &mut Vec<Level>, i: usize, j: usize, side: Side)
    requires
        side_wf(levels_view(old(levels)@), side),
        i < old(levels)@.len(),
        j < old(levels)@[i as int].orders@.len(),
    ensures
        levels_view(final(levels)@) == remove_at(levels_view(old(levels)@), i as int, j as int),
        side_wf(levels_view(final(levels)@), side),
        count(levels_view(final(levels)@)) + 1 == count(levels_view(old(levels)@)),
        forall|id: OrderId|
            has_id(levels_view(final(levels)@), id) <==> (has_id(levels_view(old(levels)@), id)
                && id != levels_view(old(levels)@)[i as int].1[j as int].order_id),
        levels_view(final(levels)@).len() > 0 ==> !better(
            side,
            levels_view(final(levels)@)[0].0,
            levels_view(old(levels)@)[0].0,
        ),
{
    let ghost lv = levels_view(levels@);
    let ghost gone = lv[i as int].1[j as int].order_id;
    let mut level = levels.remove(i);
    level.orders.remove(j);
    if level.orders.len() > 0 {
        levels.insert(i, level);
        proof {
            let nv = levels_view(levels@);
            let ql = lv[i as int].1;
            assert(nv =~= lv.update(i as int, (lv[i as int].0, ql.remove(j as int))));
            lemma_count_update(lv, i as int, (lv[i as int].0, ql.remove(j as int)));
            assert forall|a: int, b: int|
                0 <= a < nv.len() && 0 <= b < nv[a].1.len() implies #[trigger] nv[a].1[b] == if a
                == i && b >= j {
                lv[a].1[b + 1]
            } else {
                lv[a].1[b]
            } by {}
            assert forall|id: OrderId|
                has_id(nv, id) <==> (has_id(lv, id) && id != gone) by {
                if has_id(nv, id) {
                    let (a, b) = choose|a: int, b: int|
                        0 <= a < nv.len() && 0 <= b < nv[a].1.len() && #[trigger] nv[a].1[b].order_id
                            == id;
                    if a == i && b >= j {
                        assert(lv[a].1[b + 1].order_id == id);
                    } else {
                        assert(lv[a].1[b].order_id == id);
                    }
                }
                if has_id(lv, id) && id != gone {
                    let (a, b) = choose|a: int, b: int|
                        0 <= a < lv.len() && 0 <= b < lv[a].1.len() && #[trigger] lv[a].1[b].order_id
                            == id;
                    if a == i && b > j {
                        assert(nv[a].1[b - 1].order_id == id);
                    } else {
                        assert(nv[a].1[b].order_id == id);
                    }
                }
            }
        }
    } else {
        proof {
            let nv = levels_view(levels@);
            assert(nv =~= lv.remove(i as int));
            lemma_count_remove(lv, i as int);
            assert forall|a: int| 0 <= a < nv.len() implies #[trigger] nv[a] == if a < i {
                lv[a]
            } else {
                lv[a + 1]
            } by {}
            assert forall|id: OrderId|
                has_id(nv, id) <==> (has_id(lv, id) && id != gone) by {
                if has_id(nv, id) {
                    let (a, b) = choose|a: int, b: int|
                        0 <= a < nv.len() && 0 <= b < nv[a].1.len() && #[trigger] nv[a].1[b].order_id
                            == id;
                    if a < i {
                        assert(lv[a].1[b].order_id == id);
                    } else {
                        assert(lv[a + 1].1[b].order_id == id);
                    }
                }
                if has_id(lv, id) && id != gone {
                    let (a, b) = choose|a: int, b: int|
                        0 <= a < lv.len() && 0 <= b < lv[a].1.len() && #[trigger] lv[a].1[b].order_id
                            == id;
                    assert(a != i);
                    if a < i {
                        assert(nv[a].1[b].order_id == id);
                    } else {
                        assert(nv[a - 1].1[b].order_id == id);
                    }
                }
            }
            if nv.len() > 0 && i == 0 {
                assert(better(side, lv[0].0, lv[1].0));
            }
        }
    }
}

/// In a well-formed side, the position `pos_of` names is the only one holding `id`.
pub proof fn lemma_pos_unique(levels: Seq<LevelView>, side: Side, id: OrderId, i: int, j: int)
    requires
        side_wf(levels, side),
        0 <= i < levels.len(),
        0 <= j < levels[i].1.len(),
        levels[i].1[j].order_id == id,
    ensures
        has_id(levels, id),
        pos_of(levels, id) == (i, j),
{
    assert(levels[i].1[j].order_id == id);
    let (a, b) = pos_of(levels, id);
    assert(levels[a].1[b].order_id == levels[i].1[j].order_id);
}

/// The same summaries in the opposite order.
fn reversed(v: &Vec<LevelInfo>) -> (r: Vec<LevelInfo>)
    ensures
        r@.len() == v@.len(),
        forall|k: int| 0 <= k < v@.len() ==> #[trigger] r@[k] == v@[v@.len() - 1 - k],
{
    let mut r: Vec<LevelInfo> = Vec::new();
    let mut i: usize = v.len();
    while i > 0
        invariant
            0 <= i <= v@.len(),
            r@.len() == v@.len() - i,
            forall|k: int| 0 <= k < r@.len() ==> #[trigger] r@[k] == v@[v@.len() - 1 - k],
        decreases i,
    {
        i = i - 1;
        r.push(v[i]);
    }
    r
}

/// The summary of each level of a side, in order.
fn level_infos(levels: &Vec<Level>) -> (r: Vec<LevelInfo>)
    ensures
        r@ == levels_view(levels@).map_values(|l: LevelView| level_info(l)),
{
    let ghost lv = levels_view(levels@);
    let mut r: Vec<LevelInfo> = Vec::new();
    let mut i: usize = 0;
    while i < levels.len()
        invariant
            lv == levels_view(levels@),
            0 <= i <= lv.len(),
            r@ == lv.take(i as int).map_values(|l: LevelView| level_info(l)),
        decreases lv.len() - i,
    {
        let q = &levels[i].orders;
        let mut acc: u64 = 0;
        let mut j: usize = 0;
        assert(q@.take(0) =~= Seq::<Order>::empty());
        while j < q.len()
            invariant
                lv == levels_view(levels@),
                0 <= i < lv.len(),
                q@ == lv[i as int].1,
                0 <= j <= q@.len(),
                acc == if queue_qty(q@.take(j as int)) > u64::MAX {
                    u64::MAX as nat
                } else {
                    queue_qty(q@.take(j as int))
                },
            decreases q@.len() - j,
        {
            assert(q@.take(j + 1).drop_last() =~= q@.take(j as int));
            acc = acc.saturating_add(q[j].remaining_quantity as u64);
            j = j + 1;
        }
        assert(q@.take(j as int) =~= q@);
        r.push(LevelInfo { price: levels[i].price, quantity: acc });
        assert(r@ =~= lv.take(i + 1).map_values(|l: LevelView| level_info(l)));
        i = i + 1;
    }
    assert(lv.take(i as int) =~= lv);
    r
}

proof fn lemma_without_gfd_concat(a: Seq<Order>, b: Seq<Order>)
    ensures
        without_gfd(a + b) == without_gfd(a) + without_gfd(b),
    decreases a.len(),
{
    if a.len() == 0 {
        assert(a + b =~= b);
        assert(without_gfd(a) + without_gfd(b) =~= without_gfd(b));
    } else {
        assert((a + b).drop_first() =~= a.drop_first() + b);
        lemma_without_gfd_concat(a.drop_first(), b);
        let head = if a[0].order_type == OrderType::GoodForDay {
            Seq::<Order>::empty()
        } else {
            seq![a[0]]
        };
        assert(head + (without_gfd(a.drop_first()) + without_gfd(b)) =~= (head + without_gfd(
            a.drop_first(),
        )) + without_gfd(b));
    }
}

proof fn lemma_prune_side_concat(a: Seq<LevelView>, b: Seq<LevelView>)
    ensures
        prune_side(a + b) == prune_side(a) + prune_side(b),
    decreases a.len(),
{
    if a.len() == 0 {
        assert(a + b =~= b);
        assert(prune_side(a) + prune_side(b) =~= prune_side(b));
    } else {
        assert((a + b).drop_first() =~= a.drop_first() + b);
        lemma_prune_side_concat(a.drop_first(), b);
        let q = without_gfd(a[0].1);
        let head = if q.len() == 0 {
            Seq::<LevelView>::empty()
        } else {
            seq![(a[0].0, q)]
        };
        assert(head + (prune_side(a.drop_first()) + prune_side(b)) =~= (head + prune_side(
            a.drop_first(),
        )) + prune_side(b));
    }
}

/// A queue with no good-for-day order is its own pruning.
proof fn lemma_without_gfd_id(q: Seq<Order>)
    requires
        forall|j: int| 0 <= j < q.len() ==> #[trigger] q[j].order_type != OrderType::GoodForDay,
    ensures
        without_gfd(q) == q,
    decreases q.len(),
{
    if q.len() > 0 {
        lemma_without_gfd_id(q.drop_first());
        assert(seq![q[0]] + q.drop_first() =~= q);
    }
}

/// A side with no empty level and no good-for-day order is its own pruning.
proof fn lemma_prune_side_id(s: Seq<LevelView>)
    requires
        forall|i: int| 0 <= i < s.len() ==> #[trigger] s[i].1.len() > 0,
        forall|i: int, j: int|
            0 <= i < s.len() && 0 <= j < s[i].1.len() ==> #[trigger] s[i].1[j].order_type
                != OrderType::GoodForDay,
    ensures
        prune_side(s) == s,
    decreases s.len(),
{
    if s.len() > 0 {
        assert forall|j: int| 0 <= j < s[0].1.len() implies #[trigger] s[0].1[j].order_type
            != OrderType::GoodForDay by {
            assert(s[0].1[j].order_type != OrderType::GoodForDay);
        }
        lemma_without_gfd_id(s[0].1);
        let t = s.drop_first();
        assert forall|i: int, j: int|
            0 <= i < t.len() && 0 <= j < t[i].1.len() implies #[trigger] t[i].1[j].order_type
            != OrderType::GoodForDay by {
            assert(t[i] == s[i + 1]);
        }
        lemma_prune_side_id(t);
        assert(seq![(s[0].0, s[0].1)] + t =~= s);
    }
}

/// Taking a good-for-day order off a side does not change its pruning.
proof fn lemma_prune_remove_gfd(s: Seq<LevelView>, i: int, j: int)
    requires
        0 <= i < s.len(),
        0 <= j < s[i].1.len(),
        s[i].1[j].order_type == OrderType::GoodForDay,
    ensures
        prune_side(remove_at(s, i, j)) == prune_side(s),
{
    let q = s[i].1;
    let g = seq![q[j]];
    assert(without_gfd(g.drop_first()) == Seq::<Order>::empty());
    assert(without_gfd(g) =~= Seq::<Order>::empty());
    assert(q =~= q.take(j) + (g + q.skip(j + 1)));
    assert(q.remove(j) =~= q.take(j) + q.skip(j + 1));
    lemma_without_gfd_concat(q.take(j), g + q.skip(j + 1));
    lemma_without_gfd_concat(g, q.skip(j + 1));
    lemma_without_gfd_concat(q.take(j), q.skip(j + 1));
    assert(without_gfd(q.remove(j)) =~= without_gfd(q));
    let one = seq![s[i]];
    assert(s =~= s.take(i) + (one + s.skip(i + 1)));
    lemma_prune_side_concat(s.take(i), one + s.skip(i + 1));
    lemma_prune_side_concat(one, s.skip(i + 1));
    assert(prune_side(one.drop_first()) == Seq::<LevelView>::empty());
    if q.len() == 1 {
        assert(q.take(j) =~= Seq::<Order>::empty());
        assert(q.skip(j + 1) =~= Seq::<Order>::empty());
        assert(without_gfd(Seq::<Order>::empty()) == Seq::<Order>::empty());
        assert(prune_side(one) =~= Seq::<LevelView>::empty());
        assert(remove_at(s, i, j) =~= s.take(i) + s.skip(i + 1));
        lemma_prune_side_concat(s.take(i), s.skip(i + 1));
        assert(prune_side(s.take(i)) + prune_side(s.skip(i + 1)) =~= prune_side(s.take(i)) + (
        prune_side(one) + prune_side(s.skip(i + 1))));
    } else {
        let two = seq![(s[i].0, q.remove(j))];
        assert(remove_at(s, i, j) =~= s.take(i) + (two + s.skip(i + 1)));
        lemma_prune_side_concat(s.take(i), two + s.skip(i + 1));
        lemma_prune_side_concat(two, s.skip(i + 1));
        assert(prune_side(two.drop_first()) == Seq::<LevelView>::empty());
        assert(prune_side(two) == prune_side(one));
    }
}

/// The first good-for-day order of a side, if any.
fn find_gfd(levels: &Vec<Level>) -> (r: Option<(usize, usize)>)
    ensures
        r is None ==> forall|i: int, j: int|
            0 <= i < levels_view(levels@).len() && 0 <= j < levels_view(levels@)[i].1.len()
                ==> #[trigger] levels_view(levels@)[i].1[j].order_type != OrderType::GoodForDay,
        r matches Some((i, j)) ==> i < levels@.len() && j < levels@[i as int].orders@.len()
            && levels_view(levels@)[i as int].1[j as int].order_type == OrderType::GoodForDay,
{
    let ghost lv = levels_view(levels@);
    let mut i: usize = 0;
    while i < levels.len()
        invariant
            lv == levels_view(levels@),
            0 <= i <= lv.len(),
            forall|a: int, b: int|
                0 <= a < i && 0 <= b < lv[a].1.len() ==> #[trigger] lv[a].1[b].order_type
                    != OrderType::GoodForDay,
        decreases lv.len() - i,
    {
        let q = &levels[i].orders;
        let mut j: usize = 0;
        while j < q.len()
            invariant
                lv == levels_view(levels@),
                0 <= i < lv.len(),
                q@ == lv[i as int].1,
                0 <= j <= q@.len(),
                forall|b: int| 0 <= b < j ==> #[trigger] q@[b].order_type != OrderType::GoodForDay,
            decreases q@.len() - j,
        {
            if q[j].order_type == OrderType::GoodForDay {
                return Some((i, j));
            }
            j = j + 1;
        }
        i = i + 1;
    }
    None
}

/// Taking the order at level `i`, position `j` off a well-formed side removes exactly its
/// id.
proof fn lemma_remove_at_ids(lv: Seq<LevelView>, i: int, j: int, side: Side)
    requires
        side_wf(lv, side),
        0 <= i < lv.len(),
        0 <= j < lv[i].1.len(),
    ensures
        forall|id: OrderId|
            has_id(remove_at(lv, i, j), id) <==> (has_id(lv, id) && id != lv[i].1[j].order_id),
{
    let nv = remove_at(lv, i, j);
    let gone = lv[i].1[j].order_id;
    if lv[i].1.len() == 1 {
        assert forall|id: OrderId| has_id(nv, id) <==> (has_id(lv, id) && id != gone) by {
            if has_id(nv, id) {
                let (a, b) = choose|a: int, b: int|
                    0 <= a < nv.len() && 0 <= b < nv[a].1.len() && #[trigger] nv[a].1[b].order_id
                        == id;
                let a1 = if a < i { a } else { a + 1 };
                assert(nv[a] == lv[a1]);
                assert(lv[a1].1[b].order_id == id);
            }
            if has_id(lv, id) && id != gone {
                let (a, b) = choose|a: int, b: int|
                    0 <= a < lv.len() && 0 <= b < lv[a].1.len() && #[trigger] lv[a].1[b].order_id
                        == id;
                assert(a != i);
                let a1 = if a < i { a } else { a - 1 };
                assert(nv[a1] == lv[a]);
                assert(nv[a1].1[b].order_id == id);
            }
        }
    } else {
        assert forall|id: OrderId| has_id(nv, id) <==> (has_id(lv, id) && id != gone) by {
            if has_id(nv, id) {
                let (a, b) = choose|a: int, b: int|
                    0 <= a < nv.len() && 0 <= b < nv[a].1.len() && #[trigger] nv[a].1[b].order_id
                        == id;
                if a == i && b >= j {
                    assert(lv[a].1[b + 1].order_id == id);
                } else {
                    assert(lv[a].1[b].order_id == id);
                }
            }
            if has_id(lv, id) && id != gone {
                let (a, b) = choose|a: int, b: int|
                    0 <= a < lv.len() && 0 <= b < lv[a].1.len() && #[trigger] lv[a].1[b].order_id
                        == id;
                if a == i && b > j {
                    assert(nv[a].1[b - 1].order_id == id);
                } else {
                    assert(nv[a].1[b].order_id == id);
                }
            }
        }
    }
}

/// Whether `taker` may trade with a level at `p`.
fn crosses_exec(taker: &Order, p: Price) -> (r: bool)
    ensures
        r == crosses(*taker, p),
{
    match taker.side {
        Side::Buy => taker.price >= p,
        Side::Sell => taker.price <= p,
    }
}

/// The trade between `taker` and `maker` for `q`.
fn make_trade(taker: &Order, maker: &Order, q: Quantity) -> (r: Trade)
    ensures
        r == trade_of(*taker, *maker, q),
{
    let t = TradeInfo { order_id: taker.order_id, price: taker.price, quantity: q };
    let m = TradeInfo { order_id: maker.order_id, price: maker.price, quantity: q };
    match taker.side {
        Side::Buy => Trade { bid_trade: t, ask_trade: m },
        Side::Sell => Trade { bid_trade: m, ask_trade: t },
    }
}

/// Runs `sweep` on the levels in `opp`, appending the trades; returns how many resting
/// orders were filled and taken off.
fn sweep_levels(
    taker: &mut Order,
    opp: &mut Vec<Level>,
    trades: &mut Vec<Trade>,
    index: &mut HashMap<OrderId, Side>,
) -> (removed: usize)
    requires
        old(taker).wf(),
        forall|id: OrderId| has_id(levels_view(old(opp)@), id) ==> old(index)@.contains_key(id),
        side_wf(levels_view(old(opp)@), opposite(old(taker).side)),
        count(levels_view(old(opp)@)) <= usize::MAX,
    ensures
        ({
            let r = sweep(*old(taker), levels_view(old(opp)@));
            &&& *final(taker) == r.0
            &&& levels_view(final(opp)@) == r.1
            &&& final(trades)@ == old(trades)@ + r.2
        }),
        final(taker).wf(),
        same_order(*final(taker), *old(taker)),
        side_wf(levels_view(final(opp)@), opposite(old(taker).side)),
        consumed_from_front(levels_view(old(opp)@), levels_view(final(opp)@)),
        count(levels_view(final(opp)@)) + removed == count(levels_view(old(opp)@)),
        forall|id: OrderId|
            #[trigger] final(index)@.contains_key(id) <==> (old(index)@.contains_key(id) && (!has_id(
                levels_view(old(opp)@),
                id,
            ) || has_id(levels_view(final(opp)@), id))),
        forall|id: OrderId| #[trigger] final(index)@.contains_key(id) ==> final(index)@[id] == old(index)@[id],
        final(taker).remaining_quantity > 0 ==> levels_view(final(opp)@).len() == 0 || !crosses(
            *final(taker),
            levels_view(final(opp)@)[0].0,
        ),
{
    let ghost t0 = *taker;
    let ghost orig = levels_view(opp@);
    let ghost start = trades@;
    let ghost res = sweep(t0, orig);
    let ghost oside = opposite(t0.side);
    let ghost idx0 = index@;
    let mut removed: usize = 0;
    proof {
        assert(consumed_from_front(orig, orig)) by {
            if orig.len() > 0 {
                assert(orig[0].1.len() > 0);
            }
        }
        assert(trades@ + Seq::<Trade>::empty() =~= trades@);
    }
    while opp.len() > 0 && taker.remaining_quantity > 0 && crosses_exec(taker, opp[0].price)
        invariant
            taker.wf(),
            same_order(*taker, t0),
            side_wf(levels_view(opp@), oside),
            oside == opposite(t0.side),
            consumed_from_front(orig, levels_view(opp@)),
            count(levels_view(opp@)) + removed == count(orig),
            count(orig) <= usize::MAX,
            sweep(*taker, levels_view(opp@)).0 == res.0,
            sweep(*taker, levels_view(opp@)).1 == res.1,
            trades@ + sweep(*taker, levels_view(opp@)).2 == start + res.2,
            forall|id: OrderId| has_id(levels_view(opp@), id) ==> index@.contains_key(id),
            forall|id: OrderId|
                #[trigger] index@.contains_key(id) <==> (idx0.contains_key(id) && (!has_id(orig, id)
                    || has_id(levels_view(opp@), id))),
            forall|id: OrderId| #[trigger] index@.contains_key(id) ==> index@[id] == idx0[id],
        decreases
            opp@.len(),
            (if opp@.len() > 0 { opp@[0].orders@.len() } else { 0 }),
            taker.remaining_quantity,
    {
        let ghost cur = levels_view(opp@);
        let ghost tk = *taker;
        let ghost old_trades = trades@;
        assert(cur[0].1.len() > 0);
        assert(resting_ok(cur[0].1[0], oside, cur[0].0));
        let mut level = opp.remove(0);
        let mut maker = level.orders[0];
        let q = if taker.remaining_quantity <= maker.remaining_quantity {
            taker.remaining_quantity
        } else {
            maker.remaining_quantity
        };
        let tr = make_trade(taker, &maker, q);
        let _ = taker.fill(q);
        let _ = maker.fill(q);
        trades.push(tr);
        if maker.remaining_quantity > 0 {
            level.orders.set(0, maker);
            opp.insert(0, level);
            proof {
                let nv = levels_view(opp@);
                assert(nv =~= cur.update(0, (cur[0].0, cur[0].1.update(0, maker))));
                assert(nv.drop_first() =~= cur.drop_first());
                assert(trades@ + Seq::<Trade>::empty() =~= old_trades + seq![tr]);
                assert(taker.remaining_quantity == 0);
                assert(consumed_from_front(orig, nv)) by {
                    assert(nv.len() == cur.len());
                }
                assert forall|a: int, b: int|
                    0 <= a < nv.len() && 0 <= b < nv[a].1.len() implies #[trigger] nv[a].1[b].order_id
                    == cur[a].1[b].order_id by {}
                assert forall|id: OrderId| has_id(nv, id) == has_id(cur, id) by {
                    if has_id(cur, id) {
                        let (a, b) = choose|a: int, b: int|
                            0 <= a < cur.len() && 0 <= b < cur[a].1.len()
                                && #[trigger] cur[a].1[b].order_id == id;
                        assert(nv[a].1[b].order_id == id);
                    }
                }
            }
        } else {
            level.orders.remove(0);
            removed = removed + 1;
            index.remove(&maker.order_id);
            let ghost rest = cur[0].1.drop_first();
            if level.orders.len() > 0 {
                opp.insert(0, level);
                proof {
                    let nv = levels_view(opp@);
                    assert(nv =~= cur.update(0, (cur[0].0, rest)));
                    assert(nv.drop_first() =~= cur.drop_first());
                    assert(forall|i: int, j: int|
                        0 <= i < nv.len() && 0 <= j < nv[i].1.len() ==> #[trigger] nv[i].1[j]
                            == if i == 0 {
                            cur[0].1[j + 1]
                        } else {
                            cur[i].1[j]
                        });
                }
            } else {
                proof {
                    let nv = levels_view(opp@);
                    assert(nv =~= cur.drop_first());
                }
            }
            proof {
                let nv = levels_view(opp@);
                let s2 = sweep(*taker, nv);
                assert(trades@ + s2.2 =~= old_trades + (seq![tr] + s2.2));
                assert(cur[0].1.drop_first() =~= cur[0].1.remove(0));
                assert(nv == remove_at(cur, 0, 0));
                lemma_remove_at_ids(cur, 0, 0, oside);
                assert forall|id: OrderId| has_id(orig, id) && !has_id(cur, id) implies !has_id(
                    nv,
                    id,
                ) by {}
            }
        }
    }
    removed
}

} // verus!
