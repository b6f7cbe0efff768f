//! The two sides of the book, their price order, and the matching rules.
use vstd::math::min;
use vstd::prelude::*;

use crate::level::{
    LevelView, PriceLevel, absorbed, lemma_volume_push, queue_filled, volume,
};
use crate::order::{Order, OrderType, OrderView, opposite};
use crate::price::{Price, lemma_price_value_eq};

verus! {

/// Whether, on side `s`, price `a` comes strictly before price `b`: a higher
/// bid, or a lower ask.
pub open spec fn ahead(s: OrderType, a: Price, b: Price) -> bool {
    match s {
        OrderType::Bid => a@ > b@,
        OrderType::Ask => a@ < b@,
    }
}

/// A well-formed side: levels best price first with no price twice, each
/// holding at least one order, every order of side `s`.
pub open spec fn side_wf(levels: Seq<LevelView>, s: OrderType) -> bool {
    &&& forall|i: int, j: int|
        0 <= i < j < levels.len() ==> ahead(s, #[trigger] levels[i].price, #[trigger] levels[j].price)
    &&& forall|i: int| 0 <= i < levels.len() ==> (#[trigger] levels[i]).orders.len() > 0
    &&& forall|i: int, k: int|
        0 <= i < levels.len() && 0 <= k < levels[i].orders.len() ==> (
        #[trigger] levels[i].orders[k]).side == s
}

/// Whether some level of `levels` sits at price `p`.
pub open spec fn has_level(levels: Seq<LevelView>, p: Price) -> bool {
    exists|k: int| 0 <= k < levels.len() && (#[trigger] levels[k]).price == p
}

/// The quantity resting at price `p`, zero where no level sits there.
pub open spec fn depth_at(levels: Seq<LevelView>, p: Price) -> nat
    decreases levels.len(),
{
    if levels.len() == 0 {
        0
    } else if levels.last().price == p {
        volume(levels.last().orders)
    } else {
        depth_at(levels.drop_last(), p)
    }
}

/// The quantity resting over all of `levels`.
pub open spec fn side_volume(levels: Seq<LevelView>) -> nat
    decreases levels.len(),
{
    if levels.len() == 0 {
        0
    } else {
        side_volume(levels.drop_last()) + volume(levels.last().orders)
    }
}

/// What is left of an incoming quantity `t` once the first `j` levels have
/// been matched against it.
pub open spec fn remaining(levels: Seq<LevelView>, t: nat, j: int) -> nat {
    (t - min(t as int, side_volume(levels.take(j)) as int)) as nat
}

/// `new` is the side `old` after `o` came to rest at price `p`: at the back of
/// the queue of the level at `p` where there is one, else as the only order of
/// a new level at `p`.
pub open spec fn rested(old: Seq<LevelView>, new: Seq<LevelView>, p: Price, o: OrderView) -> bool {
    &&& has_level(old, p) ==> exists|k: int|
        0 <= k < old.len() && (#[trigger] old[k]).price == p && new == old.update(
            k,
            LevelView { price: p, orders: old[k].orders.push(o) },
        )
    &&& !has_level(old, p) ==> exists|k: int|
        0 <= k <= old.len() && new == old.insert(k, LevelView { price: p, orders: seq![o] })
}

/// `new` is the side `old` after an incoming quantity `t` was matched against
/// it best price first, and front to back within each level.
pub open spec fn side_filled(old: Seq<LevelView>, new: Seq<LevelView>, t: nat) -> bool {
    &&& new.len() == old.len()
    &&& forall|j: int|
        0 <= j < old.len() ==> (#[trigger] new[j]).price == old[j].price && queue_filled(
            old[j].orders,
            new[j].orders,
            remaining(old, t, j),
        )
}

/// `new` is the side `old` after an incoming quantity `t` was matched against
/// the level at price `p` alone, `left` being what remained of it.
pub open spec fn matched_at(
    old: Seq<LevelView>,
    new: Seq<LevelView>,
    p: Price,
    t: nat,
    left: nat,
) -> bool {
    &&& has_level(old, p) ==> exists|k: int|
        {
            &&& 0 <= k < old.len()
            &&& (#[trigger] old[k]).price == p
            &&& new.len() == old.len()
            &&& forall|j: int| 0 <= j < old.len() && j != k ==> #[trigger] new[j] == old[j]
            &&& new[k].price == p
            &&& queue_filled(old[k].orders, new[k].orders, t)
            &&& left == t - min(t as int, volume(old[k].orders) as int)
        }
    &&& !has_level(old, p) ==> new == old && left == t
}

/// The views of a sequence of levels.
pub open spec fn levels_view(v: Seq<PriceLevel>) -> Seq<LevelView> {
    v.map_values(|l: PriceLevel| l@)
}

/// What a book is: its bid levels and its ask levels, each best price first.
pub struct BookView {
    pub bids: Seq<LevelView>,
    pub asks: Seq<LevelView>,
}

impl BookView {
    /// The levels of side `s`.
    pub open spec fn side(self, s: OrderType) -> Seq<LevelView> {
        match s {
            OrderType::Bid => self.bids,
            OrderType::Ask => self.asks,
        }
    }

    /// Both sides are well formed.
    pub open spec fn wf(self) -> bool {
        side_wf(self.bids, OrderType::Bid) && side_wf(self.asks, OrderType::Ask)
    }
}

/// A limit order book for one instrument. Each side keeps its levels best
/// price first. Levels are never removed: one whose orders have all been
/// filled stays in place with zero volume.
#[derive(Debug)]
pub struct Orderbook {
    bids: Vec<PriceLevel>,
    asks: Vec<PriceLevel>,
}

impl View for Orderbook {
    type V = BookView;

    closed spec fn view(&self) -> BookView {
        BookView { bids: levels_view(self.bids@), asks: levels_view(self.asks@) }
    }
}

proof fn lemma_depth_absent(levels: Seq<LevelView>, p: Price)
    requires
        !has_level(levels, p),
    ensures
        depth_at(levels, p) == 0,
    decreases levels.len(),
{
    if levels.len() > 0 {
        assert(levels.last() == levels[levels.len() - 1]);
        let d = levels.drop_last();
        assert forall|k: int| 0 <= k < d.len() implies (#[trigger] d[k]).price != p by {
            assert(d[k] == levels[k]);
        }
        lemma_depth_absent(d, p);
    }
}

proof fn lemma_depth_at_index(levels: Seq<LevelView>, s: OrderType, k: int)
    requires
        side_wf(levels, s),
        0 <= k < levels.len(),
    ensures
        depth_at(levels, levels[k].price) == volume(levels[k].orders),
    decreases levels.len(),
{
    let n = levels.len();
    if k < n - 1 {
        assert(ahead(s, levels[k].price, levels[n - 1].price));
        let d = levels.drop_last();
        assert(d[k] == levels[k]);
        assert forall|i: int, j: int| 0 <= i < j < d.len() implies ahead(
            s,
            #[trigger] d[i].price,
            #[trigger] d[j].price,
        ) by {
            assert(d[i] == levels[i] && d[j] == levels[j]);
        }
        assert forall|i: int| 0 <= i < d.len() implies (#[trigger] d[i]).orders.len() > 0 by {
            assert(d[i] == levels[i]);
        }
        assert forall|i: int, m: int| 0 <= i < d.len() && 0 <= m < d[i].orders.len() implies (
        #[trigger] d[i].orders[m]).side == s by {
            assert(d[i] == levels[i]);
        }
        lemma_depth_at_index(d, s, k);
    }
}

/// Whether, on side `s`, price `a` comes strictly before price `b`.
fn is_ahead(s: OrderType, a: &Price, b: &Price) -> (r: bool)
    ensures
        r == ahead(s, *a, *b),
{
    match s {
        OrderType::Bid => a.is_above(b),
        OrderType::Ask => a.is_below(b),
    }
}

/// The position of the level at `price`, if there is one.
fn find_level(levels: &Vec<PriceLevel>, price: Price) -> (r: Option<usize>)
    ensures
        match r {
            Some(k) => k < levels@.len() && levels_view(levels@)[k as int].price == price,
            None => !has_level(levels_view(levels@), price),
        },
{
    let mut i: usize = 0;
    while i < levels.len()
        invariant
            0 <= i <= levels@.len(),
            forall|j: int| 0 <= j < i ==> (#[trigger] levels_view(levels@)[j]).price != price,
        decreases levels@.len() - i,
    {
        if levels[i].price() == price {
            return Some(i);
        }
        i = i + 1;
    }
    None
}

/// Puts `order` to rest at `price` on a side of kind `s`.
fn rest_in_side(levels: &mut Vec<PriceLevel>, s: OrderType, price: Price, order: Order)
    requires
        side_wf(levels_view(old(levels)@), s),
        order@.side == s,
    ensures
        side_wf(levels_view(final(levels)@), s),
        rested(levels_view(old(levels)@), levels_view(final(levels)@), price, order@),
        depth_at(levels_view(final(levels)@), price) == depth_at(levels_view(old(levels)@), price)
            + order@.size,
{
    let ghost old_v = levels_view(levels@);
    let ghost o = order@;
    let mut i: usize = 0;
    while i < levels.len() && is_ahead(s, &levels[i].price(), &price)
        invariant
            0 <= i <= levels@.len(),
            levels_view(levels@) == old_v,
            forall|j: int| 0 <= j < i ==> ahead(s, (#[trigger] old_v[j]).price, price),
        decreases levels@.len() - i,
    {
        i = i + 1;
    }
    if i < levels.len() && levels[i].price() == price {
        levels[i].add_order(order);
        proof {
            let nl = LevelView { price, orders: old_v[i as int].orders.push(o) };
            assert(levels_view(levels@) =~= old_v.update(i as int, nl));
            let new_v = levels_view(levels@);
            assert(has_level(old_v, price));
            assert forall|k: int| 0 <= k < old_v.len() && (#[trigger] old_v[k]).price == price
                implies k == i by {
                if k != i {
                    if k < i {
                        assert(ahead(s, old_v[k].price, old_v[i as int].price));
                    } else {
                        assert(ahead(s, old_v[i as int].price, old_v[k].price));
                    }
                }
            }
            assert forall|a: int, k: int|
                0 <= a < new_v.len() && 0 <= k < new_v[a].orders.len() implies (
            #[trigger] new_v[a].orders[k]).side == s by {
                if a == i {
                    if k < old_v[a].orders.len() {
                        assert(new_v[a].orders[k] == old_v[a].orders[k]);
                    }
                } else {
                    assert(new_v[a] == old_v[a]);
                }
            }
            assert forall|a: int, b: int| 0 <= a < b < new_v.len() implies ahead(
                s,
                #[trigger] new_v[a].price,
                #[trigger] new_v[b].price,
            ) by {
                assert(ahead(s, old_v[a].price, old_v[b].price));
            }
            lemma_depth_at_index(old_v, s, i as int);
            lemma_depth_at_index(new_v, s, i as int);
            lemma_volume_push(old_v[i as int].orders, o);
        }
    } else {
        let mut level = PriceLevel::new(price);
        level.add_order(order);
        levels.insert(i, level);
        proof {
            let nl = LevelView { price, orders: seq![o] };
            assert(seq![o] =~= Seq::<OrderView>::empty().push(o));
            lemma_volume_push(Seq::<OrderView>::empty(), o);
            assert(levels_view(levels@) =~= old_v.insert(i as int, nl));
            let new_v = levels_view(levels@);
            if i < old_v.len() {
                assert(!ahead(s, old_v[i as int].price, price));
                assert(old_v[i as int].price != price);
                lemma_price_value_eq(price, old_v[i as int].price);
                assert(ahead(s, price, old_v[i as int].price));
            }
            assert forall|k: int| 0 <= k < old_v.len() implies (#[trigger] old_v[k]).price
                != price by {
                if k > i {
                    assert(ahead(s, old_v[i as int].price, old_v[k].price));
                }
            }
            assert(!has_level(old_v, price));
            assert forall|a: int, k: int|
                0 <= a < new_v.len() && 0 <= k < new_v[a].orders.len() implies (
            #[trigger] new_v[a].orders[k]).side == s by {
                if a < i {
                    assert(new_v[a] == old_v[a]);
                } else if a > i {
                    assert(new_v[a] == old_v[a - 1]);
                }
            }
            assert forall|a: int| 0 <= a < new_v.len() implies (#[trigger] new_v[a]).orders.len()
                > 0 by {
                if a < i {
                    assert(new_v[a] == old_v[a]);
                } else if a > i {
                    assert(new_v[a] == old_v[a - 1]);
                }
            }
            assert forall|a: int, b: int| 0 <= a < b < new_v.len() implies ahead(
                s,
                #[trigger] new_v[a].price,
                #[trigger] new_v[b].price,
            ) by {
                if b < i {
                    assert(ahead(s, old_v[a].price, old_v[b].price));
                } else if b == i {
                    assert(ahead(s, old_v[a].price, price));
                } else if a < i {
                    assert(ahead(s, old_v[a].price, price));
                    assert(new_v[b] == old_v[b - 1]);
                    if b - 1 > i {
                        assert(ahead(s, old_v[i as int].price, old_v[b - 1].price));
                    }
                } else if a == i {
                    assert(new_v[b] == old_v[b - 1]);
                    if b - 1 > i {
                        assert(ahead(s, old_v[i as int].price, old_v[b - 1].price));
                    }
                } else {
                    assert(ahead(s, old_v[a - 1].price, old_v[b - 1].price));
                }
            }
            lemma_depth_absent(old_v, price);
            lemma_depth_at_index(new_v, s, i as int);
        }
    }
}

proof fn lemma_side_volume_take_next(levels: Seq<LevelView>, j: int)
    requires
        0 <= j < levels.len(),
    ensures
        side_volume(levels.take(j + 1)) == side_volume(levels.take(j)) + volume(levels[j].orders),
{
    assert(levels.take(j + 1).drop_last() =~= levels.take(j));
}

proof fn lemma_side_volume_take_mono(levels: Seq<LevelView>, i: int, j: int)
    requires
        0 <= i <= j <= levels.len(),
    ensures
        side_volume(levels.take(i)) <= side_volume(levels.take(j)),
    decreases j - i,
{
    if i < j {
        lemma_side_volume_take_mono(levels, i, j - 1);
        lemma_side_volume_take_next(levels, j - 1);
    }
}

proof fn lemma_queue_filled_nothing(q: Seq<OrderView>)
    ensures
        queue_filled(q, q, 0),
{
    assert forall|i: int| 0 <= i < q.len() implies #[trigger] absorbed(q, 0, i + 1) - absorbed(
        q,
        0,
        i,
    ) == 0 by {}
}

proof fn lemma_side_filled_wf(old: Seq<LevelView>, new: Seq<LevelView>, t: nat, s: OrderType)
    requires
        side_wf(old, s),
        side_filled(old, new, t),
    ensures
        side_wf(new, s),
{
    assert forall|a: int, b: int| 0 <= a < b < new.len() implies ahead(
        s,
        #[trigger] new[a].price,
        #[trigger] new[b].price,
    ) by {
        assert(ahead(s, old[a].price, old[b].price));
    }
    assert forall|a: int| 0 <= a < new.len() implies (#[trigger] new[a]).orders.len() > 0 by {
        assert(old[a].orders.len() > 0);
    }
    assert forall|a: int, k: int| 0 <= a < new.len() && 0 <= k < new[a].orders.len() implies (
    #[trigger] new[a].orders[k]).side == s by {
        assert(new[a].price == old[a].price);
        assert(old[a].orders[k].side == s);
    }
}

/// Matches `target` against `levels` in their order, until it is filled or
/// the levels are exhausted.
fn fill_side(levels: &mut Vec<PriceLevel>, target: &mut Order)
    ensures
        side_filled(levels_view(old(levels)@), levels_view(final(levels)@), old(target)@.size),
        final(target)@.id == old(target)@.id,
        final(target)@.side == old(target)@.side,
        final(target)@.size == remaining(
            levels_view(old(levels)@),
            old(target)@.size,
            old(levels)@.len() as int,
        ),
{
    let ghost old_v = levels_view(levels@);
    let ghost t = target@.size;
    let n = levels.len();
    let mut i: usize = 0;
    while i < n && !target.is_filled()
        invariant
            n == levels@.len() == old_v.len(),
            0 <= i <= n,
            target@.id == old(target)@.id,
            target@.side == old(target)@.side,
            target@.size == remaining(old_v, t, i as int),
            forall|j: int|
                0 <= j < i ==> (#[trigger] levels_view(levels@)[j]).price == old_v[j].price
                    && queue_filled(old_v[j].orders, levels_view(levels@)[j].orders, remaining(old_v, t, j)),
            forall|j: int| i <= j < n ==> #[trigger] levels_view(levels@)[j] == old_v[j],
        decreases n - i,
    {
        proof {
            lemma_side_volume_take_next(old_v, i as int);
            lemma_side_volume_take_mono(old_v, 0, i as int);
        }
        assert(levels_view(levels@)[i as int] == old_v[i as int]);
        let ghost before = levels_view(levels@);
        levels[i].fill_order(target);
        assert(levels_view(levels@) =~= before.update(i as int, levels@[i as int]@));
        i = i + 1;
    }
    proof {
        let new_v = levels_view(levels@);
        assert forall|j: int| 0 <= j < n implies (#[trigger] new_v[j]).price == old_v[j].price
            && queue_filled(old_v[j].orders, new_v[j].orders, remaining(old_v, t, j)) by {
            if j >= i {
                lemma_side_volume_take_mono(old_v, i as int, j);
                lemma_queue_filled_nothing(old_v[j].orders);
            }
        }
        lemma_side_volume_take_mono(old_v, i as int, n as int);
    }
}

/// Matches `target` against the level at `price` alone, where there is one,
/// and tells whether there was.
fn fill_at_price(levels: &mut Vec<PriceLevel>, target: &mut Order, price: Price) -> (found: bool)
    ensures
        found == has_level(levels_view(old(levels)@), price),
        matched_at(
            levels_view(old(levels)@),
            levels_view(final(levels)@),
            price,
            old(target)@.size,
            final(target)@.size,
        ),
        final(target)@.id == old(target)@.id,
        final(target)@.side == old(target)@.side,
{
    match find_level(levels, price) {
        Some(k) => {
            let ghost old_v = levels_view(levels@);
            levels[k].fill_order(target);
            proof {
                assert(levels_view(levels@) =~= old_v.update(k as int, levels@[k as int]@));
                let new_v = levels_view(levels@);
                assert forall|j: int| 0 <= j < old_v.len() && j != k implies #[trigger] new_v[j]
                    == old_v[j] by {}
                assert(old_v[k as int].price == price);
            }
            true
        },
        None => false,
    }
}

/// Reading a side's sorted view twice with no change to the book in between
/// gives the same levels, in the same order, with the same prices and volumes.
pub proof fn lemma_sorted_view_repeats(
    book: BookView,
    s: OrderType,
    first: Seq<PriceLevel>,
    second: Seq<PriceLevel>,
)
    requires
        levels_view(first) == book.side(s),
        levels_view(second) == book.side(s),
    ensures
        first.len() == second.len(),
        forall|i: int|
            0 <= i < first.len() ==> (#[trigger] first[i])@.price == second[i]@.price && volume(
                first[i]@.orders,
            ) == volume(second[i]@.orders),
{
    assert(levels_view(first).len() == first.len());
    assert(levels_view(second).len() == second.len());
    assert forall|i: int| 0 <= i < first.len() implies (#[trigger] first[i])@.price
        == second[i]@.price && volume(first[i]@.orders) == volume(second[i]@.orders) by {
        assert(levels_view(first)[i] == first[i]@);
        assert(levels_view(second)[i] == second[i]@);
    }
}

impl Orderbook {
    /// An empty book.
    pub fn new() -> (r: Orderbook)
        ensures
            r@.wf(),
            r@.bids == Seq::<LevelView>::empty(),
            r@.asks == Seq::<LevelView>::empty(),
    {
        let r = Orderbook { bids: Vec::new(), asks: Vec::new() };
        assert(r@.bids =~= Seq::<LevelView>::empty());
        assert(r@.asks =~= Seq::<LevelView>::empty());
        r
    }

    /// Puts `order` to rest at `price` on its own side, behind the orders
    /// already there; the level is created when it is the first at that price.
    pub fn add_limit_order(&mut self, price: Price, order: Order)
        requires
            old(self)@.wf(),
        ensures
            final(self)@.wf(),
            final(self)@.side(opposite(order@.side)) == old(self)@.side(opposite(order@.side)),
            rested(old(self)@.side(order@.side), final(self)@.side(order@.side), price, order@),
            depth_at(final(self)@.side(order@.side), price) == depth_at(
                old(self)@.side(order@.side),
                price,
            ) + order@.size,
    {
        match order.side() {
            OrderType::Bid => rest_in_side(&mut self.bids, OrderType::Bid, price, order),
            OrderType::Ask => rest_in_side(&mut self.asks, OrderType::Ask, price, order),
        }
    }

    /// Matches `market_order` against the opposite side, best price first and
    /// earliest order first within a price, until it is filled or that side is
    /// exhausted. Whatever is left of it does not rest in the book.
    pub fn fill_market_order(&mut self, market_order: &mut Order)
        requires
            old(self)@.wf(),
        ensures
            final(self)@.wf(),
            final(self)@.side(old(market_order)@.side) == old(self)@.side(old(market_order)@.side),
            side_filled(
                old(self)@.side(opposite(old(market_order)@.side)),
                final(self)@.side(opposite(old(market_order)@.side)),
                old(market_order)@.size,
            ),
            final(market_order)@.id == old(market_order)@.id,
            final(market_order)@.side == old(market_order)@.side,
            final(market_order)@.size == old(market_order)@.size - min(
                old(market_order)@.size as int,
                side_volume(old(self)@.side(opposite(old(market_order)@.side))) as int,
            ),
    {
        let ghost before = self@;
        match market_order.side() {
            OrderType::Bid => {
                fill_side(&mut self.asks, market_order);
                proof {
                    lemma_side_filled_wf(before.asks, self@.asks, old(market_order)@.size, OrderType::Ask);
                    assert(before.asks.take(before.asks.len() as int) =~= before.asks);
                }
            },
            OrderType::Ask => {
                fill_side(&mut self.bids, market_order);
                proof {
                    lemma_side_filled_wf(before.bids, self@.bids, old(market_order)@.size, OrderType::Bid);
                    assert(before.bids.take(before.bids.len() as int) =~= before.bids);
                }
            },
        }
    }

    /// Matches `limit_order` against the opposite side's level at exactly
    /// `price`, where there is one; then, unless that filled it, puts what is
    /// left of it to rest at `price` on its own side.
    pub fn fill_limit_order(&mut self, limit_order: &mut Order, price: Price)
        requires
            old(self)@.wf(),
        ensures
            final(self)@.wf(),
            final(limit_order)@.id == old(limit_order)@.id,
            final(limit_order)@.side == old(limit_order)@.side,
            matched_at(
                old(self)@.side(opposite(old(limit_order)@.side)),
                final(self)@.side(opposite(old(limit_order)@.side)),
                price,
                old(limit_order)@.size,
                final(limit_order)@.size,
            ),
            !has_level(old(self)@.side(opposite(old(limit_order)@.side)), price)
                || final(limit_order)@.size > 0 ==> rested(
                old(self)@.side(old(limit_order)@.side),
                final(self)@.side(old(limit_order)@.side),
                price,
                final(limit_order)@,
            ),
            has_level(old(self)@.side(opposite(old(limit_order)@.side)), price)
                && final(limit_order)@.size == 0 ==> final(self)@.side(old(limit_order)@.side)
                == old(self)@.side(old(limit_order)@.side),
    {
        let ghost before = self@;
        let found = match limit_order.side() {
            OrderType::Bid => fill_at_price(&mut self.asks, limit_order, price),
            OrderType::Ask => fill_at_price(&mut self.bids, limit_order, price),
        };
        let ghost matched = self@;
        proof {
            let s = old(limit_order)@.side;
            let opp = opposite(s);
            let t = old(limit_order)@.size;
            if has_level(before.side(opp), price) {
                let k = choose|k: int|
                    {
                        &&& 0 <= k < before.side(opp).len()
                        &&& (#[trigger] before.side(opp)[k]).price == price
                        &&& matched.side(opp).len() == before.side(opp).len()
                        &&& forall|j: int|
                            0 <= j < before.side(opp).len() && j != k ==> #[trigger] matched.side(
                                opp,
                            )[j] == before.side(opp)[j]
                        &&& matched.side(opp)[k].price == price
                        &&& queue_filled(before.side(opp)[k].orders, matched.side(opp)[k].orders, t)
                        &&& limit_order@.size == t - min(t as int, volume(before.side(opp)[k].orders) as int)
                    };
                let old_s = before.side(opp);
                let new_s = matched.side(opp);
                assert forall|a: int, b: int| 0 <= a < b < new_s.len() implies ahead(
                    opp,
                    #[trigger] new_s[a].price,
                    #[trigger] new_s[b].price,
                ) by {
                    assert(ahead(opp, old_s[a].price, old_s[b].price));
                }
                assert forall|a: int| 0 <= a < new_s.len() implies (#[trigger] new_s[a]).orders.len()
                    > 0 by {
                    assert(old_s[a].orders.len() > 0);
                }
                assert forall|a: int, m: int|
                    0 <= a < new_s.len() && 0 <= m < new_s[a].orders.len() implies (
                #[trigger] new_s[a].orders[m]).side == opp by {
                    if a != k {
                        assert(new_s[a] == old_s[a]);
                    }
                    assert(old_s[a].orders[m].side == opp);
                }
            }
            assert(matched.wf());
        }
        if !found || !limit_order.is_filled() {
            let rest = limit_order.clone();
            self.add_limit_order(price, rest);
        }
    }

    /// The ask levels, lowest price first.
    pub fn sorted_asks(&self) -> (r: &[PriceLevel])
        requires
            self@.wf(),
        ensures
            levels_view(r@) == self@.asks,
            forall|i: int, j: int| 0 <= i < j < r@.len() ==> (#[trigger] r@[i])@.price@ < (
            #[trigger] r@[j])@.price@,
    {
        let r = self.asks.as_slice();
        assert forall|i: int, j: int| 0 <= i < j < r@.len() implies (#[trigger] r@[i])@.price@ < (
        #[trigger] r@[j])@.price@ by {
            assert(ahead(OrderType::Ask, self@.asks[i].price, self@.asks[j].price));
        }
        r
    }

    /// The bid levels, highest price first.
    pub fn sorted_bids(&self) -> (r: &[PriceLevel])
        requires
            self@.wf(),
        ensures
            levels_view(r@) == self@.bids,
            forall|i: int, j: int| 0 <= i < j < r@.len() ==> (#[trigger] r@[i])@.price@ > (
            #[trigger] r@[j])@.price@,
    {
        let r = self.bids.as_slice();
        assert forall|i: int, j: int| 0 <= i < j < r@.len() implies (#[trigger] r@[i])@.price@ > (
        #[trigger] r@[j])@.price@ by {
            assert(ahead(OrderType::Bid, self@.bids[i].price, self@.bids[j].price));
        }
        r
    }
}

} // verus!
