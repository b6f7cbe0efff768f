//! A FIFO queue of orders resting at one price.
use vstd::math::min;
use vstd::prelude::*;

use crate::order::{Order, OrderView};
use crate::price::Price;

verus! {

/// The total quantity still to trade in `q`.
pub open spec fn volume(q: Seq<OrderView>) -> nat
    decreases q.len(),
{
    if q.len() == 0 {
        0
    } else {
        volume(q.drop_last()) + q.last().size
    }
}

/// How much of an incoming quantity `t` the first `i` orders of `q` absorb.
pub open spec fn absorbed(q: Seq<OrderView>, t: nat, i: int) -> int {
    min(t as int, volume(q.take(i)) as int)
}

/// `new` is the queue `old` after an incoming quantity `t` was matched against
/// it front to back: each order, in turn, gives up as much as is left of `t`.
pub open spec fn queue_filled(old: Seq<OrderView>, new: Seq<OrderView>, t: nat) -> bool {
    &&& new.len() == old.len()
    &&& forall|i: int|
        0 <= i < old.len() ==> {
            &&& (#[trigger] new[i]).id == old[i].id
            &&& new[i].side == old[i].side
            &&& new[i].size == old[i].size - (absorbed(old, t, i + 1) - absorbed(old, t, i))
        }
}

/// What a level is: its price and its queue, front first.
pub struct LevelView {
    pub price: Price,
    pub orders: Seq<OrderView>,
}

/// The orders resting at one price on one side, earliest first.
#[derive(Debug)]
pub struct PriceLevel {
    price: Price,
    orders: Vec<Order>,
}

/// The views of a sequence of orders.
pub open spec fn orders_view(v: Seq<Order>) -> Seq<OrderView> {
    v.map_values(|o: Order| o@)
}

impl View for PriceLevel {
    type V = LevelView;

    closed spec fn view(&self) -> LevelView {
        LevelView { price: self.price, orders: orders_view(self.orders@) }
    }
}

/// Appending an order adds its quantity to the volume.
pub proof fn lemma_volume_push(q: Seq<OrderView>, o: OrderView)
    ensures
        volume(q.push(o)) == volume(q) + o.size,
{
    assert(q.push(o).drop_last() =~= q);
}

/// The first `i + 1` orders hold the first `i` and order `i`.
pub proof fn lemma_volume_take_next(q: Seq<OrderView>, i: int)
    requires
        0 <= i < q.len(),
    ensures
        volume(q.take(i + 1)) == volume(q.take(i)) + q[i].size,
{
    assert(q.take(i + 1).drop_last() =~= q.take(i));
}

/// Taking every order keeps the whole volume.
pub proof fn lemma_volume_take_all(q: Seq<OrderView>)
    ensures
        volume(q.take(q.len() as int)) == volume(q),
{
    assert(q.take(q.len() as int) =~= q);
}

/// A longer prefix holds at least as much volume.
pub proof fn lemma_volume_take_mono(q: Seq<OrderView>, i: int, j: int)
    requires
        0 <= i <= j <= q.len(),
    ensures
        volume(q.take(i)) <= volume(q.take(j)),
    decreases j - i,
{
    if i < j {
        lemma_volume_take_mono(q, i, j - 1);
        lemma_volume_take_next(q, j - 1);
    }
}

/// Time priority: when a match takes anything from an order of a queue,
/// every order ahead of it in that queue has been filled completely.
pub proof fn lemma_fifo_priority(old: Seq<OrderView>, new: Seq<OrderView>, t: nat, i: int, j: int)
    requires
        queue_filled(old, new, t),
        0 <= i < j < old.len(),
        new[j].size < old[j].size,
    ensures
        new[i].size == 0,
{
    assert(new[j].id == old[j].id);
    assert(new[i].id == old[i].id);
    lemma_volume_take_mono(old, i + 1, j);
    lemma_volume_take_next(old, i);
}

impl PriceLevel {
    /// An empty level at `price`.
    pub fn new(price: Price) -> (r: PriceLevel)
        ensures
            r@.price == price,
            r@.orders == Seq::<OrderView>::empty(),
    {
        let r = PriceLevel { price, orders: Vec::new() };
        assert(r@.orders =~= Seq::<OrderView>::empty());
        r
    }

    /// The level's price.
    pub fn price(&self) -> (r: Price)
        ensures
            r == self@.price,
    {
        self.price
    }

    /// The number of orders in the queue, filled ones included.
    pub fn len(&self) -> (r: usize)
        ensures
            r == self@.orders.len(),
    {
        self.orders.len()
    }

    /// The order at position `i` of the queue.
    pub fn order(&self, i: usize) -> (r: &Order)
        requires
            i < self@.orders.len(),
        ensures
            r@ == self@.orders[i as int],
    {
        &self.orders[i]
    }

    /// Puts `order` at the back of the queue.
    pub fn add_order(&mut self, order: Order)
        ensures
            final(self)@.price == old(self)@.price,
            final(self)@.orders == old(self)@.orders.push(order@),
    {
        self.orders.push(order);
        assert(orders_view(self.orders@) =~= orders_view(old(self).orders@).push(order@));
    }

    /// Matches `target` against the queue, front to back, until it is filled
    /// or the queue is exhausted. Filled orders stay in place.
    pub fn fill_order(&mut self, target: &mut Order)
        ensures
            final(self)@.price == old(self)@.price,
            queue_filled(old(self)@.orders, final(self)@.orders, old(target)@.size),
            final(target)@.id == old(target)@.id,
            final(target)@.side == old(target)@.side,
            final(target)@.size == old(target)@.size - min(
                old(target)@.size as int,
                volume(old(self)@.orders) as int,
            ),
    {
        let ghost q = self@.orders;
        let ghost t = target@.size;
        let n = self.orders.len();
        let mut i: usize = 0;
        while i < n && !target.is_filled()
            invariant
                n == self.orders.len() == q.len(),
                self.price == old(self).price,
                0 <= i <= n,
                target@.id == old(target)@.id,
                target@.side == old(target)@.side,
                target@.size == t - absorbed(q, t, i as int),
                forall|j: int|
                    0 <= j < i ==> {
                        &&& (#[trigger] self.orders@[j])@.id == q[j].id
                        &&& self.orders@[j]@.side == q[j].side
                        &&& self.orders@[j]@.size == q[j].size - (absorbed(q, t, j + 1)
                            - absorbed(q, t, j))
                    },
                forall|j: int| i <= j < n ==> (#[trigger] self.orders@[j])@ == q[j],
            decreases n - i,
        {
            proof {
                lemma_volume_take_next(q, i as int);
                lemma_volume_take_mono(q, 0, i as int);
            }
            self.orders[i].fill_order(target);
            i = i + 1;
        }
        proof {
            lemma_volume_take_all(q);
            lemma_volume_take_mono(q, i as int, n as int);
            assert forall|j: int| 0 <= j < n implies {
                &&& (#[trigger] self@.orders[j]).id == q[j].id
                &&& self@.orders[j].side == q[j].side
                &&& self@.orders[j].size == q[j].size - (absorbed(q, t, j + 1) - absorbed(q, t, j))
            } by {
                if j >= i {
                    lemma_volume_take_mono(q, i as int, j);
                    lemma_volume_take_mono(q, i as int, j + 1);
                }
            }
        }
    }

    /// The total quantity still to trade at this level.
    pub fn total_volume(&self) -> (r: u128)
        ensures
            r == volume(self@.orders),
    {
        let ghost q = self@.orders;
        let n = self.orders.len();
        let mut sum: u128 = 0;
        let mut i: usize = 0;
        while i < n
            invariant
                n == self.orders.len() == q.len(),
                q == orders_view(self.orders@),
                0 <= i <= n,
                sum == volume(q.take(i as int)),
                sum <= i * 0xffff_ffff_ffff_ffff,
            decreases n - i,
        {
            proof {
                lemma_volume_take_next(q, i as int);
                assert(i * 0xffff_ffff_ffff_ffff + 0xffff_ffff_ffff_ffff <= 0xffff_ffff_ffff_ffff
                    * 0xffff_ffff_ffff_ffff + 0xffff_ffff_ffff_ffff) by (nonlinear_arith)
                    requires
                        i < 0x1_0000_0000_0000_0000,
                ;
            }
            sum = sum + self.orders[i].size() as u128;
            i = i + 1;
            proof {
                assert(sum <= i * 0xffff_ffff_ffff_ffff) by (nonlinear_arith)
                    requires
                        sum <= (i - 1) * 0xffff_ffff_ffff_ffff + 0xffff_ffff_ffff_ffff,
                ;
            }
        }
        proof {
            lemma_volume_take_all(q);
        }
        sum
    }

    /// Compares two levels by price alone.
    pub fn cmp(&self, other: &PriceLevel) -> (r: std::cmp::Ordering)
        ensures
            (r == std::cmp::Ordering::Less) == (self@.price@ < other@.price@),
            (r == std::cmp::Ordering::Equal) == (self@.price@ == other@.price@),
            (r == std::cmp::Ordering::Greater) == (self@.price@ > other@.price@),
    {
        if self.price.is_below(&other.price) {
            std::cmp::Ordering::Less
        } else if self.price.is_above(&other.price) {
            std::cmp::Ordering::Greater
        } else {
            std::cmp::Ordering::Equal
        }
    }
}

} // verus!
