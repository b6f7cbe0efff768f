//! Orders and the pairwise fill between a resting order and an incoming one.
use vstd::math::min;
use vstd::prelude::*;

use crate::OrderError;

verus! {

/// The number of characters of an order's identifier.
pub const ID_LEN: usize = 32;

/// The side of the book an order trades on.
#[derive(Debug, Clone, Copy, PartialEq, Eq, Structural)]
pub enum OrderType {
    /// A buy order.
    Bid,
    /// A sell order.
    Ask,
}

/// The side an order of side `s` trades against.
pub open spec fn opposite(s: OrderType) -> OrderType {
    match s {
        OrderType::Bid => OrderType::Ask,
        OrderType::Ask => OrderType::Bid,
    }
}

/// A character of the URL-safe alphabet that identifiers are drawn from.
pub open spec fn is_id_char(c: char) -> bool {
    c == '_' || c == '-' || ('0' <= c && c <= '9') || ('a' <= c && c <= 'z') || ('A' <= c
        && c <= 'Z')
}

/// A well-formed order identifier.
pub open spec fn is_order_id(id: Seq<char>) -> bool {
    id.len() == ID_LEN && forall|i: int| 0 <= i < id.len() ==> is_id_char(#[trigger] id[i])
}

/// What an order is: its identifier, the quantity still to trade, and its side.
pub struct OrderView {
    pub id: Seq<char>,
    pub size: nat,
    pub side: OrderType,
}

/// A unit of trading interest, its quantity counted in whole lots. Its
/// quantity only ever decreases, through
/// `fill_order`; it is filled once the quantity reaches zero.
#[derive(Debug)]
pub struct Order {
    id: String,
    size: u64,
    side: OrderType,
}

impl View for Order {
    type V = OrderView;

    closed spec fn view(&self) -> OrderView {
        OrderView { id: self.id@, size: self.size as nat, side: self.side }
    }
}

impl Clone for Order {
    fn clone(&self) -> (r: Self)
        ensures
            r@ == self@,
    {
        Order { id: self.id.clone(), size: self.size, side: self.side }
    }
}

/// Relies on `nanoid::format` with the thread-local random source and the
/// URL-safe alphabet: it returns `ID_LEN` characters, each taken from that
/// alphabet. Which characters come out is random.
#[verifier::external_body]
fn fresh_id() -> (r: String)
    ensures
        is_order_id(r@),
{
    nanoid::format(nanoid::rngs::default, &nanoid::alphabet::SAFE, ID_LEN)
}

impl Order {
    /// A new order of `size` units on `side`, under a fresh random identifier.
    /// A zero quantity is refused.
    pub fn new(size: u64, side: OrderType) -> (r: Result<Order, OrderError>)
        ensures
            size == 0 <==> r == Err::<Order, OrderError>(OrderError::InvalidQuantity),
            size > 0 ==> r is Ok && r->Ok_0@.size == size && r->Ok_0@.side == side
                && is_order_id(r->Ok_0@.id),
    {
        if size == 0 {
            return Err(OrderError::InvalidQuantity);
        }
        Ok(Order { id: fresh_id(), size, side })
    }

    /// The order's identifier.
    pub fn id(&self) -> (r: &str)
        ensures
            r@ == self@.id,
    {
        self.id.as_str()
    }

    /// The quantity still to trade.
    pub fn size(&self) -> (r: u64)
        ensures
            r == self@.size,
    {
        self.size
    }

    /// The side the order trades on.
    pub fn side(&self) -> (r: OrderType)
        ensures
            r == self@.side,
    {
        self.side
    }

    /// Whether nothing is left to trade.
    pub fn is_filled(&self) -> (r: bool)
        ensures
            r == (self@.size == 0),
    {
        self.size == 0
    }

    /// Trades this order against `order`: both lose the smaller of the two
    /// quantities, so at least one of them ends filled.
    pub fn fill_order(&mut self, order: &mut Order)
        ensures
            final(self)@.id == old(self)@.id,
            final(self)@.side == old(self)@.side,
            final(order)@.id == old(order)@.id,
            final(order)@.side == old(order)@.side,
            final(self)@.size == old(self)@.size - min(old(self)@.size as int, old(order)@.size as int),
            final(order)@.size == old(order)@.size - min(old(self)@.size as int, old(order)@.size as int),
            final(self)@.size == 0 || final(order)@.size == 0,
    {
        if self.size > order.size {
            self.size = self.size - order.size;
            order.size = 0;
        } else {
            order.size = order.size - self.size;
            self.size = 0;
        }
    }
}

} // verus!
