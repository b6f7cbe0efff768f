//! A single-instrument limit order book with verified matching rules.
use vstd::prelude::*;

pub mod book;
pub mod level;
pub mod order;
pub mod price;

pub use book::Orderbook;
pub use level::PriceLevel;
pub use order::{Order, OrderType};
pub use price::Price;

verus! {

/// Why a price or an order could not be built.
#[derive(Debug, Clone, Copy, PartialEq, Eq, Structural)]
pub enum OrderError {
    /// An order must have a positive quantity.
    InvalidQuantity,
    /// A price carries more decimal places than `MAX_SCALE`.
    UnsupportedScale,
}

} // verus!
