//! Exact fixed-point prices.
use vstd::prelude::*;

use crate::OrderError;

verus! {

/// The largest number of decimal places a price may carry.
pub const MAX_SCALE: u32 = 18;

/// `10^n`.
pub open spec fn pow10(n: nat) -> int
    decreases n,
{
    if n == 0 {
        1
    } else {
        10 * pow10((n - 1) as nat)
    }
}

/// An exact decimal price, held as a whole number of `10^-MAX_SCALE` units.
/// Two prices are equal exactly when their values are equal, whatever the
/// number of decimal places they were written with.
#[derive(Debug, Clone, Copy, PartialEq, Eq, Structural)]
pub struct Price {
    units: i128,
}

impl View for Price {
    type V = int;

    /// The price's value, in units of `10^-MAX_SCALE`.
    closed spec fn view(&self) -> int {
        self.units as int
    }
}

impl Price {

    /// The price `mantissa * 10^-scale`.
    pub fn new(mantissa: i64, scale: u32) -> (r: Result<Price, OrderError>)
        ensures
            scale > MAX_SCALE <==> r == Err::<Price, OrderError>(OrderError::UnsupportedScale),
            scale <= MAX_SCALE ==> r is Ok && r->Ok_0@ == mantissa as int * pow10(
                (MAX_SCALE - scale) as nat,
            ),
    {
        if scale > MAX_SCALE {
            return Err(OrderError::UnsupportedScale);
        }
        let mut units: i128 = mantissa as i128;
        let mut k: u32 = scale;
        proof {
            lemma_pow10_bound((MAX_SCALE - scale) as nat);
        }
        while k < MAX_SCALE
            invariant
                scale <= k <= MAX_SCALE,
                units == mantissa as int * pow10((k - scale) as nat),
                pow10((MAX_SCALE - scale) as nat) <= 1_000_000_000_000_000_000,
            decreases MAX_SCALE - k,
        {
            proof {
                let j = (k - scale) as nat;
                lemma_pow10_le(j + 1, (MAX_SCALE - scale) as nat);
                lemma_pow10_positive(j + 1);
                let p = pow10(j + 1);
                assert(pow10(j + 1) == 10 * pow10(j));
                assert(-9223372036854775808 <= mantissa <= 9223372036854775807);
                assert(0 < p <= 1_000_000_000_000_000_000);
                assert(-9223372036854775808 * p <= mantissa as int * p <= 9223372036854775807 * p)
                    by (nonlinear_arith)
                    requires
                        -9223372036854775808 <= mantissa <= 9223372036854775807,
                        0 < p,
                ;
                assert(9223372036854775807 * p <= 9223372036854775807 * 1_000_000_000_000_000_000)
                    by (nonlinear_arith)
                    requires
                        p <= 1_000_000_000_000_000_000,
                ;
                assert(9223372036854775808 * p <= 9223372036854775808 * 1_000_000_000_000_000_000)
                    by (nonlinear_arith)
                    requires
                        p <= 1_000_000_000_000_000_000,
                ;
                assert(units * 10 == mantissa as int * p) by (nonlinear_arith)
                    requires
                        units == mantissa as int * pow10(j),
                        p == 10 * pow10(j),
                ;
            }
            units = units * 10;
            k = k + 1;
        }
        Ok(Price { units })
    }

    /// The price's value, in units of `10^-MAX_SCALE`.
    pub fn units(&self) -> (r: i128)
        ensures
            r as int == self@,
    {
        self.units
    }

    /// Whether this price is strictly below `other`.
    pub fn is_below(&self, other: &Price) -> (r: bool)
        ensures
            r == (self@ < other@),
    {
        self.units < other.units
    }

    /// Whether this price is strictly above `other`.
    pub fn is_above(&self, other: &Price) -> (r: bool)
        ensures
            r == (self@ > other@),
    {
        self.units > other.units
    }
}

/// Prices with the same value are the same price.
pub proof fn lemma_price_value_eq(a: Price, b: Price)
    ensures
        a@ == b@ <==> a == b,
{
}

proof fn lemma_pow10_positive(n: nat)
    ensures
        pow10(n) > 0,
    decreases n,
{
    if n > 0 {
        lemma_pow10_positive((n - 1) as nat);
    }
}

proof fn lemma_pow10_le(a: nat, b: nat)
    requires
        a <= b,
    ensures
        pow10(a) <= pow10(b),
    decreases b,
{
    lemma_pow10_positive(b);
    if a < b {
        lemma_pow10_le(a, (b - 1) as nat);
    }
}

proof fn lemma_pow10_bound(n: nat)
    requires
        n <= 18,
    ensures
        pow10(n) <= 1_000_000_000_000_000_000,
{
    lemma_pow10_le(n, 18);
    reveal_with_fuel(pow10, 19);
}

} // verus!
