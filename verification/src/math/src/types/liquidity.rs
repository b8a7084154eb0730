//! Liquidity of a position or pool.

use vstd::prelude::*;

verus! {

/// Liquidity of a position or pool: a decimal with 6 fractional digits, stored as its value times 10^6.
#[derive(Clone, Copy, Debug, Default, PartialEq, Eq, PartialOrd, Structural)]
pub struct Liquidity {
    pub v: u128,
}

impl Liquidity {
    /// The scale: number of fractional digits.
    pub open spec fn scale() -> nat {
        6
    }

    /// The number whose scaled representation is `v`.
    pub fn new(v: u128) -> (res: Liquidity)
        ensures
            res.v == v,
    {
        Liquidity { v: v }
    }

    /// The scaled representation.
    pub fn get(&self) -> (res: u128)
        ensures
            res == self.v,
    {
        self.v
    }

}

} // verus!
