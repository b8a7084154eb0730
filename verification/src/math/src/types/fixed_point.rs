//! A plain fixed-point number.

use vstd::prelude::*;

verus! {

/// A plain fixed-point number: a decimal with 12 fractional digits, stored as its value times 10^12.
#[derive(Clone, Copy, Debug, Default, PartialEq, Eq, PartialOrd, Structural)]
pub struct FixedPoint {
    pub v: u128,
}

impl FixedPoint {
    /// The scale: number of fractional digits.
    pub open spec fn scale() -> nat {
        12
    }

    /// The number whose scaled representation is `v`.
    pub fn new(v: u128) -> (res: FixedPoint)
        ensures
            res.v == v,
    {
        FixedPoint { v: v }
    }

    /// The scaled representation.
    pub fn get(&self) -> (res: u128)
        ensures
            res == self.v,
    {
        self.v
    }

}

} // verus!
