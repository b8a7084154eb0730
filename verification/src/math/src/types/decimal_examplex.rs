//! An example decimal type.

use vstd::prelude::*;

verus! {

/// An example decimal type: a decimal with 28 fractional digits, stored as its value times 10^28.
#[derive(Clone, Copy, Debug, Default, PartialEq, Eq, PartialOrd, Structural)]
pub struct DecimalExampleX {
    pub v: u128,
}

impl DecimalExampleX {
    /// The scale: number of fractional digits.
    pub open spec fn scale() -> nat {
        28
    }

    /// The number whose scaled representation is `v`.
    pub fn new(v: u128) -> (res: DecimalExampleX)
        ensures
            res.v == v,
    {
        DecimalExampleX { v: v }
    }

    /// The scaled representation.
    pub fn get(&self) -> (res: u128)
        ensures
            res == self.v,
    {
        self.v
    }

}

} // verus!
