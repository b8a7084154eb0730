//! A fraction such as a fee rate.

use vstd::prelude::*;

verus! {

/// A fraction such as a fee rate: a decimal with 12 fractional digits, stored as its value times 10^12.
#[derive(Clone, Copy, Debug, Default, PartialEq, Eq, PartialOrd, Structural)]
pub struct Percentage {
    pub v: u64,
}

impl Percentage {
    /// The scale: number of fractional digits.
    pub open spec fn scale() -> nat {
        12
    }

    /// The number whose scaled representation is `v`.
    pub fn new(v: u64) -> (res: Percentage)
        ensures
            res.v == v,
    {
        Percentage { v: v }
    }

    /// The scaled representation.
    pub fn get(&self) -> (res: u64)
        ensures
            res == self.v,
    {
        self.v
    }

}

} // verus!
