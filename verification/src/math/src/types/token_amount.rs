//! An amount of a token.

use vstd::prelude::*;

verus! {

/// An amount of a token: a decimal with 0 fractional digits, stored as its value times 10^0.
#[derive(Clone, Copy, Debug, Default, PartialEq, Eq, PartialOrd, Structural)]
pub struct TokenAmount(pub u128);

impl TokenAmount {
    /// The scale: number of fractional digits.
    pub open spec fn scale() -> nat {
        0
    }

    /// The number whose scaled representation is `v`.
    pub fn new(v: u128) -> (res: TokenAmount)
        ensures
            res.0 == v,
    {
        TokenAmount(v)
    }

    /// The scaled representation.
    pub fn get(&self) -> (res: u128)
        ensures
            res == self.0,
    {
        self.0
    }

    /// Whether the value is zero.
    pub fn is_zero(&self) -> (res: bool)
        ensures
            res == (self.0 == 0),
    {
        self.0 == 0
    }

}

} // verus!
