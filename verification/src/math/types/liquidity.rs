//! Liquidity of a position or pool.
use crate::math::consts::{pow10, pow10_u128};
use vstd::prelude::*;

verus! {

/// Liquidity of a position or pool: a decimal with 6 fractional digits, stored as its value times 10^6.
#[derive(Clone, Copy, Debug, Default, PartialEq, Eq, PartialOrd, Structural)]
pub struct Liquidity(pub u128);

impl Liquidity {
    /// The scale: number of fractional digits.
    pub open spec fn scale() -> nat {
        6
    }

    /// The number whose scaled representation is `v`.
    pub fn new(v: u128) -> (res: Liquidity)
        ensures
            res.0 == v,
    {
        Liquidity(v)
    }

    /// The scaled representation.
    pub fn get(&self) -> (res: u128)
        ensures
            res == self.0,
    {
        self.0
    }

    /// Whether the value is zero.
    pub fn is_zero(&self) -> (res: bool)
        ensures
            res == (self.0 == 0),
    {
        self.0 == 0
    }

    /// The number 1.
    pub fn one() -> (res: Liquidity)
        ensures
            res.0 == pow10(6),
    {
        proof {
            reveal_with_fuel(pow10, 7);
        }
        Liquidity(pow10_u128(6) as u128)
    }

    /// The integer `n`.
    pub fn from_integer(n: u128) -> (res: Liquidity)
        requires
            n * pow10(6) <= u128::MAX,
        ensures
            res.0 == n * pow10(6),
    {
        proof {
            reveal_with_fuel(pow10, 7);
        }
        let one = pow10_u128(6) as u128;
        Liquidity(n * one)
    }

}

} // verus!
