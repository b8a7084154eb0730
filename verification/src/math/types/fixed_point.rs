//! A 24-decimal fixed-point number over a 256-bit integer.
use crate::math::consts::SQRT_PRICE_ONE;
use crate::math::uint::{base256, U256};
use vstd::arithmetic::div_mod::lemma_div_denominator;
use vstd::prelude::*;

verus! {

/// A decimal with 24 fractional digits, stored as its value times 10^24.
#[derive(Clone, Copy, Debug, PartialEq, Eq, Structural)]
pub struct FixedPoint(pub U256);

impl FixedPoint {
    /// The number whose scaled representation is `v`.
    pub fn new(v: U256) -> (res: FixedPoint)
        ensures
            res.0 == v,
    {
        FixedPoint(v)
    }

    /// The scaled representation.
    pub fn get(&self) -> (res: U256)
        ensures
            res == self.0,
    {
        self.0
    }

    /// The number 1, i.e. 10^24 in scaled form.
    pub fn one() -> (res: FixedPoint)
        ensures
            res.0@ == SQRT_PRICE_ONE as nat,
    {
        FixedPoint(U256::from_u128(SQRT_PRICE_ONE))
    }

    /// The product, rounded down to 24 decimals.
    pub fn mul(self, rhs: FixedPoint) -> (res: FixedPoint)
        requires
            self.0@ * rhs.0@ < base256(),
        ensures
            res.0@ == self.0@ * rhs.0@ / (SQRT_PRICE_ONE as nat),
    {
        let half: u128 = 1_000000_000000;
        let prod = self.0.checked_mul(&rhs.0).unwrap();
        let q = prod.div_u128(half).div_u128(half);
        proof {
            lemma_div_denominator((self.0@ * rhs.0@) as int, half as int, half as int);
        }
        FixedPoint(q)
    }
}

} // verus!
