//! A fraction such as a fee rate.
use crate::math::consts::{pow10, pow10_u128};
use vstd::prelude::*;

verus! {

/// A fraction such as a fee rate: a decimal with 12 fractional digits, stored as its value times 10^12.
#[derive(Clone, Copy, Debug, Default, PartialEq, Eq, PartialOrd, Structural)]
pub struct Percentage {
    pub v: u64,
}

impl Percentage {
    /// The scale: number of fractional digits.
    pub open spec fn scale() -> nat {
        12
    }

    /// The number whose scaled representation is `v`.
    pub fn new(v: u64) -> (res: Percentage)
        ensures
            res.v == v,
    {
        Percentage { v: v }
    }

    /// The scaled representation.
    pub fn get(&self) -> (res: u64)
        ensures
            res == self.v,
    {
        self.v
    }

    /// The number 1.
    pub fn one() -> (res: Percentage)
        ensures
            res.v == pow10(12),
    {
        proof {
            reveal_with_fuel(pow10, 13);
        }
        Percentage { v: pow10_u128(12) as u64 }
    }

    /// The integer `n`.
    pub fn from_integer(n: u64) -> (res: Percentage)
        requires
            n * pow10(12) <= u64::MAX,
        ensures
            res.v == n * pow10(12),
    {
        proof {
            reveal_with_fuel(pow10, 13);
        }
        let one = pow10_u128(12) as u64;
        Percentage { v: n * one }
    }

    /// The number `n * 10^-s`, truncated to 12 fractional digits.
    pub fn from_scale(n: u64, s: u8) -> (res: Percentage)
        requires
            s <= 12 ==> n * pow10((12 - s) as nat) <= u64::MAX,
        ensures
            s <= 12 ==> res.v == n * pow10((12 - s) as nat),
            s > 12 ==> res.v == n as nat / pow10((s - 12) as nat),
    {
        if s <= 12 {
            proof {
                crate::math::consts::lemma_pow10_mono((12 - s) as nat, 12);
                reveal_with_fuel(pow10, 13);
            }
            let m = pow10_u128((12 - s) as u32) as u64;
            Percentage { v: n * m }
        } else {
            let e = (s - 12) as u32;
            if e >= 39 {
                proof {
                    crate::math::consts::lemma_pow10_mono(39, e as nat);
                    reveal_with_fuel(pow10, 40);
                    vstd::arithmetic::div_mod::lemma_basic_div(n as int, pow10(e as nat) as int);
                }
                Percentage { v: 0 }
            } else {
                proof {
                    crate::math::consts::lemma_pow10_mono(e as nat, 38);
                    crate::math::consts::lemma_pow10_mono(0, e as nat);
                    reveal_with_fuel(pow10, 39);
                }
                Percentage { v: (n as u128 / pow10_u128(e)) as u64 }
            }
        }
    }

}

} // verus!
