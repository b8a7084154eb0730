//! Bounds of the tick range and of the square-root price.
use vstd::prelude::*;

verus! {

/// Largest tick index a pool can reach.
pub const MAX_TICK: i32 = 665_455;

/// Smallest tick index a pool can reach.
pub const MIN_TICK: i32 = -665_455;

/// Square-root price at `MAX_TICK`, scaled by 10^24.
pub const MAX_SQRT_PRICE: u128 = 281481114768267672330495791029795421271;

/// Square-root price at `MIN_TICK`, scaled by 10^24.
pub const MIN_SQRT_PRICE: u128 = 3552636207;

/// Scale of the square-root price and of the fixed-point type: 10^24.
pub const SQRT_PRICE_ONE: u128 = 1_000000_000000_000000_000000;

/// 10^e.
pub open spec fn pow10(e: nat) -> nat
    decreases e,
{
    if e == 0 {
        1
    } else {
        10 * pow10((e - 1) as nat)
    }
}

/// 10^e as a `u128`.
pub fn pow10_u128(e: u32) -> (res: u128)
    requires
        pow10(e as nat) <= u128::MAX,
    ensures
        res == pow10(e as nat),
{
    let mut r: u128 = 1;
    let mut i: u32 = 0;
    while i < e
        invariant
            i <= e,
            r == pow10(i as nat),
            pow10(e as nat) <= u128::MAX,
        decreases e - i,
    {
        proof {
            lemma_pow10_mono((i + 1) as nat, e as nat);
        }
        r = r * 10;
        i = i + 1;
    }
    r
}

/// 10^a <= 10^b when a <= b.
pub proof fn lemma_pow10_mono(a: nat, b: nat)
    requires
        a <= b,
    ensures
        1 <= pow10(a) <= pow10(b),
    decreases b,
{
    if b > a {
        lemma_pow10_mono(a, (b - 1) as nat);
    } else if a > 0 {
        lemma_pow10_mono((a - 1) as nat, (a - 1) as nat);
    }
}

} // verus!
