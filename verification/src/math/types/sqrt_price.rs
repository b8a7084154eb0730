//! Square-root price: conversion from ticks and the bounds of the tick range.
use crate::math::consts::{
    pow10, pow10_u128, MAX_SQRT_PRICE, MAX_TICK, MIN_SQRT_PRICE, MIN_TICK, SQRT_PRICE_ONE,
};
use crate::math::error::MathError;
use crate::math::types::fixed_point::FixedPoint;
use crate::math::types::sqrt_price_bound::{
    lemma_chain_ge_one, lemma_chain_increasing, lemma_chain_le_max, lemma_chain_mono_k, lemma_chain_values_max_tick,
    lemma_div_exact,
    sqrt_price_chain, sqrt_price_factor, tick_bit,
};
use crate::math::types::token_amount::TokenAmount;
use crate::math::uint::{base128, base256, base64, lemma_u256_bound, U256};
use crate::math::wide::{lemma_limb_weight_mono, lemma_limb_weight_values, limb_weight, WideUint};
use vstd::arithmetic::div_mod::*;
use vstd::arithmetic::power2::pow2;
use vstd::bits::lemma_u32_shr_is_div;
use vstd::prelude::*;

verus! {

/// Square root of a price, as a decimal with 24 fractional digits.
#[derive(Clone, Copy, Debug, Default, PartialEq, Eq, PartialOrd, Structural)]
pub struct SqrtPrice(pub u128);

/// |tick|.
pub open spec fn abs_tick(tick: int) -> nat {
    if tick < 0 {
        (-tick) as nat
    } else {
        tick as nat
    }
}

/// Whether `tick` lies in `[-MAX_TICK, MAX_TICK]`.
pub open spec fn tick_in_range(tick: int) -> bool {
    -(MAX_TICK as int) <= tick <= MAX_TICK as int
}

/// The square-root price of an in-range tick, scaled by 10^24: the chain of
/// rounded-down factor products over the bits of |tick|, inverted (10^48 / v,
/// rounded down) for negative ticks.
pub open spec fn spec_sqrt_price(tick: int) -> nat {
    let v = sqrt_price_chain(abs_tick(tick), 20);
    if tick >= 0 {
        v
    } else {
        (SQRT_PRICE_ONE as nat * SQRT_PRICE_ONE as nat) / v
    }
}

/// The largest multiple of `tick_spacing` not above `MAX_TICK`.
pub open spec fn spec_max_tick(tick_spacing: int) -> int {
    (MAX_TICK as int / tick_spacing) * tick_spacing
}


/// `n * 10^48 / d` rounded down, then divided by 10^24 and rounded down, with
/// the width checks of the computation: the first quotient must fit 256 bits,
/// the result 128 bits.
pub open spec fn spec_big_div_values_to_token(n: nat, d: nat) -> Result<nat, MathError> {
    let one = SQRT_PRICE_ONE as nat;
    if d == 0 {
        Err(MathError::Div)
    } else if n * one * one / d >= base256() {
        Err(MathError::Cast)
    } else if n * one * one / d / one >= base128() {
        Err(MathError::Cast)
    } else {
        Ok(n * one * one / d / one)
    }
}

/// As `spec_big_div_values_to_token`, rounding both divisions up.
pub open spec fn spec_big_div_values_to_token_up(n: nat, d: nat) -> Result<nat, MathError> {
    let one = SQRT_PRICE_ONE as nat;
    let q = (n * one * one + d - 1) as nat / d;
    if q >= base256() {
        Err(MathError::Cast)
    } else if q + one - 1 >= base256() {
        Err(MathError::Add)
    } else if (q + one - 1) as nat / one >= base128() {
        Err(MathError::Cast)
    } else {
        Ok((q + one - 1) as nat / one)
    }
}

/// `n * 10^24 / d` rounded up.
pub open spec fn spec_big_div_values_up(n: nat, d: nat) -> nat {
    (n * (SQRT_PRICE_ONE as nat) + d - 1) as nat / d
}

/// `n * 10^24 / d` rounded down, computed in 256 bits.
pub open spec fn spec_checked_big_div_values(n: nat, d: nat) -> Result<nat, MathError> {
    let one = SQRT_PRICE_ONE as nat;
    if n * one >= base256() {
        Err(MathError::Mul)
    } else if d == 0 {
        Err(MathError::Div)
    } else if n * one / d >= base128() {
        Err(MathError::Cast)
    } else {
        Ok(n * one / d)
    }
}

/// `n * 10^24 / d` rounded up, computed in 320 bits.
pub open spec fn spec_checked_big_div_values_up(n: nat, d: nat) -> Result<nat, MathError> {
    let one = SQRT_PRICE_ONE as nat;
    if n * one >= limb_weight(5) {
        Err(MathError::Mul)
    } else if d == 0 {
        Err(MathError::Sub)
    } else if n * one + d - 1 >= limb_weight(5) {
        Err(MathError::Add)
    } else if (n * one + d - 1) as nat / d >= base128() {
        Err(MathError::Cast)
    } else {
        Ok((n * one + d - 1) as nat / d)
    }
}

/// A result and a specified result agree: same value or same error.
pub open spec fn same_outcome<T>(res: Result<T, MathError>, spec: Result<nat, MathError>, value: spec_fn(T) -> nat) -> bool {
    match (res, spec) {
        (Ok(t), Ok(v)) => value(t) == v,
        (Err(e), Err(f)) => e == f,
        _ => false,
    }
}


/// `(x + k - 1) / k` is the least `c` with `x <= k * c`.
proof fn lemma_ceil_div(x: nat, k: nat)
    requires
        k > 0,
    ensures
        x <= k * ((x + k - 1) as nat / k),
        (x + k - 1) as nat / k > 0 ==> k * ((x + k - 1) as nat / k - 1) < x,
{
    let y = (x + k - 1) as nat;
    let c = y / k;
    lemma_fundamental_div_mod(y as int, k as int);
    assert(x <= k * c) by (nonlinear_arith)
        requires y == k * c + y % k, 0 <= y % k < k, y == x + k - 1;
    if c > 0 {
        assert(k * (c - 1) < x) by (nonlinear_arith)
            requires y == k * c + y % k, 0 <= y % k < k, y == x + k - 1, c > 0;
    }
}

/// The least `c` with `x <= k * c` is `(x + k - 1) / k`.
proof fn lemma_ceil_div_unique(x: nat, k: nat, c: nat)
    requires
        k > 0,
        x <= k * c,
        c > 0 ==> k * (c - 1) < x,
    ensures
        (x + k - 1) as nat / k == c,
{
    let y = (x + k - 1) as nat;
    let r = y - k * c;
    assert(0 <= r < k) by (nonlinear_arith)
        requires x <= k * c, c > 0 ==> k * (c - 1) < x, c == 0 ==> x <= k * c, r == y - k * c, y == x + k - 1, k > 0;
    assert(y == c * k + r) by (nonlinear_arith)
        requires r == y - k * c;
    lemma_fundamental_div_mod_converse(y as int, k as int, c as int, r as int);
}

/// `x / k` is the `c` with `k * c <= x < k * (c + 1)`.
proof fn lemma_floor_div_unique(x: nat, k: nat, c: nat)
    requires
        k > 0,
        k * c <= x < k * (c + 1),
    ensures
        x / k == c,
{
    let r = x - k * c;
    assert(0 <= r < k) by (nonlinear_arith)
        requires k * c <= x < k * (c + 1), r == x - k * c;
    assert(x == c * k + r) by (nonlinear_arith)
        requires r == x - k * c;
    lemma_fundamental_div_mod_converse(x as int, k as int, c as int, r as int);
}

/// Rounding up `n * 10^48 / d` and then dividing by 10^24, again rounding up,
/// gives `n * 10^24 / d` rounded up: `big_div_values_to_token_up` yields that
/// amount when it fits 128 bits, and an error otherwise.
pub proof fn lemma_big_div_values_to_token_up_is_ceiling(n: nat, d: nat)
    requires
        d > 0,
    ensures
        ({
            let v = (n * (SQRT_PRICE_ONE as nat) + d - 1) as nat / d;
            &&& v < base128() ==> spec_big_div_values_to_token_up(n, d) == Ok::<nat, MathError>(v)
            &&& v >= base128() ==> spec_big_div_values_to_token_up(n, d) is Err
        }),
{
    let one = SQRT_PRICE_ONE as nat;
    let a = n * one;
    let x = n * one * one;
    let v = (a + d - 1) as nat / d;
    let q = (x + d - 1) as nat / d;
    lemma_ceil_div(a, d);
    lemma_ceil_div(x, d);
    assert(x == a * one) by (nonlinear_arith)
        requires x == n * one * one, a == n * one;
    assert(x <= d * (one * v)) by (nonlinear_arith)
        requires a <= d * v, x == a * one, one > 0;
    assert(q <= one * v) by (nonlinear_arith)
        requires
            x <= d * (one * v),
            q > 0 ==> d * (q - 1) < x,
            d > 0;
    if v > 0 {
        assert(one * (v - 1) < q) by (nonlinear_arith)
            requires
                d * (v - 1) < a,
                x == a * one,
                x <= d * q,
                one > 0,
                d > 0;
    }
    lemma_ceil_div_unique(q, one, v);
    if v < base128() {
        assert(q + one - 1 < base256()) by (nonlinear_arith)
            requires
                q <= one * v,
                v < base128(),
                one == 1000000000000000000000000,
                base256() == base128() * base128(),
                base128() == 0x1_0000_0000_0000_0000_0000_0000_0000_0000nat;
    }
}

/// Rounding down `n * 10^48 / d` and then dividing by 10^24, again rounding
/// down, gives `n * 10^24 / d` rounded down: `big_div_values_to_token` yields
/// that amount when it fits 128 bits, and an error otherwise.
pub proof fn lemma_big_div_values_to_token_is_floor(n: nat, d: nat)
    requires
        d > 0,
    ensures
        ({
            let w = n * (SQRT_PRICE_ONE as nat) / d;
            &&& w < base128() ==> spec_big_div_values_to_token(n, d) == Ok::<nat, MathError>(w)
            &&& w >= base128() ==> spec_big_div_values_to_token(n, d) is Err
        }),
{
    let one = SQRT_PRICE_ONE as nat;
    let a = n * one;
    let x = n * one * one;
    let w = a / d;
    let q = x / d;
    lemma_fundamental_div_mod(a as int, d as int);
    lemma_fundamental_div_mod(x as int, d as int);
    assert(x == a * one) by (nonlinear_arith)
        requires x == n * one * one, a == n * one;
    assert(one * w <= q < one * (w + 1)) by (nonlinear_arith)
        requires
            a == d * w + a % d,
            0 <= a % d < d,
            x == d * q + x % d,
            0 <= x % d < d,
            x == a * one,
            one > 0,
            d > 0;
    lemma_floor_div_unique(q, one, w);
    if w < base128() {
        assert(q < base256()) by (nonlinear_arith)
            requires
                q < one * (w + 1),
                w < base128(),
                one == 1000000000000000000000000,
                base256() == base128() * base128(),
                base128() == 0x1_0000_0000_0000_0000_0000_0000_0000_0000nat;
    }
}

/// The rounded-up amount exceeds the rounded-down one by one exactly when the
/// division `n * 10^24 / d` leaves a remainder, and equals it otherwise.
pub proof fn lemma_big_div_up_and_down(n: nat, d: nat)
    requires
        d > 0,
    ensures
        ({
            let a = n * (SQRT_PRICE_ONE as nat);
            (a + d - 1) as nat / d == a / d + (if a % d == 0 { 0int } else { 1int })
        }),
{
    let a = n * (SQRT_PRICE_ONE as nat);
    let w = a / d;
    lemma_fundamental_div_mod(a as int, d as int);
    assert(a == d * w + a % d);
    assert(0 <= a % d < d);
    if a % d == 0 {
        assert(a == d * w);
        if w > 0 {
            assert(d * (w - 1) < a) by (nonlinear_arith)
                requires a == d * w, d > 0, w > 0;
        }
        lemma_ceil_div_unique(a, d, w);
    } else {
        assert(d * (w + 1) == d * w + d) by (nonlinear_arith);
        assert(a <= d * (w + 1));
        assert(d * w < a) by (nonlinear_arith)
            requires a == d * w + a % d, a % d > 0;
        lemma_ceil_div_unique(a, d, w + 1);
    }
}

/// Bounds of the widened products used by the big-number divisions.
proof fn big_product_bounds(n: nat)
    requires
        n < base256(),
    ensures
        n * 1_000000_000000 < base256() * 1_000000_000000,
        n * 1_000000_000000 * 1_000000_000000 < base256() * 1_000000_000000_000000_000000,
        n * 1_000000_000000 * 1_000000_000000 * 1_000000_000000 < base256() * 1_000000_000000_000000_000000_000000_000000,
        n * 1_000000_000000 * 1_000000_000000 * 1_000000_000000 * 1_000000_000000
            < base256() * 1_000000_000000_000000_000000_000000_000000_000000_000000,
        n * 1_000000_000000 * 1_000000_000000 * 1_000000_000000 * 1_000000_000000
            == n * (SQRT_PRICE_ONE as nat) * (SQRT_PRICE_ONE as nat),
        n * 1_000000_000000 * 1_000000_000000 == n * (SQRT_PRICE_ONE as nat),
        2 * (base256() * 1_000000_000000_000000_000000_000000_000000_000000_000000) < limb_weight(8),
        base256() * 1_000000_000000_000000_000000_000000_000000_000000_000000 < limb_weight(7),
{
    lemma_limb_weight_values();
    assert(n * 1_000000_000000 < base256() * 1_000000_000000) by (nonlinear_arith)
        requires n < base256();
    assert(n * 1_000000_000000 * 1_000000_000000 < base256() * 1_000000_000000_000000_000000) by (nonlinear_arith)
        requires n < base256();
    assert(n * 1_000000_000000 * 1_000000_000000 * 1_000000_000000 < base256() * 1_000000_000000_000000_000000_000000_000000) by (nonlinear_arith)
        requires n < base256();
    assert(n * 1_000000_000000 * 1_000000_000000 * 1_000000_000000 * 1_000000_000000
        < base256() * 1_000000_000000_000000_000000_000000_000000_000000_000000) by (nonlinear_arith)
        requires n < base256();
    assert(n * 1_000000_000000 * 1_000000_000000 * 1_000000_000000 * 1_000000_000000
        == n * (SQRT_PRICE_ONE as nat) * (SQRT_PRICE_ONE as nat)) by (nonlinear_arith);
    assert(n * 1_000000_000000 * 1_000000_000000 == n * (SQRT_PRICE_ONE as nat)) by (nonlinear_arith);
    assert(2 * (base256() * 1_000000_000000_000000_000000_000000_000000_000000_000000) < base256() * base256())
        by (nonlinear_arith)
        requires base256() > 2 * 1_000000_000000_000000_000000_000000_000000_000000_000000;
    assert(base256() * 1_000000_000000_000000_000000_000000_000000_000000_000000 < base256() * base128() * base64())
        by (nonlinear_arith)
        requires base256() > 0, base128() * base64() > 1_000000_000000_000000_000000_000000_000000_000000_000000;
}

/// Factor of bit `k`, as used by the executable code.
fn sqrt_price_factor_at(k: u32) -> (res: u128)
    requires
        k < 20,
    ensures
        res == sqrt_price_factor(k as nat),
{
    if k == 0 {
        1000049998750062496094023
    } else if k == 1 {
        1000100000000000000000000
    } else if k == 2 {
        1000200010000000000000000
    } else if k == 3 {
        1000400060004000100000000
    } else if k == 4 {
        1000800280056007000560028
    } else if k == 5 {
        1001601200560182043688009
    } else if k == 6 {
        1003204964963598014666528
    } else if k == 7 {
        1006420201727613920156533
    } else if k == 8 {
        1012881622445451097078095
    } else if k == 9 {
        1025929181087729343658708
    } else if k == 10 {
        1052530684607338948386589
    } else if k == 11 {
        1107820842039993613899215
    } else if k == 12 {
        1227267018058200482050503
    } else if k == 13 {
        1506184333613467388107955
    } else if k == 14 {
        2268591246822644826925609
    } else if k == 15 {
        5146506245160322222537991
    } else if k == 16 {
        26486526531474198664033811
    } else if k == 17 {
        701536087702486644953017488
    } else if k == 18 {
        492152882348911033633683861778
    } else {
        242214459604341065650571799093539783
    }
}

/// Bit `k` of `t`, tested with a mask.
fn tick_has_bit(t: u32, k: u32) -> (res: bool)
    requires
        k < 32,
    ensures
        res == tick_bit(t as nat, k as nat),
{
    proof {
        lemma_u32_shr_is_div(t, k);
        let s = t >> k;
        assert(((t & (1u32 << k)) != 0u32) == (((t >> k) & 1u32) == 1u32)) by (bit_vector)
            requires k < 32;
        assert((s & 1u32) == s % 2) by (bit_vector);
    }
    t & (1u32 << k) != 0
}

/// Tick zero has price exactly 1.
pub proof fn lemma_chain_of_zero(k: nat)
    ensures
        sqrt_price_chain(0, k) == SQRT_PRICE_ONE,
    decreases k,
{
    if k > 0 {
        lemma_chain_of_zero((k - 1) as nat);
        vstd::arithmetic::power2::lemma_pow2_pos((k - 1) as nat);
        lemma_basic_div(0, pow2((k - 1) as nat) as int);
    }
}

/// Every in-range tick has a square-root price in `[MIN_SQRT_PRICE, MAX_SQRT_PRICE]`;
/// non-negative ticks are at least 1, non-positive ticks at most 1.
pub proof fn lemma_sqrt_price_bounds(tick: int)
    requires
        tick_in_range(tick),
    ensures
        MIN_SQRT_PRICE <= spec_sqrt_price(tick) <= MAX_SQRT_PRICE,
        tick >= 0 ==> spec_sqrt_price(tick) >= SQRT_PRICE_ONE,
        tick <= 0 ==> spec_sqrt_price(tick) <= SQRT_PRICE_ONE,
{
    let t = abs_tick(tick);
    let v = sqrt_price_chain(t, 20);
    let one = SQRT_PRICE_ONE as nat;
    if tick == 0 {
        lemma_chain_of_zero(20);
    }
    lemma_chain_le_max(t);
    lemma_chain_ge_one(t, 20);
    if tick < 0 {
        lemma_div_is_ordered_by_denominator((one * one) as int, v as int, MAX_SQRT_PRICE as int);
        lemma_div_is_ordered_by_denominator((one * one) as int, one as int, v as int);
        lemma_div_exact(
            one * one,
            MAX_SQRT_PRICE as nat,
            MIN_SQRT_PRICE as nat,
            87529852611068582526442970589827440903,
        );
        lemma_div_multiples_vanish(one as int, one as int);
    }
}

/// The two ends of the tick range have the two extreme prices.
pub proof fn lemma_sqrt_price_at_range_ends()
    ensures
        spec_sqrt_price(MAX_TICK as int) == MAX_SQRT_PRICE,
        spec_sqrt_price(-(MAX_TICK as int)) == MIN_SQRT_PRICE,
{
    lemma_chain_values_max_tick();
    let one = SQRT_PRICE_ONE as nat;
    lemma_div_exact(one * one, MAX_SQRT_PRICE as nat, MIN_SQRT_PRICE as nat, 87529852611068582526442970589827440903);
}

/// The square-root price strictly increases with the tick over the whole tick range.
pub proof fn lemma_sqrt_price_increasing(lower: int, upper: int)
    requires
        tick_in_range(lower),
        tick_in_range(upper),
        lower < upper,
    ensures
        spec_sqrt_price(lower) < spec_sqrt_price(upper),
{
    let one = SQRT_PRICE_ONE as nat;
    let a = one * one;
    if lower >= 0 {
        lemma_chain_increasing(lower as nat, upper as nat);
    } else if upper >= 0 {
        let t = abs_tick(lower);
        lemma_chain_of_zero(20);
        lemma_chain_increasing(0, t);
        let v = sqrt_price_chain(t, 20);
        lemma_chain_ge_one(abs_tick(upper), 20);
        lemma_div_is_ordered_by_denominator(a as int, one as int, v as int);
        lemma_div_multiples_vanish(one as int, one as int);
        lemma_fundamental_div_mod(a as int, v as int);
        assert(a / v < one) by (nonlinear_arith)
            requires
                v > one,
                a == one * one,
                a == v * (a / v) + a % v,
                a % v >= 0,
                one > 0;
    } else {
        let x = sqrt_price_chain(abs_tick(upper), 20);
        let y = sqrt_price_chain(abs_tick(lower), 20);
        lemma_chain_increasing(abs_tick(upper), abs_tick(lower));
        lemma_chain_le_max(abs_tick(lower));
        lemma_chain_ge_one(abs_tick(upper), 20);
        let q = a / y;
        lemma_fundamental_div_mod(a as int, y as int);
        lemma_fundamental_div_mod(a as int, x as int);
        assert(a * (y - x) >= x * y) by (nonlinear_arith)
            requires
                y * 1000000 >= x * 1000020,
                y <= MAX_SQRT_PRICE,
                a == 1000000000000000000000000000000000000000000000000,
                x >= 0;
        assert((q + 1) * x <= a) by (nonlinear_arith)
            requires
                a * (y - x) >= x * y,
                q * y <= a,
                y > 0,
                x > 0;
        assert(q + 1 <= a / x) by (nonlinear_arith)
            requires
                (q + 1) * x <= a,
                a == x * (a / x) + a % x,
                0 <= a % x < x,
                x > 0;
    }
}

/// The price of a tick on a grid lies in that tick's own price range.
pub proof fn lemma_tick_matches_own_price(tick: int, tick_spacing: int)
    requires
        tick_spacing > 0,
        tick % tick_spacing == 0,
        tick_in_range(tick),
    ensures
        spec_tick_matches_sqrt_price(tick, tick_spacing, spec_sqrt_price(tick)) == Ok::<bool, MathError>(true),
{
    let s = tick_spacing;
    if tick + s > MAX_TICK {
        let m = spec_max_tick(s);
        lemma_fundamental_div_mod(tick, s);
        lemma_fundamental_div_mod(MAX_TICK as int, s);
        let q = tick / s;
        let mq = MAX_TICK as int / s;
        assert(q <= mq) by (nonlinear_arith)
            requires
                tick == s * q,
                tick <= MAX_TICK as int,
                MAX_TICK as int == s * mq + MAX_TICK as int % s,
                0 <= MAX_TICK as int % s < s,
                s > 0;
        assert(q >= mq) by (nonlinear_arith)
            requires
                tick == s * q,
                tick + s > MAX_TICK as int,
                MAX_TICK as int == s * mq + MAX_TICK as int % s,
                0 <= MAX_TICK as int % s < s,
                s > 0;
        assert(tick == m) by (nonlinear_arith)
            requires tick == s * q, q == mq, m == mq * s;
    } else {
        lemma_sqrt_price_increasing(tick, tick + s);
    }
}

/// A price lies in the price range of at most one tick of a grid: two ticks on
/// the grid of `tick_spacing` that both accept `sqrt_price` are the same tick.
pub proof fn lemma_price_matches_one_tick(tick_a: int, tick_b: int, tick_spacing: int, sqrt_price: nat)
    requires
        tick_spacing > 0,
        tick_a % tick_spacing == 0,
        tick_b % tick_spacing == 0,
        tick_in_range(tick_a),
        tick_in_range(tick_b),
        spec_tick_matches_sqrt_price(tick_a, tick_spacing, sqrt_price) == Ok::<bool, MathError>(true),
        spec_tick_matches_sqrt_price(tick_b, tick_spacing, sqrt_price) == Ok::<bool, MathError>(true),
    ensures
        tick_a == tick_b,
{
    if tick_a != tick_b {
        let (lo, hi) = if tick_a < tick_b { (tick_a, tick_b) } else { (tick_b, tick_a) };
        let s = tick_spacing;
        lemma_fundamental_div_mod(lo, s);
        lemma_fundamental_div_mod(hi, s);
        assert(hi >= lo + s) by (nonlinear_arith)
            requires
                lo == s * (lo / s),
                hi == s * (hi / s),
                lo < hi,
                s > 0;
        let m = spec_max_tick(s);
        lemma_fundamental_div_mod(MAX_TICK as int, s);
        lemma_div_is_ordered(hi, MAX_TICK as int, s);
        assert(hi <= m) by (nonlinear_arith)
            requires
                hi == s * (hi / s),
                hi / s <= MAX_TICK as int / s,
                m == (MAX_TICK as int / s) * s,
                s > 0;
        assert(m <= MAX_TICK) by (nonlinear_arith)
            requires
                MAX_TICK as int == s * (MAX_TICK as int / s) + MAX_TICK as int % s,
                MAX_TICK as int % s >= 0,
                m == (MAX_TICK as int / s) * s;
        assert(lo + s <= MAX_TICK);
        lemma_sqrt_price_increasing_or_equal(lo + s, hi);
        assert(sqrt_price < spec_sqrt_price(lo + s));
        if hi + s > MAX_TICK {
            lemma_sqrt_price_increasing_or_equal(hi, m);
        }
    }
}

/// The square-root price never decreases with the tick.
proof fn lemma_sqrt_price_increasing_or_equal(lower: int, upper: int)
    requires
        tick_in_range(lower),
        tick_in_range(upper),
        lower <= upper,
    ensures
        spec_sqrt_price(lower) <= spec_sqrt_price(upper),
{
    if lower < upper {
        lemma_sqrt_price_increasing(lower, upper);
    }
}

/// Square-root price of `tick_index`, scaled by 10^24.
pub fn calculate_sqrt_price(tick_index: i32) -> (res: Result<SqrtPrice, MathError>)
    requires
        tick_index > i32::MIN,
    ensures
        tick_in_range(tick_index as int) ==> (res matches Ok(p) && p.0 == spec_sqrt_price(
            tick_index as int,
        )),
        tick_in_range(tick_index as int) ==> MIN_SQRT_PRICE <= spec_sqrt_price(tick_index as int)
            <= MAX_SQRT_PRICE,
        !tick_in_range(tick_index as int) ==> res == Err::<SqrtPrice, MathError>(
            MathError::TickOverBounds,
        ),
{
    let tick = if tick_index < 0 {
        -tick_index
    } else {
        tick_index
    };
    if tick > MAX_TICK {
        return Err(MathError::TickOverBounds);
    }
    let t = tick as u32;
    assert(t as nat == abs_tick(tick_index as int));
    proof {
        lemma_chain_le_max(t as nat);
        lemma_sqrt_price_bounds(tick_index as int);
    }
    let mut sqrt_price = FixedPoint::one();
    let mut k: u32 = 0;
    while k < 20
        invariant
            k <= 20,
            t <= MAX_TICK,
            sqrt_price.0@ == sqrt_price_chain(t as nat, k as nat),
            sqrt_price_chain(t as nat, 20) <= MAX_SQRT_PRICE,
        decreases 20 - k,
    {
        proof {
            lemma_chain_mono_k(t as nat, k as nat, 20);
        }
        if tick_has_bit(t, k) {
            let f = sqrt_price_factor_at(k);
            proof {
                assert(sqrt_price.0@ * f < base256()) by (nonlinear_arith)
                    requires
                        sqrt_price.0@ <= MAX_SQRT_PRICE,
                        f < base128(),
                        MAX_SQRT_PRICE < base128(),
                        base256() == base128() * base128();
            }
            sqrt_price = sqrt_price.mul(FixedPoint::new(U256::from_u128(f)));
        }
        k = k + 1;
    }
    let v = sqrt_price.0.to_u128().unwrap();
    if tick_index >= 0 {
        Ok(SqrtPrice::new(v))
    } else {
        let one = U256::from_u128(SQRT_PRICE_ONE);
        proof {
            lemma_chain_ge_one(t as nat, 20);
            assert(one@ * one@ < base256());
        }
        let square = one.checked_mul(&one).unwrap();
        let inverse = square.div_u128(v);
        proof {
            lemma_div_is_ordered_by_denominator(square@ as int, SQRT_PRICE_ONE as int, v as int);
            lemma_div_multiples_vanish(SQRT_PRICE_ONE as int, SQRT_PRICE_ONE as int);
        }
        Ok(SqrtPrice::new(inverse.to_u128().unwrap()))
    }
}

impl SqrtPrice {
    /// The number whose scaled representation is `v`.
    pub fn new(v: u128) -> (res: SqrtPrice)
        ensures
            res.0 == v,
    {
        SqrtPrice(v)
    }

    /// The scaled representation.
    pub fn get(&self) -> (res: u128)
        ensures
            res == self.0,
    {
        self.0
    }

    /// The number 1.
    pub fn one() -> (res: SqrtPrice)
        ensures
            res.0 == SQRT_PRICE_ONE,
    {
        SqrtPrice(SQRT_PRICE_ONE)
    }

    /// The largest number below 1.
    pub fn almost_one() -> (res: SqrtPrice)
        ensures
            res.0 == SQRT_PRICE_ONE - 1,
    {
        SqrtPrice(SQRT_PRICE_ONE - 1)
    }

    /// The integer `n`.
    pub fn from_integer(n: u128) -> (res: SqrtPrice)
        requires
            n * SQRT_PRICE_ONE <= u128::MAX,
        ensures
            res.0 == n * SQRT_PRICE_ONE,
    {
        SqrtPrice(n * SQRT_PRICE_ONE)
    }

    /// The number `n * 10^-s`, truncated to 24 fractional digits.
    pub fn from_scale(n: u128, s: u8) -> (res: SqrtPrice)
        requires
            s <= 24 ==> n * pow10((24 - s) as nat) <= u128::MAX,
        ensures
            s <= 24 ==> res.0 == n * pow10((24 - s) as nat),
            s > 24 ==> res.0 == n as nat / pow10((s - 24) as nat),
    {
        if s <= 24 {
            proof {
                crate::math::consts::lemma_pow10_mono((24 - s) as nat, 24);
                reveal_with_fuel(pow10, 25);
            }
            SqrtPrice(n * pow10_u128((24 - s) as u32))
        } else {
            let e = (s - 24) as u32;
            if e >= 39 {
                proof {
                    crate::math::consts::lemma_pow10_mono(39, e as nat);
                    reveal_with_fuel(pow10, 40);
                    lemma_basic_div(n as int, pow10(e as nat) as int);
                }
                SqrtPrice(0)
            } else {
                proof {
                    crate::math::consts::lemma_pow10_mono(e as nat, 38);
                    crate::math::consts::lemma_pow10_mono(0, e as nat);
                    reveal_with_fuel(pow10, 39);
                }
                SqrtPrice(n / pow10_u128(e))
            }
        }
    }

    /// `nominator * 10^24 / denominator` as a token amount, rounded down.
    pub fn big_div_values_to_token(nominator: U256, denominator: U256) -> (res: Result<TokenAmount, MathError>)
        ensures
            same_outcome(res, spec_big_div_values_to_token(nominator@, denominator@), |t: TokenAmount| t.0 as nat),
            denominator@ > 0 && nominator@ * (SQRT_PRICE_ONE as nat) / denominator@ < base128() ==> (res matches Ok(t)
                && t.0 == nominator@ * (SQRT_PRICE_ONE as nat) / denominator@),
            denominator@ > 0 && nominator@ * (SQRT_PRICE_ONE as nat) / denominator@ >= base128() ==> res is Err,
    {
        proof {
            if denominator@ > 0 {
                lemma_big_div_values_to_token_is_floor(nominator@, denominator@);
            }
        }
        let half: u64 = 1_000000_000000;
        let ghost n = nominator@;
        let ghost one = SQRT_PRICE_ONE as nat;
        proof {
            lemma_u256_bound(nominator);
            lemma_limb_weight_values();
            big_product_bounds(n);
        }
        let wide_nominator = WideUint::from_u256(nominator);
        let intermediate = wide_nominator.mul_small(half).mul_small(half).mul_small(half).mul_small(half);
        if denominator.is_zero() {
            return Err(MathError::Div);
        }
        let (quotient, remainder) = intermediate.div_rem(&WideUint::from_u256(denominator));
        proof {
            lemma_div_exact(intermediate.value(), denominator@, quotient.value(), remainder.value());
        }
        if !quotient.fits_limbs(4) {
            return Err(MathError::Cast);
        }
        let q = quotient.to_u256();
        let scaled = q.div_u128(half as u128).div_u128(half as u128);
        proof {
            lemma_div_denominator(q@ as int, half as int, half as int);
        }
        match scaled.to_u128() {
            Some(v) => Ok(TokenAmount(v)),
            None => Err(MathError::Cast),
        }
    }

    /// `nominator * 10^24 / denominator` as a token amount, rounded up.
    pub fn big_div_values_to_token_up(nominator: U256, denominator: U256) -> (res: Result<TokenAmount, MathError>)
        requires
            denominator@ > 0,
        ensures
            same_outcome(res, spec_big_div_values_to_token_up(nominator@, denominator@), |t: TokenAmount| t.0 as nat),
            (nominator@ * (SQRT_PRICE_ONE as nat) + denominator@ - 1) as nat / denominator@ < base128() ==> (res matches Ok(t)
                && t.0 == (nominator@ * (SQRT_PRICE_ONE as nat) + denominator@ - 1) as nat / denominator@),
            (nominator@ * (SQRT_PRICE_ONE as nat) + denominator@ - 1) as nat / denominator@ >= base128() ==> res is Err,
    {
        proof {
            lemma_big_div_values_to_token_up_is_ceiling(nominator@, denominator@);
        }
        let half: u64 = 1_000000_000000;
        let ghost n = nominator@;
        proof {
            lemma_u256_bound(nominator);
            lemma_u256_bound(denominator);
            lemma_limb_weight_values();
            big_product_bounds(n);
        }
        let wide_nominator = WideUint::from_u256(nominator);
        let intermediate = wide_nominator.mul_small(half).mul_small(half).mul_small(half).mul_small(half);
        let wide_denominator = WideUint::from_u256(denominator);
        let denominator_minus_one = wide_denominator.sub(&WideUint::from_u128(1));
        proof {
            assert(intermediate.value() + denominator_minus_one.value() < limb_weight(7)) by (nonlinear_arith)
                requires
                    intermediate.value() < base256() * 1_000000_000000_000000_000000_000000_000000_000000_000000,
                    denominator_minus_one.value() < base256(),
                    limb_weight(7) == base256() * base128() * base64(),
                    base128() * base64() >= 1_000000_000000_000000_000000_000000_000000_000000_000000 + 1;
        }
        let rounded = intermediate.add(&denominator_minus_one);
        let (quotient, remainder) = rounded.div_rem(&wide_denominator);
        proof {
            lemma_div_exact(rounded.value(), denominator@, quotient.value(), remainder.value());
        }
        if !quotient.fits_limbs(4) {
            return Err(MathError::Cast);
        }
        let q = quotient.to_u256();
        let almost_one = U256::from_u128(SQRT_PRICE_ONE - 1);
        let raised = match q.checked_add(&almost_one) {
            Some(v) => v,
            None => {
                return Err(MathError::Add);
            },
        };
        let scaled = raised.div_u128(half as u128).div_u128(half as u128);
        proof {
            lemma_div_denominator(raised@ as int, half as int, half as int);
        }
        match scaled.to_u128() {
            Some(v) => Ok(TokenAmount::new(v)),
            None => Err(MathError::Cast),
        }
    }

    /// `nominator * 10^24 / denominator`, rounded up.
    pub fn big_div_values_up(nominator: U256, denominator: U256) -> (res: SqrtPrice)
        requires
            denominator@ > 0,
            nominator@ * (SQRT_PRICE_ONE as nat) + denominator@ - 1 < base256(),
            spec_big_div_values_up(nominator@, denominator@) < base128(),
        ensures
            res.0 == spec_big_div_values_up(nominator@, denominator@),
    {
        let one = U256::from_u128(SQRT_PRICE_ONE);
        let scaled = nominator.checked_mul(&one).unwrap();
        let denominator_minus_one = denominator.checked_sub(&U256::from_u128(1)).unwrap();
        let rounded = scaled.checked_add(&denominator_minus_one).unwrap();
        let quotient = rounded.checked_div(&denominator).unwrap();
        SqrtPrice::new(quotient.to_u128().unwrap())
    }

    /// `nominator * 10^24 / denominator`, rounded down.
    pub fn checked_big_div_values(nominator: U256, denominator: U256) -> (res: Result<SqrtPrice, MathError>)
        ensures
            same_outcome(res, spec_checked_big_div_values(nominator@, denominator@), |p: SqrtPrice| p.0 as nat),
    {
        let one = U256::from_u128(SQRT_PRICE_ONE);
        let scaled = match nominator.checked_mul(&one) {
            Some(v) => v,
            None => {
                return Err(MathError::Mul);
            },
        };
        let quotient = match scaled.checked_div(&denominator) {
            Some(v) => v,
            None => {
                return Err(MathError::Div);
            },
        };
        match quotient.to_u128() {
            Some(v) => Ok(SqrtPrice::new(v)),
            None => Err(MathError::Cast),
        }
    }

    /// `nominator * 10^24 / denominator`, rounded up, with a 320-bit intermediate.
    pub fn checked_big_div_values_up(nominator: U256, denominator: U256) -> (res: Result<SqrtPrice, MathError>)
        ensures
            same_outcome(res, spec_checked_big_div_values_up(nominator@, denominator@), |p: SqrtPrice| p.0 as nat),
    {
        let half: u64 = 1_000000_000000;
        let ghost n = nominator@;
        proof {
            lemma_u256_bound(nominator);
            lemma_u256_bound(denominator);
            lemma_limb_weight_values();
            big_product_bounds(n);
        }
        let wide_denominator = WideUint::from_u256(denominator);
        let scaled = WideUint::from_u256(nominator).mul_small(half).mul_small(half);
        if !scaled.fits_limbs(5) {
            return Err(MathError::Mul);
        }
        if denominator.is_zero() {
            return Err(MathError::Sub);
        }
        let denominator_minus_one = wide_denominator.sub(&WideUint::from_u128(1));
        proof {
            assert(scaled.value() + denominator_minus_one.value() < limb_weight(8) / 2) by (nonlinear_arith)
                requires
                    scaled.value() < limb_weight(5),
                    denominator_minus_one.value() < base256(),
                    limb_weight(5) == base256() * base64(),
                    limb_weight(8) == base256() * base256(),
                    base256() >= 4 * base64();
        }
        let rounded = scaled.add(&denominator_minus_one);
        if !rounded.fits_limbs(5) {
            return Err(MathError::Add);
        }
        let (quotient, remainder) = rounded.div_rem(&wide_denominator);
        proof {
            lemma_div_exact(rounded.value(), denominator@, quotient.value(), remainder.value());
        }
        if !quotient.fits_limbs(2) {
            return Err(MathError::Cast);
        }
        proof {
            lemma_limb_weight_mono(2, 4);
        }
        match quotient.to_u256().to_u128() {
            Some(v) => Ok(SqrtPrice::new(v)),
            None => Err(MathError::Cast),
        }
    }

    /// Square-root price of tick `i`.
    pub fn from_tick(i: i32) -> (res: Result<SqrtPrice, MathError>)
        requires
            i > i32::MIN,
        ensures
            tick_in_range(i as int) ==> (res matches Ok(p) && p.0 == spec_sqrt_price(i as int)),
            tick_in_range(i as int) ==> MIN_SQRT_PRICE <= spec_sqrt_price(i as int) <= MAX_SQRT_PRICE,
            !tick_in_range(i as int) ==> res == Err::<SqrtPrice, MathError>(
                MathError::TickOverBounds,
            ),
    {
        calculate_sqrt_price(i)
    }
}

/// The largest multiple of `tick_spacing` not above `MAX_TICK`.
pub fn get_max_tick(tick_spacing: u16) -> (res: i32)
    requires
        tick_spacing > 0,
    ensures
        res == spec_max_tick(tick_spacing as int),
        (res as int) % (tick_spacing as int) == 0,
        MAX_TICK - (tick_spacing as int) < res <= MAX_TICK,
{
    let tick_spacing = tick_spacing as i32;
    proof {
        lemma_fundamental_div_mod(MAX_TICK as int, tick_spacing as int);
        lemma_mod_multiples_basic(MAX_TICK as int / tick_spacing as int, tick_spacing as int);
        assert((MAX_TICK as int / tick_spacing as int) * tick_spacing as int <= MAX_TICK as int)
            by (nonlinear_arith)
            requires
                MAX_TICK as int == tick_spacing * (MAX_TICK as int / tick_spacing as int)
                    + MAX_TICK as int % tick_spacing as int,
                MAX_TICK as int % tick_spacing as int >= 0;
    }
    MAX_TICK.checked_div(tick_spacing).unwrap().checked_mul(tick_spacing).unwrap()
}

/// The smallest multiple of `tick_spacing` not below `MIN_TICK`.
pub fn get_min_tick(tick_spacing: u16) -> (res: i32)
    requires
        tick_spacing > 0,
    ensures
        res == -spec_max_tick(tick_spacing as int),
        (res as int) % (tick_spacing as int) == 0,
        MIN_TICK <= res < MIN_TICK + (tick_spacing as int),
{
    let tick_spacing = tick_spacing as i32;
    proof {
        lemma_fundamental_div_mod(MAX_TICK as int, tick_spacing as int);
        assert((MAX_TICK as int / tick_spacing as int) * tick_spacing as int <= MAX_TICK as int)
            by (nonlinear_arith)
            requires
                MAX_TICK as int == tick_spacing * (MAX_TICK as int / tick_spacing as int)
                    + MAX_TICK as int % tick_spacing as int,
                MAX_TICK as int % tick_spacing as int >= 0;
        let m = MAX_TICK as int / tick_spacing as int;
        lemma_mod_multiples_basic(-m, tick_spacing as int);
        assert(-m * tick_spacing == -(m * tick_spacing)) by (nonlinear_arith);
    }
    MIN_TICK.checked_div(tick_spacing).unwrap().checked_mul(tick_spacing).unwrap()
}

/// Square-root price at `get_max_tick(tick_spacing)`.
pub fn get_max_sqrt_price(tick_spacing: u16) -> (res: SqrtPrice)
    requires
        tick_spacing > 0,
    ensures
        res.0 == spec_sqrt_price(spec_max_tick(tick_spacing as int)),
{
    let max_tick = get_max_tick(tick_spacing);
    SqrtPrice::from_tick(max_tick).unwrap()
}

/// Square-root price at `get_min_tick(tick_spacing)`.
pub fn get_min_sqrt_price(tick_spacing: u16) -> (res: SqrtPrice)
    requires
        tick_spacing > 0,
    ensures
        res.0 == spec_sqrt_price(-spec_max_tick(tick_spacing as int)),
{
    let min_tick = get_min_tick(tick_spacing);
    SqrtPrice::from_tick(min_tick).unwrap()
}

/// Whether `sqrt_price` belongs to tick `tick_index` on a grid of `tick_spacing`:
/// inside `[price(tick), price(tick + spacing))`, or equal to the price at the
/// highest usable tick when `tick + spacing` passes `MAX_TICK`.
pub open spec fn spec_tick_matches_sqrt_price(tick_index: int, tick_spacing: int, sqrt_price: nat) -> Result<bool, MathError> {
    if tick_index + tick_spacing > MAX_TICK {
        Ok(sqrt_price == spec_sqrt_price(spec_max_tick(tick_spacing)))
    } else if !tick_in_range(tick_index) {
        Err(MathError::TickOverBounds)
    } else {
        Ok(spec_sqrt_price(tick_index) <= sqrt_price < spec_sqrt_price(tick_index + tick_spacing))
    }
}

/// Checks that `sqrt_price` lies in the price range of tick `tick_index`.
pub fn check_tick_to_sqrt_price_relationship(
    tick_index: i32,
    tick_spacing: u16,
    sqrt_price: SqrtPrice,
) -> (res: Result<bool, MathError>)
    requires
        tick_index > i32::MIN,
        tick_index + tick_spacing <= i32::MAX,
        tick_index + tick_spacing > MAX_TICK ==> tick_spacing > 0,
    ensures
        res == spec_tick_matches_sqrt_price(tick_index as int, tick_spacing as int, sqrt_price.0 as nat),
{
    if tick_index.checked_add(tick_spacing as i32).unwrap() > MAX_TICK {
        let max_tick = get_max_tick(tick_spacing);
        let max_sqrt_price = SqrtPrice::from_tick(max_tick)?;
        if sqrt_price.get() != max_sqrt_price.get() {
            return Ok(false);
        }
    } else {
        let lower_bound = SqrtPrice::from_tick(tick_index)?;
        let upper_bound = SqrtPrice::from_tick(tick_index.checked_add(tick_spacing as i32).unwrap())?;
        if sqrt_price.get() >= upper_bound.get() || sqrt_price.get() < lower_bound.get() {
            return Ok(false);
        }
    }
    Ok(true)
}

} // verus!
