//! Tick index of a square-root price, through a binary logarithm.
use crate::math::consts::{MAX_SQRT_PRICE, MIN_SQRT_PRICE, SQRT_PRICE_ONE};
use crate::math::error::MathError;
use crate::math::consts::MAX_TICK;
use crate::math::log_bounds::lemma_log_tick_in_range;
use crate::math::types::sqrt_price::{
    lemma_sqrt_price_at_range_ends, lemma_sqrt_price_increasing, spec_sqrt_price, tick_in_range,
    SqrtPrice,
};
use crate::math::uint::{base128, base256, U256};
use vstd::arithmetic::div_mod::*;
use vstd::arithmetic::power2::*;
use vstd::bits::lemma_u128_shr_is_div;
use vstd::prelude::*;

verus! {

/// 1 in the 64-bit binary fixed-point format of the logarithm: 2^64.
pub const LOG2_ONE: u128 = 0x1_0000_0000_0000_0000;

/// One half in the logarithm format: 2^63.
pub const LOG2_HALF: u128 = 0x8000_0000_0000_0000;

/// Two in the logarithm format: 2^65.
pub const LOG2_TWO: u128 = 0x2_0000_0000_0000_0000;

/// log2(sqrt(1.0001)) in the logarithm format, adjusted so that tick 1 maps back to 1.
pub const LOG2_SQRT_10001: u128 = 1330584781654116;

/// Correction added to negative logarithms before dividing: 1330580000000000 * 7 / 9.
pub const LOG2_NEGATIVE_MAX_LOSE: u128 = 1034895555555555;

/// The approximation stops at this bit: 2^(63 - 46).
pub const LOG2_ACCURACY: u64 = 131072;

/// Scale of the decimal square-root price: 10^24.
pub const SQRT_PRICE_DENOMINATOR: u128 = 1_000000_000000_000000_000000;

/// Floor of the binary logarithm; 0 for 0 and 1.
pub open spec fn log2_floor(x: nat) -> nat
    decreases x,
{
    if x < 2 {
        0
    } else {
        1 + log2_floor(x / 2)
    }
}

/// Fractional bits of log2(y / 2^64), from bit `delta` down to bit 2^18, found by
/// repeated squaring with rounding down.
pub open spec fn log2_fraction(y: nat, delta: nat) -> nat
    decreases delta,
{
    if delta <= LOG2_ACCURACY {
        0
    } else {
        let y2 = y * y / (LOG2_ONE as nat);
        if y2 >= LOG2_TWO {
            delta + log2_fraction(y2 / 2, delta / 2)
        } else {
            log2_fraction(y2, delta / 2)
        }
    }
}

/// Sign and magnitude of the approximated log2(x / 2^64), in the 64-bit binary
/// fixed-point format. Values below 1 are replaced by 2^128 / (x + 1) and get a
/// negative sign.
pub open spec fn spec_log2_approx(x: nat) -> (bool, nat) {
    let sign = x >= LOG2_ONE;
    let x2 = if sign {
        x
    } else {
        base128() / (x + 1)
    };
    let fl = log2_floor(x2 / (LOG2_ONE as nat));
    let y = x2 / pow2(fl);
    if y == LOG2_ONE {
        (sign, fl * (LOG2_ONE as nat))
    } else {
        (sign, fl * (LOG2_ONE as nat) + log2_fraction(y, LOG2_HALF as nat))
    }
}

/// The decimal square-root price in the 64-bit binary format, rounded down.
pub open spec fn spec_sqrt_price_to_x64(p: nat) -> nat {
    p * (LOG2_ONE as nat) / (SQRT_PRICE_DENOMINATOR as nat)
}

/// The largest multiple of `s` not above `t`.
pub open spec fn spec_align_tick(t: int, s: int) -> int {
    t - t % s
}

proof fn lemma_log2_constants()
    ensures
        pow2(64) == LOG2_ONE,
        pow2(63) == LOG2_HALF,
        pow2(65) == LOG2_TWO,
        pow2(128) == base128(),
        pow2(1) == 2,
{
    lemma2_to64();
    lemma2_to64_rest();
    lemma_pow2_adds(64, 1);
    lemma_pow2_adds(64, 64);
}

/// `pow2(r) <= x < pow2(r + 1)` pins `log2_floor(x)` to `r`.
pub proof fn lemma_log2_floor_is(x: nat, r: nat)
    requires
        pow2(r) <= x < pow2(r + 1),
    ensures
        log2_floor(x) == r,
    decreases r,
{
    lemma2_to64();
    lemma_pow2_adds(r, 1);
    if r > 0 {
        let r1 = (r - 1) as nat;
        lemma_pow2_adds(r1, 1);
        lemma_pow2_pos(r1);
        assert(x >= 2);
        lemma_fundamental_div_mod(x as int, 2);
        assert(pow2(r1) <= x / 2 < pow2(r)) by (nonlinear_arith)
            requires
                x == 2 * (x / 2) + x % 2, 0 <= x % 2 < 2,
                pow2(r1) * 2 == pow2(r), pow2(r) * 2 == pow2(r + 1),
                pow2(r) <= x < pow2(r + 1);
        assert(r1 + 1 == r);
        lemma_log2_floor_is(x / 2, r1);
    }
}

/// Dividing twice by powers of two divides by the product.
proof fn lemma_div_pow2_twice(x: nat, a: nat, b: nat)
    ensures
        x / pow2(a) / pow2(b) == x / pow2(a + b),
{
    lemma_pow2_pos(a);
    lemma_pow2_pos(b);
    lemma_pow2_adds(a, b);
    lemma_div_denominator(x as int, pow2(a) as int, pow2(b) as int);
}

/// One halving stage of the binary search for the most significant bit.
fn log2_floor_stage(x: u128, msb: u128, s: u128, threshold: u128, Ghost(x0): Ghost<nat>) -> (res: (u128, u128))
    requires
        threshold == pow2(s as nat),
        1 <= s <= 64,
        msb + s < 128,
        x < pow2(2 * s as nat),
        x0 / pow2(msb as nat) == x,
    ensures
        res.0 < pow2(s as nat),
        x0 / pow2(res.1 as nat) == res.0,
        x >= threshold ==> res.1 == msb + s,
        x < threshold ==> res == (x, msb),
        x >= 1 ==> res.0 >= 1,
{
    proof {
        lemma_pow2_pos(s as nat);
        lemma_pow2_adds(s as nat, s as nat);
        assert(2 * s as nat == s as nat + s as nat);
        lemma_pow2_strictly_increases(s as nat, 128);
        lemma_log2_constants();
    }
    if x >= threshold {
        let y = x >> s;
        proof {
            lemma_u128_shr_is_div(x, s);
            lemma_div_pow2_twice(x0, msb as nat, s as nat);
            let xn = x as nat;
            let pn = pow2(s as nat);
            lemma_fundamental_div_mod(xn as int, pn as int);
            assert(xn / pn < pn) by (nonlinear_arith)
                requires
                    xn == pn * (xn / pn) + xn % pn,
                    xn % pn >= 0,
                    xn < pn * pn;
            lemma_div_is_ordered(pn as int, xn as int, pn as int);
            lemma_div_by_self(pn as int);
        }
        (y, msb + s)
    } else {
        (x, msb)
    }
}

/// Position of the most significant set bit: floor(log2(x)), and 0 for 0.
pub fn log2_floor_x64(sqrt_price_x64: u128) -> (res: u128)
    ensures
        res == log2_floor(sqrt_price_x64 as nat),
        res < 128,
        sqrt_price_x64 >= 1 ==> pow2(res as nat) <= sqrt_price_x64 < pow2(res as nat + 1),
{
    let ghost x0 = sqrt_price_x64 as nat;
    proof {
        lemma2_to64();
        lemma_log2_constants();
        assert(x0 / pow2(0) == x0);
    }
    let (x, msb) = log2_floor_stage(sqrt_price_x64, 0, 64, 0x1_0000_0000_0000_0000, Ghost(x0));
    let (x, msb) = log2_floor_stage(x, msb, 32, 0x1_0000_0000, Ghost(x0));
    let (x, msb) = log2_floor_stage(x, msb, 16, 0x1_0000, Ghost(x0));
    let (x, msb) = log2_floor_stage(x, msb, 8, 0x100, Ghost(x0));
    let (x, msb) = log2_floor_stage(x, msb, 4, 0x10, Ghost(x0));
    let (x, msb) = log2_floor_stage(x, msb, 2, 0x4, Ghost(x0));
    let res = if x >= 2 {
        msb + 1
    } else {
        msb
    };
    proof {
        if x0 >= 1 {
            if x >= 2 {
                lemma_div_pow2_twice(x0, msb as nat, 1);
                lemma_basic_div_specific(x as nat);
            }
            let q = x0 / pow2(res as nat);
            assert(q == 1);
            lemma_pow2_pos(res as nat);
            lemma_pow2_adds(res as nat, 1);
            lemma_fundamental_div_mod(x0 as int, pow2(res as nat) as int);
            assert(pow2(res as nat) <= x0 < pow2(res as nat + 1)) by (nonlinear_arith)
                requires
                    x0 == pow2(res as nat) * q + x0 % pow2(res as nat),
                    q == 1,
                    0 <= x0 % pow2(res as nat) < pow2(res as nat),
                    pow2(res as nat) * pow2(1) == pow2(res as nat + 1),
                    pow2(1) == 2;
            lemma_log2_floor_is(x0, res as nat);
        } else {
            reveal_with_fuel(log2_floor, 1);
        }
    }
    res
}

/// x in {2, 3} halves to 1.
proof fn lemma_basic_div_specific(x: nat)
    requires
        2 <= x < 4,
    ensures
        x / 2 == 1,
{
    lemma_div_exact_small(x, 2, 1, (x - 2) as nat);
}

proof fn lemma_div_exact_small(x: nat, d: nat, q: nat, r: nat)
    requires
        d > 0,
        x == q * d + r,
        r < d,
    ensures
        x / d == q,
{
    lemma_fundamental_div_mod_converse(x as int, d as int, q as int, r as int);
}

/// The fractional part never exceeds twice its leading bit.
proof fn lemma_log2_fraction_bound(y: nat, delta: nat)
    ensures
        log2_fraction(y, delta) <= 2 * delta,
    decreases delta,
{
    if delta > LOG2_ACCURACY {
        let y2 = y * y / (LOG2_ONE as nat);
        lemma_log2_fraction_bound(y2 / 2, delta / 2);
        lemma_log2_fraction_bound(y2, delta / 2);
    }
}

/// `a` in `[2^k, 2^(k+1))` gives `a / 2^k == 1`.
proof fn lemma_div_pow2_is_one(a: nat, k: nat)
    requires
        pow2(k) <= a < pow2(k + 1),
    ensures
        a / pow2(k) == 1,
{
    lemma2_to64();
    lemma_pow2_adds(k, 1);
    lemma_div_exact_small(a, pow2(k), 1, (a - pow2(k)) as nat);
}

/// Binary logarithm of `sqrt_price_x64 / 2^64` in the 64-bit fixed-point format:
/// the sign (true for values of at least 1) and the magnitude.
pub fn log2_iterative_approximation_x64(sqrt_price_x64: u128) -> (res: (bool, u128))
    requires
        sqrt_price_x64 > 0,
    ensures
        res == (spec_log2_approx(sqrt_price_x64 as nat).0, spec_log2_approx(sqrt_price_x64 as nat).1 as u128),
        spec_log2_approx(sqrt_price_x64 as nat).1 <= 64 * (LOG2_ONE as nat),
{
    proof {
        lemma_log2_constants();
        lemma2_to64();
    }
    let ghost x0 = sqrt_price_x64 as nat;
    let mut sign = true;
    let mut x = sqrt_price_x64;
    if x < LOG2_ONE {
        sign = false;
        let two_pow_128 = U256::from_halves(1, 0);
        let inverse = two_pow_128.div_u128(x + 1);
        proof {
            assert(two_pow_128@ == base128());
            lemma_div_is_ordered_by_denominator(base128() as int, 2, (x + 1) as int);
            lemma_div_is_ordered_by_denominator(base128() as int, (x + 1) as int, LOG2_ONE as int);
            lemma_div_exact_small(base128(), 2, base128() / 2, 0);
            lemma_div_exact_small(base128(), LOG2_ONE as nat, LOG2_ONE as nat, 0);
        }
        x = inverse.to_u128().unwrap();
    }
    let ghost x2 = x as nat;
    assert(x2 >= LOG2_ONE);
    let top = x >> 64;
    proof {
        lemma_u128_shr_is_div(x, 64);
        lemma_div_is_ordered(LOG2_ONE as int, x as int, LOG2_ONE as int);
        lemma_div_by_self(LOG2_ONE as int);
        lemma_fundamental_div_mod(x as int, LOG2_ONE as int);
        assert(top < LOG2_ONE) by (nonlinear_arith)
            requires
                x == LOG2_ONE * top + x % LOG2_ONE, x % LOG2_ONE >= 0,
                x < LOG2_ONE * LOG2_ONE;
    }
    let log2_floor = log2_floor_x64(top);
    let ghost fl = log2_floor as nat;
    proof {
        if fl >= 64 {
            if fl > 64 {
                lemma_pow2_strictly_increases(64, fl);
            }
        }
        assert(fl < 64);
    }
    let mut result: u128 = log2_floor * LOG2_ONE;
    let mut y: u128 = x >> log2_floor;
    proof {
        lemma_u128_shr_is_div(x, log2_floor);
        lemma_div_pow2_twice(x2, 64, fl);
        lemma_div_pow2_twice(x2, fl, 64);
        assert(64 + fl == fl + 64);
        lemma_div_pow2_is_one(top as nat, fl);
        assert((y as nat) / pow2(64) == 1);
        lemma_fundamental_div_mod(y as int, LOG2_ONE as int);
        assert(LOG2_ONE <= y < LOG2_TWO);
        lemma_log2_fraction_bound(y as nat, LOG2_HALF as nat);
    }
    if y == LOG2_ONE {
        return (sign, result);
    }
    let mut delta: u128 = LOG2_HALF;
    let ghost target = result as nat + log2_fraction(y as nat, delta as nat);
    assert(target == spec_log2_approx(x0).1);
    while delta > LOG2_ACCURACY as u128
        invariant
            LOG2_ONE <= y < LOG2_TWO,
            result as nat + log2_fraction(y as nat, delta as nat) == target,
            target <= 64 * (LOG2_ONE as nat),
            delta <= LOG2_HALF,
            pow2(1) == 2,
        decreases delta,
    {
        let yy = U256::from_u128(y);
        let ghost y_old = y as nat;
        proof {
            assert(yy@ * yy@ < base256()) by (nonlinear_arith)
                requires yy@ == y, y < LOG2_TWO, LOG2_TWO * LOG2_TWO < base256();
        }
        let square = yy.checked_mul(&yy).unwrap().div_u128(LOG2_ONE);
        proof {
            let one = LOG2_ONE as nat;
            assert(one * one <= y_old * y_old < 4 * one * one) by (nonlinear_arith)
                requires one <= y_old < 2 * one;
            lemma_div_is_ordered((one * one) as int, (y_old * y_old) as int, one as int);
            lemma_div_multiples_vanish(one as int, one as int);
            lemma_div_is_ordered((y_old * y_old) as int, (4 * one * one) as int, one as int);
            assert(4 * one * one == (4 * one) * one) by (nonlinear_arith);
            lemma_div_multiples_vanish((4 * one) as int, one as int);
            assert(one * (4 * one) == (4 * one) * one) by (nonlinear_arith);
            assert(square@ < 4 * one);
        }
        y = square.to_u128().unwrap();
        if y >= LOG2_TWO {
            result = result + delta;
            proof {
                lemma_u128_shr_is_div(y, 1);
            }
            y = y >> 1;
        }
        proof {
            lemma_u128_shr_is_div(delta, 1);
        }
        delta = delta >> 1;
    }
    (sign, result)
}

/// The decimal square-root price in the 64-bit binary fixed-point format, rounded down.
pub fn sqrt_price_to_x64(decimal: SqrtPrice) -> (res: u128)
    ensures
        res == spec_sqrt_price_to_x64(decimal.0 as nat),
{
    let half: u128 = 1_000000_000000;
    let a = U256::from_u128(decimal.get());
    let b = U256::from_u128(LOG2_ONE);
    proof {
        assert(a@ * b@ < base256()) by (nonlinear_arith)
            requires a@ < base128(), b@ < base128(), base256() == base128() * base128();
    }
    let product = a.checked_mul(&b).unwrap();
    let q = product.div_u128(half).div_u128(half);
    proof {
        lemma_div_denominator(product@ as int, half as int, half as int);
        let d = SQRT_PRICE_DENOMINATOR as nat;
        lemma_div_is_ordered(product@ as int, (base128() * LOG2_ONE) as int, d as int);
        assert(product@ <= base128() * LOG2_ONE) by (nonlinear_arith)
            requires product@ == a@ * b@, a@ < base128(), b@ == LOG2_ONE;
        assert((base128() * LOG2_ONE) as nat / d < base128()) by {
            lemma_div_exact_small(
                (base128() * LOG2_ONE) as nat,
                d,
                6277101735386680763835789423207666nat,
                416102355444464034512896nat,
            );
        }
    }
    q.to_u128().unwrap()
}

/// Rounds `accurate_tick` down to a multiple of `tick_spacing`.
pub fn align_tick_to_spacing(accurate_tick: i32, tick_spacing: i32) -> (res: i32)
    requires
        tick_spacing > 0,
        accurate_tick - accurate_tick % tick_spacing >= i32::MIN,
    ensures
        res == spec_align_tick(accurate_tick as int, tick_spacing as int),
        (res as int) % (tick_spacing as int) == 0,
        res <= accurate_tick < res + tick_spacing,
{
    proof {
        lemma_align_tick_facts(accurate_tick as int, tick_spacing as int);
    }
    if accurate_tick > 0 {
        accurate_tick.checked_sub(accurate_tick.checked_rem(tick_spacing).unwrap()).unwrap()
    } else {
        accurate_tick.checked_sub(accurate_tick.checked_rem_euclid(tick_spacing).unwrap()).unwrap()
    }
}

/// An aligned tick is a multiple of the spacing, at most the tick, and within one spacing of it.
pub proof fn lemma_align_tick_facts(t: int, s: int)
    requires
        s > 0,
    ensures
        spec_align_tick(t, s) % s == 0,
        spec_align_tick(t, s) <= t < spec_align_tick(t, s) + s,
        spec_align_tick(spec_align_tick(t, s), s) == spec_align_tick(t, s),
{
    lemma_fundamental_div_mod(t, s);
    assert(spec_align_tick(t, s) == s * (t / s));
    lemma_mod_multiples_basic(t / s, s);
    assert(s * (t / s) == (t / s) * s) by (nonlinear_arith);
}

/// `t` is the tick of price `p`: the greatest tick in range whose price is at most `p`.
pub open spec fn is_tick_of_price(t: int, p: nat) -> bool {
    &&& tick_in_range(t)
    &&& spec_sqrt_price(t) <= p
    &&& (t == MAX_TICK || p < spec_sqrt_price(t + 1))
}

/// The tick of price `p` (see `is_tick_of_price`).
pub open spec fn spec_tick_of_price(p: nat) -> int {
    choose|t: int| is_tick_of_price(t, p)
}

/// A price has at most one tick, so any tick of `p` is `spec_tick_of_price(p)`.
pub proof fn lemma_tick_of_price_unique(t: int, p: nat)
    requires
        is_tick_of_price(t, p),
    ensures
        spec_tick_of_price(p) == t,
{
    let u = spec_tick_of_price(p);
    assert(is_tick_of_price(u, p));
    if u < t {
        if u + 1 < t {
            lemma_sqrt_price_increasing(u + 1, t);
        }
    } else if t < u {
        if t + 1 < u {
            lemma_sqrt_price_increasing(t + 1, u);
        }
    }
}

/// Tick of the square-root price `p`, rounded down to a multiple of `s`; a
/// price outside `[MIN_SQRT_PRICE, MAX_SQRT_PRICE]` is refused.
pub open spec fn spec_tick_at_sqrt_price(p: nat, s: int) -> Result<int, MathError> {
    if p > MAX_SQRT_PRICE || p < MIN_SQRT_PRICE {
        Err(MathError::SqrtPriceOutOfRange)
    } else {
        Ok(spec_align_tick(spec_tick_of_price(p), s))
    }
}

/// Tick index of `sqrt_price`, rounded down to a multiple of `tick_spacing`.
pub fn get_tick_at_sqrt_price(sqrt_price: SqrtPrice, tick_spacing: u16) -> (res: Result<i32, MathError>)
    requires
        tick_spacing > 0,
    ensures
        match (res, spec_tick_at_sqrt_price(sqrt_price.0 as nat, tick_spacing as int)) {
            (Ok(t), Ok(u)) => t as int == u,
            (Err(e), Err(f)) => e == f,
            _ => false,
        },
        res matches Ok(t) ==> (t as int) % (tick_spacing as int) == 0,
        MIN_SQRT_PRICE <= sqrt_price.0 <= MAX_SQRT_PRICE ==> res is Ok,
{
    if sqrt_price.get() > MAX_SQRT_PRICE || sqrt_price.get() < MIN_SQRT_PRICE {
        return Err(MathError::SqrtPriceOutOfRange);
    }
    let sqrt_price_x64: u128 = sqrt_price_to_x64(sqrt_price);
    proof {
        let d = SQRT_PRICE_DENOMINATOR as nat;
        lemma_div_is_ordered(d as int, (sqrt_price.0 as nat * LOG2_ONE as nat) as int, d as int);
        lemma_div_by_self(d as int);
    }
    let (log2_sign, log2_sqrt_price) = log2_iterative_approximation_x64(sqrt_price_x64);
    let ghost l = log2_sqrt_price as nat;
    proof {
        lemma_log_tick_in_range(sqrt_price.0 as nat);
        let lsq = LOG2_SQRT_10001 as nat;
        lemma_div_is_ordered(l as int, (64 * LOG2_ONE) as int, lsq as int);
        lemma_div_exact_small(64 * LOG2_ONE as nat, lsq, 887272, 1000329600491872);
        lemma_div_is_ordered(
            (l + LOG2_NEGATIVE_MAX_LOSE) as int,
            (64 * LOG2_ONE + LOG2_NEGATIVE_MAX_LOSE) as int,
            lsq as int,
        );
        lemma_div_exact_small(
            (64 * LOG2_ONE + LOG2_NEGATIVE_MAX_LOSE) as nat,
            lsq,
            887273,
            704640374393311,
        );
    }
    let abs_floor_tick: i32 = if log2_sign {
        log2_sqrt_price.checked_div(LOG2_SQRT_10001).unwrap() as i32
    } else {
        (log2_sqrt_price.checked_add(LOG2_NEGATIVE_MAX_LOSE).unwrap()).checked_div(
            LOG2_SQRT_10001,
        ).unwrap() as i32
    };
    let nearer_tick = if log2_sign {
        abs_floor_tick
    } else {
        0i32.checked_sub(abs_floor_tick).unwrap()
    };
    let farther_tick = if log2_sign {
        abs_floor_tick.checked_add(1).unwrap()
    } else {
        0i32.checked_sub(abs_floor_tick).unwrap().checked_sub(1).unwrap()
    };
    proof {
        vstd::arithmetic::div_mod::lemma_mod_bound(farther_tick as int, tick_spacing as int);
        vstd::arithmetic::div_mod::lemma_mod_bound(nearer_tick as int, tick_spacing as int);
    }
    let ghost p = sqrt_price.0 as nat;
    proof {
        lemma_sqrt_price_at_range_ends();
    }
    // The tick that the logarithm's two candidates point to, checked against the price.
    let mut tick: i32 = if log2_sign {
        if farther_tick <= MAX_TICK && !price_above(farther_tick, sqrt_price) {
            farther_tick
        } else {
            nearer_tick
        }
    } else {
        if nearer_tick == -MAX_TICK || !price_above(nearer_tick, sqrt_price) {
            nearer_tick
        } else {
            farther_tick
        }
    };
    proof {
        if !log2_sign && nearer_tick != -MAX_TICK {
            assert(tick_in_range(nearer_tick as int));
        }
        assert(tick_in_range(tick as int));
    }
    // Step down while the price of the tick is above `sqrt_price`.
    while tick > -MAX_TICK && price_above(tick, sqrt_price)
        invariant
            tick_in_range(tick as int),
            MIN_SQRT_PRICE <= p <= MAX_SQRT_PRICE,
            p == sqrt_price.0,
            spec_sqrt_price(-(MAX_TICK as int)) == MIN_SQRT_PRICE,
        decreases tick + MAX_TICK,
    {
        tick = tick - 1;
    }
    // Step up while the next tick's price is still at most `sqrt_price`.
    while tick < MAX_TICK && !price_above(tick + 1, sqrt_price)
        invariant
            tick_in_range(tick as int),
            spec_sqrt_price(tick as int) <= p,
            p == sqrt_price.0,
        decreases MAX_TICK - tick,
    {
        tick = tick + 1;
    }
    proof {
        assert(is_tick_of_price(tick as int, p));
        lemma_tick_of_price_unique(tick as int, p);
        lemma_align_tick_facts(tick as int, tick_spacing as int);
        vstd::arithmetic::div_mod::lemma_mod_bound(tick as int, tick_spacing as int);
    }
    Ok(align_tick_to_spacing(tick, tick_spacing as i32))
}

/// Whether the price of the in-range tick `tick` is above `sqrt_price`.
fn price_above(tick: i32, sqrt_price: SqrtPrice) -> (res: bool)
    requires
        tick_in_range(tick as int),
    ensures
        res == (spec_sqrt_price(tick as int) > sqrt_price.0),
{
    match SqrtPrice::from_tick(tick) {
        Ok(tick_sqrt_price) => tick_sqrt_price.get() > sqrt_price.get(),
        Err(_) => false,
    }
}

} // verus!
