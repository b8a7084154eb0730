//! Concentrated-liquidity math: checks on ticks, and the token amounts that
//! liquidity stands for between two square-root prices.
use crate::math::consts::{MAX_TICK, MIN_TICK, SQRT_PRICE_ONE};
use crate::math::error::MathError;
use crate::math::types::token_amount::TokenAmount;
use crate::math::types::liquidity::Liquidity;
use crate::math::types::fee_growth::FeeGrowth;
use crate::math::types::sqrt_price::{
    get_max_tick, get_min_tick, same_outcome, spec_big_div_values_to_token,
    spec_big_div_values_to_token_up, spec_checked_big_div_values, spec_checked_big_div_values_up, spec_max_tick,
    lemma_sqrt_price_bounds, spec_sqrt_price, tick_in_range, SqrtPrice,
};
use crate::math::types::percentage::Percentage;
use crate::math::uint::{base128, base256, U256};
use vstd::prelude::*;

verus! {

/// Whether `tick_index` may be used on a grid of `tick_spacing`: a multiple of the
/// spacing, within the usable ticks of that spacing.
pub open spec fn spec_check_tick(tick_index: int, tick_spacing: int) -> Result<(), MathError> {
    if tick_index % tick_spacing != 0 {
        Err(MathError::InvalidTickSpacing)
    } else if tick_index > spec_max_tick(tick_spacing) || tick_index < -spec_max_tick(tick_spacing) {
        Err(MathError::InvalidTickIndex)
    } else {
        Ok(())
    }
}

/// Checks that `tick_index` is a multiple of `tick_spacing` within
/// `[get_min_tick(tick_spacing), get_max_tick(tick_spacing)]`.
pub fn check_tick(tick_index: i32, tick_spacing: u16) -> (res: Result<(), MathError>)
    requires
        tick_spacing > 0,
    ensures
        res == spec_check_tick(tick_index as int, tick_spacing as int),
        res is Ok ==> MIN_TICK <= -spec_max_tick(tick_spacing as int) <= tick_index <= spec_max_tick(
            tick_spacing as int,
        ) <= MAX_TICK,
{
    let min_tick = get_min_tick(tick_spacing);
    let max_tick = get_max_tick(tick_spacing);
    let spacing = tick_spacing as i32;
    if tick_index.checked_rem_euclid(spacing).unwrap() != 0 {
        return Err(MathError::InvalidTickSpacing);
    }
    if tick_index > max_tick || tick_index < min_tick {
        return Err(MathError::InvalidTickIndex);
    }
    Ok(())
}

/// Scale of liquidity: 10^6.
pub const LIQUIDITY_ONE: u128 = 1_000000;

/// The distance between two numbers.
pub open spec fn abs_diff(a: nat, b: nat) -> nat {
    if a > b {
        (a - b) as nat
    } else {
        (b - a) as nat
    }
}

/// Amount of token x that `l` liquidity stands for between the square-root
/// prices `a` and `b`: `|a - b| * l / (a * b)` in the scales of the types, with
/// `|a - b| * l` first taken to the price's scale (rounded down), and the final
/// division rounded up or down as asked.
pub open spec fn spec_delta_x(a: nat, b: nat, l: nat, up: bool) -> Result<nat, MathError> {
    let nominator = abs_diff(a, b) * l / (LIQUIDITY_ONE as nat);
    if up {
        spec_big_div_values_to_token_up(nominator, a * b)
    } else {
        spec_big_div_values_to_token(nominator, a * b)
    }
}

/// Amount of token y that `l` liquidity stands for between the square-root
/// prices `a` and `b`: `|a - b| * l`, in the scales of the types, rounded as
/// asked; `Cast` when it does not fit a `u128`.
pub open spec fn spec_delta_y(a: nat, b: nat, l: nat, up: bool) -> Result<nat, MathError> {
    let one = SQRT_PRICE_ONE as nat;
    let lone = LIQUIDITY_ONE as nat;
    let value = if up {
        ((abs_diff(a, b) * l + lone - 1) as nat / lone + one - 1) as nat / one
    } else {
        abs_diff(a, b) * l / lone / one
    };
    if value >= base128() {
        Err(MathError::Cast)
    } else {
        Ok(value)
    }
}

proof fn lemma_u128_product(a: u128, b: u128)
    ensures
        a as nat * b as nat + base128() < base256(),
        a as nat * b as nat + (SQRT_PRICE_ONE as nat) < base256(),
{
    assert(a as nat * b as nat <= (base128() - 1) * (base128() - 1)) by (nonlinear_arith)
        requires
            a < base128(),
            b < base128(),
    ;
}

fn mul_u128(a: u128, b: u128) -> (res: U256)
    ensures
        res@ == a as nat * b as nat,
{
    proof {
        lemma_u128_product(a, b);
    }
    match U256::from_u128(a).checked_mul(&U256::from_u128(b)) {
        Some(p) => p,
        None => U256::from_u128(0),
    }
}

/// Amount of token x between two square-root prices (see `spec_delta_x`);
/// neither price may be zero.
pub fn get_delta_x(sqrt_price_a: SqrtPrice, sqrt_price_b: SqrtPrice, liquidity: Liquidity, rounding_up: bool) -> (res: Result<
    TokenAmount,
    MathError,
>)
    requires
        sqrt_price_a.0 > 0,
        sqrt_price_b.0 > 0,
    ensures
        same_outcome(res, spec_delta_x(sqrt_price_a.0 as nat, sqrt_price_b.0 as nat, liquidity.0 as nat, rounding_up), |t: TokenAmount| t.0 as nat),
{
    let delta: u128 = if sqrt_price_a.get() > sqrt_price_b.get() {
        sqrt_price_a.get() - sqrt_price_b.get()
    } else {
        sqrt_price_b.get() - sqrt_price_a.get()
    };
    let nominator = mul_u128(delta, liquidity.get()).div_u128(LIQUIDITY_ONE);
    let denominator = mul_u128(sqrt_price_a.get(), sqrt_price_b.get());
    proof {
        assert((sqrt_price_a.0 as nat) * (sqrt_price_b.0 as nat) > 0) by (nonlinear_arith)
            requires
                sqrt_price_a.0 > 0,
                sqrt_price_b.0 > 0,
        ;
    }
    if rounding_up {
        SqrtPrice::big_div_values_to_token_up(nominator, denominator)
    } else {
        SqrtPrice::big_div_values_to_token(nominator, denominator)
    }
}

/// Amount of token y between two square-root prices (see `spec_delta_y`).
pub fn get_delta_y(sqrt_price_a: SqrtPrice, sqrt_price_b: SqrtPrice, liquidity: Liquidity, rounding_up: bool) -> (res: Result<
    TokenAmount,
    MathError,
>)
    ensures
        same_outcome(res, spec_delta_y(sqrt_price_a.0 as nat, sqrt_price_b.0 as nat, liquidity.0 as nat, rounding_up), |t: TokenAmount| t.0 as nat),
{
    let delta: u128 = if sqrt_price_a.get() > sqrt_price_b.get() {
        sqrt_price_a.get() - sqrt_price_b.get()
    } else {
        sqrt_price_b.get() - sqrt_price_a.get()
    };
    let product = mul_u128(delta, liquidity.get());
    proof {
        lemma_u128_product(delta, liquidity.0);
    }
    let value = if rounding_up {
        let up = match product.checked_add(&U256::from_u128(LIQUIDITY_ONE - 1)) {
            Some(v) => v,
            None => U256::from_u128(0),
        };
        let scaled = up.div_u128(LIQUIDITY_ONE);
        proof {
            vstd::arithmetic::div_mod::lemma_div_is_ordered(up@ as int, product@ as int + LIQUIDITY_ONE as int, LIQUIDITY_ONE as int);
            assert(scaled@ <= up@) by {
                vstd::arithmetic::div_mod::lemma_div_is_ordered_by_denominator(up@ as int, 1, LIQUIDITY_ONE as int);
            }
        }
        let with_rounding = match scaled.checked_add(&U256::from_u128(SQRT_PRICE_ONE - 1)) {
            Some(v) => v,
            None => U256::from_u128(0),
        };
        with_rounding.div_u128(SQRT_PRICE_ONE)
    } else {
        product.div_u128(LIQUIDITY_ONE).div_u128(SQRT_PRICE_ONE)
    };
    match value.to_u128() {
        Some(v) => Ok(TokenAmount::new(v)),
        None => Err(MathError::Cast),
    }
}

/// Token amounts that a change of `l` liquidity on `[lower, upper]` moves, with
/// the pool at `current_tick` and `current_sqrt_price`, and whether the pool's
/// own liquidity changes too: only x below the range, only y above it, both
/// within it. Amounts are rounded up when liquidity is added (`sign`).
pub open spec fn spec_amount_delta(
    current_tick: int,
    current_sqrt_price: nat,
    l: nat,
    sign: bool,
    upper: int,
    lower: int,
) -> Result<(nat, nat, bool), MathError> {
    if upper < lower {
        Err(MathError::InvalidTickIndex)
    } else if !tick_in_range(lower) || !tick_in_range(upper) {
        Err(MathError::TickOverBounds)
    } else if current_tick < lower {
        match spec_delta_x(spec_sqrt_price(lower), spec_sqrt_price(upper), l, sign) {
            Ok(x) => Ok((x, 0, false)),
            Err(e) => Err(e),
        }
    } else if current_tick < upper {
        match (spec_delta_x(current_sqrt_price, spec_sqrt_price(upper), l, sign), spec_delta_y(spec_sqrt_price(lower), current_sqrt_price, l, sign)) {
            (Ok(x), Ok(y)) => Ok((x, y, true)),
            (Err(e), _) => Err(e),
            (_, Err(e)) => Err(e),
        }
    } else {
        match spec_delta_y(spec_sqrt_price(lower), spec_sqrt_price(upper), l, sign) {
            Ok(y) => Ok((0, y, false)),
            Err(e) => Err(e),
        }
    }
}

/// Dividing twice rounding down gives at most what dividing twice rounding
/// up gives.
proof fn lemma_two_divisions_rounded(m: nat, d: nat, e: nat)
    requires
        d > 0,
        e > 0,
    ensures
        m / d <= (m + d - 1) as nat / d,
        m / d / e <= (((m + d - 1) as nat / d) + e - 1) as nat / e,
{
    vstd::arithmetic::div_mod::lemma_div_is_ordered(m as int, (m + d - 1) as int, d as int);
    let q = (m + d - 1) as nat / d;
    vstd::arithmetic::div_mod::lemma_div_is_ordered((m / d) as int, (q + e - 1) as int, e as int);
}

/// Withdrawing `l` liquidity never pays out more than depositing it takes in:
/// wherever the rounded-up amounts of a deposit exist, so do the rounded-down
/// amounts of a withdrawal at the same prices, each at most as large.
pub proof fn law_withdrawal_never_exceeds_deposit(current_tick: int, current_sqrt_price: nat, l: nat, upper: int, lower: int)
    requires
        current_sqrt_price > 0,
        spec_amount_delta(current_tick, current_sqrt_price, l, true, upper, lower) is Ok,
    ensures
        spec_amount_delta(current_tick, current_sqrt_price, l, false, upper, lower) is Ok,
        ({
            let (x1, y1, u1) = spec_amount_delta(current_tick, current_sqrt_price, l, true, upper, lower)->Ok_0;
            let (x2, y2, u2) = spec_amount_delta(current_tick, current_sqrt_price, l, false, upper, lower)->Ok_0;
            x2 <= x1 && y2 <= y1 && u1 == u2
        }),
{
    assert(tick_in_range(lower) && tick_in_range(upper));
    lemma_sqrt_price_bounds(lower);
    lemma_sqrt_price_bounds(upper);
    let one = SQRT_PRICE_ONE as nat;
    let lone = LIQUIDITY_ONE as nat;
    assert forall|a: nat, b: nat| a > 0 && b > 0 && #[trigger] spec_delta_x(a, b, l, true) is Ok implies spec_delta_x(a, b, l, false) is Ok
        && spec_delta_x(a, b, l, false)->Ok_0 <= spec_delta_x(a, b, l, true)->Ok_0 by {
        let n = abs_diff(a, b) * l / lone;
        let d = a * b;
        assert(d > 0) by (nonlinear_arith)
            requires
                a > 0,
                b > 0,
                d == a * b,
        ;
        lemma_two_divisions_rounded(n * one * one, d, one);
    }
    assert forall|a: nat, b: nat| #[trigger] spec_delta_y(a, b, l, true) is Ok implies spec_delta_y(a, b, l, false) is Ok
        && spec_delta_y(a, b, l, false)->Ok_0 <= spec_delta_y(a, b, l, true)->Ok_0 by {
        lemma_two_divisions_rounded(abs_diff(a, b) * l, lone, one);
    }
}

/// Token amounts that a change of liquidity on `[lower_tick, upper_tick]`
/// moves (see `spec_amount_delta`).
pub fn calculate_amount_delta(
    current_tick_index: i32,
    current_sqrt_price: SqrtPrice,
    liquidity_delta: Liquidity,
    liquidity_sign: bool,
    upper_tick: i32,
    lower_tick: i32,
) -> (res: Result<(TokenAmount, TokenAmount, bool), MathError>)
    requires
        current_sqrt_price.0 > 0,
    ensures
        match (res, spec_amount_delta(current_tick_index as int, current_sqrt_price.0 as nat, liquidity_delta.0 as nat, liquidity_sign, upper_tick as int, lower_tick as int)) {
            (Ok((x, y, u)), Ok((sx, sy, su))) => x.0 == sx && y.0 == sy && u == su,
            (Err(e), Err(f)) => e == f,
            _ => false,
        },
{
    if upper_tick < lower_tick {
        return Err(MathError::InvalidTickIndex);
    }
    if lower_tick < -MAX_TICK || lower_tick > MAX_TICK || upper_tick < -MAX_TICK || upper_tick > MAX_TICK {
        return Err(MathError::TickOverBounds);
    }
    let lower_sqrt_price = match SqrtPrice::from_tick(lower_tick) {
        Ok(p) => p,
        Err(e) => return Err(e),
    };
    let upper_sqrt_price = match SqrtPrice::from_tick(upper_tick) {
        Ok(p) => p,
        Err(e) => return Err(e),
    };
    if current_tick_index < lower_tick {
        match get_delta_x(lower_sqrt_price, upper_sqrt_price, liquidity_delta, liquidity_sign) {
            Ok(x) => Ok((x, TokenAmount::new(0), false)),
            Err(e) => Err(e),
        }
    } else if current_tick_index < upper_tick {
        let x = match get_delta_x(current_sqrt_price, upper_sqrt_price, liquidity_delta, liquidity_sign) {
            Ok(x) => x,
            Err(e) => return Err(e),
        };
        match get_delta_y(lower_sqrt_price, current_sqrt_price, liquidity_delta, liquidity_sign) {
            Ok(y) => Ok((x, y, true)),
            Err(e) => Err(e),
        }
    } else {
        match get_delta_y(lower_sqrt_price, upper_sqrt_price, liquidity_delta, liquidity_sign) {
            Ok(y) => Ok((TokenAmount::new(0), y, false)),
            Err(e) => Err(e),
        }
    }
}

/// The most liquidity that a tick on a grid of `tick_spacing` may carry: the
/// largest liquidity divided by the number of usable ticks of that grid.
pub open spec fn spec_max_liquidity_per_tick(tick_spacing: int) -> nat {
    (u128::MAX as nat) / ((2 * MAX_TICK + 1) as nat / tick_spacing as nat)
}

/// The most liquidity that a tick may carry (see `spec_max_liquidity_per_tick`).
pub fn calculate_max_liquidity_per_tick(tick_spacing: u16) -> (res: Liquidity)
    requires
        tick_spacing > 0,
    ensures
        res.0 == spec_max_liquidity_per_tick(tick_spacing as int),
{
    let ticks_amount: u128 = (2 * MAX_TICK as u128 + 1) / tick_spacing as u128;
    proof {
        vstd::arithmetic::div_mod::lemma_div_is_ordered(65535, (2 * MAX_TICK + 1) as int, tick_spacing as int);
        vstd::arithmetic::div_mod::lemma_div_is_ordered_by_denominator(65535, tick_spacing as int, 65535);
    }
    Liquidity::new(u128::MAX / ticks_amount)
}

/// `x - y` wrapped around 2^128.
pub open spec fn wrap_sub(x: u128, y: u128) -> u128 {
    if x >= y {
        (x - y) as u128
    } else {
        (x + base128() - y) as u128
    }
}

/// `x + y` wrapped around 2^128.
pub open spec fn wrap_add(x: u128, y: u128) -> u128 {
    if x + y >= base128() {
        (x + y - base128()) as u128
    } else {
        (x + y) as u128
    }
}

/// Fee growth inside `[tick_lower, tick_upper]` for one token: the global growth
/// minus the growth below the lower tick and above the upper tick, each taken
/// from the tick's growth outside on the side of the current tick; all in
/// wrapping arithmetic.
pub open spec fn spec_fee_growth_inside(
    tick_lower: int,
    lower_outside: u128,
    tick_upper: int,
    upper_outside: u128,
    tick_current: int,
    global: u128,
) -> u128 {
    let below = if tick_current >= tick_lower {
        lower_outside
    } else {
        wrap_sub(global, lower_outside)
    };
    let above = if tick_current < tick_upper {
        upper_outside
    } else {
        wrap_sub(global, upper_outside)
    };
    wrap_sub(wrap_sub(global, below), above)
}

fn fee_growth_sub(x: FeeGrowth, y: FeeGrowth) -> (res: FeeGrowth)
    ensures
        res.0 == wrap_sub(x.0, y.0),
{
    FeeGrowth::new(x.get().wrapping_sub(y.get()))
}

/// Fee growth inside a tick range for both tokens (see `spec_fee_growth_inside`).
pub fn calculate_fee_growth_inside(
    tick_lower: i32,
    tick_lower_fee_growth_outside_x: FeeGrowth,
    tick_lower_fee_growth_outside_y: FeeGrowth,
    tick_upper: i32,
    tick_upper_fee_growth_outside_x: FeeGrowth,
    tick_upper_fee_growth_outside_y: FeeGrowth,
    tick_current: i32,
    fee_growth_global_x: FeeGrowth,
    fee_growth_global_y: FeeGrowth,
) -> (res: (FeeGrowth, FeeGrowth))
    ensures
        res.0.0 == spec_fee_growth_inside(tick_lower as int, tick_lower_fee_growth_outside_x.0, tick_upper as int, tick_upper_fee_growth_outside_x.0, tick_current as int, fee_growth_global_x.0),
        res.1.0 == spec_fee_growth_inside(tick_lower as int, tick_lower_fee_growth_outside_y.0, tick_upper as int, tick_upper_fee_growth_outside_y.0, tick_current as int, fee_growth_global_y.0),
{
    let current_above_lower = tick_current >= tick_lower;
    let current_below_upper = tick_current < tick_upper;
    let below_x = if current_above_lower {
        tick_lower_fee_growth_outside_x
    } else {
        fee_growth_sub(fee_growth_global_x, tick_lower_fee_growth_outside_x)
    };
    let below_y = if current_above_lower {
        tick_lower_fee_growth_outside_y
    } else {
        fee_growth_sub(fee_growth_global_y, tick_lower_fee_growth_outside_y)
    };
    let above_x = if current_below_upper {
        tick_upper_fee_growth_outside_x
    } else {
        fee_growth_sub(fee_growth_global_x, tick_upper_fee_growth_outside_x)
    };
    let above_y = if current_below_upper {
        tick_upper_fee_growth_outside_y
    } else {
        fee_growth_sub(fee_growth_global_y, tick_upper_fee_growth_outside_y)
    };
    (
        fee_growth_sub(fee_growth_sub(fee_growth_global_x, below_x), above_x),
        fee_growth_sub(fee_growth_sub(fee_growth_global_y, below_y), above_y),
    )
}

/// Scale of percentages: 10^12.
pub const PERCENTAGE_ONE: u64 = 1_000000_000000;

/// The square-root price after `x` of token x is added to (`add`) or taken
/// from `l` liquidity at price `p`: `l * p / (l +- x * p)`, rounded up.
pub open spec fn spec_next_sqrt_price_x_up(p: nat, l: nat, x: nat, add: bool) -> Result<nat, MathError> {
    if x == 0 {
        Ok(p)
    } else {
        let lone = LIQUIDITY_ONE as nat;
        let nominator = (p * l + lone - 1) as nat / lone;
        let x_price = x * p;
        let scaled_liquidity = l * 1000000000000000000nat;
        if add && scaled_liquidity + x_price >= base256() {
            Err(MathError::Add)
        } else if !add && scaled_liquidity < x_price {
            Err(MathError::Sub)
        } else {
            spec_checked_big_div_values_up(
                nominator,
                if add {
                    scaled_liquidity + x_price
                } else {
                    (scaled_liquidity - x_price) as nat
                },
            )
        }
    }
}

/// The square-root price after `y` of token y is added to (`add`) or taken
/// from `l` liquidity at price `p`: `p +- y / l`, rounded down.
pub open spec fn spec_next_sqrt_price_y_down(p: nat, l: nat, y: nat, add: bool) -> Result<nat, MathError> {
    let nominator = y * (LIQUIDITY_ONE as nat);
    if add {
        match spec_checked_big_div_values(nominator, l) {
            Err(e) => Err(e),
            Ok(q) => if p + q >= base128() {
                Err(MathError::Add)
            } else {
                Ok(p + q)
            },
        }
    } else {
        match spec_checked_big_div_values_up(nominator, l) {
            Err(e) => Err(e),
            Ok(q) => if q > p {
                Err(MathError::Sub)
            } else {
                Ok((p - q) as nat)
            },
        }
    }
}

fn u256_of(v: u128) -> (res: U256)
    ensures
        res@ == v as nat,
{
    U256::from_u128(v)
}

/// The square-root price after `x` of token x is added to or taken from the
/// pool (see `spec_next_sqrt_price_x_up`).
pub fn get_next_sqrt_price_x_up(starting_sqrt_price: SqrtPrice, liquidity: Liquidity, x: TokenAmount, add_x: bool) -> (res: Result<SqrtPrice, MathError>)
    ensures
        same_outcome(res, spec_next_sqrt_price_x_up(starting_sqrt_price.0 as nat, liquidity.0 as nat, x.0 as nat, add_x), |p: SqrtPrice| p.0 as nat),
{
    if x.is_zero() {
        return Ok(starting_sqrt_price);
    }
    let product = mul_u128(starting_sqrt_price.get(), liquidity.get());
    proof {
        lemma_u128_product(starting_sqrt_price.0, liquidity.0);
    }
    let rounded = match product.checked_add(&u256_of(LIQUIDITY_ONE - 1)) {
        Some(v) => v,
        None => u256_of(0),
    };
    let nominator = rounded.div_u128(LIQUIDITY_ONE);
    let x_price = mul_u128(x.get(), starting_sqrt_price.get());
    let scaled_liquidity = mul_u128(liquidity.get(), 1000000000000000000u128);
    let denominator = if add_x {
        match scaled_liquidity.checked_add(&x_price) {
            Some(v) => v,
            None => return Err(MathError::Add),
        }
    } else {
        match scaled_liquidity.checked_sub(&x_price) {
            Some(v) => v,
            None => return Err(MathError::Sub),
        }
    };
    SqrtPrice::checked_big_div_values_up(nominator, denominator)
}

/// The square-root price after `y` of token y is added to or taken from the
/// pool (see `spec_next_sqrt_price_y_down`).
pub fn get_next_sqrt_price_y_down(starting_sqrt_price: SqrtPrice, liquidity: Liquidity, y: TokenAmount, add_y: bool) -> (res: Result<SqrtPrice, MathError>)
    ensures
        same_outcome(res, spec_next_sqrt_price_y_down(starting_sqrt_price.0 as nat, liquidity.0 as nat, y.0 as nat, add_y), |p: SqrtPrice| p.0 as nat),
{
    let nominator = mul_u128(y.get(), LIQUIDITY_ONE);
    if add_y {
        let quotient = match SqrtPrice::checked_big_div_values(nominator, u256_of(liquidity.get())) {
            Ok(q) => q,
            Err(e) => return Err(e),
        };
        if starting_sqrt_price.get() > u128::MAX - quotient.get() {
            return Err(MathError::Add);
        }
        Ok(SqrtPrice::new(starting_sqrt_price.get() + quotient.get()))
    } else {
        let quotient = match SqrtPrice::checked_big_div_values_up(nominator, u256_of(liquidity.get())) {
            Ok(q) => q,
            Err(e) => return Err(e),
        };
        if quotient.get() > starting_sqrt_price.get() {
            return Err(MathError::Sub);
        }
        Ok(SqrtPrice::new(starting_sqrt_price.get() - quotient.get()))
    }
}

/// The price after `amount` is paid in: adding x lowers it, adding y raises it.
pub open spec fn spec_next_sqrt_price_from_input(p: nat, l: nat, amount: nat, x_to_y: bool) -> Result<nat, MathError> {
    if x_to_y {
        spec_next_sqrt_price_x_up(p, l, amount, true)
    } else {
        spec_next_sqrt_price_y_down(p, l, amount, true)
    }
}

/// The price after `amount` is paid out: taking y lowers it, taking x raises it.
pub open spec fn spec_next_sqrt_price_from_output(p: nat, l: nat, amount: nat, x_to_y: bool) -> Result<nat, MathError> {
    if x_to_y {
        spec_next_sqrt_price_y_down(p, l, amount, false)
    } else {
        spec_next_sqrt_price_x_up(p, l, amount, false)
    }
}

/// `amount * (1 - fee)`, rounded down.
pub open spec fn spec_after_fee(amount: nat, fee: nat) -> nat {
    amount * (((PERCENTAGE_ONE as nat) - fee) as nat) / (PERCENTAGE_ONE as nat)
}

/// `amount * fee`, rounded up.
pub open spec fn spec_fee_of(amount: nat, fee: nat) -> nat {
    (amount * fee + (PERCENTAGE_ONE as nat) - 1) as nat / (PERCENTAGE_ONE as nat)
}

/// The least a route may pay out when `expected` was quoted and `slippage`
/// of it may be lost: `expected * (1 - slippage)`, rounded up.
pub open spec fn spec_min_amount_out(expected: nat, slippage: nat) -> nat {
    spec_fee_of(expected, (PERCENTAGE_ONE - slippage) as nat)
}

/// The least amount out that `slippage` allows (see `spec_min_amount_out`).
pub fn calculate_min_amount_out(expected_amount_out: TokenAmount, slippage: Percentage) -> (res: TokenAmount)
    requires
        slippage.v <= PERCENTAGE_ONE,
    ensures
        res.0 == spec_min_amount_out(expected_amount_out.0 as nat, slippage.v as nat),
{
    fee_of(expected_amount_out, Percentage::new(PERCENTAGE_ONE - slippage.get()))
}

/// One step of a swap from price `cur` towards `target` with `l` liquidity,
/// trading `amount` (paid in when `by_in`, else paid out) at fee `fee`:
/// the price reached, the amounts in and out, and the fee. The step stops at
/// `target` when the amount suffices, otherwise where the amount runs out;
/// amounts in are rounded up and out down, and what is paid out never
/// exceeds the amount asked for. A step that would reach price zero fails.
pub open spec fn spec_compute_swap_step(cur: nat, target: nat, l: nat, amount: nat, by_in: bool, fee: nat) -> Result<(nat, nat, nat, nat), MathError> {
    if l == 0 {
        Ok((target, 0, 0, 0))
    } else {
        let x_to_y = cur >= target;
        let first = if by_in {
            if x_to_y {
                spec_delta_x(target, cur, l, true)
            } else {
                spec_delta_y(cur, target, l, true)
            }
        } else {
            if x_to_y {
                spec_delta_y(target, cur, l, false)
            } else {
                spec_delta_x(cur, target, l, false)
            }
        };
        match first {
            Err(e) => Err(e),
            Ok(reach) => {
                let after_fee = spec_after_fee(amount, fee);
                let next_res = if by_in {
                    if after_fee >= reach {
                        Ok(target)
                    } else {
                        spec_next_sqrt_price_from_input(cur, l, after_fee, x_to_y)
                    }
                } else {
                    if amount >= reach {
                        Ok(target)
                    } else {
                        spec_next_sqrt_price_from_output(cur, l, amount, x_to_y)
                    }
                };
                match next_res {
                    Err(e) => Err(e),
                    Ok(next) => if next == 0 {
                        Err(MathError::Div)
                    } else {
                        let not_max = target != next;
                        let in_res = if not_max || !by_in {
                            if x_to_y {
                                spec_delta_x(next, cur, l, true)
                            } else {
                                spec_delta_y(cur, next, l, true)
                            }
                        } else {
                            Ok(reach)
                        };
                        let out_res = if not_max || by_in {
                            if x_to_y {
                                spec_delta_y(next, cur, l, false)
                            } else {
                                spec_delta_x(cur, next, l, false)
                            }
                        } else {
                            Ok(reach)
                        };
                        match (in_res, out_res) {
                            (Err(e), _) => Err(e),
                            (_, Err(e)) => Err(e),
                            (Ok(amount_in), Ok(out)) => {
                                let amount_out = if !by_in && out > amount {
                                    amount
                                } else {
                                    out
                                };
                                if by_in && next != target {
                                    if amount < amount_in {
                                        Err(MathError::Sub)
                                    } else {
                                        Ok((next, amount_in, amount_out, (amount - amount_in) as nat))
                                    }
                                } else {
                                    Ok((next, amount_in, amount_out, spec_fee_of(amount_in, fee)))
                                }
                            },
                        }
                    },
                }
            },
        }
    }
}

/// The outcome of one step of a swap.
#[derive(Clone, Copy, Debug, PartialEq, Eq, Structural)]
pub struct SwapResult {
    pub next_sqrt_price: SqrtPrice,
    pub amount_in: TokenAmount,
    pub amount_out: TokenAmount,
    pub fee_amount: TokenAmount,
}

/// Whether a step's outcome is the one `spec_compute_swap_step` gives.
pub open spec fn swap_result_is(r: SwapResult, v: (nat, nat, nat, nat)) -> bool {
    r.next_sqrt_price.0 == v.0 && r.amount_in.0 == v.1 && r.amount_out.0 == v.2 && r.fee_amount.0 == v.3
}

fn after_fee(amount: TokenAmount, fee: Percentage) -> (res: TokenAmount)
    requires
        fee.v <= PERCENTAGE_ONE,
    ensures
        res.0 == spec_after_fee(amount.0 as nat, fee.v as nat),
{
    let product = mul_u128(amount.get(), (PERCENTAGE_ONE - fee.get()) as u128);
    let q = product.div_u128(PERCENTAGE_ONE as u128);
    proof {
        assert((amount.0 as nat) * ((PERCENTAGE_ONE - fee.v) as nat) <= (amount.0 as nat) * (PERCENTAGE_ONE as nat)) by (nonlinear_arith)
            requires
                fee.v <= PERCENTAGE_ONE,
        ;
        vstd::arithmetic::div_mod::lemma_div_is_ordered(product@ as int, (amount.0 as nat * PERCENTAGE_ONE as nat) as int, PERCENTAGE_ONE as int);
        vstd::arithmetic::div_mod::lemma_div_by_multiple(amount.0 as int, PERCENTAGE_ONE as int);
    }
    match q.to_u128() {
        Some(v) => TokenAmount::new(v),
        None => TokenAmount::new(0),
    }
}

/// `amount * fee`, rounded up (see `spec_fee_of`).
pub fn fee_of(amount: TokenAmount, fee: Percentage) -> (res: TokenAmount)
    requires
        fee.v <= PERCENTAGE_ONE,
    ensures
        res.0 == spec_fee_of(amount.0 as nat, fee.v as nat),
{
    let product = mul_u128(amount.get(), fee.get() as u128);
    proof {
        lemma_u128_product(amount.0, fee.v as u128);
    }
    let rounded = match product.checked_add(&u256_of((PERCENTAGE_ONE - 1) as u128)) {
        Some(v) => v,
        None => u256_of(0),
    };
    let q = rounded.div_u128(PERCENTAGE_ONE as u128);
    proof {
        let a = amount.0 as nat;
        let pc = PERCENTAGE_ONE as nat;
        assert(a * (fee.v as nat) + pc - 1 <= a * pc + pc - 1) by (nonlinear_arith)
            requires
                fee.v <= PERCENTAGE_ONE,
                pc == PERCENTAGE_ONE,
        ;
        vstd::arithmetic::div_mod::lemma_div_is_ordered(rounded@ as int, (a * pc + pc - 1) as int, pc as int);
        vstd::arithmetic::div_mod::lemma_fundamental_div_mod_converse((a * pc + pc - 1) as int, pc as int, a as int, (pc - 1) as int);
    }
    match q.to_u128() {
        Some(v) => TokenAmount::new(v),
        None => TokenAmount::new(0),
    }
}

/// One step of a swap (see `spec_compute_swap_step`); the fee must be below 100%.
pub fn compute_swap_step(
    current_sqrt_price: SqrtPrice,
    target_sqrt_price: SqrtPrice,
    liquidity: Liquidity,
    amount: TokenAmount,
    by_amount_in: bool,
    fee: Percentage,
) -> (res: Result<SwapResult, MathError>)
    requires
        fee.v <= PERCENTAGE_ONE,
        current_sqrt_price.0 > 0,
        target_sqrt_price.0 > 0,
    ensures
        match (res, spec_compute_swap_step(current_sqrt_price.0 as nat, target_sqrt_price.0 as nat, liquidity.0 as nat, amount.0 as nat, by_amount_in, fee.v as nat)) {
            (Ok(r), Ok(v)) => swap_result_is(r, v),
            (Err(e), Err(f)) => e == f,
            _ => false,
        },
{
    if liquidity.is_zero() {
        return Ok(SwapResult {
            next_sqrt_price: target_sqrt_price,
            amount_in: TokenAmount::new(0),
            amount_out: TokenAmount::new(0),
            fee_amount: TokenAmount::new(0),
        });
    }
    let x_to_y = current_sqrt_price.get() >= target_sqrt_price.get();
    let first = if by_amount_in {
        if x_to_y {
            get_delta_x(target_sqrt_price, current_sqrt_price, liquidity, true)
        } else {
            get_delta_y(current_sqrt_price, target_sqrt_price, liquidity, true)
        }
    } else {
        if x_to_y {
            get_delta_y(target_sqrt_price, current_sqrt_price, liquidity, false)
        } else {
            get_delta_x(current_sqrt_price, target_sqrt_price, liquidity, false)
        }
    };
    let reach = match first {
        Ok(v) => v,
        Err(e) => return Err(e),
    };
    let amount_after_fee = after_fee(amount, fee);
    let next_res = if by_amount_in {
        if amount_after_fee.get() >= reach.get() {
            Ok(target_sqrt_price)
        } else if x_to_y {
            get_next_sqrt_price_x_up(current_sqrt_price, liquidity, amount_after_fee, true)
        } else {
            get_next_sqrt_price_y_down(current_sqrt_price, liquidity, amount_after_fee, true)
        }
    } else {
        if amount.get() >= reach.get() {
            Ok(target_sqrt_price)
        } else if x_to_y {
            get_next_sqrt_price_y_down(current_sqrt_price, liquidity, amount, false)
        } else {
            get_next_sqrt_price_x_up(current_sqrt_price, liquidity, amount, false)
        }
    };
    let next = match next_res {
        Ok(v) => v,
        Err(e) => return Err(e),
    };
    if next.get() == 0 {
        return Err(MathError::Div);
    }
    let not_max = target_sqrt_price.get() != next.get();
    let amount_in = if not_max || !by_amount_in {
        let r = if x_to_y {
            get_delta_x(next, current_sqrt_price, liquidity, true)
        } else {
            get_delta_y(current_sqrt_price, next, liquidity, true)
        };
        match r {
            Ok(v) => v,
            Err(e) => return Err(e),
        }
    } else {
        reach
    };
    let out = if not_max || by_amount_in {
        let r = if x_to_y {
            get_delta_y(next, current_sqrt_price, liquidity, false)
        } else {
            get_delta_x(current_sqrt_price, next, liquidity, false)
        };
        match r {
            Ok(v) => v,
            Err(e) => return Err(e),
        }
    } else {
        reach
    };
    let amount_out = if !by_amount_in && out.get() > amount.get() {
        amount
    } else {
        out
    };
    let fee_amount = if by_amount_in && next.get() != target_sqrt_price.get() {
        if amount.get() < amount_in.get() {
            return Err(MathError::Sub);
        }
        TokenAmount::new(amount.get() - amount_in.get())
    } else {
        fee_of(amount_in, fee)
    };
    Ok(SwapResult { next_sqrt_price: next, amount_in, amount_out, fee_amount })
}

/// Whether `amount` still moves the price away from `start` with `l`
/// liquidity: any amount does without liquidity; otherwise the price it
/// would reach must differ from `start`.
pub open spec fn spec_is_enough_amount_to_change_price(amount: nat, start: nat, l: nat, fee: nat, by_in: bool, x_to_y: bool) -> Result<bool, MathError> {
    if l == 0 {
        Ok(true)
    } else {
        let next = if by_in {
            spec_next_sqrt_price_from_input(start, l, spec_after_fee(amount, fee), x_to_y)
        } else {
            spec_next_sqrt_price_from_output(start, l, amount, x_to_y)
        };
        match next {
            Err(e) => Err(e),
            Ok(n) => Ok(start != n),
        }
    }
}

/// Whether an amount still moves the price (see `spec_is_enough_amount_to_change_price`).
pub fn is_enough_amount_to_change_price(
    amount: TokenAmount,
    starting_sqrt_price: SqrtPrice,
    liquidity: Liquidity,
    fee: Percentage,
    by_amount_in: bool,
    x_to_y: bool,
) -> (res: Result<bool, MathError>)
    requires
        fee.v <= PERCENTAGE_ONE,
    ensures
        match (res, spec_is_enough_amount_to_change_price(amount.0 as nat, starting_sqrt_price.0 as nat, liquidity.0 as nat, fee.v as nat, by_amount_in, x_to_y)) {
            (Ok(b), Ok(c)) => b == c,
            (Err(e), Err(f)) => e == f,
            _ => false,
        },
{
    if liquidity.is_zero() {
        return Ok(true);
    }
    let next = if by_amount_in {
        let amount_after_fee = after_fee(amount, fee);
        if x_to_y {
            get_next_sqrt_price_x_up(starting_sqrt_price, liquidity, amount_after_fee, true)
        } else {
            get_next_sqrt_price_y_down(starting_sqrt_price, liquidity, amount_after_fee, true)
        }
    } else {
        if x_to_y {
            get_next_sqrt_price_y_down(starting_sqrt_price, liquidity, amount, false)
        } else {
            get_next_sqrt_price_x_up(starting_sqrt_price, liquidity, amount, false)
        }
    };
    match next {
        Ok(n) => Ok(starting_sqrt_price.get() != n.get()),
        Err(e) => Err(e),
    }
}

} // verus!
