//! What swaps, routes and positions pay: the fee of a swap step, the least a
//! route may pay out, and what claiming fees and closing a position pay out.
use crate::contracts::account::AccountId;
use crate::contracts::errors::InvariantError;
use crate::math::error::MathError;
use crate::contracts::position::{positions_of, Position};
use crate::math::clamm::{spec_amount_delta, spec_delta_x, spec_delta_y, spec_compute_swap_step, spec_fee_growth_inside, spec_min_amount_out, wrap_sub, PERCENTAGE_ONE};
use crate::math::uint::base128;
use crate::math::types::liquidity::Liquidity;
use crate::math::types::percentage::Percentage;
use crate::math::types::sqrt_price::SqrtPrice;
use crate::math::types::token_amount::TokenAmount;
use crate::protocol::{lemma_ticks_wf_replace, lemma_wf_with_pool_replaced, with_pools, spec_change_liquidity, spec_claim_fee, spec_remove_position, spec_route, spec_swap_route, state_wf, InvariantState};
use crate::swap::SwapHop;
use vstd::arithmetic::div_mod::lemma_fundamental_div_mod;
use vstd::prelude::*;

verus! {

/// `f` is `amount * rate / 10^12` rounded up: the share `rate` (in parts of
/// `10^12`) of `amount`.
pub open spec fn is_share_rounded_up(f: nat, amount: nat, rate: nat) -> bool {
    &&& f * 1_000000_000000 >= amount * rate
    &&& f * 1_000000_000000 < amount * rate + 1_000000_000000
}

proof fn lemma_ceil_share(amount: nat, rate: nat)
    ensures
        is_share_rounded_up(((amount * rate + 1_000000_000000 - 1) as nat / 1_000000_000000) as nat, amount, rate),
{
    let n = (amount * rate + 1_000000_000000 - 1) as nat;
    lemma_fundamental_div_mod(n as int, 1_000000_000000);
}

/// The fee of a swap step is the fee tier's share of what the step takes in,
/// rounded up, in either direction and whether the amount is given in or out;
/// only a step cut short by an amount paid in, which does not reach its target
/// price, keeps all that is left of that amount as its fee. So a step that
/// takes something in at a positive fee always charges one.
pub proof fn law_step_fee_is_share_of_amount_in(cur: nat, target: nat, l: nat, amount: nat, by_in: bool, fee: nat)
    requires
        spec_compute_swap_step(cur, target, l, amount, by_in, fee) is Ok,
    ensures
        ({
            let (next, amount_in, _, fee_amount) = spec_compute_swap_step(cur, target, l, amount, by_in, fee)->Ok_0;
            &&& !(by_in && next != target) ==> is_share_rounded_up(fee_amount, amount_in, fee)
            &&& (by_in && next != target) ==> amount_in + fee_amount == amount
            &&& !(by_in && next != target) && amount_in > 0 && fee > 0 ==> fee_amount > 0
        }),
{
    let (next, amount_in, _, fee_amount) = spec_compute_swap_step(cur, target, l, amount, by_in, fee)->Ok_0;
    lemma_ceil_share(amount_in, fee);
    if !(by_in && next != target) && amount_in > 0 && fee > 0 {
        assert(amount_in * fee > 0) by (nonlinear_arith)
            requires
                amount_in > 0,
                fee > 0,
        ;
    }
}

/// What a swap step trades for the price move it makes: with liquidity, it
/// takes in the amount of the token paid in that moves the price from `cur`
/// to where it stops, rounded up (token x when the price goes down, y when it
/// goes up), and pays out at most the amount of the other token for that move,
/// rounded down; exactly that when the amount paid in is given, and never more
/// than the amount asked for when the amount paid out is given. Without
/// liquidity it moves to the target trading nothing.
pub proof fn law_step_trades_for_its_price_move(cur: nat, target: nat, l: nat, amount: nat, by_in: bool, fee: nat)
    requires
        spec_compute_swap_step(cur, target, l, amount, by_in, fee) is Ok,
    ensures
        ({
            let (next, amount_in, amount_out, fee_amount) = spec_compute_swap_step(cur, target, l, amount, by_in, fee)->Ok_0;
            let x_to_y = cur >= target;
            let paid_in = if x_to_y { spec_delta_x(next, cur, l, true) } else { spec_delta_y(cur, next, l, true) };
            let paid_out = if x_to_y { spec_delta_y(next, cur, l, false) } else { spec_delta_x(cur, next, l, false) };
            &&& l == 0 ==> next == target && amount_in == 0 && amount_out == 0 && fee_amount == 0
            &&& l > 0 ==> paid_in == Ok::<nat, MathError>(amount_in)
            &&& l > 0 ==> paid_out is Ok && amount_out <= paid_out->Ok_0
            &&& l > 0 && by_in ==> paid_out == Ok::<nat, MathError>(amount_out)
            &&& l > 0 && !by_in ==> amount_out <= amount && (amount_out == amount || paid_out == Ok::<nat, MathError>(amount_out))
        }),
{
}

/// The least a route may pay out is `expected` less the `slippage` share of it,
/// rounded up.
pub proof fn law_min_amount_out_allows_slippage(expected: nat, slippage: nat)
    requires
        slippage <= PERCENTAGE_ONE,
    ensures
        is_share_rounded_up(spec_min_amount_out(expected, slippage), expected, (PERCENTAGE_ONE - slippage) as nat),
        slippage > 0 && expected * slippage >= PERCENTAGE_ONE ==> spec_min_amount_out(expected, slippage) < expected,
        spec_min_amount_out(expected, slippage) <= expected,
{
    let r = (PERCENTAGE_ONE - slippage) as nat;
    lemma_ceil_share(expected, r);
    let m = spec_min_amount_out(expected, slippage);
    assert(expected * r + expected * slippage == expected * 1_000000_000000) by (nonlinear_arith)
        requires
            r + slippage == 1_000000_000000,
    ;
    assert(m <= expected) by (nonlinear_arith)
        requires
            m * 1_000000_000000 < expected * r + 1_000000_000000,
            expected * r <= expected * 1_000000_000000,
    ;
    if slippage > 0 && expected * slippage >= PERCENTAGE_ONE {
        assert(m < expected) by (nonlinear_arith)
            requires
                m * 1_000000_000000 < expected * r + 1_000000_000000,
                expected * r + expected * slippage == expected * 1_000000_000000,
                expected * slippage >= 1_000000_000000,
        ;
    }
}

/// A route that goes through is accepted exactly when what it pays out is at
/// least `expected` less the `slippage` share of it; otherwise it is refused
/// with `AmountUnderMinimumAmountOut`.
pub proof fn law_swap_route_accepts_within_slippage(
    s: InvariantState,
    amount: TokenAmount,
    expected: TokenAmount,
    slippage: Percentage,
    hops: Seq<SwapHop>,
    timestamp: u64,
)
    requires
        slippage.v <= PERCENTAGE_ONE,
        spec_route(s, true, amount, hops, timestamp) matches Some((_, Ok(_))),
    ensures
        ({
            let (s2, r) = spec_route(s, true, amount, hops, timestamp)->Some_0;
            let out = r->Ok_0;
            &&& out.0 * 1_000000_000000 >= expected.0 * (PERCENTAGE_ONE - slippage.v) ==> spec_swap_route(s, amount, expected, slippage, hops, timestamp)
                == Some((s2, Ok::<TokenAmount, InvariantError>(out)))
            &&& out.0 * 1_000000_000000 < expected.0 * (PERCENTAGE_ONE - slippage.v) ==> spec_swap_route(s, amount, expected, slippage, hops, timestamp)
                == Some((s2, Err::<TokenAmount, InvariantError>(InvariantError::AmountUnderMinimumAmountOut)))
        }),
{
    let r = (PERCENTAGE_ONE - slippage.v) as nat;
    let out = spec_route(s, true, amount, hops, timestamp)->Some_0.1->Ok_0;
    let m = spec_min_amount_out(expected.0 as nat, slippage.v as nat);
    law_min_amount_out_allows_slippage(expected.0 as nat, slippage.v as nat);
    let o = out.0 as nat;
    let e = expected.0 as nat;
    if o * 1_000000_000000 >= e * r {
        assert(o >= m) by (nonlinear_arith)
            requires
                o * 1_000000_000000 >= e * r,
                m * 1_000000_000000 < e * r + 1_000000_000000,
        ;
    } else {
        assert(o < m) by (nonlinear_arith)
            requires
                o * 1_000000_000000 < e * r,
                m * 1_000000_000000 >= e * r,
        ;
    }
}

/// The fees that `liquidity` earned while the fee growth went from `then` to
/// `now`, the growth counted modulo `2^128` and in units of `10^-34` per unit
/// of liquidity (`10^-28` tokens per `10^-6` liquidity), rounded down.
pub open spec fn fees_earned(now: u128, then: u128, liquidity: u128) -> int {
    ((now as int - then as int) % (base128() as int)) * liquidity as int / 10000000000000000000000000000000000
}

/// The fee growth of token x inside a position's range, as the pool and the
/// position's ticks stand in `s`.
pub open spec fn growth_inside_x(s: InvariantState, p: Position) -> u128 {
    let lower = s.ticks[(p.pool_key, p.lower_tick_index)];
    let upper = s.ticks[(p.pool_key, p.upper_tick_index)];
    let pool = s.pools[p.pool_key];
    spec_fee_growth_inside(
        p.lower_tick_index as int,
        lower.fee_growth_outside_x.0,
        p.upper_tick_index as int,
        upper.fee_growth_outside_x.0,
        pool.current_tick_index as int,
        pool.fee_growth_global_x.0,
    )
}

/// The fee growth of token y inside a position's range (see `growth_inside_x`).
pub open spec fn growth_inside_y(s: InvariantState, p: Position) -> u128 {
    let lower = s.ticks[(p.pool_key, p.lower_tick_index)];
    let upper = s.ticks[(p.pool_key, p.upper_tick_index)];
    let pool = s.pools[p.pool_key];
    spec_fee_growth_inside(
        p.lower_tick_index as int,
        lower.fee_growth_outside_y.0,
        p.upper_tick_index as int,
        upper.fee_growth_outside_y.0,
        pool.current_tick_index as int,
        pool.fee_growth_global_y.0,
    )
}

/// What a position owes in token x once its fees are brought up to date in `s`.
pub open spec fn owed_x(s: InvariantState, p: Position) -> int {
    p.tokens_owed_x.0 + fees_earned(growth_inside_x(s, p), p.fee_growth_inside_x.0, p.liquidity.0)
}

/// What a position owes in token y once its fees are brought up to date in `s`.
pub open spec fn owed_y(s: InvariantState, p: Position) -> int {
    p.tokens_owed_y.0 + fees_earned(growth_inside_y(s, p), p.fee_growth_inside_y.0, p.liquidity.0)
}

proof fn lemma_wrap_sub_is_mod(a: u128, b: u128)
    ensures
        wrap_sub(a, b) as int == (a as int - b as int) % (base128() as int),
{
    let m = base128() as int;
    if a >= b {
        vstd::arithmetic::div_mod::lemma_small_mod((a - b) as nat, m as nat);
    } else {
        vstd::arithmetic::div_mod::lemma_mod_add_multiples_vanish(a as int - b as int, m);
        vstd::arithmetic::div_mod::lemma_small_mod((a as int - b as int + m) as nat, m as nat);
    }
}

/// Claiming pays out, in each token, exactly what the position owes once its
/// fees are brought up to date; afterwards it owes nothing, its fee growth is
/// the current growth inside its range, and its liquidity is unchanged.
pub proof fn law_claim_pays_what_is_owed(s: InvariantState, caller: AccountId, index: u32, timestamp: u64)
    requires
        state_wf(s),
        spec_claim_fee(s, caller, index, timestamp) matches Some((_, Ok(_))),
    ensures
        ({
            let p = positions_of(s.positions, caller)[index as int];
            let (s2, r) = spec_claim_fee(s, caller, index, timestamp)->Some_0;
            let (x, y) = r->Ok_0;
            let p2 = positions_of(s2.positions, caller)[index as int];
            &&& x.0 == owed_x(s, p)
            &&& y.0 == owed_y(s, p)
            &&& p2.tokens_owed_x.0 == 0 && p2.tokens_owed_y.0 == 0
            &&& p2.fee_growth_inside_x.0 == growth_inside_x(s, p)
            &&& p2.fee_growth_inside_y.0 == growth_inside_y(s, p)
            &&& p2.liquidity == p.liquidity
        }),
{
    let p = positions_of(s.positions, caller)[index as int];
    let key = p.pool_key;
    assert(s.ticks.dom().contains((key, p.lower_tick_index)));
    assert(s.ticks[(key, p.lower_tick_index)].index == p.lower_tick_index);
    assert(s.ticks[(key, p.upper_tick_index)].index == p.upper_tick_index);
    lemma_wrap_sub_is_mod(growth_inside_x(s, p), p.fee_growth_inside_x.0);
    lemma_wrap_sub_is_mod(growth_inside_y(s, p), p.fee_growth_inside_y.0);
    let s2 = spec_claim_fee(s, caller, index, timestamp)->Some_0.0;
    let list = positions_of(s.positions, caller);
    assert(positions_of(s2.positions, caller) == list.update(index as int, positions_of(s2.positions, caller)[index as int]));
}

/// Closing a position pays out, in each token, the amount of its liquidity
/// withdrawn at the pool's price, rounded down, and everything it owes once
/// its fees are brought up to date.
pub proof fn law_remove_pays_liquidity_and_owed(s: InvariantState, caller: AccountId, index: u32, timestamp: u64)
    requires
        state_wf(s),
        spec_remove_position(s, caller, index, timestamp) matches Some((_, Ok(_))),
    ensures
        ({
            let p = positions_of(s.positions, caller)[index as int];
            let pool = s.pools[p.pool_key];
            let amounts = spec_amount_delta(pool.current_tick_index as int, pool.sqrt_price.0 as nat, p.liquidity.0 as nat, false, p.upper_tick_index as int, p.lower_tick_index as int);
            let (x, y) = spec_remove_position(s, caller, index, timestamp)->Some_0.1->Ok_0;
            &&& amounts is Ok
            &&& x.0 == amounts->Ok_0.0 + owed_x(s, p)
            &&& y.0 == amounts->Ok_0.1 + owed_y(s, p)
        }),
{
    let p = positions_of(s.positions, caller)[index as int];
    let key = p.pool_key;
    assert(s.ticks[(key, p.lower_tick_index)].index == p.lower_tick_index);
    assert(s.ticks[(key, p.upper_tick_index)].index == p.upper_tick_index);
    lemma_wrap_sub_is_mod(growth_inside_x(s, p), p.fee_growth_inside_x.0);
    lemma_wrap_sub_is_mod(growth_inside_y(s, p), p.fee_growth_inside_y.0);
}

/// A change of a position's liquidity is refused with `AmountIsZero` exactly
/// when it moves neither token: when it goes through, the amounts it moves are
/// those of the change at the pool's price (rounded up when adding, down when
/// withdrawing) and one of them is positive; when it is refused so, both are zero.
pub proof fn law_change_liquidity_refuses_only_empty_changes(
    s: InvariantState,
    caller: AccountId,
    index: u32,
    delta: Liquidity,
    add: bool,
    slippage_limit_lower: SqrtPrice,
    slippage_limit_upper: SqrtPrice,
    timestamp: u64,
)
    requires
        state_wf(s),
    ensures
        ({
            let p = positions_of(s.positions, caller)[index as int];
            let pool = s.pools[p.pool_key];
            let amounts = spec_amount_delta(pool.current_tick_index as int, pool.sqrt_price.0 as nat, delta.0 as nat, add, p.upper_tick_index as int, p.lower_tick_index as int);
            let r = spec_change_liquidity(s, caller, index, delta, add, slippage_limit_lower, slippage_limit_upper, timestamp);
            &&& r matches Some((_, Err(InvariantError::AmountIsZero))) ==> amounts matches Ok((ax, ay, _)) && ax == 0 && ay == 0
            &&& r matches Some((_, Ok((x, y)))) ==> amounts matches Ok((ax, ay, _)) && x.0 == ax && y.0 == ay && (ax > 0 || ay > 0)
        }),
{
    let list = positions_of(s.positions, caller);
    if index < list.len() {
        let p = list[index as int];
        let key = p.pool_key;
        if s.ticks.dom().contains((key, p.lower_tick_index)) && s.ticks.dom().contains((key, p.upper_tick_index)) {
            assert(s.ticks[(key, p.lower_tick_index)].index == p.lower_tick_index);
            assert(s.ticks[(key, p.upper_tick_index)].index == p.upper_tick_index);
        }
    }
}

/// Claiming a position's fees keeps `state_wf`.
proof fn lemma_claim_keeps_wf(s: InvariantState, caller: AccountId, index: u32, timestamp: u64)
    requires
        state_wf(s),
        spec_claim_fee(s, caller, index, timestamp) matches Some((_, Ok(_))),
    ensures
        state_wf(spec_claim_fee(s, caller, index, timestamp)->Some_0.0),
{
    let p = positions_of(s.positions, caller)[index as int];
    let key = p.pool_key;
    let s2 = spec_claim_fee(s, caller, index, timestamp)->Some_0.0;
    let pool2 = s2.pools[key];
    lemma_wf_with_pool_replaced(s, key, pool2);
    let sa = with_pools(s, s.pools.insert(key, pool2));
    let upper2 = s2.ticks[(key, p.upper_tick_index)];
    let lower2 = s2.ticks[(key, p.lower_tick_index)];
    assert(s.ticks[(key, p.upper_tick_index)].index == p.upper_tick_index);
    assert(s.ticks[(key, p.lower_tick_index)].index == p.lower_tick_index);
    lemma_ticks_wf_replace(s.ticks, s.tickmap, key, p.upper_tick_index, upper2);
    lemma_ticks_wf_replace(s.ticks.insert((key, p.upper_tick_index), upper2), s.tickmap, key, p.lower_tick_index, lower2);
    assert(s2 =~= InvariantState {
        ticks: s.ticks.insert((key, p.upper_tick_index), upper2).insert((key, p.lower_tick_index), lower2),
        positions: s2.positions,
        ..sa
    });
}

/// Claiming first and then closing a position pays, in each token, the same
/// in total as closing it at once.
pub proof fn law_claim_then_remove_pays_as_remove(s: InvariantState, caller: AccountId, index: u32, timestamp: u64)
    requires
        state_wf(s),
        spec_claim_fee(s, caller, index, timestamp) matches Some((_, Ok(_))),
        spec_remove_position(spec_claim_fee(s, caller, index, timestamp)->Some_0.0, caller, index, timestamp) matches Some((_, Ok(_))),
        spec_remove_position(s, caller, index, timestamp) matches Some((_, Ok(_))),
    ensures
        ({
            let (s1, c) = spec_claim_fee(s, caller, index, timestamp)->Some_0;
            let (cx, cy) = c->Ok_0;
            let (rx, ry) = spec_remove_position(s1, caller, index, timestamp)->Some_0.1->Ok_0;
            let (x, y) = spec_remove_position(s, caller, index, timestamp)->Some_0.1->Ok_0;
            x.0 == cx.0 + rx.0 && y.0 == cy.0 + ry.0
        }),
{
    let p = positions_of(s.positions, caller)[index as int];
    let key = p.pool_key;
    let s1 = spec_claim_fee(s, caller, index, timestamp)->Some_0.0;
    lemma_claim_keeps_wf(s, caller, index, timestamp);
    law_claim_pays_what_is_owed(s, caller, index, timestamp);
    law_remove_pays_liquidity_and_owed(s, caller, index, timestamp);
    law_remove_pays_liquidity_and_owed(s1, caller, index, timestamp);
    let p1 = positions_of(s1.positions, caller)[index as int];
    assert(p1.pool_key == key && p1.lower_tick_index == p.lower_tick_index && p1.upper_tick_index == p.upper_tick_index);
    assert(s1.pools[key].current_tick_index == s.pools[key].current_tick_index);
    assert(s1.pools[key].sqrt_price == s.pools[key].sqrt_price);
    assert(growth_inside_x(s1, p1) == growth_inside_x(s, p));
    assert(growth_inside_y(s1, p1) == growth_inside_y(s, p));
    vstd::arithmetic::div_mod::lemma_small_mod(0, base128());
    assert(fees_earned(growth_inside_x(s, p), growth_inside_x(s, p), p.liquidity.0) == 0);
    assert(fees_earned(growth_inside_y(s, p), growth_inside_y(s, p), p.liquidity.0) == 0);
}

} // verus!
