//! The swap loop: the checks a swap starts with, one pass that trades up to
//! the next tick or the price limit and crosses ticks, the loop that repeats
//! it until nothing remains, and what its amounts keep.
use crate::contracts::errors::InvariantError;
use crate::contracts::storage::{Pool, PoolKey};
use crate::contracts::tick::{spec_tick_cross, Tick, Ticks};
use crate::contracts::tickmap::{aligned_tick, spec_closer_limit, Tickmap};
use crate::math::clamm::{
    compute_swap_step, is_enough_amount_to_change_price, spec_compute_swap_step,
    spec_is_enough_amount_to_change_price, swap_result_is, SwapResult, PERCENTAGE_ONE,
};
use crate::math::consts::{MAX_SQRT_PRICE, MIN_SQRT_PRICE};
use crate::math::log::{get_tick_at_sqrt_price, spec_tick_at_sqrt_price};
use crate::math::types::token_amount::TokenAmount;
use crate::math::types::percentage::Percentage;
use crate::math::types::sqrt_price::SqrtPrice;
use vstd::prelude::*;

verus! {

/// Whether a price limit fits a swap from a pool at `pool_sqrt_price`: going
/// from x to y the price falls, so the limit must lie below the pool's price and
/// not above `MAX_SQRT_PRICE`; the other way it must lie above the pool's price
/// and not below `MIN_SQRT_PRICE`.
pub open spec fn spec_swap_limit_ok(pool_sqrt_price: nat, x_to_y: bool, sqrt_price_limit: nat) -> bool {
    if x_to_y {
        sqrt_price_limit < pool_sqrt_price && sqrt_price_limit <= MAX_SQRT_PRICE
    } else {
        sqrt_price_limit > pool_sqrt_price && sqrt_price_limit >= MIN_SQRT_PRICE
    }
}

/// Refuses a price limit that does not fit the swap's direction with `WrongLimit`.
pub fn check_swap_limit(pool_sqrt_price: SqrtPrice, x_to_y: bool, sqrt_price_limit: SqrtPrice) -> (res: Result<(), InvariantError>)
    ensures
        res == (if spec_swap_limit_ok(pool_sqrt_price.0 as nat, x_to_y, sqrt_price_limit.0 as nat) {
            Ok::<(), InvariantError>(())
        } else {
            Err(InvariantError::WrongLimit)
        }),
{
    if x_to_y {
        if pool_sqrt_price.get() <= sqrt_price_limit.get() || sqrt_price_limit.get() > MAX_SQRT_PRICE {
            return Err(InvariantError::WrongLimit);
        }
    } else if pool_sqrt_price.get() >= sqrt_price_limit.get() || sqrt_price_limit.get() < MIN_SQRT_PRICE {
        return Err(InvariantError::WrongLimit);
    }
    Ok(())
}

/// What a swap still has to trade and what it has traded so far.
#[derive(Clone, Copy, Debug, PartialEq, Eq, Structural)]
pub struct SwapProgress {
    /// What is left of the requested amount.
    pub remaining_amount: TokenAmount,
    /// Tokens paid in, fees included.
    pub total_amount_in: TokenAmount,
    /// Tokens paid out.
    pub total_amount_out: TokenAmount,
    /// Fees paid.
    pub fee_amount: TokenAmount,
}

impl SwapProgress {
    /// Nothing traded yet, `amount` to go.
    pub fn new(amount: TokenAmount) -> (res: SwapProgress)
        ensures
            res == (SwapProgress {
                remaining_amount: amount,
                total_amount_in: TokenAmount(0),
                total_amount_out: TokenAmount(0),
                fee_amount: TokenAmount(0),
            }),
    {
        SwapProgress {
            remaining_amount: amount,
            total_amount_in: TokenAmount::new(0),
            total_amount_out: TokenAmount::new(0),
            fee_amount: TokenAmount::new(0),
        }
    }

}

/// The tick a swap step stopped at, as the swap sees it.
#[derive(Clone, Copy, Debug, PartialEq, Eq, Structural)]
pub enum UpdatePoolTick {
    NoTick,
    TickInitialized(Tick),
    TickUninitialized(i32),
}

/// The fixed parameters of a swap.
#[derive(Clone, Copy, Debug, PartialEq, Eq, Structural)]
pub struct SwapContext {
    pub pool_key: PoolKey,
    pub x_to_y: bool,
    pub by_amount_in: bool,
    pub sqrt_price_limit: SqrtPrice,
    pub protocol_fee: Percentage,
    pub timestamp: u64,
    pub tick_limit: i32,
}

/// Where a swap stands: the pool as the swap leaves it and the running totals.
#[derive(Clone, Copy, Debug, PartialEq, Eq, Structural)]
pub struct SwapState {
    pub pool: Pool,
    pub progress: SwapProgress,
}

/// The pool after a step that reached `next` with the step limit at
/// `swap_limit`: off the limit, or with no tick there, the pool's tick becomes
/// the tick of the price. At a tick, the swap crosses it when it goes up or
/// when what remains still moves the price; otherwise it stops there, and a
/// remainder paid in is kept as fee. Going down across a tick leaves the pool
/// one grid tick below it. Returns what is added to the amount paid in, what
/// remains, whether a tick was crossed, the pool and the tick as it now is;
/// `None` where the contract traps.
pub open spec fn spec_update_tick(pool: Pool, next: nat, swap_limit: nat, tu: UpdatePoolTick, remaining: nat, ctx: SwapContext) -> Option<(nat, nat, bool, Pool, UpdatePoolTick)> {
    let spacing = ctx.pool_key.fee_tier.tick_spacing as int;
    if tu is NoTick || swap_limit != next {
        match spec_tick_at_sqrt_price(next, spacing) {
            Err(_) => None,
            Ok(t) => Some((0nat, remaining, false, Pool { current_tick_index: t as i32, ..pool }, tu)),
        }
    } else {
        match spec_is_enough_amount_to_change_price(remaining, next, pool.liquidity.0 as nat, ctx.pool_key.fee_tier.fee.v as nat, ctx.by_amount_in, ctx.x_to_y) {
            Err(_) => None,
            Ok(enough) => {
                let r: Option<(nat, nat, bool, Pool, UpdatePoolTick, int)> = match tu {
                    UpdatePoolTick::TickInitialized(tick) => if !ctx.x_to_y || enough {
                        let (tick2, pool2) = spec_tick_cross(tick, pool, ctx.timestamp);
                        Some((0nat, remaining, true, pool2, UpdatePoolTick::TickInitialized(tick2), tick.index as int))
                    } else if remaining != 0 {
                        if ctx.by_amount_in {
                            match Pool::spec_add_fee(pool, remaining, ctx.x_to_y, ctx.protocol_fee.v as nat) {
                                Err(_) => None,
                                Ok(pool2) => Some((remaining, 0nat, false, pool2, tu, tick.index as int)),
                            }
                        } else {
                            Some((0nat, 0nat, false, pool, tu, tick.index as int))
                        }
                    } else {
                        Some((0nat, remaining, false, pool, tu, tick.index as int))
                    },
                    UpdatePoolTick::TickUninitialized(index) => Some((0nat, remaining, false, pool, tu, index as int)),
                    UpdatePoolTick::NoTick => None,
                };
                match r {
                    None => None,
                    Some((added, rem, crossed, pool2, tu2, index)) => Some(
                        (
                            added,
                            rem,
                            crossed,
                            Pool {
                                current_tick_index: (if ctx.x_to_y && enough {
                                    index - spacing
                                } else {
                                    index
                                }) as i32,
                                ..pool2
                            },
                            tu2,
                        ),
                    ),
                }
            },
        }
    }
}

/// Moves the pool's tick after a step (see `spec_update_tick`).
pub fn update_tick(
    pool: &mut Pool,
    next: SqrtPrice,
    swap_limit: SqrtPrice,
    tu: &mut UpdatePoolTick,
    remaining: TokenAmount,
    ctx: SwapContext,
) -> (res: (TokenAmount, TokenAmount, bool))
    requires
        ctx.pool_key.fee_tier.tick_spacing > 0,
        ctx.pool_key.fee_tier.fee.v <= PERCENTAGE_ONE,
        ctx.protocol_fee.v <= PERCENTAGE_ONE,
        *old(tu) matches UpdatePoolTick::TickInitialized(t) ==> t.index > i32::MIN + 65535,
        *old(tu) matches UpdatePoolTick::TickUninitialized(i) ==> i > i32::MIN + 65535,
        spec_update_tick(*old(pool), next.0 as nat, swap_limit.0 as nat, *old(tu), remaining.0 as nat, ctx) is Some,
    ensures
        spec_update_tick(*old(pool), next.0 as nat, swap_limit.0 as nat, *old(tu), remaining.0 as nat, ctx)
            == Some((res.0.0 as nat, res.1.0 as nat, res.2, *final(pool), *final(tu))),
{
    let spacing = ctx.pool_key.fee_tier.tick_spacing;
    let no_tick = match tu {
        UpdatePoolTick::NoTick => true,
        _ => false,
    };
    if no_tick || swap_limit.get() != next.get() {
        let t = match get_tick_at_sqrt_price(next, spacing) {
            Ok(t) => t,
            Err(_) => 0,
        };
        pool.current_tick_index = t;
        return (TokenAmount::new(0), remaining, false);
    }
    let enough = match is_enough_amount_to_change_price(remaining, next, pool.liquidity, ctx.pool_key.fee_tier.fee, ctx.by_amount_in, ctx.x_to_y) {
        Ok(b) => b,
        Err(_) => false,
    };
    let mut added = TokenAmount::new(0);
    let mut rem = remaining;
    let mut crossed = false;
    let index = match tu {
        UpdatePoolTick::TickInitialized(tick) => {
            let idx = tick.index;
            if !ctx.x_to_y || enough {
                tick.cross(pool, ctx.timestamp);
                crossed = true;
            } else if !remaining.is_zero() {
                if ctx.by_amount_in {
                    let _ = pool.add_fee(remaining, ctx.x_to_y, ctx.protocol_fee);
                    added = remaining;
                }
                rem = TokenAmount::new(0);
            }
            idx
        },
        UpdatePoolTick::TickUninitialized(index) => *index,
        UpdatePoolTick::NoTick => 0,
    };
    pool.current_tick_index = if ctx.x_to_y && enough {
        index - spacing as i32
    } else {
        index
    };
    (added, rem, crossed)
}

/// The tick a step stops at, as stored: an initialized tick must be stored.
pub open spec fn spec_tick_update_of(ticks: Map<(PoolKey, i32), Tick>, key: PoolKey, limiting: Option<(int, bool)>) -> Result<UpdatePoolTick, InvariantError> {
    match limiting {
        Some((index, true)) => if ticks.dom().contains((key, index as i32)) {
            Ok(UpdatePoolTick::TickInitialized(ticks[(key, index as i32)]))
        } else {
            Err(InvariantError::TickNotFound)
        },
        Some((index, false)) => Ok(UpdatePoolTick::TickUninitialized(index as i32)),
        None => Ok(UpdatePoolTick::NoTick),
    }
}

/// One pass of the swap loop: the step to the nearer of the next tick (or the
/// search limit) and the price limit, its amounts booked, its fee added to the
/// pool, the price moved, and the pool's tick updated. Refused when the totals
/// overflow, when the price limit is reached with an amount left
/// (`PriceLimitReached`), or when the pool's tick reaches the swap's tick limit
/// (`TickLimitReached`). Crossed initialized ticks are appended to `crossed`.
/// `None` where the contract traps.
pub open spec fn spec_swap_iteration(
    ticks: Map<(PoolKey, i32), Tick>,
    tickmap: Map<(u16, PoolKey), u64>,
    ctx: SwapContext,
    st: SwapState,
    crossed: Seq<Tick>,
) -> Option<Result<(SwapState, Seq<Tick>), InvariantError>> {
    let pool = st.pool;
    let key = ctx.pool_key;
    let spacing = key.fee_tier.tick_spacing as int;
    let p = st.progress;
    if !aligned_tick(pool.current_tick_index as int, spacing) || pool.sqrt_price.0 == 0 || ctx.protocol_fee.v > PERCENTAGE_ONE {
        None
    } else {
        let (swap_limit, limiting) = spec_closer_limit(tickmap, key, ctx.sqrt_price_limit.0 as nat, ctx.x_to_y, pool.current_tick_index as int, spacing);
        if swap_limit == 0 {
            None
        } else {
            match spec_compute_swap_step(pool.sqrt_price.0 as nat, swap_limit, pool.liquidity.0 as nat, p.remaining_amount.0 as nat, ctx.by_amount_in, key.fee_tier.fee.v as nat) {
                Err(_) => None,
                Ok((next, amount_in, amount_out, fee)) => {
                    let remaining = p.remaining_amount.0 as nat;
                    let used: nat = if ctx.by_amount_in {
                        amount_in + fee
                    } else {
                        amount_out
                    };
                    if ctx.by_amount_in && amount_in + fee > u128::MAX {
                        Some(Err(InvariantError::AddOverflow(amount_in as u128, fee as u128)))
                    } else if remaining < used {
                        Some(Err(InvariantError::SubUnderflow(remaining as u128, used as u128)))
                    } else {
                        match Pool::spec_add_fee(pool, fee, ctx.x_to_y, ctx.protocol_fee.v as nat) {
                            Err(_) => None,
                            Ok(pool1) => if p.fee_amount.0 + fee > u128::MAX {
                                Some(Err(InvariantError::AddOverflow(p.fee_amount.0, fee as u128)))
                            } else if p.total_amount_in.0 + amount_in > u128::MAX {
                                Some(Err(InvariantError::AddOverflow(p.total_amount_in.0, amount_in as u128)))
                            } else if p.total_amount_in.0 + amount_in + fee > u128::MAX {
                                Some(Err(InvariantError::AddOverflow((p.total_amount_in.0 + amount_in) as u128, fee as u128)))
                            } else if p.total_amount_out.0 + amount_out > u128::MAX {
                                Some(Err(InvariantError::AddOverflow(p.total_amount_out.0, amount_out as u128)))
                            } else {
                                let pool2 = Pool { sqrt_price: SqrtPrice(next as u128), ..pool1 };
                                let rem1 = (remaining - used) as nat;
                                if next == ctx.sqrt_price_limit.0 && rem1 != 0 {
                                    Some(Err(InvariantError::PriceLimitReached))
                                } else {
                                    match spec_tick_update_of(ticks, key, limiting) {
                                        Err(e) => Some(Err(e)),
                                        Ok(tu) => match spec_update_tick(pool2, next, swap_limit, tu, rem1, ctx) {
                                            None => None,
                                            Some((added, rem2, has_crossed, pool3, tu2)) => {
                                                let total_in = p.total_amount_in.0 + amount_in + fee;
                                                if total_in + added > u128::MAX {
                                                    None
                                                } else {
                                                    let crossed2 = match tu2 {
                                                        UpdatePoolTick::TickInitialized(t) => if has_crossed {
                                                            crossed.push(t)
                                                        } else {
                                                            crossed
                                                        },
                                                        _ => crossed,
                                                    };
                                                    let st2 = SwapState {
                                                        pool: pool3,
                                                        progress: SwapProgress {
                                                            remaining_amount: TokenAmount(rem2 as u128),
                                                            total_amount_in: TokenAmount((total_in + added) as u128),
                                                            total_amount_out: TokenAmount((p.total_amount_out.0 + amount_out) as u128),
                                                            fee_amount: TokenAmount((p.fee_amount.0 + fee) as u128),
                                                        },
                                                    };
                                                    if (ctx.x_to_y && pool3.current_tick_index <= ctx.tick_limit) || (!ctx.x_to_y
                                                        && pool3.current_tick_index >= ctx.tick_limit) {
                                                        Some(Err(InvariantError::TickLimitReached))
                                                    } else {
                                                        Some(Ok((st2, crossed2)))
                                                    }
                                                }
                                            },
                                        },
                                    }
                                }
                            },
                        }
                    }
                },
            }
        }
    }
}

/// The swap loop with at most `fuel` passes: it ends when nothing remains,
/// or with the first refusal; `None` where it traps or runs out of passes.
pub open spec fn spec_swap_loop(
    ticks: Map<(PoolKey, i32), Tick>,
    tickmap: Map<(u16, PoolKey), u64>,
    ctx: SwapContext,
    st: SwapState,
    crossed: Seq<Tick>,
    fuel: nat,
) -> Option<Result<(SwapState, Seq<Tick>), InvariantError>>
    decreases fuel,
{
    if st.progress.remaining_amount.0 == 0 {
        Some(Ok((st, crossed)))
    } else if fuel == 0 {
        None
    } else {
        match spec_swap_iteration(ticks, tickmap, ctx, st, crossed) {
            None => None,
            Some(Err(e)) => Some(Err(e)),
            Some(Ok((st2, crossed2))) => spec_swap_loop(ticks, tickmap, ctx, st2, crossed2, (fuel - 1) as nat),
        }
    }
}

/// How a swap's amounts stand against the `amount` asked for: by the amount
/// paid in, what remains plus what was paid in (fees included) is that amount;
/// by the amount paid out, what remains plus what was paid out is at most that.
pub open spec fn amounts_kept(p: SwapProgress, amount: nat, by_amount_in: bool) -> bool {
    if by_amount_in {
        p.remaining_amount.0 + p.total_amount_in.0 == amount
    } else {
        p.remaining_amount.0 + p.total_amount_out.0 <= amount
    }
}

/// Moving the pool's tick takes nothing out of the swap: what it keeps as fee
/// and what remains make up what remained, and it never adds to what remains.
pub proof fn lemma_update_tick_amounts(pool: Pool, next: nat, swap_limit: nat, tu: UpdatePoolTick, remaining: nat, ctx: SwapContext)
    requires
        spec_update_tick(pool, next, swap_limit, tu, remaining, ctx) is Some,
    ensures
        ({
            let (added, rem, _, _, _) = spec_update_tick(pool, next, swap_limit, tu, remaining, ctx)->Some_0;
            &&& rem <= remaining
            &&& ctx.by_amount_in ==> added + rem == remaining
        }),
{
}

/// One pass of the swap loop keeps `amounts_kept`.
pub proof fn lemma_iteration_keeps_amounts(
    ticks: Map<(PoolKey, i32), Tick>,
    tickmap: Map<(u16, PoolKey), u64>,
    ctx: SwapContext,
    st: SwapState,
    crossed: Seq<Tick>,
    amount: nat,
)
    requires
        amounts_kept(st.progress, amount, ctx.by_amount_in),
        spec_swap_iteration(ticks, tickmap, ctx, st, crossed) matches Some(Ok(_)),
    ensures
        amounts_kept(spec_swap_iteration(ticks, tickmap, ctx, st, crossed)->Some_0->Ok_0.0.progress, amount, ctx.by_amount_in),
{
    let pool = st.pool;
    let key = ctx.pool_key;
    let spacing = key.fee_tier.tick_spacing as int;
    let p = st.progress;
    let (swap_limit, limiting) = spec_closer_limit(tickmap, key, ctx.sqrt_price_limit.0 as nat, ctx.x_to_y, pool.current_tick_index as int, spacing);
    let (next, amount_in, amount_out, fee) = spec_compute_swap_step(pool.sqrt_price.0 as nat, swap_limit, pool.liquidity.0 as nat, p.remaining_amount.0 as nat, ctx.by_amount_in, key.fee_tier.fee.v as nat)->Ok_0;
    let remaining = p.remaining_amount.0 as nat;
    let used: nat = if ctx.by_amount_in { amount_in + fee } else { amount_out };
    let pool1 = Pool::spec_add_fee(pool, fee, ctx.x_to_y, ctx.protocol_fee.v as nat)->Ok_0;
    let pool2 = Pool { sqrt_price: SqrtPrice(next as u128), ..pool1 };
    let rem1 = (remaining - used) as nat;
    let tu = spec_tick_update_of(ticks, key, limiting)->Ok_0;
    lemma_update_tick_amounts(pool2, next, swap_limit, tu, rem1, ctx);
}

/// A swap loop that ends well has nothing left and keeps `amounts_kept`.
pub proof fn lemma_loop_keeps_amounts(
    ticks: Map<(PoolKey, i32), Tick>,
    tickmap: Map<(u16, PoolKey), u64>,
    ctx: SwapContext,
    st: SwapState,
    crossed: Seq<Tick>,
    fuel: nat,
    amount: nat,
)
    requires
        amounts_kept(st.progress, amount, ctx.by_amount_in),
        spec_swap_loop(ticks, tickmap, ctx, st, crossed, fuel) matches Some(Ok(_)),
    ensures
        ({
            let end = spec_swap_loop(ticks, tickmap, ctx, st, crossed, fuel)->Some_0->Ok_0.0;
            amounts_kept(end.progress, amount, ctx.by_amount_in) && end.progress.remaining_amount.0 == 0
        }),
    decreases fuel,
{
    if st.progress.remaining_amount.0 != 0 {
        lemma_iteration_keeps_amounts(ticks, tickmap, ctx, st, crossed, amount);
        let (st2, crossed2) = spec_swap_iteration(ticks, tickmap, ctx, st, crossed)->Some_0->Ok_0;
        lemma_loop_keeps_amounts(ticks, tickmap, ctx, st2, crossed2, (fuel - 1) as nat, amount);
    }
}

/// Whether the swap loop ends without trapping.
pub open spec fn swap_loop_ends(
    ticks: Map<(PoolKey, i32), Tick>,
    tickmap: Map<(u16, PoolKey), u64>,
    ctx: SwapContext,
    st: SwapState,
) -> bool {
    exists|fuel: nat| #[trigger] spec_swap_loop(ticks, tickmap, ctx, st, Seq::empty(), fuel) is Some
}

/// How the swap loop ends, where it does.
pub open spec fn spec_swap_loop_end(
    ticks: Map<(PoolKey, i32), Tick>,
    tickmap: Map<(u16, PoolKey), u64>,
    ctx: SwapContext,
    st: SwapState,
) -> Result<(SwapState, Seq<Tick>), InvariantError> {
    spec_swap_loop(ticks, tickmap, ctx, st, Seq::empty(), choose|fuel: nat| #[trigger] spec_swap_loop(ticks, tickmap, ctx, st, Seq::empty(), fuel) is Some)->Some_0
}

/// Whether every tick in `crossed` is stored for the pool of `key`.
pub open spec fn crossed_stored(ticks: Map<(PoolKey, i32), Tick>, key: PoolKey, crossed: Seq<Tick>) -> bool {
    forall|j: int| 0 <= j < crossed.len() ==> ticks.dom().contains((key, #[trigger] crossed[j].index))
}

/// One pass of the swap loop (see `spec_swap_iteration`).
pub fn swap_iteration(ticks: &Ticks, tickmap: &Tickmap, ctx: SwapContext, st: &mut SwapState, crossed: &mut Vec<Tick>) -> (res: Result<(), InvariantError>)
    requires
        ticks.wf(),
        tickmap.wf(),
        ctx.pool_key.fee_tier.tick_spacing > 0,
        ctx.pool_key.fee_tier.fee.v <= PERCENTAGE_ONE,
        forall|k: PoolKey, t: i32| #[trigger] ticks@.dom().contains((k, t)) ==> ticks@[(k, t)].index == t,
        spec_swap_iteration(ticks@, tickmap@, ctx, *old(st), old(crossed)@) is Some,
        crossed_stored(ticks@, ctx.pool_key, old(crossed)@),
    ensures
        match spec_swap_iteration(ticks@, tickmap@, ctx, *old(st), old(crossed)@) {
            Some(Ok((st2, c2))) => res is Ok && *final(st) == st2 && final(crossed)@ == c2,
            Some(Err(e)) => res == Err::<(), InvariantError>(e),
            None => false,
        },
        res is Ok ==> crossed_stored(ticks@, ctx.pool_key, final(crossed)@),
{
    let key = ctx.pool_key;
    let spacing = key.fee_tier.tick_spacing;
    let pool = st.pool;
    let p = st.progress;
    let (swap_limit, limiting) = tickmap.get_closer_limit(ctx.sqrt_price_limit, ctx.x_to_y, pool.current_tick_index, spacing, key);
    let step = match compute_swap_step(pool.sqrt_price, swap_limit, pool.liquidity, p.remaining_amount, ctx.by_amount_in, key.fee_tier.fee) {
        Ok(r) => r,
        Err(_) => return Err(InvariantError::AmountIsZero),
    };
    let amount_in = step.amount_in.get();
    let amount_out = step.amount_out.get();
    let fee = step.fee_amount.get();
    let remaining = p.remaining_amount.get();
    let used = if ctx.by_amount_in {
        match amount_in.checked_add(fee) {
            Some(v) => v,
            None => return Err(InvariantError::AddOverflow(amount_in, fee)),
        }
    } else {
        amount_out
    };
    if remaining < used {
        return Err(InvariantError::SubUnderflow(remaining, used));
    }
    let mut pool1 = pool;
    let _ = pool1.add_fee(step.fee_amount, ctx.x_to_y, ctx.protocol_fee);
    let new_fee = match p.fee_amount.get().checked_add(fee) {
        Some(v) => v,
        None => return Err(InvariantError::AddOverflow(p.fee_amount.get(), fee)),
    };
    let intermediate = match p.total_amount_in.get().checked_add(amount_in) {
        Some(v) => v,
        None => return Err(InvariantError::AddOverflow(p.total_amount_in.get(), amount_in)),
    };
    let total_in = match intermediate.checked_add(fee) {
        Some(v) => v,
        None => return Err(InvariantError::AddOverflow(intermediate, fee)),
    };
    let total_out = match p.total_amount_out.get().checked_add(amount_out) {
        Some(v) => v,
        None => return Err(InvariantError::AddOverflow(p.total_amount_out.get(), amount_out)),
    };
    pool1.sqrt_price = step.next_sqrt_price;
    let rem1 = remaining - used;
    if step.next_sqrt_price.get() == ctx.sqrt_price_limit.get() && rem1 != 0 {
        return Err(InvariantError::PriceLimitReached);
    }
    let mut tu = match limiting {
        Some((index, true)) => match ticks.get(key, index) {
            Ok(tick) => UpdatePoolTick::TickInitialized(tick),
            Err(e) => return Err(e),
        },
        Some((index, false)) => UpdatePoolTick::TickUninitialized(index),
        None => UpdatePoolTick::NoTick,
    };
    let ghost tu0 = tu;
    let (added, rem2, has_crossed) = update_tick(&mut pool1, step.next_sqrt_price, swap_limit, &mut tu, TokenAmount::new(rem1), ctx);
    let new_in = total_in + added.get();
    if has_crossed {
        if let UpdatePoolTick::TickInitialized(t) = tu {
            proof {
                assert(tu0 matches UpdatePoolTick::TickInitialized(t0) && t0.index == t.index);
                assert(ticks@.dom().contains((key, t.index)));
            }
            crossed.push(t);
            proof {
                assert(crossed_stored(ticks@, key, crossed@)) by {
                    assert forall|j: int| 0 <= j < crossed@.len() implies ticks@.dom().contains((key, #[trigger] crossed@[j].index)) by {
                        if j < crossed@.len() - 1 {
                            assert(crossed@[j] == old(crossed)@[j]);
                        }
                    }
                }
            }
        }
    }
    *st = SwapState {
        pool: pool1,
        progress: SwapProgress {
            remaining_amount: rem2,
            total_amount_in: TokenAmount::new(new_in),
            total_amount_out: TokenAmount::new(total_out),
            fee_amount: TokenAmount::new(new_fee),
        },
    };
    if (ctx.x_to_y && pool1.current_tick_index <= ctx.tick_limit) || (!ctx.x_to_y && pool1.current_tick_index >= ctx.tick_limit) {
        return Err(InvariantError::TickLimitReached);
    }
    Ok(())
}

/// Runs the swap loop to its end (see `spec_swap_loop_end`).
pub fn run_swap_loop(ticks: &Ticks, tickmap: &Tickmap, ctx: SwapContext, start: SwapState) -> (res: Result<(SwapState, Vec<Tick>), InvariantError>)
    requires
        ticks.wf(),
        tickmap.wf(),
        ctx.pool_key.fee_tier.tick_spacing > 0,
        ctx.pool_key.fee_tier.fee.v <= PERCENTAGE_ONE,
        forall|k: PoolKey, t: i32| #[trigger] ticks@.dom().contains((k, t)) ==> ticks@[(k, t)].index == t,
        swap_loop_ends(ticks@, tickmap@, ctx, start),
    ensures
        match (res, spec_swap_loop_end(ticks@, tickmap@, ctx, start)) {
            (Ok((st, c)), Ok((st2, c2))) => st == st2 && c@ == c2,
            (Err(e), Err(f)) => e == f,
            _ => false,
        },
        res matches Ok((_, c)) ==> crossed_stored(ticks@, ctx.pool_key, c@),
{
    let ghost fuel0: nat = choose|fuel: nat| #[trigger] spec_swap_loop(ticks@, tickmap@, ctx, start, Seq::empty(), fuel) is Some;
    let ghost mut fuel: nat = fuel0;
    let mut st = start;
    let mut crossed: Vec<Tick> = Vec::new();
    proof {
        assert(crossed@ == Seq::<Tick>::empty());
    }
    while !st.progress.remaining_amount.is_zero()
        invariant
            ticks.wf(),
            tickmap.wf(),
            ctx.pool_key.fee_tier.tick_spacing > 0,
            ctx.pool_key.fee_tier.fee.v <= PERCENTAGE_ONE,
            forall|k: PoolKey, t: i32| #[trigger] ticks@.dom().contains((k, t)) ==> ticks@[(k, t)].index == t,
            spec_swap_loop(ticks@, tickmap@, ctx, st, crossed@, fuel) is Some,
            spec_swap_loop(ticks@, tickmap@, ctx, st, crossed@, fuel) == Some(spec_swap_loop_end(ticks@, tickmap@, ctx, start)),
            crossed_stored(ticks@, ctx.pool_key, crossed@),
        decreases fuel,
    {
        let ghost before = st;
        let ghost before_crossed = crossed@;
        match swap_iteration(ticks, tickmap, ctx, &mut st, &mut crossed) {
            Ok(()) => {},
            Err(e) => return Err(e),
        }
        proof {
            fuel = (fuel - 1) as nat;
        }
    }
    Ok((st, crossed))
}

/// What a swap amounts to: the totals paid in (fees included) and out, the
/// price before and after, the fees, the pool as the swap leaves it, and the
/// initialized ticks it crossed, in order.
pub struct CalculateSwapResult {
    pub amount_in: TokenAmount,
    pub amount_out: TokenAmount,
    pub start_sqrt_price: SqrtPrice,
    pub target_sqrt_price: SqrtPrice,
    pub fee: TokenAmount,
    pub pool: Pool,
    pub ticks: Vec<Tick>,
}

/// One hop of a route: the pool to swap in and the direction.
#[derive(Clone, Copy, Debug, PartialEq, Eq, Structural)]
pub struct SwapHop {
    pub pool_key: PoolKey,
    pub x_to_y: bool,
}

/// What a quote tells: the totals paid in (fees included) and out, the price
/// the swap would end at, and the initialized ticks it would cross.
pub struct QuoteResult {
    pub amount_in: TokenAmount,
    pub amount_out: TokenAmount,
    pub target_sqrt_price: SqrtPrice,
    pub ticks: Vec<Tick>,
}

/// Whether a swap's result is the end state `st` with the crossed ticks
/// `crossed`, started at price `start`.
pub open spec fn swap_result_matches(r: CalculateSwapResult, start: SqrtPrice, st: SwapState, crossed: Seq<Tick>) -> bool {
    &&& r.amount_in == st.progress.total_amount_in
    &&& r.amount_out == st.progress.total_amount_out
    &&& r.start_sqrt_price == start
    &&& r.target_sqrt_price == st.pool.sqrt_price
    &&& r.fee == st.progress.fee_amount
    &&& r.pool == st.pool
    &&& r.ticks@ == crossed
}

} // verus!
