//! The contract's state machine: configuration, fee tiers, pools, ticks and
//! the tick map, positions, and the requests that read and change them. The
//! caller of a request and the block time are handed in by whoever runs the
//! contract.
use crate::contracts::account::{account_lt, AccountId};
use crate::contracts::collections::{
    assoc_keys, assoc_map, keys_distinct, lemma_assoc_map_dom, lemma_assoc_map_index, spec_page, FeeTiers,
    PoolKeys, Pools,
};
use crate::contracts::errors::InvariantError;
use crate::contracts::storage::{
    fee_tier_valid, spec_fee_tier, spec_new_pool, spec_pool_key, FeeTier, InvariantConfig, Pool,
    PoolKey,
};
use crate::math::clamm::{calculate_min_amount_out, check_tick, spec_check_tick, spec_min_amount_out, PERCENTAGE_ONE};
use crate::math::consts::{pow10, MAX_SQRT_PRICE, MAX_TICK, MIN_SQRT_PRICE};
use crate::math::types::token_amount::TokenAmount;
use crate::math::types::liquidity::Liquidity;
use crate::math::types::percentage::Percentage;
use crate::math::types::sqrt_price::{get_max_tick, get_min_tick, spec_max_tick, SqrtPrice};
use crate::contracts::position::{
    modify_runs, owner_lists, positions_of, spec_modify, spec_position_claim_fee, spec_position_create,
    spec_position_remove, spec_swap_remove, Position, Positions,
};
use crate::contracts::tick::{spec_tick_create, Tick, Ticks};
use crate::contracts::tickmap::{
    aligned_tick, lemma_count_set_bound, lemma_flipped_bits, lemma_tick_index, spec_bit, spec_count_set, spec_flipped, spec_index_set,
    spec_tick_index, spec_tick_initialized, spec_tick_to_position, tick_to_position, Tickmap,
};
use crate::swap::{
    check_swap_limit, crossed_stored, run_swap_loop, spec_swap_limit_ok, spec_swap_loop_end, swap_loop_ends, swap_result_matches,
    CalculateSwapResult, QuoteResult, SwapContext, SwapHop, SwapProgress, SwapState,
};
use vstd::prelude::*;

verus! {

/// What the contract holds, as mathematical values.
#[verifier::ext_equal]
pub struct InvariantState {
    pub config: InvariantConfig,
    pub fee_tiers: Seq<FeeTier>,
    pub pools: Map<PoolKey, Pool>,
    pub pool_keys: Seq<PoolKey>,
    pub ticks: Map<(PoolKey, i32), Tick>,
    pub tickmap: Map<(u16, PoolKey), u64>,
    pub positions: Map<AccountId, Seq<Position>>,
}

/// Whether the tick map marks tick `t` of pool `k` initialized, on the grid of `k`'s fee tier.
pub open spec fn tick_marked(m: Map<(u16, PoolKey), u64>, k: PoolKey, t: i32) -> bool {
    spec_tick_initialized(m, k, t as int, k.fee_tier.tick_spacing as int)
}

/// Every stored tick is a usable tick of its pool's grid and knows its index,
/// and the tick map marks exactly the stored ticks.
pub open spec fn ticks_wf(ticks: Map<(PoolKey, i32), Tick>, tickmap: Map<(u16, PoolKey), u64>) -> bool {
    &&& forall|k: PoolKey, t: i32| #[trigger] ticks.dom().contains((k, t)) ==> aligned_tick(
        t as int,
        k.fee_tier.tick_spacing as int,
    ) && ticks[(k, t)].index == t
    &&& forall|k: PoolKey, t: i32|
        #![trigger tick_marked(tickmap, k, t)]
        #![trigger ticks.dom().contains((k, t))]
        aligned_tick(t as int, k.fee_tier.tick_spacing as int) ==> (tick_marked(tickmap, k, t) <==> ticks.dom().contains((k, t)))
}

/// A stored pool key lies on a valid fee tier and names its smaller token first.
pub open spec fn pool_key_ok(key: PoolKey) -> bool {
    fee_tier_valid(key.fee_tier) && account_lt(key.token_x, key.token_y)
}

/// What every reachable state satisfies: fee tiers are valid and distinct, pool
/// keys are distinct and counted by a `u16`, there is a pool for exactly
/// the listed pool keys, each pool key satisfies `pool_key_ok`, and the ticks
/// satisfy `ticks_wf`.
pub open spec fn state_wf(s: InvariantState) -> bool {
    &&& registry_wf(s)
    &&& ticks_wf(s.ticks, s.tickmap)
}

/// No tick and an empty tick map satisfy `ticks_wf`.
pub proof fn lemma_ticks_wf_empty()
    ensures
        ticks_wf(Map::empty(), Map::empty()),
{
    assert forall|b: u64| !spec_bit(0u64, b) by {
        assert((0u64 >> b) & 1u64 == 0u64) by (bit_vector);
    }
}

/// Marking a new tick, or unmarking a stored one, keeps `ticks_wf` when the
/// tick is added to or removed from the stored ticks alike.
pub proof fn lemma_ticks_wf_after_flip(
    ticks: Map<(PoolKey, i32), Tick>,
    tickmap: Map<(u16, PoolKey), u64>,
    new_ticks: Map<(PoolKey, i32), Tick>,
    new_tickmap: Map<(u16, PoolKey), u64>,
    key: PoolKey,
    index: i32,
    adding: bool,
)
    requires
        ticks_wf(ticks, tickmap),
        aligned_tick(index as int, key.fee_tier.tick_spacing as int),
        adding ==> !ticks.dom().contains((key, index)) && new_ticks.dom() == ticks.dom().insert((key, index))
            && new_ticks[(key, index)].index == index
            && forall|k: PoolKey, t: i32| (k, t) != (key, index) && #[trigger] ticks.dom().contains((k, t)) ==> new_ticks[(k, t)] == ticks[(k, t)],
        !adding ==> ticks.dom().contains((key, index)) && new_ticks == ticks.remove((key, index)),
        forall|k: PoolKey, i: int| #[trigger] spec_index_set(new_tickmap, k, i) == if k == key && i == spec_tick_index(
            index as int,
            key.fee_tier.tick_spacing as int,
        ) {
            adding
        } else {
            spec_index_set(tickmap, k, i)
        },
    ensures
        ticks_wf(new_ticks, new_tickmap),
{
    let s = key.fee_tier.tick_spacing as int;
    let idx = spec_tick_index(index as int, s);
    assert forall|k: PoolKey, t: i32| #[trigger] new_ticks.dom().contains((k, t)) implies aligned_tick(
        t as int,
        k.fee_tier.tick_spacing as int,
    ) && new_ticks[(k, t)].index == t by {
        if (k, t) != (key, index) {
            assert(ticks.dom().contains((k, t)));
        }
    }
    assert forall|k: PoolKey, t: i32| aligned_tick(t as int, k.fee_tier.tick_spacing as int) implies (tick_marked(
        new_tickmap,
        k,
        t,
    ) <==> new_ticks.dom().contains((k, t))) by {
        let i = spec_tick_index(t as int, k.fee_tier.tick_spacing as int);
        assert(spec_index_set(new_tickmap, k, i) == spec_index_set(tickmap, k, i) || (k == key && i == idx));
        if k == key {
            lemma_tick_index(t as int, index as int, s);
        }
        assert(tick_marked(tickmap, k, t) <==> ticks.dom().contains((k, t)));
    }
}

/// The state with another configuration.
pub open spec fn with_config(s: InvariantState, config: InvariantConfig) -> InvariantState {
    InvariantState { config, ..s }
}

/// The state with other fee tiers.
pub open spec fn with_fee_tiers(s: InvariantState, fee_tiers: Seq<FeeTier>) -> InvariantState {
    InvariantState { fee_tiers, ..s }
}

/// The state with another pool map.
pub open spec fn with_pools(s: InvariantState, pools: Map<PoolKey, Pool>) -> InvariantState {
    InvariantState { pools, ..s }
}

/// Changing the configuration keeps `state_wf`.
pub proof fn lemma_wf_with_config(s: InvariantState, config: InvariantConfig)
    requires
        state_wf(s),
    ensures
        state_wf(with_config(s, config)),
{
}

/// Replacing the pool stored under a listed key keeps `state_wf`.
pub proof fn lemma_wf_with_pool_replaced(s: InvariantState, key: PoolKey, pool: Pool)
    requires
        state_wf(s),
        s.pools.dom().contains(key),
    ensures
        state_wf(with_pools(s, s.pools.insert(key, pool))),
{
    assert forall|k: PoolKey| #[trigger] s.pools.insert(key, pool).dom().contains(k) <==> s.pool_keys.contains(k) by {
        assert(s.pools.dom().contains(k) <==> s.pool_keys.contains(k));
    }
    assert forall|k: PoolKey| #[trigger] s.pools.insert(key, pool).dom().contains(k) implies pool_key_ok(k) by {
        assert(s.pools.dom().contains(k));
    }
}

/// Appending a valid fee tier that is not offered yet keeps `state_wf`.
pub proof fn lemma_wf_with_fee_tier_added(s: InvariantState, fee_tier: FeeTier)
    requires
        state_wf(s),
        fee_tier_valid(fee_tier),
        !s.fee_tiers.contains(fee_tier),
    ensures
        state_wf(with_fee_tiers(s, s.fee_tiers.push(fee_tier))),
{
    let t = s.fee_tiers.push(fee_tier);
    assert forall|i: int| 0 <= i < t.len() implies fee_tier_valid(#[trigger] t[i]) by {
        if i < s.fee_tiers.len() {
            assert(t[i] == s.fee_tiers[i]);
        }
    }
    assert forall|a: int, b: int| 0 <= a < t.len() && 0 <= b < t.len() && a != b implies t[a] != t[b] by {
        if a < s.fee_tiers.len() && b < s.fee_tiers.len() {
            assert(s.fee_tiers[a] != s.fee_tiers[b]);
        } else if a < s.fee_tiers.len() {
            assert(s.fee_tiers[a] != fee_tier);
        } else {
            assert(s.fee_tiers[b] != fee_tier);
        }
    }
}

/// Removing an offered fee tier keeps `state_wf`.
pub proof fn lemma_wf_with_fee_tier_removed(s: InvariantState, k: int)
    requires
        state_wf(s),
        0 <= k < s.fee_tiers.len(),
    ensures
        state_wf(with_fee_tiers(s, s.fee_tiers.remove(k))),
{
    let t = s.fee_tiers.remove(k);
    s.fee_tiers.remove_ensures(k);
    assert forall|i: int| 0 <= i < t.len() implies fee_tier_valid(#[trigger] t[i]) by {
        if i < k {
            assert(t[i] == s.fee_tiers[i]);
        } else {
            assert(t[i] == s.fee_tiers[i + 1]);
        }
    }
    assert forall|a: int, b: int| 0 <= a < t.len() && 0 <= b < t.len() && a != b implies t[a] != t[b] by {
        let a2 = if a < k { a } else { a + 1 };
        let b2 = if b < k { b } else { b + 1 };
        assert(t[a] == s.fee_tiers[a2]);
        assert(t[b] == s.fee_tiers[b2]);
        assert(s.fee_tiers[a2] != s.fee_tiers[b2]);
    }
}

/// Listing a new pool on a valid fee tier, while the count of pool keys still
/// fits a `u16`, keeps `state_wf`.
pub proof fn lemma_wf_with_pool_added(s: InvariantState, key: PoolKey, pool: Pool)
    requires
        state_wf(s),
        !s.pools.dom().contains(key),
        pool_key_ok(key),
        s.pool_keys.len() < u16::MAX,
    ensures
        state_wf(InvariantState { pools: s.pools.insert(key, pool), pool_keys: s.pool_keys.push(key), ..s }),
{
    let ks = s.pool_keys.push(key);
    let ps = s.pools.insert(key, pool);
    assert(!s.pool_keys.contains(key));
    assert forall|a: int, b: int| 0 <= a < ks.len() && 0 <= b < ks.len() && a != b implies ks[a] != ks[b] by {
        if a < s.pool_keys.len() && b < s.pool_keys.len() {
            assert(s.pool_keys[a] != s.pool_keys[b]);
        } else if a < s.pool_keys.len() {
            assert(s.pool_keys[a] != key);
        } else {
            assert(s.pool_keys[b] != key);
        }
    }
    assert forall|k: PoolKey| #[trigger] ps.dom().contains(k) <==> ks.contains(k) by {
        if k != key {
            assert(s.pools.dom().contains(k) <==> s.pool_keys.contains(k));
            if s.pool_keys.contains(k) {
                let j = choose|j: int| 0 <= j < s.pool_keys.len() && s.pool_keys[j] == k;
                assert(ks[j] == k);
            }
            if ks.contains(k) {
                let j = choose|j: int| 0 <= j < ks.len() && ks[j] == k;
                assert(j < s.pool_keys.len());
                assert(s.pool_keys[j] == k);
            }
        } else {
            assert(ks[s.pool_keys.len() as int] == k);
        }
    }
    assert forall|k: PoolKey| #[trigger] ps.dom().contains(k) implies pool_key_ok(k) by {
        if k != key {
            assert(s.pools.dom().contains(k));
        }
    }
}

/// The state right after deployment by `admin`.
pub open spec fn spec_initial(admin: AccountId, protocol_fee: Percentage) -> InvariantState {
    InvariantState {
        config: InvariantConfig { admin, protocol_fee },
        fee_tiers: Seq::empty(),
        pools: Map::empty(),
        pool_keys: Seq::empty(),
        ticks: Map::empty(),
        tickmap: Map::empty(),
        positions: Map::empty(),
    }
}

/// `change_protocol_fee`: the admin sets the protocol fee.
pub open spec fn spec_change_protocol_fee(s: InvariantState, caller: AccountId, protocol_fee: Percentage) -> (InvariantState, Result<(), InvariantError>) {
    if caller != s.config.admin {
        (s, Err(InvariantError::NotAdmin))
    } else {
        (with_config(s, InvariantConfig { protocol_fee, ..s.config }), Ok(()))
    }
}

/// `add_fee_tier`: the admin offers a new valid fee tier.
pub open spec fn spec_add_fee_tier(s: InvariantState, caller: AccountId, fee_tier: FeeTier) -> (InvariantState, Result<(), InvariantError>) {
    match spec_fee_tier(fee_tier.fee, fee_tier.tick_spacing) {
        Err(e) => (s, Err(e)),
        Ok(_) => if caller != s.config.admin {
            (s, Err(InvariantError::NotAdmin))
        } else if s.fee_tiers.contains(fee_tier) {
            (s, Err(InvariantError::FeeTierAlreadyExist))
        } else {
            (with_fee_tiers(s, s.fee_tiers.push(fee_tier)), Ok(()))
        },
    }
}

/// `remove_fee_tier`: the admin withdraws an offered fee tier.
pub open spec fn spec_remove_fee_tier(s: InvariantState, caller: AccountId, fee_tier: FeeTier) -> (InvariantState, Result<(), InvariantError>) {
    if caller != s.config.admin {
        (s, Err(InvariantError::NotAdmin))
    } else if !s.fee_tiers.contains(fee_tier) {
        (s, Err(InvariantError::FeeTierNotFound))
    } else {
        (with_fee_tiers(s, s.fee_tiers.remove(s.fee_tiers.index_of(fee_tier))), Ok(()))
    }
}

/// `change_fee_receiver`: the admin names who may withdraw a pool's protocol fees.
pub open spec fn spec_change_fee_receiver(s: InvariantState, caller: AccountId, pool_key: PoolKey, fee_receiver: AccountId) -> (InvariantState, Result<(), InvariantError>) {
    if caller != s.config.admin {
        (s, Err(InvariantError::NotAdmin))
    } else if !s.pools.dom().contains(pool_key) {
        (s, Err(InvariantError::PoolNotFound))
    } else {
        (with_pools(s, s.pools.insert(pool_key, Pool { fee_receiver, ..s.pools[pool_key] })), Ok(()))
    }
}

/// `withdraw_protocol_fee`: the pool's fee receiver takes the protocol fees
/// collected in the pool, which drop to zero; the amounts are to be paid out.
pub open spec fn spec_withdraw_protocol_fee(s: InvariantState, caller: AccountId, pool_key: PoolKey) -> (InvariantState, Result<(TokenAmount, TokenAmount), InvariantError>) {
    if !s.pools.dom().contains(pool_key) {
        (s, Err(InvariantError::PoolNotFound))
    } else if s.pools[pool_key].fee_receiver != caller {
        (s, Err(InvariantError::NotFeeReceiver))
    } else {
        let pool = s.pools[pool_key];
        (
            with_pools(
                s,
                s.pools.insert(
                    pool_key,
                    Pool { fee_protocol_token_x: TokenAmount(0), fee_protocol_token_y: TokenAmount(0), ..pool },
                ),
            ),
            Ok((pool.fee_protocol_token_x, pool.fee_protocol_token_y)),
        )
    }
}

/// `create_pool`: anyone opens a pool of two tokens on an offered fee tier at
/// an initial tick and price; the admin receives its protocol fees.
pub open spec fn spec_create_pool(
    s: InvariantState,
    token_0: AccountId,
    token_1: AccountId,
    fee_tier: FeeTier,
    init_sqrt_price: SqrtPrice,
    init_tick: i32,
    timestamp: u64,
) -> (InvariantState, Result<(), InvariantError>) {
    if !s.fee_tiers.contains(fee_tier) {
        (s, Err(InvariantError::FeeTierNotFound))
    } else if spec_check_tick(init_tick as int, fee_tier.tick_spacing as int) is Err {
        (s, Err(InvariantError::InvalidInitTick))
    } else {
        match spec_pool_key(token_0, token_1, fee_tier) {
            Err(e) => (s, Err(e)),
            Ok(key) => if s.pools.dom().contains(key) {
                (s, Err(InvariantError::PoolAlreadyExist))
            } else {
                match spec_new_pool(init_sqrt_price, init_tick, timestamp, fee_tier.tick_spacing, s.config.admin) {
                    Err(e) => (s, Err(e)),
                    Ok(pool) => if s.pool_keys.len() >= u16::MAX {
                        (s, Err(InvariantError::AddOverflow(u16::MAX as u128, 1)))
                    } else {
                        (
                            InvariantState {
                                pools: s.pools.insert(key, pool),
                                pool_keys: s.pool_keys.push(key),
                                ..s
                            },
                            Ok(()),
                        )
                    },
                }
            },
        }
    }
}

/// `create_tick`: initializes tick `index` of a pool at time `timestamp`, marking
/// it on the tick map; a tick off the pool's grid, a missing pool or a tick
/// already there is refused.
pub open spec fn spec_create_tick(s: InvariantState, pool_key: PoolKey, index: int, timestamp: u64) -> (InvariantState, Result<Tick, InvariantError>) {
    if spec_check_tick(index, pool_key.fee_tier.tick_spacing as int) is Err {
        (s, Err(InvariantError::InvalidTickIndexOrTickSpacing))
    } else if !s.pools.dom().contains(pool_key) {
        (s, Err(InvariantError::PoolNotFound))
    } else if s.ticks.dom().contains((pool_key, index as i32)) {
        (s, Err(InvariantError::TickAlreadyExist))
    } else {
        let tick = spec_tick_create(index, s.pools[pool_key], timestamp);
        (
            InvariantState {
                ticks: s.ticks.insert((pool_key, index as i32), tick),
                tickmap: spec_flipped(s.tickmap, pool_key, index, pool_key.fee_tier.tick_spacing as int),
                ..s
            },
            Ok(tick),
        )
    }
}

/// Creating a tick keeps `state_wf`.
pub proof fn lemma_wf_create_tick(s: InvariantState, pool_key: PoolKey, index: int, timestamp: u64)
    requires
        state_wf(s),
        pool_key.fee_tier.tick_spacing > 0,
    ensures
        state_wf(spec_create_tick(s, pool_key, index, timestamp).0),
{
    let sp = pool_key.fee_tier.tick_spacing as int;
    if spec_create_tick(s, pool_key, index, timestamp).1 is Ok {
        let t = index as i32;
        vstd::arithmetic::div_mod::lemma_fundamental_div_mod(MAX_TICK as int, sp);
        vstd::arithmetic::div_mod::lemma_mod_bound(MAX_TICK as int, sp);
        assert(spec_max_tick(sp) <= MAX_TICK) by (nonlinear_arith)
            requires
                spec_max_tick(sp) == ((MAX_TICK as int) / sp) * sp,
                MAX_TICK == sp * ((MAX_TICK as int) / sp) + (MAX_TICK as int) % sp,
                0 <= (MAX_TICK as int) % sp,
        ;
        assert(index % sp == 0 && -spec_max_tick(sp) <= index <= spec_max_tick(sp));
        assert(aligned_tick(index, sp));
        assert(t as int == index);
        lemma_flipped_bits(s.tickmap, pool_key, index, sp);
        assert(!tick_marked(s.tickmap, pool_key, t));
        let s2 = spec_create_tick(s, pool_key, index, timestamp).0;
        assert(s2.ticks.dom() =~= s.ticks.dom().insert((pool_key, t)));
        lemma_ticks_wf_after_flip(s.ticks, s.tickmap, s2.ticks, s2.tickmap, pool_key, t, true);
    }
}

/// Removing a stored tick keeps `state_wf`.
pub proof fn lemma_wf_remove_tick(s: InvariantState, pool_key: PoolKey, tick: Tick)
    requires
        state_wf(s),
        s.ticks.dom().contains((pool_key, tick.index)),
    ensures
        state_wf(spec_remove_tick(s, pool_key, tick).0),
{
    let sp = pool_key.fee_tier.tick_spacing as int;
    if tick.liquidity_gross.0 == 0 {
        assert(aligned_tick(tick.index as int, sp));
        lemma_flipped_bits(s.tickmap, pool_key, tick.index as int, sp);
        assert(tick_marked(s.tickmap, pool_key, tick.index));
        let s2 = spec_remove_tick(s, pool_key, tick).0;
        lemma_ticks_wf_after_flip(s.ticks, s.tickmap, s2.ticks, s2.tickmap, pool_key, tick.index, false);
    }
}

/// `remove_tick`: drops a tick that no liquidity refers to any more and
/// unmarks it on the tick map.
pub open spec fn spec_remove_tick(s: InvariantState, pool_key: PoolKey, tick: Tick) -> (InvariantState, Result<(), InvariantError>) {
    if tick.liquidity_gross.0 != 0 {
        (s, Err(InvariantError::NotEmptyTickDeinitialization))
    } else {
        (
            InvariantState {
                ticks: s.ticks.remove((pool_key, tick.index)),
                tickmap: spec_flipped(s.tickmap, pool_key, tick.index as int, pool_key.fee_tier.tick_spacing as int),
                ..s
            },
            Ok(()),
        )
    }
}

/// Replacing a stored tick by one with the same index keeps `ticks_wf`.
pub proof fn lemma_ticks_wf_replace(
    ticks: Map<(PoolKey, i32), Tick>,
    tickmap: Map<(u16, PoolKey), u64>,
    key: PoolKey,
    index: i32,
    tick: Tick,
)
    requires
        ticks_wf(ticks, tickmap),
        ticks.dom().contains((key, index)),
        tick.index == index,
    ensures
        ticks_wf(ticks.insert((key, index), tick), tickmap),
{
    let t2 = ticks.insert((key, index), tick);
    assert(t2.dom() =~= ticks.dom());
    assert forall|k: PoolKey, t: i32| #[trigger] t2.dom().contains((k, t)) implies aligned_tick(
        t as int,
        k.fee_tier.tick_spacing as int,
    ) && t2[(k, t)].index == t by {
        assert(ticks.dom().contains((k, t)));
    }
    assert forall|k: PoolKey, t: i32| aligned_tick(t as int, k.fee_tier.tick_spacing as int) implies (tick_marked(
        tickmap,
        k,
        t,
    ) <==> t2.dom().contains((k, t))) by {
        assert(tick_marked(tickmap, k, t) <==> ticks.dom().contains((k, t)));
    }
}

/// The state with tick `index` of a pool in place: the stored tick, or a new one
/// created at `timestamp`; `None` where creating it fails.
pub open spec fn spec_ensure_tick(s: InvariantState, pool_key: PoolKey, index: i32, timestamp: u64) -> Option<InvariantState> {
    if s.ticks.dom().contains((pool_key, index)) {
        Some(s)
    } else if pool_key.fee_tier.tick_spacing == 0 || (s.pools.dom().contains(pool_key) && index
        <= s.pools[pool_key].current_tick_index && timestamp < s.pools[pool_key].start_timestamp) {
        None
    } else {
        let (s2, r) = spec_create_tick(s, pool_key, index as int, timestamp);
        if r is Ok {
            Some(s2)
        } else {
            None
        }
    }
}

/// `create_position`: `caller` opens a position of `liquidity_delta` on
/// `[lower_tick, upper_tick]` of a pool at time `timestamp` and block `block`;
/// missing ticks are created first. The new position is appended to the
/// caller's list, and the amounts of x and y to deposit are returned. `None`
/// where the contract traps: a tick cannot be created, the liquidity cannot be
/// added, or the caller's list is full.
pub open spec fn spec_create_position(
    s: InvariantState,
    caller: AccountId,
    pool_key: PoolKey,
    lower_tick: i32,
    upper_tick: i32,
    liquidity_delta: Liquidity,
    slippage_limit_lower: SqrtPrice,
    slippage_limit_upper: SqrtPrice,
    timestamp: u64,
    block: u64,
) -> Option<(InvariantState, Result<(Position, TokenAmount, TokenAmount), InvariantError>)> {
    if liquidity_delta.0 == 0 {
        Some((s, Err(InvariantError::ZeroLiquidity)))
    } else if lower_tick == upper_tick {
        Some((s, Err(InvariantError::InvalidTickIndex)))
    } else if !s.pools.dom().contains(pool_key) {
        Some((s, Err(InvariantError::PoolNotFound)))
    } else {
        match spec_ensure_tick(s, pool_key, lower_tick, timestamp) {
            None => None,
            Some(s1) => match spec_ensure_tick(s1, pool_key, upper_tick, timestamp) {
                None => None,
                Some(s2) => {
                    let pool = s.pools[pool_key];
                    let lower = s2.ticks[(pool_key, lower_tick)];
                    let upper = s2.ticks[(pool_key, upper_tick)];
                    let spacing = pool_key.fee_tier.tick_spacing as int;
                    if !modify_runs(pool, upper, lower, liquidity_delta.0 as nat, true, spacing) {
                        None
                    } else {
                        match spec_position_create(pool, pool_key, lower, upper, timestamp, liquidity_delta.0 as nat, slippage_limit_lower, slippage_limit_upper, block, spacing) {
                            None => None,
                            Some(Err(e)) => Some((s, Err(e))),
                            Some(Ok((position, pool2, upper2, lower2, x, y))) => if positions_of(s2.positions, caller).len() >= u32::MAX {
                                None
                            } else {
                                Some(
                                    (
                                        InvariantState {
                                            pools: s2.pools.insert(pool_key, pool2),
                                            positions: s2.positions.insert(caller, positions_of(s2.positions, caller).push(position)),
                                            ticks: s2.ticks.insert((pool_key, lower_tick), lower2).insert((pool_key, upper_tick), upper2),
                                            ..s2
                                        },
                                        Ok((position, TokenAmount(x as u128), TokenAmount(y as u128))),
                                    ),
                                )
                            },
                        }
                    }
                },
            },
        }
    }
}

/// The state with a tick updated, or removed when no liquidity refers to it.
pub open spec fn spec_settle_tick(s: InvariantState, pool_key: PoolKey, index: i32, tick: Tick, deinitialize: bool) -> InvariantState {
    if deinitialize {
        spec_remove_tick(s, pool_key, tick).0
    } else {
        InvariantState { ticks: s.ticks.insert((pool_key, index), tick), ..s }
    }
}

/// `remove_position`: `caller` closes position `index`, withdrawing all its
/// liquidity and the fees it is owed, which are returned to be paid out. Ticks
/// left without liquidity are removed; the caller's last position takes the
/// closed one's place. `None` where the contract traps.
pub open spec fn spec_remove_position(s: InvariantState, caller: AccountId, index: u32, timestamp: u64) -> Option<(InvariantState, Result<(TokenAmount, TokenAmount), InvariantError>)> {
    let list = positions_of(s.positions, caller);
    if index >= list.len() {
        Some((s, Err(InvariantError::PositionNotFound)))
    } else {
        let p = list[index as int];
        let key = p.pool_key;
        if !s.ticks.dom().contains((key, p.lower_tick_index)) || !s.ticks.dom().contains((key, p.upper_tick_index)) {
            Some((s, Err(InvariantError::TickNotFound)))
        } else if !s.pools.dom().contains(key) {
            Some((s, Err(InvariantError::PoolNotFound)))
        } else {
            let lower = s.ticks[(key, p.lower_tick_index)];
            let upper = s.ticks[(key, p.upper_tick_index)];
            let pool = s.pools[key];
            let spacing = key.fee_tier.tick_spacing as int;
            if !modify_runs(pool, upper, lower, p.liquidity.0 as nat, false, spacing) || p.lower_tick_index == p.upper_tick_index {
                None
            } else {
                match spec_position_remove(p, pool, timestamp, lower, upper, spacing) {
                    None => None,
                    Some((pool2, upper2, lower2, x, y, deinit_lower, deinit_upper)) => {
                        let s1 = InvariantState { pools: s.pools.insert(key, pool2), ..s };
                        let s2 = spec_settle_tick(s1, key, p.lower_tick_index, lower2, deinit_lower);
                        let s3 = spec_settle_tick(s2, key, p.upper_tick_index, upper2, deinit_upper);
                        Some(
                            (
                                InvariantState { positions: s3.positions.insert(caller, spec_swap_remove(list, index as int)), ..s3 },
                                Ok((TokenAmount(x as u128), TokenAmount(y as u128))),
                            ),
                        )
                    },
                }
            }
        }
    }
}

/// The price limit of a route's hop: as far as prices go in its direction.
pub open spec fn spec_hop_limit(x_to_y: bool) -> SqrtPrice {
    if x_to_y {
        SqrtPrice(MIN_SQRT_PRICE)
    } else {
        SqrtPrice(MAX_SQRT_PRICE)
    }
}

/// One hop of a route: `amount` swapped by the amount paid in, as far as
/// prices go in the hop's direction; performed (`is_swap`) or only
/// calculated. Gives the state after it and the amount out, or the refusal.
/// `None` where the contract traps.
#[verifier::opaque]
pub open spec fn spec_route_hop(s: InvariantState, is_swap: bool, amount: TokenAmount, hop: SwapHop, timestamp: u64) -> Option<(InvariantState, Result<TokenAmount, InvariantError>)> {
    let limit = spec_hop_limit(hop.x_to_y);
    if is_swap {
        match spec_swap(s, hop.pool_key, hop.x_to_y, amount, true, limit, timestamp) {
            None => None,
            Some((s2, Err(e))) => Some((s2, Err(e))),
            Some((s2, Ok((_, st, _)))) => Some((s2, Ok(st.progress.total_amount_out))),
        }
    } else {
        match spec_calculate_swap(s, hop.pool_key, hop.x_to_y, amount, true, limit, timestamp) {
            None => None,
            Some(Err(e)) => Some((s, Err(e))),
            Some(Ok((_, st, _))) => Some((s, Ok(st.progress.total_amount_out))),
        }
    }
}

/// A route: `amount` passed along `hops` (see `spec_route_hop`), what comes
/// out of one hop going into the next. Gives the state after the hops done
/// and the amount out of the last, or the first refusal. `None` where the
/// contract traps.
pub open spec fn spec_route(s: InvariantState, is_swap: bool, amount: TokenAmount, hops: Seq<SwapHop>, timestamp: u64) -> Option<(InvariantState, Result<TokenAmount, InvariantError>)>
    decreases hops.len(),
{
    if hops.len() == 0 {
        Some((s, Ok(amount)))
    } else {
        match spec_route_hop(s, is_swap, amount, hops[0], timestamp) {
            None => None,
            Some((s2, Err(e))) => Some((s2, Err(e))),
            Some((s2, Ok(out))) => spec_route(s2, is_swap, out, hops.subrange(1, hops.len() as int), timestamp),
        }
    }
}

/// `swap_route`: performs a route and refuses it (`AmountUnderMinimumAmountOut`)
/// when it pays out less than `expected` allows with `slippage`; gives the
/// amount out of the last hop, to be paid out to the caller.
pub open spec fn spec_swap_route(
    s: InvariantState,
    amount: TokenAmount,
    expected: TokenAmount,
    slippage: Percentage,
    hops: Seq<SwapHop>,
    timestamp: u64,
) -> Option<(InvariantState, Result<TokenAmount, InvariantError>)> {
    match spec_route(s, true, amount, hops, timestamp) {
        None => None,
        Some((s2, Err(e))) => Some((s2, Err(e))),
        Some((s2, Ok(out))) => if out.0 < spec_min_amount_out(expected.0 as nat, slippage.v as nat) {
            Some((s2, Err(InvariantError::AmountUnderMinimumAmountOut)))
        } else {
            Some((s2, Ok(out)))
        },
    }
}

/// The positions at `offset .. offset + size` of a list, as far as there are any.
pub open spec fn spec_position_page(list: Seq<Position>, size: nat, offset: nat) -> Seq<Position> {
    let end = if offset + size > list.len() { list.len() } else { offset + size };
    if offset >= end {
        Seq::empty()
    } else {
        list.subrange(offset as int, end as int)
    }
}

/// `get_positions`: the positions of `owner` at `offset .. offset + size`, each
/// with its pool, and how many positions `owner` has; `PoolNotFound` when
/// the pool of one of them is not stored.
pub open spec fn spec_get_positions(s: InvariantState, owner: AccountId, size: u32, offset: u32) -> Result<(Seq<(Position, Pool)>, u32), InvariantError> {
    let list = positions_of(s.positions, owner);
    let page = spec_position_page(list, size as nat, offset as nat);
    if exists|j: int| 0 <= j < page.len() && !s.pools.dom().contains(#[trigger] page[j].pool_key) {
        Err(InvariantError::PoolNotFound)
    } else {
        Ok((page.map_values(|p: Position| (p, s.pools[p.pool_key])), list.len() as u32))
    }
}

/// `transfer_position`: position `index` of `caller` moves to the end of
/// `receiver`'s positions, the last of `caller`'s taking its place. `None`
/// where the receiver's count would overflow.
pub open spec fn spec_transfer_position(s: InvariantState, caller: AccountId, index: u32, receiver: AccountId) -> Option<(InvariantState, Result<(), InvariantError>)> {
    let list = positions_of(s.positions, caller);
    if index >= list.len() {
        Some((s, Err(InvariantError::PositionNotFound)))
    } else {
        let m1 = s.positions.insert(caller, spec_swap_remove(list, index as int));
        if positions_of(m1, receiver).len() >= u32::MAX {
            None
        } else {
            Some((InvariantState { positions: m1.insert(receiver, positions_of(m1, receiver).push(list[index as int])), ..s }, Ok(())))
        }
    }
}

/// `get_position_with_associates`: a position with its pool and its lower and
/// upper tick.
pub open spec fn spec_get_position_with_associates(s: InvariantState, owner: AccountId, index: u32) -> Result<(Position, Pool, Tick, Tick), InvariantError> {
    let list = positions_of(s.positions, owner);
    if index >= list.len() {
        Err(InvariantError::PositionNotFound)
    } else {
        let p = list[index as int];
        if !s.pools.dom().contains(p.pool_key) {
            Err(InvariantError::PoolNotFound)
        } else if !s.ticks.dom().contains((p.pool_key, p.lower_tick_index)) || !s.ticks.dom().contains((p.pool_key, p.upper_tick_index)) {
            Err(InvariantError::TickNotFound)
        } else {
            Ok((p, s.pools[p.pool_key], s.ticks[(p.pool_key, p.lower_tick_index)], s.ticks[(p.pool_key, p.upper_tick_index)]))
        }
    }
}

/// `claim_fee`: `caller` takes the fees that position `index` is owed, which
/// are returned to be paid out; the position then owes nothing. `None` where
/// the contract traps.
pub open spec fn spec_claim_fee(s: InvariantState, caller: AccountId, index: u32, timestamp: u64) -> Option<(InvariantState, Result<(TokenAmount, TokenAmount), InvariantError>)> {
    let list = positions_of(s.positions, caller);
    if index >= list.len() {
        Some((s, Err(InvariantError::PositionNotFound)))
    } else {
        let p = list[index as int];
        let key = p.pool_key;
        if !s.ticks.dom().contains((key, p.lower_tick_index)) || !s.ticks.dom().contains((key, p.upper_tick_index)) {
            Some((s, Err(InvariantError::TickNotFound)))
        } else if !s.pools.dom().contains(key) {
            Some((s, Err(InvariantError::PoolNotFound)))
        } else {
            let lower = s.ticks[(key, p.lower_tick_index)];
            let upper = s.ticks[(key, p.upper_tick_index)];
            let pool = s.pools[key];
            if !modify_runs(pool, upper, lower, 0, true, p.pool_key.fee_tier.tick_spacing as int) || p.lower_tick_index == p.upper_tick_index {
                None
            } else {
                match spec_position_claim_fee(p, pool, upper, lower, timestamp) {
                    None => None,
                    Some((p2, pool2, upper2, lower2, x, y)) => Some(
                        (
                            InvariantState {
                                positions: s.positions.insert(caller, list.update(index as int, p2)),
                                pools: s.pools.insert(key, pool2),
                                ticks: s.ticks.insert((key, p.upper_tick_index), upper2).insert((key, p.lower_tick_index), lower2),
                                ..s
                            },
                            Ok((TokenAmount(x as u128), TokenAmount(y as u128))),
                        ),
                    ),
                }
            }
        }
    }
}

/// `change_liquidity`: `caller` adds (`add`) or withdraws `delta` liquidity of
/// position `index` at time `timestamp`, within the slippage limits; the
/// amounts of x and y to deposit or pay out are returned. Withdrawing all of
/// it is refused (`ZeroLiquidity`, remove the position instead), as is a zero
/// change or one that moves no tokens. `None` where the contract traps.
pub open spec fn spec_change_liquidity(
    s: InvariantState,
    caller: AccountId,
    index: u32,
    delta: Liquidity,
    add: bool,
    slippage_limit_lower: SqrtPrice,
    slippage_limit_upper: SqrtPrice,
    timestamp: u64,
) -> Option<(InvariantState, Result<(TokenAmount, TokenAmount), InvariantError>)> {
    let list = positions_of(s.positions, caller);
    if index >= list.len() {
        Some((s, Err(InvariantError::PositionNotFound)))
    } else {
        let p = list[index as int];
        let key = p.pool_key;
        if !s.pools.dom().contains(key) {
            Some((s, Err(InvariantError::PoolNotFound)))
        } else if !s.ticks.dom().contains((key, p.lower_tick_index)) || !s.ticks.dom().contains((key, p.upper_tick_index)) {
            Some((s, Err(InvariantError::TickNotFound)))
        } else if !add && delta == p.liquidity {
            Some((s, Err(InvariantError::ZeroLiquidity)))
        } else if delta.0 == 0 {
            Some((s, Err(InvariantError::LiquidityChangeZero)))
        } else {
            let pool = s.pools[key];
            if pool.sqrt_price.0 < slippage_limit_lower.0 || pool.sqrt_price.0 > slippage_limit_upper.0 {
                Some((s, Err(InvariantError::PriceLimitReached)))
            } else {
                let lower = s.ticks[(key, p.lower_tick_index)];
                let upper = s.ticks[(key, p.upper_tick_index)];
                let spacing = key.fee_tier.tick_spacing as int;
                if !modify_runs(pool, upper, lower, delta.0 as nat, add, spacing) || p.lower_tick_index == p.upper_tick_index {
                    None
                } else {
                    match spec_modify(p, pool, upper, lower, delta.0 as nat, add, timestamp, spacing) {
                        Err(_) => None,
                        Ok((p2, pool2, upper2, lower2, x, y)) => if x == 0 && y == 0 {
                            Some((s, Err(InvariantError::AmountIsZero)))
                        } else {
                            Some(
                                (
                                    InvariantState {
                                        pools: s.pools.insert(key, pool2),
                                        positions: s.positions.insert(caller, list.update(index as int, p2)),
                                        ticks: s.ticks.insert((key, p.lower_tick_index), lower2).insert((key, p.upper_tick_index), upper2),
                                        ..s
                                    },
                                    Ok((TokenAmount(x as u128), TokenAmount(y as u128))),
                                ),
                            )
                        },
                    }
                }
            }
        }
    }
}

/// `get_tick`: the stored tick at `index` of a pool.
pub open spec fn spec_get_tick(s: InvariantState, pool_key: PoolKey, index: i32) -> Result<Tick, InvariantError> {
    if s.ticks.dom().contains((pool_key, index)) {
        Ok(s.ticks[(pool_key, index)])
    } else {
        Err(InvariantError::TickNotFound)
    }
}

/// Whether `get_liquidity_ticks_amount` runs through on these arguments: once
/// its checks pass, both ticks lie in the tick range, and the bit ranges it
/// masks within a chunk neither run backwards nor span a whole chunk.
pub open spec fn liquidity_ticks_amount_runs(pool_key: PoolKey, lower: int, upper: int) -> bool {
    let s = pool_key.fee_tier.tick_spacing as int;
    ||| s == 0
    ||| lower % s != 0
    ||| upper % s != 0
    ||| lower < -spec_max_tick(s)
    ||| upper > spec_max_tick(s)
    ||| {
        &&& lower <= MAX_TICK
        &&& upper >= -MAX_TICK
        &&& {
            let (c1, b1) = spec_tick_to_position(lower, s);
            let (c2, b2) = spec_tick_to_position(upper, s);
            if c1 == c2 {
                b1 <= b2 && !(b1 == 0 && b2 == 63)
            } else {
                b1 != 0 && b2 != 63
            }
        }
    }
}

/// `get_liquidity_ticks_amount`: how many ticks of a pool from `lower` to
/// `upper` the tick map marks initialized. With `lower` above `upper` in an
/// earlier chunk, it adds up the marks from `lower` to the end of its chunk and
/// from the start of `upper`'s chunk to `upper`.
pub open spec fn spec_get_liquidity_ticks_amount(s: InvariantState, pool_key: PoolKey, lower: int, upper: int) -> Result<u32, InvariantError> {
    let sp = pool_key.fee_tier.tick_spacing as int;
    if sp == 0 {
        Err(InvariantError::InvalidTickSpacing)
    } else if lower % sp != 0 || upper % sp != 0 {
        Err(InvariantError::InvalidTickIndex)
    } else if lower < -spec_max_tick(sp) || upper > spec_max_tick(sp) {
        Err(InvariantError::InvalidTickIndex)
    } else {
        let lo = spec_tick_index(lower, sp);
        let hi = spec_tick_index(upper, sp);
        Ok(
            if lo <= hi {
                spec_count_set(s.tickmap, pool_key, lo, hi) as u32
            } else {
                (spec_count_set(s.tickmap, pool_key, lo, (lo / 64) * 64 + 63) + spec_count_set(
                    s.tickmap,
                    pool_key,
                    (hi / 64) * 64,
                    hi,
                )) as u32
            },
        )
    }
}

/// `get_pool`: the pool of two tokens, given in either order, on a fee tier.
pub open spec fn spec_get_pool(s: InvariantState, token_0: AccountId, token_1: AccountId, fee_tier: FeeTier) -> Result<Pool, InvariantError> {
    match spec_pool_key(token_0, token_1, fee_tier) {
        Err(e) => Err(e),
        Ok(key) => if s.pools.dom().contains(key) {
            Ok(s.pools[key])
        } else {
            Err(InvariantError::PoolNotFound)
        },
    }
}

/// The pools of two distinct tokens on the fee tiers of `fee_tiers`, in that order,
/// each with its fee tier; fee tiers without such a pool are skipped.
pub open spec fn spec_pools_for_pair(fee_tiers: Seq<FeeTier>, pools: Map<PoolKey, Pool>, token_0: AccountId, token_1: AccountId) -> Seq<(FeeTier, Pool)>
    decreases fee_tiers.len(),
{
    if fee_tiers.len() == 0 {
        Seq::empty()
    } else {
        let rest = spec_pools_for_pair(fee_tiers.drop_last(), pools, token_0, token_1);
        let fee_tier = fee_tiers.last();
        match spec_pool_key(token_0, token_1, fee_tier) {
            Ok(key) => if pools.dom().contains(key) {
                rest.push((fee_tier, pools[key]))
            } else {
                rest
            },
            Err(_) => rest,
        }
    }
}

/// `get_all_pools_for_pair`: the pools of two tokens on every offered fee tier;
/// two equal tokens are refused as soon as there is a fee tier to look at.
pub open spec fn spec_get_all_pools_for_pair(s: InvariantState, token_0: AccountId, token_1: AccountId) -> Result<Seq<(FeeTier, Pool)>, InvariantError> {
    if token_0 == token_1 && s.fee_tiers.len() > 0 {
        Err(InvariantError::TokensAreSame)
    } else {
        Ok(spec_pools_for_pair(s.fee_tiers, s.pools, token_0, token_1))
    }
}

/// `set_code`: whether `caller` may replace the contract's code; only the admin may.
pub open spec fn spec_set_code(s: InvariantState, caller: AccountId) -> Result<(), InvariantError> {
    if caller != s.config.admin {
        Err(InvariantError::NotAdmin)
    } else {
        Ok(())
    }
}

/// The checks a swap starts with: a zero amount is refused with `AmountIsZero`,
/// an unknown pool with `PoolNotFound`, a price limit on the wrong side with
/// `WrongLimit`. Otherwise the pool is given with the tick that the swap may
/// not reach: the lowest usable tick going from x to y, else the highest.
pub open spec fn spec_prepare_swap(s: InvariantState, pool_key: PoolKey, x_to_y: bool, amount: TokenAmount, sqrt_price_limit: SqrtPrice) -> Result<(Pool, i32), InvariantError> {
    if amount.0 == 0 {
        Err(InvariantError::AmountIsZero)
    } else if !s.pools.dom().contains(pool_key) {
        Err(InvariantError::PoolNotFound)
    } else if !spec_swap_limit_ok(s.pools[pool_key].sqrt_price.0 as nat, x_to_y, sqrt_price_limit.0 as nat) {
        Err(InvariantError::WrongLimit)
    } else {
        let m = spec_max_tick(pool_key.fee_tier.tick_spacing as int);
        Ok((s.pools[pool_key], (if x_to_y { -m } else { m }) as i32))
    }
}

/// The swap's fixed parameters and starting point, for a pool that passed
/// the opening checks.
pub open spec fn spec_swap_start(
    s: InvariantState,
    pool_key: PoolKey,
    x_to_y: bool,
    amount: TokenAmount,
    by_amount_in: bool,
    sqrt_price_limit: SqrtPrice,
    timestamp: u64,
    pool: Pool,
    tick_limit: i32,
) -> (SwapContext, SwapState) {
    (
        SwapContext {
            pool_key,
            x_to_y,
            by_amount_in,
            sqrt_price_limit,
            protocol_fee: s.config.protocol_fee,
            timestamp,
            tick_limit,
        },
        SwapState {
            pool,
            progress: SwapProgress {
                remaining_amount: amount,
                total_amount_in: TokenAmount(0),
                total_amount_out: TokenAmount(0),
                fee_amount: TokenAmount(0),
            },
        },
    )
}

/// `calculate_swap`: what swapping `amount` in a pool would do, from x to y
/// (`x_to_y`) or back, the amount paid in (`by_amount_in`) or out, down or up
/// to `sqrt_price_limit`: the end of the swap loop (see `spec_swap_loop`), a
/// swap that pays nothing out refused with `NoGainSwap`; with the price the
/// pool started at. `None` where the contract traps.
pub open spec fn spec_calculate_swap(
    s: InvariantState,
    pool_key: PoolKey,
    x_to_y: bool,
    amount: TokenAmount,
    by_amount_in: bool,
    sqrt_price_limit: SqrtPrice,
    timestamp: u64,
) -> Option<Result<(SqrtPrice, SwapState, Seq<Tick>), InvariantError>> {
    match spec_prepare_swap(s, pool_key, x_to_y, amount, sqrt_price_limit) {
        Err(e) => Some(Err(e)),
        Ok((pool, tick_limit)) => {
            let (ctx, st0) = spec_swap_start(s, pool_key, x_to_y, amount, by_amount_in, sqrt_price_limit, timestamp, pool, tick_limit);
            if !swap_loop_ends(s.ticks, s.tickmap, ctx, st0) {
                None
            } else {
                match spec_swap_loop_end(s.ticks, s.tickmap, ctx, st0) {
                    Err(e) => Some(Err(e)),
                    Ok((st, crossed)) => if st.progress.total_amount_out.0 == 0 {
                        Some(Err(InvariantError::NoGainSwap))
                    } else {
                        Some(Ok((pool.sqrt_price, st, crossed)))
                    },
                }
            }
        },
    }
}

/// The stored ticks with the crossed ticks of a pool written back, in order.
pub open spec fn spec_write_ticks(ticks: Map<(PoolKey, i32), Tick>, pool_key: PoolKey, crossed: Seq<Tick>) -> Map<(PoolKey, i32), Tick>
    decreases crossed.len(),
{
    if crossed.len() == 0 {
        ticks
    } else {
        spec_write_ticks(ticks, pool_key, crossed.drop_last()).insert((pool_key, crossed.last().index), crossed.last())
    }
}

/// Writing back ticks that are all stored keeps the stored keys.
pub proof fn lemma_write_ticks_dom(ticks: Map<(PoolKey, i32), Tick>, pool_key: PoolKey, crossed: Seq<Tick>)
    requires
        crossed_stored(ticks, pool_key, crossed),
    ensures
        spec_write_ticks(ticks, pool_key, crossed).dom() == ticks.dom(),
        forall|k: int| 0 <= k <= crossed.len() ==> crossed_stored(ticks, pool_key, #[trigger] crossed.take(k)),
    decreases crossed.len(),
{
    if crossed.len() > 0 {
        let c = crossed.drop_last();
        assert forall|j: int| 0 <= j < c.len() implies ticks.dom().contains((pool_key, #[trigger] c[j].index)) by {
            assert(c[j] == crossed[j]);
        }
        lemma_write_ticks_dom(ticks, pool_key, c);
        assert(ticks.dom().contains((pool_key, crossed[crossed.len() - 1].index)));
        assert(spec_write_ticks(ticks, pool_key, crossed).dom() =~= ticks.dom());
    }
    assert forall|k: int| 0 <= k <= crossed.len() implies crossed_stored(ticks, pool_key, #[trigger] crossed.take(k)) by {
        assert forall|j: int| 0 <= j < crossed.take(k).len() implies ticks.dom().contains((pool_key, #[trigger] crossed.take(k)[j].index)) by {
            assert(crossed.take(k)[j] == crossed[j]);
        }
    }
}

/// `swap`: performs the swap that `calculate_swap` describes: the crossed
/// ticks and the pool are stored. The amounts are to be paid in and out by
/// the caller. `None` where the contract traps.
pub open spec fn spec_swap(
    s: InvariantState,
    pool_key: PoolKey,
    x_to_y: bool,
    amount: TokenAmount,
    by_amount_in: bool,
    sqrt_price_limit: SqrtPrice,
    timestamp: u64,
) -> Option<(InvariantState, Result<(SqrtPrice, SwapState, Seq<Tick>), InvariantError>)> {
    match spec_calculate_swap(s, pool_key, x_to_y, amount, by_amount_in, sqrt_price_limit, timestamp) {
        None => None,
        Some(Err(e)) => Some((s, Err(e))),
        Some(Ok((start, st, crossed))) => Some(
            (
                InvariantState {
                    ticks: spec_write_ticks(s.ticks, pool_key, crossed),
                    pools: s.pools.insert(pool_key, st.pool),
                    ..s
                },
                Ok((start, st, crossed)),
            ),
        ),
    }
}

/// Whether saved parts make up a well-formed contract state: fee tiers valid
/// and distinct, pool keys distinct and counted by a `u16`, the pools listed
/// with exactly those keys in the same order, each satisfying `pool_key_ok`,
/// and ticks stored once each, on their pool's grid, knowing their index.
pub open spec fn spec_parts_ok(
    fee_tiers: Seq<FeeTier>,
    pools: Seq<(PoolKey, Pool)>,
    pool_keys: Seq<PoolKey>,
    ticks: Seq<((PoolKey, i32), Tick)>,
    positions: Seq<(AccountId, Vec<Position>)>,
) -> bool {
    &&& keys_distinct(owner_lists(positions))
    &&& forall|i: int| 0 <= i < positions.len() ==> (#[trigger] positions[i]).1@.len() <= u32::MAX
    &&& keys_distinct(ticks)
    &&& forall|i: int| 0 <= i < ticks.len() ==> aligned_tick(
        (#[trigger] ticks[i]).0.1 as int,
        ticks[i].0.0.fee_tier.tick_spacing as int,
    ) && ticks[i].1.index == ticks[i].0.1
    &&& fee_tiers.no_duplicates()
    &&& forall|i: int| 0 <= i < fee_tiers.len() ==> fee_tier_valid(#[trigger] fee_tiers[i])
    &&& pool_keys.no_duplicates()
    &&& pool_keys.len() <= u16::MAX
    &&& assoc_keys(pools) == pool_keys
    &&& forall|i: int| 0 <= i < pool_keys.len() ==> pool_key_ok(#[trigger] pool_keys[i])
}

/// The state that saved parts stand for, with the tick map `tickmap`.
pub open spec fn spec_state_of_parts(
    config: InvariantConfig,
    fee_tiers: Seq<FeeTier>,
    pools: Seq<(PoolKey, Pool)>,
    pool_keys: Seq<PoolKey>,
    ticks: Seq<((PoolKey, i32), Tick)>,
    tickmap: Map<(u16, PoolKey), u64>,
    positions: Seq<(AccountId, Vec<Position>)>,
) -> InvariantState {
    InvariantState {
        config,
        fee_tiers,
        pools: assoc_map(pools),
        pool_keys,
        ticks: assoc_map(ticks),
        tickmap,
        positions: assoc_map(owner_lists(positions)),
    }
}

/// The registry part of `state_wf`: everything but the ticks.
pub open spec fn registry_wf(s: InvariantState) -> bool {
    &&& s.fee_tiers.no_duplicates()
    &&& forall|i: int| 0 <= i < s.fee_tiers.len() ==> fee_tier_valid(#[trigger] s.fee_tiers[i])
    &&& s.pool_keys.no_duplicates()
    &&& s.pool_keys.len() <= u16::MAX
    &&& forall|k: PoolKey| #[trigger] s.pools.dom().contains(k) <==> s.pool_keys.contains(k)
    &&& forall|k: PoolKey| #[trigger] s.pools.dom().contains(k) ==> pool_key_ok(k)
}

/// Well-formed parts make up a well-formed state, with distinct pool keys.
pub proof fn lemma_parts_wf(
    config: InvariantConfig,
    fee_tiers: Seq<FeeTier>,
    pools: Seq<(PoolKey, Pool)>,
    pool_keys: Seq<PoolKey>,
    ticks: Seq<((PoolKey, i32), Tick)>,
    tickmap: Map<(u16, PoolKey), u64>,
    positions: Seq<(AccountId, Vec<Position>)>,
)
    requires
        spec_parts_ok(fee_tiers, pools, pool_keys, ticks, positions),
    ensures
        keys_distinct(pools),
        registry_wf(spec_state_of_parts(config, fee_tiers, pools, pool_keys, ticks, tickmap, positions)),
{
    assert(pools.len() == pool_keys.len());
    assert forall|i: int, j: int| 0 <= i < j < pools.len() implies #[trigger] pools[i].0 != #[trigger] pools[j].0 by {
        assert(pools[i].0 == pool_keys[i]);
        assert(pools[j].0 == pool_keys[j]);
    }
    let st = spec_state_of_parts(config, fee_tiers, pools, pool_keys, ticks, tickmap, positions);
    assert forall|k: PoolKey| #[trigger] st.pools.dom().contains(k) <==> st.pool_keys.contains(k) by {
        lemma_assoc_map_dom(pools, k);
        if st.pools.dom().contains(k) {
            let i = choose|i: int| 0 <= i < pools.len() && #[trigger] pools[i].0 == k;
            assert(pool_keys[i] == k);
        }
        if st.pool_keys.contains(k) {
            let i = choose|i: int| 0 <= i < pool_keys.len() && pool_keys[i] == k;
            assert(pools[i].0 == k);
        }
    }
    assert forall|k: PoolKey| #[trigger] st.pools.dom().contains(k) implies pool_key_ok(k) by {
        lemma_assoc_map_dom(pools, k);
        let i = choose|i: int| 0 <= i < pools.len() && #[trigger] pools[i].0 == k;
        assert(pool_keys[i] == k);
    }
}

/// The contract.
pub struct Invariant {
    pools: Pools,
    fee_tiers: FeeTiers,
    pool_keys: PoolKeys,
    ticks: Ticks,
    tickmap: Tickmap,
    positions: Positions,
    config: InvariantConfig,
}

impl View for Invariant {
    type V = InvariantState;

    closed spec fn view(&self) -> InvariantState {
        InvariantState {
            config: self.config,
            fee_tiers: self.fee_tiers@,
            pools: self.pools@,
            pool_keys: self.pool_keys@,
            ticks: self.ticks@,
            tickmap: self.tickmap@,
            positions: self.positions@,
        }
    }
}

impl Invariant {
    /// The collections are well formed and the state satisfies `state_wf`.
    pub closed spec fn wf(&self) -> bool {
        &&& self.fee_tiers.wf()
        &&& self.pools.wf()
        &&& self.pool_keys.wf()
        &&& self.ticks.wf()
        &&& self.tickmap.wf()
        &&& self.positions.wf()
        &&& assoc_keys(self.pools.entry_list()) == self.pool_keys@
        &&& state_wf(self@)
    }

    /// A well-formed contract holds a state that satisfies `state_wf`.
    pub proof fn lemma_wf(&self)
        requires
            self.wf(),
        ensures
            state_wf(self@),
    {
    }

    /// A contract administered by `admin`, keeping `protocol_fee` of swap fees.
    pub fn new(admin: AccountId, protocol_fee: Percentage) -> (res: Invariant)
        ensures
            res.wf(),
            res@ == spec_initial(admin, protocol_fee),
    {
        let res = Invariant {
            pools: Pools::new(),
            fee_tiers: FeeTiers::new(),
            pool_keys: PoolKeys::new(),
            ticks: Ticks::new(),
            tickmap: Tickmap::new(),
            positions: Positions::new(),
            config: InvariantConfig { admin, protocol_fee },
        };
        proof {
            lemma_ticks_wf_empty();
        }
        assert(res@ =~= spec_initial(admin, protocol_fee));
        assert(assoc_keys(res.pools.entry_list()) =~= res.pool_keys@);
        res
    }

    /// The share of swap fees that the protocol keeps.
    pub fn get_protocol_fee(&self) -> (res: Percentage)
        ensures
            res == self@.config.protocol_fee,
    {
        self.config.protocol_fee
    }

    /// Sets the protocol fee; only the admin may.
    pub fn change_protocol_fee(&mut self, caller: AccountId, protocol_fee: Percentage) -> (res: Result<(), InvariantError>)
        requires
            old(self).wf(),
        ensures
            final(self).wf(),
            (final(self)@, res) == spec_change_protocol_fee(old(self)@, caller, protocol_fee),
    {
        if caller != self.config.admin {
            return Err(InvariantError::NotAdmin);
        }
        let ghost before = self@;
        self.config.protocol_fee = protocol_fee;
        assert(self@ =~= with_config(before, self.config));
        proof {
            lemma_wf_with_config(before, self.config);
        }
        Ok(())
    }

    /// Offers a new fee tier; only the admin may. The tier is checked as
    /// `FeeTier::new` checks it, and one already offered is refused.
    pub fn add_fee_tier(&mut self, caller: AccountId, fee_tier: FeeTier) -> (res: Result<(), InvariantError>)
        requires
            old(self).wf(),
        ensures
            final(self).wf(),
            (final(self)@, res) == spec_add_fee_tier(old(self)@, caller, fee_tier),
    {
        if let Err(e) = FeeTier::new(fee_tier.fee, fee_tier.tick_spacing) {
            return Err(e);
        }
        if caller != self.config.admin {
            return Err(InvariantError::NotAdmin);
        }
        let ghost before = self@;
        let res = self.fee_tiers.add(fee_tier);
        proof {
            if res is Ok {
                lemma_wf_with_fee_tier_added(before, fee_tier);
            }
            assert(self@ =~= spec_add_fee_tier(before, caller, fee_tier).0);
        }
        res
    }

    /// Withdraws an offered fee tier; only the admin may.
    pub fn remove_fee_tier(&mut self, caller: AccountId, fee_tier: FeeTier) -> (res: Result<(), InvariantError>)
        requires
            old(self).wf(),
        ensures
            final(self).wf(),
            (final(self)@, res) == spec_remove_fee_tier(old(self)@, caller, fee_tier),
    {
        if caller != self.config.admin {
            return Err(InvariantError::NotAdmin);
        }
        let ghost before = self@;
        let res = self.fee_tiers.remove(fee_tier);
        proof {
            if res is Ok {
                lemma_wf_with_fee_tier_removed(before, before.fee_tiers.index_of(fee_tier));
            }
            assert(self@ =~= spec_remove_fee_tier(before, caller, fee_tier).0);
        }
        res
    }

    /// Whether `fee_tier` is offered.
    pub fn fee_tier_exist(&self, fee_tier: FeeTier) -> (res: bool)
        ensures
            res == self@.fee_tiers.contains(fee_tier),
    {
        self.fee_tiers.contains(fee_tier)
    }

    /// The offered fee tiers, in the order they were added.
    pub fn get_fee_tiers(&self) -> (res: Vec<FeeTier>)
        ensures
            res@ == self@.fee_tiers,
    {
        self.fee_tiers.get_all()
    }
    /// Names who may withdraw the protocol fees of a pool; only the admin may.
    pub fn change_fee_receiver(&mut self, caller: AccountId, pool_key: PoolKey, fee_receiver: AccountId) -> (res: Result<(), InvariantError>)
        requires
            old(self).wf(),
        ensures
            final(self).wf(),
            (final(self)@, res) == spec_change_fee_receiver(old(self)@, caller, pool_key, fee_receiver),
    {
        if caller != self.config.admin {
            return Err(InvariantError::NotAdmin);
        }
        let ghost before = self@;
        let mut pool = match self.pools.get(pool_key) {
            Ok(pool) => pool,
            Err(e) => return Err(e),
        };
        pool.fee_receiver = fee_receiver;
        let res = self.pools.update(pool_key, &pool);
        proof {
            lemma_wf_with_pool_replaced(before, pool_key, pool);
            assert(self@ =~= with_pools(before, before.pools.insert(pool_key, pool)));
        }
        res
    }

    /// Takes the protocol fees collected in a pool, which drop to zero; only the
    /// pool's fee receiver may. The amounts returned are to be paid to the caller.
    pub fn withdraw_protocol_fee(&mut self, caller: AccountId, pool_key: PoolKey) -> (res: Result<(TokenAmount, TokenAmount), InvariantError>)
        requires
            old(self).wf(),
        ensures
            final(self).wf(),
            (final(self)@, res) == spec_withdraw_protocol_fee(old(self)@, caller, pool_key),
    {
        let ghost before = self@;
        let mut pool = match self.pools.get(pool_key) {
            Ok(pool) => pool,
            Err(e) => return Err(e),
        };
        if pool.fee_receiver != caller {
            return Err(InvariantError::NotFeeReceiver);
        }
        let amounts = pool.withdraw_protocol_fee();
        let res = self.pools.update(pool_key, &pool);
        proof {
            lemma_wf_with_pool_replaced(before, pool_key, pool);
            assert(self@ =~= with_pools(before, before.pools.insert(pool_key, pool)));
        }
        match res {
            Ok(()) => Ok(amounts),
            Err(e) => Err(e),
        }
    }

    /// Opens the pool of `token_0` and `token_1` on an offered fee tier, at
    /// `init_tick` and `init_sqrt_price`, started at `current_timestamp`; its
    /// protocol fees go to the admin.
    pub fn create_pool(
        &mut self,
        token_0: AccountId,
        token_1: AccountId,
        fee_tier: FeeTier,
        init_sqrt_price: SqrtPrice,
        init_tick: i32,
        current_timestamp: u64,
    ) -> (res: Result<(), InvariantError>)
        requires
            old(self).wf(),
        ensures
            final(self).wf(),
            (final(self)@, res) == spec_create_pool(
                old(self)@,
                token_0,
                token_1,
                fee_tier,
                init_sqrt_price,
                init_tick,
                current_timestamp,
            ),
    {
        if !self.fee_tiers.contains(fee_tier) {
            return Err(InvariantError::FeeTierNotFound);
        }
        proof {
            let i = self@.fee_tiers.index_of(fee_tier);
            assert(fee_tier_valid(self@.fee_tiers[i]));
        }
        if check_tick(init_tick, fee_tier.tick_spacing).is_err() {
            return Err(InvariantError::InvalidInitTick);
        }
        let pool_key = match PoolKey::new(token_0, token_1, fee_tier) {
            Ok(key) => key,
            Err(e) => return Err(e),
        };
        if self.pools.get(pool_key).is_ok() {
            return Err(InvariantError::PoolAlreadyExist);
        }
        let pool = match Pool::create(
            init_sqrt_price,
            init_tick,
            current_timestamp,
            fee_tier.tick_spacing,
            self.config.admin,
        ) {
            Ok(pool) => pool,
            Err(e) => return Err(e),
        };
        if self.pool_keys.count() >= 65535 {
            return Err(InvariantError::AddOverflow(65535, 1));
        }
        let ghost before = self@;
        let added = self.pools.add(pool_key, &pool);
        let listed = self.pool_keys.add(pool_key);
        proof {
            lemma_wf_with_pool_added(before, pool_key, pool);
            assert(assoc_keys(self.pools.entry_list()) =~= self.pool_keys@);
            assert(self@ =~= spec_create_pool(
                before,
                token_0,
                token_1,
                fee_tier,
                init_sqrt_price,
                init_tick,
                current_timestamp,
            ).0);
        }
        Ok(())
    }

    /// Initializes tick `index` of a pool at time `current_timestamp` and marks
    /// it on the tick map (see `spec_create_tick`).
    pub fn create_tick(&mut self, pool_key: PoolKey, index: i32, current_timestamp: u64) -> (res: Result<Tick, InvariantError>)
        requires
            old(self).wf(),
            pool_key.fee_tier.tick_spacing > 0,
            old(self)@.pools.dom().contains(pool_key) && index <= old(self)@.pools[pool_key].current_tick_index
                ==> current_timestamp >= old(self)@.pools[pool_key].start_timestamp,
        ensures
            final(self).wf(),
            (final(self)@, res) == spec_create_tick(old(self)@, pool_key, index as int, current_timestamp),
    {
        let tick_spacing = pool_key.fee_tier.tick_spacing;
        if check_tick(index, tick_spacing).is_err() {
            return Err(InvariantError::InvalidTickIndexOrTickSpacing);
        }
        let pool = match self.pools.get(pool_key) {
            Ok(pool) => pool,
            Err(e) => return Err(e),
        };
        proof {
            vstd::arithmetic::div_mod::lemma_mod_bound(index as int, tick_spacing as int);
        }
        let tick = Tick::create(index, &pool, current_timestamp);
        let ghost before = self@;
        match self.ticks.add(pool_key, index, &tick) {
            Ok(()) => {},
            Err(e) => return Err(e),
        }
        proof {
            assert(aligned_tick(index as int, tick_spacing as int));
            assert(!tick_marked(before.tickmap, pool_key, index));
        }
        self.tickmap.flip(true, index, tick_spacing, pool_key);
        proof {
            lemma_ticks_wf_after_flip(before.ticks, before.tickmap, self@.ticks, self@.tickmap, pool_key, index, true);
            assert(self@ =~= spec_create_tick(before, pool_key, index as int, current_timestamp).0);
        }
        Ok(tick)
    }

    /// Drops a tick that no liquidity refers to any more and unmarks it (see
    /// `spec_remove_tick`); the tick must be stored.
    pub fn remove_tick(&mut self, pool_key: PoolKey, tick: Tick) -> (res: Result<(), InvariantError>)
        requires
            old(self).wf(),
            tick.liquidity_gross.0 == 0 ==> old(self)@.ticks.dom().contains((pool_key, tick.index)),
        ensures
            final(self).wf(),
            (final(self)@, res) == spec_remove_tick(old(self)@, pool_key, tick),
    {
        if !tick.liquidity_gross.is_zero() {
            return Err(InvariantError::NotEmptyTickDeinitialization);
        }
        let ghost before = self@;
        proof {
            assert(aligned_tick(tick.index as int, pool_key.fee_tier.tick_spacing as int));
            assert(tick_marked(before.tickmap, pool_key, tick.index));
        }
        self.tickmap.flip(false, tick.index, pool_key.fee_tier.tick_spacing, pool_key);
        match self.ticks.remove(pool_key, tick.index) {
            Ok(()) => {},
            Err(e) => return Err(e),
        }
        proof {
            lemma_ticks_wf_after_flip(before.ticks, before.tickmap, self@.ticks, self@.tickmap, pool_key, tick.index, false);
            assert(self@ =~= spec_remove_tick(before, pool_key, tick).0);
        }
        Ok(())
    }

    fn ensure_tick(&mut self, pool_key: PoolKey, index: i32, current_timestamp: u64)
        requires
            old(self).wf(),
            spec_ensure_tick(old(self)@, pool_key, index, current_timestamp) is Some,
        ensures
            final(self).wf(),
            spec_ensure_tick(old(self)@, pool_key, index, current_timestamp) == Some(final(self)@),
    {
        if self.ticks.get(pool_key, index).is_err() {
            let _ = self.create_tick(pool_key, index, current_timestamp);
        }
    }

    /// `caller` opens a position (see `spec_create_position`); the amounts of x
    /// and y returned are to be deposited by the caller.
    pub fn create_position(
        &mut self,
        caller: AccountId,
        pool_key: PoolKey,
        lower_tick: i32,
        upper_tick: i32,
        liquidity_delta: Liquidity,
        slippage_limit_lower: SqrtPrice,
        slippage_limit_upper: SqrtPrice,
        current_timestamp: u64,
        block_number: u64,
    ) -> (res: Result<(Position, TokenAmount, TokenAmount), InvariantError>)
        requires
            old(self).wf(),
            spec_create_position(old(self)@, caller, pool_key, lower_tick, upper_tick, liquidity_delta, slippage_limit_lower, slippage_limit_upper, current_timestamp, block_number) is Some,
        ensures
            final(self).wf(),
            spec_create_position(old(self)@, caller, pool_key, lower_tick, upper_tick, liquidity_delta, slippage_limit_lower, slippage_limit_upper, current_timestamp, block_number)
                == Some((final(self)@, res)),
    {
        if liquidity_delta.get() == 0 {
            return Err(InvariantError::ZeroLiquidity);
        }
        if lower_tick == upper_tick {
            return Err(InvariantError::InvalidTickIndex);
        }
        let pool = match self.pools.get(pool_key) {
            Ok(pool) => pool,
            Err(e) => return Err(e),
        };
        if pool.sqrt_price.get() < slippage_limit_lower.get() || pool.sqrt_price.get() > slippage_limit_upper.get() {
            return Err(InvariantError::PriceLimitReached);
        }
        let ghost s0 = self@;
        self.ensure_tick(pool_key, lower_tick, current_timestamp);
        let ghost s1 = self@;
        self.ensure_tick(pool_key, upper_tick, current_timestamp);
        let ghost s2 = self@;
        proof {
            assert(s2.ticks.dom().contains((pool_key, lower_tick)));
        }
        let mut lower = match self.ticks.get(pool_key, lower_tick) {
            Ok(t) => t,
            Err(e) => return Err(e),
        };
        let mut upper = match self.ticks.get(pool_key, upper_tick) {
            Ok(t) => t,
            Err(e) => return Err(e),
        };
        let mut pool = pool;
        let (position, x, y) = match Position::create(
            &mut pool,
            pool_key,
            &mut lower,
            &mut upper,
            current_timestamp,
            liquidity_delta,
            slippage_limit_lower,
            slippage_limit_upper,
            block_number,
            pool_key.fee_tier.tick_spacing,
        ) {
            Ok(r) => r,
            Err(e) => return Err(e),
        };
        let _ = self.pools.update(pool_key, &pool);
        self.positions.add(caller, &position);
        let _ = self.ticks.update(pool_key, lower_tick, &lower);
        let _ = self.ticks.update(pool_key, upper_tick, &upper);
        proof {
            lemma_wf_with_pool_replaced(s2, pool_key, pool);
            lemma_ticks_wf_replace(s2.ticks, s2.tickmap, pool_key, lower_tick, lower);
            lemma_ticks_wf_replace(s2.ticks.insert((pool_key, lower_tick), lower), s2.tickmap, pool_key, upper_tick, upper);
            assert(self@ =~= spec_create_position(s0, caller, pool_key, lower_tick, upper_tick, liquidity_delta, slippage_limit_lower, slippage_limit_upper, current_timestamp, block_number).unwrap().0);
        }
        Ok((position, x, y))
    }

    /// `caller` closes a position (see `spec_remove_position`); the amounts
    /// returned are to be paid out to the caller.
    pub fn remove_position(&mut self, caller: AccountId, index: u32, current_timestamp: u64) -> (res: Result<(TokenAmount, TokenAmount), InvariantError>)
        requires
            old(self).wf(),
            spec_remove_position(old(self)@, caller, index, current_timestamp) is Some,
        ensures
            final(self).wf(),
            spec_remove_position(old(self)@, caller, index, current_timestamp) == Some((final(self)@, res)),
    {
        let ghost s0 = self@;
        let mut position = match self.positions.get(caller, index) {
            Ok(p) => p,
            Err(e) => return Err(e),
        };
        let key = position.pool_key;
        let lower_index = position.lower_tick_index;
        let upper_index = position.upper_tick_index;
        let mut lower = match self.ticks.get(key, position.lower_tick_index) {
            Ok(t) => t,
            Err(e) => return Err(e),
        };
        let mut upper = match self.ticks.get(key, position.upper_tick_index) {
            Ok(t) => t,
            Err(e) => return Err(e),
        };
        let mut pool = match self.pools.get(key) {
            Ok(p) => p,
            Err(e) => return Err(e),
        };
        let (amount_x, amount_y, deinitialize_lower, deinitialize_upper) = position.remove(
            &mut pool,
            current_timestamp,
            &mut lower,
            &mut upper,
            key.fee_tier.tick_spacing,
        );
        let _ = self.pools.update(key, &pool);
        let ghost s1 = self@;
        proof {
            lemma_wf_with_pool_replaced(s0, key, pool);
            assert(s1 =~= InvariantState { pools: s0.pools.insert(key, pool), ..s0 });
            assert(s1.ticks.dom().contains((key, lower_index)));
        }
        if deinitialize_lower {
            let _ = self.remove_tick(key, lower);
            proof {
                lemma_wf_remove_tick(s1, key, lower);
            }
        } else {
            let _ = self.ticks.update(key, lower_index, &lower);
            proof {
                lemma_ticks_wf_replace(s1.ticks, s1.tickmap, key, lower_index, lower);
            }
        }
        let ghost s2 = self@;
        proof {
            assert(s2 =~= spec_settle_tick(s1, key, lower_index, lower, deinitialize_lower));
            assert(s2.ticks.dom().contains((key, upper_index)));
        }
        if deinitialize_upper {
            let _ = self.remove_tick(key, upper);
            proof {
                lemma_wf_remove_tick(s2, key, upper);
            }
        } else {
            let _ = self.ticks.update(key, upper_index, &upper);
            proof {
                lemma_ticks_wf_replace(s2.ticks, s2.tickmap, key, upper_index, upper);
            }
        }
        let ghost s3 = self@;
        proof {
            assert(s3 =~= spec_settle_tick(s2, key, upper_index, upper, deinitialize_upper));
        }
        let _ = self.positions.remove(caller, index);
        proof {
            assert(self@ =~= spec_remove_position(s0, caller, index, current_timestamp).unwrap().0);
        }
        Ok((amount_x, amount_y))
    }

    /// Runs a route (see `spec_route`): swaps when `is_swap`, else only
    /// calculates; the amount out of the last hop is returned.
    pub fn route(&mut self, is_swap: bool, amount_in: TokenAmount, swaps: &Vec<SwapHop>, current_timestamp: u64) -> (res: Result<TokenAmount, InvariantError>)
        requires
            old(self).wf(),
            spec_route(old(self)@, is_swap, amount_in, swaps@, current_timestamp) is Some,
        ensures
            final(self).wf(),
            Some((final(self)@, res)) == spec_route(old(self)@, is_swap, amount_in, swaps@, current_timestamp),
    {
        let ghost s0 = self@;
        let mut next_swap_amount = amount_in;
        let mut i: usize = 0;
        proof {
            assert(swaps@.subrange(0, swaps@.len() as int) =~= swaps@);
        }
        while i < swaps.len()
            invariant
                s0 == old(self)@,
                self.wf(),
                i <= swaps@.len(),
                spec_route(s0, is_swap, amount_in, swaps@, current_timestamp)
                    == spec_route(self@, is_swap, next_swap_amount, swaps@.subrange(i as int, swaps@.len() as int), current_timestamp),
                spec_route(s0, is_swap, amount_in, swaps@, current_timestamp) is Some,
            decreases swaps.len() - i,
        {
            let hop = swaps[i];
            let ghost rest = swaps@.subrange(i as int, swaps@.len() as int);
            proof {
                assert(rest[0] == hop);
                assert(rest.subrange(1, rest.len() as int) =~= swaps@.subrange(i + 1, swaps@.len() as int));
            }
            let ghost before = self@;
            let ghost amount = next_swap_amount;
            proof {
                assert(rest.len() > 0);
                assert(spec_route(before, is_swap, amount, rest, current_timestamp) == match spec_route_hop(before, is_swap, amount, hop, current_timestamp) {
                    None => None,
                    Some((s2, Err(e))) => Some((s2, Err(e))),
                    Some((s2, Ok(out))) => spec_route(s2, is_swap, out, rest.subrange(1, rest.len() as int), current_timestamp),
                });
            }
            match self.route_hop(is_swap, next_swap_amount, hop, current_timestamp) {
                Ok(out) => {
                    next_swap_amount = out;
                },
                Err(e) => {
                    return Err(e);
                },
            }
            i = i + 1;
        }
        proof {
            assert(swaps@.subrange(i as int, swaps@.len() as int) =~= Seq::<SwapHop>::empty());
        }
        Ok(next_swap_amount)
    }

    /// One hop of a route (see `spec_route_hop`).
    fn route_hop(&mut self, is_swap: bool, amount: TokenAmount, hop: SwapHop, current_timestamp: u64) -> (res: Result<TokenAmount, InvariantError>)
        requires
            old(self).wf(),
            spec_route_hop(old(self)@, is_swap, amount, hop, current_timestamp) is Some,
        ensures
            final(self).wf(),
            Some((final(self)@, res)) == spec_route_hop(old(self)@, is_swap, amount, hop, current_timestamp),
    {
        reveal(spec_route_hop);
        let sqrt_price_limit = if hop.x_to_y {
            SqrtPrice::new(MIN_SQRT_PRICE)
        } else {
            SqrtPrice::new(MAX_SQRT_PRICE)
        };
        let result = if is_swap {
            self.swap(hop.pool_key, hop.x_to_y, amount, true, sqrt_price_limit, current_timestamp)
        } else {
            self.calculate_swap(hop.pool_key, hop.x_to_y, amount, true, sqrt_price_limit, current_timestamp)
        };
        match result {
            Ok(r) => Ok(r.amount_out),
            Err(e) => Err(e),
        }
    }

    /// What a route would pay out (see `spec_route`), without swapping.
    pub fn quote_route(&mut self, amount_in: TokenAmount, swaps: Vec<SwapHop>, current_timestamp: u64) -> (res: Result<TokenAmount, InvariantError>)
        requires
            old(self).wf(),
            spec_route(old(self)@, false, amount_in, swaps@, current_timestamp) is Some,
        ensures
            final(self).wf(),
            Some((final(self)@, res)) == spec_route(old(self)@, false, amount_in, swaps@, current_timestamp),
    {
        self.route(false, amount_in, &swaps, current_timestamp)
    }

    /// Performs a route (see `spec_swap_route`); refused when it pays out less
    /// than `expected_amount_out` allows with `slippage`. The amount in is to be
    /// paid in by the caller and the amount returned paid out to the caller.
    pub fn swap_route(
        &mut self,
        amount_in: TokenAmount,
        expected_amount_out: TokenAmount,
        slippage: Percentage,
        swaps: Vec<SwapHop>,
        current_timestamp: u64,
    ) -> (res: Result<TokenAmount, InvariantError>)
        requires
            old(self).wf(),
            slippage.v <= PERCENTAGE_ONE,
            spec_swap_route(old(self)@, amount_in, expected_amount_out, slippage, swaps@, current_timestamp) is Some,
        ensures
            final(self).wf(),
            Some((final(self)@, res)) == spec_swap_route(old(self)@, amount_in, expected_amount_out, slippage, swaps@, current_timestamp),
    {
        let amount_out = match self.route(true, amount_in, &swaps, current_timestamp) {
            Ok(a) => a,
            Err(e) => return Err(e),
        };
        let min_amount_out = calculate_min_amount_out(expected_amount_out, slippage);
        if amount_out.get() < min_amount_out.get() {
            return Err(InvariantError::AmountUnderMinimumAmountOut);
        }
        Ok(amount_out)
    }

    /// The positions of `owner` at `offset .. offset + size`, each with its
    /// pool, and how many positions `owner` has (see `spec_get_positions`).
    pub fn get_positions(&self, owner: AccountId, size: u32, offset: u32) -> (res: Result<(Vec<(Position, Pool)>, u32), InvariantError>)
        requires
            self.wf(),
        ensures
            match (res, spec_get_positions(self@, owner, size, offset)) {
                (Ok((v, n)), Ok((sv, sn))) => v@ == sv && n == sn,
                (Err(e), Err(f)) => e == f,
                _ => false,
            },
    {
        let ghost list = positions_of(self@.positions, owner);
        let ghost page = spec_position_page(list, size as nat, offset as nat);
        let count = self.positions.get_length(owner);
        let end: u64 = if offset as u64 + size as u64 > count as u64 {
            count as u64
        } else {
            offset as u64 + size as u64
        };
        let mut entries: Vec<(Position, Pool)> = Vec::new();
        let mut i: u64 = offset as u64;
        while i < end
            invariant
                self.wf(),
                list == positions_of(self@.positions, owner),
                page == spec_position_page(list, size as nat, offset as nat),
                count as nat == list.len(),
                end as int == (if offset + size > list.len() { list.len() as int } else { offset + size }),
                offset <= i,
                offset <= end ==> i <= end,
                offset > end ==> i == offset,
                entries@.len() == i - offset,
                forall|j: int| 0 <= j < i - offset ==> self@.pools.dom().contains(#[trigger] page[j].pool_key)
                    && entries@[j] == (page[j], self@.pools[page[j].pool_key]),
            decreases end - i,
        {
            let position = match self.positions.get(owner, i as u32) {
                Ok(p) => p,
                Err(e) => return Err(e),
            };
            proof {
                assert(page[i - offset] == list[i as int]);
            }
            let pool = match self.pools.get(position.pool_key) {
                Ok(pool) => pool,
                Err(e) => {
                    proof {
                        assert(!self@.pools.dom().contains(page[i - offset].pool_key));
                    }
                    return Err(e);
                },
            };
            entries.push((position, pool));
            i = i + 1;
        }
        proof {
            assert(entries@ =~= page.map_values(|p: Position| (p, self@.pools[p.pool_key])));
        }
        Ok((entries, count))
    }

    /// Hands position `index` of `caller` to `receiver` (see `spec_transfer_position`).
    pub fn transfer_position(&mut self, caller: AccountId, index: u32, receiver: AccountId) -> (res: Result<(), InvariantError>)
        requires
            old(self).wf(),
            spec_transfer_position(old(self)@, caller, index, receiver) is Some,
        ensures
            final(self).wf(),
            Some((final(self)@, res)) == spec_transfer_position(old(self)@, caller, index, receiver),
    {
        let ghost s0 = self@;
        let position = match self.positions.remove(caller, index) {
            Ok(p) => p,
            Err(e) => return Err(e),
        };
        self.positions.add(receiver, &position);
        proof {
            assert(self@ =~= spec_transfer_position(s0, caller, index, receiver).unwrap().0);
        }
        Ok(())
    }

    /// A position of `owner` with its pool and its lower and upper tick.
    pub fn get_position_with_associates(&self, owner: AccountId, index: u32) -> (res: Result<(Position, Pool, Tick, Tick), InvariantError>)
        requires
            self.wf(),
        ensures
            res == spec_get_position_with_associates(self@, owner, index),
    {
        let position = match self.positions.get(owner, index) {
            Ok(p) => p,
            Err(e) => return Err(e),
        };
        let pool = match self.pools.get(position.pool_key) {
            Ok(p) => p,
            Err(e) => return Err(e),
        };
        let lower = match self.ticks.get(position.pool_key, position.lower_tick_index) {
            Ok(t) => t,
            Err(e) => return Err(e),
        };
        let upper = match self.ticks.get(position.pool_key, position.upper_tick_index) {
            Ok(t) => t,
            Err(e) => return Err(e),
        };
        Ok((position, pool, lower, upper))
    }

    /// `caller` takes the fees that a position is owed (see `spec_claim_fee`);
    /// the amounts returned are to be paid out to the caller.
    pub fn claim_fee(&mut self, caller: AccountId, index: u32, current_timestamp: u64) -> (res: Result<(TokenAmount, TokenAmount), InvariantError>)
        requires
            old(self).wf(),
            spec_claim_fee(old(self)@, caller, index, current_timestamp) is Some,
        ensures
            final(self).wf(),
            spec_claim_fee(old(self)@, caller, index, current_timestamp) == Some((final(self)@, res)),
    {
        let ghost s0 = self@;
        let mut position = match self.positions.get(caller, index) {
            Ok(p) => p,
            Err(e) => return Err(e),
        };
        let key = position.pool_key;
        let mut lower = match self.ticks.get(key, position.lower_tick_index) {
            Ok(t) => t,
            Err(e) => return Err(e),
        };
        let mut upper = match self.ticks.get(key, position.upper_tick_index) {
            Ok(t) => t,
            Err(e) => return Err(e),
        };
        let mut pool = match self.pools.get(key) {
            Ok(p) => p,
            Err(e) => return Err(e),
        };
        let (x, y) = position.claim_fee(&mut pool, &mut upper, &mut lower, current_timestamp);
        let _ = self.positions.update(caller, index, &position);
        let _ = self.pools.update(key, &pool);
        let _ = self.ticks.update(key, upper.index, &upper);
        let _ = self.ticks.update(key, lower.index, &lower);
        proof {
            lemma_wf_with_pool_replaced(s0, key, pool);
            lemma_ticks_wf_replace(s0.ticks, s0.tickmap, key, position.upper_tick_index, upper);
            lemma_ticks_wf_replace(s0.ticks.insert((key, position.upper_tick_index), upper), s0.tickmap, key, position.lower_tick_index, lower);
            assert(self@ =~= spec_claim_fee(s0, caller, index, current_timestamp).unwrap().0);
        }
        Ok((x, y))
    }

    /// `caller` changes a position's liquidity (see `spec_change_liquidity`);
    /// the amounts returned are to be deposited when adding and paid out when
    /// withdrawing.
    pub fn change_liquidity(
        &mut self,
        caller: AccountId,
        index: u32,
        delta_liquidity: Liquidity,
        add_liquidity: bool,
        slippage_limit_lower: SqrtPrice,
        slippage_limit_upper: SqrtPrice,
        current_timestamp: u64,
    ) -> (res: Result<(TokenAmount, TokenAmount), InvariantError>)
        requires
            old(self).wf(),
            spec_change_liquidity(old(self)@, caller, index, delta_liquidity, add_liquidity, slippage_limit_lower, slippage_limit_upper, current_timestamp) is Some,
        ensures
            final(self).wf(),
            spec_change_liquidity(old(self)@, caller, index, delta_liquidity, add_liquidity, slippage_limit_lower, slippage_limit_upper, current_timestamp)
                == Some((final(self)@, res)),
    {
        let ghost s0 = self@;
        let mut position = match self.positions.get(caller, index) {
            Ok(p) => p,
            Err(e) => return Err(e),
        };
        let key = position.pool_key;
        let mut pool = match self.pools.get(key) {
            Ok(p) => p,
            Err(e) => return Err(e),
        };
        let mut lower = match self.ticks.get(key, position.lower_tick_index) {
            Ok(t) => t,
            Err(e) => return Err(e),
        };
        let mut upper = match self.ticks.get(key, position.upper_tick_index) {
            Ok(t) => t,
            Err(e) => return Err(e),
        };
        if !add_liquidity && delta_liquidity == position.liquidity {
            return Err(InvariantError::ZeroLiquidity);
        }
        if delta_liquidity.get() == 0 {
            return Err(InvariantError::LiquidityChangeZero);
        }
        if pool.sqrt_price.get() < slippage_limit_lower.get() || pool.sqrt_price.get() > slippage_limit_upper.get() {
            return Err(InvariantError::PriceLimitReached);
        }
        let (x, y) = match position.modify(
            &mut pool,
            &mut upper,
            &mut lower,
            delta_liquidity,
            add_liquidity,
            current_timestamp,
            key.fee_tier.tick_spacing,
        ) {
            Ok(r) => r,
            Err(_) => return Err(InvariantError::AmountIsZero),
        };
        if x.get() == 0 && y.get() == 0 {
            return Err(InvariantError::AmountIsZero);
        }
        let _ = self.pools.update(key, &pool);
        let _ = self.positions.update(caller, index, &position);
        let _ = self.ticks.update(key, lower.index, &lower);
        let _ = self.ticks.update(key, upper.index, &upper);
        proof {
            lemma_wf_with_pool_replaced(s0, key, pool);
            lemma_ticks_wf_replace(s0.ticks, s0.tickmap, key, position.lower_tick_index, lower);
            lemma_ticks_wf_replace(s0.ticks.insert((key, position.lower_tick_index), lower), s0.tickmap, key, position.upper_tick_index, upper);
            assert(self@ =~= spec_change_liquidity(s0, caller, index, delta_liquidity, add_liquidity, slippage_limit_lower, slippage_limit_upper, current_timestamp).unwrap().0);
        }
        Ok((x, y))
    }

    /// Position `index` of `owner`, or `PositionNotFound`.
    pub fn get_position(&self, owner: AccountId, index: u32) -> (res: Result<Position, InvariantError>)
        requires
            self.wf(),
        ensures
            res == if index < positions_of(self@.positions, owner).len() {
                Ok::<Position, InvariantError>(positions_of(self@.positions, owner)[index as int])
            } else {
                Err(InvariantError::PositionNotFound)
            },
    {
        self.positions.get(owner, index)
    }

    /// Number of positions of `owner`.
    pub fn get_user_position_amount(&self, owner: AccountId) -> (res: u32)
        requires
            self.wf(),
        ensures
            res as nat == positions_of(self@.positions, owner).len(),
    {
        self.positions.get_length(owner)
    }

    /// The stored tick at `index` of a pool, or `TickNotFound`.
    pub fn get_tick(&self, pool_key: PoolKey, index: i32) -> (res: Result<Tick, InvariantError>)
        requires
            self.wf(),
        ensures
            res == spec_get_tick(self@, pool_key, index),
    {
        self.ticks.get(pool_key, index)
    }

    /// Whether tick `index` of a pool is initialized; the tick must be a usable
    /// tick of the pool's grid. Exactly the stored ticks are initialized.
    pub fn is_tick_initialized(&self, pool_key: PoolKey, index: i32) -> (res: bool)
        requires
            self.wf(),
            aligned_tick(index as int, pool_key.fee_tier.tick_spacing as int),
        ensures
            res == tick_marked(self@.tickmap, pool_key, index),
            res == self@.ticks.dom().contains((pool_key, index)),
    {
        self.tickmap.get(index, pool_key.fee_tier.tick_spacing, pool_key)
    }

    /// How many ticks of a pool from `lower_tick` to `upper_tick` are
    /// initialized (see `spec_get_liquidity_ticks_amount`).
    pub fn get_liquidity_ticks_amount(&self, pool_key: PoolKey, lower_tick: i32, upper_tick: i32) -> (res: Result<u32, InvariantError>)
        requires
            self.wf(),
            liquidity_ticks_amount_runs(pool_key, lower_tick as int, upper_tick as int),
        ensures
            res == spec_get_liquidity_ticks_amount(self@, pool_key, lower_tick as int, upper_tick as int),
    {
        let tick_spacing = pool_key.fee_tier.tick_spacing;
        if tick_spacing == 0 {
            return Err(InvariantError::InvalidTickSpacing);
        }
        let spacing = tick_spacing as i32;
        if lower_tick.checked_rem_euclid(spacing).unwrap() != 0 || upper_tick.checked_rem_euclid(spacing).unwrap()
            != 0 {
            return Err(InvariantError::InvalidTickIndex);
        }
        let max_tick = get_max_tick(tick_spacing);
        let min_tick = get_min_tick(tick_spacing);
        if lower_tick < min_tick || upper_tick > max_tick {
            return Err(InvariantError::InvalidTickIndex);
        }
        let (min_chunk, min_bit) = tick_to_position(lower_tick, tick_spacing);
        let (max_chunk, max_bit) = tick_to_position(upper_tick, tick_spacing);
        let ghost sp = tick_spacing as int;
        proof {
            vstd::arithmetic::div_mod::lemma_fundamental_div_mod(spec_tick_index(lower_tick as int, sp), 64);
            vstd::arithmetic::div_mod::lemma_fundamental_div_mod(spec_tick_index(upper_tick as int, sp), 64);
        }
        let lo: u32 = min_chunk as u32 * 64 + min_bit as u32;
        let hi: u32 = max_chunk as u32 * 64 + max_bit as u32;
        if lo <= hi {
            Ok(self.tickmap.count_set(pool_key, lo, hi))
        } else {
            let first = self.tickmap.count_set(pool_key, lo, min_chunk as u32 * 64 + 63);
            let last = self.tickmap.count_set(pool_key, max_chunk as u32 * 64, hi);
            proof {
                lemma_count_set_bound(self@.tickmap, pool_key, lo as int, min_chunk * 64 + 63);
                lemma_count_set_bound(self@.tickmap, pool_key, max_chunk * 64, hi as int);
            }
            Ok(first + last)
        }
    }

    /// The pool of `token_0` and `token_1`, given in either order, on `fee_tier`.
    pub fn get_pool(&self, token_0: AccountId, token_1: AccountId, fee_tier: FeeTier) -> (res: Result<Pool, InvariantError>)
        requires
            self.wf(),
        ensures
            res == spec_get_pool(self@, token_0, token_1, fee_tier),
    {
        let key = match PoolKey::new(token_0, token_1, fee_tier) {
            Ok(key) => key,
            Err(e) => return Err(e),
        };
        self.pools.get(key)
    }

    /// The pools of `token_0` and `token_1` on every offered fee tier, each with
    /// its fee tier, in the order the fee tiers were added.
    pub fn get_all_pools_for_pair(&self, token_0: AccountId, token_1: AccountId) -> (res: Result<Vec<(FeeTier, Pool)>, InvariantError>)
        requires
            self.wf(),
        ensures
            match (res, spec_get_all_pools_for_pair(self@, token_0, token_1)) {
                (Ok(v), Ok(s)) => v@ == s,
                (Err(e), Err(f)) => e == f,
                _ => false,
            },
    {
        let fee_tiers = self.fee_tiers.get_all();
        let mut pools: Vec<(FeeTier, Pool)> = Vec::new();
        let mut i: usize = 0;
        while i < fee_tiers.len()
            invariant
                i <= fee_tiers.len(),
                fee_tiers@ == self@.fee_tiers,
                self.wf(),
                i > 0 ==> token_0 != token_1,
                pools@ == spec_pools_for_pair(fee_tiers@.take(i as int), self@.pools, token_0, token_1),
            decreases fee_tiers.len() - i,
        {
            let fee_tier = fee_tiers[i];
            let key = match PoolKey::new(token_0, token_1, fee_tier) {
                Ok(key) => key,
                Err(e) => return Err(e),
            };
            assert(fee_tiers@.take(i + 1).drop_last() =~= fee_tiers@.take(i as int));
            if let Ok(pool) = self.pools.get(key) {
                pools.push((fee_tier, pool));
            }
            i = i + 1;
        }
        assert(fee_tiers@.take(i as int) =~= fee_tiers@);
        Ok(pools)
    }

    /// The pool keys at positions `offset .. offset + size` in the order the pools
    /// were created, as far as there are any, with the number of pools.
    pub fn get_pool_keys(&self, size: u16, offset: u16) -> (res: Result<(Vec<PoolKey>, u16), InvariantError>)
        requires
            self.wf(),
        ensures
            res matches Ok((keys, count)) && keys@ == spec_page(self@.pool_keys, size as nat, offset as nat)
                && count == self@.pool_keys.len(),
    {
        let keys = self.pool_keys.get_all(size, offset);
        let count = self.pool_keys.count();
        Ok((keys, count))
    }

    /// What swapping would do (see `spec_calculate_swap`), at time `current_timestamp`.
    pub fn calculate_swap(
        &self,
        pool_key: PoolKey,
        x_to_y: bool,
        amount: TokenAmount,
        by_amount_in: bool,
        sqrt_price_limit: SqrtPrice,
        current_timestamp: u64,
    ) -> (res: Result<CalculateSwapResult, InvariantError>)
        requires
            self.wf(),
            spec_calculate_swap(self@, pool_key, x_to_y, amount, by_amount_in, sqrt_price_limit, current_timestamp) is Some,
        ensures
            match (res, spec_calculate_swap(self@, pool_key, x_to_y, amount, by_amount_in, sqrt_price_limit, current_timestamp)) {
                (Ok(r), Some(Ok((start, st, crossed)))) => swap_result_matches(r, start, st, crossed),
                (Err(e), Some(Err(f))) => e == f,
                _ => false,
            },
            res matches Ok(r) ==> crossed_stored(self@.ticks, pool_key, r.ticks@),
    {
        let (pool, tick_limit) = match self.prepare_swap(pool_key, x_to_y, amount, sqrt_price_limit) {
            Ok(r) => r,
            Err(e) => return Err(e),
        };
        proof {
            assert(pool_key_ok(pool_key));
            reveal_with_fuel(pow10, 13);
            assert(pool_key.fee_tier.fee.v <= PERCENTAGE_ONE);
            self.lemma_wf();
        }
        let ctx = SwapContext {
            pool_key,
            x_to_y,
            by_amount_in,
            sqrt_price_limit,
            protocol_fee: self.config.protocol_fee,
            timestamp: current_timestamp,
            tick_limit,
        };
        let start = SwapState { pool, progress: SwapProgress::new(amount) };
        proof {
            assert((ctx, start) == spec_swap_start(self@, pool_key, x_to_y, amount, by_amount_in, sqrt_price_limit, current_timestamp, pool, tick_limit));
        }
        let (st, crossed) = match run_swap_loop(&self.ticks, &self.tickmap, ctx, start) {
            Ok(r) => r,
            Err(e) => return Err(e),
        };
        if st.progress.total_amount_out.get() == 0 {
            return Err(InvariantError::NoGainSwap);
        }
        Ok(CalculateSwapResult {
            amount_in: st.progress.total_amount_in,
            amount_out: st.progress.total_amount_out,
            start_sqrt_price: pool.sqrt_price,
            target_sqrt_price: st.pool.sqrt_price,
            fee: st.progress.fee_amount,
            pool: st.pool,
            ticks: crossed,
        })
    }

    /// What a swap would pay in and out, the price it would end at and the
    /// initialized ticks it would cross (see `spec_calculate_swap`).
    pub fn quote(
        &self,
        pool_key: PoolKey,
        x_to_y: bool,
        amount: TokenAmount,
        by_amount_in: bool,
        sqrt_price_limit: SqrtPrice,
        current_timestamp: u64,
    ) -> (res: Result<QuoteResult, InvariantError>)
        requires
            self.wf(),
            spec_calculate_swap(self@, pool_key, x_to_y, amount, by_amount_in, sqrt_price_limit, current_timestamp) is Some,
        ensures
            match (res, spec_calculate_swap(self@, pool_key, x_to_y, amount, by_amount_in, sqrt_price_limit, current_timestamp)) {
                (Ok(q), Some(Ok((_, st, crossed)))) => q.amount_in == st.progress.total_amount_in
                    && q.amount_out == st.progress.total_amount_out && q.target_sqrt_price == st.pool.sqrt_price
                    && q.ticks@ == crossed,
                (Err(e), Some(Err(f))) => e == f,
                _ => false,
            },
    {
        let r = match self.calculate_swap(pool_key, x_to_y, amount, by_amount_in, sqrt_price_limit, current_timestamp) {
            Ok(r) => r,
            Err(e) => return Err(e),
        };
        Ok(QuoteResult { amount_in: r.amount_in, amount_out: r.amount_out, target_sqrt_price: r.pool.sqrt_price, ticks: r.ticks })
    }

    /// Performs a swap (see `spec_swap`); the amounts returned are to be paid
    /// in and out by the caller.
    #[verifier::rlimit(40)]
    pub fn swap(
        &mut self,
        pool_key: PoolKey,
        x_to_y: bool,
        amount: TokenAmount,
        by_amount_in: bool,
        sqrt_price_limit: SqrtPrice,
        current_timestamp: u64,
    ) -> (res: Result<CalculateSwapResult, InvariantError>)
        requires
            old(self).wf(),
            spec_swap(old(self)@, pool_key, x_to_y, amount, by_amount_in, sqrt_price_limit, current_timestamp) is Some,
        ensures
            final(self).wf(),
            match (res, spec_swap(old(self)@, pool_key, x_to_y, amount, by_amount_in, sqrt_price_limit, current_timestamp)) {
                (Ok(r), Some((s2, Ok((start, st, crossed))))) => final(self)@ == s2 && swap_result_matches(r, start, st, crossed),
                (Err(e), Some((s2, Err(f)))) => e == f && final(self)@ == s2,
                _ => false,
            },
    {
        let ghost s0 = self@;
        let result = match self.calculate_swap(pool_key, x_to_y, amount, by_amount_in, sqrt_price_limit, current_timestamp) {
            Ok(r) => r,
            Err(e) => return Err(e),
        };
        let ghost crossed = result.ticks@;
        proof {
            lemma_write_ticks_dom(s0.ticks, pool_key, crossed);
        }
        let mut i: usize = 0;
        while i < result.ticks.len()
            invariant
                self.wf(),
                self@ == (InvariantState { ticks: spec_write_ticks(s0.ticks, pool_key, crossed.take(i as int)), ..s0 }),
                i <= crossed.len(),
                crossed == result.ticks@,
                crossed_stored(s0.ticks, pool_key, crossed),
            decreases result.ticks.len() - i,
        {
            let tick = result.ticks[i];
            let ghost before = self@;
            let _ = self.ticks.update(pool_key, tick.index, &tick);
            proof {
                assert(crossed.take(i + 1).drop_last() =~= crossed.take(i as int));
                lemma_write_ticks_dom(s0.ticks, pool_key, crossed.take(i as int));
                assert(s0.ticks.dom().contains((pool_key, crossed[i as int].index)));
                assert(before.ticks.dom().contains((pool_key, tick.index)));
                lemma_ticks_wf_replace(before.ticks, before.tickmap, pool_key, tick.index, tick);
                assert(self@ =~= InvariantState { ticks: before.ticks.insert((pool_key, tick.index), tick), ..before });
                assert(registry_wf(self@));
                assert(state_wf(self@));
            }
            i = i + 1;
        }
        let _ = self.pools.update(pool_key, &result.pool);
        proof {
            assert(crossed.take(i as int) =~= crossed);
            lemma_wf_with_pool_replaced(InvariantState { ticks: spec_write_ticks(s0.ticks, pool_key, crossed), ..s0 }, pool_key, result.pool);
            assert(self@ =~= spec_swap(s0, pool_key, x_to_y, amount, by_amount_in, sqrt_price_limit, current_timestamp).unwrap().0);
        }
        Ok(result)
    }

    /// The checks a swap starts with, giving the pool to swap in and the tick
    /// that the swap may not reach.
    pub fn prepare_swap(&self, pool_key: PoolKey, x_to_y: bool, amount: TokenAmount, sqrt_price_limit: SqrtPrice) -> (res: Result<(Pool, i32), InvariantError>)
        requires
            self.wf(),
        ensures
            res == spec_prepare_swap(self@, pool_key, x_to_y, amount, sqrt_price_limit),
    {
        if amount.is_zero() {
            return Err(InvariantError::AmountIsZero);
        }
        let pool = match self.pools.get(pool_key) {
            Ok(pool) => pool,
            Err(e) => return Err(e),
        };
        if let Err(e) = check_swap_limit(pool.sqrt_price, x_to_y, sqrt_price_limit) {
            return Err(e);
        }
        assert(fee_tier_valid(pool_key.fee_tier));
        let tick_limit = if x_to_y {
            get_min_tick(pool_key.fee_tier.tick_spacing)
        } else {
            get_max_tick(pool_key.fee_tier.tick_spacing)
        };
        Ok((pool, tick_limit))
    }

    /// Restores a contract from saved parts; `None` when they do not make up a
    /// well-formed state (see `spec_parts_ok`).
    pub fn from_parts(
        config: InvariantConfig,
        fee_tiers: Vec<FeeTier>,
        pools: Vec<(PoolKey, Pool)>,
        pool_keys: Vec<PoolKey>,
        ticks: Vec<((PoolKey, i32), Tick)>,
        positions: Vec<(AccountId, Vec<Position>)>,
    ) -> (res: Option<Invariant>)
        ensures
            res is Some <==> spec_parts_ok(fee_tiers@, pools@, pool_keys@, ticks@, positions@),
            res matches Some(inv) ==> inv.wf() && inv@ == spec_state_of_parts(
                config,
                fee_tiers@,
                pools@,
                pool_keys@,
                ticks@,
                inv@.tickmap,
                positions@,
            ),
    {
        let ghost position_entries = positions@;
        let position_list = match Positions::from_entries(positions) {
            Some(p) => p,
            None => return None,
        };
        let mut i: usize = 0;
        while i < ticks.len()
            invariant
                i <= ticks.len(),
                forall|j: int| 0 <= j < i ==> aligned_tick(
                    (#[trigger] ticks@[j]).0.1 as int,
                    ticks@[j].0.0.fee_tier.tick_spacing as int,
                ) && ticks@[j].1.index == ticks@[j].0.1,
            decreases ticks.len() - i,
        {
            let entry = ticks[i];
            let spacing = entry.0.0.fee_tier.tick_spacing;
            let t = entry.0.1;
            if spacing == 0 || t < -MAX_TICK || t > MAX_TICK || entry.1.index != t {
                return None;
            }
            if t.checked_rem_euclid(spacing as i32).unwrap() != 0 {
                return None;
            }
            i = i + 1;
        }
        let mut i: usize = 0;
        while i < fee_tiers.len()
            invariant
                i <= fee_tiers.len(),
                forall|j: int| 0 <= j < i ==> fee_tier_valid(#[trigger] fee_tiers@[j]),
            decreases fee_tiers.len() - i,
        {
            if FeeTier::new(fee_tiers[i].fee, fee_tiers[i].tick_spacing).is_err() {
                return None;
            }
            i = i + 1;
        }
        if pools.len() != pool_keys.len() {
            proof {
                assert(assoc_keys(pools@).len() == pools@.len());
            }
            return None;
        }
        let mut i: usize = 0;
        while i < pool_keys.len()
            invariant
                i <= pool_keys.len(),
                pools@.len() == pool_keys@.len(),
                forall|j: int| 0 <= j < i ==> pool_key_ok(#[trigger] pool_keys@[j]),
                forall|j: int| 0 <= j < i ==> #[trigger] pools@[j].0 == pool_keys@[j],
            decreases pool_keys.len() - i,
        {
            let key = pool_keys[i];
            if FeeTier::new(key.fee_tier.fee, key.fee_tier.tick_spacing).is_err() {
                return None;
            }
            if !key.token_x.lt(&key.token_y) {
                return None;
            }
            if pools[i].0 != key {
                proof {
                    assert(assoc_keys(pools@)[i as int] == pools@[i as int].0);
                }
                return None;
            }
            i = i + 1;
        }
        assert(assoc_keys(pools@) =~= pool_keys@);
        let fee_tier_list = match FeeTiers::from_vec(fee_tiers) {
            Some(f) => f,
            None => return None,
        };
        let key_list = match PoolKeys::from_vec(pool_keys) {
            Some(k) => k,
            None => return None,
        };
        let ghost pool_entries = pools@;
        let tick_list = match Ticks::from_entries(ticks) {
            Some(t) => t,
            None => return None,
        };
        let ghost tick_entries = tick_list.entry_list();
        let stored = tick_list.entries();
        let mut tickmap = Tickmap::new();
        proof {
            lemma_ticks_wf_empty();
            assert(assoc_map(tick_entries.take(0)) == Map::<(PoolKey, i32), Tick>::empty());
        }
        let mut i: usize = 0;
        while i < stored.len()
            invariant
                i <= stored@.len(),
                stored@ == tick_entries,
                keys_distinct(tick_entries),
                forall|j: int| 0 <= j < tick_entries.len() ==> aligned_tick(
                    (#[trigger] tick_entries[j]).0.1 as int,
                    tick_entries[j].0.0.fee_tier.tick_spacing as int,
                ) && tick_entries[j].1.index == tick_entries[j].0.1,
                tickmap.wf(),
                ticks_wf(assoc_map(tick_entries.take(i as int)), tickmap@),
            decreases stored.len() - i,
        {
            let entry = stored[i];
            let ghost done = assoc_map(tick_entries.take(i as int));
            let ghost next = assoc_map(tick_entries.take(i + 1));
            proof {
                assert(tick_entries.take(i + 1).drop_last() =~= tick_entries.take(i as int));
                assert(next == done.insert(entry.0, entry.1));
                lemma_assoc_map_dom(tick_entries.take(i as int), entry.0);
                assert(!done.dom().contains(entry.0)) by {
                    if done.dom().contains(entry.0) {
                        let j = choose|j: int| 0 <= j < i && #[trigger] tick_entries.take(i as int)[j].0 == entry.0;
                        assert(tick_entries[j].0 != tick_entries[i as int].0);
                    }
                }
                assert(aligned_tick(entry.0.1 as int, entry.0.0.fee_tier.tick_spacing as int));
                assert(!tick_marked(tickmap@, entry.0.0, entry.0.1));
            }
            let ghost before = tickmap@;
            tickmap.flip(true, entry.0.1, entry.0.0.fee_tier.tick_spacing, entry.0.0);
            proof {
                assert(done.insert(entry.0, entry.1).dom() =~= done.dom().insert((entry.0.0, entry.0.1)));
                lemma_ticks_wf_after_flip(done, before, next, tickmap@, entry.0.0, entry.0.1, true);
            }
            i = i + 1;
        }
        proof {
            assert(tick_entries.take(i as int) =~= tick_entries);
            lemma_parts_wf(config, fee_tier_list@, pool_entries, key_list@, tick_entries, tickmap@, position_entries);
        }
        let pool_map = match Pools::from_entries(pools) {
            Some(p) => p,
            None => return None,
        };
        let res = Invariant {
            pools: pool_map,
            fee_tiers: fee_tier_list,
            pool_keys: key_list,
            ticks: tick_list,
            tickmap,
            positions: position_list,
            config,
        };
        proof {
            res.pools.lemma_view();
            assert(res@ =~= spec_state_of_parts(config, res.fee_tiers@, pool_entries, res.pool_keys@, tick_entries, res@.tickmap, position_entries));
        }
        Some(res)
    }

    /// The parts that `from_parts` restores the contract from.
    pub fn to_parts(&self) -> (res: (
        InvariantConfig,
        Vec<FeeTier>,
        Vec<(PoolKey, Pool)>,
        Vec<PoolKey>,
        Vec<((PoolKey, i32), Tick)>,
        Vec<(AccountId, Vec<Position>)>,
    ))
        requires
            self.wf(),
        ensures
            spec_parts_ok(res.1@, res.2@, res.3@, res.4@, res.5@),
            spec_state_of_parts(res.0, res.1@, res.2@, res.3@, res.4@, self@.tickmap, res.5@) == self@,
    {
        let positions = self.positions.entries();
        let ticks = self.ticks.entries();
        proof {
            self.ticks.lemma_view();
        }
        let fee_tiers = self.fee_tiers.get_all();
        let pools = self.pools.entries();
        let pool_keys = self.pool_keys.get_all(self.pool_keys.count(), 0);
        proof {
            self.pools.lemma_view();
            if self@.pool_keys.len() > 0 {
                assert(self@.pool_keys.subrange(0, self@.pool_keys.len() as int) =~= self@.pool_keys);
            }
            assert(pool_keys@ =~= self@.pool_keys);
            assert forall|i: int| 0 <= i < pool_keys@.len() implies pool_key_ok(#[trigger] pool_keys@[i]) by {
                assert(self@.pool_keys.contains(pool_keys@[i]));
                assert(self@.pools.dom().contains(pool_keys@[i]));
            }
            assert forall|i: int| 0 <= i < ticks@.len() implies aligned_tick(
                (#[trigger] ticks@[i]).0.1 as int,
                ticks@[i].0.0.fee_tier.tick_spacing as int,
            ) && ticks@[i].1.index == ticks@[i].0.1 by {
                lemma_assoc_map_index(ticks@, i);
            }
            assert(spec_state_of_parts(self.config, fee_tiers@, pools@, pool_keys@, ticks@, self@.tickmap, positions@) =~= self@);
        }
        (self.config, fee_tiers, pools, pool_keys, ticks, positions)
    }

    /// Whether `caller` may replace the contract's code: only the admin may.
    pub fn set_code(&self, caller: AccountId) -> (res: Result<(), InvariantError>)
        ensures
            res == spec_set_code(self@, caller),
    {
        if caller != self.config.admin {
            return Err(InvariantError::NotAdmin);
        }
        Ok(())
    }
}

} // verus!
