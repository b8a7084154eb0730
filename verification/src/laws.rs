//! Properties of the contract that span several requests.
use crate::contracts::account::{account_lt, AccountId};
use crate::contracts::collections::spec_page;
use crate::contracts::errors::InvariantError;
use crate::contracts::storage::{
    fee_tier_valid, spec_fee_tier, spec_new_pool, spec_pool_key, FeeTier, InvariantConfig, Pool,
    PoolKey,
};
use crate::math::consts::MAX_TICK;
use crate::math::types::token_amount::TokenAmount;
use crate::math::types::percentage::Percentage;
use crate::math::types::liquidity::Liquidity;
use crate::math::clamm::{law_withdrawal_never_exceeds_deposit, spec_check_tick, spec_fee_growth_inside, spec_max_liquidity_per_tick};
use crate::math::types::fee_growth::FeeGrowth;
use crate::math::error::MathError;
use crate::math::log::{
    is_tick_of_price, lemma_align_tick_facts, lemma_tick_of_price_unique, spec_tick_at_sqrt_price,
};
use crate::math::types::sqrt_price::{
    lemma_price_matches_one_tick, lemma_sqrt_price_bounds, lemma_sqrt_price_increasing,
    lemma_tick_matches_own_price, spec_max_tick, spec_sqrt_price, tick_in_range, SqrtPrice,
};
use crate::contracts::tick::{spec_tick_update, Tick};
use crate::contracts::tickmap::{aligned_tick, lemma_tick_index, spec_count_set, spec_index_set, spec_tick_index};
use crate::contracts::position::{positions_of, spec_modify, spec_position_claim_fee, spec_position_create, spec_position_remove};
use crate::swap::{amounts_kept, lemma_loop_keeps_amounts, spec_swap_loop};
use crate::protocol::{
    lemma_ticks_wf_empty, lemma_wf_create_tick, lemma_wf_remove_tick, spec_create_tick, spec_remove_tick,
    lemma_wf_with_config, lemma_wf_with_fee_tier_added, lemma_wf_with_fee_tier_removed,
    lemma_wf_with_pool_added, lemma_wf_with_pool_replaced, spec_add_fee_tier,
    spec_change_fee_receiver, spec_change_protocol_fee, spec_create_pool,
    spec_get_all_pools_for_pair, spec_get_pool, spec_pools_for_pair,
    spec_initial, spec_remove_fee_tier, spec_create_position, spec_change_liquidity, spec_remove_position,
    spec_transfer_position, spec_ensure_tick, spec_calculate_swap, spec_claim_fee, spec_get_liquidity_ticks_amount, tick_marked, ticks_wf, spec_prepare_swap, spec_swap, spec_swap_start, spec_set_code, spec_withdraw_protocol_fee, state_wf,
    InvariantState,
};
use vstd::arithmetic::div_mod::lemma_fundamental_div_mod;
use vstd::prelude::*;

verus! {

/// Every request keeps `state_wf`: whatever is asked, a well-formed state stays
/// well formed, and the state right after deployment is well formed.
pub proof fn law_requests_keep_state_wf(
    s: InvariantState,
    caller: AccountId,
    protocol_fee: Percentage,
    fee_tier: FeeTier,
    pool_key: PoolKey,
    fee_receiver: AccountId,
    token_0: AccountId,
    token_1: AccountId,
    init_sqrt_price: SqrtPrice,
    init_tick: i32,
    timestamp: u64,
    tick: Tick,
)
    requires
        state_wf(s),
    ensures
        state_wf(spec_initial(caller, protocol_fee)),
        pool_key.fee_tier.tick_spacing > 0 ==> state_wf(spec_create_tick(s, pool_key, init_tick as int, timestamp).0),
        s.ticks.dom().contains((pool_key, tick.index)) ==> state_wf(spec_remove_tick(s, pool_key, tick).0),
        state_wf(spec_change_protocol_fee(s, caller, protocol_fee).0),
        state_wf(spec_add_fee_tier(s, caller, fee_tier).0),
        state_wf(spec_remove_fee_tier(s, caller, fee_tier).0),
        state_wf(spec_change_fee_receiver(s, caller, pool_key, fee_receiver).0),
        state_wf(spec_withdraw_protocol_fee(s, caller, pool_key).0),
        state_wf(spec_create_pool(s, token_0, token_1, fee_tier, init_sqrt_price, init_tick, timestamp).0),
{
    lemma_ticks_wf_empty();
    lemma_wf_with_config(s, InvariantConfig { protocol_fee, ..s.config });
    if pool_key.fee_tier.tick_spacing > 0 {
        lemma_wf_create_tick(s, pool_key, init_tick as int, timestamp);
    }
    if s.ticks.dom().contains((pool_key, tick.index)) {
        lemma_wf_remove_tick(s, pool_key, tick);
    }
    if spec_add_fee_tier(s, caller, fee_tier).1 is Ok {
        lemma_wf_with_fee_tier_added(s, fee_tier);
    }
    if s.fee_tiers.contains(fee_tier) {
        lemma_wf_with_fee_tier_removed(s, s.fee_tiers.index_of(fee_tier));
    }
    if s.pools.dom().contains(pool_key) {
        lemma_wf_with_pool_replaced(s, pool_key, Pool { fee_receiver, ..s.pools[pool_key] });
        let pool = s.pools[pool_key];
        lemma_wf_with_pool_replaced(
            s,
            pool_key,
            Pool { fee_protocol_token_x: TokenAmount(0), fee_protocol_token_y: TokenAmount(0), ..pool },
        );
    }
    if spec_create_pool(s, token_0, token_1, fee_tier, init_sqrt_price, init_tick, timestamp).1 is Ok {
        let key = spec_pool_key(token_0, token_1, fee_tier)->Ok_0;
        let pool = spec_new_pool(init_sqrt_price, init_tick, timestamp, fee_tier.tick_spacing, s.config.admin)->Ok_0;
        let i = s.fee_tiers.index_of(fee_tier);
        assert(fee_tier_valid(s.fee_tiers[i]));
        law_pool_key_ordered(token_0, token_1, fee_tier);
        lemma_wf_with_pool_added(s, key, pool);
    }
}

/// A pool's initial tick is fixed by its initial price: two pools created on
/// the same fee tier at the same initial price start at the same tick.
pub proof fn law_init_tick_fixed_by_price(
    s1: InvariantState,
    s2: InvariantState,
    tokens_1: (AccountId, AccountId),
    tokens_2: (AccountId, AccountId),
    fee_tier: FeeTier,
    init_sqrt_price: SqrtPrice,
    tick_1: i32,
    tick_2: i32,
    timestamp_1: u64,
    timestamp_2: u64,
)
    requires
        spec_create_pool(s1, tokens_1.0, tokens_1.1, fee_tier, init_sqrt_price, tick_1, timestamp_1).1 is Ok,
        spec_create_pool(s2, tokens_2.0, tokens_2.1, fee_tier, init_sqrt_price, tick_2, timestamp_2).1 is Ok,
    ensures
        tick_1 == tick_2,
{
    let sp = fee_tier.tick_spacing as int;
    let i = s1.fee_tiers.index_of(fee_tier);
    assert(s1.fee_tiers[i] == fee_tier);
    assert(sp > 0);
    let m = spec_max_tick(sp);
    lemma_fundamental_div_mod(MAX_TICK as int, sp);
    assert(m <= MAX_TICK) by (nonlinear_arith)
        requires
            MAX_TICK as int == sp * (MAX_TICK as int / sp) + MAX_TICK as int % sp,
            MAX_TICK as int % sp >= 0,
            m == (MAX_TICK as int / sp) * sp;
    lemma_price_matches_one_tick(tick_1 as int, tick_2 as int, sp, init_sqrt_price.0 as nat);
}

/// Opening a pool at exactly the price of its initial tick succeeds whenever the
/// fee tier is offered, the tick is usable on it, the tokens differ, the pool
/// does not exist yet and the count of pools still fits a `u16`.
pub proof fn law_pool_opens_at_tick_price(
    s: InvariantState,
    token_0: AccountId,
    token_1: AccountId,
    fee_tier: FeeTier,
    init_tick: i32,
    timestamp: u64,
)
    requires
        state_wf(s),
        s.fee_tiers.contains(fee_tier),
        spec_check_tick(init_tick as int, fee_tier.tick_spacing as int) is Ok,
        token_0 != token_1,
        !s.pools.dom().contains(spec_pool_key(token_0, token_1, fee_tier)->Ok_0),
        s.pool_keys.len() < u16::MAX,
    ensures
        spec_create_pool(
            s,
            token_0,
            token_1,
            fee_tier,
            SqrtPrice(spec_sqrt_price(init_tick as int) as u128),
            init_tick,
            timestamp,
        ).1 is Ok,
{
    let sp = fee_tier.tick_spacing as int;
    let i = s.fee_tiers.index_of(fee_tier);
    assert(fee_tier_valid(s.fee_tiers[i]));
    let m = spec_max_tick(sp);
    lemma_fundamental_div_mod(MAX_TICK as int, sp);
    assert(m <= MAX_TICK) by (nonlinear_arith)
        requires
            MAX_TICK as int == sp * (MAX_TICK as int / sp) + MAX_TICK as int % sp,
            MAX_TICK as int % sp >= 0,
            m == (MAX_TICK as int / sp) * sp;
    lemma_sqrt_price_bounds(init_tick as int);
    lemma_tick_matches_own_price(init_tick as int, sp);
}

/// A pool key names its smaller token first.
pub proof fn law_pool_key_ordered(token_0: AccountId, token_1: AccountId, fee_tier: FeeTier)
    ensures
        spec_pool_key(token_0, token_1, fee_tier) matches Ok(k) ==> account_lt(k.token_x, k.token_y),
{
}

/// A pool key does not depend on the order in which its two tokens are given.
pub proof fn law_pool_key_symmetric(token_0: AccountId, token_1: AccountId, fee_tier: FeeTier)
    ensures
        spec_pool_key(token_0, token_1, fee_tier) == spec_pool_key(token_1, token_0, fee_tier),
{
}

/// Once a fee tier has been added, it exists.
pub proof fn law_added_fee_tier_exists(s: InvariantState, caller: AccountId, fee_tier: FeeTier)
    requires
        spec_add_fee_tier(s, caller, fee_tier).1 is Ok,
    ensures
        spec_add_fee_tier(s, caller, fee_tier).0.fee_tiers.contains(fee_tier),
{
    let t = spec_add_fee_tier(s, caller, fee_tier).0.fee_tiers;
    assert(t[t.len() - 1] == fee_tier);
}

/// Once a fee tier has been removed, it no longer exists.
pub proof fn law_removed_fee_tier_gone(s: InvariantState, caller: AccountId, fee_tier: FeeTier)
    requires
        state_wf(s),
        spec_remove_fee_tier(s, caller, fee_tier).1 is Ok,
    ensures
        !spec_remove_fee_tier(s, caller, fee_tier).0.fee_tiers.contains(fee_tier),
{
    let t = s.fee_tiers;
    let k = t.index_of(fee_tier);
    assert(t[k] == fee_tier);
    let r = t.remove(k);
    t.remove_ensures(k);
    if r.contains(fee_tier) {
        let j = choose|j: int| 0 <= j < r.len() && r[j] == fee_tier;
        if j < k {
            assert(t[j] == fee_tier);
        } else {
            assert(t[j + 1] == fee_tier);
        }
    }
}

/// Adding a fee tier that was just added is refused with `FeeTierAlreadyExist`
/// and changes nothing.
pub proof fn law_fee_tier_added_twice(s: InvariantState, caller: AccountId, fee_tier: FeeTier)
    requires
        spec_add_fee_tier(s, caller, fee_tier).1 is Ok,
    ensures
        ({
            let s1 = spec_add_fee_tier(s, caller, fee_tier).0;
            spec_add_fee_tier(s1, caller, fee_tier) == (s1, Err::<(), InvariantError>(InvariantError::FeeTierAlreadyExist))
        }),
{
    law_added_fee_tier_exists(s, caller, fee_tier);
}

/// Removing a fee tier right after adding it gives back the state before the addition.
pub proof fn law_remove_undoes_add_fee_tier(s: InvariantState, caller: AccountId, fee_tier: FeeTier)
    requires
        spec_add_fee_tier(s, caller, fee_tier).1 is Ok,
    ensures
        spec_remove_fee_tier(spec_add_fee_tier(s, caller, fee_tier).0, caller, fee_tier) == (s, Ok::<(), InvariantError>(())),
{
    let s1 = spec_add_fee_tier(s, caller, fee_tier).0;
    let t = s1.fee_tiers;
    law_added_fee_tier_exists(s, caller, fee_tier);
    let k = t.index_of(fee_tier);
    assert(t[k] == fee_tier);
    if k < s.fee_tiers.len() {
        assert(s.fee_tiers[k] == fee_tier);
        assert(false);
    }
    assert(k == s.fee_tiers.len());
    assert(t.remove(k) =~= s.fee_tiers);
    assert(spec_remove_fee_tier(s1, caller, fee_tier).0 =~= s);
}

/// A pool that was just created is found under its two tokens in either order,
/// as a fresh pool at the initial price and tick whose fees go to the admin.
pub proof fn law_created_pool_found(
    s: InvariantState,
    token_0: AccountId,
    token_1: AccountId,
    fee_tier: FeeTier,
    init_sqrt_price: SqrtPrice,
    init_tick: i32,
    timestamp: u64,
)
    requires
        spec_create_pool(s, token_0, token_1, fee_tier, init_sqrt_price, init_tick, timestamp).1 is Ok,
    ensures
        ({
            let s1 = spec_create_pool(s, token_0, token_1, fee_tier, init_sqrt_price, init_tick, timestamp).0;
            let pool = spec_new_pool(init_sqrt_price, init_tick, timestamp, fee_tier.tick_spacing, s.config.admin);
            &&& pool is Ok
            &&& spec_get_pool(s1, token_0, token_1, fee_tier) == pool
            &&& spec_get_pool(s1, token_1, token_0, fee_tier) == pool
        }),
{
    law_pool_key_symmetric(token_0, token_1, fee_tier);
}

/// Creating a pool that was just created, with its tokens in either order, is
/// refused with `PoolAlreadyExist` and changes nothing.
pub proof fn law_pool_created_twice(
    s: InvariantState,
    token_0: AccountId,
    token_1: AccountId,
    fee_tier: FeeTier,
    init_sqrt_price: SqrtPrice,
    init_tick: i32,
    timestamp: u64,
    later: u64,
)
    requires
        spec_create_pool(s, token_0, token_1, fee_tier, init_sqrt_price, init_tick, timestamp).1 is Ok,
    ensures
        ({
            let s1 = spec_create_pool(s, token_0, token_1, fee_tier, init_sqrt_price, init_tick, timestamp).0;
            &&& spec_create_pool(s1, token_0, token_1, fee_tier, init_sqrt_price, init_tick, later)
                == (s1, Err::<(), InvariantError>(InvariantError::PoolAlreadyExist))
            &&& spec_create_pool(s1, token_1, token_0, fee_tier, init_sqrt_price, init_tick, later)
                == (s1, Err::<(), InvariantError>(InvariantError::PoolAlreadyExist))
        }),
{
    law_pool_key_symmetric(token_0, token_1, fee_tier);
    let s1 = spec_create_pool(s, token_0, token_1, fee_tier, init_sqrt_price, init_tick, timestamp).0;
    let i = s.fee_tiers.index_of(fee_tier);
    assert(s1.fee_tiers[i] == fee_tier);
}

/// A request that is refused leaves the state as it was.
pub proof fn law_refused_requests_change_nothing(
    s: InvariantState,
    caller: AccountId,
    protocol_fee: Percentage,
    fee_tier: FeeTier,
    pool_key: PoolKey,
    fee_receiver: AccountId,
    token_0: AccountId,
    token_1: AccountId,
    init_sqrt_price: SqrtPrice,
    init_tick: i32,
    timestamp: u64,
)
    ensures
        spec_change_protocol_fee(s, caller, protocol_fee).1 is Err ==> spec_change_protocol_fee(s, caller, protocol_fee).0 == s,
        spec_add_fee_tier(s, caller, fee_tier).1 is Err ==> spec_add_fee_tier(s, caller, fee_tier).0 == s,
        spec_remove_fee_tier(s, caller, fee_tier).1 is Err ==> spec_remove_fee_tier(s, caller, fee_tier).0 == s,
        spec_change_fee_receiver(s, caller, pool_key, fee_receiver).1 is Err
            ==> spec_change_fee_receiver(s, caller, pool_key, fee_receiver).0 == s,
        spec_withdraw_protocol_fee(s, caller, pool_key).1 is Err ==> spec_withdraw_protocol_fee(s, caller, pool_key).0 == s,
        spec_create_pool(s, token_0, token_1, fee_tier, init_sqrt_price, init_tick, timestamp).1 is Err
            ==> spec_create_pool(s, token_0, token_1, fee_tier, init_sqrt_price, init_tick, timestamp).0 == s,
{
}

/// Only the admin changes the configuration, the fee tiers, fee receivers and
/// the code: anyone else is refused with `NotAdmin` (a malformed fee tier is
/// reported as such first).
pub proof fn law_only_admin_configures(
    s: InvariantState,
    caller: AccountId,
    protocol_fee: Percentage,
    fee_tier: FeeTier,
    pool_key: PoolKey,
    fee_receiver: AccountId,
)
    requires
        caller != s.config.admin,
    ensures
        spec_change_protocol_fee(s, caller, protocol_fee).1 == Err::<(), InvariantError>(InvariantError::NotAdmin),
        spec_remove_fee_tier(s, caller, fee_tier).1 == Err::<(), InvariantError>(InvariantError::NotAdmin),
        spec_change_fee_receiver(s, caller, pool_key, fee_receiver).1 == Err::<(), InvariantError>(InvariantError::NotAdmin),
        spec_fee_tier(fee_tier.fee, fee_tier.tick_spacing) is Ok ==> spec_add_fee_tier(s, caller, fee_tier).1
            == Err::<(), InvariantError>(InvariantError::NotAdmin),
        spec_fee_tier(fee_tier.fee, fee_tier.tick_spacing) matches Err(e) ==> spec_add_fee_tier(s, caller, fee_tier).1
            == Err::<(), InvariantError>(e),
        spec_set_code(s, caller) == Err::<(), InvariantError>(InvariantError::NotAdmin),
{
}

/// Withdrawing the protocol fees of a pool a second time gives nothing.
pub proof fn law_second_withdrawal_is_empty(s: InvariantState, caller: AccountId, pool_key: PoolKey)
    requires
        spec_withdraw_protocol_fee(s, caller, pool_key).1 is Ok,
    ensures
        ({
            let s1 = spec_withdraw_protocol_fee(s, caller, pool_key).0;
            spec_withdraw_protocol_fee(s1, caller, pool_key) == (
                s1,
                Ok::<(TokenAmount, TokenAmount), InvariantError>((TokenAmount(0), TokenAmount(0))),
            )
        }),
{
    let s1 = spec_withdraw_protocol_fee(s, caller, pool_key).0;
    let s2 = spec_withdraw_protocol_fee(s1, caller, pool_key).0;
    assert(s1.pools.insert(pool_key, s1.pools[pool_key]) =~= s1.pools);
    assert(s2 =~= s1);
}

/// After the admin names a new fee receiver for a pool, that receiver may
/// withdraw the pool's protocol fees and nobody else may.
pub proof fn law_new_fee_receiver_withdraws(
    s: InvariantState,
    caller: AccountId,
    pool_key: PoolKey,
    fee_receiver: AccountId,
    other: AccountId,
)
    requires
        spec_change_fee_receiver(s, caller, pool_key, fee_receiver).1 is Ok,
        other != fee_receiver,
    ensures
        ({
            let s1 = spec_change_fee_receiver(s, caller, pool_key, fee_receiver).0;
            &&& spec_withdraw_protocol_fee(s1, fee_receiver, pool_key).1 is Ok
            &&& spec_withdraw_protocol_fee(s1, other, pool_key).1 == Err::<(TokenAmount, TokenAmount), InvariantError>(
                InvariantError::NotFeeReceiver,
            )
        }),
{
}

/// After the admin names a new fee receiver for a stored pool, looking the pool
/// up by its two tokens finds it with that receiver and every other field as it was.
pub proof fn law_changed_fee_receiver_read_back(
    s: InvariantState,
    caller: AccountId,
    pool_key: PoolKey,
    fee_receiver: AccountId,
)
    requires
        state_wf(s),
        spec_change_fee_receiver(s, caller, pool_key, fee_receiver).1 is Ok,
    ensures
        spec_get_pool(
            spec_change_fee_receiver(s, caller, pool_key, fee_receiver).0,
            pool_key.token_x,
            pool_key.token_y,
            pool_key.fee_tier,
        ) == Ok::<Pool, InvariantError>(Pool { fee_receiver, ..s.pools[pool_key] }),
{
    assert(spec_pool_key(pool_key.token_x, pool_key.token_y, pool_key.fee_tier) == Ok::<PoolKey, InvariantError>(pool_key)) by {
        assert(account_lt(pool_key.token_x, pool_key.token_y));
    }
}

/// The tick search gives back every tick from its own price: with spacing 1
/// the tick at the price of tick `n` is `n`, and one unit below that price it
/// is `n - 1`.
pub proof fn law_tick_search_inverts_price(n: int)
    requires
        tick_in_range(n),
    ensures
        spec_tick_at_sqrt_price(spec_sqrt_price(n), 1) == Ok::<int, MathError>(n),
        n > -(MAX_TICK as int) ==> spec_tick_at_sqrt_price((spec_sqrt_price(n) - 1) as nat, 1)
            == Ok::<int, MathError>(n - 1),
{
    lemma_sqrt_price_bounds(n);
    if n < MAX_TICK {
        lemma_sqrt_price_increasing(n, n + 1);
    }
    assert(is_tick_of_price(n, spec_sqrt_price(n)));
    lemma_tick_of_price_unique(n, spec_sqrt_price(n));
    lemma_align_tick_facts(n, 1);
    if n > -(MAX_TICK as int) {
        lemma_sqrt_price_increasing(n - 1, n);
        lemma_sqrt_price_bounds(n - 1);
        let q = (spec_sqrt_price(n) - 1) as nat;
        assert(is_tick_of_price(n - 1, q));
        lemma_tick_of_price_unique(n - 1, q);
        lemma_align_tick_facts(n - 1, 1);
    }
}

/// Two consecutive pages of pool keys join up into the page that spans both.
pub proof fn law_pool_key_pages_join(keys: Seq<PoolKey>, first: nat, second: nat)
    ensures
        spec_page(keys, first, 0) + spec_page(keys, second, first) == spec_page(keys, first + second, 0),
{
    let a = spec_page(keys, first, 0);
    let b = spec_page(keys, second, first);
    let c = spec_page(keys, first + second, 0);
    assert(a + b =~= c);
}

/// Every pool that `get_all_pools_for_pair` lists is the pool that `get_pool`
/// finds for the same tokens on the listed fee tier.
pub proof fn law_pools_for_pair_agree_with_get_pool(s: InvariantState, token_0: AccountId, token_1: AccountId, i: int)
    requires
        spec_get_all_pools_for_pair(s, token_0, token_1) is Ok,
        0 <= i < spec_get_all_pools_for_pair(s, token_0, token_1)->Ok_0.len(),
    ensures
        ({
            let (fee_tier, pool) = spec_get_all_pools_for_pair(s, token_0, token_1)->Ok_0[i];
            spec_get_pool(s, token_0, token_1, fee_tier) == Ok::<Pool, InvariantError>(pool)
        }),
{
    lemma_pools_for_pair_found(s.fee_tiers, s, token_0, token_1, i);
}

/// Each entry of `spec_pools_for_pair` over a list of fee tiers is found by `get_pool`.
proof fn lemma_pools_for_pair_found(fee_tiers: Seq<FeeTier>, s: InvariantState, token_0: AccountId, token_1: AccountId, i: int)
    requires
        0 <= i < spec_pools_for_pair(fee_tiers, s.pools, token_0, token_1).len(),
    ensures
        ({
            let (fee_tier, pool) = spec_pools_for_pair(fee_tiers, s.pools, token_0, token_1)[i];
            spec_get_pool(s, token_0, token_1, fee_tier) == Ok::<Pool, InvariantError>(pool)
        }),
    decreases fee_tiers.len(),
{
    if fee_tiers.len() > 0 {
        let rest = spec_pools_for_pair(fee_tiers.drop_last(), s.pools, token_0, token_1);
        if i < rest.len() {
            lemma_pools_for_pair_found(fee_tiers.drop_last(), s, token_0, token_1, i);
        }
    }
}

/// Asking for as many pool keys as there are, from the start, gives all of them.
pub proof fn law_all_pool_keys_in_one_page(s: InvariantState)
    requires
        state_wf(s),
    ensures
        spec_page(s.pool_keys, s.pool_keys.len(), 0) == s.pool_keys,
{
    if s.pool_keys.len() > 0 {
        assert(s.pool_keys.subrange(0, s.pool_keys.len() as int) =~= s.pool_keys);
    }
}

/// A swap that goes through trades what was asked: swapping by the amount
/// paid in, it takes exactly that amount in, fees included; swapping by the
/// amount paid out, it pays out at most that amount.
pub proof fn law_swap_trades_requested_amount(
    s: InvariantState,
    pool_key: PoolKey,
    x_to_y: bool,
    amount: TokenAmount,
    by_amount_in: bool,
    sqrt_price_limit: SqrtPrice,
    timestamp: u64,
)
    requires
        spec_calculate_swap(s, pool_key, x_to_y, amount, by_amount_in, sqrt_price_limit, timestamp) matches Some(Ok(_)),
    ensures
        ({
            let st = spec_calculate_swap(s, pool_key, x_to_y, amount, by_amount_in, sqrt_price_limit, timestamp)->Some_0->Ok_0.1;
            &&& by_amount_in ==> st.progress.total_amount_in == amount
            &&& !by_amount_in ==> st.progress.total_amount_out.0 <= amount.0
        }),
{
    let (pool, tick_limit) = spec_prepare_swap(s, pool_key, x_to_y, amount, sqrt_price_limit)->Ok_0;
    let (ctx, st0) = spec_swap_start(s, pool_key, x_to_y, amount, by_amount_in, sqrt_price_limit, timestamp, pool, tick_limit);
    let fuel = choose|fuel: nat| #[trigger] spec_swap_loop(s.ticks, s.tickmap, ctx, st0, Seq::empty(), fuel) is Some;
    assert(amounts_kept(st0.progress, amount.0 as nat, by_amount_in));
    lemma_loop_keeps_amounts(s.ticks, s.tickmap, ctx, st0, Seq::empty(), fuel, amount.0 as nat);
}

/// A swap does what `calculate_swap`, and so a quote, reports: where that is
/// refused the swap is refused with the same error and changes nothing;
/// otherwise the swap reports the same and leaves the pool as reported.
pub proof fn law_swap_does_what_quote_reports(
    s: InvariantState,
    pool_key: PoolKey,
    x_to_y: bool,
    amount: TokenAmount,
    by_amount_in: bool,
    sqrt_price_limit: SqrtPrice,
    timestamp: u64,
)
    requires
        spec_calculate_swap(s, pool_key, x_to_y, amount, by_amount_in, sqrt_price_limit, timestamp) is Some,
    ensures
        match (
            spec_calculate_swap(s, pool_key, x_to_y, amount, by_amount_in, sqrt_price_limit, timestamp),
            spec_swap(s, pool_key, x_to_y, amount, by_amount_in, sqrt_price_limit, timestamp),
        ) {
            (Some(Err(e)), Some((s2, Err(f)))) => e == f && s2 == s,
            (Some(Ok(r)), Some((s2, Ok(r2)))) => r == r2 && s2.pools[pool_key] == r.1.pool && s2.config == s.config
                && s2.fee_tiers == s.fee_tiers && s2.pool_keys == s.pool_keys && s2.positions == s.positions
                && s2.tickmap == s.tickmap,
            _ => false,
        },
{
}

/// Fees are paid once: right after a claim, a second claim of the same
/// position at the same time, where it goes through, pays nothing.
pub proof fn law_second_claim_pays_nothing(s: InvariantState, caller: AccountId, index: u32, timestamp: u64)
    requires
        spec_claim_fee(s, caller, index, timestamp) matches Some((_, Ok(_))),
    ensures
        ({
            let s1 = spec_claim_fee(s, caller, index, timestamp)->Some_0.0;
            spec_claim_fee(s1, caller, index, timestamp) matches Some((_, Ok((x, y)))) ==> x.0 == 0 && y.0 == 0
        }),
{
    let list = positions_of(s.positions, caller);
    let p = list[index as int];
    let key = p.pool_key;
    let lower = s.ticks[(key, p.lower_tick_index)];
    let upper = s.ticks[(key, p.upper_tick_index)];
    let pool = s.pools[key];
    let sp = p.pool_key.fee_tier.tick_spacing as int;
    let (p2, pool2, upper2, lower2, x, y) = spec_position_claim_fee(p, pool, upper, lower, timestamp)->Some_0;
    let s1 = spec_claim_fee(s, caller, index, timestamp)->Some_0.0;
    assert(positions_of(s1.positions, caller) == list.update(index as int, p2));
    assert(positions_of(s1.positions, caller)[index as int] == p2);
    assert(s1.ticks[(key, p.upper_tick_index)] == upper2);
    assert(s1.ticks[(key, p.lower_tick_index)] == lower2);
    assert(s1.pools[key] == pool2);
    let m = spec_modify(p, pool, upper, lower, 0, true, timestamp, sp)->Ok_0;
    let m2 = spec_modify(p2, pool2, upper2, lower2, 0, true, timestamp, sp);
    if spec_claim_fee(s1, caller, index, timestamp) matches Some((_, Ok(_))) {
        assert(m2 is Ok);
        let t1 = spec_tick_update(upper2, 0, spec_max_liquidity_per_tick(sp), true, true)->Some_0;
        let t2 = spec_tick_update(lower2, 0, spec_max_liquidity_per_tick(sp), false, true)->Some_0;
        assert(t1.index == upper2.index && t1.fee_growth_outside_x == upper2.fee_growth_outside_x
            && t1.fee_growth_outside_y == upper2.fee_growth_outside_y);
        assert(t2.index == lower2.index && t2.fee_growth_outside_x == lower2.fee_growth_outside_x
            && t2.fee_growth_outside_y == lower2.fee_growth_outside_y);
        assert(pool2.current_tick_index == pool.current_tick_index);
        assert(pool2.fee_growth_global_x == pool.fee_growth_global_x);
        assert(pool2.fee_growth_global_y == pool.fee_growth_global_y);
        let pool1 = Pool { last_timestamp: timestamp, ..pool2 };
        let fgx = spec_fee_growth_inside(
            t2.index as int, t2.fee_growth_outside_x.0, t1.index as int, t1.fee_growth_outside_x.0,
            pool1.current_tick_index as int, pool1.fee_growth_global_x.0);
        let fgy = spec_fee_growth_inside(
            t2.index as int, t2.fee_growth_outside_y.0, t1.index as int, t1.fee_growth_outside_y.0,
            pool1.current_tick_index as int, pool1.fee_growth_global_y.0);
        assert(m.2 == upper2 && m.3 == lower2);
        assert(fgx == p2.fee_growth_inside_x.0);
        assert(fgy == p2.fee_growth_inside_y.0);
        assert(FeeGrowth::spec_to_fee(0, p2.liquidity.0) == Ok::<nat, MathError>(0));
        assert(m2->Ok_0.0.tokens_owed_x.0 == 0);
        assert(m2->Ok_0.0.tokens_owed_y.0 == 0);
    }
}

/// Number of stored ticks of pool `key` among `lower, lower + s, ..., upper`.
pub open spec fn spec_stored_ticks_between(ticks: Map<(PoolKey, i32), Tick>, key: PoolKey, lower: int, upper: int, s: int) -> nat
    decreases (if upper < lower || s <= 0 { 0 } else { upper - lower + 1 }),
{
    if upper < lower || s <= 0 {
        0
    } else {
        spec_stored_ticks_between(ticks, key, lower, upper - s, s) + if ticks.dom().contains((key, upper as i32)) {
            1nat
        } else {
            0nat
        }
    }
}

/// Counting the tick map's marks from the index of `lower` to that of `upper`
/// counts the stored ticks of the grid between them.
proof fn lemma_marks_count_stored_ticks(
    ticks: Map<(PoolKey, i32), Tick>,
    tickmap: Map<(u16, PoolKey), u64>,
    key: PoolKey,
    lower: int,
    upper: int,
)
    requires
        ticks_wf(ticks, tickmap),
        aligned_tick(lower, key.fee_tier.tick_spacing as int),
        lower - key.fee_tier.tick_spacing <= upper <= MAX_TICK,
        upper % (key.fee_tier.tick_spacing as int) == 0,
    ensures
        spec_count_set(tickmap, key, spec_tick_index(lower, key.fee_tier.tick_spacing as int), spec_tick_index(upper, key.fee_tier.tick_spacing as int))
            == spec_stored_ticks_between(ticks, key, lower, upper, key.fee_tier.tick_spacing as int),
    decreases upper - lower + key.fee_tier.tick_spacing,
{
    let sp = key.fee_tier.tick_spacing as int;
    lemma_fundamental_div_mod(upper, sp);
    let q = upper / sp;
    assert(upper == sp * q);
    vstd::arithmetic::div_mod::lemma_div_multiples_vanish(q - 1, sp);
    vstd::arithmetic::div_mod::lemma_mod_multiples_basic(q - 1, sp);
    assert(sp * (q - 1) == upper - sp && (q - 1) * sp == upper - sp) by (nonlinear_arith)
        requires
            upper == sp * q,
    ;
    assert((upper - sp) / sp == q - 1);
    assert((upper - sp) % sp == 0);
    if upper < lower {
        lemma_fundamental_div_mod(lower, sp);
        let r = lower / sp;
        assert(lower == sp * r);
        assert(q == r - 1) by (nonlinear_arith)
            requires
                upper == sp * q,
                lower == sp * r,
                lower - sp <= upper,
                upper < lower,
                sp > 0,
        ;
        assert(spec_tick_index(upper, sp) < spec_tick_index(lower, sp));
    } else {
        assert(aligned_tick(upper, sp));
        lemma_marks_count_stored_ticks(ticks, tickmap, key, lower, upper - sp);
        let t = upper as i32;
        assert(tick_marked(tickmap, key, t) == ticks.dom().contains((key, t)));
        assert(spec_tick_index(upper - sp, sp) == spec_tick_index(upper, sp) - 1);
        lemma_tick_index(lower, upper, sp);
        let lo = spec_tick_index(lower, sp);
        let hi = spec_tick_index(upper, sp);
        assert(lo <= hi);
        assert(spec_count_set(tickmap, key, lo, hi) == spec_count_set(tickmap, key, lo, hi - 1) + if spec_index_set(tickmap, key, hi) {
            1nat
        } else {
            0nat
        });
        assert(spec_index_set(tickmap, key, hi) == tick_marked(tickmap, key, t));
    }
}

/// `get_liquidity_ticks_amount` counts the pool's initialized ticks: from a
/// usable tick `lower` up to a usable tick `upper`, it gives the number of
/// stored ticks of the pool's grid between them.
pub proof fn law_liquidity_ticks_amount_counts_stored_ticks(s: InvariantState, pool_key: PoolKey, lower: i32, upper: i32)
    requires
        state_wf(s),
        pool_key.fee_tier.tick_spacing > 0,
        (lower as int) % (pool_key.fee_tier.tick_spacing as int) == 0,
        (upper as int) % (pool_key.fee_tier.tick_spacing as int) == 0,
        -spec_max_tick(pool_key.fee_tier.tick_spacing as int) <= lower <= upper <= spec_max_tick(pool_key.fee_tier.tick_spacing as int),
    ensures
        spec_get_liquidity_ticks_amount(s, pool_key, lower as int, upper as int) == Ok::<u32, InvariantError>(
            spec_stored_ticks_between(s.ticks, pool_key, lower as int, upper as int, pool_key.fee_tier.tick_spacing as int) as u32,
        ),
{
    let sp = pool_key.fee_tier.tick_spacing as int;
    lemma_fundamental_div_mod(MAX_TICK as int, sp);
    vstd::arithmetic::div_mod::lemma_mod_bound(MAX_TICK as int, sp);
    assert(spec_max_tick(sp) <= MAX_TICK) by (nonlinear_arith)
        requires
            spec_max_tick(sp) == ((MAX_TICK as int) / sp) * sp,
            MAX_TICK == sp * ((MAX_TICK as int) / sp) + (MAX_TICK as int) % sp,
            0 <= (MAX_TICK as int) % sp,
    ;
    lemma_tick_index(lower as int, upper as int, sp);
    lemma_marks_count_stored_ticks(s.ticks, s.tickmap, pool_key, lower as int, upper as int);
}

/// A refused request on positions or a refused swap leaves the state as it was.
pub proof fn law_refused_position_requests_change_nothing(
    s: InvariantState,
    caller: AccountId,
    pool_key: PoolKey,
    lower_tick: i32,
    upper_tick: i32,
    liquidity_delta: Liquidity,
    slippage_limit_lower: SqrtPrice,
    slippage_limit_upper: SqrtPrice,
    timestamp: u64,
    block_number: u64,
    index: u32,
    add_liquidity: bool,
    receiver: AccountId,
    x_to_y: bool,
    amount: TokenAmount,
    by_amount_in: bool,
    sqrt_price_limit: SqrtPrice,
)
    ensures
        spec_create_position(s, caller, pool_key, lower_tick, upper_tick, liquidity_delta, slippage_limit_lower, slippage_limit_upper, timestamp, block_number)
            matches Some((s2, Err(_))) ==> s2 == s,
        spec_change_liquidity(s, caller, index, liquidity_delta, add_liquidity, slippage_limit_lower, slippage_limit_upper, timestamp)
            matches Some((s2, Err(_))) ==> s2 == s,
        spec_remove_position(s, caller, index, timestamp) matches Some((s2, Err(_))) ==> s2 == s,
        spec_claim_fee(s, caller, index, timestamp) matches Some((s2, Err(_))) ==> s2 == s,
        spec_transfer_position(s, caller, index, receiver) matches Some((s2, Err(_))) ==> s2 == s,
        spec_swap(s, pool_key, x_to_y, amount, by_amount_in, sqrt_price_limit, timestamp) matches Some((s2, Err(_))) ==> s2 == s,
{
}

/// Ensuring a tick keeps `state_wf` and leaves the tick stored.
proof fn lemma_ensure_tick_wf(s: InvariantState, pool_key: PoolKey, index: i32, timestamp: u64)
    requires
        state_wf(s),
        spec_ensure_tick(s, pool_key, index, timestamp) is Some,
    ensures
        state_wf(spec_ensure_tick(s, pool_key, index, timestamp)->Some_0),
        spec_ensure_tick(s, pool_key, index, timestamp)->Some_0.ticks.dom().contains((pool_key, index)),
        spec_ensure_tick(s, pool_key, index, timestamp)->Some_0.pools == s.pools,
        spec_ensure_tick(s, pool_key, index, timestamp)->Some_0.positions == s.positions,
        forall|k: (PoolKey, i32)| #[trigger] s.ticks.dom().contains(k) ==> spec_ensure_tick(s, pool_key, index, timestamp)->Some_0.ticks.dom().contains(k)
            && spec_ensure_tick(s, pool_key, index, timestamp)->Some_0.ticks[k] == s.ticks[k],
{
    if !s.ticks.dom().contains((pool_key, index)) {
        lemma_wf_create_tick(s, pool_key, index as int, timestamp);
    }
}

/// Closing a position right after opening it, at the same time, pays out at
/// most what opening it took in.
pub proof fn law_closing_new_position_returns_at_most_deposit(
    s: InvariantState,
    caller: AccountId,
    pool_key: PoolKey,
    lower_tick: i32,
    upper_tick: i32,
    liquidity_delta: Liquidity,
    slippage_limit_lower: SqrtPrice,
    slippage_limit_upper: SqrtPrice,
    timestamp: u64,
    block_number: u64,
)
    requires
        state_wf(s),
        spec_create_position(s, caller, pool_key, lower_tick, upper_tick, liquidity_delta, slippage_limit_lower, slippage_limit_upper, timestamp, block_number)
            matches Some((_, Ok(_))),
    ensures
        ({
            let (s1, r) = spec_create_position(s, caller, pool_key, lower_tick, upper_tick, liquidity_delta, slippage_limit_lower, slippage_limit_upper, timestamp, block_number)->Some_0;
            let (_, x, y) = r->Ok_0;
            let last = (positions_of(s1.positions, caller).len() - 1) as u32;
            spec_remove_position(s1, caller, last, timestamp) matches Some((_, Ok((x2, y2)))) ==> x2.0 <= x.0 && y2.0 <= y.0
        }),
{
    let l = liquidity_delta.0 as nat;
    let sp = pool_key.fee_tier.tick_spacing as int;
    lemma_ensure_tick_wf(s, pool_key, lower_tick, timestamp);
    let s1 = spec_ensure_tick(s, pool_key, lower_tick, timestamp)->Some_0;
    lemma_ensure_tick_wf(s1, pool_key, upper_tick, timestamp);
    let s2 = spec_ensure_tick(s1, pool_key, upper_tick, timestamp)->Some_0;
    assert(s2.ticks.dom().contains((pool_key, lower_tick)));
    let pool = s.pools[pool_key];
    let lower = s2.ticks[(pool_key, lower_tick)];
    let upper = s2.ticks[(pool_key, upper_tick)];
    assert(lower.index == lower_tick && upper.index == upper_tick);
    let (position, pool2, upper2, lower2, x, y) = spec_position_create(pool, pool_key, lower, upper, timestamp, l, slippage_limit_lower, slippage_limit_upper, block_number, sp)->Some_0->Ok_0;
    let s3 = spec_create_position(s, caller, pool_key, lower_tick, upper_tick, liquidity_delta, slippage_limit_lower, slippage_limit_upper, timestamp, block_number)->Some_0.0;
    let list = positions_of(s3.positions, caller);
    let last = (list.len() - 1) as u32;
    assert(list[last as int] == position);
    assert(s3.ticks[(pool_key, lower_tick)] == lower2);
    assert(s3.ticks[(pool_key, upper_tick)] == upper2);
    assert(s3.pools[pool_key] == pool2);
    if spec_remove_position(s3, caller, last, timestamp) matches Some((_, Ok(_))) {
        let pool1 = Pool { last_timestamp: timestamp, ..pool };
        let pool3 = Pool { last_timestamp: timestamp, ..pool2 };
        assert(pool3.current_tick_index == pool1.current_tick_index);
        assert(pool3.sqrt_price == pool1.sqrt_price);
        assert(pool3.fee_growth_global_x == pool1.fee_growth_global_x);
        assert(pool3.fee_growth_global_y == pool1.fee_growth_global_y);
        law_withdrawal_never_exceeds_deposit(pool.current_tick_index as int, pool.sqrt_price.0 as nat, l, upper_tick as int, lower_tick as int);
        let m = spec_modify(position, pool2, upper2, lower2, l, false, timestamp, sp);
        assert(m is Ok);
        assert(FeeGrowth::spec_to_fee(0, position.liquidity.0) == Ok::<nat, MathError>(0));
        assert(m->Ok_0.0.tokens_owed_x.0 == 0 && m->Ok_0.0.tokens_owed_y.0 == 0);
    }
}

} // verus!
