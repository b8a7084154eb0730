use invariant_protocol::contracts::{
    AccountId, FeeTier, FeeTiers, InvariantError, Pool, PoolKey, PoolKeys, Pools,
};
use invariant_protocol::math::clamm::check_tick;
use invariant_protocol::math::error::MathError;
use invariant_protocol::math::types::token_amount::TokenAmount;
use invariant_protocol::math::types::fee_growth::FeeGrowth;
use invariant_protocol::math::types::liquidity::Liquidity;
use invariant_protocol::math::types::percentage::Percentage;
use invariant_protocol::math::types::sqrt_price::{calculate_sqrt_price, SqrtPrice};
use invariant_protocol::protocol::Invariant;

fn admin() -> AccountId {
    AccountId::from_bytes([0xAA; 32])
}

fn token(b: u8) -> AccountId {
    AccountId::from_bytes([b; 32])
}

fn tier(spacing: u16) -> FeeTier {
    FeeTier::new(Percentage::from_scale(5, 4), spacing).unwrap()
}

#[test]
fn account_from_bytes_is_big_endian() {
    let mut bytes = [0u8; 32];
    bytes[0] = 1;
    bytes[15] = 2;
    bytes[16] = 3;
    bytes[31] = 4;
    let a = AccountId::from_bytes(bytes);
    assert_eq!(a.hi, (1u128 << 120) + 2);
    assert_eq!(a.lo, (3u128 << 120) + 4);
    assert!(AccountId::from_bytes([1; 32]).lt(&AccountId::from_bytes([2; 32])));
    assert!(!AccountId::from_bytes([2; 32]).lt(&AccountId::from_bytes([1; 32])));
    let mut high_first = [0u8; 32];
    high_first[0] = 1;
    let mut high_last = [0xFFu8; 32];
    high_last[0] = 0;
    assert!(AccountId::from_bytes(high_last).lt(&AccountId::from_bytes(high_first)));
}

#[test]
fn fee_tier_new_errors() {
    assert_eq!(FeeTier::new(Percentage::new(1), 0), Err(InvariantError::InvalidTickSpacing));
    assert_eq!(FeeTier::new(Percentage::new(1), 101), Err(InvariantError::InvalidTickSpacing));
    assert_eq!(FeeTier::new(Percentage::from_integer(1), 1), Err(InvariantError::InvalidFee));
    assert_eq!(FeeTier::new(Percentage::from_integer(1), 0), Err(InvariantError::InvalidTickSpacing));
    let ok = FeeTier::new(Percentage::new(999_999_999_999), 100).unwrap();
    assert_eq!(ok.fee, Percentage::new(999_999_999_999));
    assert_eq!(ok.tick_spacing, 100);
}

#[test]
fn pool_key_orders_tokens_and_is_symmetric() {
    let f = tier(1);
    let k1 = PoolKey::new(token(2), token(1), f).unwrap();
    let k2 = PoolKey::new(token(1), token(2), f).unwrap();
    assert_eq!(k1, k2);
    assert_eq!(k1.token_x, token(1));
    assert_eq!(k1.token_y, token(2));
    assert_eq!(PoolKey::new(token(3), token(3), f), Err(InvariantError::TokensAreSame));
}

#[test]
fn check_tick_cases() {
    assert_eq!(check_tick(0, 2), Ok(()));
    assert_eq!(check_tick(1, 2), Err(MathError::InvalidTickSpacing));
    assert_eq!(check_tick(-3, 2), Err(MathError::InvalidTickSpacing));
    assert_eq!(check_tick(665_455, 1), Ok(()));
    assert_eq!(check_tick(665_456, 1), Err(MathError::InvalidTickIndex));
    assert_eq!(check_tick(-665_456, 1), Err(MathError::InvalidTickIndex));
    assert_eq!(check_tick(665_500, 100), Err(MathError::InvalidTickIndex));
    assert_eq!(check_tick(665_400, 100), Ok(()));
    assert_eq!(check_tick(-665_400, 100), Ok(()));
}

#[test]
fn pool_create_and_withdraw() {
    let price = calculate_sqrt_price(10).unwrap();
    let pool = Pool::create(price, 10, 77, 10, admin()).unwrap();
    assert_eq!(pool.sqrt_price, price);
    assert_eq!(pool.current_tick_index, 10);
    assert_eq!(pool.start_timestamp, 77);
    assert_eq!(pool.last_timestamp, 77);
    assert_eq!(pool.liquidity, Liquidity::new(0));
    assert_eq!(pool.fee_growth_global_x, FeeGrowth::new(0));
    assert_eq!(pool.fee_receiver, admin());
    assert_eq!(Pool::create(price, 0, 77, 10, admin()), Err(InvariantError::InvalidInitSqrtPrice));
    assert_eq!(Pool::create(price, 700_000, 77, 1, admin()), Err(InvariantError::InvalidInitSqrtPrice));
    assert_eq!(Pool::create(price, -700_000, 77, 1, admin()), Err(InvariantError::InvalidInitTick));

    let mut with_fees = Pool { fee_protocol_token_x: TokenAmount(4), fee_protocol_token_y: TokenAmount(2), ..pool };
    assert_eq!(with_fees.withdraw_protocol_fee(), (TokenAmount(4), TokenAmount(2)));
    assert_eq!(with_fees.fee_protocol_token_x, TokenAmount(0));
    assert_eq!(with_fees.fee_protocol_token_y, TokenAmount(0));
    assert_eq!(with_fees.withdraw_protocol_fee(), (TokenAmount(0), TokenAmount(0)));
    assert_eq!(with_fees.sqrt_price, price);
}

#[test]
fn collections_keep_order_and_refuse_duplicates() {
    let mut tiers = FeeTiers::new();
    tiers.add(tier(1)).unwrap();
    tiers.add(tier(2)).unwrap();
    tiers.add(tier(3)).unwrap();
    assert_eq!(tiers.add(tier(2)), Err(InvariantError::FeeTierAlreadyExist));
    tiers.remove(tier(2)).unwrap();
    assert_eq!(tiers.get_all(), vec![tier(1), tier(3)]);
    assert_eq!(tiers.remove(tier(2)), Err(InvariantError::FeeTierNotFound));
    assert!(!tiers.contains(tier(2)));

    let key = PoolKey::new(token(1), token(2), tier(1)).unwrap();
    let pool = Pool::create(SqrtPrice::from_integer(1), 0, 0, 1, admin()).unwrap();
    let mut pools = Pools::new();
    assert_eq!(pools.get(key), Err(InvariantError::PoolNotFound));
    assert_eq!(pools.update(key, &pool), Err(InvariantError::PoolNotFound));
    pools.add(key, &pool).unwrap();
    assert_eq!(pools.add(key, &pool), Err(InvariantError::PoolAlreadyExist));
    let moved = Pool { current_tick_index: 5, ..pool };
    pools.update(key, &moved).unwrap();
    assert_eq!(pools.get(key), Ok(moved));

    let mut keys = PoolKeys::new();
    let k2 = PoolKey::new(token(1), token(3), tier(1)).unwrap();
    let k3 = PoolKey::new(token(1), token(4), tier(1)).unwrap();
    keys.add(key).unwrap();
    keys.add(k2).unwrap();
    keys.add(k3).unwrap();
    assert_eq!(keys.add(k2), Err(InvariantError::PoolKeyAlreadyExist));
    assert_eq!(keys.count(), 3);
    assert_eq!(keys.get_all(2, 0), vec![key, k2]);
    assert_eq!(keys.get_all(2, 2), vec![k3]);
    assert_eq!(keys.get_all(5, 3), vec![]);
    assert_eq!(keys.get_all(u16::MAX, u16::MAX), vec![]);
}

#[test]
fn refused_requests_leave_state_alone() {
    let mut dex = Invariant::new(admin(), Percentage::new(3));
    let f = tier(10);
    dex.add_fee_tier(admin(), f).unwrap();
    let price = calculate_sqrt_price(0).unwrap();
    dex.create_pool(token(1), token(2), f, price, 0, 5).unwrap();
    let before_pool = dex.get_pool(token(1), token(2), f).unwrap();
    assert_eq!(dex.change_protocol_fee(token(9), Percentage::new(7)), Err(InvariantError::NotAdmin));
    assert_eq!(dex.get_protocol_fee(), Percentage::new(3));
    assert_eq!(dex.create_pool(token(1), token(2), f, price, 0, 9), Err(InvariantError::PoolAlreadyExist));
    assert_eq!(dex.create_pool(token(1), token(2), f, price, 5, 9), Err(InvariantError::InvalidInitTick));
    assert_eq!(dex.create_pool(token(1), token(3), f, price, 10, 9), Err(InvariantError::InvalidInitSqrtPrice));
    assert_eq!(dex.create_pool(token(1), token(2), tier(3), price, 0, 9), Err(InvariantError::FeeTierNotFound));
    assert_eq!(dex.get_pool(token(1), token(2), f), Ok(before_pool));
    let (keys, count) = dex.get_pool_keys(10, 0).unwrap();
    assert_eq!(count, 1);
    assert_eq!(keys, vec![PoolKey::new(token(1), token(2), f).unwrap()]);
}

#[test]
fn created_pool_found_both_ways() {
    let mut dex = Invariant::new(admin(), Percentage::new(0));
    let f = tier(1);
    dex.add_fee_tier(admin(), f).unwrap();
    let price = calculate_sqrt_price(3).unwrap();
    dex.create_pool(token(7), token(4), f, price, 3, 42).unwrap();
    let a = dex.get_pool(token(7), token(4), f).unwrap();
    let b = dex.get_pool(token(4), token(7), f).unwrap();
    assert_eq!(a, b);
    assert_eq!(a, Pool::create(price, 3, 42, 1, admin()).unwrap());
    assert_eq!(dex.get_pool(token(4), token(4), f), Err(InvariantError::TokensAreSame));
}

#[test]
fn remove_after_add_restores_fee_tiers() {
    let mut dex = Invariant::new(admin(), Percentage::new(0));
    dex.add_fee_tier(admin(), tier(1)).unwrap();
    let before = dex.get_fee_tiers();
    dex.add_fee_tier(admin(), tier(2)).unwrap();
    assert!(dex.fee_tier_exist(tier(2)));
    dex.remove_fee_tier(admin(), tier(2)).unwrap();
    assert_eq!(dex.get_fee_tiers(), before);
}

#[test]
fn fee_receiver_and_withdrawal() {
    let mut dex = Invariant::new(admin(), Percentage::new(0));
    let f = tier(1);
    dex.add_fee_tier(admin(), f).unwrap();
    let key = PoolKey::new(token(1), token(2), f).unwrap();
    assert_eq!(dex.withdraw_protocol_fee(admin(), key), Err(InvariantError::PoolNotFound));
    assert_eq!(dex.change_fee_receiver(admin(), key, token(9)), Err(InvariantError::PoolNotFound));
    dex.create_pool(token(1), token(2), f, SqrtPrice::from_integer(1), 0, 0).unwrap();
    assert_eq!(dex.withdraw_protocol_fee(token(9), key), Err(InvariantError::NotFeeReceiver));
    assert_eq!(dex.withdraw_protocol_fee(admin(), key), Ok((TokenAmount(0), TokenAmount(0))));
    dex.change_fee_receiver(admin(), key, token(9)).unwrap();
    assert_eq!(dex.withdraw_protocol_fee(admin(), key), Err(InvariantError::NotFeeReceiver));
    assert_eq!(dex.withdraw_protocol_fee(token(9), key), Ok((TokenAmount(0), TokenAmount(0))));
}

#[test]
fn all_pools_for_pair() {
    let mut dex = Invariant::new(admin(), Percentage::new(0));
    assert_eq!(dex.get_all_pools_for_pair(token(1), token(1)), Ok(vec![]));
    for s in [1u16, 2, 5] {
        dex.add_fee_tier(admin(), tier(s)).unwrap();
    }
    assert_eq!(dex.get_all_pools_for_pair(token(1), token(1)), Err(InvariantError::TokensAreSame));
    let price = SqrtPrice::from_integer(1);
    dex.create_pool(token(1), token(2), tier(5), price, 0, 0).unwrap();
    dex.create_pool(token(2), token(1), tier(1), price, 0, 0).unwrap();
    dex.create_pool(token(1), token(3), tier(2), price, 0, 0).unwrap();
    let pools = dex.get_all_pools_for_pair(token(2), token(1)).unwrap();
    assert_eq!(pools.len(), 2);
    assert_eq!(pools[0].0, tier(1));
    assert_eq!(pools[1].0, tier(5));
    assert_eq!(pools[0].1, dex.get_pool(token(1), token(2), tier(1)).unwrap());
    let (keys, count) = dex.get_pool_keys(2, 1).unwrap();
    assert_eq!(count, 3);
    assert_eq!(keys, vec![
        PoolKey::new(token(1), token(2), tier(1)).unwrap(),
        PoolKey::new(token(1), token(3), tier(2)).unwrap(),
    ]);
}

#[test]
fn account_bytes_round_trip() {
    let mut bytes = [0u8; 32];
    for (i, b) in bytes.iter_mut().enumerate() {
        *b = (i as u8).wrapping_mul(37).wrapping_add(11);
    }
    let a = AccountId::from_bytes(bytes);
    assert_eq!(a.to_bytes(), bytes);
    assert_eq!(AccountId::from_bytes(a.to_bytes()), a);
    assert_eq!(AccountId { hi: 0, lo: 1 }.to_bytes()[31], 1);
    assert_eq!(AccountId { hi: 1 << 127, lo: 0 }.to_bytes()[0], 0x80);
}

#[test]
fn saved_parts_restore_the_registry() {
    let mut dex = Invariant::new(admin(), Percentage::new(9));
    dex.add_fee_tier(admin(), tier(1)).unwrap();
    dex.add_fee_tier(admin(), tier(4)).unwrap();
    let price = SqrtPrice::from_integer(1);
    dex.create_pool(token(1), token(2), tier(1), price, 0, 3).unwrap();
    dex.create_pool(token(3), token(2), tier(4), price, 0, 4).unwrap();
    let (config, fee_tiers, pools, pool_keys, ticks, positions) = dex.to_parts();
    assert!(positions.is_empty());
    assert!(ticks.is_empty());
    assert_eq!(config.admin, admin());
    assert_eq!(fee_tiers, vec![tier(1), tier(4)]);
    assert_eq!(pool_keys.len(), 2);
    assert_eq!(pools[0].0, pool_keys[0]);
    let restored = Invariant::from_parts(config, fee_tiers.clone(), pools.clone(), pool_keys.clone(), vec![], vec![]).unwrap();
    assert_eq!(restored.get_protocol_fee(), Percentage::new(9));
    assert_eq!(restored.get_fee_tiers(), fee_tiers);
    assert_eq!(restored.get_pool(token(2), token(3), tier(4)), dex.get_pool(token(3), token(2), tier(4)));
    assert_eq!(restored.get_pool_keys(10, 0), dex.get_pool_keys(10, 0));

    let twice = vec![tier(1), tier(1)];
    assert!(Invariant::from_parts(config, twice, pools.clone(), pool_keys.clone(), vec![], vec![]).is_none());
    let invalid = vec![FeeTier { fee: Percentage::new(1), tick_spacing: 0 }];
    assert!(Invariant::from_parts(config, invalid, pools.clone(), pool_keys.clone(), vec![], vec![]).is_none());
    let mut swapped = pool_keys.clone();
    swapped.swap(0, 1);
    assert!(Invariant::from_parts(config, fee_tiers.clone(), pools.clone(), swapped, vec![], vec![]).is_none());
    assert!(Invariant::from_parts(config, fee_tiers.clone(), vec![], pool_keys.clone(), vec![], vec![]).is_none());
    assert!(Invariant::from_parts(config, fee_tiers.clone(), vec![], vec![], vec![], vec![]).is_some());

    assert!(FeeTiers::from_vec(vec![tier(1), tier(2)]).is_some());
    assert!(FeeTiers::from_vec(vec![tier(2), tier(1), tier(2)]).is_none());
    assert!(PoolKeys::from_vec(vec![pool_keys[0], pool_keys[0]]).is_none());
    assert!(Pools::from_entries(vec![pools[0], pools[0]]).is_none());
    assert_eq!(Pools::from_entries(pools.clone()).unwrap().entries(), pools);
}

#[test]
fn saved_parts_need_ordered_pool_keys() {
    let mut dex = Invariant::new(admin(), Percentage::new(0));
    dex.add_fee_tier(admin(), tier(1)).unwrap();
    dex.create_pool(token(1), token(2), tier(1), SqrtPrice::from_integer(1), 0, 0).unwrap();
    let (config, fee_tiers, pools, _, _, _) = dex.to_parts();
    let key = pools[0].0;
    let flipped = PoolKey { token_x: key.token_y, token_y: key.token_x, fee_tier: key.fee_tier };
    let flipped_pools = vec![(flipped, pools[0].1)];
    assert!(Invariant::from_parts(config, fee_tiers, flipped_pools, vec![flipped], vec![], vec![]).is_none());
}
