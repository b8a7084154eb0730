use invariant_protocol::contracts::tick::Tick;
use invariant_protocol::contracts::tickmap::tick_to_position;
use invariant_protocol::contracts::{AccountId, FeeTier, InvariantError, PoolKey};
use invariant_protocol::math::types::fee_growth::FeeGrowth;
use invariant_protocol::math::types::liquidity::Liquidity;
use invariant_protocol::math::types::percentage::Percentage;
use invariant_protocol::math::types::sqrt_price::{calculate_sqrt_price, get_max_tick, get_min_tick, SqrtPrice};
use invariant_protocol::protocol::Invariant;

fn admin() -> AccountId {
    AccountId::from_bytes([0xAA; 32])
}

fn token(b: u8) -> AccountId {
    AccountId::from_bytes([b; 32])
}

fn tier(spacing: u16) -> FeeTier {
    FeeTier::new(Percentage::from_scale(1, 2), spacing).unwrap()
}

fn dex_with_pool(spacing: u16, start: u64) -> (Invariant, PoolKey) {
    let mut dex = Invariant::new(admin(), Percentage::from_scale(1, 2));
    dex.add_fee_tier(admin(), tier(spacing)).unwrap();
    dex.create_pool(token(1), token(2), tier(spacing), calculate_sqrt_price(0).unwrap(), 0, start).unwrap();
    let key = PoolKey::new(token(1), token(2), tier(spacing)).unwrap();
    (dex, key)
}

#[test]
fn tick_positions_on_the_map() {
    assert_eq!(tick_to_position(0, 1), (10397, 47));
    assert_eq!(tick_to_position(-665_455, 1), (0, 0));
    assert_eq!(tick_to_position(665_455, 1), (20795, 30));
    assert_eq!(tick_to_position(20, 10), (1039, 51));
    assert_eq!(tick_to_position(-20, 10), (1039, 47));
}

#[test]
fn tick_positions_of_the_tickmap_queries() {
    // Spacing 1: ticks -47 and 16 are the first and last bit of chunk 10397.
    assert_eq!(tick_to_position(-47, 1), (10397, 0));
    assert_eq!(tick_to_position(16, 1), (10397, 63));
    // Spacing 10: the lowest usable tick opens chunk 0, ticks 10 and 20 sit
    // in chunk 1039, the highest usable tick is bit 34 of the last chunk.
    assert_eq!(tick_to_position(get_min_tick(10), 10), (0, 0));
    assert_eq!(tick_to_position(10, 10), (1039, 50));
    assert_eq!(tick_to_position(20, 10), (1039, 51));
    assert_eq!(tick_to_position(get_max_tick(10), 10), (2079, 34));
}

#[test]
fn created_tick_records_the_pool_side() {
    let (mut dex, key) = dex_with_pool(1, 100);
    let below = dex.create_tick(key, -10, 150).unwrap();
    assert_eq!(below.index, -10);
    assert!(below.sign);
    assert_eq!(below.liquidity_gross, Liquidity::new(0));
    assert_eq!(below.liquidity_change, Liquidity::new(0));
    assert_eq!(below.sqrt_price, calculate_sqrt_price(-10).unwrap());
    assert_eq!(below.fee_growth_outside_x, FeeGrowth::new(0));
    assert_eq!(below.seconds_outside, 50);
    let above = dex.create_tick(key, 10, 150).unwrap();
    assert_eq!(above.seconds_outside, 0);
    assert_eq!(dex.get_tick(key, -10), Ok(below));
    assert_eq!(dex.get_tick(key, 10), Ok(above));
    assert!(dex.is_tick_initialized(key, -10));
    assert!(dex.is_tick_initialized(key, 10));
    assert!(!dex.is_tick_initialized(key, 0));
}

#[test]
fn create_tick_refusals() {
    let (mut dex, key) = dex_with_pool(10, 0);
    assert_eq!(dex.create_tick(key, 15, 0), Err(InvariantError::InvalidTickIndexOrTickSpacing));
    assert_eq!(dex.create_tick(key, 700_000, 0), Err(InvariantError::InvalidTickIndexOrTickSpacing));
    let missing = PoolKey::new(token(3), token(4), tier(10)).unwrap();
    assert_eq!(dex.create_tick(missing, 10, 0), Err(InvariantError::PoolNotFound));
    dex.create_tick(key, 10, 0).unwrap();
    assert_eq!(dex.create_tick(key, 10, 0), Err(InvariantError::TickAlreadyExist));
}

#[test]
fn removed_tick_is_unmarked() {
    let (mut dex, key) = dex_with_pool(1, 0);
    let tick = dex.create_tick(key, 5, 0).unwrap();
    let busy = Tick { liquidity_gross: Liquidity::new(1), ..tick };
    assert_eq!(dex.remove_tick(key, busy), Err(InvariantError::NotEmptyTickDeinitialization));
    assert!(dex.is_tick_initialized(key, 5));
    assert_eq!(dex.remove_tick(key, tick), Ok(()));
    assert!(!dex.is_tick_initialized(key, 5));
    assert_eq!(dex.get_tick(key, 5), Err(InvariantError::TickNotFound));
    assert_eq!(dex.get_liquidity_ticks_amount(key, -10, 10), Ok(0));
}

#[test]
fn test_get_liquidity_ticks_with_offset() {
    let (mut dex, key) = dex_with_pool(1, 0);
    dex.create_tick(key, -10, 0).unwrap();
    dex.create_tick(key, 10, 0).unwrap();
    assert_eq!(dex.get_liquidity_ticks_amount(key, -10, 10), Ok(2));
    assert_eq!(dex.get_liquidity_ticks_amount(key, -9, 10), Ok(1));
    assert_eq!(dex.get_liquidity_ticks_amount(key, -9, 9), Ok(0));
}

#[test]
fn liquidity_ticks_amount_on_wider_spacing() {
    let (mut dex, key) = dex_with_pool(10, 0);
    dex.create_tick(key, -20, 0).unwrap();
    dex.create_tick(key, 40, 0).unwrap();
    assert_eq!(dex.get_liquidity_ticks_amount(key, -20, 40), Ok(2));
    assert_eq!(dex.get_liquidity_ticks_amount(key, -10, 40), Ok(1));
    assert_eq!(dex.get_liquidity_ticks_amount(key, -15, 40), Err(InvariantError::InvalidTickIndex));
    assert_eq!(dex.get_liquidity_ticks_amount(key, -665_460, 40), Err(InvariantError::InvalidTickIndex));
    let zero = PoolKey { fee_tier: FeeTier { fee: Percentage::new(0), tick_spacing: 0 }, ..key };
    assert_eq!(dex.get_liquidity_ticks_amount(zero, -20, 40), Err(InvariantError::InvalidTickSpacing));
}

#[test]
fn liquidity_ticks_amount_across_chunks() {
    let (mut dex, key) = dex_with_pool(1, 0);
    for t in [-100, -30, 30, 100] {
        dex.create_tick(key, t, 0).unwrap();
    }
    assert_eq!(dex.get_liquidity_ticks_amount(key, -100, 100), Ok(4));
    assert_eq!(dex.get_liquidity_ticks_amount(key, -99, 99), Ok(2));
    // Lower above upper in a later chunk: the marks from 100 to the end of its
    // chunk and from the start of -100's chunk to -100.
    assert_eq!(dex.get_liquidity_ticks_amount(key, 100, -100), Ok(2));
}

#[test]
fn saved_parts_keep_the_ticks() {
    let (mut dex, key) = dex_with_pool(2, 0);
    dex.create_tick(key, -4, 0).unwrap();
    dex.create_tick(key, 6, 0).unwrap();
    let (config, fee_tiers, pools, pool_keys, ticks, positions) = dex.to_parts();
    assert!(positions.is_empty());
    assert_eq!(ticks.len(), 2);
    let restored = Invariant::from_parts(config, fee_tiers.clone(), pools.clone(), pool_keys.clone(), ticks.clone(), vec![]).unwrap();
    assert!(restored.is_tick_initialized(key, -4));
    assert!(restored.is_tick_initialized(key, 6));
    assert!(!restored.is_tick_initialized(key, 0));
    assert_eq!(restored.get_tick(key, 6), dex.get_tick(key, 6));
    assert_eq!(restored.get_liquidity_ticks_amount(key, -4, 6), Ok(2));

    let twice = vec![ticks[0], ticks[0]];
    assert!(Invariant::from_parts(config, fee_tiers.clone(), pools.clone(), pool_keys.clone(), twice, vec![]).is_none());
    let off_grid = vec![((key, 3), Tick { index: 3, ..ticks[0].1 })];
    assert!(Invariant::from_parts(config, fee_tiers.clone(), pools.clone(), pool_keys.clone(), off_grid, vec![]).is_none());
    let wrong_index = vec![((key, 8), ticks[0].1)];
    assert!(Invariant::from_parts(config, fee_tiers, pools, pool_keys, wrong_index, vec![]).is_none());
}

#[test]
fn sqrt_price_of_tick_is_stored() {
    let (mut dex, key) = dex_with_pool(1, 0);
    let tick = dex.create_tick(key, 665_456, 0);
    assert_eq!(tick, Err(InvariantError::InvalidTickIndexOrTickSpacing));
    let tick = dex.create_tick(key, 221_818, 0).unwrap();
    assert_eq!(tick.sqrt_price, SqrtPrice::new(calculate_sqrt_price(221_818).unwrap().get()));
}
