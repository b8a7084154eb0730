use invariant_protocol::contracts::{AccountId, FeeTier, InvariantError, PoolKey};
use invariant_protocol::math::clamm::{calculate_amount_delta, calculate_max_liquidity_per_tick, get_delta_x, get_delta_y};
use invariant_protocol::math::types::token_amount::TokenAmount;
use invariant_protocol::math::types::fee_growth::FeeGrowth;
use invariant_protocol::math::types::liquidity::Liquidity;
use invariant_protocol::math::types::percentage::Percentage;
use invariant_protocol::math::types::sqrt_price::{calculate_sqrt_price, SqrtPrice};
use invariant_protocol::protocol::Invariant;

fn alice() -> AccountId {
    AccountId::from_bytes([0xA1; 32])
}

fn token(b: u8) -> AccountId {
    AccountId::from_bytes([b; 32])
}

fn setup(fee: Percentage, spacing: u16, init_tick: i32) -> (Invariant, PoolKey) {
    let mut dex = Invariant::new(alice(), Percentage::new(0));
    let fee_tier = FeeTier::new(fee, spacing).unwrap();
    dex.add_fee_tier(alice(), fee_tier).unwrap();
    dex.create_pool(token(1), token(2), fee_tier, calculate_sqrt_price(init_tick).unwrap(), init_tick, 1000).unwrap();
    (dex, PoolKey::new(token(1), token(2), fee_tier).unwrap())
}

fn max_price() -> SqrtPrice {
    SqrtPrice::new(u128::MAX)
}

#[test]
fn test_create_position() {
    let (mut dex, key) = setup(Percentage::new(0), 1, 10);
    let (position, x, y) = dex
        .create_position(alice(), key, -10, 10, Liquidity::new(10), SqrtPrice::new(0), max_price(), 1000, 1)
        .unwrap();
    assert_eq!(position.liquidity, Liquidity::new(10));
    assert_eq!(position.last_block_number, 1);
    assert_eq!((x, y), (TokenAmount::new(0), TokenAmount::new(1)));
    assert_eq!(dex.get_user_position_amount(alice()), 1);
    assert_eq!(dex.get_position(alice(), 0), Ok(position));
    assert!(dex.is_tick_initialized(key, -10));
    assert!(dex.is_tick_initialized(key, 10));
}

#[test]
fn test_position_within_current_tick() {
    let init_tick = -23028;
    let (mut dex, key) = setup(Percentage::from_scale(2, 4), 4, init_tick);
    let lower_tick_index = -177_450 + 10;
    let upper_tick_index = 177_450 - 10;
    let liquidity_delta = Liquidity::from_integer(100);
    let price = dex.get_pool(token(1), token(2), key.fee_tier).unwrap().sqrt_price;
    let (position, x, y) = dex
        .create_position(alice(), key, lower_tick_index, upper_tick_index, liquidity_delta, price, max_price(), 1000, 0)
        .unwrap();
    let pool = dex.get_pool(token(1), token(2), key.fee_tier).unwrap();
    let lower = dex.get_tick(key, lower_tick_index).unwrap();
    let upper = dex.get_tick(key, upper_tick_index).unwrap();
    assert_eq!(lower.liquidity_gross, liquidity_delta);
    assert_eq!(upper.liquidity_gross, liquidity_delta);
    assert_eq!(lower.liquidity_change, liquidity_delta);
    assert_eq!(upper.liquidity_change, liquidity_delta);
    assert!(lower.sign);
    assert!(!upper.sign);
    assert_eq!(pool.liquidity, liquidity_delta);
    assert_eq!(pool.current_tick_index, init_tick);
    assert_eq!(position.pool_key, key);
    assert_eq!(position.liquidity, liquidity_delta);
    assert_eq!(position.fee_growth_inside_x, FeeGrowth::new(0));
    assert_eq!(position.fee_growth_inside_y, FeeGrowth::new(0));
    assert_eq!(x, TokenAmount::new(317));
    assert_eq!(y, TokenAmount::new(32));
}

#[test]
fn test_position_below_current_tick() {
    let init_tick = -23028;
    let (mut dex, key) = setup(Percentage::from_scale(2, 4), 4, init_tick);
    let liquidity_delta = Liquidity::from_integer(10_000);
    let price = dex.get_pool(token(1), token(2), key.fee_tier).unwrap().sqrt_price;
    let (position, x, y) = dex
        .create_position(alice(), key, -46080, -23040, liquidity_delta, price, max_price(), 1000, 0)
        .unwrap();
    let pool = dex.get_pool(token(1), token(2), key.fee_tier).unwrap();
    let lower = dex.get_tick(key, -46080).unwrap();
    let upper = dex.get_tick(key, -23040).unwrap();
    assert_eq!(lower.liquidity_gross, liquidity_delta);
    assert_eq!(upper.liquidity_change, liquidity_delta);
    assert!(lower.sign);
    assert!(!upper.sign);
    assert_eq!(pool.liquidity, Liquidity::new(0));
    assert_eq!(position.liquidity, liquidity_delta);
    assert_eq!(x, TokenAmount::new(0));
    assert_eq!(y, TokenAmount::new(2162));
}

#[test]
fn test_position_above_current_tick() {
    let init_tick = -23028;
    let (mut dex, key) = setup(Percentage::from_scale(2, 4), 4, init_tick);
    let liquidity_delta = Liquidity::from_integer(10_000);
    let price = dex.get_pool(token(1), token(2), key.fee_tier).unwrap().sqrt_price;
    let (_, x, y) = dex
        .create_position(alice(), key, -22980, 0, liquidity_delta, price, max_price(), 1000, 0)
        .unwrap();
    let pool = dex.get_pool(token(1), token(2), key.fee_tier).unwrap();
    assert_eq!(pool.liquidity, Liquidity::new(0));
    assert_eq!(dex.get_tick(key, -22980).unwrap().liquidity_gross, liquidity_delta);
    assert_eq!(x, TokenAmount::new(21549));
    assert_eq!(y, TokenAmount::new(0));
}

#[test]
fn create_position_refusals() {
    let (mut dex, key) = setup(Percentage::new(0), 1, 0);
    let price = calculate_sqrt_price(0).unwrap();
    assert_eq!(
        dex.create_position(alice(), key, -10, 10, Liquidity::new(0), price, price, 1000, 0),
        Err(InvariantError::ZeroLiquidity)
    );
    assert_eq!(
        dex.create_position(alice(), key, 10, 10, Liquidity::new(1), price, price, 1000, 0),
        Err(InvariantError::InvalidTickIndex)
    );
    let missing = PoolKey::new(token(3), token(4), key.fee_tier).unwrap();
    assert_eq!(
        dex.create_position(alice(), missing, -10, 10, Liquidity::new(1), price, price, 1000, 0),
        Err(InvariantError::PoolNotFound)
    );
    let above = SqrtPrice::new(price.get() + 1);
    assert_eq!(
        dex.create_position(alice(), key, -10, 10, Liquidity::new(1), above, max_price(), 1000, 0),
        Err(InvariantError::PriceLimitReached)
    );
    // A refused request leaves no tick behind.
    assert!(!dex.is_tick_initialized(key, -10));
    assert_eq!(dex.get_user_position_amount(alice()), 0);
}

#[test]
fn removing_a_position_returns_its_tokens_and_clears_its_ticks() {
    let (mut dex, key) = setup(Percentage::from_scale(6, 3), 10, 0);
    let liquidity_delta = Liquidity::from_integer(1_000_000);
    let price = calculate_sqrt_price(0).unwrap();
    let (_, x, y) = dex.create_position(alice(), key, -20, 10, liquidity_delta, price, price, 1000, 0).unwrap();
    assert_eq!(dex.get_pool(token(1), token(2), key.fee_tier).unwrap().liquidity, liquidity_delta);
    let (out_x, out_y) = dex.remove_position(alice(), 0, 1001).unwrap();
    assert!(out_x.get() + 1 >= x.get() && out_x.get() <= x.get());
    assert!(out_y.get() + 1 >= y.get() && out_y.get() <= y.get());
    assert_eq!(dex.get_tick(key, -20), Err(InvariantError::TickNotFound));
    assert_eq!(dex.get_tick(key, 10), Err(InvariantError::TickNotFound));
    assert!(!dex.is_tick_initialized(key, -20));
    assert!(!dex.is_tick_initialized(key, 10));
    let pool = dex.get_pool(token(1), token(2), key.fee_tier).unwrap();
    assert_eq!(pool.liquidity, Liquidity::new(0));
    assert_eq!(pool.last_timestamp, 1001);
    assert_eq!(dex.get_user_position_amount(alice()), 0);
    assert_eq!(dex.remove_position(alice(), 0, 1002), Err(InvariantError::PositionNotFound));
}

#[test]
fn removed_position_is_replaced_by_the_last_one() {
    let (mut dex, key) = setup(Percentage::new(0), 1, 0);
    let price = calculate_sqrt_price(0).unwrap();
    dex.create_position(alice(), key, -10, 10, Liquidity::new(100), price, price, 1000, 0).unwrap();
    dex.create_position(alice(), key, -20, 20, Liquidity::new(200), price, price, 1000, 0).unwrap();
    dex.create_position(alice(), key, -10, 20, Liquidity::new(300), price, price, 1000, 0).unwrap();
    dex.remove_position(alice(), 0, 1000).unwrap();
    assert_eq!(dex.get_user_position_amount(alice()), 2);
    assert_eq!(dex.get_position(alice(), 0).unwrap().liquidity, Liquidity::new(300));
    assert_eq!(dex.get_position(alice(), 1).unwrap().liquidity, Liquidity::new(200));
    // Ticks still used by other positions stay.
    assert!(dex.is_tick_initialized(key, -10));
    assert_eq!(dex.get_tick(key, -10).unwrap().liquidity_gross, Liquidity::new(300));
}

#[test]
fn changing_liquidity() {
    let (mut dex, key) = setup(Percentage::new(0), 1, 0);
    let price = calculate_sqrt_price(0).unwrap();
    let liquidity = Liquidity::from_integer(1_000);
    dex.create_position(alice(), key, -100, 100, liquidity, price, price, 1000, 0).unwrap();
    let (x, y) = dex.change_liquidity(alice(), 0, liquidity, true, price, price, 1001).unwrap();
    assert!(x.get() > 0 && y.get() > 0);
    assert_eq!(dex.get_position(alice(), 0).unwrap().liquidity, Liquidity::from_integer(2_000));
    assert_eq!(dex.get_pool(token(1), token(2), key.fee_tier).unwrap().liquidity, Liquidity::from_integer(2_000));
    let (out_x, out_y) = dex.change_liquidity(alice(), 0, liquidity, false, price, price, 1002).unwrap();
    assert!(out_x.get() <= x.get() && out_y.get() <= y.get());
    assert_eq!(dex.get_position(alice(), 0).unwrap().liquidity, liquidity);
    assert_eq!(
        dex.change_liquidity(alice(), 0, liquidity, false, price, price, 1003),
        Err(InvariantError::ZeroLiquidity)
    );
    assert_eq!(
        dex.change_liquidity(alice(), 0, Liquidity::new(0), true, price, price, 1003),
        Err(InvariantError::LiquidityChangeZero)
    );
    assert_eq!(
        dex.change_liquidity(alice(), 0, liquidity, true, SqrtPrice::new(price.get() + 1), max_price(), 1003),
        Err(InvariantError::PriceLimitReached)
    );
    assert_eq!(
        dex.change_liquidity(alice(), 1, liquidity, true, price, price, 1003),
        Err(InvariantError::PositionNotFound)
    );
    assert_eq!(
        dex.change_liquidity(alice(), 0, Liquidity::new(1), false, price, price, 1003),
        Err(InvariantError::AmountIsZero)
    );
}

#[test]
fn claiming_without_swaps_pays_nothing() {
    let (mut dex, key) = setup(Percentage::new(0), 1, 0);
    let price = calculate_sqrt_price(0).unwrap();
    let (position, _, _) = dex.create_position(alice(), key, -10, 10, Liquidity::new(1_000_000), price, price, 1000, 0).unwrap();
    assert_eq!(dex.claim_fee(alice(), 0, 1005), Ok((TokenAmount::new(0), TokenAmount::new(0))));
    assert_eq!(dex.get_position(alice(), 0), Ok(position));
    assert_eq!(dex.get_pool(token(1), token(2), key.fee_tier).unwrap().last_timestamp, 1005);
    assert_eq!(dex.claim_fee(alice(), 3, 1005), Err(InvariantError::PositionNotFound));
}

#[test]
fn token_amounts_between_prices() {
    let one = SqrtPrice::from_integer(1);
    let two = SqrtPrice::from_integer(2);
    let liquidity = Liquidity::from_integer(2);
    // x: 2 * (2 - 1) / (1 * 2) = 1; y: 2 * (2 - 1) = 2.
    assert_eq!(get_delta_x(one, two, liquidity, true), Ok(TokenAmount::new(1)));
    assert_eq!(get_delta_x(one, two, liquidity, false), Ok(TokenAmount::new(1)));
    assert_eq!(get_delta_y(one, two, liquidity, true), Ok(TokenAmount::new(2)));
    assert_eq!(get_delta_y(two, one, liquidity, false), Ok(TokenAmount::new(2)));
    // One unit of liquidity below 1e-6 rounds to 0 down and to 1 up.
    let tiny = Liquidity::new(1);
    assert_eq!(get_delta_y(one, two, tiny, false), Ok(TokenAmount::new(0)));
    assert_eq!(get_delta_y(one, two, tiny, true), Ok(TokenAmount::new(1)));
    assert_eq!(get_delta_x(one, two, tiny, false), Ok(TokenAmount::new(0)));
    assert_eq!(get_delta_x(one, two, tiny, true), Ok(TokenAmount::new(1)));
}

#[test]
fn max_liquidity_per_tick_shrinks_with_the_grid() {
    assert_eq!(calculate_max_liquidity_per_tick(1).get(), u128::MAX / 1_330_911);
    assert_eq!(calculate_max_liquidity_per_tick(100).get(), u128::MAX / 13_309);
}

#[test]
fn saved_parts_keep_the_positions() {
    let (mut dex, key) = setup(Percentage::new(0), 1, 0);
    let price = calculate_sqrt_price(0).unwrap();
    dex.create_position(alice(), key, -10, 10, Liquidity::new(1_000), price, price, 1000, 7).unwrap();
    let (config, fee_tiers, pools, pool_keys, ticks, positions) = dex.to_parts();
    assert_eq!(positions.len(), 1);
    assert_eq!(positions[0].0, alice());
    let restored = Invariant::from_parts(config, fee_tiers.clone(), pools.clone(), pool_keys.clone(), ticks.clone(), positions.clone()).unwrap();
    assert_eq!(restored.get_position(alice(), 0), dex.get_position(alice(), 0));
    assert_eq!(restored.get_user_position_amount(alice()), 1);
    let twice = vec![positions[0].clone(), positions[0].clone()];
    assert!(Invariant::from_parts(config, fee_tiers, pools, pool_keys, ticks, twice).is_none());
}

fn change_liquidity_setup() -> (Invariant, PoolKey) {
    let (mut dex, key) = setup(Percentage::new(0), 1, 0);
    let (_, x, y) = dex
        .create_position(alice(), key, -10, 10, Liquidity::from_integer(10000), SqrtPrice::new(0), max_price(), 1000, 1)
        .unwrap();
    assert_eq!((x, y), (TokenAmount::new(5), TokenAmount::new(5)));
    let position = dex.get_position(alice(), 0).unwrap();
    let pool = dex.get_pool(token(1), token(2), key.fee_tier).unwrap();
    let lower = dex.get_tick(key, -10).unwrap();
    let upper = dex.get_tick(key, 10).unwrap();
    assert_eq!(position.liquidity, Liquidity::from_integer(10000));
    assert_eq!(pool.liquidity, Liquidity::from_integer(10000));
    assert_eq!(lower.liquidity_change, Liquidity::from_integer(10000));
    assert!(lower.sign);
    assert_eq!(upper.liquidity_change, Liquidity::from_integer(10000));
    assert!(!upper.sign);
    (dex, key)
}

#[test]
fn test_change_liquidity() {
    let (mut dex, key) = change_liquidity_setup();
    let (x, y) = dex
        .change_liquidity(alice(), 0, Liquidity::from_integer(10000), true, SqrtPrice::new(0), max_price(), 1000)
        .unwrap();
    assert_eq!((x, y), (TokenAmount::new(5), TokenAmount::new(5)));
    assert_eq!(dex.get_position(alice(), 0).unwrap().liquidity, Liquidity::from_integer(20000));
    assert_eq!(dex.get_pool(token(1), token(2), key.fee_tier).unwrap().liquidity, Liquidity::from_integer(20000));
    let lower = dex.get_tick(key, -10).unwrap();
    let upper = dex.get_tick(key, 10).unwrap();
    assert_eq!(lower.liquidity_change, Liquidity::from_integer(20000));
    assert!(lower.sign);
    assert_eq!(upper.liquidity_change, Liquidity::from_integer(20000));
    assert!(!upper.sign);

    let (x, y) = dex
        .change_liquidity(alice(), 0, Liquidity::from_integer(10000), false, SqrtPrice::new(0), max_price(), 1000)
        .unwrap();
    assert_eq!((x, y), (TokenAmount::new(4), TokenAmount::new(4)));
    assert_eq!(dex.get_position(alice(), 0).unwrap().liquidity, Liquidity::from_integer(10000));
    assert_eq!(dex.get_pool(token(1), token(2), key.fee_tier).unwrap().liquidity, Liquidity::from_integer(10000));
    let lower = dex.get_tick(key, -10).unwrap();
    let upper = dex.get_tick(key, 10).unwrap();
    assert_eq!(lower.liquidity_change, Liquidity::from_integer(10000));
    assert!(lower.sign);
    assert_eq!(upper.liquidity_change, Liquidity::from_integer(10000));
    assert!(!upper.sign);
}

#[test]
fn test_change_liquidity_amount_is_zero() {
    let (mut dex, _) = change_liquidity_setup();
    assert_eq!(
        dex.change_liquidity(alice(), 0, Liquidity::new(1), false, SqrtPrice::new(0), max_price(), 1000),
        Err(InvariantError::AmountIsZero)
    );
}

#[test]
fn test_change_liquidity_and_remove_position() {
    let (mut dex, _) = change_liquidity_setup();
    let position = dex.get_position(alice(), 0).unwrap();
    dex.change_liquidity(
        alice(),
        0,
        Liquidity::new(position.liquidity.get() - 1),
        false,
        SqrtPrice::new(0),
        max_price(),
        1000,
    )
    .unwrap();
    dex.remove_position(alice(), 0, 1000).unwrap();
}

#[test]
fn test_change_liquidity_zero_liquidity() {
    let (mut dex, _) = change_liquidity_setup();
    let position = dex.get_position(alice(), 0).unwrap();
    assert_eq!(
        dex.change_liquidity(alice(), 0, position.liquidity, false, SqrtPrice::new(0), max_price(), 1000),
        Err(InvariantError::ZeroLiquidity)
    );
}

#[test]
fn test_change_liquidity_zero_liquidity_change() {
    let (mut dex, _) = change_liquidity_setup();
    assert_eq!(
        dex.change_liquidity(alice(), 0, Liquidity::from_integer(0), true, SqrtPrice::new(0), max_price(), 1000),
        Err(InvariantError::LiquidityChangeZero)
    );
}

#[test]
fn test_change_liquidity_no_position() {
    let (mut dex, _) = setup(Percentage::new(0), 1, 0);
    assert_eq!(
        dex.change_liquidity(alice(), 0, Liquidity::from_integer(10000), true, SqrtPrice::new(0), max_price(), 1000),
        Err(InvariantError::PositionNotFound)
    );
}

/// A pool at tick 10 with `n` positions of alice, from `-10k` to `10k` for `k = 1..=n`.
fn positions_setup(n: i32) -> Invariant {
    let (mut dex, key) = setup(Percentage::new(0), 1, 10);
    for k in 1..=n {
        dex.create_position(alice(), key, -10 * k, 10 * k, Liquidity::new(10), SqrtPrice::new(0), max_price(), 1000, 1)
            .unwrap();
    }
    dex
}

#[test]
fn test_get_positions() {
    let dex = positions_setup(2);
    let (entries, count) = dex.get_positions(alice(), 2, 0).unwrap();
    assert_eq!(entries.len(), 2);
    assert_eq!(count, 2);
    let pool = dex.get_pool(token(1), token(2), entries[0].0.pool_key.fee_tier).unwrap();
    assert_eq!(entries[0], (dex.get_position(alice(), 0).unwrap(), pool));
    assert_eq!(entries[1], (dex.get_position(alice(), 1).unwrap(), pool));
}

#[test]
fn test_get_positions_less_than_exist() {
    let (entries, count) = positions_setup(2).get_positions(alice(), 1, 0).unwrap();
    assert_eq!(entries.len(), 1);
    assert_eq!(count, 2);
}

#[test]
fn test_get_positions_more_than_exist() {
    let (entries, count) = positions_setup(2).get_positions(alice(), 3, 0).unwrap();
    assert_eq!(entries.len(), 2);
    assert_eq!(count, 2);
}

#[test]
fn test_get_positions_with_offset() {
    let dex = positions_setup(2);
    let (entries, count) = dex.get_positions(alice(), 1, 1).unwrap();
    assert_eq!(entries.len(), 1);
    assert_eq!(count, 2);
    assert_eq!(entries[0].0, dex.get_position(alice(), 1).unwrap());
}

#[test]
fn test_get_positions_with_offset_less_than_exist() {
    let (entries, count) = positions_setup(3).get_positions(alice(), 1, 1).unwrap();
    assert_eq!(entries.len(), 1);
    assert_eq!(count, 3);
}

#[test]
fn test_get_positions_with_offset_more_than_exist() {
    let (entries, count) = positions_setup(2).get_positions(alice(), 2, 1).unwrap();
    assert_eq!(entries.len(), 1);
    assert_eq!(count, 2);
}

#[test]
fn get_positions_past_the_end_is_empty() {
    let (entries, count) = positions_setup(2).get_positions(alice(), 5, 7).unwrap();
    assert!(entries.is_empty());
    assert_eq!(count, 2);
}

#[test]
fn liquidity_ticks_amount_counts_the_ticks_of_positions() {
    let dex = positions_setup(3);
    let key = PoolKey::new(token(1), token(2), FeeTier::new(Percentage::new(0), 1).unwrap()).unwrap();
    assert_eq!(dex.get_liquidity_ticks_amount(key, -30, 30), Ok(6));
    assert_eq!(dex.get_liquidity_ticks_amount(key, -20, 10), Ok(3));
    assert_eq!(dex.get_liquidity_ticks_amount(key, -5, 5), Ok(0));
    assert_eq!(dex.get_liquidity_ticks_amount(key, 30, 30), Ok(1));
}

#[test]
fn withdrawal_never_exceeds_deposit() {
    let price = calculate_sqrt_price(-23028).unwrap();
    let l = Liquidity::from_integer(100);
    let (x_in, y_in, u_in) = calculate_amount_delta(-23028, price, l, true, 177_440, -177_440).unwrap();
    let (x_out, y_out, u_out) = calculate_amount_delta(-23028, price, l, false, 177_440, -177_440).unwrap();
    assert_eq!((x_in, y_in), (TokenAmount::new(317), TokenAmount::new(32)));
    assert!(x_out.get() <= x_in.get() && x_in.get() - x_out.get() <= 1);
    assert!(y_out.get() <= y_in.get() && y_in.get() - y_out.get() <= 1);
    assert!(u_in && u_out);
}

#[test]
fn test_create_many_positions() {
    let (mut dex, key) = setup(Percentage::new(0), 1, 10);
    for i in (0..=1000).step_by(2) {
        dex.create_position(alice(), key, i, i + 1, Liquidity::new(10), SqrtPrice::new(0), max_price(), 1000, 1)
            .unwrap();
    }
    for i in (0..=1000).step_by(2) {
        assert!(dex.is_tick_initialized(key, i));
        assert!(dex.is_tick_initialized(key, i + 1));
    }
}

#[test]
fn closing_a_new_position_returns_at_most_the_deposit() {
    let (mut dex, key) = setup(Percentage::from_scale(2, 4), 4, -23028);
    let price = dex.get_pool(token(1), token(2), key.fee_tier).unwrap().sqrt_price;
    let (_, x, y) = dex
        .create_position(alice(), key, -177_440, 177_440, Liquidity::from_integer(100), price, price, 1000, 0)
        .unwrap();
    assert_eq!((x, y), (TokenAmount::new(317), TokenAmount::new(32)));
    let (x2, y2) = dex.remove_position(alice(), 0, 1000).unwrap();
    assert!(x2.get() <= x.get() && x.get() - x2.get() <= 1);
    assert!(y2.get() <= y.get() && y.get() - y2.get() <= 1);
}
