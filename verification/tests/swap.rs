use invariant_protocol::contracts::{AccountId, FeeTier, InvariantError, PoolKey};
use invariant_protocol::math::consts::{MAX_SQRT_PRICE, MIN_SQRT_PRICE};
use invariant_protocol::math::log::get_tick_at_sqrt_price;
use invariant_protocol::math::types::fee_growth::FeeGrowth;
use invariant_protocol::math::types::liquidity::Liquidity;
use invariant_protocol::math::types::percentage::Percentage;
use invariant_protocol::math::types::sqrt_price::{calculate_sqrt_price, get_max_tick, get_min_tick, SqrtPrice};
use invariant_protocol::math::types::token_amount::TokenAmount;
use invariant_protocol::protocol::Invariant;
use invariant_protocol::swap::{check_swap_limit, SwapHop};

#[test]
fn swap_limit_must_lie_on_the_swap_side() {
    let one = SqrtPrice::from_integer(1);
    let below = SqrtPrice::new(one.get() - 1);
    let above = SqrtPrice::new(one.get() + 1);
    assert_eq!(check_swap_limit(one, true, below), Ok(()));
    assert_eq!(check_swap_limit(one, true, one), Err(InvariantError::WrongLimit));
    assert_eq!(check_swap_limit(one, true, above), Err(InvariantError::WrongLimit));
    assert_eq!(check_swap_limit(one, false, above), Ok(()));
    assert_eq!(check_swap_limit(one, false, one), Err(InvariantError::WrongLimit));
    assert_eq!(check_swap_limit(one, false, below), Err(InvariantError::WrongLimit));
    let top = SqrtPrice::new(u128::MAX);
    assert_eq!(check_swap_limit(top, true, SqrtPrice::new(MAX_SQRT_PRICE)), Ok(()));
    assert_eq!(check_swap_limit(top, true, SqrtPrice::new(MAX_SQRT_PRICE + 1)), Err(InvariantError::WrongLimit));
    let bottom = SqrtPrice::new(0);
    assert_eq!(check_swap_limit(bottom, false, SqrtPrice::new(MIN_SQRT_PRICE)), Ok(()));
    assert_eq!(check_swap_limit(bottom, false, SqrtPrice::new(MIN_SQRT_PRICE - 1)), Err(InvariantError::WrongLimit));
}

#[test]
fn prepare_swap_checks() {
    let admin = AccountId::from_bytes([0xAA; 32]);
    let x = AccountId::from_bytes([1; 32]);
    let y = AccountId::from_bytes([2; 32]);
    let fee_tier = FeeTier::new(Percentage::from_scale(6, 3), 10).unwrap();
    let mut dex = Invariant::new(admin, Percentage::new(0));
    dex.add_fee_tier(admin, fee_tier).unwrap();
    let key = PoolKey::new(x, y, fee_tier).unwrap();
    let one = SqrtPrice::from_integer(1);
    let below = SqrtPrice::new(one.get() - 1000);
    assert_eq!(dex.prepare_swap(key, true, TokenAmount(10), below), Err(InvariantError::PoolNotFound));
    dex.create_pool(x, y, fee_tier, one, 0, 0).unwrap();
    assert_eq!(dex.prepare_swap(key, true, TokenAmount(0), below), Err(InvariantError::AmountIsZero));
    assert_eq!(dex.prepare_swap(key, false, TokenAmount(10), below), Err(InvariantError::WrongLimit));
    let pool = dex.get_pool(x, y, fee_tier).unwrap();
    assert_eq!(dex.prepare_swap(key, true, TokenAmount(10), below), Ok((pool, get_min_tick(10))));
    assert_eq!(get_min_tick(10), -665_450);
    let above = SqrtPrice::new(one.get() + 1000);
    assert_eq!(dex.prepare_swap(key, false, TokenAmount(10), above), Ok((pool, get_max_tick(10))));
}

fn account(b: u8) -> AccountId {
    AccountId::from_bytes([b; 32])
}

/// A contract with the 0.6% / spacing 10 fee tier and a pool of tokens 1 and 2
/// at tick 0.
fn basic_pool(protocol_fee: Percentage) -> (Invariant, PoolKey) {
    let alice = account(0xA1);
    let mut dex = Invariant::new(alice, protocol_fee);
    let fee_tier = FeeTier::new(Percentage::from_scale(6, 3), 10).unwrap();
    dex.add_fee_tier(alice, fee_tier).unwrap();
    dex.create_pool(account(1), account(2), fee_tier, calculate_sqrt_price(0).unwrap(), 0, 1000).unwrap();
    (dex, PoolKey::new(account(1), account(2), fee_tier).unwrap())
}

fn open_position(dex: &mut Invariant, key: PoolKey, lower: i32, upper: i32) -> (TokenAmount, TokenAmount) {
    let (_, x, y) = dex
        .create_position(
            account(0xA1),
            key,
            lower,
            upper,
            Liquidity::from_integer(1000000),
            SqrtPrice::new(0),
            SqrtPrice::new(u128::MAX),
            1000,
            1,
        )
        .unwrap();
    (x, y)
}

#[test]
fn swap() {
    let (mut dex, key) = basic_pool(Percentage::from_scale(1, 2));
    let price = calculate_sqrt_price(0).unwrap();
    let (_, x, y) = dex
        .create_position(account(0xA1), key, -20, 10, Liquidity::from_integer(1000000), price, price, 1000, 1)
        .unwrap();
    assert_eq!((x, y), (TokenAmount(500), TokenAmount(1000)));
    let before = dex.get_pool(account(1), account(2), key.fee_tier).unwrap();
    let r = dex.swap(key, true, TokenAmount(1000), true, SqrtPrice::new(MIN_SQRT_PRICE), 1000).unwrap();
    assert_eq!(r.amount_in, TokenAmount(1000));
    assert_eq!(r.amount_out, TokenAmount(993));
    let after = dex.get_pool(account(1), account(2), key.fee_tier).unwrap();
    assert_eq!(after.liquidity, before.liquidity);
    assert_eq!(after.current_tick_index, -20);
    assert_ne!(after.sqrt_price, before.sqrt_price);
    assert_eq!(after.fee_growth_global_x, FeeGrowth::new(50000000000000000000000));
    assert_eq!(after.fee_growth_global_y, FeeGrowth::new(0));
    assert_eq!(after.fee_protocol_token_x, TokenAmount(1));
    assert_eq!(after.fee_protocol_token_y, TokenAmount(0));
}

#[test]
fn test_swap_x_to_y() {
    let (mut dex, key) = basic_pool(Percentage::from_scale(6, 3));
    open_position(&mut dex, key, -20, 10);
    open_position(&mut dex, key, -40, -10);
    let pool = dex.get_pool(account(1), account(2), key.fee_tier).unwrap();
    assert_eq!(pool.liquidity, Liquidity::from_integer(1000000));
    let quote = dex.quote(key, true, TokenAmount(1000), true, SqrtPrice::new(MIN_SQRT_PRICE), 1000).unwrap();
    let r = dex.swap(key, true, TokenAmount(1000), true, quote.target_sqrt_price, 1000).unwrap();
    assert_eq!(r.amount_in, TokenAmount(1000));
    assert_eq!(r.amount_out, TokenAmount(990));
    assert_eq!(quote.amount_out, r.amount_out);
    let pool = dex.get_pool(account(1), account(2), key.fee_tier).unwrap();
    assert_eq!(pool.fee_growth_global_y, FeeGrowth::new(0));
    assert_eq!(pool.fee_growth_global_x, FeeGrowth::new(40000000000000000000000));
    assert_eq!(pool.fee_protocol_token_y, TokenAmount(0));
    assert_eq!(pool.fee_protocol_token_x, TokenAmount(2));
    let lower = dex.get_tick(key, -20).unwrap();
    let middle = dex.get_tick(key, -10).unwrap();
    let upper = dex.get_tick(key, 10).unwrap();
    let liquidity_delta = Liquidity::from_integer(1000000);
    assert_eq!(lower.liquidity_change, liquidity_delta);
    assert_eq!(middle.liquidity_change, liquidity_delta);
    assert_eq!(upper.liquidity_change, liquidity_delta);
    assert_eq!(upper.fee_growth_outside_x, FeeGrowth::new(0));
    assert_eq!(middle.fee_growth_outside_x, FeeGrowth::new(30000000000000000000000));
    assert_eq!(lower.fee_growth_outside_x, FeeGrowth::new(0));
    assert!(dex.is_tick_initialized(key, -20));
    assert!(dex.is_tick_initialized(key, -10));
    assert!(dex.is_tick_initialized(key, 10));
}

#[test]
fn test_swap_y_to_x() {
    let (mut dex, key) = basic_pool(Percentage::from_scale(6, 3));
    open_position(&mut dex, key, -10, 20);
    open_position(&mut dex, key, 10, 40);
    let quote = dex.quote(key, false, TokenAmount(1000), true, SqrtPrice::new(MAX_SQRT_PRICE), 1000).unwrap();
    let r = dex.swap(key, false, TokenAmount(1000), true, quote.target_sqrt_price, 1000).unwrap();
    assert_eq!(r.amount_in, TokenAmount(1000));
    assert_eq!(r.amount_out, TokenAmount(990));
    let pool = dex.get_pool(account(1), account(2), key.fee_tier).unwrap();
    assert_eq!(pool.fee_growth_global_x, FeeGrowth::new(0));
    assert_eq!(pool.fee_growth_global_y, FeeGrowth::new(40000000000000000000000));
    assert_eq!(pool.fee_protocol_token_x, TokenAmount(0));
    assert_eq!(pool.fee_protocol_token_y, TokenAmount(2));
    let lower = dex.get_tick(key, -10).unwrap();
    let middle = dex.get_tick(key, 10).unwrap();
    let upper = dex.get_tick(key, 20).unwrap();
    assert_eq!(upper.fee_growth_outside_y, FeeGrowth::new(0));
    assert_eq!(middle.fee_growth_outside_y, FeeGrowth::new(30000000000000000000000));
    assert_eq!(lower.fee_growth_outside_y, FeeGrowth::new(0));
    assert!(dex.is_tick_initialized(key, -10));
    assert!(dex.is_tick_initialized(key, 10));
    assert!(dex.is_tick_initialized(key, 20));
}

#[test]
fn test_swap_not_enough_liquidity_token_x() {
    let (mut dex, key) = basic_pool(Percentage::from_scale(6, 3));
    open_position(&mut dex, key, -10, 20);
    open_position(&mut dex, key, 10, 40);
    let before = dex.get_pool(account(1), account(2), key.fee_tier).unwrap();
    assert_eq!(
        dex.swap(key, true, TokenAmount(1000), true, SqrtPrice::new(MIN_SQRT_PRICE), 1000).map(|r| r.amount_out),
        Err(InvariantError::TickLimitReached)
    );
    assert_eq!(dex.get_pool(account(1), account(2), key.fee_tier), Ok(before));
}

#[test]
fn swap_refusals() {
    let (mut dex, key) = basic_pool(Percentage::from_scale(6, 3));
    let limit = SqrtPrice::new(MIN_SQRT_PRICE);
    assert_eq!(dex.swap(key, true, TokenAmount(0), true, limit, 1000).map(|r| r.amount_in), Err(InvariantError::AmountIsZero));
    assert_eq!(
        dex.swap(key, true, TokenAmount(10), true, SqrtPrice::new(MAX_SQRT_PRICE), 1000).map(|r| r.amount_in),
        Err(InvariantError::WrongLimit)
    );
    open_position(&mut dex, key, -20, 10);
    // a swap too small to move the price pays nothing out
    assert_eq!(dex.quote(key, true, TokenAmount(1), true, limit, 1000).map(|r| r.amount_in), Err(InvariantError::NoGainSwap));
}

#[test]
fn test_swap_not_enough_liquidity_token_y() {
    let (mut dex, key) = basic_pool(Percentage::from_scale(6, 3));
    open_position(&mut dex, key, -20, 10);
    open_position(&mut dex, key, -40, -10);
    assert_eq!(
        dex.swap(key, false, TokenAmount(1000), true, SqrtPrice::new(MAX_SQRT_PRICE), 1000).map(|r| r.amount_out),
        Err(InvariantError::TickLimitReached)
    );
}

/// The basic pool with the basic position of alice and bob's swap of 1000 x.
fn basic_pool_after_swap() -> (Invariant, PoolKey) {
    let (mut dex, key) = basic_pool(Percentage::from_scale(1, 2));
    let price = calculate_sqrt_price(0).unwrap();
    dex.create_position(account(0xA1), key, -20, 10, Liquidity::from_integer(1000000), price, price, 1000, 1)
        .unwrap();
    dex.swap(key, true, TokenAmount(1000), true, SqrtPrice::new(MIN_SQRT_PRICE), 1000).unwrap();
    (dex, key)
}

#[test]
fn test_claim() {
    let (mut dex, key) = basic_pool_after_swap();
    let pool = dex.get_pool(account(1), account(2), key.fee_tier).unwrap();
    let (x, y) = dex.claim_fee(account(0xA1), 0, 1000).unwrap();
    assert_eq!(x, TokenAmount(5));
    assert_eq!(y, TokenAmount(0));
    let position = dex.get_position(account(0xA1), 0).unwrap();
    assert_eq!(position.fee_growth_inside_x, pool.fee_growth_global_x);
    assert_eq!(position.tokens_owed_x, TokenAmount(0));
    // a second claim right after finds nothing more
    assert_eq!(dex.claim_fee(account(0xA1), 0, 1000), Ok((TokenAmount(0), TokenAmount(0))));
}

#[test]
fn test_claim_not_owner() {
    let (mut dex, _) = basic_pool_after_swap();
    assert_eq!(dex.claim_fee(account(0xB0), 0, 1000), Err(InvariantError::PositionNotFound));
}

#[test]
fn swap_by_amount_out_pays_at_most_the_amount() {
    let (mut dex, key) = basic_pool(Percentage::from_scale(1, 2));
    open_position(&mut dex, key, -20, 10);
    let quote = dex.quote(key, true, TokenAmount(300), false, SqrtPrice::new(MIN_SQRT_PRICE), 1000).unwrap();
    let r = dex.swap(key, true, TokenAmount(300), false, SqrtPrice::new(MIN_SQRT_PRICE), 1000).unwrap();
    assert!(r.amount_out.get() <= 300);
    assert_eq!(quote.amount_out, r.amount_out);
    assert_eq!(quote.amount_in, r.amount_in);
    assert_eq!(quote.target_sqrt_price, r.target_sqrt_price);
    assert!(r.amount_in.get() > r.amount_out.get());
}

#[test]
fn test_protocol_fee() {
    let (mut dex, key) = basic_pool_after_swap();
    assert_eq!(dex.withdraw_protocol_fee(account(0xA1), key), Ok((TokenAmount(1), TokenAmount(0))));
    let pool = dex.get_pool(account(1), account(2), key.fee_tier).unwrap();
    assert_eq!(pool.fee_protocol_token_x, TokenAmount(0));
    assert_eq!(pool.fee_protocol_token_y, TokenAmount(0));
}

#[test]
fn test_protocol_fee_not_admin() {
    let (mut dex, key) = basic_pool_after_swap();
    assert_eq!(dex.withdraw_protocol_fee(account(0xB0), key), Err(InvariantError::NotFeeReceiver));
}

/// The basic pool with alice's position from tick -1000 to 1000 holding
/// `10^10` liquidity.
fn slippage_pool() -> (Invariant, PoolKey) {
    let (mut dex, key) = basic_pool(Percentage::from_scale(1, 2));
    let price = calculate_sqrt_price(0).unwrap();
    dex.create_position(account(0xA1), key, -1000, 1000, Liquidity::from_integer(10_000_000_000u128), price, price, 1000, 1)
        .unwrap();
    (dex, key)
}

#[test]
fn test_basic_slippage() {
    let (mut dex, key) = slippage_pool();
    let swap_amount = TokenAmount::new(10u128.pow(8));
    let target_sqrt_price = SqrtPrice::new(1009940000000000000000001);
    dex.swap(key, false, swap_amount, true, target_sqrt_price, 1000).unwrap();
    let pool = dex.get_pool(account(1), account(2), key.fee_tier).unwrap();
    assert_eq!(pool.sqrt_price, SqrtPrice::new(1009940000000000000000000));
}

#[test]
fn test_swap_close_to_limit() {
    let (mut dex, key) = slippage_pool();
    let swap_amount = TokenAmount::new(10u128.pow(8));
    let quoted = dex.quote(key, false, swap_amount, true, SqrtPrice::new(MAX_SQRT_PRICE), 1000).unwrap().target_sqrt_price;
    let target_sqrt_price = SqrtPrice::new(quoted.get() - 1);
    assert_eq!(
        dex.swap(key, false, swap_amount, true, target_sqrt_price, 1000).map(|r| r.amount_in),
        Err(InvariantError::PriceLimitReached)
    );
}

#[test]
fn test_swap_exact_limit() {
    let (mut dex, key) = basic_pool(Percentage::from_scale(1, 2));
    let price = calculate_sqrt_price(0).unwrap();
    dex.create_position(account(0xA1), key, -20, 10, Liquidity::from_integer(1000000), price, price, 1000, 1)
        .unwrap();
    let swap_amount = TokenAmount::new(1000);
    let quote = dex.quote(key, true, swap_amount, true, SqrtPrice::new(MIN_SQRT_PRICE), 1000).unwrap();
    let r = dex.swap(key, true, swap_amount, true, quote.target_sqrt_price, 1000).unwrap();
    assert_eq!(r.amount_in, swap_amount);
    assert_eq!(r.target_sqrt_price, quote.target_sqrt_price);
}

#[test]
fn test_remove_position() {
    let (mut dex, key) = basic_pool(Percentage::from_scale(1, 2));
    let alice = account(0xA1);
    let price = calculate_sqrt_price(0).unwrap();
    let liquidity_delta = Liquidity::from_integer(1_000_000);
    dex.create_position(alice, key, -20, 10, liquidity_delta, price, price, 1000, 1).unwrap();
    let pool = dex.get_pool(account(1), account(2), key.fee_tier).unwrap();
    assert_eq!(pool.liquidity, liquidity_delta);
    let liquidity_delta = Liquidity::new(liquidity_delta.get() * 1_000_000);
    dex.create_position(alice, key, -70, 60, liquidity_delta, pool.sqrt_price, pool.sqrt_price, 1000, 1).unwrap();
    let position = dex.get_position(alice, 1).unwrap();
    assert_eq!(position.lower_tick_index, -70);
    assert_eq!(position.upper_tick_index, 60);

    let before = dex.get_pool(account(1), account(2), key.fee_tier).unwrap();
    let r = dex.swap(key, true, TokenAmount::new(1000), true, SqrtPrice::new(MIN_SQRT_PRICE), 1000).unwrap();
    let after = dex.get_pool(account(1), account(2), key.fee_tier).unwrap();
    assert_eq!(after.fee_growth_global_x, FeeGrowth::new(49999950000049999));
    assert_eq!(after.fee_protocol_token_x, TokenAmount(1));
    assert_eq!(after.fee_protocol_token_y, TokenAmount(0));
    assert!(after.sqrt_price.get() < before.sqrt_price.get());
    assert_eq!(after.liquidity, before.liquidity);
    assert_eq!(after.current_tick_index, -10);
    assert_eq!(r.amount_out, TokenAmount(993));

    let (x, y) = dex.remove_position(alice, 0, 1000).unwrap();
    assert_eq!((x, y), (TokenAmount(499), TokenAmount(999)));
    assert_eq!(dex.get_tick(key, -20), Err(InvariantError::TickNotFound));
    assert_eq!(dex.get_tick(key, 10), Err(InvariantError::TickNotFound));
    assert!(!dex.is_tick_initialized(key, -20));
    assert!(!dex.is_tick_initialized(key, 10));
    let pool = dex.get_pool(account(1), account(2), key.fee_tier).unwrap();
    assert_eq!(pool.liquidity, liquidity_delta);
    assert_eq!(pool.current_tick_index, -10);
}

#[test]
fn test_get_position_with_associates() {
    let (mut dex, key) = basic_pool(Percentage::from_scale(1, 2));
    let price = calculate_sqrt_price(0).unwrap();
    dex.create_position(account(0xA1), key, -20, 10, Liquidity::from_integer(1000000), price, price, 1000, 1)
        .unwrap();
    let (position, pool, lower, upper) = dex.get_position_with_associates(account(0xA1), 0).unwrap();
    assert_eq!(position, dex.get_position(account(0xA1), 0).unwrap());
    assert_eq!(pool, dex.get_pool(account(1), account(2), key.fee_tier).unwrap());
    assert_eq!(lower, dex.get_tick(key, -20).unwrap());
    assert_eq!(upper, dex.get_tick(key, 10).unwrap());
}

#[test]
fn test_position_does_not_exist() {
    let (dex, _) = basic_pool(Percentage::from_scale(1, 2));
    assert_eq!(
        dex.get_position_with_associates(account(0xA1), 0).map(|r| r.0),
        Err(InvariantError::PositionNotFound)
    );
}

#[test]
fn transferred_position_moves_to_the_receiver() {
    let (mut dex, key) = basic_pool(Percentage::from_scale(1, 2));
    open_position(&mut dex, key, -20, 10);
    open_position(&mut dex, key, -40, -10);
    let alice = account(0xA1);
    let bob = account(0xB0);
    let first = dex.get_position(alice, 0).unwrap();
    let second = dex.get_position(alice, 1).unwrap();
    assert_eq!(dex.transfer_position(alice, 0, bob), Ok(()));
    assert_eq!(dex.get_user_position_amount(alice), 1);
    assert_eq!(dex.get_user_position_amount(bob), 1);
    assert_eq!(dex.get_position(bob, 0), Ok(first));
    // the last position of the owner takes the place of the one handed over
    assert_eq!(dex.get_position(alice, 0), Ok(second));
    assert_eq!(dex.transfer_position(alice, 1, bob), Err(InvariantError::PositionNotFound));
}

#[test]
fn swap_route() {
    let alice = account(0xA1);
    let mut dex = Invariant::new(alice, Percentage::from_scale(1, 2));
    let fee_tier = FeeTier::new(Percentage::from_scale(6, 3), 1).unwrap();
    dex.add_fee_tier(alice, fee_tier).unwrap();
    let init_sqrt_price = calculate_sqrt_price(0).unwrap();
    dex.create_pool(account(1), account(2), fee_tier, init_sqrt_price, 0, 1000).unwrap();
    dex.create_pool(account(2), account(3), fee_tier, init_sqrt_price, 0, 1000).unwrap();
    let pool_key_1 = PoolKey::new(account(1), account(2), fee_tier).unwrap();
    let pool_key_2 = PoolKey::new(account(2), account(3), fee_tier).unwrap();
    let liquidity_delta = Liquidity::new(2u128.pow(63) - 1);
    dex.create_position(alice, pool_key_1, -1, 1, liquidity_delta, init_sqrt_price, init_sqrt_price, 1000, 1).unwrap();
    dex.create_position(alice, pool_key_2, -1, 1, liquidity_delta, init_sqrt_price, init_sqrt_price, 1000, 1).unwrap();
    let swaps = vec![
        SwapHop { pool_key: pool_key_1, x_to_y: true },
        SwapHop { pool_key: pool_key_2, x_to_y: true },
    ];
    let amount_in = TokenAmount(1000);
    let expected = dex.quote_route(amount_in, swaps.clone(), 1000).unwrap();
    assert_eq!(expected, TokenAmount(986));
    assert_eq!(dex.swap_route(amount_in, expected, Percentage::new(0), swaps.clone(), 1000), Ok(TokenAmount(986)));
    let pool_1 = dex.get_pool(account(1), account(2), fee_tier).unwrap();
    assert_eq!(pool_1.fee_protocol_token_x, TokenAmount(1));
    assert_eq!(pool_1.fee_protocol_token_y, TokenAmount(0));
    let pool_2 = dex.get_pool(account(2), account(3), fee_tier).unwrap();
    assert_eq!(pool_2.fee_protocol_token_x, TokenAmount(1));
    assert_eq!(pool_2.fee_protocol_token_y, TokenAmount(0));
    assert_eq!(dex.claim_fee(alice, 0, 1000), Ok((TokenAmount(4), TokenAmount(0))));
    assert_eq!(dex.claim_fee(alice, 1, 1000), Ok((TokenAmount(4), TokenAmount(0))));
}

#[test]
fn swap_route_below_minimum_is_refused() {
    let (mut dex, key) = basic_pool(Percentage::from_scale(1, 2));
    let price = calculate_sqrt_price(0).unwrap();
    dex.create_position(account(0xA1), key, -20, 10, Liquidity::from_integer(1000000), price, price, 1000, 1)
        .unwrap();
    let swaps = vec![SwapHop { pool_key: key, x_to_y: true }];
    // 993 comes out; 1000 less 0.5% still asks for 995
    assert_eq!(
        dex.swap_route(TokenAmount(1000), TokenAmount(1000), Percentage::from_scale(5, 3), swaps, 1000),
        Err(InvariantError::AmountUnderMinimumAmountOut)
    );
}

#[test]
fn test_position_slippage_zero_slippage_and_inside_range() {
    let (mut dex, key) = slippage_pool();
    let pool = dex.get_pool(account(1), account(2), key.fee_tier).unwrap();
    let liquidity_delta = Liquidity::from_integer(1_000_000);
    let tick = key.fee_tier.tick_spacing as i32;
    dex.create_position(account(0xA1), key, -tick, tick, liquidity_delta, pool.sqrt_price, pool.sqrt_price, 1000, 1)
        .unwrap();
    let limit_lower = SqrtPrice::new(994734637981406576896367);
    let limit_upper = SqrtPrice::new(1025038048074314166333500);
    dex.create_position(account(0xA1), key, -tick, tick, liquidity_delta, limit_lower, limit_upper, 1000, 1)
        .unwrap();
}

#[test]
fn test_position_slippage_below_range() {
    let (mut dex, key) = slippage_pool();
    let tick = key.fee_tier.tick_spacing as i32;
    let limit_lower = SqrtPrice::new(1014432353584998786339859);
    let limit_upper = SqrtPrice::new(1045335831204498605270797);
    assert_eq!(
        dex.create_position(account(0xA1), key, -tick, tick, Liquidity::from_integer(1_000_000), limit_lower, limit_upper, 1000, 1)
            .map(|r| r.1),
        Err(InvariantError::PriceLimitReached)
    );
}

#[test]
fn test_position_slippage_above_range() {
    let (mut dex, key) = slippage_pool();
    let tick = key.fee_tier.tick_spacing as i32;
    let limit_lower = SqrtPrice::new(955339206774222158009382);
    let limit_upper = SqrtPrice::new(984442481813945288458906);
    assert_eq!(
        dex.create_position(account(0xA1), key, -tick, tick, Liquidity::from_integer(1_000_000), limit_lower, limit_upper, 1000, 1)
            .map(|r| r.1),
        Err(InvariantError::PriceLimitReached)
    );
}

#[test]
fn test_liquidity_gap() {
    let (mut dex, key) = basic_pool(Percentage::from_scale(1, 2));
    let alice = account(0xA1);
    let liquidity_delta = Liquidity::from_integer(20_006_000);
    let pool = dex.get_pool(account(1), account(2), key.fee_tier).unwrap();
    dex.create_position(alice, key, -10, 10, liquidity_delta, pool.sqrt_price, pool.sqrt_price, 1000, 1).unwrap();
    let pool = dex.get_pool(account(1), account(2), key.fee_tier).unwrap();
    assert_eq!(pool.liquidity, liquidity_delta);

    let swap_amount = TokenAmount::new(10067);
    let quoted = dex.quote(key, true, swap_amount, true, SqrtPrice::new(MIN_SQRT_PRICE), 1000).unwrap().target_sqrt_price;
    let r = dex.swap(key, true, swap_amount, true, quoted, 1000).unwrap();
    let pool = dex.get_pool(account(1), account(2), key.fee_tier).unwrap();
    assert_eq!(pool.liquidity, liquidity_delta);
    assert_eq!(pool.current_tick_index, -10);
    assert_eq!(pool.sqrt_price, calculate_sqrt_price(-10).unwrap());
    assert_eq!(r.amount_in, swap_amount);
    assert_eq!(r.amount_out, TokenAmount(9999));
    assert_eq!(pool.fee_growth_global_x, FeeGrowth::new(29991002699190242927121));
    assert_eq!(pool.fee_growth_global_y, FeeGrowth::new(0));
    assert_eq!(pool.fee_protocol_token_x, TokenAmount::new(1));
    assert_eq!(pool.fee_protocol_token_y, TokenAmount::new(0));

    assert_eq!(
        dex.swap(key, true, TokenAmount(1), true, SqrtPrice::new(MIN_SQRT_PRICE), 1000).map(|r| r.amount_in),
        Err(InvariantError::NoGainSwap)
    );

    let liquidity_delta = Liquidity::from_integer(20008000);
    let pool = dex.get_pool(account(1), account(2), key.fee_tier).unwrap();
    dex.create_position(alice, key, -90, -50, liquidity_delta, pool.sqrt_price, pool.sqrt_price, 1000, 1).unwrap();
    let swap_amount = TokenAmount::new(5000);
    let quoted = dex.quote(key, true, swap_amount, true, SqrtPrice::new(MIN_SQRT_PRICE), 1000).unwrap().target_sqrt_price;
    dex.swap(key, true, swap_amount, true, quoted, 1000).unwrap();
}

/// The basic pool (protocol fee 1%) with positions `-10..10` and `-20..-10`,
/// each of `20_006_000` liquidity, after a swap of `10_068` x that brings the
/// price down to tick -10.
fn cross_both_side_setup() -> (Invariant, PoolKey) {
    let (mut dex, key) = basic_pool(Percentage::from_scale(1, 2));
    let alice = account(0xA1);
    let liquidity_delta = Liquidity::from_integer(20_006_000);
    let pool = dex.get_pool(account(1), account(2), key.fee_tier).unwrap();
    dex.create_position(alice, key, -10, 10, liquidity_delta, pool.sqrt_price, pool.sqrt_price, 1000, 1).unwrap();
    dex.create_position(alice, key, -20, -10, liquidity_delta, pool.sqrt_price, pool.sqrt_price, 1000, 1).unwrap();
    let pool = dex.get_pool(account(1), account(2), key.fee_tier).unwrap();
    assert_eq!(pool.liquidity, liquidity_delta);
    let before = pool;
    dex.swap(key, true, TokenAmount(10_068), true, SqrtPrice::new(MIN_SQRT_PRICE), 1000).unwrap();
    let pool = dex.get_pool(account(1), account(2), key.fee_tier).unwrap();
    assert_eq!(pool.current_tick_index, -10);
    assert_eq!(pool.liquidity, before.liquidity);
    assert_eq!(pool.sqrt_price, calculate_sqrt_price(-10).unwrap());
    (dex, key)
}

/// Crossing down to tick -20 and back: the pool ends one unit below the
/// price of tick -10, with the fees of both directions booked.
#[test]
fn crossing_both_sides() {
    let (mut dex, key) = cross_both_side_setup();
    let alice = account(0xA1);
    let limit = SqrtPrice::new(MIN_SQRT_PRICE);
    dex.swap(key, true, TokenAmount(3), true, limit, 1000).unwrap();
    dex.swap(key, false, TokenAmount(3), true, SqrtPrice::new(MAX_SQRT_PRICE), 1000).unwrap();
    let massive_liquidity_delta = Liquidity::new(19996000399699881985603000000);
    dex.create_position(
        alice,
        key,
        -20,
        0,
        massive_liquidity_delta,
        SqrtPrice::new(MIN_SQRT_PRICE),
        SqrtPrice::new(MAX_SQRT_PRICE),
        1000,
        1,
    )
    .unwrap();
    dex.swap(key, true, TokenAmount(1), false, limit, 1000).unwrap();
    dex.swap(key, false, TokenAmount(2), true, SqrtPrice::new(MAX_SQRT_PRICE), 1000).unwrap();
    let pool = dex.get_pool(account(1), account(2), key.fee_tier).unwrap();
    assert_eq!(pool.current_tick_index, -20);
    assert_eq!(pool.fee_growth_global_x, FeeGrowth::new(29991002699190242927121));
    assert_eq!(pool.fee_growth_global_y, FeeGrowth::new(0));
    assert_eq!(pool.fee_protocol_token_x, TokenAmount(4));
    assert_eq!(pool.fee_protocol_token_y, TokenAmount(2));
    assert_eq!(pool.liquidity, Liquidity::new(19996000399699901991603000000));
    assert_eq!(pool.sqrt_price.get(), calculate_sqrt_price(-10).unwrap().get() - 1);
    let last = dex.get_tick(key, -20).unwrap();
    assert_eq!(last.fee_growth_outside_x, FeeGrowth::new(0));
    assert_eq!(last.fee_growth_outside_y, FeeGrowth::new(0));
    assert_eq!(last.liquidity_change, Liquidity::new(19996000399699901991603000000));
    let lower = dex.get_tick(key, -10).unwrap();
    assert_eq!(lower.fee_growth_outside_x, FeeGrowth::new(29991002699190242927121));
    assert_eq!(lower.fee_growth_outside_y, FeeGrowth::new(0));
    assert_eq!(lower.liquidity_change, Liquidity::new(0));
    let upper = dex.get_tick(key, 10).unwrap();
    assert_eq!(upper.fee_growth_outside_x, FeeGrowth::new(0));
    assert_eq!(upper.fee_growth_outside_y, FeeGrowth::new(0));
    assert_eq!(upper.liquidity_change, Liquidity::from_integer(20_006_000));
}

#[test]
fn cross_both_side_not_cross_case_test() {
    let (mut dex, key) = cross_both_side_setup();
    let limit = SqrtPrice::new(MIN_SQRT_PRICE);
    // one unit is not enough to cross the tick the pool sits on: nothing is paid out
    match dex.quote(key, true, TokenAmount(1), true, limit, 1000) {
        Err(e) => assert_eq!(e, InvariantError::NoGainSwap),
        Ok(q) => assert!(dex.swap(key, true, TokenAmount(1), true, q.target_sqrt_price, 1000).is_err()),
    }
}

#[test]
fn max_tick_cross() {
    let (mut dex, key) = basic_pool(Percentage::from_scale(1, 2));
    let liquidity = Liquidity::from_integer(10000000);
    for i in (-2560..20).step_by(10) {
        let pool = dex.get_pool(account(1), account(2), key.fee_tier).unwrap();
        dex.create_position(account(0xA1), key, i, i + 10, liquidity, pool.sqrt_price, pool.sqrt_price, 1000, 1)
            .unwrap();
    }
    let pool_before = dex.get_pool(account(1), account(2), key.fee_tier).unwrap();
    assert_eq!(pool_before.liquidity, liquidity);
    let swap_amount = TokenAmount::new(660_900);
    let slippage = SqrtPrice::new(MIN_SQRT_PRICE);
    let quote = dex.quote(key, true, swap_amount, true, slippage, 1000).unwrap();
    let pool_after_quote = dex.get_pool(account(1), account(2), key.fee_tier).unwrap();
    assert_eq!(((pool_after_quote.current_tick_index - pool_before.current_tick_index) / 10).abs(), 0);
    assert_eq!(quote.ticks.len(), 128);
    dex.swap(key, true, swap_amount, true, slippage, 1000).unwrap();
    let pool_after = dex.get_pool(account(1), account(2), key.fee_tier).unwrap();
    assert_eq!(((pool_after.current_tick_index - pool_before.current_tick_index) / 10).abs(), 128);
    assert_eq!(pool_after.current_tick_index, get_tick_at_sqrt_price(quote.target_sqrt_price, 10).unwrap());
}

#[test]
fn test_withdraw_fee_not_deployer() {
    let (mut dex, key) = basic_pool_after_swap();
    let bob = account(0xB0);
    dex.change_fee_receiver(account(0xA1), key, bob).unwrap();
    let pool = dex.get_pool(account(1), account(2), key.fee_tier).unwrap();
    assert_eq!(pool.fee_receiver, bob);
    assert_eq!(dex.withdraw_protocol_fee(bob, key), Ok((TokenAmount(1), TokenAmount(0))));
    let pool = dex.get_pool(account(1), account(2), key.fee_tier).unwrap();
    assert_eq!(pool.fee_protocol_token_x, TokenAmount::new(0));
    assert_eq!(pool.fee_protocol_token_y, TokenAmount::new(0));
}
