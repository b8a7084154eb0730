use invariant_protocol::contracts::{AccountId, FeeTier, InvariantError, PoolKey};
use invariant_protocol::math::types::percentage::Percentage;
use invariant_protocol::math::types::sqrt_price::{calculate_sqrt_price, SqrtPrice};
use invariant_protocol::protocol::Invariant;

fn alice() -> AccountId {
    AccountId::from_bytes([0xAA; 32])
}

fn bob() -> AccountId {
    AccountId::from_bytes([0xBB; 32])
}

fn create_dex(protocol_fee: Percentage) -> Invariant {
    Invariant::new(alice(), protocol_fee)
}

fn create_tokens() -> (AccountId, AccountId) {
    (AccountId::from_bytes([0x10; 32]), AccountId::from_bytes([0x20; 32]))
}

#[test]
fn initialize_works() {
    let _ = Invariant::new(alice(), Percentage::new(0));
}

#[test]
fn test_add_pool() {
    let mut contract = Invariant::new(alice(), Percentage::new(0));
    let token_0 = AccountId::from_bytes([0x01; 32]);
    let token_1 = AccountId::from_bytes([0x02; 32]);
    let fee_tier = FeeTier { fee: Percentage::new(1), tick_spacing: 1 };

    let init_sqrt_price = calculate_sqrt_price(0).unwrap();

    contract.add_fee_tier(alice(), fee_tier).unwrap();

    let result = contract.create_pool(
        token_0,
        token_1,
        FeeTier { fee: Percentage::new(1), tick_spacing: 1 },
        init_sqrt_price,
        0,
        0,
    );
    assert!(result.is_ok());
    let result = contract.create_pool(
        token_1,
        token_0,
        FeeTier { fee: Percentage::new(1), tick_spacing: 1 },
        init_sqrt_price,
        0,
        0,
    );
    assert_eq!(result, Err(InvariantError::PoolAlreadyExist));
}

#[test]
fn test_get_pool() {
    let mut contract = Invariant::new(alice(), Percentage::new(0));
    let token_0 = AccountId::from_bytes([0x01; 32]);
    let token_1 = AccountId::from_bytes([0x02; 32]);
    let init_sqrt_price = calculate_sqrt_price(0).unwrap();
    let result = contract.get_pool(token_1, token_0, FeeTier { fee: Percentage::new(1), tick_spacing: 1 });
    assert_eq!(result, Err(InvariantError::PoolNotFound));

    let fee_tier = FeeTier { fee: Percentage::new(1), tick_spacing: 1 };

    contract.add_fee_tier(alice(), fee_tier).unwrap();

    let result = contract.create_pool(token_0, token_1, fee_tier, init_sqrt_price, 0, 0);
    assert!(result.is_ok());
    let result = contract.get_pool(token_1, token_0, FeeTier { fee: Percentage::new(1), tick_spacing: 1 });
    assert!(result.is_ok());
}

#[test]
fn test_fee_tiers() {
    let mut contract = Invariant::new(alice(), Percentage::new(0));
    let fee_tier = FeeTier::new(Percentage::new(1), 10u16).unwrap();
    let fee_tier_value = FeeTier { fee: Percentage::new(1), tick_spacing: 10u16 };

    contract.add_fee_tier(alice(), fee_tier_value).unwrap();
    assert_eq!(contract.get_fee_tiers().len(), 1);
    contract.add_fee_tier(alice(), fee_tier_value).unwrap_err();
    contract.remove_fee_tier(alice(), fee_tier).unwrap();
    assert_eq!(contract.get_fee_tiers().len(), 0);
}

#[test]
fn add_multiple_fee_tiers() {
    let admin = alice();
    let mut dex = create_dex(Percentage::new(0));

    let first_fee_tier = FeeTier::new(Percentage::from_scale(2, 4), 1).unwrap();
    dex.add_fee_tier(admin, first_fee_tier).unwrap();
    let second_fee_tier = FeeTier::new(Percentage::from_scale(2, 4), 2).unwrap();
    dex.add_fee_tier(admin, second_fee_tier).unwrap();
    let third_fee_tier = FeeTier::new(Percentage::from_scale(2, 4), 4).unwrap();
    dex.add_fee_tier(admin, third_fee_tier).unwrap();

    assert!(dex.fee_tier_exist(FeeTier::new(Percentage::from_scale(2, 4), 1u16).unwrap()));
    assert!(dex.fee_tier_exist(FeeTier::new(Percentage::from_scale(2, 4), 2u16).unwrap()));
    assert!(dex.fee_tier_exist(FeeTier::new(Percentage::from_scale(2, 4), 4u16).unwrap()));

    let fee_tiers = dex.get_fee_tiers();
    assert_eq!(fee_tiers.len(), 3);
    assert_eq!(fee_tiers[0], first_fee_tier);
    assert_eq!(fee_tiers[1], second_fee_tier);
    assert_eq!(fee_tiers[2], third_fee_tier);
}

#[test]
#[should_panic]
fn add_existing_fee_tier() {
    let admin = alice();
    let mut dex = create_dex(Percentage::new(0));
    let fee_tier = FeeTier::new(Percentage::from_scale(2, 4), 1).unwrap();
    dex.add_fee_tier(admin, fee_tier).unwrap();
    let fee_tier = FeeTier::new(Percentage::from_scale(2, 4), 1).unwrap();
    dex.add_fee_tier(admin, fee_tier).unwrap();
}

#[test]
#[should_panic]
fn add_fee_tier_not_admin() {
    let user = bob();
    let mut dex = create_dex(Percentage::new(0));
    let fee_tier = FeeTier::new(Percentage::from_scale(2, 4), 1).unwrap();
    dex.add_fee_tier(user, fee_tier).unwrap();
}

#[test]
fn add_fee_tier_zero_fee() {
    let admin = alice();
    let mut dex = create_dex(Percentage::new(0));
    let fee_tier = FeeTier::new(Percentage::new(0), 10).unwrap();
    dex.add_fee_tier(admin, fee_tier).unwrap();
}

#[test]
#[should_panic]
fn add_fee_tier_tick_spacing_zero() {
    let admin = alice();
    let mut dex = create_dex(Percentage::new(0));
    let fee_tier = FeeTier::new(Percentage::from_scale(2, 4), 0).unwrap();
    dex.add_fee_tier(admin, fee_tier).unwrap();
}

#[test]
fn change_protocol_fee() {
    let mut contract = create_dex(Percentage::new(0));
    let protocol_fee = contract.get_protocol_fee();
    assert_eq!(protocol_fee, Percentage::new(0));
    contract.change_protocol_fee(alice(), Percentage::new(1)).expect("changing protocol fee failed");
    let protocol_fee = contract.get_protocol_fee();
    assert_eq!(protocol_fee, Percentage::new(1));
}

#[test]
#[should_panic]
fn change_protocol_fee_should_panic() {
    let mut contract = create_dex(Percentage::new(0));
    contract.change_protocol_fee(bob(), Percentage::new(1)).expect("changing protocol fee failed");
}

#[test]
fn constructor_constructor_test() {
    let _contract = Invariant::new(alice(), Percentage::new(0));
}

#[test]
fn add_fee_tier_test() {
    let mut dex = create_dex(Percentage::new(0));
    let fee_tier = FeeTier::new(Percentage::new(0), 10u16).unwrap();
    let _ = dex.add_fee_tier(alice(), fee_tier);
    let fee_tier = dex.fee_tier_exist(FeeTier::new(Percentage::new(0), 10).unwrap());
    assert!(fee_tier);
}

#[test]
fn fee_tier_test() {
    let mut dex = create_dex(Percentage::new(0));
    let fee_tier = FeeTier::new(Percentage::from_scale(5, 1), 100).unwrap();
    let result = dex.add_fee_tier(alice(), fee_tier);
    assert!(result.is_ok());
}

#[test]
#[should_panic]
fn invalid_spacing_fee_tier_test() {
    let mut dex = create_dex(Percentage::new(0));
    // 0 tick spacing | should fail
    let fee_tier = FeeTier::new(Percentage::from_scale(5, 1), 0).unwrap();
    let _ = dex.add_fee_tier(alice(), fee_tier);
}

#[test]
#[should_panic]
fn non_admin_fee_tier_caller_test() {
    let mut dex = create_dex(Percentage::new(0));
    let fee_tier = FeeTier::new(Percentage::from_scale(5, 1), 10).unwrap();
    dex.add_fee_tier(bob(), fee_tier).unwrap();
}

#[test]
fn create_standard_fee_tier_test() {
    let mut dex = create_dex(Percentage::new(0));
    let standard = [
        (1u64, 4u8, 1u16),
        (5, 4, 5),
        (1, 3, 10),
        (3, 3, 30),
        (1, 2, 100),
        (5, 2, 100),
        (1, 1, 100),
        (5, 1, 100),
    ];
    for (n, s, spacing) in standard {
        let _ = dex.add_fee_tier(alice(), FeeTier { fee: Percentage::from_scale(n, s), tick_spacing: spacing });
    }
    let fee_tier = dex.fee_tier_exist(FeeTier::new(Percentage::from_scale(5, 2), 100).unwrap());
    assert!(fee_tier);
}

#[test]
fn remove_fee_tier_test() {
    let admin = alice();
    let mut dex = create_dex(Percentage::new(0));
    let fee_tier = FeeTier::new(Percentage::from_scale(2, 4), 1).unwrap();
    let _ = dex.add_fee_tier(admin, fee_tier);
    let fee_tier = FeeTier::new(Percentage::from_scale(2, 4), 2).unwrap();
    let _ = dex.add_fee_tier(admin, fee_tier);
    let _ = dex.remove_fee_tier(admin, fee_tier);
    let exist = dex.fee_tier_exist(FeeTier::new(Percentage::from_scale(2, 4), 2).unwrap());
    assert!(!exist);
}

#[test]
#[should_panic]
fn remove_not_existing_fee_tier() {
    let admin = alice();
    let mut dex = create_dex(Percentage::new(0));
    let fee_tier = FeeTier::new(Percentage::from_scale(2, 4), 1).unwrap();
    let _ = dex.add_fee_tier(admin, fee_tier);
    let fee_tier = FeeTier::new(Percentage::from_scale(2, 4), 2).unwrap();
    dex.remove_fee_tier(admin, fee_tier).unwrap();
}

#[test]
#[should_panic]
fn remove_fee_tier_not_admin() {
    let admin = alice();
    let user = bob();
    let mut dex = create_dex(Percentage::new(0));
    let fee_tier = FeeTier::new(Percentage::from_scale(2, 4), 1).unwrap();
    let _ = dex.add_fee_tier(admin, fee_tier);
    let fee_tier = FeeTier::new(Percentage::from_scale(2, 4), 2).unwrap();
    let _ = dex.add_fee_tier(admin, fee_tier);
    dex.remove_fee_tier(user, fee_tier).unwrap();
}

#[test]
fn test_add_multiple_fee_tiers() {
    let admin = alice();
    let mut dex = create_dex(Percentage::new(0));
    let first_fee_tier = FeeTier::new(Percentage::from_scale(2, 4), 1).unwrap();
    dex.add_fee_tier(admin, first_fee_tier).unwrap();
    let second_fee_tier = FeeTier::new(Percentage::from_scale(2, 4), 2).unwrap();
    dex.add_fee_tier(admin, second_fee_tier).unwrap();
    let third_fee_tier = FeeTier::new(Percentage::from_scale(2, 4), 4).unwrap();
    dex.add_fee_tier(admin, third_fee_tier).unwrap();
    assert!(dex.fee_tier_exist(FeeTier::new(Percentage::from_scale(2, 4), 1u16).unwrap()));
    assert!(dex.fee_tier_exist(FeeTier::new(Percentage::from_scale(2, 4), 2u16).unwrap()));
    assert!(dex.fee_tier_exist(FeeTier::new(Percentage::from_scale(2, 4), 4u16).unwrap()));
    let fee_tiers = dex.get_fee_tiers();
    assert_eq!(fee_tiers.len(), 3);
    assert_eq!(fee_tiers[0], first_fee_tier);
    assert_eq!(fee_tiers[1], second_fee_tier);
    assert_eq!(fee_tiers[2], third_fee_tier);
}

#[test]
fn test_add_existing_fee_tier() {
    let admin = alice();
    let mut dex = create_dex(Percentage::new(0));
    let fee_tier = FeeTier::new(Percentage::from_scale(2, 4), 1).unwrap();
    dex.add_fee_tier(admin, fee_tier).unwrap();
    let fee_tier = FeeTier::new(Percentage::from_scale(2, 4), 1).unwrap();
    let result = dex.add_fee_tier(admin, fee_tier);
    assert_eq!(result, Err(InvariantError::FeeTierAlreadyExist));
}

#[test]
fn test_add_fee_tier_not_admin() {
    let user = bob();
    let mut dex = create_dex(Percentage::new(0));
    let fee_tier = FeeTier::new(Percentage::from_scale(2, 4), 1).unwrap();
    let result = dex.add_fee_tier(user, fee_tier);
    assert_eq!(result, Err(InvariantError::NotAdmin));
}

#[test]
fn test_add_fee_tier_zero_fee() {
    let admin = alice();
    let mut dex = create_dex(Percentage::new(0));
    let fee_tier = FeeTier::new(Percentage::new(0), 10).unwrap();
    dex.add_fee_tier(admin, fee_tier).unwrap();
}

#[test]
fn test_add_fee_tier_tick_spacing_zero() {
    let admin = alice();
    let mut dex = create_dex(Percentage::new(0));
    let fee_tier = FeeTier { fee: Percentage::from_scale(2, 4), tick_spacing: 0 };
    let result = dex.add_fee_tier(admin, fee_tier);
    assert_eq!(result, Err(InvariantError::InvalidTickSpacing));
}

#[test]
fn test_add_fee_tier_over_upper_bound_tick_spacing() {
    let admin = alice();
    let mut dex = create_dex(Percentage::new(0));
    let fee_tier = FeeTier { fee: Percentage::from_scale(2, 4), tick_spacing: 101 };
    let result = dex.add_fee_tier(admin, fee_tier);
    assert_eq!(result, Err(InvariantError::InvalidTickSpacing));
}

#[test]
fn test_add_fee_tier_fee_above_limit() {
    let admin = alice();
    let mut dex = create_dex(Percentage::new(0));
    let fee_tier = FeeTier { fee: Percentage::from_integer(1), tick_spacing: 10 };
    let result = dex.add_fee_tier(admin, fee_tier);
    assert_eq!(result, Err(InvariantError::InvalidFee));
}

#[test]
fn test_change_fee_reciever() {
    let mut dex = create_dex(Percentage::new(0));
    let (token_x, token_y) = create_tokens();
    let fee_tier = FeeTier::new(Percentage::from_scale(5, 1), 1).unwrap();
    let init_tick = 0;
    let init_sqrt_price = calculate_sqrt_price(init_tick).unwrap();
    dex.add_fee_tier(alice(), fee_tier).unwrap();
    let result = dex.create_pool(token_x, token_y, fee_tier, init_sqrt_price, init_tick, 0);
    assert!(result.is_ok());
    let admin = alice();
    let receiver = AccountId::from_bytes([0xCC; 32]);
    let pool_key = PoolKey::new(token_x, token_y, fee_tier).unwrap();
    dex.change_fee_receiver(admin, pool_key, receiver).unwrap();
    let pool = dex.get_pool(token_x, token_y, fee_tier).unwrap();
    assert_eq!(pool.fee_receiver, receiver);
}

#[test]
fn test_not_admin_change_fee_reciever() {
    let mut dex = create_dex(Percentage::new(0));
    let (token_x, token_y) = create_tokens();
    let fee_tier = FeeTier::new(Percentage::from_scale(5, 1), 100).unwrap();
    let init_tick = 0;
    let init_sqrt_price = calculate_sqrt_price(init_tick).unwrap();
    dex.add_fee_tier(alice(), fee_tier).unwrap();
    let result = dex.create_pool(token_x, token_y, fee_tier, init_sqrt_price, init_tick, 0);
    assert!(result.is_ok());
    let user = bob();
    let pool_key = PoolKey::new(token_x, token_y, fee_tier).unwrap();
    let result = dex.change_fee_receiver(user, pool_key, bob());
    assert_eq!(result, Err(InvariantError::NotAdmin));
}

#[test]
fn test_change_protocol_fee() {
    let mut contract = create_dex(Percentage::new(0));
    let protocol_fee = contract.get_protocol_fee();
    assert_eq!(protocol_fee, Percentage::new(0));
    contract.change_protocol_fee(alice(), Percentage::new(1)).unwrap();
    let protocol_fee = contract.get_protocol_fee();
    assert_eq!(protocol_fee, Percentage::new(1));
}

#[test]
fn test_change_protocol_fee_not_admin() {
    let mut contract = create_dex(Percentage::new(0));
    let result = contract.change_protocol_fee(bob(), Percentage::new(1));
    assert_eq!(result, Err(InvariantError::NotAdmin));
}

#[test]
fn test_constructor() {
    let contract = Invariant::new(alice(), Percentage::new(0));
    assert_eq!(contract.get_protocol_fee(), Percentage::new(0));
}

#[test]
fn test_create_pool() {
    let mut dex = create_dex(Percentage::new(0));
    let (token_x, token_y) = create_tokens();
    let fee_tier = FeeTier::new(Percentage::from_scale(5, 1), 100).unwrap();
    let init_tick = 0;
    let init_sqrt_price = calculate_sqrt_price(init_tick).unwrap();
    dex.add_fee_tier(alice(), fee_tier).unwrap();
    let result = dex.create_pool(token_x, token_y, fee_tier, init_sqrt_price, init_tick, 0);
    assert!(result.is_ok());
    dex.get_pool(token_x, token_y, fee_tier).unwrap();
}

#[test]
fn test_create_pool_x_to_y_and_y_to_x() {
    let mut dex = create_dex(Percentage::new(0));
    let (token_x, token_y) = create_tokens();
    let fee_tier = FeeTier::new(Percentage::from_scale(5, 1), 100).unwrap();
    let init_tick = 0;
    let init_sqrt_price = calculate_sqrt_price(init_tick).unwrap();
    dex.add_fee_tier(alice(), fee_tier).unwrap();
    dex.create_pool(token_x, token_y, fee_tier, init_sqrt_price, init_tick, 0).unwrap();
    dex.get_pool(token_x, token_y, fee_tier).unwrap();
    let result = dex.create_pool(token_y, token_x, fee_tier, init_sqrt_price, init_tick, 0);
    assert_eq!(result, Err(InvariantError::PoolAlreadyExist));
}

#[test]
fn test_create_pool_with_same_tokens() {
    let mut dex = create_dex(Percentage::new(0));
    let (token_x, _) = create_tokens();
    let fee_tier = FeeTier::new(Percentage::from_scale(5, 1), 100).unwrap();
    let init_tick = 0;
    let init_sqrt_price = calculate_sqrt_price(init_tick).unwrap();
    dex.add_fee_tier(alice(), fee_tier).unwrap();
    let result = dex.create_pool(token_x, token_x, fee_tier, init_sqrt_price, init_tick, 0);
    assert_eq!(result, Err(InvariantError::TokensAreSame));
}

#[test]
fn test_create_pool_fee_tier_not_added() {
    let mut dex = create_dex(Percentage::new(0));
    let (token_x, token_y) = create_tokens();
    let fee_tier = FeeTier::new(Percentage::from_scale(5, 1), 100).unwrap();
    let init_tick = 0;
    let init_sqrt_price = calculate_sqrt_price(init_tick).unwrap();
    let result = dex.create_pool(token_x, token_y, fee_tier, init_sqrt_price, init_tick, 0);
    assert_eq!(result, Err(InvariantError::FeeTierNotFound));
}

#[test]
fn test_create_pool_init_tick_not_divided_by_tick_spacing() {
    let mut dex = create_dex(Percentage::new(0));
    let (token_x, token_y) = create_tokens();
    let fee_tier = FeeTier::new(Percentage::from_scale(5, 1), 3).unwrap();
    let init_tick = 2;
    let init_sqrt_price = calculate_sqrt_price(init_tick).unwrap();
    dex.add_fee_tier(alice(), fee_tier).unwrap();
    let result = dex.create_pool(token_x, token_y, fee_tier, init_sqrt_price, init_tick, 0);
    assert_eq!(result, Err(InvariantError::InvalidInitTick));
}

#[test]
fn test_create_pool_init_sqrt_price_minimal_difference_from_tick() {
    let mut dex = create_dex(Percentage::new(0));
    let (token_x, token_y) = create_tokens();
    let fee_tier = FeeTier::new(Percentage::from_scale(5, 1), 3).unwrap();
    let init_tick = 0;
    let init_sqrt_price = SqrtPrice::new(calculate_sqrt_price(init_tick).unwrap().get() + 1);
    dex.add_fee_tier(alice(), fee_tier).unwrap();
    dex.create_pool(token_x, token_y, fee_tier, init_sqrt_price, init_tick, 0).unwrap();
    let pool = dex.get_pool(token_x, token_y, fee_tier).unwrap();
    assert_eq!(pool.current_tick_index, init_tick);
}

#[test]
fn test_create_pool_init_sqrt_price_has_closer_init_tick() {
    let mut dex = create_dex(Percentage::new(0));
    let (token_x, token_y) = create_tokens();
    let fee_tier = FeeTier::new(Percentage::from_scale(5, 1), 1).unwrap();
    let init_tick = 2;
    // tick = 3 -> 1.000150003749000000000000
    // between  -> 1.000175003749000000000000
    // tick = 4 -> 1.000200010000000000000000
    let init_sqrt_price = SqrtPrice::new(1000175003749000000000000);
    dex.add_fee_tier(alice(), fee_tier).unwrap();
    let result = dex.create_pool(token_x, token_y, fee_tier, init_sqrt_price, init_tick, 0);
    assert_eq!(result, Err(InvariantError::InvalidInitSqrtPrice));
    let correct_init_tick = 3;
    dex.create_pool(token_x, token_y, fee_tier, init_sqrt_price, correct_init_tick, 0).unwrap();
    let pool = dex.get_pool(token_x, token_y, fee_tier).unwrap();
    assert_eq!(pool.current_tick_index, correct_init_tick);
}

#[test]
fn test_create_pool_init_sqrt_price_has_closer_init_tick_spacing_over_one() {
    let mut dex = create_dex(Percentage::new(0));
    let (token_x, token_y) = create_tokens();
    let fee_tier = FeeTier::new(Percentage::from_scale(5, 1), 3).unwrap();
    let init_tick = 0;
    // tick = 3 -> 1.000150003749000000000000
    // between  -> 1.000225003749000000000000
    // tick = 6 -> 1.000300030001000000000000
    let init_sqrt_price = SqrtPrice::new(1000225003749000000000000);
    dex.add_fee_tier(alice(), fee_tier).unwrap();
    let result = dex.create_pool(token_x, token_y, fee_tier, init_sqrt_price, init_tick, 0);
    assert_eq!(result, Err(InvariantError::InvalidInitSqrtPrice));
    let correct_init_tick = 3;
    dex.create_pool(token_x, token_y, fee_tier, init_sqrt_price, correct_init_tick, 0).unwrap();
    let pool = dex.get_pool(token_x, token_y, fee_tier).unwrap();
    assert_eq!(pool.current_tick_index, correct_init_tick);
}

#[test]
fn test_create_many_pools_success() {
    let mut dex = create_dex(Percentage::new(0));
    let fee_tier = FeeTier::new(Percentage::from_scale(5, 1), 100).unwrap();
    let init_tick = 0;
    let init_sqrt_price = calculate_sqrt_price(init_tick).unwrap();
    dex.add_fee_tier(alice(), fee_tier).unwrap();
    let amount_of_pools_to_create = 1000u32;
    for i in 0..amount_of_pools_to_create {
        let mut bytes_x = [0u8; 32];
        bytes_x[..4].copy_from_slice(&(2 * i).to_be_bytes());
        let mut bytes_y = [0u8; 32];
        bytes_y[..4].copy_from_slice(&(2 * i + 1).to_be_bytes());
        let token_x = AccountId::from_bytes(bytes_x);
        let token_y = AccountId::from_bytes(bytes_y);
        let result = dex.create_pool(token_x, token_y, fee_tier, init_sqrt_price, init_tick, 0);
        assert!(result.is_ok());
        dex.get_pool(token_x, token_y, fee_tier).unwrap();
    }
}

#[test]
fn test_remove_fee_tier() {
    let admin = alice();
    let mut dex = create_dex(Percentage::new(0));
    let fee_tier = FeeTier::new(Percentage::from_scale(2, 4), 1).unwrap();
    dex.add_fee_tier(admin, fee_tier).unwrap();
    let fee_tier = FeeTier::new(Percentage::from_scale(2, 4), 2).unwrap();
    dex.add_fee_tier(admin, fee_tier).unwrap();
    dex.remove_fee_tier(admin, fee_tier).unwrap();
    let exist = dex.fee_tier_exist(FeeTier::new(Percentage::from_scale(2, 4), 2).unwrap());
    assert!(!exist);
}

#[test]
fn test_remove_not_existing_fee_tier() {
    let admin = alice();
    let mut dex = create_dex(Percentage::new(0));
    let fee_tier = FeeTier::new(Percentage::from_scale(2, 4), 1).unwrap();
    dex.add_fee_tier(admin, fee_tier).unwrap();
    let fee_tier = FeeTier::new(Percentage::from_scale(2, 4), 2).unwrap();
    let result = dex.remove_fee_tier(admin, fee_tier);
    assert_eq!(result, Err(InvariantError::FeeTierNotFound));
}

#[test]
fn test_remove_fee_tier_not_admin() {
    let admin = alice();
    let user = bob();
    let mut dex = create_dex(Percentage::new(0));
    let fee_tier = FeeTier::new(Percentage::from_scale(2, 4), 1).unwrap();
    dex.add_fee_tier(admin, fee_tier).unwrap();
    let fee_tier = FeeTier::new(Percentage::from_scale(2, 4), 2).unwrap();
    dex.add_fee_tier(admin, fee_tier).unwrap();
    let result = dex.remove_fee_tier(user, fee_tier);
    assert_eq!(result, Err(InvariantError::NotAdmin));
}

#[test]
fn test_set_code_works() {
    let dex = create_dex(Percentage::new(0));
    let result = dex.set_code(alice());
    assert_eq!(result, Ok(()));
}

#[test]
fn test_set_code_not_admin() {
    let dex = create_dex(Percentage::new(0));
    let result = dex.set_code(bob());
    assert_eq!(result, Err(InvariantError::NotAdmin));
}
