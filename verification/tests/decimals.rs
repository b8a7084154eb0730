use invariant_protocol::math::consts::pow10_u128;
use invariant_protocol::math::contract::Contract;
use invariant_protocol::math::src::types::decimal_examplex::DecimalExampleX;
use invariant_protocol::math::types::fee_growth::FeeGrowth;
use invariant_protocol::math::types::fixed_point::FixedPoint;
use invariant_protocol::math::types::liquidity::Liquidity;
use invariant_protocol::math::types::percentage::Percentage;
use invariant_protocol::math::types::sqrt_price::SqrtPrice;
use invariant_protocol::math::uint::U256;

#[test]
fn percentage_scales() {
    assert_eq!(Percentage::one().get(), 1_000_000_000_000);
    assert_eq!(Percentage::from_integer(3).get(), 3_000_000_000_000);
    assert_eq!(Percentage::from_scale(5, 1).get(), 500_000_000_000);
    assert_eq!(Percentage::from_scale(2, 4).get(), 200_000_000);
    assert_eq!(Percentage::from_scale(123_456, 15).get(), 123);
    assert_eq!(Percentage::new(7).get(), 7);
}

#[test]
fn liquidity_and_price_scales() {
    assert_eq!(Liquidity::one().get(), 1_000_000);
    assert_eq!(Liquidity::from_integer(42).get(), 42_000_000);
    assert!(Liquidity::new(0).is_zero());
    assert_eq!(SqrtPrice::one().get(), 1_000_000_000_000_000_000_000_000);
    assert_eq!(SqrtPrice::almost_one().get(), 999_999_999_999_999_999_999_999);
    assert_eq!(SqrtPrice::from_integer(5).get(), 5_000_000_000_000_000_000_000_000);
    assert_eq!(SqrtPrice::from_scale(15, 1).get(), 1_500_000_000_000_000_000_000_000);
    assert_eq!(pow10_u128(30), 1_000_000_000_000_000_000_000_000_000_000);
    assert_eq!(FeeGrowth::new(9).get(), 9);
    assert_eq!(DecimalExampleX::new(11).get(), 11);
    assert_eq!(Contract::new(), Contract {});
    Contract::new().message();
}

#[test]
fn fixed_point_multiplication() {
    let one = FixedPoint::one();
    let two_and_half = FixedPoint::new(U256::from_u128(2_500_000_000_000_000_000_000_000));
    let third = FixedPoint::new(U256::from_u128(333_333_333_333_333_333_333_333));
    assert_eq!(one.mul(two_and_half), two_and_half);
    assert_eq!(
        two_and_half.mul(third).get(),
        U256::from_u128(833_333_333_333_333_333_333_332)
    );
    assert_eq!(
        FixedPoint::new(U256::from_u128(3)).mul(FixedPoint::new(U256::from_u128(3))).get(),
        U256::from_u128(0)
    );
}

#[test]
fn sqrt_price_from_scale_past_its_scale() {
    assert_eq!(SqrtPrice::from_scale(123_456_789, 26).get(), 1_234_567);
    assert_eq!(SqrtPrice::from_scale(u128::MAX, 255).get(), 0);
}
