use invariant_protocol::math::error::MathError;
use invariant_protocol::math::types::token_amount::TokenAmount;
use invariant_protocol::math::types::sqrt_price::SqrtPrice;
use invariant_protocol::math::uint::U256;

const ONE: u128 = 1_000000_000000_000000_000000;

fn two_pow(e: u32) -> U256 {
    if e < 128 {
        U256::from_u128(1u128 << e)
    } else {
        U256::from_halves(1u128 << (e - 128), 0)
    }
}

#[test]
fn big_div_values_to_token_values() {
    assert_eq!(
        SqrtPrice::big_div_values_to_token(U256::from_u128(123456789 * ONE), U256::from_u128(7 * ONE)),
        Ok(TokenAmount(17636684142857142857142857142857))
    );
    assert_eq!(SqrtPrice::big_div_values_to_token(two_pow(200), U256::from_u128(1)), Err(MathError::Cast));
    assert_eq!(SqrtPrice::big_div_values_to_token(two_pow(130), U256::from_u128(ONE)), Err(MathError::Cast));
    assert_eq!(SqrtPrice::big_div_values_to_token(U256::from_u128(5), U256::from_u128(0)), Err(MathError::Div));
}

#[test]
fn big_div_values_to_token_up_values() {
    assert_eq!(
        SqrtPrice::big_div_values_to_token_up(U256::from_u128(1), U256::from_u128(3)),
        Ok(TokenAmount(333333333333333333333334))
    );
    assert_eq!(
        SqrtPrice::big_div_values_to_token_up(U256::from_u128(123456789 * ONE), U256::from_u128(7 * ONE)),
        Ok(TokenAmount(17636684142857142857142857142858))
    );
    assert_eq!(SqrtPrice::big_div_values_to_token_up(two_pow(130), U256::from_u128(ONE)), Err(MathError::Cast));
}

#[test]
fn big_div_values_up_values() {
    assert_eq!(
        SqrtPrice::big_div_values_up(U256::from_u128(1), U256::from_u128(3)),
        SqrtPrice::new(333333333333333333333334)
    );
    assert_eq!(
        SqrtPrice::big_div_values_up(U256::from_u128(10_000_000_000), U256::from_u128(7)),
        SqrtPrice::new(1428571428571428571428571428571429)
    );
    assert_eq!(
        SqrtPrice::big_div_values_up(U256::from_u128(6), U256::from_u128(3)),
        SqrtPrice::new(2 * ONE)
    );
}

#[test]
fn checked_big_div_values_values() {
    assert_eq!(
        SqrtPrice::checked_big_div_values(U256::from_u128(1), U256::from_u128(3)),
        Ok(SqrtPrice::new(333333333333333333333333))
    );
    assert_eq!(
        SqrtPrice::checked_big_div_values(U256::from_u128(10_000_000_000), U256::from_u128(7)),
        Ok(SqrtPrice::new(1428571428571428571428571428571428))
    );
    assert_eq!(SqrtPrice::checked_big_div_values(two_pow(200), U256::from_u128(1)), Err(MathError::Mul));
    assert_eq!(SqrtPrice::checked_big_div_values(U256::from_u128(1), U256::from_u128(0)), Err(MathError::Div));
    assert_eq!(SqrtPrice::checked_big_div_values(two_pow(120), U256::from_u128(1)), Err(MathError::Cast));
}

#[test]
fn checked_big_div_values_up_values() {
    assert_eq!(
        SqrtPrice::checked_big_div_values_up(U256::from_u128(1), U256::from_u128(3)),
        Ok(SqrtPrice::new(333333333333333333333334))
    );
    assert_eq!(SqrtPrice::checked_big_div_values_up(U256::from_u128(1), U256::from_u128(0)), Err(MathError::Sub));
    assert_eq!(SqrtPrice::checked_big_div_values_up(two_pow(250), U256::from_u128(1)), Err(MathError::Mul));
    assert_eq!(SqrtPrice::checked_big_div_values_up(two_pow(200), U256::from_u128(1)), Err(MathError::Cast));
    let near_limit = U256::from_halves(
        6277101735386680763835789423207666,
        141592294392019867132469563800533998029,
    );
    assert_eq!(SqrtPrice::checked_big_div_values_up(near_limit, two_pow(255)), Err(MathError::Add));
}

#[test]
fn u256_arithmetic() {
    let a = U256::from_halves(1, 5);
    let b = U256::from_u128(7);
    assert_eq!(a.checked_add(&b), Some(U256::from_halves(1, 12)));
    assert_eq!(a.checked_sub(&b), Some(U256::from_halves(0, u128::MAX - 1)));
    assert_eq!(b.checked_sub(&a), None);
    assert_eq!(a.checked_mul(&b), Some(U256::from_halves(7, 35)));
    assert_eq!(two_pow(128).checked_mul(&two_pow(128)), None);
    assert_eq!(U256::from_halves(u128::MAX, u128::MAX).checked_add(&U256::from_u128(1)), None);
    assert_eq!(a.to_u128(), None);
    assert_eq!(b.to_u128(), Some(7));
    assert_eq!(U256::from_halves(0, 100).div_u128(7), U256::from_u128(14));
    assert_eq!(two_pow(200).checked_div(&two_pow(100)), Some(two_pow(100)));
    assert_eq!(b.checked_div(&U256::from_u128(0)), None);
    assert!(U256::from_u128(0).is_zero());
}

#[test]
fn rounded_up_amount_exceeds_rounded_down_by_one_when_inexact() {
    let cases = [(1u128, 3u128), (6, 3), (123456789, 7), (10, 1_000_000_000_000_000_000_000_000), (7, 2)];
    for (n, d) in cases {
        let down = SqrtPrice::big_div_values_to_token(U256::from_u128(n), U256::from_u128(d)).unwrap().get();
        let up = SqrtPrice::big_div_values_to_token_up(U256::from_u128(n), U256::from_u128(d)).unwrap().get();
        let exact = (n * ONE) % d == 0;
        assert_eq!(up, down + if exact { 0 } else { 1 });
    }
}
