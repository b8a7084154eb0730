//! Decimal types with a `u128` or `u64` representation.
pub mod decimal_examplex;
pub mod fixed_point;
pub mod liquidity;
pub mod percentage;
pub mod token_amount;
