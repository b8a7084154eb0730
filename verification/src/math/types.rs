//! Fixed-point number types.
pub mod fee_growth;
pub mod fixed_point;
pub mod liquidity;
pub mod percentage;
pub mod sqrt_price;
pub mod sqrt_price_bound;
pub use crate::math::src::types::token_amount;
