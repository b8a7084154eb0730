//! Fixed-point arithmetic, tick / square-root-price conversions.
pub mod clamm;
pub mod consts;
pub mod contract;
pub mod error;
pub mod src;
pub mod types;
pub mod uint;
pub mod wide;
pub mod log;
pub mod log_bounds;
