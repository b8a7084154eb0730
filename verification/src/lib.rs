//! Concentrated-liquidity AMM core: fixed-point price math, ticks and the
//! tick map, positions, the swap loop, and the contract's state machine with
//! the laws it keeps.
pub mod contracts;
pub mod laws;
pub mod payouts;
pub mod protocol;
pub mod swap;
pub mod math;
