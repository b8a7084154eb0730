//! Contract data: accounts, fee tiers, pool keys, pools, ticks, the tick map and the
//! collections the contract keeps them in.
pub mod account;
pub mod collections;
pub mod errors;
pub mod position;
pub mod storage;
pub mod tick;
pub mod tickmap;

pub use account::AccountId;
pub use collections::{FeeTiers, PoolKeys, Pools};
pub use errors::InvariantError;
pub use storage::{FeeTier, InvariantConfig, Pool, PoolKey};
