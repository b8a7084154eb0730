//! Plain decimal types of the standalone math package.
pub mod types;
