//! Kate commitments over the data matrix of a block.
pub mod bits;
pub mod crypto;
pub mod config;
pub mod com;
