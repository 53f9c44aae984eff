//! Block data availability helpers: metrics of block work, the data lookup
//! index of a block, and the Kate commitment helpers over the block matrix.
pub mod metrics;
pub mod ext_cache;
pub mod rpc;
pub mod data_lookup;
pub mod kate;
pub mod weights;
pub mod pallet;
