//! Sizes used by the Kate commitment scheme.
use vstd::prelude::*;

verus! {

/// Bytes read to make one scalar of the data matrix.
pub const SCALAR_SIZE_WIDE: usize = 64;
/// Bytes of an encoded scalar.
pub const SCALAR_SIZE: usize = 32;
/// Bytes of block data that fit in one scalar below the field modulus.
pub const CHUNK_SIZE: usize = 31;
/// How many times the rows of the data matrix are extended.
pub const EXTENSION_FACTOR: usize = 2;
/// Bytes of an encoded row commitment.
pub const PROVER_KEY_SIZE: usize = 48;
/// Bytes of an encoded witness commitment.
pub const PROOF_SIZE: usize = 48;
/// The most cells a proof query is meant to ask for.
pub const MAX_PROOFS_REQUEST: usize = 30;
/// The smallest block size, in bytes.
pub const MINIMUM_BLOCK_SIZE: usize = 256;
/// The most rows a block's data matrix may have.
pub const MAX_BLOCK_ROWS: u32 = 256;
/// The most columns a block's data matrix may have.
pub const MAX_BLOCK_COLUMNS: u32 = 256;

} // verus!
