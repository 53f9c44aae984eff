//! Checks made by the data availability pallet before it stores a block
//! length proposal.
use vstd::prelude::*;

verus! {

/// Chunk size of a proposed block length, in bytes.
pub const BLOCK_CHUNK_SIZE: u32 = 32;

/// Errors of the pallet.
#[derive(Debug, Clone, Copy, PartialEq, Eq, Structural)]
pub enum Error {
    /// Application key already exist.
    ApplicationKeyExists,
    /// The queried key does not exist
    KeyDoesNotExist,
    /// Block normal ratio is greater than 100%
    RatioOutOfBounds,
    RatioTooSmall,
    BlockDimensionsOutOfBounds,
    BlockDimensionsTooSmall,
    ChunkSizeOutOfBounds,
    ChunkSizeToSmall,
}

/// How many bytes of submitted data one database write is charged for.
pub const DATA_BYTES_PER_WRITE: u64 = 200_000;

/// The number of database writes charged for `data_len` bytes of submitted
/// data: `data_len / 200000`, rounded up.
pub open spec fn data_writes(data_len: nat) -> nat {
    ((data_len + DATA_BYTES_PER_WRITE - 1) / DATA_BYTES_PER_WRITE as int) as nat
}

/// `x * y`, or `u64::MAX` where that does not fit.
pub open spec fn saturating_mul(x: nat, y: nat) -> nat {
    if x * y > u64::MAX { u64::MAX as nat } else { x * y }
}

/// `x + y`, or `u64::MAX` where that does not fit.
pub open spec fn saturating_add(x: nat, y: nat) -> nat {
    if x + y > u64::MAX { u64::MAX as nat } else { x + y }
}

/// The weight of submitting `data_len` bytes of data: one database read and
/// `ceil(data_len / 200000)` database writes, at the given costs, saturating.
pub open spec fn submit_data_weight_spec(data_len: nat, db_read: u64, db_write: u64) -> nat {
    saturating_add(saturating_mul(db_read as nat, 1), saturating_mul(db_write as nat, data_writes(data_len)))
}

/// The number of database writes that submitting `data_len` bytes is charged.
pub fn submit_data_writes(data_len: usize) -> (res: u64)
    ensures
        res == data_writes(data_len as nat),
        res * DATA_BYTES_PER_WRITE >= data_len,
        data_len > 0 ==> (res - 1) * DATA_BYTES_PER_WRITE < data_len,
{
    let len = data_len as u64;
    let whole = len / DATA_BYTES_PER_WRITE;
    let res = if len % DATA_BYTES_PER_WRITE == 0 { whole } else { whole + 1 };
    proof {
        assert(res == data_writes(data_len as nat)) by (nonlinear_arith)
            requires
                whole == len / 200_000,
                res == (if len % 200_000 == 0 { whole as int } else { whole + 1 }),
                len == data_len,
        ;
        assert(res * 200_000 >= len) by (nonlinear_arith)
            requires
                whole == len / 200_000,
                res == (if len % 200_000 == 0 { whole as int } else { whole + 1 }),
        ;
        assert(len > 0 ==> (res - 1) * 200_000 < len) by (nonlinear_arith)
            requires
                whole == len / 200_000,
                res == (if len % 200_000 == 0 { whole as int } else { whole + 1 }),
        ;
    }
    res
}

/// The weight of `submit_data` on `data_len` bytes: one database read and
/// `ceil(data_len / 200000)` writes at the runtime's database costs, each
/// product and the sum saturating at `u64::MAX`.
pub fn submit_data_weight(data_len: usize, db_read: u64, db_write: u64) -> (res: u64)
    ensures
        res == submit_data_weight_spec(data_len as nat, db_read, db_write),
{
    let writes = submit_data_writes(data_len);
    let read_weight: u64 = match db_read.checked_mul(1) {
        Some(w) => w,
        None => u64::MAX,
    };
    let write_weight: u64 = match db_write.checked_mul(writes) {
        Some(w) => w,
        None => u64::MAX,
    };
    read_weight.saturating_add(write_weight)
}

/// The outcome of checking proposed block dimensions: the rows are checked
/// first (at most 1024, at least 32), then the columns (at most 256, at
/// least 32).
pub open spec fn block_length_proposal_outcome(rows: u32, cols: u32) -> Result<(), Error> {
    if rows > 1024 {
        Err(Error::BlockDimensionsOutOfBounds)
    } else if rows < 32 {
        Err(Error::BlockDimensionsTooSmall)
    } else if cols > 256 {
        Err(Error::BlockDimensionsOutOfBounds)
    } else if cols < 32 {
        Err(Error::BlockDimensionsTooSmall)
    } else {
        Ok(())
    }
}

/// Checks proposed block dimensions as `submit_block_length_proposal`
/// does before storing them.
pub fn check_block_length_proposal(rows: u32, cols: u32) -> (res: Result<(), Error>)
    ensures
        res == block_length_proposal_outcome(rows, cols),
        res is Ok <==> (32 <= rows <= 1024 && 32 <= cols <= 256),
{
    if rows > 1024 {
        return Err(Error::BlockDimensionsOutOfBounds);
    }
    if rows < 32 {
        return Err(Error::BlockDimensionsTooSmall);
    }
    if cols > 256 {
        return Err(Error::BlockDimensionsOutOfBounds);
    }
    if cols < 32 {
        return Err(Error::BlockDimensionsTooSmall);
    }
    Ok(())
}

/// Checks that an application key is new as `create_application_key` does,
/// given the id the key already has (0 when it has none).
pub fn check_application_key_is_new(existing_id: u32) -> (res: Result<(), Error>)
    ensures
        res is Ok <==> existing_id == 0,
        res matches Err(e) ==> e == Error::ApplicationKeyExists,
{
    if existing_id == 0 {
        Ok(())
    } else {
        Err(Error::ApplicationKeyExists)
    }
}

} // verus!
