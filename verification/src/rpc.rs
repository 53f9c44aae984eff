//! The Kate RPC's proof query over a cache of extended block data, and the
//! errors it reports with the numbers they are reported under.
use vstd::prelude::*;
use lru::LruCache;
use crate::ext_cache::{
    cached_view, ext_cache_capacity, ext_cache_contains, ext_cache_contents, ext_cache_get, ext_cache_order,
    ext_cache_put, move_to_front, new_ext_cache, order_lists, CachedExt,
};
use crate::kate::com::{
    bytes_view, cell_proofs, cells_provable, slots_sized, extend_data_matrix, extended_matrix, flatten_and_pad_block,
    flatten_bytes, is_padded_block, padded_from, prove_cells, proofs_of, lemma_cell_proof_slot, BlockDimensions, Cell,
};
use crate::kate::crypto::{all_canonical, be_nat, commit_key_available, params_well_sized, trim_public_params};

verus! {

/// Error type of the Kate RPC.
#[derive(Debug, Clone, Copy, PartialEq, Eq, Structural)]
pub enum Error {
    /// The transaction was not decodable.
    DecodeError,
    /// The call to runtime failed.
    RuntimeError,
}

/// The server error code that an RPC error is reported under.
pub open spec fn error_code(e: Error) -> i64 {
    match e {
        Error::RuntimeError => 1,
        Error::DecodeError => 2,
    }
}

impl From<Error> for i64 {
    fn from(e: Error) -> (code: i64) {
        match e {
            Error::RuntimeError => 1,
            Error::DecodeError => 2,
        }
    }
}

impl vstd::std_specs::convert::FromSpecImpl<Error> for i64 {
    open spec fn obeys_from_spec() -> bool {
        true
    }

    open spec fn from_spec(e: Error) -> i64 {
        error_code(e)
    }
}

/// The two errors are reported under different codes, so a client can tell
/// them apart.
pub proof fn lemma_error_codes_distinct(a: Error, b: Error)
    ensures
        error_code(a) == error_code(b) <==> a == b,
{
}

/// The block number that a query names, given by its big-endian digits in
/// base 256 (as a hex number or a plain number comes in). Block numbers are
/// 32-bit: a larger number is a decode error.
pub fn decode_block_number(digits: &[u8]) -> (res: Result<u32, Error>)
    ensures
        be_nat(digits@) <= u32::MAX ==> res == Ok::<u32, Error>(be_nat(digits@) as u32),
        be_nat(digits@) > u32::MAX ==> res == Err::<u32, Error>(Error::DecodeError),
{
    let mut acc: u32 = 0;
    let mut fits = true;
    let mut i: usize = 0;
    while i < digits.len()
        invariant
            i <= digits@.len(),
            fits <==> be_nat(digits@.subrange(0, i as int)) <= u32::MAX,
            fits ==> acc == be_nat(digits@.subrange(0, i as int)),
        decreases digits@.len() - i,
    {
        let ghost prefix = digits@.subrange(0, i as int);
        let ghost next = digits@.subrange(0, i + 1);
        proof {
            assert(next.drop_last() =~= prefix);
            assert(next.last() == digits@[i as int]);
            assert(be_nat(next) == be_nat(prefix) * 256 + digits@[i as int] as nat);
        }
        if fits {
            let wide: u64 = (acc as u64) * 256 + (digits[i] as u64);
            if wide <= 0xffff_ffff {
                acc = wide as u32;
            } else {
                fits = false;
            }
        }
        i += 1;
    }
    proof {
        assert(digits@.subrange(0, digits@.len() as int) =~= digits@);
    }
    if fits {
        Ok(acc)
    } else {
        Err(Error::DecodeError)
    }
}

/// How many blocks' extended data the RPC keeps.
pub const BLOCK_EXT_CACHE_SIZE: usize = 2048;

/// A block whose cells are queried, as the node's client gives it: its
/// hash, its parent's hash, its extrinsics (encoded), and the dimensions of
/// the data matrix the runtime asks for.
pub struct ProofQueryBlock {
    pub hash: [u8; 32],
    pub parent_hash: [u8; 32],
    pub extrinsics: Vec<Vec<u8>>,
    pub dims: BlockDimensions,
}

/// The dimensions a cached block was built with.
pub open spec fn entry_dims(e: (Seq<Seq<u8>>, usize, usize, usize)) -> BlockDimensions {
    BlockDimensions { rows: e.1, cols: e.2, chunk_size: e.3 }
}

/// Whether a cached block is an extended matrix of its dimensions.
pub open spec fn entry_ok(e: (Seq<Seq<u8>>, usize, usize, usize)) -> bool {
    &&& entry_dims(e).well_formed()
    &&& e.0.len() == entry_dims(e).extended_rows() * entry_dims(e).cols
    &&& all_canonical(e.0)
}

/// The answer to a proof query for `cells` from the cached block `e`: the
/// proofs of the cells against its extended matrix, with its dimensions.
pub open spec fn cached_answer(params: Seq<u8>, e: (Seq<Seq<u8>>, usize, usize, usize), cells: Seq<Cell>) -> Seq<u8> {
    cell_proofs(params, entry_dims(e), e.0, cells)
}

/// What a proof query of block `b` for `cells` leaves and answers, given the
/// cache before (`before`) and after (`after`) it: the block is then
/// cached; the answer is the proofs from its cached entry when the key
/// commits to the witness of every cell inside the matrix, and a runtime
/// error otherwise; a cache that already held the block is left as it was.
pub open spec fn query_outcome(
    before: Map<Seq<u8>, (Seq<Seq<u8>>, usize, usize, usize)>,
    b: ProofQueryBlock,
    params: Seq<u8>,
    cells: Seq<Cell>,
    after: Map<Seq<u8>, (Seq<Seq<u8>>, usize, usize, usize)>,
    res: Result<Vec<u8>, Error>,
) -> bool {
    let e = after[b.hash@];
    &&& after.dom().contains(b.hash@)
    &&& res is Ok <==> cells_provable(entry_dims(e), e.0, cells)
    &&& res matches Ok(v) ==> v@ == cached_answer(params, e, cells) && slots_sized(params, entry_dims(e), e.0, cells)
    &&& res is Err ==> res == Err::<Vec<u8>, Error>(Error::RuntimeError)
    &&& before.dom().contains(b.hash@) ==> after == before
}

/// Everything a proof query states, given the cache before and after it:
/// with no block, a runtime error and the cache as it was; with a block,
/// `query_outcome`, and, where the block was not cached, the cache then
/// holds the extended matrix of a padded block of its extrinsics under its
/// hash, with its dimensions, and every other entry it holds it held before.
pub open spec fn query_proof_post(
    before: Map<Seq<u8>, (Seq<Seq<u8>>, usize, usize, usize)>,
    block: Option<ProofQueryBlock>,
    params: Seq<u8>,
    cells: Seq<Cell>,
    after: Map<Seq<u8>, (Seq<Seq<u8>>, usize, usize, usize)>,
    res: Result<Vec<u8>, Error>,
) -> bool {
    match block {
        None => res == Err::<Vec<u8>, Error>(Error::RuntimeError) && after == before,
        Some(b) => {
            &&& query_outcome(before, b, params, cells, after, res)
            &&& !before.dom().contains(b.hash@) ==> exists|data: Seq<u8>|
                #[trigger] padded_from(b.dims, bytes_view(b.extrinsics@), b.parent_hash@, data) && after[b.hash@] == (
                    extended_matrix(b.dims, data),
                    b.dims.rows,
                    b.dims.cols,
                    b.dims.chunk_size,
                )
            &&& forall|k: Seq<u8>|
                #[trigger] after.dom().contains(k) && k != b.hash@ ==> before.dom().contains(k) && after[k]
                    == before[k]
        },
    }
}

/// How a proof query of `block` changes which blocks are the most and the
/// least recently queried: the queried block becomes the most recent, and
/// where it was not cached and the cache was full, the least recently
/// queried block is the one dropped.
pub open spec fn recency_after(
    before_order: Seq<Seq<u8>>,
    before: Map<Seq<u8>, (Seq<Seq<u8>>, usize, usize, usize)>,
    block: Option<ProofQueryBlock>,
    after_order: Seq<Seq<u8>>,
    after: Map<Seq<u8>, (Seq<Seq<u8>>, usize, usize, usize)>,
) -> bool {
    block matches Some(b) ==> {
        &&& after_order.len() > 0 && after_order[0] == b.hash@
        &&& !before.dom().contains(b.hash@) && before.dom().len() == BLOCK_EXT_CACHE_SIZE ==> {
            &&& before.dom().contains(before_order.last())
            &&& !after.dom().contains(before_order.last())
        }
    }
}

/// A query of a block that was not cached answers what `build_proof`
/// states for the same extrinsics, dimensions and cells with the block's
/// parent hash as the header hash: the proofs over the extended matrix of
/// the block padded from the generator seeded with the parent hash (a
/// runtime error where `build_proof` gives `None`).
pub proof fn lemma_query_answers_as_build_proof(
    before: Map<Seq<u8>, (Seq<Seq<u8>>, usize, usize, usize)>,
    b: ProofQueryBlock,
    params: Seq<u8>,
    cells: Seq<Cell>,
    after: Map<Seq<u8>, (Seq<Seq<u8>>, usize, usize, usize)>,
    res: Result<Vec<u8>, Error>,
)
    requires
        query_proof_post(before, Some(b), params, cells, after, res),
        !before.dom().contains(b.hash@),
    ensures
        exists|data: Seq<u8>|
            padded_from(b.dims, bytes_view(b.extrinsics@), b.parent_hash@, data) && proofs_of(
                params,
                b.dims,
                data,
                cells,
                res.ok(),
            ),
{
    let data = choose|data: Seq<u8>|
        #[trigger] padded_from(b.dims, bytes_view(b.extrinsics@), b.parent_hash@, data) && after[b.hash@] == (
            extended_matrix(b.dims, data),
            b.dims.rows,
            b.dims.cols,
            b.dims.chunk_size,
        );
    let e = after[b.hash@];
    assert(entry_dims(e) == b.dims);
    if res is Ok && cells.len() > 0 {
        lemma_cell_proof_slot(params, b.dims, e.0, cells, 0);
    }
    if res is Ok && cells.len() == 0 {
        assert(cell_proofs(params, b.dims, e.0, cells) == Seq::<u8>::empty());
    }
    assert(proofs_of(params, b.dims, data, cells, res.ok()));
}

/// Asking twice in a row for the same cells of the same block gives the
/// same answer, and the second query leaves the cache as the first left it.
pub proof fn lemma_repeated_query_same_answer(
    c0: Map<Seq<u8>, (Seq<Seq<u8>>, usize, usize, usize)>,
    c1: Map<Seq<u8>, (Seq<Seq<u8>>, usize, usize, usize)>,
    c2: Map<Seq<u8>, (Seq<Seq<u8>>, usize, usize, usize)>,
    b: ProofQueryBlock,
    params: Seq<u8>,
    cells: Seq<Cell>,
    r1: Result<Vec<u8>, Error>,
    r2: Result<Vec<u8>, Error>,
)
    requires
        query_outcome(c0, b, params, cells, c1, r1),
        query_outcome(c1, b, params, cells, c2, r2),
    ensures
        c2 == c1,
        r1 is Ok <==> r2 is Ok,
        r1 matches Ok(v1) ==> (r2 matches Ok(v2) && v1@ == v2@),
        r1 is Err ==> r1 == r2,
{
}

/// The dimensions the proof query of `b` uses: those the block was cached
/// with, else those asked for now.
pub open spec fn query_dims(cached: Map<Seq<u8>, (Seq<Seq<u8>>, usize, usize, usize)>, b: ProofQueryBlock) -> BlockDimensions {
    if cached.dom().contains(b.hash@) {
        entry_dims(cached[b.hash@])
    } else {
        b.dims
    }
}

/// Whether the block can be queried: if it is not cached, its dimensions
/// are well formed and its extrinsics fit in it.
pub open spec fn query_block_ok(cached: Map<Seq<u8>, (Seq<Seq<u8>>, usize, usize, usize)>, b: ProofQueryBlock) -> bool {
    !cached.dom().contains(b.hash@) ==> {
        &&& b.dims.well_formed()
        &&& flatten_bytes(bytes_view(b.extrinsics@)).len() <= b.dims.block_size()
    }
}

/// The Kate RPC: the extended data matrix of recently queried blocks.
pub struct Kate {
    block_ext_cache: LruCache<[u8; 32], CachedExt>,
}

impl Kate {
    /// Whether the cache is finite, of the RPC's size, and holds only
    /// extended matrices of their dimensions.
    pub closed spec fn well_formed(self) -> bool {
        let m = ext_cache_contents(self.block_ext_cache);
        &&& m.dom().finite()
        &&& ext_cache_capacity(self.block_ext_cache) == BLOCK_EXT_CACHE_SIZE
        &&& m.dom().len() <= BLOCK_EXT_CACHE_SIZE
        &&& order_lists(ext_cache_order(self.block_ext_cache), m.dom())
        &&& forall|k: Seq<u8>| #[trigger] m.dom().contains(k) ==> entry_ok(m[k])
    }

    /// How many blocks the cache holds at most.
    pub closed spec fn capacity(self) -> nat {
        ext_cache_capacity(self.block_ext_cache)
    }

    /// The hashes of the cached blocks, from the most to the least recently
    /// queried.
    pub closed spec fn recency(self) -> Seq<Seq<u8>> {
        ext_cache_order(self.block_ext_cache)
    }

    /// The cached blocks, by hash.
    pub closed spec fn cached(self) -> Map<Seq<u8>, (Seq<Seq<u8>>, usize, usize, usize)> {
        ext_cache_contents(self.block_ext_cache)
    }

    /// A Kate RPC with nothing cached.
    pub fn new() -> (res: Self)
        ensures
            res.well_formed(),
            res.capacity() == BLOCK_EXT_CACHE_SIZE,
            res.cached() == Map::<Seq<u8>, (Seq<Seq<u8>>, usize, usize, usize)>::empty(),
    {
        let block_ext_cache = new_ext_cache(BLOCK_EXT_CACHE_SIZE);
        Kate { block_ext_cache }
    }

    /// Whether the extended data of the block with `hash` is cached.
    pub fn is_cached(&self, hash: &[u8; 32]) -> (res: bool)
        ensures
            res == self.cached().dom().contains(hash@),
    {
        ext_cache_contains(&self.block_ext_cache, hash)
    }

    /// The cache never holds more blocks than its size.
    pub proof fn lemma_cache_bounded(self)
        requires
            self.well_formed(),
        ensures
            self.capacity() == BLOCK_EXT_CACHE_SIZE,
            self.cached().dom().finite(),
            self.cached().dom().len() <= self.capacity(),
            self.recency().no_duplicates(),
            forall|k: Seq<u8>| self.cached().dom().contains(k) <==> self.recency().contains(k),
    {
    }

    /// Answers a proof query for `cells` of `block` (`None` when the client
    /// has no such block, which is reported as a runtime error). The block's
    /// extended data matrix is built and cached unless it is cached already,
    /// and the cells are proved against the cached matrix with the public
    /// parameters trimmed to its column count; where the key does not commit
    /// to the witness of a cell, that is reported as a runtime error too.
    pub fn query_proof(&mut self, block: Option<ProofQueryBlock>, public_params: &Vec<u8>, cells: Vec<Cell>) -> (res:
        Result<Vec<u8>, Error>)
        requires
            old(self).well_formed(),
            block matches Some(b) ==> params_well_sized(public_params@) && query_block_ok(old(self).cached(), b)
                && commit_key_available(public_params@, query_dims(old(self).cached(), b).cols as nat),
        ensures
            final(self).well_formed(),
            query_proof_post(old(self).cached(), block, public_params@, cells@, final(self).cached(), res),
            recency_after(old(self).recency(), old(self).cached(), block, final(self).recency(), final(self).cached()),
    {
        let b = match block {
            Some(b) => b,
            None => return Err(Error::RuntimeError),
        };
        let ghost before = ext_cache_contents(self.block_ext_cache);
        let ghost mut data: Seq<u8> = Seq::empty();
        if !ext_cache_contains(&self.block_ext_cache, &b.hash) {
            // build block data extension and cache it
            let padded = flatten_and_pad_block(b.dims, &b.extrinsics, &b.parent_hash);
            let ext = extend_data_matrix(b.dims, &padded);
            proof {
                data = padded@;
            }
            let entry: CachedExt = (ext, b.dims.rows, b.dims.cols, b.dims.chunk_size);
            ext_cache_put(&mut self.block_ext_cache, b.hash, entry);
            proof {
                let after = ext_cache_contents(self.block_ext_cache);
                assert(after.dom().contains(b.hash@));
                if before.dom().contains(b.hash@) || before.dom().len() < BLOCK_EXT_CACHE_SIZE {
                    assert(after == before.insert(b.hash@, cached_view(entry)));
                    assert(after.dom() == before.dom().insert(b.hash@));
                } else {
                    let o = ext_cache_order(old(self).block_ext_cache);
                    let evicted = o.last();
                    if o.len() == 0 {
                        assert(before.dom() =~= Set::<Seq<u8>>::empty());
                    }
                    assert(o.contains(evicted));
                    assert(before.dom().contains(evicted));
                    assert(after == before.remove(evicted).insert(b.hash@, cached_view(entry)));
                    assert(after.dom() == before.dom().remove(evicted).insert(b.hash@));
                }
                assert forall|k: Seq<u8>| #[trigger] after.dom().contains(k) implies entry_ok(after[k]) by {
                    if k != b.hash@ {
                        assert(before.dom().contains(k));
                    }
                }
                assert(padded_from(b.dims, bytes_view(b.extrinsics@), b.parent_hash@, data));
            }
        }
        let cached = ext_cache_get(&mut self.block_ext_cache, &b.hash);
        match cached {
            Some(entry) => {
                let dims = BlockDimensions { rows: entry.1, cols: entry.2, chunk_size: entry.3 };
                proof {
                    let m = ext_cache_contents(self.block_ext_cache);
                    assert(m.dom().contains(b.hash@));
                    assert(entry_ok(m[b.hash@]));
                }
                match trim_public_params(public_params, dims.cols) {
                    Some(key) => match prove_cells(&key, dims, &entry.0, &cells) {
                        Some(v) => Ok(v),
                        None => Err(Error::RuntimeError),
                    },
                    None => Err(Error::RuntimeError),
                }
            },
            None => Err(Error::RuntimeError),
        }
    }

    /// `query_proof`, or `None` (with nothing cached) when the public
    /// parameters do not give a commit key of the column count the query
    /// would use.
    pub fn query_proof_checked(&mut self, block: Option<ProofQueryBlock>, public_params: &Vec<u8>, cells: Vec<Cell>) -> (res:
        Option<Result<Vec<u8>, Error>>)
        requires
            old(self).well_formed(),
            block matches Some(b) ==> params_well_sized(public_params@) && query_block_ok(old(self).cached(), b),
        ensures
            final(self).well_formed(),
            res is None <==> (block matches Some(b) && !commit_key_available(
                public_params@,
                query_dims(old(self).cached(), b).cols as nat,
            )),
            res is None ==> final(self).cached() == old(self).cached(),
            res matches Some(r) ==> query_proof_post(
                old(self).cached(),
                block,
                public_params@,
                cells@,
                final(self).cached(),
                r,
            ),
            res is Some ==> recency_after(
                old(self).recency(),
                old(self).cached(),
                block,
                final(self).recency(),
                final(self).cached(),
            ),
    {
        let cols = match &block {
            Some(b) => {
                if ext_cache_contains(&self.block_ext_cache, &b.hash) {
                    match ext_cache_get(&mut self.block_ext_cache, &b.hash) {
                        Some(entry) => entry.2,
                        None => b.dims.cols,
                    }
                } else {
                    b.dims.cols
                }
            },
            None => 0,
        };
        if block.is_some() {
            match trim_public_params(public_params, cols) {
                Some(_) => {},
                None => return None,
            }
        }
        Some(self.query_proof(block, public_params, cells))
    }
}

} // verus!
