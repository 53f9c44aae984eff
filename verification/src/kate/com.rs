//! The data matrix of a block and the Kate commitments and proofs over it.
//!
//! A block's data is flattened and padded to the block size, cut into
//! columns of `rows` cells of `chunk_size` bytes, each cell read (its first
//! 64 bytes) as a scalar; every column is then extended to twice as many
//! rows by an inverse FFT and an FFT over the twice larger domain. Each row
//! of the extended matrix is committed to, and a cell is proved against its
//! row's commitment.
use vstd::prelude::*;
use vstd::arithmetic::power2::*;
use vstd::arithmetic::mul::*;
use crate::kate::bits::{rev_bits, lemma_rev_bits_bound, lemma_rev_bits_involution};
use crate::kate::config::{EXTENSION_FACTOR, PROOF_SIZE, PROVER_KEY_SIZE, SCALAR_SIZE, SCALAR_SIZE_WIDE};
use crate::kate::crypto::{
    all_canonical, all_points_valid, commit, commit_key_available, domain_generator, domain_elements, domain_fft,
    domain_group_gen, domain_group_gen_inv, domain_ifft, domain_interpolate, domain_size_inv, evaluation_domain,
    fft, g1_add, g1_difference, g1_identity, g1_mul, g1_point_valid, g1_scaled, g1_sub, g1_sum, ifft,
    interpolate, is_canonical_scalar, kzg_commit, g1_compress, g1_compressed, g1_decompress, g1_decompressed,
    g1_identity_encoding, g1_valid, scalar_inv, le_bytes, lemma_le_bytes_roundtrip, lemma_scalar_modulus_fits,
    scalar_modulus, le_nat, lemma_scalar_pow_step, log_ceil, lemma_log_ceil_pow2,
    lemma_log_ceil_bound, trimmed_len, commit_degree_ok, key_max_degree, zero_scalar as zero_scalar_enc,
    next_random_byte, params_well_sized, reduce_wide_at, scalar_pow, scalars_view, seeded_rng, single_witness,
    trim_public_params, wide_reduce, ruffini_quotient, zero_scalar, zk_mul, zk_one, zk_pow, KateDomain, TrimmedKey,
};

pub use crate::kate::bits::bitreverse;

verus! {

/// A cell of the extended data matrix.
#[derive(Debug, Clone, Copy, PartialEq, Eq, Structural)]
pub struct Cell {
    pub row: u32,
    pub col: u32,
}

/// The shape of a block's data matrix: `rows` rows (before extension) and
/// `cols` columns of cells of `chunk_size` bytes.
#[derive(Debug, Clone, Copy, PartialEq, Eq, Structural)]
pub struct BlockDimensions {
    pub rows: usize,
    pub cols: usize,
    pub chunk_size: usize,
}

impl BlockDimensions {
    /// The rows of the extended matrix.
    pub open spec fn extended_rows(self) -> nat {
        (self.rows * 2) as nat
    }

    /// The bytes of a padded block.
    pub open spec fn block_size(self) -> nat {
        (self.rows * self.cols * self.chunk_size) as nat
    }

    /// Whether the data matrix can be built and extended: the row count is a
    /// power of two for which the row domain and the twice larger one exist,
    /// there is a column, a cell holds the 64 bytes a scalar is read from,
    /// and the block fits in memory.
    pub open spec fn extendable(self) -> bool {
        &&& exists|k: nat| k < 31 && #[trigger] pow2(k) == self.rows
        &&& self.cols >= 1
        &&& self.chunk_size >= 64
        &&& self.block_size() <= usize::MAX
    }

    /// Whether commitments and proofs can be built over the matrix: it can be
    /// extended, and the evaluation domain of the columns, of size
    /// `cols.next_power_of_two()`, exists.
    pub open spec fn well_formed(self) -> bool {
        &&& self.extendable()
        &&& log_ceil(self.cols as nat) < 32
    }

    /// The size of the evaluation domain the rows are interpolated over:
    /// the smallest power of two that is at least the column count.
    pub open spec fn col_domain_size(self) -> nat {
        pow2(log_ceil(self.cols as nat))
    }
}

/// The concatenation of the byte strings in `xs`.
pub open spec fn flatten_bytes(xs: Seq<Seq<u8>>) -> Seq<u8>
    decreases xs.len(),
{
    if xs.len() == 0 {
        Seq::empty()
    } else {
        flatten_bytes(xs.drop_last()) + xs.last()
    }
}

/// The byte strings held by a vector of vectors.
pub open spec fn bytes_view(xs: Seq<Vec<u8>>) -> Seq<Seq<u8>> {
    xs.map_values(|v: Vec<u8>| v@)
}

/// Whether `block` is a padded block of `extrinsics`: the extrinsics'
/// bytes in order, then padding up to the block size.
pub open spec fn is_padded_block(dims: BlockDimensions, extrinsics: Seq<Seq<u8>>, block: Seq<u8>) -> bool {
    let data = flatten_bytes(extrinsics);
    &&& block.len() == dims.block_size()
    &&& data.len() <= block.len()
    &&& block.subrange(0, data.len() as int) == data
}

/// The products of the dimensions that the matrix code computes fit in a
/// `usize` when the dimensions are well formed.
proof fn lemma_dims_products(dims: BlockDimensions)
    requires
        dims.extendable(),
    ensures
        dims.rows >= 1,
        dims.cols >= 1,
        dims.rows * dims.cols <= dims.block_size(),
        dims.rows * dims.chunk_size <= dims.block_size(),
        dims.rows * 2 * dims.cols <= dims.block_size(),
        dims.rows * 64 <= dims.rows * dims.chunk_size,
        dims.rows <= 0x4000_0000,
{
    let k = choose|k: nat| k < 31 && #[trigger] pow2(k) == dims.rows;
    lemma_pow2_pos(k);
    lemma2_to64();
    if k < 30 {
        lemma_pow2_strictly_increases(k, 30);
    }
    let r = dims.rows as int;
    let c = dims.cols as int;
    let s = dims.chunk_size as int;
    assert(r * c <= r * c * s && r * s <= r * c * s && r * 2 * c <= r * c * s && r * 64 <= r * s) by (nonlinear_arith)
        requires
            r >= 1,
            c >= 1,
            s >= 64,
    ;
}

proof fn lemma_flatten_push(xs: Seq<Seq<u8>>, x: Seq<u8>)
    ensures
        flatten_bytes(xs.push(x)) == flatten_bytes(xs) + x,
{
    assert(xs.push(x).drop_last() =~= xs);
}

/// One draw of the generator: `next_random_byte` on `rng`, giving the
/// generator's next state and the byte drawn.
pub(crate) fn draw(rng: rand::rngs::StdRng) -> (res: (rand::rngs::StdRng, u8))
    ensures
        exists|m: &mut rand::rngs::StdRng| *m == rng && *final(m) == res.0 && call_ensures(next_random_byte, (m,), res.1),
{
    let mut r = rng;
    let next = next_random_byte;
    let b = next(&mut r);
    (r, b)
}

/// Whether `pad` is what the generator seeded with `seed` (`seeded_rng`,
/// byte `i` of the seed being byte `i` of `seed`) gives in `pad.len()`
/// successive draws: there are generator states, the first made by
/// `seeded_rng` from the seed, each draw going from one to the next and
/// giving the next byte of `pad`.
pub closed spec fn generator_gives(seed: Seq<u8>, pad: Seq<u8>) -> bool {
    exists|s: [u8; 32], states: Seq<rand::rngs::StdRng>|
        {
            &&& s@ == seed
            &&& states.len() == pad.len() + 1
            &&& call_ensures(seeded_rng, (s,), states[0])
            &&& forall|k: int| 0 <= k < pad.len() ==> #[trigger] call_ensures(draw, (states[k],), (states[k + 1], pad[k]))
        }
}

/// Whether `block` is the block of `extrinsics` padded with the generator
/// seeded by `header_hash`: the extrinsics' bytes, then, up to the block
/// size, the bytes the generator seeded with the hash gives, in order.
pub open spec fn padded_from(
    dims: BlockDimensions,
    extrinsics: Seq<Seq<u8>>,
    header_hash: Seq<u8>,
    block: Seq<u8>,
) -> bool {
    let data = flatten_bytes(extrinsics);
    &&& is_padded_block(dims, extrinsics, block)
    &&& data.len() < block.len() ==> generator_gives(header_hash, block.subrange(data.len() as int, block.len() as int))
}

/// A block padded from the generator seeded by `header_hash` is the block
/// size long, begins with the extrinsics' bytes, and the bytes after them
/// are exactly what the generator seeded with the hash gives, in order.
pub proof fn lemma_padded_block_layout(
    dims: BlockDimensions,
    extrinsics: Seq<Seq<u8>>,
    header_hash: Seq<u8>,
    block: Seq<u8>,
)
    requires
        padded_from(dims, extrinsics, header_hash, block),
    ensures
        block.len() == dims.block_size(),
        block.subrange(0, flatten_bytes(extrinsics).len() as int) == flatten_bytes(extrinsics),
        flatten_bytes(extrinsics).len() < dims.block_size() ==> generator_gives(
            header_hash,
            block.subrange(flatten_bytes(extrinsics).len() as int, dims.block_size() as int),
        ),
        flatten_bytes(extrinsics).len() == dims.block_size() ==> block == flatten_bytes(extrinsics),
{
    if flatten_bytes(extrinsics).len() == dims.block_size() {
        assert(block =~= block.subrange(0, flatten_bytes(extrinsics).len() as int));
    }
}

/// Byte `k` of the padding is the byte that the `k`-th draw gives of the
/// generator made by `seeded_rng` from the hash, byte for byte as given.
pub(crate) proof fn lemma_padding_draws(
    dims: BlockDimensions,
    extrinsics: Seq<Seq<u8>>,
    header_hash: Seq<u8>,
    block: Seq<u8>,
)
    requires
        padded_from(dims, extrinsics, header_hash, block),
        flatten_bytes(extrinsics).len() < block.len(),
    ensures
        exists|s: [u8; 32], states: Seq<rand::rngs::StdRng>|
            #![trigger call_ensures(seeded_rng, (s,), states[0])]
            {
                let l = flatten_bytes(extrinsics).len() as int;
                &&& s@ == header_hash
                &&& states.len() == block.len() - l + 1
                &&& call_ensures(seeded_rng, (s,), states[0])
                &&& forall|k: int|
                    0 <= k < block.len() - l ==> #[trigger] call_ensures(draw, (states[k],), (states[k + 1], block[l + k]))
            },
{
    let l = flatten_bytes(extrinsics).len() as int;
    let pad = block.subrange(l, block.len() as int);
    let (s, states) = choose|s: [u8; 32], states: Seq<rand::rngs::StdRng>|
        {
            &&& s@ == header_hash
            &&& states.len() == pad.len() + 1
            &&& call_ensures(seeded_rng, (s,), states[0])
            &&& forall|k: int| 0 <= k < pad.len() ==> #[trigger] call_ensures(draw, (states[k],), (states[k + 1], pad[k]))
        };
    assert forall|k: int| 0 <= k < block.len() - l implies #[trigger] call_ensures(
        draw,
        (states[k],),
        (states[k + 1], block[l + k]),
    ) by {
        assert(pad[k] == block[l + k]);
    }
}

/// Two blocks padded for the same extrinsics and header hash, as
/// `build_proof` and `build_commitments` use for the same inputs, agree: the
/// same length, the same extrinsics' bytes first, and after them the bytes
/// of the generator seeded with the same hash; where the data fill the
/// block they are the same block.
pub proof fn lemma_same_inputs_same_padding(
    dims: BlockDimensions,
    extrinsics: Seq<Seq<u8>>,
    header_hash: Seq<u8>,
    b1: Seq<u8>,
    b2: Seq<u8>,
)
    requires
        padded_from(dims, extrinsics, header_hash, b1),
        padded_from(dims, extrinsics, header_hash, b2),
    ensures
        b1.len() == b2.len(),
        b1.subrange(0, flatten_bytes(extrinsics).len() as int) == b2.subrange(0, flatten_bytes(extrinsics).len() as int),
        flatten_bytes(extrinsics).len() < b1.len() ==> generator_gives(
            header_hash,
            b1.subrange(flatten_bytes(extrinsics).len() as int, b1.len() as int),
        ) && generator_gives(header_hash, b2.subrange(flatten_bytes(extrinsics).len() as int, b2.len() as int)),
        flatten_bytes(extrinsics).len() == dims.block_size() ==> b1 == b2,
{
    lemma_padded_block_layout(dims, extrinsics, header_hash, b1);
    lemma_padded_block_layout(dims, extrinsics, header_hash, b2);
}

/// The bytes of a padded block, computed without overflow where it fits.
fn block_size_of(dims: BlockDimensions) -> (res: usize)
    requires
        dims.block_size() <= usize::MAX,
    ensures
        res == dims.block_size(),
{
    if dims.rows == 0 || dims.cols == 0 || dims.chunk_size == 0 {
        proof {
            assert(dims.rows * dims.cols * dims.chunk_size == 0) by (nonlinear_arith)
                requires
                    dims.rows == 0 || dims.cols == 0 || dims.chunk_size == 0,
            ;
        }
        0
    } else {
        proof {
            assert(dims.rows * dims.cols <= dims.rows * dims.cols * dims.chunk_size) by (nonlinear_arith)
                requires
                    dims.rows >= 1,
                    dims.cols >= 1,
                    dims.chunk_size >= 1,
            ;
        }
        dims.rows * dims.cols * dims.chunk_size
    }
}

/// Flattens the block's extrinsics and pads them to the block size with
/// bytes of a generator seeded by the header hash (which is read only when
/// there is padding to make).
pub fn flatten_and_pad_block(dims: BlockDimensions, extrinsics: &Vec<Vec<u8>>, header_hash: &[u8]) -> (res: Vec<u8>)
    requires
        header_hash@.len() == 32 || flatten_bytes(bytes_view(extrinsics@)).len() == dims.block_size(),
        flatten_bytes(bytes_view(extrinsics@)).len() <= dims.block_size(),
        dims.block_size() <= usize::MAX,
    ensures
        is_padded_block(dims, bytes_view(extrinsics@), res@),
        padded_from(dims, bytes_view(extrinsics@), header_hash@, res@),
{
    let ghost xs = bytes_view(extrinsics@);
    let max_block_size = block_size_of(dims);
    let mut block: Vec<u8> = Vec::new();
    let n = extrinsics.len();
    let mut i: usize = 0;
    while i < n
        invariant
            n == extrinsics@.len(),
            xs == bytes_view(extrinsics@),
            0 <= i <= n,
            block@ == flatten_bytes(xs.subrange(0, i as int)),
            flatten_bytes(xs).len() <= max_block_size,
            max_block_size == dims.block_size(),
        decreases n - i,
    {
        let xt = &extrinsics[i];
        let m = xt.len();
        let ghost before = block@;
        proof {
            assert(xs.subrange(0, i + 1) =~= xs.subrange(0, i as int).push(xt@));
            lemma_flatten_push(xs.subrange(0, i as int), xt@);
            lemma_flatten_prefix_len(xs, i + 1);
        }
        let mut j: usize = 0;
        while j < m
            invariant
                m == xt@.len(),
                0 <= j <= m,
                block@ == before + xt@.subrange(0, j as int),
                before.len() + m <= max_block_size,
                max_block_size <= usize::MAX,
            decreases m - j,
        {
            block.push(xt[j]);
            proof {
                assert(before + xt@.subrange(0, j + 1) =~= (before + xt@.subrange(0, j as int)).push(xt@[j as int]));
            }
            j += 1;
        }
        proof {
            assert(xt@.subrange(0, m as int) =~= xt@);
        }
        i += 1;
    }
    proof {
        assert(xs.subrange(0, n as int) =~= xs);
    }
    let ghost data = block@;
    let more_elems = max_block_size - block.len();
    if more_elems == 0 {
        proof {
            assert(block@.subrange(0, data.len() as int) =~= data);
        }
        return block;
    }
    let mut seed = [0u8; 32];
    let mut s: usize = 0;
    while s < 32
        invariant
            0 <= s <= 32,
            header_hash@.len() == 32,
            forall|x: int| 0 <= x < s ==> seed@[x] == header_hash@[x],
        decreases 32 - s,
    {
        seed[s] = header_hash[s];
        s += 1;
    }
    proof {
        assert(seed@ =~= header_hash@);
    }
    let make_rng = seeded_rng;
    let mut rng = make_rng(seed);
    let ghost mut states: Seq<rand::rngs::StdRng> = seq![rng];
    let mut k: usize = 0;
    while k < more_elems
        invariant
            0 <= k <= more_elems,
            more_elems == max_block_size - data.len(),
            block@.len() == data.len() + k,
            block@.subrange(0, data.len() as int) == data,
            max_block_size == dims.block_size(),
            seed@ == header_hash@,
            states.len() == k + 1,
            states[k as int] == rng,
            call_ensures(seeded_rng, (seed,), states[0]),
            forall|j: int|
                0 <= j < k ==> #[trigger] call_ensures(draw, (states[j],), (states[j + 1], block@[data.len() + j])),
        decreases more_elems - k,
    {
        let step = draw;
        let (next_rng, byte) = step(rng);
        rng = next_rng;
        let ghost prev = block@;
        block.push(byte);
        proof {
            states = states.push(rng);
            assert(block@.subrange(0, data.len() as int) =~= prev.subrange(0, data.len() as int));
            assert forall|j: int| 0 <= j < k + 1 implies #[trigger] call_ensures(
                draw,
                (states[j],),
                (states[j + 1], block@[data.len() + j]),
            ) by {
                if j < k {
                    assert(block@[data.len() + j] == prev[data.len() + j]);
                }
            }
        }
        k += 1;
    }
    proof {
        let pad = block@.subrange(data.len() as int, block@.len() as int);
        assert forall|j: int| 0 <= j < pad.len() implies #[trigger] call_ensures(draw, (states[j],), (states[j + 1], pad[j])) by {
            assert(pad[j] == block@[data.len() + j]);
        }
        assert(generator_gives(header_hash@, pad));
    }
    block
}

proof fn lemma_flatten_prefix_len(xs: Seq<Seq<u8>>, i: int)
    requires
        0 <= i <= xs.len(),
    ensures
        flatten_bytes(xs.subrange(0, i)).len() <= flatten_bytes(xs).len(),
    decreases xs.len(),
{
    if i < xs.len() {
        assert(xs.drop_last().subrange(0, i) =~= xs.subrange(0, i));
        lemma_flatten_prefix_len(xs.drop_last(), i);
    } else {
        assert(xs.subrange(0, i) =~= xs);
    }
}

/// `s` reordered so that position `k` holds what position
/// `rev_bits(k, log_n)` of `s` holds.
pub open spec fn bit_reversed<T>(s: Seq<T>, log_n: nat) -> Seq<T> {
    Seq::new(s.len(), |k: int| s[rev_bits(k as nat, log_n) as int])
}

/// Reordering by bit reversal twice gives back the sequence, and the
/// reordering moves every element to a position of the sequence.
pub proof fn lemma_bit_reversed_twice<T>(s: Seq<T>, log_n: nat)
    requires
        s.len() == pow2(log_n),
    ensures
        bit_reversed(bit_reversed(s, log_n), log_n) == s,
        forall|k: int| 0 <= k < s.len() ==> (#[trigger] rev_bits(k as nat, log_n)) < s.len(),
{
    assert forall|k: int| 0 <= k < s.len() implies (#[trigger] rev_bits(k as nat, log_n)) < s.len() by {
        lemma_rev_bits_bound(k as nat, log_n);
    }
    assert forall|k: int| 0 <= k < s.len() implies #[trigger] bit_reversed(bit_reversed(s, log_n), log_n)[k] == s[k] by {
        lemma_rev_bits_bound(k as nat, log_n);
        lemma_rev_bits_involution(k as nat, log_n);
    }
    assert(bit_reversed(bit_reversed(s, log_n), log_n) =~= s);
}

/// Reorders `a`, of `2^log_n` elements, so that position `k` holds what
/// position `bitreverse(k, log_n)` held: each pair of positions that are
/// each other's bit reversal is swapped once.
pub fn bit_reverse_permutation<T: Copy>(a: &mut Vec<T>, log_n: u32)
    requires
        log_n < 32,
        old(a).len() == pow2(log_n as nat),
    ensures
        final(a)@ == bit_reversed(old(a)@, log_n as nat),
{
    let ghost orig = a@;
    let n = a.len();
    proof {
        lemma2_to64();
        if log_n < 32 {
            lemma_pow2_strictly_increases(log_n as nat, 32);
        }
    }
    let mut k: usize = 0;
    while k < n
        invariant
            n == a@.len(),
            n == orig.len(),
            n == pow2(log_n as nat),
            n <= u32::MAX,
            log_n < 32,
            0 <= k <= n,
            forall|x: int|
                0 <= x < n ==> (#[trigger] a@[x]) == (if x < k || (rev_bits(x as nat, log_n as nat) as int) < k {
                    orig[rev_bits(x as nat, log_n as nat) as int]
                } else {
                    orig[x]
                }),
        decreases n - k,
    {
        let rk = bitreverse(k as u32, log_n) as usize;
        proof {
            lemma_rev_bits_bound(k as nat, log_n as nat);
            lemma_rev_bits_involution(k as nat, log_n as nat);
            assert forall|x: int| 0 <= x < n implies #[trigger] rev_bits(x as nat, log_n as nat) < n by {
                lemma_rev_bits_bound(x as nat, log_n as nat);
            }
            assert forall|x: int| 0 <= x < n implies rev_bits(#[trigger] rev_bits(x as nat, log_n as nat), log_n as nat) == x by {
                lemma_rev_bits_involution(x as nat, log_n as nat);
            }
        }
        if k < rk {
            let ak = a[k];
            let ark = a[rk];
            a.set(k, ark);
            a.set(rk, ak);
        }
        k += 1;
    }
    proof {
        assert(a@ =~= bit_reversed(orig, log_n as nat));
    }
}

/// The encodings held by a vector of G1 points.
pub open spec fn points_view(v: Seq<[u8; 96]>) -> Seq<Seq<u8>> {
    v.map_values(|p: [u8; 96]| p@)
}

/// What position `x` holds after a round of butterflies over blocks of
/// `2m` points with twiddle base `wm`. In the block starting at `k`, for
/// `j < m`, let `t = wm^j · s[k+j+m]`: position `k+j` gets `s[k+j] + t` and
/// position `k+j+m` gets `s[k+j] - t`.
pub open spec fn butterfly_at(s: Seq<Seq<u8>>, m: nat, wm: Seq<u8>, x: int) -> Seq<u8> {
    let off = x % ((2 * m) as int);
    if off < m {
        g1_sum(s[x], g1_scaled(s[x + m], scalar_pow(wm, off as nat)))
    } else {
        g1_difference(s[x - m], g1_scaled(s[x], scalar_pow(wm, (off - m) as nat)))
    }
}

/// A round of butterflies over blocks of `2m` points with twiddle base `wm`.
pub open spec fn butterfly_round(s: Seq<Seq<u8>>, m: nat, wm: Seq<u8>) -> Seq<Seq<u8>> {
    Seq::new(s.len(), |x: int| butterfly_at(s, m, wm, x))
}

/// The first `r` rounds of the radix-2 FFT of `2^log_n` points with root
/// `omega`: round `i` works on blocks of `2^(i+1)` points with twiddle base
/// `omega^(2^log_n / 2^(i+1))`.
pub open spec fn fft_rounds(s: Seq<Seq<u8>>, omega: Seq<u8>, log_n: nat, r: nat) -> Seq<Seq<u8>>
    decreases r,
{
    if r == 0 {
        s
    } else {
        let m = pow2((r - 1) as nat);
        butterfly_round(fft_rounds(s, omega, log_n, (r - 1) as nat), m, scalar_pow(omega, pow2(log_n) / (2 * m)))
    }
}

/// The in-place radix-2 FFT of the `2^log_n` G1 points `s` with root
/// `omega`: the points in bit-reversed order, then `log_n` rounds of
/// butterflies.
pub open spec fn radix2_fft(s: Seq<Seq<u8>>, omega: Seq<u8>, log_n: nat) -> Seq<Seq<u8>> {
    fft_rounds(bit_reversed(s, log_n), omega, log_n, log_n)
}

/// The rounds keep the number of points.
pub proof fn lemma_fft_rounds_len(s: Seq<Seq<u8>>, omega: Seq<u8>, log_n: nat, r: nat)
    ensures
        fft_rounds(s, omega, log_n, r).len() == s.len(),
    decreases r,
{
    if r > 0 {
        lemma_fft_rounds_len(s, omega, log_n, (r - 1) as nat);
    }
}

/// `(a^e)^j` is `a^(e·j)` in the scalar field.
pub proof fn lemma_scalar_pow_pow(a: Seq<u8>, e: nat, j: nat)
    ensures
        scalar_pow(scalar_pow(a, e), j) == scalar_pow(a, e * j),
{
    let r = scalar_modulus() as int;
    let l = le_nat(a) as int;
    let x = vstd::arithmetic::power::pow(l, e) % r;
    lemma_scalar_modulus_fits();
    lemma_le_bytes_roundtrip(x as nat, 32);
    vstd::arithmetic::power::lemma_pow_mod_noop(vstd::arithmetic::power::pow(l, e), j, r);
    vstd::arithmetic::power::lemma_pow_multiplies(l, e, j);
}

/// The twiddle factors of the radix-2 FFT: in round `r` (blocks of
/// `2m = 2^(r+1)` points), the butterfly at offset `j < m` of a block scales
/// its upper point by `omega^(j · 2^log_n / 2m)`, the root raised to the
/// offset times the number of blocks; the lower point gets the sum and the
/// upper the difference.
pub proof fn lemma_fft_round_twiddle(s: Seq<Seq<u8>>, omega: Seq<u8>, log_n: nat, r: nat, x: int)
    requires
        r < log_n,
        0 <= x < s.len(),
    ensures
        ({
            let m = pow2(r);
            let prev = fft_rounds(s, omega, log_n, r);
            let off = x % ((2 * m) as int);
            let blocks = pow2((log_n - r - 1) as nat);
            fft_rounds(s, omega, log_n, r + 1)[x] == if off < m {
                g1_sum(prev[x], g1_scaled(prev[x + m], scalar_pow(omega, off as nat * blocks)))
            } else {
                g1_difference(prev[x - m], g1_scaled(prev[x], scalar_pow(omega, (off - m) as nat * blocks)))
            }
        }),
{
    let m = pow2(r);
    let rest = (log_n - r - 1) as nat;
    lemma_fft_rounds_len(s, omega, log_n, r);
    lemma_pow2_adds(r, 1);
    lemma_pow2_adds(r + 1, rest);
    lemma2_to64();
    lemma_pow2_pos(r);
    lemma_pow2_pos(rest);
    assert(pow2(1) == 2);
    assert(pow2(log_n) == 2 * m * pow2(rest));
    assert(pow2(log_n) / (2 * m) == pow2(rest)) by (nonlinear_arith)
        requires
            pow2(log_n) == 2 * m * pow2(rest),
            m > 0,
    ;
    let off = x % ((2 * m) as int);
    if off < m {
        lemma_scalar_pow_pow(omega, pow2(rest), off as nat);
        assert(pow2(rest) * (off as nat) == (off as nat) * pow2(rest)) by (nonlinear_arith);
    } else {
        lemma_scalar_pow_pow(omega, pow2(rest), (off - m) as nat);
        assert(pow2(rest) * ((off - m) as nat) == ((off - m) as nat) * pow2(rest)) by (nonlinear_arith);
    }
}

/// Position `q * 2m + off`, for `off < 2m`, is at offset `off` of its block.
proof fn lemma_block_offset(q: nat, m: nat, off: nat)
    requires
        m >= 1,
        off < 2 * m,
    ensures
        ((q * (2 * m) + off) as int) % ((2 * m) as int) == off,
{
    vstd::arithmetic::div_mod::lemma_fundamental_div_mod_converse(
        (q * (2 * m) + off) as int,
        (2 * m) as int,
        q as int,
        off as int,
    );
}

/// An in-place radix-2 FFT over G1 points, given by their uncompressed
/// encodings, with root of unity `omega` (by its canonical encoding): the
/// bit-reversal reordering, then `log_n` rounds of butterflies. The number
/// of points must be `2^log_n`.
pub fn serial_fft(a: &mut Vec<[u8; 96]>, omega: &[u8; 32], log_n: u32)
    requires
        log_n < 32,
        old(a).len() == pow2(log_n as nat),
        all_points_valid(points_view(old(a)@)),
        is_canonical_scalar(omega@),
    ensures
        points_view(final(a)@) == radix2_fft(points_view(old(a)@), omega@, log_n as nat),
        all_points_valid(points_view(final(a)@)),
        final(a).len() == old(a).len(),
{
    proof {
        lemma2_to64();
        if log_n < 32 {
            lemma_pow2_strictly_increases(log_n as nat, 32);
        }
    }
    let ghost orig = a@;
    let n = a.len() as u32;
    bit_reverse_permutation(a, log_n);
    let ghost start = points_view(a@);
    proof {
        assert forall|x: int| 0 <= x < n implies g1_point_valid((#[trigger] a@[x])@) by {
            lemma_rev_bits_bound(x as nat, log_n as nat);
            assert(a@[x] == orig[rev_bits(x as nat, log_n as nat) as int]);
            assert(points_view(orig)[rev_bits(x as nat, log_n as nat) as int] == orig[rev_bits(x as nat, log_n as nat) as int]@);
        }
        assert(start =~= bit_reversed(points_view(orig), log_n as nat)) by {
            assert forall|x: int| 0 <= x < n implies #[trigger] start[x] == bit_reversed(points_view(orig), log_n as nat)[x] by {
                lemma_rev_bits_bound(x as nat, log_n as nat);
            }
        }
    }

    let mut m: u32 = 1;
    let mut round: u32 = 0;
    while round < log_n
        invariant
            a@.len() == n,
            n == pow2(log_n as nat),
            round <= log_n,
            log_n < 32,
            m == pow2(round as nat),
            is_canonical_scalar(omega@),
            points_view(a@) == fft_rounds(start, omega@, log_n as nat, round as nat),
            forall|x: int| 0 <= x < n ==> g1_point_valid((#[trigger] a@[x])@),
        decreases log_n - round,
    {
        let ghost cnt = pow2((log_n - round - 1) as nat);
        proof {
            let r1: nat = (round + 1) as nat;
            let rest: nat = (log_n - round - 1) as nat;
            lemma_pow2_adds(round as nat, 1);
            lemma_pow2_adds(r1, rest);
            lemma2_to64();
            assert(pow2(1) == 2);
            assert(r1 + rest == log_n as nat);
            assert(pow2(r1) == 2 * m);
            assert(pow2(log_n as nat) == pow2(r1) * pow2(rest));
            assert(n == cnt * (2 * m)) by (nonlinear_arith)
                requires
                    n == pow2(r1) * pow2(rest),
                    pow2(r1) == 2 * m,
                    cnt == pow2(rest),
            ;
            lemma_pow2_pos(rest);
            assert(2 * m <= n) by (nonlinear_arith)
                requires
                    n == cnt * (2 * m),
                    cnt >= 1,
                    m >= 1,
            ;
        }
        let w_m = zk_pow(omega, (n / (2 * m)) as u64);
        proof {
            lemma_scalar_pow_step(omega@, (n / (2 * m) as u32) as nat);
        }
        let ghost prev = points_view(a@);
        let mut k: u32 = 0;
        let ghost mut q: nat = 0;
        while k < n
            invariant
                a@.len() == n,
                prev.len() == n,
                n == cnt * (2 * m),
                cnt >= 1,
                m >= 1,
                2 * m <= n,
                k == q * (2 * m),
                q <= cnt,
                is_canonical_scalar(w_m@),
                forall|x: int| 0 <= x < n ==> g1_point_valid(#[trigger] prev[x]),
                forall|x: int| 0 <= x < n ==> g1_point_valid((#[trigger] a@[x])@),
                forall|x: int|
                    0 <= x < n ==> (#[trigger] a@[x])@ == (if x < k {
                        butterfly_at(prev, m as nat, w_m@, x)
                    } else {
                        prev[x]
                    }),
            decreases n - k,
        {
            proof {
                if q >= cnt {
                    assert(q * (2 * m) >= cnt * (2 * m)) by (nonlinear_arith)
                        requires
                            q >= cnt,
                    ;
                }
                assert(q < cnt);
                assert((q + 1) * (2 * m) <= cnt * (2 * m)) by (nonlinear_arith)
                    requires
                        q + 1 <= cnt,
                ;
                assert((q + 1) * (2 * m) == q * (2 * m) + 2 * m) by (nonlinear_arith);
            }
            let mut w = zk_one();
            proof {
                lemma_scalar_pow_step(w_m@, 0);
            }
            let mut j: u32 = 0;
            while j < m
                invariant
                    a@.len() == n,
                    prev.len() == n,
                    k + 2 * m <= n,
                    k == q * (2 * m),
                    m >= 1,
                    j <= m,
                    is_canonical_scalar(w_m@),
                    w@ == scalar_pow(w_m@, j as nat),
                    forall|x: int| 0 <= x < n ==> g1_point_valid(#[trigger] prev[x]),
                    forall|x: int| 0 <= x < n ==> g1_point_valid((#[trigger] a@[x])@),
                    forall|x: int|
                        0 <= x < n ==> (#[trigger] a@[x])@ == (if x < k + j || (k + m <= x < k + m + j) {
                            butterfly_at(prev, m as nat, w_m@, x)
                        } else {
                            prev[x]
                        }),
                decreases m - j,
            {
                let i_hi = (k + j + m) as usize;
                let i_lo = (k + j) as usize;
                proof {
                    lemma_scalar_pow_step(w_m@, j as nat);
                    lemma_block_offset(q, m as nat, j as nat);
                    lemma_block_offset(q, m as nat, (j + m) as nat);
                    assert(a@[i_hi as int]@ == prev[i_hi as int]);
                    assert(a@[i_lo as int]@ == prev[i_lo as int]);
                }
                let t = g1_mul(&a[i_hi], &w);
                let tmp = g1_sub(&a[i_lo], &t);
                a.set(i_hi, tmp);
                let sum = g1_add(&a[i_lo], &t);
                a.set(i_lo, sum);
                w = zk_mul(&w, &w_m);
                proof {
                    assert(tmp@ == butterfly_at(prev, m as nat, w_m@, i_hi as int));
                    assert(sum@ == butterfly_at(prev, m as nat, w_m@, i_lo as int));
                }
                j += 1;
            }
            k += 2 * m;
            proof {
                q = q + 1;
            }
        }
        proof {
            assert(points_view(a@) =~= butterfly_round(prev, m as nat, w_m@));
            lemma_pow2_adds(round as nat, 1);
            assert(pow2(1) == 2);
        }
        m *= 2;
        round += 1;
    }
    proof {
        assert forall|x: int| 0 <= x < n implies g1_point_valid(#[trigger] points_view(a@)[x]) by {
            assert(points_view(a@)[x] == a@[x]@);
        }
    }
}

/// `serial_fft`, or, where some of the points are not valid G1 encodings,
/// `false` with the points left as they were.
pub fn serial_fft_checked(a: &mut Vec<[u8; 96]>, omega: &[u8; 32], log_n: u32) -> (res: bool)
    requires
        log_n < 32,
        old(a).len() == pow2(log_n as nat),
        is_canonical_scalar(omega@),
    ensures
        res == all_points_valid(points_view(old(a)@)),
        res ==> points_view(final(a)@) == radix2_fft(points_view(old(a)@), omega@, log_n as nat),
        !res ==> final(a)@ == old(a)@,
{
    let mut i: usize = 0;
    while i < a.len()
        invariant
            i <= a.len(),
            forall|x: int| 0 <= x < i ==> g1_point_valid(#[trigger] points_view(a@)[x]),
        decreases a.len() - i,
    {
        if !g1_valid(&a[i]) {
            proof {
                assert(!g1_point_valid(points_view(a@)[i as int]));
            }
            return false;
        }
        i += 1;
    }
    serial_fft(a, omega, log_n);
    true
}

/// The encodings held by a vector of compressed points.
pub open spec fn compressed_view(v: Seq<[u8; 48]>) -> Seq<Seq<u8>> {
    v.map_values(|c: [u8; 48]| c@)
}

/// Whether every commitment of `a` decodes to a G1 point.
pub open spec fn commitments_decode(a: Seq<[u8; 48]>) -> bool {
    forall|i: int| 0 <= i < a.len() ==> (#[trigger] g1_decompressed(a[i]@)) is Some
}

/// The points `group_fft` transforms: the commitments of `a` decoded, cut
/// or padded with the identity to `n` points.
pub open spec fn group_fft_points(a: Seq<[u8; 48]>, n: nat) -> Seq<Seq<u8>> {
    Seq::new(n, |i: int| if i < a.len() { g1_decompressed(a[i]@).unwrap() } else { g1_identity_encoding() })
}

/// What `group_fft` gives over the domain of size `n = 2^log_n`: the FFT of
/// the points with the domain's generator, or, for the inverse, the FFT
/// with its inverse and each point times the inverse of `n`; each result
/// compressed.
pub open spec fn group_fft_result(a: Seq<[u8; 48]>, n: nat, log_n: nat, inverse: bool) -> Seq<Seq<u8>> {
    let pts = group_fft_points(a, n);
    if inverse {
        let t = radix2_fft(pts, scalar_inv(domain_generator(n)), log_n);
        Seq::new(n, |k: int| g1_compressed(g1_scaled(t[k], scalar_inv(le_bytes(n, 32)))))
    } else {
        let t = radix2_fft(pts, domain_generator(n), log_n);
        Seq::new(n, |k: int| g1_compressed(t[k]))
    }
}

/// FFT (or, with `inverse`, inverse FFT) of the commitments `a` over the
/// evaluation domain: the commitments are decoded, cut or padded with the
/// identity to the domain's size, transformed, and compressed again.
pub fn group_fft(a: Vec<[u8; 48]>, eval_dom: &KateDomain, inverse: bool) -> (res: Vec<[u8; 48]>)
    requires
        commitments_decode(a@),
    ensures
        compressed_view(res@) == group_fft_result(a@, eval_dom.spec_size(), eval_dom.spec_log_size(), inverse),
{
    let size = eval_dom.size();
    let log_size = eval_dom.log_size();
    let ghost n = size as nat;
    let ghost pts = group_fft_points(a@, n);
    let mut commits: Vec<[u8; 96]> = Vec::new();
    let mut i: usize = 0;
    while i < a.len() && i < size
        invariant
            commits@.len() == i,
            i <= a.len(),
            i <= size,
            n == size,
            pts == group_fft_points(a@, n),
            commitments_decode(a@),
            forall|x: int| 0 <= x < i ==> (#[trigger] commits@[x])@ == pts[x] && g1_point_valid(commits@[x]@),
        decreases a.len() - i,
    {
        match g1_decompress(&a[i]) {
            Some(p) => commits.push(p),
            None => {
                proof {
                    assert(g1_decompressed(a@[i as int]@) is Some);
                }
                commits.push(g1_identity());
            },
        }
        i += 1;
    }
    while commits.len() < size
        invariant
            commits@.len() <= size,
            a.len() <= commits@.len() || commits@.len() == size,
            n == size,
            pts == group_fft_points(a@, n),
            forall|x: int| 0 <= x < commits@.len() ==> (#[trigger] commits@[x])@ == pts[x] && g1_point_valid(commits@[x]@),
        decreases size - commits@.len(),
    {
        commits.push(g1_identity());
    }
    proof {
        assert(points_view(commits@) =~= pts);
        assert forall|x: int| 0 <= x < commits.len() implies g1_point_valid(#[trigger] points_view(commits@)[x]) by {
            assert(points_view(commits@)[x] == commits@[x]@);
        }
    }
    let ghost scaled_by: Seq<u8> = Seq::empty();
    if inverse {
        let omega = domain_group_gen_inv(eval_dom);
        proof {
            lemma_scalar_pow_step(domain_generator(n), 0);
        }
        serial_fft(&mut commits, &omega, log_size);
        let ghost t = points_view(commits@);
        proof {
            assert forall|x: int| 0 <= x < n implies (#[trigger] commits@[x])@ == t[x] && g1_point_valid(
                commits@[x]@,
            ) by {
                assert(t[x] == commits@[x]@);
            }
        }
        let size_inv = domain_size_inv(eval_dom);
        let mut k: usize = 0;
        while k < commits.len()
            invariant
                k <= commits@.len(),
                commits@.len() == n,
                t.len() == n,
                is_canonical_scalar(size_inv@),
                size_inv@ == scalar_inv(le_bytes(n, 32)),
                forall|x: int| 0 <= x < n ==> g1_point_valid(#[trigger] t[x]),
                forall|x: int|
                    0 <= x < n ==> (#[trigger] commits@[x])@ == (if x < k { g1_scaled(t[x], size_inv@) } else { t[x] })
                        && g1_point_valid(commits@[x]@),
            decreases commits@.len() - k,
        {
            let scaled = g1_mul(&commits[k], &size_inv);
            commits.set(k, scaled);
            k += 1;
        }
        proof {
            assert(t =~= radix2_fft(pts, scalar_inv(domain_generator(n)), log_size as nat));
        }
    } else {
        let omega = domain_group_gen(eval_dom);
        serial_fft(&mut commits, &omega, log_size);
        proof {
            assert forall|x: int| 0 <= x < commits@.len() implies g1_point_valid((#[trigger] commits@[x])@) by {
                assert(points_view(commits@)[x] == commits@[x]@);
            }
        }
    }
    let mut out: Vec<[u8; 48]> = Vec::new();
    let mut k: usize = 0;
    while k < commits.len()
        invariant
            k <= commits@.len(),
            out@.len() == k,
            forall|x: int| 0 <= x < commits@.len() ==> g1_point_valid((#[trigger] commits@[x])@),
            forall|x: int| 0 <= x < k ==> (#[trigger] out@[x])@ == g1_compressed(commits@[x]@),
        decreases commits@.len() - k,
    {
        let c = g1_compress(&commits[k]);
        out.push(c);
        k += 1;
    }
    proof {
        assert(compressed_view(out@) =~= group_fft_result(a@, n, log_size as nat, inverse));
    }
    out
}

/// `group_fft`, or `None` where some commitment does not decode to a G1
/// point.
pub fn group_fft_checked(a: Vec<[u8; 48]>, eval_dom: &KateDomain, inverse: bool) -> (res: Option<Vec<[u8; 48]>>)
    ensures
        res is Some <==> commitments_decode(a@),
        res matches Some(v) ==> compressed_view(v@) == group_fft_result(
            a@,
            eval_dom.spec_size(),
            eval_dom.spec_log_size(),
            inverse,
        ),
{
    let mut i: usize = 0;
    while i < a.len()
        invariant
            i <= a.len(),
            forall|x: int| 0 <= x < i ==> (#[trigger] g1_decompressed(a@[x]@)) is Some,
        decreases a.len() - i,
    {
        if g1_decompress(&a[i]).is_none() {
            return None;
        }
        i += 1;
    }
    Some(group_fft(a, eval_dom, inverse))
}


/// Where the scalar of the cell at `col`, `row` is read from in a block:
/// columns follow one another, each of `rows` cells of `chunk_size` bytes.
pub open spec fn cell_offset(dims: BlockDimensions, col: nat, row: nat) -> nat {
    col * (dims.rows * dims.chunk_size) as nat + row * 64
}

/// The scalar of the cell at `col`, `row`: the 64 bytes at its offset,
/// reduced by the modulus.
pub open spec fn cell_scalar(dims: BlockDimensions, block: Seq<u8>, col: nat, row: nat) -> Seq<u8> {
    let off = cell_offset(dims, col, row);
    wide_reduce(block.subrange(off as int, (off + 64) as int))
}

/// The scalars of column `col` of the block's data matrix.
pub open spec fn data_column(dims: BlockDimensions, block: Seq<u8>, col: nat) -> Seq<Seq<u8>> {
    Seq::new(dims.rows as nat, |r: int| cell_scalar(dims, block, col, r as nat))
}

/// `n` zero scalars.
pub open spec fn zero_column(n: nat) -> Seq<Seq<u8>> {
    Seq::new(n, |i: int| zero_scalar())
}

/// Column `col` of the extended matrix: the column's coefficients over the
/// domain of its rows, padded with zeros to twice as many, evaluated over
/// the domain of the extended rows.
pub open spec fn extended_column(dims: BlockDimensions, block: Seq<u8>, col: nat) -> Seq<Seq<u8>> {
    domain_fft(
        dims.extended_rows(),
        domain_ifft(dims.rows as nat, data_column(dims, block, col)) + zero_column(dims.rows as nat),
    )
}

/// The first `k` columns of the extended matrix, one after the other.
pub open spec fn extended_columns(dims: BlockDimensions, block: Seq<u8>, k: nat) -> Seq<Seq<u8>>
    decreases k,
{
    if k == 0 {
        Seq::empty()
    } else {
        extended_columns(dims, block, (k - 1) as nat) + extended_column(dims, block, (k - 1) as nat)
    }
}

/// The extended data matrix of a block, column by column.
pub open spec fn extended_matrix(dims: BlockDimensions, block: Seq<u8>) -> Seq<Seq<u8>> {
    extended_columns(dims, block, dims.cols as nat)
}

proof fn lemma_le_nat_zeros(n: nat)
    ensures
        le_nat(Seq::new(n, |i: int| 0u8)) == 0,
    decreases n,
{
    if n > 0 {
        assert(Seq::new(n, |i: int| 0u8).drop_first() =~= Seq::new((n - 1) as nat, |i: int| 0u8));
        lemma_le_nat_zeros((n - 1) as nat);
    }
}

proof fn lemma_view_push(v: Seq<[u8; 32]>, x: [u8; 32])
    ensures
        scalars_view(v.push(x)) == scalars_view(v).push(x@),
{
    assert(scalars_view(v.push(x)) =~= scalars_view(v).push(x@));
}

/// The extended data matrix of a padded block, by columns: each column of
/// `rows` scalars is extended to `2 * rows` by an inverse FFT over the
/// domain of `rows` elements and an FFT of the zero-padded coefficients
/// over the domain of `2 * rows` elements.
pub fn extend_data_matrix(dims: BlockDimensions, block: &Vec<u8>) -> (res: Vec<[u8; 32]>)
    requires
        dims.extendable(),
        block.len() >= dims.block_size(),
    ensures
        scalars_view(res@) == extended_matrix(dims, block@),
        res.len() == dims.extended_rows() * dims.cols,
        all_canonical(scalars_view(res@)),
{
    proof {
        lemma_dims_products(dims);
    }
    let rows_num = dims.rows;
    let cols_num = dims.cols;
    let extended_rows_num = rows_num * EXTENSION_FACTOR;
    let chunk_bytes_offset = rows_num * dims.chunk_size;
    proof {
        let k = choose|k: nat| k < 31 && #[trigger] pow2(k) == dims.rows;
        lemma_pow2_adds(k, 1);
        lemma2_to64();
        assert(pow2(k + 1) == extended_rows_num);
        lemma_log_ceil_pow2(k);
        lemma_log_ceil_pow2(k + 1);
        assert(le_nat(zero_scalar()) == 0) by {
            lemma_le_nat_zeros(32);
        }
    }
    let extended_column_eval_domain = evaluation_domain(extended_rows_num);
    let column_eval_domain = evaluation_domain(rows_num);

    let mut chunk_elements: Vec<[u8; 32]> = Vec::new();
    let mut i: usize = 0;
    while i < cols_num
        invariant
            dims.extendable(),
            rows_num == dims.rows,
            cols_num == dims.cols,
            extended_rows_num == dims.extended_rows(),
            chunk_bytes_offset == dims.rows * dims.chunk_size,
            block.len() >= dims.block_size(),
            dims.rows * 2 * dims.cols <= dims.block_size(),
            dims.rows * 64 <= dims.rows * dims.chunk_size,
            extended_column_eval_domain.spec_size() == extended_rows_num,
            column_eval_domain.spec_size() == rows_num,
            is_canonical_scalar(zero_scalar()),
            0 <= i <= cols_num,
            scalars_view(chunk_elements@) == extended_columns(dims, block@, i as nat),
            chunk_elements.len() == i * extended_rows_num,
            all_canonical(scalars_view(chunk_elements@)),
        decreases cols_num - i,
    {
        proof {
            assert((i + 1) * chunk_bytes_offset <= dims.block_size() && i * chunk_bytes_offset + chunk_bytes_offset == (i + 1) * chunk_bytes_offset) by (nonlinear_arith)
                requires
                    i + 1 <= cols_num,
                    dims.block_size() == dims.rows * dims.cols * dims.chunk_size,
                    chunk_bytes_offset == dims.rows * dims.chunk_size,
                    cols_num == dims.cols,
            ;
        }
        let base = i * chunk_bytes_offset;
        let mut column: Vec<[u8; 32]> = Vec::new();
        let mut r: usize = 0;
        while r < rows_num
            invariant
                rows_num == dims.rows,
                base == i * (dims.rows * dims.chunk_size),
                base + chunk_bytes_offset <= block.len(),
                chunk_bytes_offset == dims.rows * dims.chunk_size,
                dims.rows * 64 <= dims.rows * dims.chunk_size,
                0 <= r <= rows_num,
                scalars_view(column@) == data_column(dims, block@, i as nat).subrange(0, r as int),
                column.len() == r,
                all_canonical(scalars_view(column@)),
            decreases rows_num - r,
        {
            proof {
                assert(r * 64 + 64 <= dims.rows * 64) by (nonlinear_arith)
                    requires
                        r + 1 <= dims.rows,
                ;
            }
            let offset = base + r * SCALAR_SIZE_WIDE;
            let scalar = reduce_wide_at(block, offset);
            proof {
                lemma_view_push(column@, scalar);
                assert(offset == cell_offset(dims, i as nat, r as nat));
                assert(data_column(dims, block@, i as nat).subrange(0, r + 1) =~= data_column(dims, block@, i as nat).subrange(0, r as int).push(scalar@));
            }
            column.push(scalar);
            r += 1;
        }
        proof {
            assert(data_column(dims, block@, i as nat).subrange(0, rows_num as int) =~= data_column(dims, block@, i as nat));
        }
        let mut padded = ifft(&column_eval_domain, column);
        let ghost coeffs = scalars_view(padded@);
        let mut z: usize = 0;
        while z < rows_num
            invariant
                rows_num == dims.rows,
                0 <= z <= rows_num,
                coeffs.len() == rows_num,
                scalars_view(padded@) == coeffs + zero_column(z as nat),
                padded.len() == rows_num + z,
                all_canonical(scalars_view(padded@)),
                is_canonical_scalar(zero_scalar()),
            decreases rows_num - z,
        {
            let zero = [0u8; 32];
            proof {
                assert(zero@ =~= zero_scalar());
                lemma_view_push(padded@, zero);
                assert(coeffs + zero_column((z + 1) as nat) =~= (coeffs + zero_column(z as nat)).push(zero_scalar()));
            }
            padded.push(zero);
            z += 1;
        }
        let extended = fft(&extended_column_eval_domain, padded);
        proof {
            assert(scalars_view(extended@) == extended_column(dims, block@, i as nat));
        }
        let ghost before = chunk_elements@;
        let mut e: usize = 0;
        while e < extended_rows_num
            invariant
                extended.len() == extended_rows_num,
                0 <= e <= extended_rows_num,
                scalars_view(chunk_elements@) == scalars_view(before) + scalars_view(extended@).subrange(0, e as int),
                chunk_elements.len() == before.len() + e,
                all_canonical(scalars_view(before)),
                all_canonical(scalars_view(extended@)),
            decreases extended_rows_num - e,
        {
            let x = extended[e];
            proof {
                lemma_view_push(chunk_elements@, x);
                assert(scalars_view(before) + scalars_view(extended@).subrange(0, e + 1) =~= (scalars_view(before) + scalars_view(extended@).subrange(0, e as int)).push(x@));
            }
            chunk_elements.push(x);
            e += 1;
        }
        proof {
            assert(scalars_view(extended@).subrange(0, extended_rows_num as int) =~= scalars_view(extended@));
            assert(chunk_elements.len() == (i + 1) * extended_rows_num) by (nonlinear_arith)
                requires
                    chunk_elements.len() == i * extended_rows_num + extended_rows_num,
            ;
        }
        i += 1;
    }
    proof {
        assert(chunk_elements.len() == dims.extended_rows() * dims.cols) by (nonlinear_arith)
            requires
                chunk_elements.len() == cols_num * extended_rows_num,
                cols_num == dims.cols,
                extended_rows_num == dims.extended_rows(),
        ;
    }
    chunk_elements
}

/// Row `i` of the extended matrix `ext` (stored column by column): one
/// scalar from each column.
pub open spec fn matrix_row(dims: BlockDimensions, ext: Seq<Seq<u8>>, i: nat) -> Seq<Seq<u8>> {
    Seq::new(dims.cols as nat, |j: int| ext[i + j * dims.extended_rows()])
}

/// The coefficients of the polynomial of row `i`: the one that takes the
/// row's values on the first points of the column domain (and 0 on the
/// rest, where the domain is larger than the row).
pub open spec fn row_poly(dims: BlockDimensions, ext: Seq<Seq<u8>>, i: nat) -> Seq<Seq<u8>> {
    domain_interpolate(dims.col_domain_size(), matrix_row(dims, ext, i))
}

/// The commitment to row `i`: to its polynomial, under the key trimmed to
/// the column count.
pub open spec fn row_commitment(params: Seq<u8>, dims: BlockDimensions, ext: Seq<Seq<u8>>, i: nat) -> Seq<u8> {
    kzg_commit(params, dims.cols as nat, row_poly(dims, ext, i))
}

/// The commitments to the first `k` rows, one after the other.
pub open spec fn row_commitments_upto(params: Seq<u8>, dims: BlockDimensions, ext: Seq<Seq<u8>>, k: nat) -> Seq<u8>
    decreases k,
{
    if k == 0 {
        Seq::empty()
    } else {
        row_commitments_upto(params, dims, ext, (k - 1) as nat) + row_commitment(params, dims, ext, (k - 1) as nat)
    }
}

/// The commitments to all rows of the extended matrix, in row order.
pub open spec fn row_commitments(params: Seq<u8>, dims: BlockDimensions, ext: Seq<Seq<u8>>) -> Seq<u8> {
    row_commitments_upto(params, dims, ext, dims.extended_rows())
}

/// Whether the commitment to every row of the extended matrix is 48 bytes
/// long.
pub open spec fn row_slots_sized(params: Seq<u8>, dims: BlockDimensions, ext: Seq<Seq<u8>>) -> bool {
    forall|r: nat| r < dims.extended_rows() ==> (#[trigger] row_commitment(params, dims, ext, r)).len() == 48
}

/// The row commitments come in 48-byte slots, and slot `r` is the
/// commitment to row `r`.
pub proof fn lemma_row_commitment_slot(params: Seq<u8>, dims: BlockDimensions, ext: Seq<Seq<u8>>, r: nat)
    requires
        row_slots_sized(params, dims, ext),
        r < dims.extended_rows(),
    ensures
        row_commitments(params, dims, ext).len() == 48 * dims.extended_rows(),
        row_commitments(params, dims, ext).subrange(48 * r as int, (48 * r + 48) as int) == row_commitment(params, dims, ext, r),
{
    lemma_row_commitments_upto_slot(params, dims, ext, dims.extended_rows(), r);
}

proof fn lemma_row_commitments_upto_slot(params: Seq<u8>, dims: BlockDimensions, ext: Seq<Seq<u8>>, n: nat, r: nat)
    requires
        row_slots_sized(params, dims, ext),
        n <= dims.extended_rows(),
        r < n,
    ensures
        row_commitments_upto(params, dims, ext, n).len() == 48 * n,
        row_commitments_upto(params, dims, ext, n).subrange(48 * r as int, (48 * r + 48) as int) == row_commitment(params, dims, ext, r),
    decreases n,
{
    let prev = row_commitments_upto(params, dims, ext, (n - 1) as nat);
    let last = row_commitment(params, dims, ext, (n - 1) as nat);
    assert(last.len() == 48);
    if r < n - 1 {
        lemma_row_commitments_upto_slot(params, dims, ext, (n - 1) as nat, r);
        assert((prev + last).subrange(48 * r as int, (48 * r + 48) as int) =~= prev.subrange(48 * r as int, (48 * r + 48) as int));
    } else {
        lemma_row_commitments_len(params, dims, ext, (n - 1) as nat);
        assert((prev + last).subrange(48 * r as int, (48 * r + 48) as int) =~= last);
    }
}

proof fn lemma_row_commitments_len(params: Seq<u8>, dims: BlockDimensions, ext: Seq<Seq<u8>>, n: nat)
    requires
        row_slots_sized(params, dims, ext),
        n <= dims.extended_rows(),
    ensures
        row_commitments_upto(params, dims, ext, n).len() == 48 * n,
    decreases n,
{
    if n > 0 {
        lemma_row_commitments_len(params, dims, ext, (n - 1) as nat);
        assert(row_commitment(params, dims, ext, (n - 1) as nat).len() == 48);
    }
}

/// Whether the key trimmed to the column count commits to every row's
/// polynomial (none is constant, and none is of a higher degree).
pub open spec fn rows_committable(dims: BlockDimensions, ext: Seq<Seq<u8>>) -> bool {
    forall|i: nat| i < dims.extended_rows() ==> commit_degree_ok(dims.cols as nat, #[trigger] row_poly(dims, ext, i))
}

/// Whether `cell` lies inside the extended matrix.
pub open spec fn cell_in_matrix(dims: BlockDimensions, cell: Cell) -> bool {
    (cell.row as nat) < dims.extended_rows() && (cell.col as nat) < dims.cols
}

/// The point of the column domain at column `col`: its generator to the
/// power `col`.
pub open spec fn col_point(dims: BlockDimensions, col: nat) -> Seq<u8> {
    scalar_pow(domain_generator(dims.col_domain_size()), col)
}

/// The witness polynomial of `cell`: its row's polynomial divided by
/// `x - p`, with `p` the column domain's point of the cell's column.
pub open spec fn cell_witness(dims: BlockDimensions, ext: Seq<Seq<u8>>, cell: Cell) -> Seq<Seq<u8>> {
    ruffini_quotient(row_poly(dims, ext, cell.row as nat), col_point(dims, cell.col as nat))
}

/// What proves the cell: for a cell inside the extended matrix, the
/// commitment to its witness polynomial, then the cell's scalar; for any
/// other cell, zeros of the same length.
pub open spec fn cell_proof(params: Seq<u8>, dims: BlockDimensions, ext: Seq<Seq<u8>>, cell: Cell) -> Seq<u8> {
    if cell_in_matrix(dims, cell) {
        kzg_commit(params, dims.cols as nat, cell_witness(dims, ext, cell)) + ext[cell.row + cell.col * dims.extended_rows()]
    } else {
        Seq::new(80, |i: int| 0u8)
    }
}

/// Whether the key trimmed to the column count commits to the witness
/// polynomial of every cell asked for inside the matrix.
pub open spec fn cells_provable(dims: BlockDimensions, ext: Seq<Seq<u8>>, cells: Seq<Cell>) -> bool {
    forall|k: int|
        0 <= k < cells.len() && cell_in_matrix(dims, cells[k]) ==> commit_degree_ok(
            dims.cols as nat,
            #[trigger] cell_witness(dims, ext, cells[k]),
        )
}

/// The proofs of the first `k` cells, one after the other.
pub open spec fn cell_proofs_upto(
    params: Seq<u8>,
    dims: BlockDimensions,
    ext: Seq<Seq<u8>>,
    cells: Seq<Cell>,
    k: nat,
) -> Seq<u8>
    decreases k,
{
    if k == 0 {
        Seq::empty()
    } else {
        cell_proofs_upto(params, dims, ext, cells, (k - 1) as nat) + cell_proof(params, dims, ext, cells[k - 1])
    }
}

/// Whether the proof of every one of `cells` is 80 bytes long.
pub open spec fn slots_sized(params: Seq<u8>, dims: BlockDimensions, ext: Seq<Seq<u8>>, cells: Seq<Cell>) -> bool {
    forall|k: int| 0 <= k < cells.len() ==> (#[trigger] cell_proof(params, dims, ext, cells[k])).len() == 80
}

/// The proofs of all `cells`, in order.
pub open spec fn cell_proofs(params: Seq<u8>, dims: BlockDimensions, ext: Seq<Seq<u8>>, cells: Seq<Cell>) -> Seq<u8> {
    cell_proofs_upto(params, dims, ext, cells, cells.len())
}

/// Whether `b` encodes the scalar 0.
fn is_zero_scalar(b: &[u8; 32]) -> (res: bool)
    ensures
        res == (b@ == zero_scalar_enc()),
{
    let mut i: usize = 0;
    while i < 32
        invariant
            0 <= i <= 32,
            b@.len() == 32,
            forall|x: int| 0 <= x < i ==> b@[x] == 0u8,
        decreases 32 - i,
    {
        if b[i] != 0 {
            proof {
                assert(b@[i as int] != zero_scalar_enc()[i as int]);
            }
            return false;
        }
        i += 1;
    }
    proof {
        assert(b@ =~= zero_scalar_enc());
    }
    true
}

/// The number of coefficients once trailing zeros are dropped.
fn trimmed_count(coeffs: &Vec<[u8; 32]>) -> (res: usize)
    ensures
        res == trimmed_len(scalars_view(coeffs@)),
{
    let ghost v = scalars_view(coeffs@);
    let mut i: usize = coeffs.len();
    let mut done = false;
    proof {
        assert(v.subrange(0, i as int) =~= v);
    }
    while !done && i > 0
        invariant
            i <= coeffs.len(),
            v == scalars_view(coeffs@),
            trimmed_len(v) == trimmed_len(v.subrange(0, i as int)),
            done ==> trimmed_len(v.subrange(0, i as int)) == i,
        decreases i + (if done { 0int } else { 1int }),
    {
        let ghost sub = v.subrange(0, i as int);
        proof {
            assert(sub.last() == coeffs@[i - 1]@);
            assert(sub.drop_last() =~= v.subrange(0, i - 1));
        }
        if is_zero_scalar(&coeffs[i - 1]) {
            i -= 1;
        } else {
            done = true;
        }
    }
    i
}

/// Whether the key trimmed to `degree` commits to the polynomial `coeffs`.
fn commit_degree_accepted(degree: usize, coeffs: &Vec<[u8; 32]>) -> (res: bool)
    ensures
        res == commit_degree_ok(degree as nat, scalars_view(coeffs@)),
{
    let t = trimmed_count(coeffs);
    let max: usize = if degree == 1 { 2 } else { degree };
    t >= 2 && t - 1 <= max
}

fn append_bytes(out: &mut Vec<u8>, bytes: &[u8])
    ensures
        final(out)@ == old(out)@ + bytes@,
{
    let n = bytes.len();
    let mut i: usize = 0;
    while i < n
        invariant
            n == bytes@.len(),
            0 <= i <= n,
            out@ == old(out)@ + bytes@.subrange(0, i as int),
        decreases n - i,
    {
        proof {
            assert(old(out)@ + bytes@.subrange(0, i + 1) =~= (old(out)@ + bytes@.subrange(0, i as int)).push(bytes@[i as int]));
        }
        out.push(bytes[i]);
        i += 1;
    }
    proof {
        assert(bytes@.subrange(0, n as int) =~= bytes@);
    }
}

/// The column index arithmetic of the extended matrix stays inside it.
proof fn lemma_matrix_index(dims: BlockDimensions, i: nat, j: nat)
    requires
        i < dims.extended_rows(),
        j < dims.cols,
    ensures
        i + j * dims.extended_rows() < dims.extended_rows() * dims.cols,
{
    let e = dims.extended_rows() as int;
    let c = dims.cols as int;
    assert(i + j * e < e * c) by (nonlinear_arith)
        requires
            0 <= i < e,
            0 <= j < c,
    ;
}

/// Gathers row `i` of the extended matrix.
fn gather_row(dims: BlockDimensions, ext: &Vec<[u8; 32]>, i: usize) -> (row: Vec<[u8; 32]>)
    requires
        dims.well_formed(),
        ext.len() == dims.extended_rows() * dims.cols,
        i < dims.extended_rows(),
        all_canonical(scalars_view(ext@)),
    ensures
        scalars_view(row@) == matrix_row(dims, scalars_view(ext@), i as nat),
        row.len() == dims.cols,
        all_canonical(scalars_view(row@)),
{
    proof {
        lemma_dims_products(dims);
    }
    let extended_rows_num = dims.rows * EXTENSION_FACTOR;
    let cols_num = dims.cols;
    let mut row: Vec<[u8; 32]> = Vec::new();
    let mut j: usize = 0;
    while j < cols_num
        invariant
            dims.well_formed(),
            extended_rows_num == dims.extended_rows(),
            cols_num == dims.cols,
            ext.len() == dims.extended_rows() * dims.cols,
            dims.rows * 2 * dims.cols <= dims.block_size(),
            i < dims.extended_rows(),
            0 <= j <= cols_num,
            scalars_view(row@) == matrix_row(dims, scalars_view(ext@), i as nat).subrange(0, j as int),
            row.len() == j,
            all_canonical(scalars_view(ext@)),
            all_canonical(scalars_view(row@)),
        decreases cols_num - j,
    {
        proof {
            lemma_matrix_index(dims, i as nat, j as nat);
        }
        let x = ext[i + j * extended_rows_num];
        proof {
            lemma_view_push(row@, x);
            assert(matrix_row(dims, scalars_view(ext@), i as nat).subrange(0, j + 1) =~= matrix_row(dims, scalars_view(ext@), i as nat).subrange(0, j as int).push(x@));
        }
        row.push(x);
        j += 1;
    }
    proof {
        assert(matrix_row(dims, scalars_view(ext@), i as nat).subrange(0, cols_num as int) =~= matrix_row(dims, scalars_view(ext@), i as nat));
    }
    row
}

/// The commitments to every row of the extended matrix `ext`, with the
/// commit key trimmed to the column count, or `None` where the key does not
/// commit to some row's polynomial.
pub fn commit_rows(key: &TrimmedKey, dims: BlockDimensions, ext: &Vec<[u8; 32]>) -> (res: Option<Vec<u8>>)
    requires
        dims.well_formed(),
        key.degree() == dims.cols,
        ext.len() == dims.extended_rows() * dims.cols,
        all_canonical(scalars_view(ext@)),
    ensures
        res is Some <==> rows_committable(dims, scalars_view(ext@)),
        res matches Some(v) ==> v@ == row_commitments(key.params(), dims, scalars_view(ext@)) && v@.len()
            == PROVER_KEY_SIZE * dims.extended_rows(),
        res is Some ==> row_slots_sized(key.params(), dims, scalars_view(ext@)),
{
    proof {
        lemma_dims_products(dims);
        lemma_log_ceil_bound(dims.cols as nat);
    }
    let ghost view = scalars_view(ext@);
    let extended_rows_num = dims.rows * EXTENSION_FACTOR;
    let row_eval_domain = evaluation_domain(dims.cols);
    let mut result_bytes: Vec<u8> = Vec::new();
    let mut i: usize = 0;
    while i < extended_rows_num
        invariant
            dims.well_formed(),
            key.degree() == dims.cols,
            extended_rows_num == dims.extended_rows(),
            ext.len() == dims.extended_rows() * dims.cols,
            view == scalars_view(ext@),
            all_canonical(view),
            row_eval_domain.spec_size() == dims.col_domain_size(),
            dims.cols <= dims.col_domain_size(),
            0 <= i <= extended_rows_num,
            forall|r: nat| r < i ==> commit_degree_ok(dims.cols as nat, #[trigger] row_poly(dims, view, r)),
            result_bytes@ == row_commitments_upto(key.params(), dims, view, i as nat),
            result_bytes@.len() == 48 * i,
            forall|r: nat| r < i ==> (#[trigger] row_commitment(key.params(), dims, view, r)).len() == 48,
        decreases extended_rows_num - i,
    {
        let row = gather_row(dims, ext, i);
        let polynomial = interpolate(&row_eval_domain, row);
        if !commit_degree_accepted(dims.cols, &polynomial) {
            proof {
                assert(!commit_degree_ok(dims.cols as nat, row_poly(dims, view, i as nat)));
            }
            return None;
        }
        let key_bytes = commit(key, &polynomial);
        append_bytes(&mut result_bytes, &key_bytes);
        proof {
            assert(row_commitment(key.params(), dims, view, i as nat) == key_bytes@);
        }
        i += 1;
    }
    Some(result_bytes)
}

/// The proofs of `cells` against the rows of the extended matrix `ext`,
/// with the commit key trimmed to the column count, or `None` where the key
/// does not commit to the witness of some cell inside the matrix.
pub fn prove_cells(key: &TrimmedKey, dims: BlockDimensions, ext: &Vec<[u8; 32]>, cells: &Vec<Cell>) -> (res: Option<
    Vec<u8>,
>)
    requires
        dims.well_formed(),
        key.degree() == dims.cols,
        ext.len() == dims.extended_rows() * dims.cols,
        all_canonical(scalars_view(ext@)),
    ensures
        res is Some <==> cells_provable(dims, scalars_view(ext@), cells@),
        res matches Some(v) ==> v@ == cell_proofs(key.params(), dims, scalars_view(ext@), cells@) && v@.len() == (
        SCALAR_SIZE + PROOF_SIZE) * cells@.len(),
        res is Some ==> slots_sized(key.params(), dims, scalars_view(ext@), cells@),
{
    proof {
        lemma_dims_products(dims);
        lemma_log_ceil_bound(dims.cols as nat);
    }
    let ghost view = scalars_view(ext@);
    let extended_rows_num = dims.rows * EXTENSION_FACTOR;
    let cols_num = dims.cols;
    let row_eval_domain = evaluation_domain(cols_num);
    let row_dom_x_pts = domain_elements(&row_eval_domain);
    let mut result_bytes: Vec<u8> = Vec::new();
    let n = cells.len();
    let mut index: usize = 0;
    while index < n
        invariant
            dims.well_formed(),
            key.degree() == dims.cols,
            extended_rows_num == dims.extended_rows(),
            cols_num == dims.cols,
            n == cells@.len(),
            ext.len() == dims.extended_rows() * dims.cols,
            view == scalars_view(ext@),
            all_canonical(view),
            row_eval_domain.spec_size() == dims.col_domain_size(),
            dims.cols <= dims.col_domain_size(),
            row_dom_x_pts.len() == dims.col_domain_size(),
            forall|x: int|
                0 <= x < row_dom_x_pts.len() ==> (#[trigger] row_dom_x_pts@[x])@ == col_point(dims, x as nat),
            all_canonical(scalars_view(row_dom_x_pts@)),
            0 <= index <= n,
            forall|k: int|
                0 <= k < index && cell_in_matrix(dims, cells@[k]) ==> commit_degree_ok(
                    dims.cols as nat,
                    #[trigger] cell_witness(dims, view, cells@[k]),
                ),
            result_bytes@ == cell_proofs_upto(key.params(), dims, view, cells@, index as nat),
            result_bytes@.len() == 80 * index,
            forall|k: int| 0 <= k < index ==> (#[trigger] cell_proof(key.params(), dims, view, cells@[k])).len() == 80,
        decreases n - index,
    {
        let cell = cells[index];
        let row_index = cell.row as usize;
        let col_index = cell.col as usize;
        let ghost before = result_bytes@;
        if row_index < extended_rows_num && col_index < cols_num {
            // construct the polynomial of the extended matrix row
            let row = gather_row(dims, ext, row_index);
            let polynomial = interpolate(&row_eval_domain, row);
            proof {
                assert(is_canonical_scalar(scalars_view(row_dom_x_pts@)[col_index as int]));
            }
            let witness = single_witness(key, &polynomial, &row_dom_x_pts[col_index]);
            if !commit_degree_accepted(cols_num, &witness) {
                proof {
                    assert(!commit_degree_ok(dims.cols as nat, cell_witness(dims, view, cells@[index as int])));
                }
                return None;
            }
            let commitment_to_witness = commit(key, &witness);
            proof {
                lemma_matrix_index(dims, row_index as nat, col_index as nat);
            }
            let evaluated_point = ext[row_index + col_index * extended_rows_num];
            append_bytes(&mut result_bytes, &commitment_to_witness);
            append_bytes(&mut result_bytes, &evaluated_point);
            proof {
                assert(view[row_index + col_index * extended_rows_num] == evaluated_point@);
                assert(result_bytes@ =~= before + cell_proof(key.params(), dims, view, cell));
                assert(cell_proof(key.params(), dims, view, cells@[index as int]).len() == 80);
            }
        } else {
            let mut z: usize = 0;
            while z < SCALAR_SIZE + PROOF_SIZE
                invariant
                    0 <= z <= 80,
                    result_bytes@ == before + Seq::new(z as nat, |i: int| 0u8),
                decreases 80 - z,
            {
                proof {
                    assert(before + Seq::new((z + 1) as nat, |i: int| 0u8) =~= (before + Seq::new(z as nat, |i: int| 0u8)).push(0u8));
                }
                result_bytes.push(0u8);
                z += 1;
            }
            proof {
                assert(cell_proof(key.params(), dims, view, cells@[index as int]).len() == 80);
            }
        }
        index += 1;
    }
    Some(result_bytes)
}

/// Why a commitment or proof build with checked inputs gives no result.
#[derive(Debug, Clone, Copy, PartialEq, Eq, Structural)]
pub enum BuildError {
    /// The public parameters give no commit key of the column count.
    NoCommitKey,
    /// The key does not commit to a polynomial the build needs: it is
    /// constant, or of a higher degree than the key.
    PolynomialDegree,
}

/// Whether `dims`, `extrinsics`, `header_hash` and `params` can go into a
/// commitment or proof build: the dimensions are well formed, the
/// extrinsics fit in the block, the hash is 32 bytes (the generator's seed)
/// unless they fill it, and the public parameters can be read.
pub open spec fn build_inputs_ok(
    params: Seq<u8>,
    dims: BlockDimensions,
    extrinsics: Seq<Seq<u8>>,
    header_hash: Seq<u8>,
) -> bool {
    &&& dims.well_formed()
    &&& header_hash.len() == 32 || flatten_bytes(extrinsics).len() == dims.block_size()
    &&& flatten_bytes(extrinsics).len() <= dims.block_size()
    &&& params_well_sized(params)
}

/// What a commitment build over the padded block `block` gives: the row
/// commitments of its extended matrix, exactly when the key commits to
/// every row's polynomial.
pub open spec fn commitments_of(params: Seq<u8>, dims: BlockDimensions, block: Seq<u8>, res: Option<Vec<u8>>) -> bool {
    let ext = extended_matrix(dims, block);
    &&& res is Some <==> rows_committable(dims, ext)
    &&& res matches Some(v) ==> v@ == row_commitments(params, dims, ext) && v@.len() == PROVER_KEY_SIZE
        * dims.extended_rows()
    &&& res is Some ==> row_slots_sized(params, dims, ext)
}

/// What a proof build for `cells` over the padded block `block` gives: the
/// proofs of the cells against its extended matrix, exactly when the key
/// commits to the witness of every cell inside the matrix.
pub open spec fn proofs_of(
    params: Seq<u8>,
    dims: BlockDimensions,
    block: Seq<u8>,
    cells: Seq<Cell>,
    res: Option<Vec<u8>>,
) -> bool {
    let ext = extended_matrix(dims, block);
    &&& res is Some <==> cells_provable(dims, ext, cells)
    &&& res matches Some(v) ==> v@ == cell_proofs(params, dims, ext, cells) && v@.len() == (SCALAR_SIZE
        + PROOF_SIZE) * cells.len()
    &&& res is Some ==> slots_sized(params, dims, ext, cells)
}

/// The proofs of cells come in 80-byte slots, and slot `k` is the proof of
/// the `k`-th cell alone: it depends on that cell only, not on its position
/// or on the other cells asked for.
pub proof fn lemma_cell_proof_slot(
    params: Seq<u8>,
    dims: BlockDimensions,
    ext: Seq<Seq<u8>>,
    cells: Seq<Cell>,
    k: int,
)
    requires
        slots_sized(params, dims, ext, cells),
        0 <= k < cells.len(),
    ensures
        cell_proofs(params, dims, ext, cells).len() == 80 * cells.len(),
        cell_proofs(params, dims, ext, cells).subrange(80 * k, 80 * k + 80) == cell_proof(params, dims, ext, cells[k]),
        cell_proofs(params, dims, ext, seq![cells[k]]) == cell_proof(params, dims, ext, cells[k]),
{
    lemma_cell_proofs_upto_slot(params, dims, ext, cells, cells.len(), k);
    let one = seq![cells[k]];
    assert(cell_proofs_upto(params, dims, ext, one, 0) == Seq::<u8>::empty());
    assert(cell_proofs(params, dims, ext, one) =~= cell_proof(params, dims, ext, cells[k]));
}

proof fn lemma_cell_proofs_upto_slot(
    params: Seq<u8>,
    dims: BlockDimensions,
    ext: Seq<Seq<u8>>,
    cells: Seq<Cell>,
    n: nat,
    k: int,
)
    requires
        slots_sized(params, dims, ext, cells),
        n <= cells.len(),
        0 <= k < n,
    ensures
        cell_proofs_upto(params, dims, ext, cells, n).len() == 80 * n,
        cell_proofs_upto(params, dims, ext, cells, n).subrange(80 * k, 80 * k + 80) == cell_proof(
            params,
            dims,
            ext,
            cells[k],
        ),
    decreases n,
{
    let prev = cell_proofs_upto(params, dims, ext, cells, (n - 1) as nat);
    let last = cell_proof(params, dims, ext, cells[n - 1]);
    assert(last.len() == 80);
    if k < n - 1 {
        lemma_cell_proofs_upto_slot(params, dims, ext, cells, (n - 1) as nat, k);
        assert((prev + last).subrange(80 * k, 80 * k + 80) =~= prev.subrange(80 * k, 80 * k + 80));
    } else {
        lemma_cell_proofs_len(params, dims, ext, cells, (n - 1) as nat);
        assert((prev + last).subrange(80 * k, 80 * k + 80) =~= last);
    }
}

proof fn lemma_cell_proofs_len(params: Seq<u8>, dims: BlockDimensions, ext: Seq<Seq<u8>>, cells: Seq<Cell>, n: nat)
    requires
        slots_sized(params, dims, ext, cells),
        n <= cells.len(),
    ensures
        cell_proofs_upto(params, dims, ext, cells, n).len() == 80 * n,
    decreases n,
{
    if n > 0 {
        lemma_cell_proofs_len(params, dims, ext, cells, (n - 1) as nat);
        assert(cell_proof(params, dims, ext, cells[n - 1]).len() == 80);
    }
}

/// The row commitments of the block of `extrinsics`: the block is flattened
/// and padded, its data matrix extended, and each extended row committed to
/// with the public parameters trimmed to the column count; `None` where the
/// key does not commit to some row's polynomial.
pub fn build_commitments(
    public_params_data: &Vec<u8>,
    dims: BlockDimensions,
    extrinsics: &Vec<Vec<u8>>,
    header_hash: &[u8],
) -> (res: Option<Vec<u8>>)
    requires
        build_inputs_ok(public_params_data@, dims, bytes_view(extrinsics@), header_hash@),
        commit_key_available(public_params_data@, dims.cols as nat),
    ensures
        exists|block: Seq<u8>|
            padded_from(dims, bytes_view(extrinsics@), header_hash@, block) && commitments_of(
                public_params_data@,
                dims,
                block,
                res,
            ),
{
    // generate data matrix first
    let block = flatten_and_pad_block(dims, extrinsics, header_hash);
    let ext_data_matrix = extend_data_matrix(dims, &block);
    match trim_public_params(public_params_data, dims.cols) {
        Some(prover_key) => {
            let res = commit_rows(&prover_key, dims, &ext_data_matrix);
            proof {
                assert(padded_from(dims, bytes_view(extrinsics@), header_hash@, block@));
                assert(commitments_of(public_params_data@, dims, block@, res));
            }
            res
        },
        None => {
            proof {
                assert(false);
            }
            None
        },
    }
}

/// `build_commitments`, or `Err(NoCommitKey)` when the public parameters do
/// not give a commit key of the column count; `Err(PolynomialDegree)` where
/// `build_commitments` gives `None`.
pub fn build_commitments_checked(
    public_params_data: &Vec<u8>,
    dims: BlockDimensions,
    extrinsics: &Vec<Vec<u8>>,
    header_hash: &[u8],
) -> (res: Result<Vec<u8>, BuildError>)
    requires
        build_inputs_ok(public_params_data@, dims, bytes_view(extrinsics@), header_hash@),
    ensures
        res == Err::<Vec<u8>, BuildError>(BuildError::NoCommitKey) <==> !commit_key_available(
            public_params_data@,
            dims.cols as nat,
        ),
        commit_key_available(public_params_data@, dims.cols as nat) ==> exists|block: Seq<u8>|
            padded_from(dims, bytes_view(extrinsics@), header_hash@, block) && commitments_of(
                public_params_data@,
                dims,
                block,
                res.ok(),
            ) && (res is Err ==> res == Err::<Vec<u8>, BuildError>(BuildError::PolynomialDegree)),
{
    match trim_public_params(public_params_data, dims.cols) {
        Some(_) => match build_commitments(public_params_data, dims, extrinsics, header_hash) {
            Some(v) => Ok(v),
            None => Err(BuildError::PolynomialDegree),
        },
        None => Err(BuildError::NoCommitKey),
    }
}

/// The proofs of `cells` in the block of `extrinsics`, 80 bytes each in
/// the order of the cells: the block is flattened and padded, its data
/// matrix extended, and each cell inside the extended matrix proved against
/// its row with the public parameters trimmed to the column count; a cell
/// outside the matrix gets 80 zero bytes. `None` where the key does not
/// commit to the witness of some cell inside the matrix.
pub fn build_proof(
    public_params_data: &Vec<u8>,
    dims: BlockDimensions,
    extrinsics: &Vec<Vec<u8>>,
    cells: Vec<Cell>,
    header_hash: &[u8],
) -> (res: Option<Vec<u8>>)
    requires
        build_inputs_ok(public_params_data@, dims, bytes_view(extrinsics@), header_hash@),
        commit_key_available(public_params_data@, dims.cols as nat),
    ensures
        exists|block: Seq<u8>|
            padded_from(dims, bytes_view(extrinsics@), header_hash@, block) && proofs_of(
                public_params_data@,
                dims,
                block,
                cells@,
                res,
            ),
{
    let block = flatten_and_pad_block(dims, extrinsics, header_hash);
    let ext_data_matrix = extend_data_matrix(dims, &block);
    match trim_public_params(public_params_data, dims.cols) {
        Some(prover_key) => {
            let res = prove_cells(&prover_key, dims, &ext_data_matrix, &cells);
            proof {
                assert(padded_from(dims, bytes_view(extrinsics@), header_hash@, block@));
                assert(proofs_of(public_params_data@, dims, block@, cells@, res));
            }
            res
        },
        None => {
            proof {
                assert(false);
            }
            None
        },
    }
}

/// `build_proof`, or `Err(NoCommitKey)` when the public parameters do not
/// give a commit key of the column count; `Err(PolynomialDegree)` where
/// `build_proof` gives `None`.
pub fn build_proof_checked(
    public_params_data: &Vec<u8>,
    dims: BlockDimensions,
    extrinsics: &Vec<Vec<u8>>,
    cells: Vec<Cell>,
    header_hash: &[u8],
) -> (res: Result<Vec<u8>, BuildError>)
    requires
        build_inputs_ok(public_params_data@, dims, bytes_view(extrinsics@), header_hash@),
    ensures
        res == Err::<Vec<u8>, BuildError>(BuildError::NoCommitKey) <==> !commit_key_available(
            public_params_data@,
            dims.cols as nat,
        ),
        commit_key_available(public_params_data@, dims.cols as nat) ==> exists|block: Seq<u8>|
            padded_from(dims, bytes_view(extrinsics@), header_hash@, block) && proofs_of(
                public_params_data@,
                dims,
                block,
                cells@,
                res.ok(),
            ) && (res is Err ==> res == Err::<Vec<u8>, BuildError>(BuildError::PolynomialDegree)),
{
    match trim_public_params(public_params_data, dims.cols) {
        Some(_) => match build_proof(public_params_data, dims, extrinsics, cells, header_hash) {
            Some(v) => Ok(v),
            None => Err(BuildError::PolynomialDegree),
        },
        None => Err(BuildError::NoCommitKey),
    }
}

} // verus!
