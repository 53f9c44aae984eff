//! The calls into the finite-field, curve, FFT, KZG and RNG crates, each
//! behind a small trusted item whose contract states what the crate's
//! source or documentation gives.
//!
//! Scalars of the BLS12-381 scalar field travel through the library as their
//! canonical 32-byte little-endian encodings; G1 points handed to the FFT
//! arrive as their 96-byte uncompressed encodings.
use vstd::prelude::*;
use vstd::arithmetic::power::pow;
use dusk_plonk::fft::{EvaluationDomain, Evaluations, Polynomial};
use dusk_plonk::prelude::{BlsScalar, CommitKey, PublicParameters};
use rand::rngs::StdRng;
use rand::Rng;
use rand::SeedableRng;

verus! {

#[verifier::external_type_specification]
#[verifier::external_body]
pub struct ExEvaluationDomain(EvaluationDomain);

#[verifier::external_type_specification]
#[verifier::external_body]
pub struct ExCommitKey(CommitKey);

#[verifier::external_type_specification]
#[verifier::external_body]
pub struct ExStdRng(StdRng);

/// The little-endian number that the bytes `b` encode.
pub open spec fn le_nat(b: Seq<u8>) -> nat
    decreases b.len(),
{
    if b.len() == 0 {
        0
    } else {
        b[0] as nat + 256 * le_nat(b.drop_first())
    }
}

/// The `len` low bytes of `v`, little-endian.
pub open spec fn le_bytes(v: nat, len: nat) -> Seq<u8>
    decreases len,
{
    if len == 0 {
        Seq::empty()
    } else {
        seq![(v % 256) as u8] + le_bytes(v / 256, (len - 1) as nat)
    }
}

/// The order of the BLS12-381 scalar field.
pub open spec fn scalar_modulus() -> nat {
    0x73eda753299d7d483339d80809a1d80553bda402fffe5bfeffffffff00000001nat
}

/// Whether `b` is the canonical encoding of a scalar: 32 little-endian
/// bytes of a number below the modulus.
pub open spec fn is_canonical_scalar(b: Seq<u8>) -> bool {
    b.len() == 32 && le_nat(b) < scalar_modulus()
}

/// Whether every encoding in `v` is canonical.
pub open spec fn all_canonical(v: Seq<Seq<u8>>) -> bool {
    forall|i: int| 0 <= i < v.len() ==> is_canonical_scalar(#[trigger] v[i])
}

/// The encodings held by a vector of scalars.
pub open spec fn scalars_view(v: Seq<[u8; 32]>) -> Seq<Seq<u8>> {
    v.map_values(|a: [u8; 32]| a@)
}

/// The canonical encoding of the scalar that the 64 little-endian bytes
/// `b` reduce to.
pub open spec fn wide_reduce(b: Seq<u8>) -> Seq<u8> {
    le_bytes(le_nat(b) % scalar_modulus(), 32)
}

/// `256^len`, the number of values `len` bytes can hold.
pub open spec fn byte_base(len: nat) -> nat
    decreases len,
{
    if len == 0 {
        1
    } else {
        256 * byte_base((len - 1) as nat)
    }
}

/// Reading back the `len` low bytes of a number that fits in them gives
/// the number.
pub proof fn lemma_le_bytes_roundtrip(v: nat, len: nat)
    requires
        v < byte_base(len),
    ensures
        le_nat(le_bytes(v, len)) == v,
        le_bytes(v, len).len() == len,
    decreases len,
{
    if len > 0 {
        let b = le_bytes(v, len);
        let rest = le_bytes(v / 256, (len - 1) as nat);
        assert(b =~= seq![(v % 256) as u8] + rest);
        assert(b.drop_first() =~= rest);
        assert(v / 256 < byte_base((len - 1) as nat)) by (nonlinear_arith)
            requires
                v < 256 * byte_base((len - 1) as nat),
        ;
        lemma_le_bytes_roundtrip(v / 256, (len - 1) as nat);
        assert(v == v % 256 + 256 * (v / 256)) by (nonlinear_arith);
    }
}

/// The scalar modulus fits in 32 bytes.
pub proof fn lemma_scalar_modulus_fits()
    ensures
        scalar_modulus() < byte_base(32),
{
    assert(byte_base(0) == 1nat);
    assert(byte_base(1) == 256nat);
    assert(byte_base(2) == 65536nat);
    assert(byte_base(3) == 16777216nat);
    assert(byte_base(4) == 4294967296nat);
    assert(byte_base(5) == 1099511627776nat);
    assert(byte_base(6) == 281474976710656nat);
    assert(byte_base(7) == 72057594037927936nat);
    assert(byte_base(8) == 18446744073709551616nat);
    assert(byte_base(9) == 4722366482869645213696nat);
    assert(byte_base(10) == 1208925819614629174706176nat);
    assert(byte_base(11) == 309485009821345068724781056nat);
    assert(byte_base(12) == 79228162514264337593543950336nat);
    assert(byte_base(13) == 20282409603651670423947251286016nat);
    assert(byte_base(14) == 5192296858534827628530496329220096nat);
    assert(byte_base(15) == 1329227995784915872903807060280344576nat);
    assert(byte_base(16) == 340282366920938463463374607431768211456nat);
    assert(byte_base(17) == 87112285931760246646623899502532662132736nat);
    assert(byte_base(18) == 22300745198530623141535718272648361505980416nat);
    assert(byte_base(19) == 5708990770823839524233143877797980545530986496nat);
    assert(byte_base(20) == 1461501637330902918203684832716283019655932542976nat);
    assert(byte_base(21) == 374144419156711147060143317175368453031918731001856nat);
    assert(byte_base(22) == 95780971304118053647396689196894323976171195136475136nat);
    assert(byte_base(23) == 24519928653854221733733552434404946937899825954937634816nat);
    assert(byte_base(24) == 6277101735386680763835789423207666416102355444464034512896nat);
    assert(byte_base(25) == 1606938044258990275541962092341162602522202993782792835301376nat);
    assert(byte_base(26) == 411376139330301510538742295639337626245683966408394965837152256nat);
    assert(byte_base(27) == 105312291668557186697918027683670432318895095400549111254310977536nat);
    assert(byte_base(28) == 26959946667150639794667015087019630673637144422540572481103610249216nat);
    assert(byte_base(29) == 6901746346790563787434755862277025452451108972170386555162524223799296nat);
    assert(byte_base(30) == 1766847064778384329583297500742918515827483896875618958121606201292619776nat);
    assert(byte_base(31) == 452312848583266388373324160190187140051835877600158453279131187530910662656nat);
    assert(byte_base(32) == 115792089237316195423570985008687907853269984665640564039457584007913129639936nat);
}

/// The canonical encoding of the product of the scalars `a` and `b`.
pub open spec fn scalar_mul(a: Seq<u8>, b: Seq<u8>) -> Seq<u8> {
    le_bytes((le_nat(a) * le_nat(b)) % scalar_modulus(), 32)
}

/// The canonical encoding of the scalar `a` raised to the power `e`.
pub open spec fn scalar_pow(a: Seq<u8>, e: nat) -> Seq<u8> {
    le_bytes((pow(le_nat(a) as int, e) % (scalar_modulus() as int)) as nat, 32)
}

/// Multiplying `a^j` by `a` gives `a^(j + 1)`, and `a^0` is the scalar 1.
pub proof fn lemma_scalar_pow_step(a: Seq<u8>, j: nat)
    ensures
        scalar_mul(scalar_pow(a, j), a) == scalar_pow(a, j + 1),
        scalar_pow(a, 0) == le_bytes(1, 32),
        is_canonical_scalar(scalar_pow(a, j)),
{
    let r = scalar_modulus() as int;
    let l = le_nat(a) as int;
    let x = pow(l, j) % r;
    lemma_scalar_modulus_fits();
    lemma_le_bytes_roundtrip(x as nat, 32);
    reveal(pow);
    assert(pow(l, j + 1) == l * pow(l, j));
    vstd::arithmetic::div_mod::lemma_mul_mod_noop_left(pow(l, j), l, r);
    assert(x * l == l * x) by (nonlinear_arith);
    assert(pow(l, j) * l == l * pow(l, j)) by (nonlinear_arith);
    assert(pow(l, 0) == 1);
}

/// Whether every encoding in `v` is that of a G1 point.
pub open spec fn all_points_valid(v: Seq<Seq<u8>>) -> bool {
    forall|i: int| 0 <= i < v.len() ==> g1_point_valid(#[trigger] v[i])
}

/// The uncompressed encoding of the G1 identity: the infinity flag (the
/// second-highest bit of the first byte) set and every other bit clear.
pub open spec fn g1_identity_encoding() -> Seq<u8> {
    Seq::new(96, |i: int| if i == 0 { 0x40u8 } else { 0u8 })
}

/// The uncompressed encoding of the G1 point `P + Q`, where `p` and `q`
/// encode `P` and `Q`.
pub uninterp spec fn g1_sum(p: Seq<u8>, q: Seq<u8>) -> Seq<u8>;

/// The uncompressed encoding of the G1 point `P - Q`, where `p` and `q`
/// encode `P` and `Q`.
pub uninterp spec fn g1_difference(p: Seq<u8>, q: Seq<u8>) -> Seq<u8>;

/// The uncompressed encoding of the G1 point `s·P`, where `p` encodes `P`
/// and `s` is the canonical encoding of the scalar `s`.
pub uninterp spec fn g1_scaled(p: Seq<u8>, s: Seq<u8>) -> Seq<u8>;

/// The encoding of the scalar 0.
pub open spec fn zero_scalar() -> Seq<u8> {
    Seq::new(32, |i: int| 0u8)
}

/// The sum of the first `m` terms `values[j] · g^(j·k)` in the scalar field.
pub open spec fn dft_sum(values: Seq<Seq<u8>>, g: Seq<u8>, k: nat, m: nat) -> Seq<u8>
    decreases m,
{
    if m == 0 {
        le_bytes(0, 32)
    } else {
        let j = (m - 1) as nat;
        scalar_add(dft_sum(values, g, k, j), scalar_mul(values[j as int], scalar_pow(g, j * k)))
    }
}

/// The discrete Fourier transform of `values` with root `g`: position `k`
/// holds the sum over `j` of `values[j] · g^(j·k)`.
pub open spec fn dft(values: Seq<Seq<u8>>, g: Seq<u8>) -> Seq<Seq<u8>> {
    Seq::new(values.len(), |k: int| dft_sum(values, g, k as nat, values.len()))
}

/// The inverse of the scalar `a` (for `a` not 0): `a^(r - 2)`, as the
/// modulus `r` is prime.
pub open spec fn scalar_inv(a: Seq<u8>) -> Seq<u8> {
    scalar_pow(a, (scalar_modulus() - 2) as nat)
}

/// The FFT of `values` over the evaluation domain of size `n`: their
/// discrete Fourier transform with the domain's generator.
pub open spec fn domain_fft(n: nat, values: Seq<Seq<u8>>) -> Seq<Seq<u8>> {
    dft(values, domain_generator(n))
}

/// The inverse FFT of `values` over the evaluation domain of size `n`:
/// their discrete Fourier transform with the inverse of the domain's
/// generator, each position times the inverse of `n`.
pub open spec fn domain_ifft(n: nat, values: Seq<Seq<u8>>) -> Seq<Seq<u8>> {
    let t = dft(values, scalar_inv(domain_generator(n)));
    Seq::new(t.len(), |k: int| scalar_mul(t[k], scalar_inv(le_bytes(n, 32))))
}

/// The coefficients of the polynomial that takes the values `evals` on the
/// first points of the evaluation domain of size `n` (at most `n` values,
/// and 0 on the rest): the inverse FFT of the values padded with zeros to
/// `n`, with trailing zero coefficients dropped.
pub open spec fn domain_interpolate(n: nat, evals: Seq<Seq<u8>>) -> Seq<Seq<u8>> {
    trimmed(domain_ifft(n, evals + Seq::new((n - evals.len()) as nat, |i: int| le_bytes(0, 32))))
}

/// The field's primitive `2^32`-th root of unity, `ROOT_OF_UNITY` of
/// dusk-bls12_381 (`7^((r - 1) / 2^32)`), by its value.
pub open spec fn root_of_unity() -> nat {
    0x16a2a19edfe81f20d09b681922c813b4b63683508c2280b93829971f439f0d2bnat
}

/// The canonical encoding of the generator `group_gen` of the evaluation
/// domain of size `n` (a power of two): the source squares the root of
/// unity `32 - log2(n)` times.
pub open spec fn domain_generator(n: nat) -> Seq<u8> {
    scalar_pow(le_bytes(root_of_unity(), 32), vstd::arithmetic::power2::pow2((32 - log_ceil(n)) as nat))
}

/// `(p - 1) / 2` for the modulus `p` of the base field of BLS12-381: a
/// coordinate above it is the lexicographically largest of the pair.
pub open spec fn fp_half() -> nat {
    0xd0088f51cbff34d258dd3db21a5d66bb23ba5c279c2895fb39869507b587b120f55ffff58a9ffffdcff7fffffffd555nat
}

/// The compressed encoding of the G1 point whose uncompressed encoding is
/// `u`, as the serialization notes give it: for the point at infinity, the
/// compression and infinity flags and zeros; otherwise the x-coordinate
/// with the compression flag set, and the third-highest bit set when the
/// y-coordinate is the lexicographically largest of the two.
pub open spec fn g1_compressed(u: Seq<u8>) -> Seq<u8> {
    if u[0] & 0x40u8 != 0 {
        Seq::new(48, |i: int| if i == 0 { 0xc0u8 } else { 0u8 })
    } else {
        let large = be_nat(u.subrange(48, 96)) > fp_half();
        Seq::new(48, |i: int| if i == 0 { u[0] | 0x80u8 | (if large { 0x20u8 } else { 0u8 }) } else { u[i] })
    }
}

/// The uncompressed encoding of the G1 point that the compressed encoding
/// `c` decodes to, if it decodes to one.
pub uninterp spec fn g1_decompressed(c: Seq<u8>) -> Option<Seq<u8>>;

/// The canonical encoding of the sum of the scalars `a` and `b`.
pub open spec fn scalar_add(a: Seq<u8>, b: Seq<u8>) -> Seq<u8> {
    le_bytes((le_nat(a) + le_nat(b)) % scalar_modulus(), 32)
}

/// `coeffs` with its trailing zeros dropped.
pub open spec fn trimmed(coeffs: Seq<Seq<u8>>) -> Seq<Seq<u8>> {
    coeffs.subrange(0, trimmed_len(coeffs) as int)
}

/// Coefficient `j` of the quotient of the polynomial `c` by `x - z`, by
/// Ruffini's rule from the top: the highest is `c`'s leading coefficient,
/// and each one below is `c[j + 1] + z · q[j + 1]`.
pub open spec fn ruffini_coeff(c: Seq<Seq<u8>>, z: Seq<u8>, j: nat) -> Seq<u8>
    decreases c.len() - j,
{
    if j + 2 >= c.len() {
        c[j + 1 as int]
    } else {
        scalar_add(c[j + 1 as int], scalar_mul(z, ruffini_coeff(c, z, j + 1)))
    }
}

/// The quotient of the polynomial `coeffs` (trailing zeros dropped) by
/// `x - z`, without the remainder, and with its own trailing zeros dropped.
pub open spec fn ruffini_quotient(coeffs: Seq<Seq<u8>>, z: Seq<u8>) -> Seq<Seq<u8>> {
    let c = trimmed(coeffs);
    if c.len() <= 1 {
        Seq::empty()
    } else {
        trimmed(Seq::new((c.len() - 1) as nat, |j: int| ruffini_coeff(c, z, j as nat)))
    }
}

/// Whether the public parameters `params` parse and trim to a commit key of
/// degree `degree`.
pub uninterp spec fn commit_key_available(params: Seq<u8>, degree: nat) -> bool;

/// The compressed commitment, under the commit key trimmed to `degree` from
/// the public parameters `params`, to the polynomial with coefficients `coeffs`.
pub uninterp spec fn kzg_commit(params: Seq<u8>, degree: nat, coeffs: Seq<Seq<u8>>) -> Seq<u8>;

/// Whether `bytes` is the uncompressed encoding of a point of the G1 group.
pub uninterp spec fn g1_point_valid(bytes: Seq<u8>) -> bool;

/// The big-endian number that the bytes `b` encode.
pub open spec fn be_nat(b: Seq<u8>) -> nat
    decreases b.len(),
{
    if b.len() == 0 {
        0
    } else {
        be_nat(b.drop_last()) * 256 + b.last() as nat
    }
}

/// Whether the public parameters can be read without running out of bytes:
/// the opening key (240 bytes) is there, and the number of commit key points
/// that follows it is at least one and fits in the bytes after it.
pub open spec fn params_well_sized(params: Seq<u8>) -> bool {
    &&& params.len() >= 240
    &&& params.len() >= 248 ==> {
        let points = be_nat(params.subrange(240, 248));
        points >= 1 && points * 48 <= params.len() - 248
    }
}

/// The evaluation domain of a power-of-two size, with its size and the
/// base 2 logarithm of its size.
pub struct KateDomain {
    domain: EvaluationDomain,
    size: usize,
    log_size: u32,
}

impl KateDomain {
    #[verifier::type_invariant]
    spec fn inv(self) -> bool {
        &&& self.log_size < 32
        &&& self.size as nat == vstd::arithmetic::power2::pow2(self.log_size as nat)
    }

    pub closed spec fn spec_size(self) -> nat {
        self.size as nat
    }

    pub closed spec fn spec_log_size(self) -> nat {
        self.log_size as nat
    }

    /// The number of elements of the domain.
    pub fn size(&self) -> (res: usize)
        ensures
            res == self.spec_size(),
            self.spec_log_size() < 32,
            res == vstd::arithmetic::power2::pow2(self.spec_log_size()),
    {
        proof {
            use_type_invariant(self);
        }
        self.size
    }

    /// The base 2 logarithm of the number of elements of the domain.
    pub fn log_size(&self) -> (res: u32)
        ensures
            res == self.spec_log_size(),
            res < 32,
            self.spec_size() == vstd::arithmetic::power2::pow2(res as nat),
    {
        proof {
            use_type_invariant(self);
        }
        self.log_size
    }
}

/// A commit key trimmed from public parameters, with the parameters and the
/// degree it was trimmed to.
pub struct TrimmedKey {
    key: CommitKey,
    params: Ghost<Seq<u8>>,
    degree: Ghost<nat>,
}

impl TrimmedKey {
    pub closed spec fn params(self) -> Seq<u8> {
        self.params@
    }

    pub closed spec fn degree(self) -> nat {
        self.degree@
    }
}

/// The exponent of the smallest power of two that is at least `n` (0 when
/// `n <= 1`), so that `n.next_power_of_two()` is `2^log_ceil(n)`.
pub open spec fn log_ceil(n: nat) -> nat
    decreases n,
{
    if n <= 1 {
        0
    } else {
        1 + log_ceil(((n + 1) / 2) as nat)
    }
}

/// The smallest power of two that is at least a power of two is itself.
pub proof fn lemma_log_ceil_pow2(k: nat)
    ensures
        log_ceil(vstd::arithmetic::power2::pow2(k)) == k,
    decreases k,
{
    vstd::arithmetic::power2::lemma_pow2_pos(k);
    if k > 0 {
        vstd::arithmetic::power2::lemma_pow2_unfold(k);
        vstd::arithmetic::power2::lemma_pow2_pos((k - 1) as nat);
        let p = vstd::arithmetic::power2::pow2((k - 1) as nat);
        assert((2 * p + 1) / 2 == p);
        lemma_log_ceil_pow2((k - 1) as nat);
    } else {
        vstd::arithmetic::power2::lemma2_to64();
    }
}

/// `n` is at most the power of two `2^log_ceil(n)`.
pub proof fn lemma_log_ceil_bound(n: nat)
    ensures
        n <= vstd::arithmetic::power2::pow2(log_ceil(n)),
    decreases n,
{
    if n <= 1 {
        vstd::arithmetic::power2::lemma2_to64();
    } else {
        let h = ((n + 1) / 2) as nat;
        lemma_log_ceil_bound(h);
        vstd::arithmetic::power2::lemma_pow2_unfold(log_ceil(n));
    }
}

/// A number at most `2^k` has `log_ceil` at most `k`.
pub proof fn lemma_log_ceil_le(n: nat, k: nat)
    requires
        n <= vstd::arithmetic::power2::pow2(k),
    ensures
        log_ceil(n) <= k,
    decreases n,
{
    if n > 1 {
        vstd::arithmetic::power2::lemma2_to64();
        if k == 0 {
            assert(false);
        }
        vstd::arithmetic::power2::lemma_pow2_unfold(k);
        lemma_log_ceil_le(((n + 1) / 2) as nat, (k - 1) as nat);
    }
}

impl KateDomain {
    /// The evaluation domain for `n` values, as `EvaluationDomain::new(n)`
    /// makes it: of size `n.next_power_of_two()`, or `None` where that size
    /// reaches `2^32`, the field's two-adicity.
    pub fn new(n: usize) -> (res: Option<KateDomain>)
        ensures
            res is Some <==> log_ceil(n as nat) < 32,
            res matches Some(d) ==> d.spec_log_size() == log_ceil(n as nat) && d.spec_size()
                == vstd::arithmetic::power2::pow2(log_ceil(n as nat)),
    {
        proof {
            vstd::arithmetic::power2::lemma2_to64();
        }
        if n <= 0x8000_0000 {
            proof {
                lemma_log_ceil_le(n as nat, 31);
            }
            Some(evaluation_domain(n))
        } else {
            proof {
                lemma_log_ceil_bound(n as nat);
                if log_ceil(n as nat) < 32 {
                    if log_ceil(n as nat) < 31 {
                        vstd::arithmetic::power2::lemma_pow2_strictly_increases(log_ceil(n as nat), 31);
                    }
                }
            }
            None
        }
    }
}

/// `EvaluationDomain::new(n)` of dusk-plonk: the source makes the domain of
/// size `n.next_power_of_two()`, that is `2^log_ceil(n)`, with
/// `log_size_of_group` its base 2 logarithm, and fails only when that
/// logarithm reaches the field's two-adicity, 32.
#[verifier::external_body]
pub(crate) fn evaluation_domain(n: usize) -> (res: KateDomain)
    requires
        log_ceil(n as nat) < 32,
    ensures
        res.spec_log_size() == log_ceil(n as nat),
        res.spec_size() == vstd::arithmetic::power2::pow2(log_ceil(n as nat)),
{
    let domain = EvaluationDomain::new(n).unwrap();
    KateDomain { domain, size: domain.size(), log_size: domain.log_size_of_group }
}

/// `BlsScalar::from_bytes_wide` followed by `to_bytes` (dusk-bls12_381) on
/// the 64 bytes of `block` at `offset`: the documentation says the 512-bit
/// little-endian number is reduced by the modulus, and `to_bytes` gives the
/// canonical little-endian encoding.
#[verifier::external_body]
pub(crate) fn reduce_wide_at(block: &Vec<u8>, offset: usize) -> (res: [u8; 32])
    requires
        offset + 64 <= block.len(),
    ensures
        res@ == wide_reduce(block@.subrange(offset as int, offset + 64)),
        is_canonical_scalar(res@),
{
    let wide: &[u8; 64] = std::convert::TryFrom::try_from(&block[offset..offset + 64]).unwrap();
    BlsScalar::from_bytes_wide(wide).to_bytes()
}

/// `EvaluationDomain::ifft_in_place` (dusk-plonk) on scalars given by
/// their canonical encodings, as many as the domain has elements: the
/// source's radix-2 FFT with `group_gen_inv` (a primitive root of the
/// domain's size, so the FFT is the discrete Fourier transform), then each
/// value times `size_inv`, as `domain_ifft` states; `to_bytes` gives
/// canonical encodings.
#[verifier::external_body]
pub(crate) fn ifft(domain: &KateDomain, values: Vec<[u8; 32]>) -> (res: Vec<[u8; 32]>)
    requires
        values.len() == domain.spec_size(),
        all_canonical(scalars_view(values@)),
    ensures
        scalars_view(res@) == domain_ifft(domain.spec_size(), scalars_view(values@)),
        res.len() == values.len(),
        all_canonical(scalars_view(res@)),
{
    let mut scalars: Vec<BlsScalar> = values.iter().map(|b| BlsScalar::from_bytes(b).unwrap()).collect();
    domain.domain.ifft_in_place(&mut scalars);
    scalars.iter().map(|s| s.to_bytes()).collect()
}

/// `EvaluationDomain::fft_in_place` (dusk-plonk) on scalars given by their
/// canonical encodings, as many as the domain has elements: the source's
/// radix-2 FFT with `group_gen`, a primitive root of the domain's size, so
/// the result is the discrete Fourier transform `domain_fft` states.
#[verifier::external_body]
pub(crate) fn fft(domain: &KateDomain, values: Vec<[u8; 32]>) -> (res: Vec<[u8; 32]>)
    requires
        values.len() == domain.spec_size(),
        all_canonical(scalars_view(values@)),
    ensures
        scalars_view(res@) == domain_fft(domain.spec_size(), scalars_view(values@)),
        res.len() == values.len(),
        all_canonical(scalars_view(res@)),
{
    let mut scalars: Vec<BlsScalar> = values.iter().map(|b| BlsScalar::from_bytes(b).unwrap()).collect();
    domain.domain.fft_in_place(&mut scalars);
    scalars.iter().map(|s| s.to_bytes()).collect()
}

/// `Evaluations::from_vec_and_domain(..).interpolate()` (dusk-plonk) on
/// at most as many values as the domain has elements: the source pads the
/// values with zeros to the domain's size, runs `ifft_in_place`, and drops
/// trailing zero coefficients, as `domain_interpolate` states.
#[verifier::external_body]
pub(crate) fn interpolate(domain: &KateDomain, evals: Vec<[u8; 32]>) -> (res: Vec<[u8; 32]>)
    requires
        evals.len() <= domain.spec_size(),
        all_canonical(scalars_view(evals@)),
    ensures
        scalars_view(res@) == domain_interpolate(domain.spec_size(), scalars_view(evals@)),
        res.len() <= domain.spec_size(),
        all_canonical(scalars_view(res@)),
{
    let scalars: Vec<BlsScalar> = evals.iter().map(|b| BlsScalar::from_bytes(b).unwrap()).collect();
    let polynomial = Evaluations::from_vec_and_domain(scalars, domain.domain).interpolate();
    polynomial.coeffs.iter().map(|s| s.to_bytes()).collect()
}

/// `EvaluationDomain::elements()` (dusk-plonk): the domain's elements in
/// order, one for each position; the source starts at 1 and multiplies by
/// `group_gen` at each step, so element `i` is the generator to the `i`.
#[verifier::external_body]
pub(crate) fn domain_elements(domain: &KateDomain) -> (res: Vec<[u8; 32]>)
    ensures
        res.len() == domain.spec_size(),
        forall|i: int|
            0 <= i < res.len() ==> (#[trigger] res@[i])@ == scalar_pow(domain_generator(domain.spec_size()), i as nat),
        all_canonical(scalars_view(res@)),
{
    domain.domain.elements().map(|s| s.to_bytes()).collect()
}

/// `CommitKey::compute_single_witness` (dusk-plonk) on the polynomial made
/// by `Polynomial::from_coefficients_vec` (trailing zeros dropped): the
/// source's `ruffini` runs from the leading coefficient down, each step
/// `t = coeff + k`, `k = z · t`, then drops the last `t` (the remainder) and
/// makes a polynomial of the rest, as `ruffini_quotient` states; there are
/// fewer coefficients than in the input, or none.
#[verifier::external_body]
pub(crate) fn single_witness(key: &TrimmedKey, coeffs: &Vec<[u8; 32]>, point: &[u8; 32]) -> (res: Vec<[u8; 32]>)
    requires
        all_canonical(scalars_view(coeffs@)),
        is_canonical_scalar(point@),
    ensures
        scalars_view(res@) == ruffini_quotient(scalars_view(coeffs@), point@),
        res.len() <= coeffs.len(),
        all_canonical(scalars_view(res@)),
{
    let scalars: Vec<BlsScalar> = coeffs.iter().map(|b| BlsScalar::from_bytes(b).unwrap()).collect();
    let polynomial = Polynomial::from_coefficients_vec(scalars);
    let z = BlsScalar::from_bytes(point).unwrap();
    let witness = key.key.compute_single_witness(&polynomial, &z);
    witness.coeffs.iter().map(|s| s.to_bytes()).collect()
}

/// `PublicParameters::from_bytes` followed by `trim(degree)` (dusk-plonk):
/// whether both succeed is named `commit_key_available`; the key keeps the
/// parameters and degree it came from. The source panics when the bytes
/// are too few for the opening key, and allocates for as many commit key
/// points as the bytes declare, so `params_well_sized` is required.
#[verifier::external_body]
pub(crate) fn trim_public_params(params: &Vec<u8>, degree: usize) -> (res: Option<TrimmedKey>)
    requires
        params_well_sized(params@),
    ensures
        res.is_some() == commit_key_available(params@, degree as nat),
        res matches Some(k) ==> k.params() == params@ && k.degree() == degree,
{
    match PublicParameters::from_bytes(params.as_slice()) {
        Ok(pp) => match pp.trim(degree) {
            Ok((key, _)) => Some(TrimmedKey { key, params: Ghost(params@), degree: Ghost(degree as nat) }),
            Err(_) => None,
        },
        Err(_) => None,
    }
}

/// The number of coefficients in `coeffs` once trailing zeros are dropped.
pub open spec fn trimmed_len(coeffs: Seq<Seq<u8>>) -> nat
    decreases coeffs.len(),
{
    if coeffs.len() == 0 {
        0
    } else if coeffs.last() == zero_scalar() {
        trimmed_len(coeffs.drop_last())
    } else {
        coeffs.len()
    }
}

/// The highest degree the key trimmed to `degree` commits to: `trim` raises
/// a degree of 1 to 2.
pub open spec fn key_max_degree(degree: nat) -> nat {
    if degree == 1 {
        2
    } else {
        degree
    }
}

/// Whether `CommitKey::commit`, with the key trimmed to `degree`, accepts
/// the polynomial with coefficients `coeffs`: its degree, once trailing
/// zeros are dropped, is neither 0 nor above the key's.
pub open spec fn commit_degree_ok(degree: nat, coeffs: Seq<Seq<u8>>) -> bool {
    2 <= trimmed_len(coeffs) && trimmed_len(coeffs) <= key_max_degree(degree) + 1
}

/// `CommitKey::commit` (dusk-plonk) and the compressed encoding of the
/// commitment point: named `kzg_commit` of the key's parameters and degree.
/// `Polynomial::from_coefficients_vec` drops trailing zeros, and the source
/// fails exactly when the resulting degree is 0 (a zero or constant
/// polynomial) or above the key's, which `commit_degree_ok` rules out.
#[verifier::external_body]
pub(crate) fn commit(key: &TrimmedKey, coeffs: &Vec<[u8; 32]>) -> (res: [u8; 48])
    requires
        commit_degree_ok(key.degree(), scalars_view(coeffs@)),
        all_canonical(scalars_view(coeffs@)),
    ensures
        res@ == kzg_commit(key.params(), key.degree(), scalars_view(coeffs@)),
{
    let scalars: Vec<BlsScalar> = coeffs.iter().map(|b| BlsScalar::from_bytes(b).unwrap()).collect();
    let polynomial = Polynomial::from_coefficients_vec(scalars);
    key.key.commit(&polynomial).unwrap().0.to_compressed()
}

/// `StdRng::from_seed` (rand): a generator seeded with `seed`. Nothing is
/// stated of the numbers it will give.
#[verifier::external_body]
pub(crate) fn seeded_rng(seed: [u8; 32]) -> StdRng {
    StdRng::from_seed(seed)
}

/// `Rng::gen::<u8>()` (rand): the next byte of the generator. Nothing is
/// stated of its value.
#[verifier::external_body]
pub(crate) fn next_random_byte(rng: &mut StdRng) -> u8 {
    rng.gen::<u8>()
}

/// `G1Projective + &G1Projective` (bls12_381) on points given by their
/// uncompressed encodings (decoded with `G1Affine::from_uncompressed`, the
/// sum encoded with `to_uncompressed`): named `g1_sum`. An encoding made by
/// `to_uncompressed` decodes again, so the result is a valid encoding.
#[verifier::external_body]
pub(crate) fn g1_add(p: &[u8; 96], q: &[u8; 96]) -> (res: [u8; 96])
    requires
        g1_point_valid(p@),
        g1_point_valid(q@),
    ensures
        res@ == g1_sum(p@, q@),
        g1_point_valid(res@),
{
    let x = bls12_381::G1Projective::from(bls12_381::G1Affine::from_uncompressed(p).unwrap());
    let y = bls12_381::G1Projective::from(bls12_381::G1Affine::from_uncompressed(q).unwrap());
    bls12_381::G1Affine::from(x + y).to_uncompressed()
}

/// `G1Projective - &G1Projective` (bls12_381) on points given by their
/// uncompressed encodings: named `g1_difference`; the result is a valid
/// encoding.
#[verifier::external_body]
pub(crate) fn g1_sub(p: &[u8; 96], q: &[u8; 96]) -> (res: [u8; 96])
    requires
        g1_point_valid(p@),
        g1_point_valid(q@),
    ensures
        res@ == g1_difference(p@, q@),
        g1_point_valid(res@),
{
    let x = bls12_381::G1Projective::from(bls12_381::G1Affine::from_uncompressed(p).unwrap());
    let y = bls12_381::G1Projective::from(bls12_381::G1Affine::from_uncompressed(q).unwrap());
    bls12_381::G1Affine::from(x - y).to_uncompressed()
}

/// `G1Projective * &Scalar` (bls12_381) on a point given by its
/// uncompressed encoding and a scalar given by its canonical encoding
/// (`Scalar::from_bytes`, which fails only on non-canonical bytes): named
/// `g1_scaled`; the result is a valid encoding.
#[verifier::external_body]
pub(crate) fn g1_mul(p: &[u8; 96], s: &[u8; 32]) -> (res: [u8; 96])
    requires
        g1_point_valid(p@),
        is_canonical_scalar(s@),
    ensures
        res@ == g1_scaled(p@, s@),
        g1_point_valid(res@),
{
    let x = bls12_381::G1Projective::from(bls12_381::G1Affine::from_uncompressed(p).unwrap());
    let k = bls12_381::Scalar::from_bytes(s).unwrap();
    bls12_381::G1Affine::from(x * k).to_uncompressed()
}

/// `G1Affine::from_uncompressed` (bls12_381), whether it succeeds, which is
/// what `g1_point_valid` names.
#[verifier::external_body]
pub(crate) fn g1_valid(p: &[u8; 96]) -> (res: bool)
    ensures
        res == g1_point_valid(p@),
{
    bool::from(bls12_381::G1Affine::from_uncompressed(p).is_some())
}

/// `G1Affine::to_compressed` (bls12_381) of the point decoded with
/// `from_uncompressed`: the source writes the x-coordinate and the three
/// flag bits as `g1_compressed` states.
#[verifier::external_body]
pub(crate) fn g1_compress(p: &[u8; 96]) -> (res: [u8; 48])
    requires
        g1_point_valid(p@),
    ensures
        res@ == g1_compressed(p@),
{
    bls12_381::G1Affine::from_uncompressed(p).unwrap().to_compressed()
}

/// `G1Affine::from_compressed` (bls12_381), re-encoded with
/// `to_uncompressed`: the point, if the bytes decode to one, named
/// `g1_decompressed`; its uncompressed encoding decodes again.
#[verifier::external_body]
pub(crate) fn g1_decompress(c: &[u8; 48]) -> (res: Option<[u8; 96]>)
    ensures
        res is Some <==> g1_decompressed(c@) is Some,
        res matches Some(p) ==> g1_decompressed(c@) == Some(p@) && g1_point_valid(p@),
{
    Option::<bls12_381::G1Affine>::from(bls12_381::G1Affine::from_compressed(c)).map(|p| p.to_uncompressed())
}

/// `G1Affine::identity().to_uncompressed()` (bls12_381): the serialization
/// notes give the encoding of the point at infinity, which decodes again.
#[verifier::external_body]
pub(crate) fn g1_identity() -> (res: [u8; 96])
    ensures
        res@ == g1_identity_encoding(),
        g1_point_valid(res@),
{
    bls12_381::G1Affine::identity().to_uncompressed()
}

/// `Scalar::one().to_bytes()` (bls12_381): the canonical encoding of 1.
#[verifier::external_body]
pub(crate) fn zk_one() -> (res: [u8; 32])
    ensures
        res@ == le_bytes(1, 32),
{
    bls12_381::Scalar::one().to_bytes()
}

/// `Scalar * &Scalar` (bls12_381), the product in the scalar field, on
/// canonical encodings.
#[verifier::external_body]
pub(crate) fn zk_mul(a: &[u8; 32], b: &[u8; 32]) -> (res: [u8; 32])
    requires
        is_canonical_scalar(a@),
        is_canonical_scalar(b@),
    ensures
        res@ == scalar_mul(a@, b@),
{
    (bls12_381::Scalar::from_bytes(a).unwrap() * bls12_381::Scalar::from_bytes(b).unwrap()).to_bytes()
}

/// `Scalar::pow(&[e, 0, 0, 0])` (bls12_381), the power by the
/// little-endian exponent `e`, on a canonical encoding.
#[verifier::external_body]
pub(crate) fn zk_pow(a: &[u8; 32], e: u64) -> (res: [u8; 32])
    requires
        is_canonical_scalar(a@),
    ensures
        res@ == scalar_pow(a@, e as nat),
{
    bls12_381::Scalar::from_bytes(a).unwrap().pow(&[e, 0, 0, 0]).to_bytes()
}

/// The domain's generator `group_gen` (dusk-plonk), by its canonical
/// encoding.
#[verifier::external_body]
pub(crate) fn domain_group_gen(domain: &KateDomain) -> (res: [u8; 32])
    ensures
        res@ == domain_generator(domain.spec_size()),
        is_canonical_scalar(res@),
{
    domain.domain.group_gen.to_bytes()
}

/// The inverse of the domain's generator, `group_gen_inv` (dusk-plonk, made
/// by `group_gen.invert()`, the inverse in the prime field, which is the
/// power by `r - 2`), by its canonical encoding.
#[verifier::external_body]
pub(crate) fn domain_group_gen_inv(domain: &KateDomain) -> (res: [u8; 32])
    ensures
        res@ == scalar_inv(domain_generator(domain.spec_size())),
        is_canonical_scalar(res@),
{
    domain.domain.group_gen_inv.to_bytes()
}

/// The inverse of the domain's size, `size_inv` (dusk-plonk, made by
/// `Scalar::from(size).invert()`, the power by `r - 2`), by its canonical
/// encoding.
#[verifier::external_body]
pub(crate) fn domain_size_inv(domain: &KateDomain) -> (res: [u8; 32])
    ensures
        res@ == scalar_inv(le_bytes(domain.spec_size(), 32)),
        is_canonical_scalar(res@),
{
    domain.domain.size_inv.to_bytes()
}

} // verus!
