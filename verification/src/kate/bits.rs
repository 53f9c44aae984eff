//! Bit reversal of indices, as used to reorder the input of an in-place FFT.
use vstd::prelude::*;
use vstd::arithmetic::div_mod::*;
use vstd::arithmetic::power2::*;

verus! {

/// The number whose `l` low bits are those of `n` in reverse order.
pub open spec fn rev_bits(n: nat, l: nat) -> nat
    decreases l,
{
    if l == 0 {
        0
    } else {
        (n % 2) * pow2((l - 1) as nat) + rev_bits(n / 2, (l - 1) as nat)
    }
}

/// A reversal of `l` bits is below `2^l`.
pub proof fn lemma_rev_bits_bound(n: nat, l: nat)
    ensures
        rev_bits(n, l) < pow2(l),
    decreases l,
{
    if l > 0 {
        lemma_rev_bits_bound(n / 2, (l - 1) as nat);
        lemma_pow2_unfold(l);
        lemma_pow2_pos((l - 1) as nat);
        assert((n % 2) * pow2((l - 1) as nat) <= pow2((l - 1) as nat)) by (nonlinear_arith)
            requires
                n % 2 <= 1,
                pow2((l - 1) as nat) > 0,
        ;
        assert(rev_bits(n, l) == (n % 2) * pow2((l - 1) as nat) + rev_bits(n / 2, (l - 1) as nat));
        assert(rev_bits(n / 2, (l - 1) as nat) < pow2((l - 1) as nat));
        assert(pow2(l) == 2 * pow2((l - 1) as nat));
    } else {
        lemma_pow2_pos(0);
        assert(rev_bits(n, l) == 0);
    }
}

/// Reversing one more bit shifts the reversal so far up by one and puts
/// bit `k` of `n` below it.
pub proof fn lemma_rev_bits_step(n: nat, k: nat)
    ensures
        rev_bits(n, k + 1) == 2 * rev_bits(n, k) + (n / pow2(k)) % 2,
    decreases k,
{
    if k == 0 {
        lemma2_to64();
        assert(n / 1 == n) by {
            lemma_div_basics_1(n as int);
        }
        assert(rev_bits(n, 1) == (n % 2) * pow2(0) + rev_bits(n / 2, 0));
    } else {
        lemma_rev_bits_step(n / 2, (k - 1) as nat);
        lemma_pow2_unfold(k);
        lemma_pow2_pos((k - 1) as nat);
        lemma_div_denominator(n as int, 2, pow2((k - 1) as nat) as int);
        assert(rev_bits(n, k + 1) == (n % 2) * pow2(k) + rev_bits(n / 2, k));
        assert(rev_bits(n, k) == (n % 2) * pow2((k - 1) as nat) + rev_bits(n / 2, (k - 1) as nat));
        assert((n % 2) * pow2(k) == 2 * ((n % 2) * pow2((k - 1) as nat))) by (nonlinear_arith)
            requires
                pow2(k) == 2 * pow2((k - 1) as nat),
        ;
        assert(rev_bits(n / 2, k) == 2 * rev_bits(n / 2, (k - 1) as nat) + ((n / 2) / pow2((k - 1) as nat)) % 2);
        assert((n / 2) / pow2((k - 1) as nat) == n / pow2(k));
    }
}

/// Only the `l` low bits of `n` matter to its `l`-bit reversal.
pub proof fn lemma_rev_bits_low(n: nat, l: nat)
    ensures
        rev_bits(n, l) == rev_bits(n % pow2(l), l),
    decreases l,
{
    if l > 0 {
        let h = pow2((l - 1) as nat);
        lemma_pow2_unfold(l);
        lemma_pow2_pos((l - 1) as nat);
        let m = n % pow2(l);
        assert(pow2(l) == 2 * h);
        lemma_mod_breakdown(n as int, 2, h as int);
        assert(m % 2 == n % 2) by {
            lemma_mod_mod(n as int, 2, h as int);
        }
        assert(m / 2 == (n / 2) % h) by {
            lemma_fundamental_div_mod(n as int, 2);
            lemma_mod_pos_bound(n as int, 2);
            lemma_mod_pos_bound((n / 2) as int, h as int);
            lemma_fundamental_div_mod_converse_div(m as int, 2, ((n / 2) % h) as int, (n % 2) as int);
        }
        lemma_rev_bits_low(n / 2, (l - 1) as nat);
        assert(rev_bits(n / 2, (l - 1) as nat) == rev_bits((n / 2) % h, (l - 1) as nat));
        assert(rev_bits(m / 2, (l - 1) as nat) == rev_bits(n / 2, (l - 1) as nat));
        assert(rev_bits(m, l) == (m % 2) * h + rev_bits(m / 2, (l - 1) as nat));
        assert(rev_bits(n, l) == (n % 2) * h + rev_bits(n / 2, (l - 1) as nat));
        assert((m % 2) * h == (n % 2) * h);
        assert(rev_bits(n, l) == rev_bits(m, l));
    } else {
        lemma_pow2_pos(l);
        let m = n % pow2(l);
        assert(rev_bits(m, 0) == 0);
    }
}

/// Reversing `l` bits of a number whose bit `l - 1` is `b` and whose lower
/// bits are `y` puts `b` at the bottom, above the reversal of `y`.
proof fn lemma_rev_bits_top(y: nat, b: nat, l: nat)
    requires
        l > 0,
        y < pow2((l - 1) as nat),
        b <= 1,
    ensures
        rev_bits(y + b * pow2((l - 1) as nat), l) == 2 * rev_bits(y, (l - 1) as nat) + b,
{
    let h = pow2((l - 1) as nat);
    let z = y + b * h;
    lemma_pow2_pos((l - 1) as nat);
    lemma_rev_bits_step(z, (l - 1) as nat);
    assert(z / h == b) by {
        lemma_fundamental_div_mod_converse_div(z as int, h as int, b as int, y as int);
    }
    assert(z % h == y) by {
        lemma_fundamental_div_mod_converse_mod(z as int, h as int, b as int, y as int);
    }
    lemma_rev_bits_low(z, (l - 1) as nat);
}

/// Reversing the `l` low bits twice gives back any number below `2^l`.
pub proof fn lemma_rev_bits_involution(x: nat, l: nat)
    requires
        x < pow2(l),
    ensures
        rev_bits(rev_bits(x, l), l) == x,
    decreases l,
{
    if l > 0 {
        let h = pow2((l - 1) as nat);
        lemma_pow2_unfold(l);
        lemma_pow2_pos((l - 1) as nat);
        let b = x % 2;
        let q = x / 2;
        lemma_fundamental_div_mod(x as int, 2);
        assert(q < h);
        lemma_rev_bits_bound(q, (l - 1) as nat);
        let y = rev_bits(q, (l - 1) as nat);
        assert(rev_bits(x, l) == b * h + y);
        assert(b * h + y == y + b * h);
        lemma_rev_bits_top(y, b, l);
        lemma_rev_bits_involution(q, (l - 1) as nat);
        assert(2 * q + b == x);
    } else {
        lemma2_to64();
    }
}

/// The number whose `l` low bits are those of `n` in reverse order, kept to
/// 32 bits.
pub fn bitreverse(n: u32, l: u32) -> (r: u32)
    ensures
        r as nat == rev_bits(n as nat, l as nat) % pow2(32),
        l <= 32 ==> r as nat == rev_bits(n as nat, l as nat),
{
    let ghost n0 = n as nat;
    let mut n = n;
    let mut r: u32 = 0;
    let mut k: u32 = 0;
    proof {
        lemma2_to64();
        assert(n0 / pow2(0) == n0);
    }
    while k < l
        invariant
            0 <= k <= l,
            r as nat == rev_bits(n0, k as nat) % pow2(32),
            n as nat == n0 / pow2(k as nat),
            pow2(32) == 4294967296,
        decreases l - k,
    {
        let bit = n & 1;
        let next = (r << 1u32) | bit;
        proof {
            assert(bit as nat == (n as nat) % 2) by (bit_vector)
                requires
                    bit == n & 1u32,
            ;
            assert(next as nat == (2 * (r as nat) + (n as nat) % 2) % 4294967296) by (bit_vector)
                requires
                    next == (r << 1u32) | (n & 1u32),
            ;
            lemma_rev_bits_step(n0, k as nat);
            let rv = rev_bits(n0, k as nat);
            lemma_mod_pos_bound(rv as int, 4294967296);
            lemma_mul_mod_noop_right(2, rv as int, 4294967296);
            lemma_add_mod_noop((2 * rv) as int, ((n as nat) % 2) as int, 4294967296);
            lemma_add_mod_noop((2 * (r as nat)) as int, ((n as nat) % 2) as int, 4294967296);
            lemma_small_mod(((n as nat) % 2), 4294967296);
            lemma_pow2_unfold((k + 1) as nat);
            lemma_pow2_pos(k as nat);
            lemma_div_denominator(n0 as int, pow2(k as nat) as int, 2);
            assert(pow2(k as nat) * 2 == pow2((k + 1) as nat));
        }
        r = next;
        assert((n >> 1u32) as nat == (n as nat) / 2) by (bit_vector);
        n = n >> 1u32;
        k = k + 1;
    }
    proof {
        if l <= 32 {
            lemma_rev_bits_bound(n0, l as nat);
            if l < 32 {
                lemma_pow2_strictly_increases(l as nat, 32);
            }
            lemma_small_mod(rev_bits(n0, l as nat), pow2(32));
        }
    }
    r
}

} // verus!
