use crate::hypercube::{
    bit, bool_point, lemma_wsum_append, lemma_wsum_bits, lemma_wsum_bits_nonneg, lemma_wsum_split,
    place, wsum,
};
use crate::lookup_tables::suffixes::SparseDenseSuffix;
use crate::utils::lookup_bits::LookupBits;
use crate::utils::word_bit;
use vstd::arithmetic::div_mod::*;
use vstd::arithmetic::power2::*;
use vstd::bits::lemma_u32_shl_is_mul;
use vstd::prelude::*;

verus! {

/// Suffix whose value is the word formed by the bits of significance `< U`.
pub struct WordLtBoundSuffix<const XLEN: usize, const U: usize>;

/// The suffix lengths and bounds on which the word-below-bound suffix is evaluated: the bound
/// lies inside the `2 * xlen`-bit index and the word, whose bits are those of the suffix below
/// the bound, fits in 32 bits.
pub open spec fn word_lt_bound_defined(xlen: nat, bound: nat, len: nat) -> bool {
    &&& bound < 2 * xlen
    &&& (if len < bound { len } else { bound }) <= 32
    &&& len <= 2 * xlen <= usize::MAX
}

/// Computes `∑_{i < bound} b_i · 2^i` over the bits `b_i` (of significance `i`) of the suffix
/// `bits`, which holds the low `bits.len()` bits of a `2 * xlen`-bit index.
pub fn word_below_bound(bits: LookupBits, xlen: usize, bound: usize) -> (result: u32)
    requires
        word_lt_bound_defined(xlen as nat, bound as nat, bits.length()),
    ensures
        result == bits.value() % (pow2(bound as nat) as int),
{
    let ubound_index = 2 * xlen - bound - 1;
    let len = bits.len();
    let bits_u64: u64 = bits.to_u64();
    let ghost v = bits_u64 as int;
    let ghost r = bool_point(v, len as nat);
    let ghost n = len as int;
    // The first position whose significance is below the bound.
    let ghost c: int = if len >= bound {
        len - bound
    } else {
        0
    };
    proof {
        lemma_wsum_bits(v, len as nat, c);
        lemma_pow2_pos(bound as nat);
        if len >= bound {
            assert((len - c) as nat == bound as nat);
        } else {
            assert((len - c) as nat == len as nat);
            lemma_small_mod(v as nat, pow2(len as nat));
            lemma_pow2_strictly_increases(len as nat, bound as nat);
            lemma_small_mod(v as nat, pow2(bound as nat));
        }
        assert(wsum(r, c, n, n) == v % (pow2(bound as nat) as int));
        lemma_wsum_bits(v, len as nat, c);
        let m = (n - c) as nat;
        assert(m <= 32);
        lemma_pow2_pos(m);
        lemma_mod_bound(v, pow2(m) as int);
        if m < 32 {
            lemma_pow2_strictly_increases(m, 32);
        }
        lemma2_to64();
    }
    let suffix_start_index = 2 * xlen - len;
    let mut result = 0u32;
    let mut pos: usize = 0;
    while pos < len
        invariant
            pos <= len <= 2 * xlen,
            len <= 64,
            2 * xlen <= usize::MAX,
            len as int == n,
            ubound_index == 2 * xlen - bound - 1,
            suffix_start_index == 2 * xlen - len,
            n - c <= 32,
            0 <= c <= n,
            v == bits_u64,
            r == bool_point(v, len as nat),
            c == (if len >= bound {
                len - bound
            } else {
                0
            }),
            wsum(r, c, n, n) < pow2(32),
            result == (if pos <= c {
                0
            } else {
                wsum(r, c, pos as int, n)
            }),
        decreases len - pos,
    {
        let global_index = suffix_start_index + pos;
        if global_index > ubound_index {
            let exponent = 2 * xlen - global_index - 1;
            let bit = word_bit(bits_u64, len - 1 - pos) as u32;
            proof {
                assert(pos >= c);
                assert(exponent == len - 1 - pos);
                assert(exponent < 32);
                lemma_pow2_strictly_increases(exponent as nat, 32);
                lemma2_to64();
                assert(bit * pow2(exponent as nat) <= 1 * pow2(exponent as nat)) by (nonlinear_arith)
                    requires
                        bit <= 1,
                ;
                lemma_u32_shl_is_mul(bit, exponent as u32);
                lemma_wsum_append(r, c, pos as int, n);
                assert(r[pos as int] == bit);
                assert(place(n, pos as int) == pow2(exponent as nat));
                lemma_wsum_split(r, c, pos + 1, n, n);
                lemma_wsum_bits_nonneg(v, len as nat, pos + 1, n);
            }
            result += bit << (exponent as u32);
        } else {
            proof {
                assert(pos < c);
            }
        }
        pos += 1;
    }
    result
}

impl<const XLEN: usize, const U: usize> SparseDenseSuffix for WordLtBoundSuffix<XLEN, U> {
    open spec fn defined(len: nat) -> bool {
        word_lt_bound_defined(XLEN as nat, U as nat, len)
    }

    open spec fn value(bits: LookupBits) -> int {
        bits.value() % (pow2(U as nat) as int)
    }

    fn suffix_mle(bits: LookupBits) -> (r: u32) {
        word_below_bound(bits, XLEN, U)
    }
}

} // verus!
