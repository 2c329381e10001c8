use crate::hypercube::{bool_point, lemma_zprod_append, lemma_zprod_prefix_bits, lemma_zprod_split, zprod};
use crate::lookup_tables::suffixes::SparseDenseSuffix;
use crate::utils::lookup_bits::LookupBits;
use crate::utils::word_bit;
use vstd::arithmetic::power2::*;
use vstd::prelude::*;

verus! {

/// Suffix that evaluates to 1 iff all bits with significance >= 2^BOUND are zero.
pub struct ZeroGtBoundSuffix<const XLEN: usize, const BOUND: usize>;

/// The suffix lengths and bounds on which the zero-above-bound suffix is evaluated.
pub open spec fn zero_gt_bound_defined(xlen: nat, bound: nat, len: nat) -> bool {
    &&& bound < 2 * xlen
    &&& len <= 2 * xlen <= usize::MAX
}

impl<const XLEN: usize, const BOUND: usize> SparseDenseSuffix for ZeroGtBoundSuffix<XLEN, BOUND> {
    open spec fn defined(len: nat) -> bool {
        zero_gt_bound_defined(XLEN as nat, BOUND as nat, len)
    }

    open spec fn value(bits: LookupBits) -> int {
        if bits.value() < pow2(BOUND as nat) {
            1
        } else {
            0
        }
    }

    fn suffix_mle(bits: LookupBits) -> (res: u32) {
        let bound_index = 2 * XLEN - BOUND - 1;
        let len = bits.len();
        let bits_u64: u64 = bits.to_u64();
        let ghost v = bits_u64 as int;
        let ghost r = bool_point(v, len as nat);
        // The number of leading positions whose significance is at least the bound.
        let ghost c: int = if len > BOUND {
            len - BOUND
        } else {
            0
        };
        proof {
            lemma_zprod_prefix_bits(v, len as nat, c);
            if len <= BOUND {
                assert((len - c) as nat == len as nat);
                if len < BOUND {
                    lemma_pow2_strictly_increases(len as nat, BOUND as nat);
                }
            } else {
                assert((len - c) as nat == BOUND as nat);
            }
        }
        let suffix_start_index = 2 * XLEN - len;
        let mut pos: usize = 0;
        while pos < len
            invariant
                pos <= len <= 2 * XLEN,
                len <= 64,
                2 * XLEN <= usize::MAX,
                bound_index == 2 * XLEN - BOUND - 1,
                suffix_start_index == 2 * XLEN - len,
                v == bits_u64,
                v == bits.value(),
                r == bool_point(v, len as nat),
                c == (if len > BOUND {
                    len - BOUND
                } else {
                    0
                }),
                0 <= c <= len,
                zprod(r, 0, c) == (if v < pow2(BOUND as nat) {
                    1int
                } else {
                    0int
                }),
                zprod(r, 0, if pos <= c {
                    pos as int
                } else {
                    c
                }) == 1,
            decreases len - pos,
        {
            let global_index = suffix_start_index + pos;
            if global_index <= bound_index {
                let bit = word_bit(bits_u64, len - 1 - pos);
                proof {
                    assert(pos < c);
                    lemma_zprod_append(r, 0, pos as int);
                    assert(r[pos as int] == bit);
                }
                if bit == 1 {
                    proof {
                        lemma_zprod_split(r, 0, pos + 1, c);
                        assert(zprod(r, 0, pos + 1) == 0);
                        assert(zprod(r, 0, pos + 1) * zprod(r, pos + 1, c) == 0) by (nonlinear_arith)
                            requires
                                zprod(r, 0, pos + 1) == 0,
                        ;
                        assert(zprod(r, 0, c) == 0);
                        assert(!(v < pow2(BOUND as nat)));
                    }
                    return 0;
                }
            }
            pos += 1;
        }
        1
    }
}

} // verus!
