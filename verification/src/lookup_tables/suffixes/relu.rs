use crate::lookup_tables::suffixes::lower_word_no_msb::{
    holds_sign, low_width, low_word, low_word_defined, low_words, sign_of, suffix_sign,
};
use crate::lookup_tables::suffixes::SparseDenseSuffix;
use crate::utils::lookup_bits::LookupBits;
use vstd::arithmetic::power2::*;
use vstd::prelude::*;

verus! {

/// The ReLU suffix of an `XLEN`-bit word: where the suffix holds the sign bit, the word below
/// it if the sign bit is 0 and 0 otherwise; else the suffix's bits, all below the sign bit.
pub struct ReluSuffix<const XLEN: usize>;

/// The value of the ReLU suffix.
pub open spec fn relu_suffix_value(b: LookupBits, xlen: nat) -> int {
    if holds_sign(b, xlen) {
        (1 - sign_of(b, xlen)) * low_word(b, xlen)
    } else {
        low_word(b, xlen)
    }
}

impl<const XLEN: usize> SparseDenseSuffix for ReluSuffix<XLEN> {
    open spec fn defined(len: nat) -> bool {
        low_word_defined(XLEN as nat, len)
    }

    open spec fn value(bits: LookupBits) -> int {
        relu_suffix_value(bits, XLEN as nat)
    }

    fn suffix_mle(bits: LookupBits) -> (r: u32) {
        let w = low_words(bits, XLEN);
        proof {
            lemma2_to64();
            if low_width(XLEN as nat, bits.length()) < 32 {
                lemma_pow2_strictly_increases(low_width(XLEN as nat, bits.length()), 32);
            }
        }
        if bits.len() >= XLEN {
            let s = suffix_sign(bits, XLEN);
            let ghost lw = low_word(bits, XLEN as nat);
            if s == 1 {
                proof {
                    assert((1 - s) * lw == 0) by (nonlinear_arith)
                        requires
                            s == 1,
                    ;
                }
                0
            } else {
                proof {
                    assert((1 - s) * lw == lw) by (nonlinear_arith)
                        requires
                            s == 0,
                    ;
                }
                w.0 as u32
            }
        } else {
            w.0 as u32
        }
    }
}

} // verus!
