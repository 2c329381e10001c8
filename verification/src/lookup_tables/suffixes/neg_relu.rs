use crate::lookup_tables::suffixes::lower_word_no_msb::{
    holds_sign, low_width, low_word_defined, low_words, not_low_word, sign_of, suffix_sign,
};
use crate::lookup_tables::suffixes::SparseDenseSuffix;
use crate::utils::lookup_bits::LookupBits;
use vstd::arithmetic::power2::*;
use vstd::prelude::*;

verus! {

/// The negated-ReLU suffix of an `XLEN`-bit word: where the suffix holds the sign bit, the
/// two's-complement negation `(!x) + 1` of the word below it if the sign bit is 1 and 0
/// otherwise; else the complement `!x` of the suffix's bits, all below the sign bit (the `+ 1`
/// then comes with the sign bit, in the prefix).
pub struct NegReluSuffix<const XLEN: usize>;

/// The value of the negated-ReLU suffix.
pub open spec fn neg_relu_suffix_value(b: LookupBits, xlen: nat) -> int {
    if holds_sign(b, xlen) {
        sign_of(b, xlen) * (1 + not_low_word(b, xlen))
    } else {
        not_low_word(b, xlen)
    }
}

/// The suffix lengths on which the negated-ReLU suffix is evaluated: where the suffix holds the
/// sign bit, the negation, up to `2^(xlen - 1)`, fits in 32 bits.
pub open spec fn neg_relu_suffix_defined(xlen: nat, len: nat) -> bool {
    low_word_defined(xlen, len) && (len >= xlen ==> xlen <= 32)
}

impl<const XLEN: usize> SparseDenseSuffix for NegReluSuffix<XLEN> {
    open spec fn defined(len: nat) -> bool {
        neg_relu_suffix_defined(XLEN as nat, len)
    }

    open spec fn value(bits: LookupBits) -> int {
        neg_relu_suffix_value(bits, XLEN as nat)
    }

    fn suffix_mle(bits: LookupBits) -> (r: u32) {
        let w = low_words(bits, XLEN);
        proof {
            lemma2_to64();
            if low_width(XLEN as nat, bits.length()) < 32 {
                lemma_pow2_strictly_increases(low_width(XLEN as nat, bits.length()), 32);
            }
        }
        if bits.len() >= XLEN {
            let s = suffix_sign(bits, XLEN);
            if s == 1 {
                proof {
                    if low_width(XLEN as nat, bits.length()) < 31 {
                        lemma_pow2_strictly_increases(low_width(XLEN as nat, bits.length()), 31);
                    }
                }
                let ghost nw = not_low_word(bits, XLEN as nat);
                proof {
                    assert(s * (1 + nw) == 1 + nw) by (nonlinear_arith)
                        requires
                            s == 1,
                    ;
                }
                (w.1 + 1) as u32
            } else {
                let ghost nw = not_low_word(bits, XLEN as nat);
                proof {
                    assert(s * (1 + nw) == 0) by (nonlinear_arith)
                        requires
                            s == 0,
                    ;
                }
                0
            }
        } else {
            w.1 as u32
        }
    }
}

} // verus!
