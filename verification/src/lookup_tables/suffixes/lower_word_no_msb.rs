use crate::hypercube::bit;
use crate::lookup_tables::suffixes::SparseDenseSuffix;
use crate::utils::lookup_bits::LookupBits;
use crate::utils::{pow2_word, word_bit};
use vstd::arithmetic::div_mod::*;
use vstd::arithmetic::power2::*;
use vstd::prelude::*;

verus! {

/// The number of the suffix's bits below the sign bit of an `xlen`-bit word: the suffix holds
/// the bits of significance below `len`, the word's magnitude those below `xlen - 1`.
pub open spec fn low_width(xlen: nat, len: nat) -> nat {
    if len < xlen - 1 {
        len
    } else {
        (xlen - 1) as nat
    }
}

/// The word formed by the suffix's bits below the sign bit.
pub open spec fn low_word(b: LookupBits, xlen: nat) -> int {
    b.value() % (pow2((xlen - 1) as nat) as int)
}

/// The complement `∑ (1 - b_i)·2^i` of the suffix's bits below the sign bit.
pub open spec fn not_low_word(b: LookupBits, xlen: nat) -> int {
    let m = low_width(xlen, b.length());
    (pow2(m) as int - 1) - b.value() % (pow2(m) as int)
}

/// Whether the suffix holds the sign bit of the word (significance `xlen - 1`).
pub open spec fn holds_sign(b: LookupBits, xlen: nat) -> bool {
    b.length() >= xlen
}

/// The sign bit of the word, when the suffix holds it.
pub open spec fn sign_of(b: LookupBits, xlen: nat) -> int {
    bit(b.value(), (xlen - 1) as nat)
}

/// The suffix lengths on which the lower-word suffix is evaluated: the word's bits below the sign
/// bit that the suffix holds fit in 32 bits.
pub open spec fn low_word_defined(xlen: nat, len: nat) -> bool {
    1 <= xlen <= 64 && len <= 2 * xlen && low_width(xlen, len) <= 32
}

/// Computes [`low_word`] and, beside it, [`not_low_word`].
pub fn low_words(b: LookupBits, xlen: usize) -> (r: (u64, u64))
    requires
        low_word_defined(xlen as nat, b.length()),
    ensures
        r.0 == low_word(b, xlen as nat),
        r.1 == not_low_word(b, xlen as nat),
        r.0 < pow2(low_width(xlen as nat, b.length())),
        r.1 < pow2(low_width(xlen as nat, b.length())),
        low_width(xlen as nat, b.length()) <= 32,
{
    let len = b.len();
    let v = b.to_u64();
    let m: usize = if len < xlen - 1 { len } else { xlen - 1 };
    let pm = pow2_word(m);
    let pw = pow2_word(xlen - 1);
    proof {
        lemma_pow2_pos(m as nat);
        lemma_pow2_pos((xlen - 1) as nat);
        lemma_mod_bound(v as int, pm as int);
        lemma_mod_bound(v as int, pw as int);
        if len < xlen - 1 {
            lemma_small_mod(v as nat, pm as nat);
            lemma_pow2_strictly_increases(len as nat, (xlen - 1) as nat);
            lemma_small_mod(v as nat, pw as nat);
        }
    }
    let lw = v % pw;
    let nw = (pm - 1) - v % pm;
    (lw, nw)
}

/// Suffix whose value is the word formed by its bits below the sign bit of an `XLEN`-bit word.
pub struct LowerWordNoMsbSuffix<const XLEN: usize>;

impl<const XLEN: usize> SparseDenseSuffix for LowerWordNoMsbSuffix<XLEN> {
    open spec fn defined(len: nat) -> bool {
        low_word_defined(XLEN as nat, len)
    }

    open spec fn value(bits: LookupBits) -> int {
        low_word(bits, XLEN as nat)
    }

    fn suffix_mle(bits: LookupBits) -> (r: u32) {
        let w = low_words(bits, XLEN);
        proof {
            lemma2_to64();
            if low_width(XLEN as nat, bits.length()) < 32 {
                lemma_pow2_strictly_increases(low_width(XLEN as nat, bits.length()), 32);
            }
        }
        w.0 as u32
    }
}

/// The sign bit of the word, as a 0 or 1, when the suffix holds it.
pub fn suffix_sign(b: LookupBits, xlen: usize) -> (s: u64)
    requires
        1 <= xlen <= 64,
    ensures
        s == sign_of(b, xlen as nat),
        s <= 1,
{
    word_bit(b.to_u64(), xlen - 1)
}

} // verus!
