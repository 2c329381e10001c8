use crate::lookup_tables::suffixes::word_lt_bound::{word_below_bound, word_lt_bound_defined};
use crate::lookup_tables::suffixes::SparseDenseSuffix;
use crate::utils::lookup_bits::LookupBits;
use vstd::arithmetic::power2::*;
use vstd::prelude::*;

verus! {

/// Suffix whose value is the word formed by the bits of significance `< L`.
pub struct WordLtLowerBoundSuffix<const XLEN: usize, const L: usize>;

impl<const XLEN: usize, const L: usize> SparseDenseSuffix for WordLtLowerBoundSuffix<XLEN, L> {
    open spec fn defined(len: nat) -> bool {
        word_lt_bound_defined(XLEN as nat, L as nat, len)
    }

    open spec fn value(bits: LookupBits) -> int {
        bits.value() % (pow2(L as nat) as int)
    }

    fn suffix_mle(bits: LookupBits) -> (r: u32) {
        word_below_bound(bits, XLEN, L)
    }
}

} // verus!
