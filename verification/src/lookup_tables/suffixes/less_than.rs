use crate::lookup_tables::suffixes::SparseDenseSuffix;
use crate::utils::lookup_bits::LookupBits;
use crate::utils::{even_bits, odd_bits, uninterleave_bits};
use vstd::prelude::*;

verus! {

/// Less-than suffix: 1 if the first operand interleaved in the suffix bits is less than the second.
pub struct LessThanSuffix;

impl SparseDenseSuffix for LessThanSuffix {
    open spec fn defined(len: nat) -> bool {
        true
    }

    open spec fn value(bits: LookupBits) -> int {
        if odd_bits(bits.value(), 32) < even_bits(bits.value(), 32) {
            1
        } else {
            0
        }
    }

    fn suffix_mle(bits: LookupBits) -> (r: u32) {
        let (x, y) = uninterleave_bits(bits.to_u64());
        if x < y {
            1
        } else {
            0
        }
    }
}

} // verus!
