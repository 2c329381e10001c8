use crate::lookup_tables::suffixes::SparseDenseSuffix;
use crate::utils::lookup_bits::LookupBits;
use crate::utils::{even_bits, odd_bits, uninterleave_bits};
use vstd::prelude::*;

verus! {

/// Bitwise OR suffix: the bitwise OR of the two operands interleaved in the suffix bits.
pub struct OrSuffix;

impl SparseDenseSuffix for OrSuffix {
    open spec fn defined(len: nat) -> bool {
        true
    }

    open spec fn value(bits: LookupBits) -> int {
        ((odd_bits(bits.value(), 32) as u32) | (even_bits(bits.value(), 32) as u32)) as int
    }

    fn suffix_mle(bits: LookupBits) -> (r: u32) {
        let (x, y) = uninterleave_bits(bits.to_u64());
        x | y
    }
}

} // verus!
