use crate::lookup_tables::suffixes::SparseDenseSuffix;
use crate::utils::lookup_bits::LookupBits;
use vstd::prelude::*;

verus! {

/// The constant suffix `1`.
pub struct OneSuffix;

impl SparseDenseSuffix for OneSuffix {
    open spec fn defined(len: nat) -> bool {
        true
    }

    open spec fn value(bits: LookupBits) -> int {
        1
    }

    fn suffix_mle(bits: LookupBits) -> (r: u32) {
        1
    }
}

} // verus!
