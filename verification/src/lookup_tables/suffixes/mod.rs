//! Suffix components of lookup table MLE decompositions.
//!
//! Suffixes capture the low-order bits of lookup table inputs and provide efficient
//! MLE evaluation over small boolean hypercubes. During the prefix-suffix sum-check
//! protocol, suffix MLEs are evaluated and combined with prefix contributions to
//! reconstruct the full lookup table evaluation without materializing the entire table.
use crate::lookup_tables::clamp::{CLAMP_OP1_LOWER, CLAMP_OP2_LOWER, CLAMP_OPS_UPPER};
use crate::utils::lookup_bits::LookupBits;
use crate::utils::{even_bits, odd_bits};
use vstd::arithmetic::power2::*;
use vstd::prelude::*;

use self::and::AndSuffix;
use self::less_than::LessThanSuffix;
use self::lower_word_no_msb::{low_word, low_word_defined, LowerWordNoMsbSuffix};
use self::neg_relu::{neg_relu_suffix_defined, neg_relu_suffix_value, NegReluSuffix};
use self::relu::{relu_suffix_value, ReluSuffix};
use self::one::OneSuffix;
use self::or::OrSuffix;
use self::word_lt_bound::{word_lt_bound_defined, WordLtBoundSuffix};
use self::xor::XorSuffix;
use self::zero_gt_bound::{zero_gt_bound_defined, ZeroGtBoundSuffix};

/// Bitwise AND suffix implementation.
pub mod and;
/// Less-than comparison suffix implementation.
pub mod less_than;
/// Lower word (without MSB) suffix implementation.
pub mod lower_word_no_msb;
/// Negated ReLU suffix implementation.
pub mod neg_relu;
/// Constant one suffix implementation.
pub mod one;
/// Bitwise OR suffix implementation.
pub mod or;
/// ReLU suffix implementation.
pub mod relu;
/// Suffix whose value is the word below an upper bound.
pub mod word_lt_bound;
/// Suffix whose value is the word below a lower bound.
pub mod word_lt_lower_bound;
/// Bitwise XOR suffix implementation.
pub mod xor;
/// Suffix that checks all bits with significance >= bound are zero.
pub mod zero_gt_bound;

verus! {

/// Trait for suffix components that support sparse-dense MLE evaluation.
///
/// Suffixes evaluate MLEs efficiently over small boolean hypercubes representing
/// the low-order bits of lookup table inputs.
pub trait SparseDenseSuffix {
    /// Whether the suffix MLE is defined on bitvectors of `len` bits.
    spec fn defined(len: nat) -> bool;

    /// The suffix MLE's value on the bitvector `b`.
    spec fn value(b: LookupBits) -> int;

    /// Evaluates the MLE for this suffix on the bitvector `b`, where
    /// `b` represents `b.len()` variables, each assuming a Boolean value.
    fn suffix_mle(b: LookupBits) -> (r: u32)
        requires
            Self::defined(b.length()),
        ensures
            r as int == Self::value(b),
    ;
}

/// An enum containing all suffixes used by the lookup tables.
#[derive(Clone, Copy, Debug, PartialEq, Eq)]
pub enum Suffixes {
    /// Bitwise AND suffix
    And,
    /// ∑_{i >= HighBound} x_i * 2^i
    OpsWordLtHigh,
    /// ∑_{i >= Op1LowBound} x_i * 2^i
    Op1WordLtLow,
    /// ∑_{i >= Op2LowBound} x_i * 2^i
    Op2WordLtLow,
    /// ∀ i >= HighBound, x_i == 0
    OpsZeroGtHigh,
    /// ∀ i >= Op1LowBound, x_i == 0
    Op1ZeroGtLow,
    /// ∀ i >= Op2LowBound, x_i == 0
    Op2ZeroGtLow,
    /// Less-than comparison suffix
    LessThan,
    /// Lower word without MSB suffix
    LowerWordNoMSB,
    /// Constant one suffix
    One,
    /// Bitwise OR suffix
    Or,
    /// ReLU activation suffix
    Relu,
    /// Bitwise XOR suffix
    Xor,
    /// Suffix for Relu(-x) table
    NegRelu,
}

// Suffix implementations with configured parameters.
type OpsWordLtHighSuffix<const XLEN: usize> = WordLtBoundSuffix<XLEN, CLAMP_OPS_UPPER>;
type Op1WordLtLowSuffix<const XLEN: usize> = WordLtBoundSuffix<XLEN, CLAMP_OP1_LOWER>;
type Op2WordLtLowSuffix<const XLEN: usize> = WordLtBoundSuffix<XLEN, CLAMP_OP2_LOWER>;
type OpsZeroGtHighSuffix<const XLEN: usize> = ZeroGtBoundSuffix<XLEN, CLAMP_OPS_UPPER>;
type Op1ZeroGtLowSuffix<const XLEN: usize> = ZeroGtBoundSuffix<XLEN, CLAMP_OP1_LOWER>;
type Op2ZeroGtLowSuffix<const XLEN: usize> = ZeroGtBoundSuffix<XLEN, CLAMP_OP2_LOWER>;

/// The word formed by the bits of `b` of significance `< bound`.
pub open spec fn word_below(b: LookupBits, bound: nat) -> int {
    b.value() % (pow2(bound) as int)
}

/// 1 if every bit of `b` of significance `>= bound` is zero, 0 otherwise.
pub open spec fn zero_above(b: LookupBits, bound: nat) -> int {
    if b.value() < pow2(bound) {
        1
    } else {
        0
    }
}

impl Suffixes {
    /// Whether this suffix's MLE is defined on bitvectors of `len` bits, for words of `xlen` bits.
    pub open spec fn defined(self, xlen: nat, len: nat) -> bool {
        match self {
            Suffixes::OpsWordLtHigh => word_lt_bound_defined(xlen, CLAMP_OPS_UPPER as nat, len),
            Suffixes::Op1WordLtLow => word_lt_bound_defined(xlen, CLAMP_OP1_LOWER as nat, len),
            Suffixes::Op2WordLtLow => word_lt_bound_defined(xlen, CLAMP_OP2_LOWER as nat, len),
            Suffixes::OpsZeroGtHigh => zero_gt_bound_defined(xlen, CLAMP_OPS_UPPER as nat, len),
            Suffixes::Op1ZeroGtLow => zero_gt_bound_defined(xlen, CLAMP_OP1_LOWER as nat, len),
            Suffixes::Op2ZeroGtLow => zero_gt_bound_defined(xlen, CLAMP_OP2_LOWER as nat, len),
            Suffixes::Relu | Suffixes::LowerWordNoMSB => low_word_defined(xlen, len),
            Suffixes::NegRelu => neg_relu_suffix_defined(xlen, len),
            _ => true,
        }
    }

    /// This suffix's MLE on the bitvector `b`, the low bits of a `2 * xlen`-bit index.
    pub open spec fn value(self, xlen: nat, b: LookupBits) -> int {
        let x = odd_bits(b.value(), 32) as u32;
        let y = even_bits(b.value(), 32) as u32;
        match self {
            Suffixes::And => (x & y) as int,
            Suffixes::Or => (x | y) as int,
            Suffixes::Xor => (x ^ y) as int,
            Suffixes::LessThan => if odd_bits(b.value(), 32) < even_bits(b.value(), 32) {
                1
            } else {
                0
            },
            Suffixes::One => 1,
            Suffixes::OpsWordLtHigh => word_below(b, CLAMP_OPS_UPPER as nat),
            Suffixes::Op1WordLtLow => word_below(b, CLAMP_OP1_LOWER as nat),
            Suffixes::Op2WordLtLow => word_below(b, CLAMP_OP2_LOWER as nat),
            Suffixes::OpsZeroGtHigh => zero_above(b, CLAMP_OPS_UPPER as nat),
            Suffixes::Op1ZeroGtLow => zero_above(b, CLAMP_OP1_LOWER as nat),
            Suffixes::Op2ZeroGtLow => zero_above(b, CLAMP_OP2_LOWER as nat),
            Suffixes::LowerWordNoMSB => low_word(b, xlen),
            Suffixes::Relu => relu_suffix_value(b, xlen),
            Suffixes::NegRelu => neg_relu_suffix_value(b, xlen),
        }
    }

    /// Evaluates the MLE for this suffix on the bitvector `b`, where
    /// `b` represents `b.len()` variables, each assuming a Boolean value.
    pub fn suffix_mle<const XLEN: usize>(&self, b: LookupBits) -> (r: u32)
        requires
            self.defined(XLEN as nat, b.length()),
        ensures
            r as int == self.value(XLEN as nat, b),
    {
        match self {
            Suffixes::And => AndSuffix::suffix_mle(b),
            Suffixes::OpsWordLtHigh => OpsWordLtHighSuffix::<XLEN>::suffix_mle(b),
            Suffixes::Op1WordLtLow => Op1WordLtLowSuffix::<XLEN>::suffix_mle(b),
            Suffixes::Op2WordLtLow => Op2WordLtLowSuffix::<XLEN>::suffix_mle(b),
            Suffixes::OpsZeroGtHigh => OpsZeroGtHighSuffix::<XLEN>::suffix_mle(b),
            Suffixes::Op1ZeroGtLow => Op1ZeroGtLowSuffix::<XLEN>::suffix_mle(b),
            Suffixes::Op2ZeroGtLow => Op2ZeroGtLowSuffix::<XLEN>::suffix_mle(b),
            Suffixes::LessThan => LessThanSuffix::suffix_mle(b),
            Suffixes::LowerWordNoMSB => LowerWordNoMsbSuffix::<XLEN>::suffix_mle(b),
            Suffixes::One => OneSuffix::suffix_mle(b),
            Suffixes::Or => OrSuffix::suffix_mle(b),
            Suffixes::Relu => ReluSuffix::<XLEN>::suffix_mle(b),
            Suffixes::Xor => XorSuffix::suffix_mle(b),
            Suffixes::NegRelu => NegReluSuffix::<XLEN>::suffix_mle(b),
        }
    }
}

} // verus!
