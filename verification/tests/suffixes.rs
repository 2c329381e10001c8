use joltworks::lookup_tables::suffixes::word_lt_bound::WordLtBoundSuffix;
use joltworks::lookup_tables::suffixes::word_lt_lower_bound::WordLtLowerBoundSuffix;
use joltworks::lookup_tables::suffixes::zero_gt_bound::ZeroGtBoundSuffix;
use joltworks::lookup_tables::suffixes::{SparseDenseSuffix, Suffixes};
use joltworks::utils::lookup_bits::LookupBits;

#[test]
fn lookup_bits_keep_the_low_bits() {
    let b = LookupBits::new(0b1111_0101, 4);
    assert_eq!(b.len(), 4);
    assert_eq!(b.to_u64(), 0b0101);
    let full = LookupBits::new(u64::MAX, 64);
    assert_eq!(full.to_u64(), u64::MAX);
}

#[test]
fn word_below_bound_suffix() {
    // 16-bit suffix of a 64-bit index: the bits of significance < 10.
    let b = LookupBits::new(0b1111_1100_0000_0111, 16);
    assert_eq!(WordLtBoundSuffix::<32, 10>::suffix_mle(b), 0b00_0000_0111);
    assert_eq!(WordLtBoundSuffix::<32, 5>::suffix_mle(b), 0b0_0111);
    assert_eq!(WordLtLowerBoundSuffix::<32, 5>::suffix_mle(b), 0b0_0111);
    assert_eq!(WordLtBoundSuffix::<32, 0>::suffix_mle(b), 0);
    // A suffix shorter than the bound holds only bits below it.
    let short = LookupBits::new(0b110, 3);
    assert_eq!(WordLtBoundSuffix::<32, 10>::suffix_mle(short), 0b110);
    assert_eq!(Suffixes::OpsWordLtHigh.suffix_mle::<32>(b), 0b00_0000_0111);
    assert_eq!(Suffixes::Op1WordLtLow.suffix_mle::<32>(b), 0b0_0111);
    assert_eq!(Suffixes::Op2WordLtLow.suffix_mle::<32>(b), 0);
}

#[test]
fn zero_above_bound_suffix() {
    let small = LookupBits::new(1000, 16);
    let big = LookupBits::new(1024, 16);
    assert_eq!(ZeroGtBoundSuffix::<32, 10>::suffix_mle(small), 1);
    assert_eq!(ZeroGtBoundSuffix::<32, 10>::suffix_mle(big), 0);
    assert_eq!(ZeroGtBoundSuffix::<32, 5>::suffix_mle(small), 0);
    assert_eq!(ZeroGtBoundSuffix::<32, 5>::suffix_mle(LookupBits::new(31, 16)), 1);
    assert_eq!(ZeroGtBoundSuffix::<32, 0>::suffix_mle(LookupBits::new(0, 16)), 1);
    assert_eq!(Suffixes::OpsZeroGtHigh.suffix_mle::<32>(small), 1);
    assert_eq!(Suffixes::Op1ZeroGtLow.suffix_mle::<32>(small), 0);
    assert_eq!(Suffixes::Op2ZeroGtLow.suffix_mle::<32>(LookupBits::new(0, 0)), 1);
}

#[test]
fn operand_suffixes() {
    // x = 0b11, y = 0b01 interleaved as 1 0 1 1
    let b = LookupBits::new(0b1011, 4);
    assert_eq!(Suffixes::And.suffix_mle::<32>(b), 0b01);
    assert_eq!(Suffixes::Or.suffix_mle::<32>(b), 0b11);
    assert_eq!(Suffixes::Xor.suffix_mle::<32>(b), 0b10);
    assert_eq!(Suffixes::LessThan.suffix_mle::<32>(b), 0);
    assert_eq!(Suffixes::LessThan.suffix_mle::<32>(LookupBits::new(0b0111, 4)), 1);
    assert_eq!(Suffixes::One.suffix_mle::<32>(b), 1);
}

#[test]
fn relu_suffixes_below_the_sign_bit() {
    // A 16-bit suffix of a 64-bit index holds no sign bit of the 32-bit word.
    let b = LookupBits::new(0x1234, 16);
    assert_eq!(Suffixes::LowerWordNoMSB.suffix_mle::<32>(b), 0x1234);
    assert_eq!(Suffixes::Relu.suffix_mle::<32>(b), 0x1234);
    assert_eq!(Suffixes::NegRelu.suffix_mle::<32>(b), 0xffff - 0x1234);
}

#[test]
fn relu_suffixes_holding_the_sign_bit() {
    // A 48-bit suffix holds the whole 32-bit word, sign bit included.
    let negative = LookupBits::new(0xffff_fffe, 48); // -2
    assert_eq!(Suffixes::LowerWordNoMSB.suffix_mle::<32>(negative), 0x7fff_fffe);
    assert_eq!(Suffixes::Relu.suffix_mle::<32>(negative), 0);
    assert_eq!(Suffixes::NegRelu.suffix_mle::<32>(negative), 2);
    let positive = LookupBits::new(0x0000_0005, 48);
    assert_eq!(Suffixes::Relu.suffix_mle::<32>(positive), 5);
    assert_eq!(Suffixes::NegRelu.suffix_mle::<32>(positive), 0);
    let most_negative = LookupBits::new(0x8000_0000, 32);
    assert_eq!(Suffixes::NegRelu.suffix_mle::<32>(most_negative), 0x8000_0000);
    assert_eq!(Suffixes::Relu.suffix_mle::<32>(most_negative), 0);
}

#[test]
fn word_lt_bound_accepts_short_suffixes() {
    // Only the suffix's bits below the bound count: a bound above 32 is fine for a short suffix.
    let b = LookupBits::new(0xff, 8);
    assert_eq!(WordLtBoundSuffix::<32, 40>::suffix_mle(b), 0xff);
}
