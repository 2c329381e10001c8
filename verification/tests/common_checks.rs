// Table-generic checks shared by the per-table tests live in each test file; this file tests
// the field and the utilities they rely on.
use joltworks::field::{Fp, JoltField, MODULUS};
use joltworks::lookup_tables::and::AndTable;
use joltworks::lookup_tables::or::OrTable;
use joltworks::lookup_tables::xor::XorTable;
use joltworks::lookup_tables::JoltLookupTable;
use joltworks::utils::{index_to_field_bitvector, interleave_bits, uninterleave_bits};

#[test]
fn field_arithmetic_wraps_at_the_modulus() {
    let p_minus_one = Fp::from_u64(MODULUS - 1);
    assert_eq!(p_minus_one.plus(Fp::one()), Fp::zero());
    assert_eq!(Fp::zero().minus(Fp::one()), p_minus_one);
    assert_eq!(p_minus_one.times(p_minus_one), Fp::one());
    assert_eq!(Fp::from_u64(MODULUS), Fp::zero());
    assert_eq!(Fp::from_u64(3).times(Fp::from_u64(5)), Fp::from_u64(15));
    assert_eq!(Fp::from_u64(7).minus(Fp::from_u64(9)), Fp::from_u64(MODULUS - 2));
}

#[test]
fn field_from_signed() {
    assert_eq!(Fp::from_i64(-1), Fp::from_u64(MODULUS - 1));
    assert_eq!(Fp::from_i64(i64::MIN).plus(Fp::from_u64(1 << 63)), Fp::zero());
    assert_eq!(Fp::from_i64(1024), Fp::from_u64(1024));
    assert_eq!(Fp::from_i64(0), Fp::zero());
}

#[test]
fn bitvector_is_most_significant_bit_first() {
    let v = index_to_field_bitvector::<Fp>(0b1011, 6);
    let expected: Vec<Fp> = [0u64, 0, 1, 0, 1, 1].iter().map(|&b| Fp::from_u64(b)).collect();
    assert_eq!(v, expected);
}

#[test]
fn uninterleave_splits_odd_and_even_positions() {
    // x = 0b11, y = 0b01 interleaved as x1 y1 x0 y0 = 1 0 1 1
    assert_eq!(uninterleave_bits(0b1011), (0b11, 0b01));
    assert_eq!(uninterleave_bits(u64::MAX), (u32::MAX, u32::MAX));
    assert_eq!(uninterleave_bits(0xAAAA_AAAA_AAAA_AAAA), (u32::MAX, 0));
    assert_eq!(uninterleave_bits(0x5555_5555_5555_5555), (0, u32::MAX));
}

#[test]
fn interleave_inverts_uninterleave() {
    assert_eq!(interleave_bits(0b11, 0b01), 0b1011);
    assert_eq!(interleave_bits(u32::MAX, 0), 0xAAAA_AAAA_AAAA_AAAA);
    assert_eq!(interleave_bits(0, u32::MAX), 0x5555_5555_5555_5555);
    for &(x, y) in &[(0u32, 0u32), (1, 2), (0xdead_beef, 0x1234_5678), (u32::MAX, 7)] {
        assert_eq!(uninterleave_bits(interleave_bits(x, y)), (x, y));
    }
}

#[test]
fn bitwise_entries_of_interleaved_operands() {
    let (x, y) = (0b1100u32, 0b1010u32);
    let i = interleave_bits(x, y);
    let i2 = interleave_bits(y, x);
    let and = AndTable::<32>.materialize_entry(i);
    let or = OrTable::<32>.materialize_entry(i);
    let xor = XorTable::<32>.materialize_entry(i);
    assert_eq!((and, or, xor), (0b1000, 0b1110, 0b0110));
    assert_eq!(and, AndTable::<32>.materialize_entry(i2));
    assert_eq!(or, OrTable::<32>.materialize_entry(i2));
    assert_eq!(xor, XorTable::<32>.materialize_entry(i2));
    assert_eq!(or, and + xor);
    // Operands below 2^4 give entries below 2^4.
    assert!(and < 16 && or < 16 && xor < 16);
}
