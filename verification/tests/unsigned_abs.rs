use joltworks::field::{Fp, JoltField};
use joltworks::lookup_tables::prefixes::{PrefixEval, Prefixes};
use joltworks::lookup_tables::suffixes::Suffixes;
use joltworks::lookup_tables::unsigned_abs::UnsignedAbsTable;
use joltworks::lookup_tables::{JoltLookupTable, PrefixSuffixDecompositionTrait};
use joltworks::utils::index_to_field_bitvector;
use rand::rngs::StdRng;
use rand::{Rng, RngCore, SeedableRng};

const XLEN: usize = 32;

fn unsigned_abs(x: i8) -> u8 {
    x.unsigned_abs()
}

/// Verify the lookup table matches `i8::unsigned_abs()` for all 256 inputs.
#[test]
fn test_unsigned_abs_table() {
    let table = UnsignedAbsTable::<8>;
    let materialized_table = table.materialize();

    // Exhaustive check against Rust's `i8::unsigned_abs()`
    for i in 0..256usize {
        assert_eq!(unsigned_abs(i as i8), materialized_table[i] as u8);
    }

    // Explicit edge cases
    assert_eq!(table.materialize_entry(0u64), 0, "abs(0) = 0");
    assert_eq!(table.materialize_entry(127u64), 127, "abs(127) = 127");
    assert_eq!(table.materialize_entry(0xFF), 1, "abs(-1) = 1");

    // i8::MIN = -128: the table returns its magnitude 128, not a wrapped 0.
    assert_eq!(
        table.materialize_entry(0x80),
        128,
        "abs(i8::MIN) must be 128, not 0: field arithmetic avoids two's complement overflow"
    );
}

#[test]
fn unsigned_abs_mle_full_hypercube() {
    let table = UnsignedAbsTable::<8>;
    let materialized = table.materialize();
    for (i, entry) in materialized.iter().enumerate() {
        assert_eq!(
            Fp::from_u64(*entry),
            table.evaluate_mle(&index_to_field_bitvector::<Fp>(i as u64, 16)),
            "MLE did not match materialized table at index {i}",
        );
    }
}

#[test]
fn unsigned_abs_mle_random() {
    let mut rng = StdRng::seed_from_u64(12345);
    let table = UnsignedAbsTable::<XLEN>;
    for _ in 0..1000 {
        let index: u64 = rng.gen();
        assert_eq!(
            Fp::from_u64(table.materialize_entry(index)),
            table.evaluate_mle(&index_to_field_bitvector::<Fp>(index, XLEN * 2)),
            "MLE did not match materialized table at index {index}",
        );
    }
}

#[test]
fn unsigned_abs_mle_linearity() {
    let mut rng = StdRng::seed_from_u64(12345);
    let table = UnsignedAbsTable::<XLEN>;
    let num_vars = 2 * XLEN;
    let two = Fp::from_u64(2);
    for var_idx in 0..num_vars {
        for _ in 0..16 {
            let mut eval_point: Vec<Fp> = (0..num_vars).map(|_| Fp::from_u64(rng.next_u64())).collect();
            eval_point[var_idx] = Fp::zero();
            let y0 = table.evaluate_mle(&eval_point);
            eval_point[var_idx] = Fp::one();
            let y1 = table.evaluate_mle(&eval_point);
            eval_point[var_idx] = two;
            let y2 = table.evaluate_mle(&eval_point);
            assert_eq!(y2.minus(y0), y1.minus(y0).times(two), "evaluate_mle is not affine in variable {var_idx}");
        }
    }
}

#[test]
fn unsigned_abs_table_on_wider_words() {
    let table = UnsignedAbsTable::<32>;
    assert_eq!(table.materialize_entry(0xFFFF_FFFF), 1);
    assert_eq!(table.materialize_entry(0x8000_0000), 0x8000_0000);
    assert_eq!(table.materialize_entry(0x7FFF_FFFF), 0x7FFF_FFFF);
    // bits above the word are ignored
    assert_eq!(table.materialize_entry(0xABCD_0000_0000_0005), 5);
    let wide = UnsignedAbsTable::<64>;
    assert_eq!(wide.materialize_entry(u64::MAX), 1);
    assert_eq!(wide.materialize_entry(1 << 63), 1 << 63);
}

#[test]
fn unsigned_abs_decomposition_components() {
    let table = UnsignedAbsTable::<XLEN>;
    assert_eq!(table.suffixes(), vec![Suffixes::One, Suffixes::Relu, Suffixes::NegRelu]);
    assert_eq!(
        table.prefixes(),
        vec![Prefixes::NotMsb, Prefixes::LowerWordNoMsb, Prefixes::Msb, Prefixes::NotLowerWord]
    );
    // not_msb * lwnm * one + not_msb * relu + msb * nlw * one + msb * neg_relu
    let p: Vec<PrefixEval<Fp>> = [2u64, 3, 5, 7].iter().map(|&v| PrefixEval::from(Fp::from_u64(v))).collect();
    let s: Vec<Fp> = [1u64, 11, 13].iter().map(|&v| Fp::from_u64(v)).collect();
    assert_eq!(table.combine(&p, &s), Fp::from_u64(2 * 3 + 2 * 11 + 5 * 7 + 5 * 13));
}
