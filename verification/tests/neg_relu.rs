use joltworks::field::{Fp, JoltField};
use joltworks::lookup_tables::neg_relu::NegReluTable;
use joltworks::lookup_tables::prefixes::{PrefixEval, Prefixes};
use joltworks::lookup_tables::suffixes::Suffixes;
use joltworks::lookup_tables::{JoltLookupTable, PrefixSuffixDecompositionTrait};
use joltworks::utils::index_to_field_bitvector;
use rand::rngs::StdRng;
use rand::{Rng, RngCore, SeedableRng};

const XLEN: usize = 32;

#[test]
fn neg_relu_mle_full_hypercube() {
    let table = NegReluTable::<8>;
    let materialized = table.materialize();
    for (i, entry) in materialized.iter().enumerate() {
        assert_eq!(
            Fp::from_u64(*entry),
            table.evaluate_mle(&index_to_field_bitvector::<Fp>(i as u64, 16)),
            "MLE did not match materialized table at index {i}",
        );
    }
}

#[test]
fn neg_relu_mle_random() {
    let mut rng = StdRng::seed_from_u64(12345);
    let table = NegReluTable::<XLEN>;
    for _ in 0..1000 {
        let index: u64 = rng.gen();
        assert_eq!(
            Fp::from_u64(table.materialize_entry(index)),
            table.evaluate_mle(&index_to_field_bitvector::<Fp>(index, XLEN * 2)),
            "MLE did not match materialized table at index {index}",
        );
    }
}

#[test]
fn neg_relu_mle_linearity() {
    let mut rng = StdRng::seed_from_u64(12345);
    let table = NegReluTable::<XLEN>;
    let num_vars = 2 * XLEN;
    let two = Fp::from_u64(2);
    for var_idx in 0..num_vars {
        for _ in 0..16 {
            let mut eval_point: Vec<Fp> = (0..num_vars).map(|_| Fp::from_u64(rng.next_u64())).collect();
            eval_point[var_idx] = Fp::zero();
            let y0 = table.evaluate_mle(&eval_point);
            eval_point[var_idx] = Fp::one();
            let y1 = table.evaluate_mle(&eval_point);
            eval_point[var_idx] = two;
            let y2 = table.evaluate_mle(&eval_point);
            assert_eq!(y2.minus(y0), y1.minus(y0).times(two), "evaluate_mle is not affine in variable {var_idx}");
        }
    }
}

#[test]
fn neg_relu_entries() {
    let table = NegReluTable::<8>;
    for i in 0..256u64 {
        let x = i as u8 as i8;
        let expected = if x < 0 { (-(x as i16)) as u64 } else { 0 };
        assert_eq!(table.materialize_entry(i), expected, "neg_relu({x})");
    }
    assert_eq!(table.materialize_entry(0x80), 128);
    assert_eq!(table.materialize_entry(0xFF), 1);
    assert_eq!(table.materialize_entry(0x7F), 0);
    assert_eq!(table.materialize_entry(0x1FF), 1);
}

#[test]
fn neg_relu_mle_on_points_longer_than_the_word() {
    // Extra trailing coordinates are read as further bits below the sign bit.
    let table = NegReluTable::<4>;
    // sign at coordinate 4, then bits 1,0,1 -> !x = 0b010 = 2, so (1 + 2) * 1 = 3
    let bits = [0u64, 0, 0, 0, 1, 1, 0, 1];
    let r: Vec<Fp> = bits.iter().map(|&b| Fp::from_u64(b)).collect();
    assert_eq!(table.evaluate_mle(&r), Fp::from_u64(3));
    let r9: Vec<Fp> = [0u64, 0, 0, 0, 1, 1, 0, 1, 1].iter().map(|&b| Fp::from_u64(b)).collect();
    // !x over bits 1,0,1,1 = 0b0100 = 4, plus 1
    assert_eq!(table.evaluate_mle(&r9), Fp::from_u64(5));
}

#[test]
fn neg_relu_decomposition_components() {
    let table = NegReluTable::<XLEN>;
    assert_eq!(table.suffixes(), vec![Suffixes::One, Suffixes::NegRelu]);
    assert_eq!(table.prefixes(), vec![Prefixes::Msb, Prefixes::NotLowerWord]);
    let p: Vec<PrefixEval<Fp>> = [3u64, 5].iter().map(|&v| PrefixEval::from(Fp::from_u64(v))).collect();
    let s: Vec<Fp> = [1u64, 7].iter().map(|&v| Fp::from_u64(v)).collect();
    assert_eq!(table.combine(&p, &s), Fp::from_u64(3 * 5 + 3 * 7));
}
