use joltworks::field::{Fp, JoltField};
use joltworks::lookup_tables::prefixes::{PrefixEval, Prefixes};
use joltworks::lookup_tables::suffixes::Suffixes;
use joltworks::lookup_tables::unsigned_less_than::UnsignedLessThanTable;
use joltworks::lookup_tables::{JoltLookupTable, PrefixSuffixDecompositionTrait};
use joltworks::utils::index_to_field_bitvector;
use rand::rngs::StdRng;
use rand::{Rng, RngCore, SeedableRng};

const XLEN: usize = 32;

#[test]
fn unsigned_less_than_mle_full_hypercube() {
    let table = UnsignedLessThanTable::<8>;
    let materialized = table.materialize();
    for (i, entry) in materialized.iter().enumerate() {
        assert_eq!(
            Fp::from_u64(*entry),
            table.evaluate_mle(&index_to_field_bitvector::<Fp>(i as u64, 16)),
            "MLE did not match materialized table at index {i}",
        );
    }
}

#[test]
fn unsigned_less_than_mle_random() {
    let mut rng = StdRng::seed_from_u64(12345);
    let table = UnsignedLessThanTable::<XLEN>;
    for _ in 0..1000 {
        let index: u64 = rng.gen();
        assert_eq!(
            Fp::from_u64(table.materialize_entry(index)),
            table.evaluate_mle(&index_to_field_bitvector::<Fp>(index, XLEN * 2)),
            "MLE did not match materialized table at index {index}",
        );
    }
}

#[test]
fn unsigned_less_than_mle_linearity() {
    let mut rng = StdRng::seed_from_u64(12345);
    let table = UnsignedLessThanTable::<XLEN>;
    let num_vars = 2 * XLEN;
    let two = Fp::from_u64(2);
    for var_idx in 0..num_vars {
        for _ in 0..16 {
            let mut eval_point: Vec<Fp> = (0..num_vars).map(|_| Fp::from_u64(rng.next_u64())).collect();
            eval_point[var_idx] = Fp::zero();
            let y0 = table.evaluate_mle(&eval_point);
            eval_point[var_idx] = Fp::one();
            let y1 = table.evaluate_mle(&eval_point);
            eval_point[var_idx] = two;
            let y2 = table.evaluate_mle(&eval_point);
            assert_eq!(y2.minus(y0), y1.minus(y0).times(two), "evaluate_mle is not affine in variable {var_idx}");
        }
    }
}

fn interleave(x: u32, y: u32) -> u64 {
    let mut v = 0u64;
    for k in 0..32 {
        v |= (((x >> k) & 1) as u64) << (2 * k + 1);
        v |= (((y >> k) & 1) as u64) << (2 * k);
    }
    v
}

#[test]
fn unsigned_less_than_entries() {
    let table = UnsignedLessThanTable::<XLEN>;
    assert_eq!(table.materialize_entry(interleave(3, 5)), 1);
    assert_eq!(table.materialize_entry(interleave(5, 3)), 0);
    assert_eq!(table.materialize_entry(interleave(7, 7)), 0);
    assert_eq!(table.materialize_entry(interleave(0, u32::MAX)), 1);
    assert_eq!(table.materialize_entry(interleave(u32::MAX, 0)), 0);
}

#[test]
fn unsigned_less_than_decomposition_components() {
    let table = UnsignedLessThanTable::<XLEN>;
    assert_eq!(table.prefixes(), vec![Prefixes::Eq, Prefixes::LessThan]);
    assert_eq!(table.suffixes(), vec![Suffixes::One, Suffixes::LessThan]);
    // less_than_prefix * one + eq_prefix * less_than_suffix
    let p: Vec<PrefixEval<Fp>> = [1u64, 0].iter().map(|&v| PrefixEval::from(Fp::from_u64(v))).collect();
    let s: Vec<Fp> = [1u64, 1].iter().map(|&v| Fp::from_u64(v)).collect();
    assert_eq!(table.combine(&p, &s), Fp::one());
    let p: Vec<PrefixEval<Fp>> = [2u64, 3].iter().map(|&v| PrefixEval::from(Fp::from_u64(v))).collect();
    let s: Vec<Fp> = [5u64, 7].iter().map(|&v| Fp::from_u64(v)).collect();
    assert_eq!(table.combine(&p, &s), Fp::from_u64(3 * 5 + 2 * 7));
}
