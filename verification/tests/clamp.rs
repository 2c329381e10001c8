use joltworks::field::{Fp, JoltField};
use joltworks::lookup_tables::clamp::{ClampTable, ClampTableOp1, ClampTableOp2};
use joltworks::lookup_tables::prefixes::{PrefixEval, Prefixes};
use joltworks::lookup_tables::suffixes::Suffixes;
use joltworks::lookup_tables::{JoltLookupTable, PrefixSuffixDecompositionTrait};
use joltworks::utils::index_to_field_bitvector;
use rand::rngs::StdRng;
use rand::{Rng, RngCore, SeedableRng};

const XLEN: usize = 32;

fn mle_full_hypercube<T: JoltLookupTable + Default>() {
    let table = T::default();
    let materialized = table.materialize();
    for (i, entry) in materialized.iter().enumerate() {
        assert_eq!(
            Fp::from_u64(*entry),
            table.evaluate_mle(&index_to_field_bitvector::<Fp>(i as u64, 16)),
            "MLE did not match materialized table at index {i}",
        );
    }
}

fn mle_random<T: JoltLookupTable + Default>() {
    let mut rng = StdRng::seed_from_u64(12345);
    let table = T::default();
    for _ in 0..1000 {
        let index: u64 = rng.gen();
        assert_eq!(
            Fp::from_u64(table.materialize_entry(index)),
            table.evaluate_mle(&index_to_field_bitvector::<Fp>(index, XLEN * 2)),
            "MLE did not match materialized table at index {index}",
        );
    }
}

fn mle_linearity<T: JoltLookupTable + Default>() {
    let mut rng = StdRng::seed_from_u64(12345);
    let table = T::default();
    let num_vars = 2 * XLEN;
    let two = Fp::from_u64(2);
    for var_idx in 0..num_vars {
        for _ in 0..16 {
            let mut eval_point: Vec<Fp> = (0..num_vars).map(|_| Fp::from_u64(rng.next_u64())).collect();
            eval_point[var_idx] = Fp::zero();
            let y0 = table.evaluate_mle(&eval_point);
            eval_point[var_idx] = Fp::one();
            let y1 = table.evaluate_mle(&eval_point);
            eval_point[var_idx] = two;
            let y2 = table.evaluate_mle(&eval_point);
            assert_eq!(y2.minus(y0), y1.minus(y0).times(two), "evaluate_mle is not affine in variable {var_idx}");
        }
    }
}

#[test]
fn clamp_mle_full_hypercube() {
    mle_full_hypercube::<ClampTableOp1<8>>();
    mle_full_hypercube::<ClampTableOp2<8>>();
}

#[test]
fn clamp_mle_random() {
    mle_random::<ClampTableOp1<XLEN>>();
    mle_random::<ClampTableOp2<XLEN>>();
}

#[test]
fn clamp_mle_linearity() {
    mle_linearity::<ClampTableOp1<XLEN>>();
    mle_linearity::<ClampTableOp2<XLEN>>();
}

#[test]
fn clamp_entries_at_the_bounds() {
    let t = ClampTableOp1::<XLEN>::default();
    assert_eq!(t.materialize_entry(0), 32);
    assert_eq!(t.materialize_entry(31), 32);
    assert_eq!(t.materialize_entry(32), 32);
    assert_eq!(t.materialize_entry(33), 33);
    assert_eq!(t.materialize_entry(1023), 1023);
    assert_eq!(t.materialize_entry(1024), 1024);
    assert_eq!(t.materialize_entry(1025), 1024);
    assert_eq!(t.materialize_entry(u64::MAX), 1024);
    let t2 = ClampTableOp2::<XLEN>::default();
    assert_eq!(t2.materialize_entry(0), 1);
    assert_eq!(t2.materialize_entry(1), 1);
    assert_eq!(t2.materialize_entry(2), 2);
    assert_eq!(t2.materialize_entry(5000), 1024);
    let t3 = ClampTable::<32, 0, 63>;
    assert_eq!(t3.materialize_entry(u64::MAX), 1 << 63);
}

#[test]
fn clamp_mle_at_a_non_boolean_point() {
    // Only the lowest coordinate is 2: the index reads as 2, below the lower bound 2^5.
    let t = ClampTableOp1::<8>::default();
    let mut r = index_to_field_bitvector::<Fp>(0, 16);
    r[15] = Fp::from_u64(2);
    // 2^10 + (2 - 2^10) + (2^5 - 2) = 32
    assert_eq!(t.evaluate_mle(&r), Fp::from_u64(32));
    // Coordinate of significance 10 set to 3 (above the upper bound): the zero indicators vanish
    // linearly: 2^10 + (1 - 3) * (0 - 2^10) + (1 - 3) * (2^5 - 0) = 1024 + 2048 - 64
    let mut r = index_to_field_bitvector::<Fp>(0, 16);
    r[5] = Fp::from_u64(3);
    assert_eq!(t.evaluate_mle(&r), Fp::from_u64(1024 + 2048 - 64));
}

#[test]
fn clamp_decomposition_components() {
    let t = ClampTableOp1::<XLEN>::default();
    assert_eq!(
        t.prefixes(),
        vec![Prefixes::OpsZeroGtHigh, Prefixes::Op1ZeroGtLow, Prefixes::OpsWordLtHigh, Prefixes::Op1WordLtLow]
    );
    assert_eq!(
        t.suffixes(),
        vec![Suffixes::OpsZeroGtHigh, Suffixes::Op1ZeroGtLow, Suffixes::OpsWordLtHigh, Suffixes::Op1WordLtLow]
    );
    let t2 = ClampTableOp2::<XLEN>::default();
    assert_eq!(
        t2.prefixes(),
        vec![Prefixes::OpsZeroGtHigh, Prefixes::Op2ZeroGtLow, Prefixes::OpsWordLtHigh, Prefixes::Op2WordLtLow]
    );
    assert_eq!(
        t2.suffixes(),
        vec![Suffixes::OpsZeroGtHigh, Suffixes::Op2ZeroGtLow, Suffixes::OpsWordLtHigh, Suffixes::Op2WordLtLow]
    );
    // Index 100 split into an empty prefix and a suffix: all prefix zero-indicators 1,
    // prefix words 0; suffix zero-indicators 1 (100 < 2^10) and 0 (100 >= 2^5), words 100 and 4.
    let p: Vec<PrefixEval<Fp>> = [1u64, 1, 0, 0].iter().map(|&v| PrefixEval::from(Fp::from_u64(v))).collect();
    let s: Vec<Fp> = [1u64, 0, 100, 4].iter().map(|&v| Fp::from_u64(v)).collect();
    assert_eq!(t.combine(&p, &s), Fp::from_u64(100));
    // Index 3: both zero-indicators hold, the result is the lower bound.
    let s: Vec<Fp> = [1u64, 1, 3, 3].iter().map(|&v| Fp::from_u64(v)).collect();
    assert_eq!(t.combine(&p, &s), Fp::from_u64(32));
}
