use joltworks::field::{Fp, JoltField};
use joltworks::lookup_tables::and::AndTable;
use joltworks::lookup_tables::clamp::{ClampTableOp1, ClampTableOp2};
use joltworks::lookup_tables::neg_relu::NegReluTable;
use joltworks::lookup_tables::or::OrTable;
use joltworks::lookup_tables::prefixes::{PrefixCheckpoints, PrefixEval, Prefixes};
use joltworks::lookup_tables::unsigned_abs::UnsignedAbsTable;
use joltworks::lookup_tables::unsigned_less_than::UnsignedLessThanTable;
use joltworks::lookup_tables::xor::XorTable;
use joltworks::lookup_tables::{JoltLookupTable, PrefixSuffixDecompositionTrait};
use joltworks::utils::index_to_field_bitvector;
use joltworks::utils::lookup_bits::LookupBits;
use rand::rngs::StdRng;
use rand::{Rng, RngCore, SeedableRng};

const XLEN: usize = 32;

/// Runs the prefix-suffix sum-check rounds on random lookup indices: in every round, combining
/// the prefix evaluations (from the checkpoints) with the suffix evaluations gives the table's
/// MLE at the round's point.
fn prefix_suffix_test<T: PrefixSuffixDecompositionTrait<XLEN> + Default>() {
    const ROUNDS_PER_PHASE: usize = 16;
    let total_phases: usize = XLEN * 2 / ROUNDS_PER_PHASE;
    let mut rng = StdRng::seed_from_u64(12345);
    let table = T::default();

    for _ in 0..300 {
        let mut prefix_checkpoints = PrefixCheckpoints::<Fp>::new();
        let lookup_index: u64 = rng.gen();
        let mut j = 0;
        let mut r: Vec<Fp> = vec![];
        for phase in 0..total_phases {
            let suffix_len = (total_phases - 1 - phase) * ROUNDS_PER_PHASE;
            let (mut prefix_bits, suffix_bits) =
                LookupBits::new(lookup_index, XLEN * 2 - phase * ROUNDS_PER_PHASE).split(suffix_len);

            let suffix_evals: Vec<Fp> = table
                .suffixes()
                .iter()
                .map(|suffix| Fp::from_u32(suffix.suffix_mle::<XLEN>(suffix_bits)))
                .collect();

            for _ in 0..ROUNDS_PER_PHASE {
                let mut eval_point = r.clone();
                let c: u32 = if rng.next_u64() % 2 == 0 { 0 } else { 2 };
                eval_point.push(Fp::from_u32(c));
                prefix_bits.pop_msb();

                eval_point.extend(index_to_field_bitvector::<Fp>(prefix_bits.to_u64(), prefix_bits.len()));
                eval_point.extend(index_to_field_bitvector::<Fp>(suffix_bits.to_u64(), suffix_bits.len()));

                let mle_eval = table.evaluate_mle(&eval_point);

                let r_x = if j % 2 == 1 { Some(*r.last().unwrap()) } else { None };

                let prefix_evals: Vec<PrefixEval<Fp>> = table
                    .prefixes()
                    .iter()
                    .map(|prefix| prefix.prefix_mle::<XLEN, Fp>(&prefix_checkpoints, r_x, c, prefix_bits, j))
                    .collect();

                let combined = table.combine(&prefix_evals, &suffix_evals);
                assert_eq!(combined, mle_eval, "index {lookup_index}, round {j}");
                r.push(Fp::from_u64(rng.next_u64()));

                if r.len() % 2 == 0 {
                    Prefixes::update_checkpoints::<XLEN, Fp>(
                        &mut prefix_checkpoints,
                        r[r.len() - 2],
                        r[r.len() - 1],
                        j,
                        suffix_len,
                    );
                }

                j += 1;
            }
        }
    }
}

#[test]
fn clamp_prefix_suffix() {
    prefix_suffix_test::<ClampTableOp1<XLEN>>();
    prefix_suffix_test::<ClampTableOp2<XLEN>>();
}

#[test]
fn neg_relu_prefix_suffix() {
    prefix_suffix_test::<NegReluTable<XLEN>>();
}

#[test]
fn unsigned_abs_prefix_suffix() {
    prefix_suffix_test::<UnsignedAbsTable<XLEN>>();
}

#[test]
fn unsigned_less_than_prefix_suffix() {
    prefix_suffix_test::<UnsignedLessThanTable<XLEN>>();
}

#[test]
fn bitwise_prefix_suffix() {
    prefix_suffix_test::<AndTable<XLEN>>();
    prefix_suffix_test::<OrTable<XLEN>>();
    prefix_suffix_test::<XorTable<XLEN>>();
}

#[test]
fn checkpoints_start_unset_and_are_all_updated() {
    let mut cps = PrefixCheckpoints::<Fp>::new();
    assert_eq!(cps.len(), 15);
    for i in 0..15 {
        assert_eq!(cps.get(i), None);
    }
    // Binding x = 1, y = 1 for the first operand bit pair.
    Prefixes::update_checkpoints::<XLEN, Fp>(&mut cps, Fp::one(), Fp::one(), 1, 48);
    for i in 0..15 {
        assert!(cps.get(i).is_some());
    }
    // Eq: 1·1 + 0·0 = 1; LessThan: (1 - 1)·1 = 0; AND: 1·1·2^31.
    assert_eq!(cps.get(7), Some(Fp::one()));
    assert_eq!(cps.get(8), Some(Fp::zero()));
    assert_eq!(cps.get(0), Some(Fp::from_u64(1 << 31)));
    // The operands differ in the next pair: x = 0, y = 1, so x < y from here on.
    Prefixes::update_checkpoints::<XLEN, Fp>(&mut cps, Fp::zero(), Fp::one(), 3, 48);
    assert_eq!(cps.get(7), Some(Fp::zero()));
    assert_eq!(cps.get(8), Some(Fp::one()));
    assert_eq!(cps.get(0), Some(Fp::from_u64(1 << 31)));
    assert_eq!(cps.get(11), Some(Fp::from_u64((1 << 31) + (1 << 30))));
}

#[test]
fn prefix_mle_sums_the_free_bits() {
    let cps = PrefixCheckpoints::<Fp>::new();
    // Round 0 of a 64-bit index whose prefix part is the top 16 bits: c = 1 is the top bit
    // (significance 63), the remaining 15 bits are all ones.
    let b = LookupBits::new(0x7fff, 15);
    // The word below 2^10 holds no bit of the prefix part.
    let e = Prefixes::OpsWordLtHigh.prefix_mle::<XLEN, Fp>(&cps, None, 1, b, 0);
    assert_eq!(e.value(), Fp::zero());
    // The zero-above-bound product is 0 as soon as one high bit is set.
    let z = Prefixes::OpsZeroGtHigh.prefix_mle::<XLEN, Fp>(&cps, None, 0, LookupBits::new(0, 15), 0);
    assert_eq!(z.value(), Fp::one());
    let z = Prefixes::OpsZeroGtHigh.prefix_mle::<XLEN, Fp>(&cps, None, 1, LookupBits::new(0, 15), 0);
    assert_eq!(z.value(), Fp::zero());
    // c = 2 is not Boolean: the zero-above-bound product is then 1 - 2 = -1.
    let z = Prefixes::OpsZeroGtHigh.prefix_mle::<XLEN, Fp>(&cps, None, 2, LookupBits::new(0, 15), 0);
    assert_eq!(z.value(), Fp::zero().minus(Fp::one()));
    // AND over x = 0b11..., y = 0b11...: the top 8 operand bit pairs all (1, 1).
    let a = Prefixes::And.prefix_mle::<XLEN, Fp>(&cps, None, 1, b, 0);
    assert_eq!(a.value(), Fp::from_u64(0xff << 24));
}

#[test]
fn lookup_bits_split_and_pop() {
    let (hi, lo) = LookupBits::new(0xabcd, 16).split(4);
    assert_eq!((hi.to_u64(), hi.len()), (0xabc, 12));
    assert_eq!((lo.to_u64(), lo.len()), (0xd, 4));
    let mut b = LookupBits::new(0b101, 3);
    assert_eq!(b.pop_msb(), 1);
    assert_eq!((b.to_u64(), b.len()), (0b01, 2));
    assert_eq!(b.pop_msb(), 0);
    assert_eq!(b.pop_msb(), 1);
    assert_eq!(b.len(), 0);
    let (hi, lo) = LookupBits::new(u64::MAX, 64).split(64);
    assert_eq!((hi.to_u64(), hi.len(), lo.to_u64(), lo.len()), (0, 0, u64::MAX, 64));
}

#[test]
fn table_entries_at_the_checked_point() {
    // The sum-check harness above compares against `evaluate_mle`; tie that to entries once more.
    let t = UnsignedAbsTable::<XLEN>;
    let idx: u64 = 0xffff_fff0;
    let point = index_to_field_bitvector::<Fp>(idx, 2 * XLEN);
    assert_eq!(t.evaluate_mle(&point), Fp::from_u64(t.materialize_entry(idx)));
    assert_eq!(t.materialize_entry(idx), 16);
}
