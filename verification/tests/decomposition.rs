use joltworks::field::{Fp, JoltField};
use joltworks::lookup_tables::and::AndTable;
use joltworks::lookup_tables::clamp::{ClampTableOp1, ClampTableOp2};
use joltworks::lookup_tables::or::OrTable;
use joltworks::lookup_tables::prefixes::{PrefixEval, Prefixes};
use joltworks::lookup_tables::unsigned_less_than::UnsignedLessThanTable;
use joltworks::lookup_tables::xor::XorTable;
use joltworks::lookup_tables::{JoltLookupTable, PrefixSuffixDecompositionTrait};
use joltworks::utils::lookup_bits::LookupBits;
use joltworks::utils::uninterleave_bits;
use rand::rngs::StdRng;
use rand::{Rng, SeedableRng};

fn suffix_evals<T: PrefixSuffixDecompositionTrait<32>>(table: &T, s: u64, k: usize) -> Vec<Fp> {
    table
        .suffixes()
        .iter()
        .map(|x| Fp::from_u32(x.suffix_mle::<32>(LookupBits::new(s, k))))
        .collect()
}

fn split(index: u64, k: usize) -> (u64, u64) {
    if k == 64 {
        (0, index)
    } else {
        (index >> k, index & ((1u64 << k) - 1))
    }
}

fn clamp_prefix_value(p: Prefixes, prefix_part: u64) -> u64 {
    let below = |b: u32| (prefix_part < (1u64 << b)) as u64;
    let word = |b: u32| prefix_part % (1u64 << b);
    match p {
        Prefixes::OpsZeroGtHigh => below(10),
        Prefixes::Op1ZeroGtLow => below(5),
        Prefixes::Op2ZeroGtLow => below(0),
        Prefixes::OpsWordLtHigh => word(10),
        Prefixes::Op1WordLtLow => word(5),
        Prefixes::Op2WordLtLow => word(0),
        _ => unreachable!(),
    }
}

fn check_clamp<T: PrefixSuffixDecompositionTrait<32>>(table: T, index: u64, k: usize) {
    let (prefix, s) = split(index, k);
    let prefix_part = if k == 64 { 0 } else { prefix << k };
    let p: Vec<PrefixEval<Fp>> = table
        .prefixes()
        .iter()
        .map(|&x| PrefixEval::from(Fp::from_u64(clamp_prefix_value(x, prefix_part))))
        .collect();
    let s = suffix_evals(&table, s, k);
    assert_eq!(table.combine(&p, &s), Fp::from_u64(table.materialize_entry(index)), "index {index} split at {k}");
}

#[test]
fn clamp_decomposition_on_boolean_points() {
    let mut rng = StdRng::seed_from_u64(12345);
    let mut indices: Vec<u64> = vec![0, 1, 2, 31, 32, 33, 100, 1023, 1024, 1025, 4096, u64::MAX];
    for _ in 0..200 {
        indices.push(rng.gen::<u64>() >> rng.gen_range(0..64));
    }
    for &index in &indices {
        for k in [0usize, 3, 4, 7, 8, 11, 16, 32, 48, 64] {
            check_clamp(ClampTableOp1::<32>::default(), index, k);
            check_clamp(ClampTableOp2::<32>::default(), index, k);
        }
    }
}

fn operands(prefix: u64) -> (u64, u64) {
    let (x, y) = uninterleave_bits(prefix);
    (x as u64, y as u64)
}

#[test]
fn less_than_decomposition_on_boolean_points() {
    let mut rng = StdRng::seed_from_u64(12345);
    let table = UnsignedLessThanTable::<32>;
    for _ in 0..300 {
        let index: u64 = rng.gen();
        for k in [0usize, 2, 16, 32, 48, 64] {
            let (prefix, s) = split(index, k);
            let (xh, yh) = operands(prefix);
            let p: Vec<PrefixEval<Fp>> = table
                .prefixes()
                .iter()
                .map(|&x| {
                    let v = match x {
                        Prefixes::Eq => (xh == yh) as u64,
                        Prefixes::LessThan => (xh < yh) as u64,
                        _ => unreachable!(),
                    };
                    PrefixEval::from(Fp::from_u64(v))
                })
                .collect();
            let s = suffix_evals(&table, s, k);
            assert_eq!(table.combine(&p, &s), Fp::from_u64(table.materialize_entry(index)));
        }
    }
}

fn check_bitwise<T: PrefixSuffixDecompositionTrait<32>>(table: T, op: fn(u64, u64) -> u64) {
    let mut rng = StdRng::seed_from_u64(12345);
    for _ in 0..300 {
        let index: u64 = rng.gen();
        for k in [0usize, 2, 16, 32, 48, 64] {
            let (prefix, s) = split(index, k);
            let (xh, yh) = operands(prefix);
            let shift = 1u128 << (k / 2);
            let p = vec![PrefixEval::from(Fp::from_u64((op(xh, yh) as u128 * shift) as u64))];
            let s = suffix_evals(&table, s, k);
            assert_eq!(table.combine(&p, &s), Fp::from_u64(table.materialize_entry(index)));
        }
    }
}

#[test]
fn bitwise_decomposition_on_boolean_points() {
    check_bitwise(AndTable::<32>, |x, y| x & y);
    check_bitwise(OrTable::<32>, |x, y| x | y);
    check_bitwise(XorTable::<32>, |x, y| x ^ y);
}
