use joltworks::field::{Fp, JoltField};
use joltworks::lookup_tables::and::AndTable;
use joltworks::lookup_tables::or::OrTable;
use joltworks::lookup_tables::prefixes::{PrefixEval, Prefixes};
use joltworks::lookup_tables::suffixes::Suffixes;
use joltworks::lookup_tables::xor::XorTable;
use joltworks::lookup_tables::{JoltLookupTable, LookupTables};
use joltworks::utils::index_to_field_bitvector;
use rand::rngs::StdRng;
use rand::{Rng, RngCore, SeedableRng};

fn interleave(x: u32, y: u32) -> u64 {
    let mut v = 0u64;
    for k in 0..32 {
        v |= (((x >> k) & 1) as u64) << (2 * k + 1);
        v |= (((y >> k) & 1) as u64) << (2 * k);
    }
    v
}

fn all_tables<const XLEN: usize>() -> Vec<LookupTables<XLEN>> {
    vec![
        LookupTables::from(AndTable::<XLEN>),
        LookupTables::from(OrTable::<XLEN>),
        LookupTables::from(XorTable::<XLEN>),
    ]
}

#[test]
fn bitwise_entries_combine_the_operands() {
    let (x, y) = (0b1100_1010u32, 0b1010_0110u32);
    let index = interleave(x, y);
    assert_eq!(AndTable::<32>.materialize_entry(index), (x & y) as u64);
    assert_eq!(OrTable::<32>.materialize_entry(index), (x | y) as u64);
    assert_eq!(XorTable::<32>.materialize_entry(index), (x ^ y) as u64);
    assert_eq!(AndTable::<32>.materialize_entry(interleave(u32::MAX, 0x1234_5678)), 0x1234_5678);
}

#[test]
fn bitwise_mle_full_hypercube() {
    for table in all_tables::<8>() {
        let materialized = table.materialize();
        for (i, entry) in materialized.iter().enumerate() {
            assert_eq!(
                Fp::from_u64(*entry),
                table.evaluate_mle(&index_to_field_bitvector::<Fp>(i as u64, 16)),
                "MLE did not match materialized table at index {i}",
            );
        }
    }
}

#[test]
fn bitwise_mle_random() {
    let mut rng = StdRng::seed_from_u64(12345);
    for table in all_tables::<32>() {
        for _ in 0..1000 {
            let index: u64 = rng.gen();
            assert_eq!(
                Fp::from_u64(table.materialize_entry(index)),
                table.evaluate_mle(&index_to_field_bitvector::<Fp>(index, 64)),
            );
        }
    }
}

#[test]
fn bitwise_mle_linearity() {
    let mut rng = StdRng::seed_from_u64(12345);
    let two = Fp::from_u64(2);
    for table in all_tables::<32>() {
        for var_idx in 0..64 {
            for _ in 0..4 {
                let mut p: Vec<Fp> = (0..64).map(|_| Fp::from_u64(rng.next_u64())).collect();
                p[var_idx] = Fp::zero();
                let y0 = table.evaluate_mle(&p);
                p[var_idx] = Fp::one();
                let y1 = table.evaluate_mle(&p);
                p[var_idx] = two;
                let y2 = table.evaluate_mle(&p);
                assert_eq!(y2.minus(y0), y1.minus(y0).times(two));
            }
        }
    }
}

#[test]
fn lookup_tables_enum_dispatch() {
    let tables = all_tables::<32>();
    let indices: Vec<usize> = tables.iter().map(LookupTables::enum_index).collect();
    assert_eq!(indices, vec![0, 1, 2]);
    assert_eq!(tables[0].suffixes(), vec![Suffixes::One, Suffixes::And]);
    assert_eq!(tables[1].suffixes(), vec![Suffixes::One, Suffixes::Or]);
    assert_eq!(tables[2].suffixes(), vec![Suffixes::One, Suffixes::Xor]);
    assert_eq!(tables[0].prefixes(), vec![Prefixes::And]);
    assert_eq!(tables[1].prefixes(), vec![Prefixes::Or]);
    assert_eq!(tables[2].prefixes(), vec![Prefixes::Xor]);
    // prefix * one + suffix
    let p = vec![PrefixEval::from(Fp::from_u64(6))];
    let s = vec![Fp::from_u64(3), Fp::from_u64(4)];
    for t in &tables {
        assert_eq!(t.combine(&p, &s), Fp::from_u64(22));
    }
    let index = interleave(0b0110, 0b0101);
    assert_eq!(tables[0].materialize_entry(index), 0b0100);
    assert_eq!(tables[1].materialize_entry(index), 0b0111);
    assert_eq!(tables[2].materialize_entry(index), 0b0011);
}
