use joltworks::field::{Fp, JoltField};
use joltworks::lookup_tables::prefixes::{PrefixCheckpoints, PrefixEval, Prefixes};

#[test]
fn checkpoints_start_unset() {
    let c: PrefixCheckpoints<Fp> = PrefixCheckpoints::new();
    assert_eq!(c.len(), 15);
    for i in 0..c.len() {
        assert_eq!(c.get(i), None);
    }
    let d: PrefixCheckpoints<Fp> = PrefixCheckpoints::default();
    assert_eq!(d.get(14), None);
}

#[test]
fn prefix_eval_wraps_and_unwraps() {
    let e = PrefixEval::from(Some(Fp::from_u64(9)));
    assert_eq!(e.unwrap().value(), Fp::from_u64(9));
    assert_eq!(PrefixEval::from(Fp::one()).value(), Fp::one());
}

#[test]
fn prefix_eval_multiplies_and_checkpoints_index() {
    let a = PrefixEval::from(Fp::from_u64(6));
    let b = PrefixEval::from(Fp::from_u64(7));
    assert_eq!(a * Fp::from_u64(7), Fp::from_u64(42));
    assert_eq!(a * b, Fp::from_u64(42));
    let mut cps = PrefixCheckpoints::<Fp>::new();
    cps.set(Prefixes::Eq.to_ordinal(), Some(Fp::one()));
    assert_eq!(cps[7], Some(Fp::one()));
    assert_eq!(cps[Prefixes::Eq], Some(Fp::one()));
    assert_eq!(cps[Prefixes::LessThan], None);
    assert_eq!(Prefixes::from_ordinal(13).to_ordinal(), 13);
}
