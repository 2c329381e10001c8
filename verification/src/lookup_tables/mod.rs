//! Lookup tables and the multilinear extensions (MLEs) by which their reads are proved.
//!
//! Each table is a function of an index of `2 * XLEN` bits. Its MLE is the unique polynomial
//! of degree at most one in each of the `2 * XLEN` index bits that agrees with the table on
//! the Boolean hypercube; it is stated here over the integers and evaluated in the field.
use crate::field::{fmod, vals, JoltField};
use crate::hypercube::bool_point;
use crate::lookup_tables::prefixes::sparse_dense::prefix_poly;
use crate::lookup_tables::prefixes::{checkpoints_agree, lemma_prefix_value_agrees};
use crate::utils::lookup_bits::LookupBits;
use vstd::arithmetic::div_mod::lemma_mod_twice;
use vstd::arithmetic::power2::pow2;
use crate::lookup_tables::prefixes::{prefix_vals, PrefixEval, Prefixes};
use crate::lookup_tables::and::AndTable;
use crate::lookup_tables::or::OrTable;
use crate::lookup_tables::suffixes::Suffixes;
use crate::lookup_tables::xor::XorTable;
use vstd::prelude::*;

pub mod and;
pub mod bitwise;
pub mod clamp;
pub mod prefixes;
pub mod suffixes;
pub mod neg_relu;
pub mod or;
pub mod unsigned_abs;
pub mod unsigned_less_than;
pub mod xor;

verus! {

/// Core trait for the lookup tables: a table's entries and its multilinear extension.
pub trait JoltLookupTable: Sized {
    /// Whether `materialize_entry` is defined for this table's parameters.
    spec fn entries_defined(&self) -> bool;

    /// The table's entry at `index`.
    spec fn entry(&self, index: u64) -> int;

    /// Whether `evaluate_mle` is defined on points with `len` coordinates.
    spec fn mle_defined(&self, len: nat) -> bool;

    /// The table's multilinear extension, a polynomial with integer coefficients.
    spec fn mle(&self, r: Seq<int>) -> int;

    /// Materializes the entry at the given `index` of the table.
    fn materialize_entry(&self, index: u64) -> (v: u64)
        requires
            self.entries_defined(),
        ensures
            v as int == self.entry(index),
    ;

    /// Evaluates the table's multilinear extension at the point `r`.
    fn evaluate_mle<F: JoltField>(&self, r: &[F]) -> (v: F)
        requires
            self.mle_defined(r@.len()),
        ensures
            v.val() == fmod::<F>(self.mle(vals(r@))),
    ;

    /// Materializes the first `2^16` entries of the table (the whole table for an 8-bit word).
    fn materialize(&self) -> (t: Vec<u64>)
        requires
            self.entries_defined(),
        ensures
            t@.len() == 65536,
            forall|i: int| 0 <= i < 65536 ==> #[trigger] t@[i] as int == self.entry(i as u64),
    {
        let mut t: Vec<u64> = Vec::new();
        let mut i: u64 = 0;
        while i < 65536
            invariant
                self.entries_defined(),
                i <= 65536,
                t@.len() == i,
                forall|j: int| 0 <= j < i ==> #[trigger] t@[j] as int == self.entry(j as u64),
            decreases 65536 - i,
        {
            let e = self.materialize_entry(i);
            t.push(e);
            i += 1;
        }
        t
    }
}

/// Trait for lookup tables that support prefix-suffix MLE decomposition.
///
/// The table's MLE is recombined from prefix evaluations (over the high-order variables) and
/// suffix evaluations (over the low-order variables), avoiding iteration over the full
/// `2^(2*XLEN)` lookup table.
pub trait PrefixSuffixDecompositionTrait<const XLEN: usize>: JoltLookupTable + Default {
    /// The suffix components of the decomposition, in the order that `combine` takes them.
    spec fn suffix_list(&self) -> Seq<Suffixes>;

    /// The prefix components of the decomposition, in the order that `combine` takes them.
    spec fn prefix_list(&self) -> Seq<Prefixes>;

    /// The polynomial by which prefix and suffix evaluations recombine into the table's MLE.
    spec fn combination(&self, prefixes: Seq<int>, suffixes: Seq<int>) -> int;

    /// Returns the suffix components used in this lookup table's decomposition.
    fn suffixes(&self) -> (s: Vec<Suffixes>)
        ensures
            s@ == self.suffix_list(),
    ;

    /// Returns the prefix components used in this lookup table's decomposition.
    fn prefixes(&self) -> (p: Vec<Prefixes>)
        ensures
            p@ == self.prefix_list(),
    ;

    /// Combines prefix and suffix evaluations to reconstruct the full lookup table MLE value.
    fn combine<F: JoltField>(&self, prefixes: &[PrefixEval<F>], suffixes: &[F]) -> (r: F)
        requires
            prefixes@.len() == self.prefix_list().len(),
            suffixes@.len() == self.suffix_list().len(),
        ensures
            r.val() == fmod::<F>(self.combination(prefix_vals(prefixes@), vals(suffixes@))),
    ;

    /// The table parameters for which the decomposition holds.
    spec fn decomposition_defined(&self) -> bool;

    /// The decomposition: on any point made of a prefix part `pt` (whole pairs of coordinates,
    /// any values) and the Boolean point of a suffix, the table's MLE is the recombination of its
    /// prefixes' polynomials on `pt` with its suffixes' values.
    proof fn lemma_decomposition(&self, pt: Seq<int>, suffix: LookupBits)
        requires
            self.decomposition_defined(),
            0 <= suffix.value() < pow2(suffix.length()),
            pt.len() % 2 == 0,
            pt.len() + suffix.length() == 2 * XLEN,
        ensures
            self.mle(pt + bool_point(suffix.value(), suffix.length())) == self.combination(
                self.prefix_list().map_values(|p: Prefixes| prefix_poly(p, XLEN as nat, pt)),
                self.suffix_list().map_values(|x: Suffixes| x.value(XLEN as nat, suffix)),
            ),
    ;

    /// The recombination is a polynomial: prefix and suffix values that agree in the field give
    /// recombinations that agree in the field.
    proof fn lemma_combination_congruent<F: JoltField>(&self, p1: Seq<int>, p2: Seq<int>, s1: Seq<int>, s2: Seq<int>)
        requires
            p1.len() == self.prefix_list().len(),
            p2.len() == self.prefix_list().len(),
            s1.len() == self.suffix_list().len(),
            s2.len() == self.suffix_list().len(),
            forall|i: int| 0 <= i < p1.len() ==> fmod::<F>(#[trigger] p1[i]) == fmod::<F>(p2[i]),
            forall|i: int| 0 <= i < s1.len() ==> fmod::<F>(#[trigger] s1[i]) == fmod::<F>(s2[i]),
        ensures
            fmod::<F>(self.combination(p1, s1)) == fmod::<F>(self.combination(p2, s2)),
    ;
}

/// The law of a round of the prefix-suffix sum-check: at round `j = r.len()`, with checkpoints
/// that agree with the variables bound so far (`r`, up to its last whole pair), the table's
/// recombination of its prefixes' evaluations (what `Prefixes::prefix_mle` returns, with `r_x`
/// the last element of `r` when `j` is odd) and of its suffixes' evaluations (what
/// `Suffixes::suffix_mle` returns) is, in the field, the table's MLE at the point `r`, then `c`,
/// then the bits of `b`, then those of the suffix (what `evaluate_mle` returns there).
pub proof fn lemma_sumcheck_round<F: JoltField, const XLEN: usize, T: PrefixSuffixDecompositionTrait<XLEN>>(
    table: T,
    cps: Seq<Option<int>>,
    r: Seq<int>,
    c: int,
    b: LookupBits,
    suffix: LookupBits,
)
    requires
        table.decomposition_defined(),
        checkpoints_agree::<F>(XLEN as nat, cps, r.subrange(0, r.len() - r.len() % 2)),
        0 <= suffix.value() < pow2(suffix.length()),
        (r.len() + 1 + b.length()) % 2 == 0,
        r.len() + 1 + b.length() + suffix.length() == 2 * XLEN,
    ensures
        ({
            let rx = if r.len() % 2 == 1 { Some(r.last()) } else { None };
            let prefix_evals = table.prefix_list().map_values(
                |p: Prefixes| fmod::<F>(p.prefix_value(XLEN as nat, cps, rx, c, b, r.len())),
            );
            let suffix_evals = table.suffix_list().map_values(|x: Suffixes| fmod::<F>(x.value(XLEN as nat, suffix)));
            let point = r + seq![c] + bool_point(b.value(), b.length()) + bool_point(suffix.value(), suffix.length());
            fmod::<F>(table.combination(prefix_evals, suffix_evals)) == fmod::<F>(table.mle(point))
        }),
{
    let rx = if r.len() % 2 == 1 { Some(r.last()) } else { None };
    let pt = r + seq![c] + bool_point(b.value(), b.length());
    let polys = table.prefix_list().map_values(|p: Prefixes| prefix_poly(p, XLEN as nat, pt));
    let values = table.suffix_list().map_values(|x: Suffixes| x.value(XLEN as nat, suffix));
    let prefix_evals = table.prefix_list().map_values(
        |p: Prefixes| fmod::<F>(p.prefix_value(XLEN as nat, cps, rx, c, b, r.len())),
    );
    let suffix_evals = table.suffix_list().map_values(|x: Suffixes| fmod::<F>(x.value(XLEN as nat, suffix)));
    F::lemma_modulus();
    assert forall|i: int| 0 <= i < prefix_evals.len() implies fmod::<F>(#[trigger] prefix_evals[i]) == fmod::<F>(
        polys[i],
    ) by {
        let p = table.prefix_list()[i];
        lemma_prefix_value_agrees::<F>(p, XLEN as nat, cps, r, c, b);
        lemma_mod_twice(p.prefix_value(XLEN as nat, cps, rx, c, b, r.len()), F::modulus());
    }
    assert forall|i: int| 0 <= i < suffix_evals.len() implies fmod::<F>(#[trigger] suffix_evals[i]) == fmod::<F>(
        values[i],
    ) by {
        lemma_mod_twice(values[i], F::modulus());
    }
    table.lemma_combination_congruent::<F>(prefix_evals, polys, suffix_evals, values);
    table.lemma_decomposition(pt, suffix);
}

/// Enum of all available lookup tables.
///
/// Each variant corresponds to a specific operation (AND, OR, XOR) and contains
/// the associated lookup table implementation.
#[derive(Copy, Clone, Debug)]
pub enum LookupTables<const XLEN: usize> {
    /// Bitwise AND operation lookup table
    And(AndTable<XLEN>),
    /// Bitwise OR operation lookup table
    Or(OrTable<XLEN>),
    /// Bitwise XOR operation lookup table
    Xor(XorTable<XLEN>),
}

impl<const XLEN: usize> LookupTables<XLEN> {
    /// The position of the variant in the declaration: 0 for AND, 1 for OR, 2 for XOR.
    pub open spec fn variant_index(self) -> usize {
        match self {
            LookupTables::And(_) => 0,
            LookupTables::Or(_) => 1,
            LookupTables::Xor(_) => 2,
        }
    }

    /// The entry of the variant's table at `index`.
    pub open spec fn entry(self, index: u64) -> int {
        match self {
            LookupTables::And(table) => table.entry(index),
            LookupTables::Or(table) => table.entry(index),
            LookupTables::Xor(table) => table.entry(index),
        }
    }

    /// Whether the variant's MLE is defined on points with `len` coordinates.
    pub open spec fn mle_defined(self, len: nat) -> bool {
        match self {
            LookupTables::And(table) => table.mle_defined(len),
            LookupTables::Or(table) => table.mle_defined(len),
            LookupTables::Xor(table) => table.mle_defined(len),
        }
    }

    /// The variant's MLE.
    pub open spec fn mle(self, r: Seq<int>) -> int {
        match self {
            LookupTables::And(table) => table.mle(r),
            LookupTables::Or(table) => table.mle(r),
            LookupTables::Xor(table) => table.mle(r),
        }
    }

    /// The variant's prefix components.
    pub open spec fn prefix_list(self) -> Seq<Prefixes> {
        match self {
            LookupTables::And(table) => table.prefix_list(),
            LookupTables::Or(table) => table.prefix_list(),
            LookupTables::Xor(table) => table.prefix_list(),
        }
    }

    /// The variant's suffix components.
    pub open spec fn suffix_list(self) -> Seq<Suffixes> {
        match self {
            LookupTables::And(table) => table.suffix_list(),
            LookupTables::Or(table) => table.suffix_list(),
            LookupTables::Xor(table) => table.suffix_list(),
        }
    }

    /// The variant's recombination polynomial.
    pub open spec fn combination(self, prefixes: Seq<int>, suffixes: Seq<int>) -> int {
        match self {
            LookupTables::And(table) => table.combination(prefixes, suffixes),
            LookupTables::Or(table) => table.combination(prefixes, suffixes),
            LookupTables::Xor(table) => table.combination(prefixes, suffixes),
        }
    }

    /// Returns the discriminant index of the given lookup table variant.
    pub fn enum_index(table: &Self) -> (i: usize)
        ensures
            i == table.variant_index(),
    {
        match table {
            LookupTables::And(_) => 0,
            LookupTables::Or(_) => 1,
            LookupTables::Xor(_) => 2,
        }
    }

    /// Materializes the first `2^16` entries of the lookup table (the whole table for an
    /// 8-bit word).
    pub fn materialize(&self) -> (t: Vec<u64>)
        ensures
            t@.len() == 65536,
            forall|i: int| 0 <= i < 65536 ==> #[trigger] t@[i] as int == self.entry(i as u64),
    {
        match self {
            LookupTables::And(table) => table.materialize(),
            LookupTables::Or(table) => table.materialize(),
            LookupTables::Xor(table) => table.materialize(),
        }
    }

    /// Materializes a single entry of the lookup table at the given index.
    pub fn materialize_entry(&self, index: u64) -> (v: u64)
        ensures
            v as int == self.entry(index),
    {
        match self {
            LookupTables::And(table) => table.materialize_entry(index),
            LookupTables::Or(table) => table.materialize_entry(index),
            LookupTables::Xor(table) => table.materialize_entry(index),
        }
    }

    /// Evaluates the multilinear extension (MLE) of the lookup table at point `r`.
    pub fn evaluate_mle<F: JoltField>(&self, r: &[F]) -> (v: F)
        requires
            self.mle_defined(r@.len()),
        ensures
            v.val() == fmod::<F>(self.mle(vals(r@))),
    {
        match self {
            LookupTables::And(table) => table.evaluate_mle(r),
            LookupTables::Or(table) => table.evaluate_mle(r),
            LookupTables::Xor(table) => table.evaluate_mle(r),
        }
    }

    /// Returns the prefix components used in this lookup table's decomposition.
    pub fn prefixes(&self) -> (p: Vec<Prefixes>)
        ensures
            p@ == self.prefix_list(),
    {
        match self {
            LookupTables::And(table) => table.prefixes(),
            LookupTables::Or(table) => table.prefixes(),
            LookupTables::Xor(table) => table.prefixes(),
        }
    }

    /// Returns the suffix components used in this lookup table's decomposition.
    pub fn suffixes(&self) -> (s: Vec<Suffixes>)
        ensures
            s@ == self.suffix_list(),
    {
        match self {
            LookupTables::And(table) => table.suffixes(),
            LookupTables::Or(table) => table.suffixes(),
            LookupTables::Xor(table) => table.suffixes(),
        }
    }

    /// Combines prefix and suffix evaluations to reconstruct the full lookup table MLE value.
    pub fn combine<F: JoltField>(&self, prefixes: &[PrefixEval<F>], suffixes: &[F]) -> (r: F)
        requires
            prefixes@.len() == self.prefix_list().len(),
            suffixes@.len() == self.suffix_list().len(),
        ensures
            r.val() == fmod::<F>(self.combination(prefix_vals(prefixes@), vals(suffixes@))),
    {
        match self {
            LookupTables::And(table) => table.combine(prefixes, suffixes),
            LookupTables::Or(table) => table.combine(prefixes, suffixes),
            LookupTables::Xor(table) => table.combine(prefixes, suffixes),
        }
    }
}

impl<const XLEN: usize> From<AndTable<XLEN>> for LookupTables<XLEN> {
    fn from(table: AndTable<XLEN>) -> (r: Self)
        ensures
            r == LookupTables::And(table),
    {
        LookupTables::And(table)
    }
}

impl<const XLEN: usize> vstd::std_specs::convert::FromSpecImpl<AndTable<XLEN>> for LookupTables<XLEN> {
    open spec fn obeys_from_spec() -> bool {
        true
    }

    open spec fn from_spec(table: AndTable<XLEN>) -> Self {
        LookupTables::And(table)
    }
}

impl<const XLEN: usize> From<OrTable<XLEN>> for LookupTables<XLEN> {
    fn from(table: OrTable<XLEN>) -> (r: Self)
        ensures
            r == LookupTables::Or(table),
    {
        LookupTables::Or(table)
    }
}

impl<const XLEN: usize> vstd::std_specs::convert::FromSpecImpl<OrTable<XLEN>> for LookupTables<XLEN> {
    open spec fn obeys_from_spec() -> bool {
        true
    }

    open spec fn from_spec(table: OrTable<XLEN>) -> Self {
        LookupTables::Or(table)
    }
}

impl<const XLEN: usize> From<XorTable<XLEN>> for LookupTables<XLEN> {
    fn from(table: XorTable<XLEN>) -> (r: Self)
        ensures
            r == LookupTables::Xor(table),
    {
        LookupTables::Xor(table)
    }
}

impl<const XLEN: usize> vstd::std_specs::convert::FromSpecImpl<XorTable<XLEN>> for LookupTables<XLEN> {
    open spec fn obeys_from_spec() -> bool {
        true
    }

    open spec fn from_spec(table: XorTable<XLEN>) -> Self {
        LookupTables::Xor(table)
    }
}

/// `u + c·v`, slot by slot.
pub open spec fn shift_add(u: Seq<int>, c: int, v: Seq<int>) -> Seq<int> {
    Seq::new(u.len(), |i: int| u[i] + c * v[i])
}

/// `n` zeros.
pub open spec fn zeros(n: nat) -> Seq<int> {
    Seq::new(n, |i: int| 0int)
}

/// The recombination is linear in the suffix evaluations: with no suffix evaluation it is 0,
/// and adding `c` times one set of suffix evaluations to another adds `c` times its
/// recombination. This is what lets the suffix evaluations be summed over many lookups before
/// they are recombined.
pub open spec fn linear_in_suffixes<const XLEN: usize, T: PrefixSuffixDecompositionTrait<XLEN>>(table: T) -> bool {
    &&& forall|p: Seq<int>|
        p.len() == table.prefix_list().len() ==> #[trigger] table.combination(p, zeros(table.suffix_list().len()))
            == 0
    &&& forall|p: Seq<int>, u: Seq<int>, c: int, v: Seq<int>|
        p.len() == table.prefix_list().len() && u.len() == table.suffix_list().len() && v.len()
            == table.suffix_list().len() ==> #[trigger] table.combination(p, shift_add(u, c, v))
            == table.combination(p, u) + c * table.combination(p, v)
}

/// The suffix evaluations aggregated over the first `k` lookups: for each suffix of `list`, the
/// sum over `j < k` of `w[j]` times its value on the suffix bits `bits[j]`.
pub open spec fn aggregate(list: Seq<Suffixes>, xlen: nat, bits: Seq<LookupBits>, w: Seq<int>, k: nat) -> Seq<int>
    decreases k,
{
    if k == 0 {
        zeros(list.len())
    } else {
        shift_add(
            aggregate(list, xlen, bits, w, (k - 1) as nat),
            w[k - 1],
            list.map_values(|x: Suffixes| x.value(xlen, bits[k - 1])),
        )
    }
}

/// `∑_{j < k} w[j] · mle(pt + bits[j])`: the weighted sum of the table's MLE on the points made of
/// the prefix part `pt` and the Boolean point of each lookup's suffix bits.
pub open spec fn weighted_mle<T: JoltLookupTable>(table: T, pt: Seq<int>, bits: Seq<LookupBits>, w: Seq<int>, k: nat) -> int
    decreases k,
{
    if k == 0 {
        0
    } else {
        weighted_mle(table, pt, bits, w, (k - 1) as nat) + w[k - 1] * table.mle(
            pt + bool_point(bits[k - 1].value(), bits[k - 1].length()),
        )
    }
}

/// The aggregated prefix-suffix decomposition: for a table whose recombination is linear in the
/// suffix evaluations, recombining the prefixes' polynomials on any prefix part `pt` with the
/// suffix evaluations summed, with weights `w`, over the first `k` lookups' suffixes gives the
/// same weighted sum of the table's MLE on those lookups' points.
pub proof fn lemma_aggregated_decomposition<const XLEN: usize, T: PrefixSuffixDecompositionTrait<XLEN>>(
    table: T,
    pt: Seq<int>,
    bits: Seq<LookupBits>,
    w: Seq<int>,
    k: nat,
)
    requires
        linear_in_suffixes(table),
        table.decomposition_defined(),
        pt.len() % 2 == 0,
        k <= bits.len(),
        k <= w.len(),
        forall|j: int|
            0 <= j < bits.len() ==> 0 <= (#[trigger] bits[j]).value() < pow2(bits[j].length()) && pt.len()
                + bits[j].length() == 2 * XLEN,
    ensures
        table.combination(
            table.prefix_list().map_values(|p: Prefixes| prefix_poly(p, XLEN as nat, pt)),
            aggregate(table.suffix_list(), XLEN as nat, bits, w, k),
        ) == weighted_mle(table, pt, bits, w, k),
    decreases k,
{
    let polys = table.prefix_list().map_values(|p: Prefixes| prefix_poly(p, XLEN as nat, pt));
    let n = table.suffix_list().len();
    if k == 0 {
        assert(table.combination(polys, zeros(n)) == 0);
    } else {
        lemma_aggregated_decomposition(table, pt, bits, w, (k - 1) as nat);
        let b = bits[k - 1];
        let u = aggregate(table.suffix_list(), XLEN as nat, bits, w, (k - 1) as nat);
        let v = table.suffix_list().map_values(|x: Suffixes| x.value(XLEN as nat, b));
        lemma_aggregate_len(table.suffix_list(), XLEN as nat, bits, w, (k - 1) as nat);
        table.lemma_decomposition(pt, b);
        assert(table.combination(polys, shift_add(u, w[k - 1], v)) == table.combination(polys, u) + w[k - 1]
            * table.combination(polys, v));
    }
}

/// Aggregated suffix evaluations have one slot per suffix.
pub proof fn lemma_aggregate_len(list: Seq<Suffixes>, xlen: nat, bits: Seq<LookupBits>, w: Seq<int>, k: nat)
    ensures
        aggregate(list, xlen, bits, w, k).len() == list.len(),
    decreases k,
{
    if k > 0 {
        lemma_aggregate_len(list, xlen, bits, w, (k - 1) as nat);
    }
}

/// `m·(x + c·y) == m·x + c·(m·y)`.
pub proof fn lemma_scale_sum(m: int, x: int, y: int, c: int)
    ensures
        m * (x + c * y) == m * x + c * (m * y),
{
    vstd::arithmetic::mul::lemma_mul_is_distributive_add(m, x, c * y);
    vstd::arithmetic::mul::lemma_mul_is_associative(m, c, y);
    vstd::arithmetic::mul::lemma_mul_is_commutative(m, c);
    vstd::arithmetic::mul::lemma_mul_is_associative(c, m, y);
}

} // verus!
