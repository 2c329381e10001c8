//! Bitwise XOR lookup table.
use crate::field::{fmod, lemma_field_basics, lemma_plus_represents, lemma_times_represents, vals, JoltField};
use crate::hypercube::{affine, bool_point};
use crate::lookup_tables::bitwise::{
    lemma_bitwise_prefixes, lemma_bitwise_suffix, lemma_pair_sum_split,
    xor_poly, lemma_bit_polys_affine, lemma_pair_sum_affine, lemma_pair_sum_extends, pair_sum,
};
use crate::lookup_tables::prefixes::sparse_dense::prefix_poly;
use crate::lookup_tables::prefixes::{PrefixEval, Prefixes};
use crate::lookup_tables::suffixes::Suffixes;
use crate::lookup_tables::{JoltLookupTable, PrefixSuffixDecompositionTrait};
use crate::utils::lookup_bits::LookupBits;
use crate::utils::{even_bits, odd_bits, pow2_word, uninterleave_bits};
use vstd::arithmetic::power2::*;
use crate::field::{lemma_congruent_plus, lemma_congruent_times};
use crate::lookup_tables::{aggregate, lemma_aggregated_decomposition, linear_in_suffixes, shift_add, weighted_mle, zeros};
use vstd::prelude::*;

verus! {

/// Bitwise XOR lookup table: the bitwise XOR of the two `XLEN`-bit operands interleaved in the index.
#[derive(Copy, Clone, Default, Debug)]
pub struct XorTable<const XLEN: usize>;

/// The bitwise XOR of the two operands interleaved in `index`.
pub open spec fn xor_value(index: int) -> int {
    ((odd_bits(index, 32) as u32) ^ (even_bits(index, 32) as u32)) as int
}

/// The XOR MLE: `∑_i 2^(XLEN-1-i) · ((1 - x_i) · y_i + x_i · (1 - y_i))` over the operand bit pairs `(x_i, y_i) = (r_{2i}, r_{2i+1})`.
pub open spec fn xor_mle(r: Seq<int>, x_len: nat) -> int {
    pair_sum(r, x_len, x_len, |a: int, b: int| xor_poly(a, b))
}

impl<const XLEN: usize> JoltLookupTable for XorTable<XLEN> {
    open spec fn entries_defined(&self) -> bool {
        true
    }

    open spec fn entry(&self, index: u64) -> int {
        xor_value(index as int)
    }

    open spec fn mle_defined(&self, len: nat) -> bool {
        len == 2 * XLEN && XLEN <= 64
    }

    open spec fn mle(&self, r: Seq<int>) -> int {
        xor_mle(r, XLEN as nat)
    }

    fn materialize_entry(&self, index: u64) -> (v: u64) {
        let (x, y) = uninterleave_bits(index);
        (x ^ y) as u64
    }

    fn evaluate_mle<F: JoltField>(&self, r: &[F]) -> (v: F) {
        proof {
            lemma_field_basics::<F>();
        }
        let ghost rv = vals(r@);
        let ghost g = |a: int, b: int| xor_poly(a, b);
        let mut result = F::zero();
        let mut i: usize = 0;
        while i < XLEN
            invariant
                F::modulus() > 1,
                i <= XLEN <= 64,
                r@.len() == 2 * XLEN,
                rv == vals(r@),
                g == (|a: int, b: int| xor_poly(a, b)),
                result.val() == fmod::<F>(pair_sum(rv, i as nat, XLEN as nat, g)),
            decreases XLEN - i,
        {
            let x_i = r[2 * i];
            let y_i = r[2 * i + 1];
            let ghost x = rv[2 * i];
            let ghost y = rv[2 * i + 1];
            proof {
                x_i.lemma_val_range();
                y_i.lemma_val_range();
            }
            let nx = F::one().minus(x_i);
            let ny = F::one().minus(y_i);
            let a = nx.times(y_i);
            let b = x_i.times(ny);
            let pv = a.plus(b);
            proof {
                lemma_times_represents(nx, y_i, 1 - x, y);
                lemma_times_represents(x_i, ny, x, 1 - y);
                lemma_plus_represents(a, b, (1 - x) * y, x * (1 - y));
            }
            let w = F::from_u64(pow2_word(XLEN - 1 - i));
            let term = w.times(pv);
            proof {
                lemma_times_represents(w, pv, pow2((XLEN - 1 - i) as nat) as int, g(x, y));
                lemma_plus_represents(
                    result,
                    term,
                    pair_sum(rv, i as nat, XLEN as nat, g),
                    pow2((XLEN - 1 - i) as nat) * g(x, y),
                );
            }
            result = result.plus(term);
            i += 1;
        }
        result
    }
}

impl<const XLEN: usize> PrefixSuffixDecompositionTrait<XLEN> for XorTable<XLEN> {
    open spec fn suffix_list(&self) -> Seq<Suffixes> {
        seq![Suffixes::One, Suffixes::Xor]
    }

    open spec fn prefix_list(&self) -> Seq<Prefixes> {
        seq![Prefixes::Xor]
    }

    /// `xor_prefix · one + xor_suffix`.
    open spec fn combination(&self, prefixes: Seq<int>, suffixes: Seq<int>) -> int {
        prefixes[0] * suffixes[0] + suffixes[1]
    }

    fn suffixes(&self) -> (s: Vec<Suffixes>) {
        vec![Suffixes::One, Suffixes::Xor]
    }

    fn prefixes(&self) -> (p: Vec<Prefixes>) {
        vec![Prefixes::Xor]
    }

    open spec fn decomposition_defined(&self) -> bool {
        XLEN <= 32
    }

    proof fn lemma_decomposition(&self, pt: Seq<int>, suffix: LookupBits) {
        lemma_xor_decomposition(*self, pt, suffix);
    }

    proof fn lemma_combination_congruent<F: JoltField>(&self, p1: Seq<int>, p2: Seq<int>, s1: Seq<int>, s2: Seq<int>) {
        assert(fmod::<F>(p1[0]) == fmod::<F>(p2[0]) && fmod::<F>(s1[0]) == fmod::<F>(s2[0]) && fmod::<F>(s1[1]) == fmod::<F>(s2[1]));
        lemma_congruent_times::<F>(p1[0], p2[0], s1[0], s2[0]);
        lemma_congruent_plus::<F>(p1[0] * s1[0], p2[0] * s2[0], s1[1], s2[1]);
    }

    fn combine<F: JoltField>(&self, prefixes: &[PrefixEval<F>], suffixes: &[F]) -> (r: F) {
        proof {
            lemma_field_basics::<F>();
        }
        let one = suffixes[0];
        let suffix = suffixes[1];
        let prefix = prefixes[0].value();
        let a = prefix.times(one);
        proof {
            a.lemma_val_range();
            suffix.lemma_val_range();
            lemma_plus_represents(a, suffix, prefix.val() * one.val(), suffix.val());
        }
        a.plus(suffix)
    }
}

/// On every point of the Boolean hypercube, the XOR MLE equals the table's entry.
pub proof fn lemma_xor_mle_extends_table<const XLEN: usize>(table: XorTable<XLEN>, index: u64)
    requires
        XLEN <= 32,
        index < pow2(2 * XLEN as nat),
    ensures
        table.mle_defined(2 * XLEN as nat),
        table.mle(bool_point(index as int, 2 * XLEN as nat)) == table.entry(index),
{
    lemma_pair_sum_extends(index as int, XLEN as nat);
}

/// The XOR MLE is affine in each of its coordinates.
pub proof fn lemma_xor_mle_affine<const XLEN: usize>(
    table: XorTable<XLEN>,
    r: Seq<int>,
    k: int,
    t: int,
)
    requires
        table.mle_defined(r.len()),
        0 <= k < r.len(),
    ensures
        affine(table.mle(r.update(k, 0)), table.mle(r.update(k, 1)), table.mle(r.update(k, t)), t),
{
    lemma_bit_polys_affine();
    lemma_pair_sum_affine(r, XLEN as nat, XLEN as nat, |a: int, b: int| xor_poly(a, b), k, t);
}

/// The sum-check decomposition of the XOR table: on any point made of a prefix part `pt`
/// (whole pairs of coordinates, any values) and the Boolean point of a suffix, the table's MLE
/// is the recombination of its prefix's polynomial on `pt` with its suffixes' values.
pub proof fn lemma_xor_decomposition<const XLEN: usize>(
    table: XorTable<XLEN>,
    pt: Seq<int>,
    suffix: LookupBits,
)
    requires
        0 <= suffix.value() < pow2(suffix.length()),
        pt.len() % 2 == 0,
        pt.len() + suffix.length() == 2 * XLEN,
        XLEN <= 32,
    ensures
        table.mle(pt + bool_point(suffix.value(), suffix.length())) == table.combination(
            table.prefix_list().map_values(|p: Prefixes| prefix_poly(p, XLEN as nat, pt)),
            table.suffix_list().map_values(|x: Suffixes| x.value(XLEN as nat, suffix)),
        ),
{
    let s = suffix.value();
    let k = suffix.length();
    let i = (pt.len() / 2) as nat;
    let j = (k / 2) as nat;
    assert(2 * j == k);
    let w = bool_point(s, k);
    let r = pt + w;
    assert(r.subrange(0, (2 * i) as int) =~= pt);
    lemma_bitwise_prefixes(XLEN as nat, r, i);
    let g = |a: int, b: int| xor_poly(a, b);
    lemma_pair_sum_split(pt, w, i, j, XLEN as nat, g);
    assert(i + j == XLEN);
    assert((XLEN - i) as nat == j);
    lemma_bitwise_suffix(s, j);
    let pv = pair_sum(r, i, XLEN as nat, g);
    assert(table.prefix_list().map_values(|p: Prefixes| prefix_poly(p, XLEN as nat, pt)) =~= seq![pv]);
    assert(pv * 1 == pv);
}

/// The Xor recombination is linear in the suffix evaluations (see
/// `linear_in_suffixes`): the One-suffix slot, like every other, is scaled and summed with the
/// suffix evaluations, as when they are aggregated over many lookups.
pub proof fn lemma_xor_linear<const XLEN: usize>(table: XorTable<XLEN>)
    ensures
        linear_in_suffixes::<XLEN, XorTable<XLEN>>(table),
{
    assert forall|p: Seq<int>| p.len() == 1 implies #[trigger] table.combination(p, zeros(2)) == 0 by {
        let z = zeros(2);
        assert(z[0] == 0 && z[1] == 0);
        let a0 = p[0];
        assert(a0 * 0 + 0 == 0) by (nonlinear_arith);
    }
    assert forall|p: Seq<int>, u: Seq<int>, c: int, v: Seq<int>|
        p.len() == 1 && u.len() == 2 && v.len() == 2 implies #[trigger] table.combination(p, shift_add(u, c, v))
            == table.combination(p, u) + c * table.combination(p, v) by {
        let s = shift_add(u, c, v);
        assert(s[0] == u[0] + c * v[0] && s[1] == u[1] + c * v[1]);
        let a0 = p[0];
        let u0 = u[0];
        let u1 = u[1];
        let v0 = v[0];
        let v1 = v[1];
        assert(a0 * (u0 + c * v0) + (u1 + c * v1) == (a0 * u0 + u1) + c * (a0 * v0 + v1)) by (nonlinear_arith);
    }
}

/// The aggregated decomposition of the Xor table: on any prefix part `pt` (whole pairs
/// of coordinates, any values), recombining the prefixes' polynomials with the suffix
/// evaluations summed, with weights `w`, over the suffixes `bits` of several lookups gives the
/// same weighted sum of the table's MLE on those lookups' points.
pub proof fn lemma_xor_aggregated_decomposition<const XLEN: usize>(
    table: XorTable<XLEN>,
    pt: Seq<int>,
    bits: Seq<LookupBits>,
    w: Seq<int>,
)
    requires
        XLEN <= 32,
        pt.len() % 2 == 0,
        bits.len() == w.len(),
        forall|j: int|
            0 <= j < bits.len() ==> 0 <= (#[trigger] bits[j]).value() < pow2(bits[j].length()) && pt.len()
                + bits[j].length() == 2 * XLEN,
    ensures
        table.combination(
            table.prefix_list().map_values(|p: Prefixes| prefix_poly(p, XLEN as nat, pt)),
            aggregate(table.suffix_list(), XLEN as nat, bits, w, bits.len()),
        ) == weighted_mle(table, pt, bits, w, bits.len()),
{
    lemma_xor_linear(table);
    lemma_aggregated_decomposition(table, pt, bits, w, bits.len());
}

} // verus!
