//! The unsigned less-than lookup table: `LT(x, y) = 1` if `x < y` (unsigned), 0 otherwise.
use crate::field::{fmod, lemma_field_basics, lemma_plus_represents, lemma_times_represents, vals, JoltField};
use crate::hypercube::{affine, bit, bool_point, lemma_affine_const, lemma_div_pow2_twice, lemma_pow2_succ};
use crate::lookup_tables::prefixes::sparse_dense::{
    bilinear, eq_form, fold_pairs, lemma_eq_component, lemma_fold_concat, lemma_fold_one_pair, prefix_poly,
};
use crate::lookup_tables::prefixes::{PrefixEval, Prefixes};
use crate::lookup_tables::suffixes::Suffixes;
use crate::lookup_tables::{JoltLookupTable, PrefixSuffixDecompositionTrait};
use crate::utils::lookup_bits::LookupBits;
use crate::utils::{even_bits, lemma_packed_bits_range, lemma_packed_bits_high_zero, odd_bits, uninterleave_bits};
use vstd::arithmetic::div_mod::*;
use vstd::arithmetic::power2::*;
use crate::field::{lemma_congruent_plus, lemma_congruent_times};
use crate::lookup_tables::{aggregate, lemma_aggregated_decomposition, linear_in_suffixes, shift_add, weighted_mle, zeros};
use vstd::prelude::*;

verus! {

/// Lookup table for unsigned less-than comparison of the two operands interleaved in the index.
///
/// Implements LT(x, y) = 1 if x < y (unsigned), 0 otherwise.
#[derive(Copy, Clone, Default, Debug, PartialEq)]
pub struct UnsignedLessThanTable<const XLEN: usize>;

/// `1` if the first operand interleaved in `index` is less than the second, `0` otherwise.
pub open spec fn less_than_value(index: int) -> int {
    if odd_bits(index, 32) < even_bits(index, 32) {
        1
    } else {
        0
    }
}

/// After the first `i` operand bit pairs `(x_j, y_j) = (r_{2j}, r_{2j+1})`, most significant first:
/// `(∑_{j < i} (1 - x_j) · y_j · ∏_{l < j} eq_l,  ∏_{j < i} eq_j)` with
/// `eq_j = x_j · y_j + (1 - x_j) · (1 - y_j)`.
pub open spec fn less_than_state(r: Seq<int>, i: nat) -> (int, int)
    decreases i,
{
    if i == 0 {
        (0, 1)
    } else {
        let prev = less_than_state(r, (i - 1) as nat);
        let x = r[2 * (i - 1)];
        let y = r[2 * (i - 1) + 1];
        (prev.0 + (1 - x) * y * prev.1, prev.1 * (x * y + (1 - x) * (1 - y)))
    }
}

/// The less-than MLE on `2 · x_len` coordinates.
pub open spec fn less_than_mle(r: Seq<int>, x_len: nat) -> int {
    less_than_state(r, x_len).0
}

impl<const XLEN: usize> JoltLookupTable for UnsignedLessThanTable<XLEN> {
    open spec fn entries_defined(&self) -> bool {
        true
    }

    open spec fn entry(&self, index: u64) -> int {
        less_than_value(index as int)
    }

    open spec fn mle_defined(&self, len: nat) -> bool {
        len == 2 * XLEN
    }

    open spec fn mle(&self, r: Seq<int>) -> int {
        less_than_mle(r, XLEN as nat)
    }

    fn materialize_entry(&self, index: u64) -> (v: u64) {
        let (x, y) = uninterleave_bits(index);
        if x < y {
            1
        } else {
            0
        }
    }

    fn evaluate_mle<F: JoltField>(&self, r: &[F]) -> (v: F) {
        proof {
            lemma_field_basics::<F>();
        }
        let ghost rv = vals(r@);
        // \sum_i (1 - x_i) * y_i * \prod_{j < i} ((1 - x_j) * (1 - y_j) + x_j * y_j)
        let mut result = F::zero();
        let mut eq_term = F::one();
        let len = r.len();
        let mut i: usize = 0;
        while i < XLEN
            invariant
                F::modulus() > 1,
                i <= XLEN,
                len == 2 * XLEN,
                r@.len() == 2 * XLEN,
                rv == vals(r@),
                result.val() == fmod::<F>(less_than_state(rv, i as nat).0),
                eq_term.val() == fmod::<F>(less_than_state(rv, i as nat).1),
            decreases XLEN - i,
        {
            let x_i = r[2 * i];
            let y_i = r[2 * i + 1];
            let ghost x = rv[2 * i];
            let ghost y = rv[2 * i + 1];
            let ghost lt = less_than_state(rv, i as nat).0;
            let ghost eq = less_than_state(rv, i as nat).1;
            let not_x = F::one().minus(x_i);
            let not_y = F::one().minus(y_i);
            let a = not_x.times(y_i);
            let b = a.times(eq_term);
            let xy = x_i.times(y_i);
            let nxny = not_x.times(not_y);
            let e = xy.plus(nxny);
            proof {
                x_i.lemma_val_range();
                y_i.lemma_val_range();
                lemma_times_represents(not_x, y_i, 1 - x, y);
                lemma_times_represents(a, eq_term, (1 - x) * y, eq);
                lemma_plus_represents(result, b, lt, (1 - x) * y * eq);
                lemma_times_represents(x_i, y_i, x, y);
                lemma_times_represents(not_x, not_y, 1 - x, 1 - y);
                lemma_plus_represents(xy, nxny, x * y, (1 - x) * (1 - y));
                lemma_times_represents(eq_term, e, eq, x * y + (1 - x) * (1 - y));
            }
            result = result.plus(b);
            eq_term = eq_term.times(e);
            i += 1;
        }
        result
    }
}

impl<const XLEN: usize> PrefixSuffixDecompositionTrait<XLEN> for UnsignedLessThanTable<XLEN> {
    open spec fn suffix_list(&self) -> Seq<Suffixes> {
        seq![Suffixes::One, Suffixes::LessThan]
    }

    open spec fn prefix_list(&self) -> Seq<Prefixes> {
        seq![Prefixes::Eq, Prefixes::LessThan]
    }

    /// `less_than_prefix · one + eq_prefix · less_than_suffix`.
    open spec fn combination(&self, prefixes: Seq<int>, suffixes: Seq<int>) -> int {
        prefixes[1] * suffixes[0] + prefixes[0] * suffixes[1]
    }

    fn prefixes(&self) -> (p: Vec<Prefixes>) {
        vec![Prefixes::Eq, Prefixes::LessThan]
    }

    fn suffixes(&self) -> (s: Vec<Suffixes>) {
        vec![Suffixes::One, Suffixes::LessThan]
    }

    open spec fn decomposition_defined(&self) -> bool {
        XLEN <= 32
    }

    proof fn lemma_decomposition(&self, pt: Seq<int>, suffix: LookupBits) {
        lemma_less_than_decomposition(*self, pt, suffix);
    }

    proof fn lemma_combination_congruent<F: JoltField>(&self, p1: Seq<int>, p2: Seq<int>, s1: Seq<int>, s2: Seq<int>) {
        assert(fmod::<F>(p1[0]) == fmod::<F>(p2[0]) && fmod::<F>(p1[1]) == fmod::<F>(p2[1]));
        assert(fmod::<F>(s1[0]) == fmod::<F>(s2[0]) && fmod::<F>(s1[1]) == fmod::<F>(s2[1]));
        lemma_congruent_times::<F>(p1[1], p2[1], s1[0], s2[0]);
        lemma_congruent_times::<F>(p1[0], p2[0], s1[1], s2[1]);
        lemma_congruent_plus::<F>(p1[1] * s1[0], p2[1] * s2[0], p1[0] * s1[1], p2[0] * s2[1]);
    }

    fn combine<F: JoltField>(&self, prefixes: &[PrefixEval<F>], suffixes: &[F]) -> (r: F) {
        proof {
            lemma_field_basics::<F>();
        }
        let one = suffixes[0];
        let less_than_suffix = suffixes[1];
        let eq = prefixes[0].value();
        let less_than_prefix = prefixes[1].value();
        let a = less_than_prefix.times(one);
        let b = eq.times(less_than_suffix);
        proof {
            a.lemma_val_range();
            b.lemma_val_range();
            lemma_plus_represents(a, b, less_than_prefix.val() * one.val(), eq.val() * less_than_suffix.val());
        }
        a.plus(b)
    }
}

/// One step of the most-significant-first comparison: appending bit `a` to `x` and bit `b` to `y`.
proof fn lemma_less_than_step(x: int, y: int, a: int, b: int, lt: int, eq: int)
    requires
        0 <= a <= 1,
        0 <= b <= 1,
        lt == (if x < y {
            1int
        } else {
            0int
        }),
        eq == (if x == y {
            1int
        } else {
            0int
        }),
    ensures
        lt + (1 - a) * b * eq == (if a + 2 * x < b + 2 * y {
            1int
        } else {
            0int
        }),
        eq * (a * b + (1 - a) * (1 - b)) == (if a + 2 * x == b + 2 * y {
            1int
        } else {
            0int
        }),
{
    if a == 0 && b == 0 {
        assert((1 - a) * b * eq == 0 && eq * (a * b + (1 - a) * (1 - b)) == eq) by (nonlinear_arith)
            requires
                a == 0,
                b == 0,
        ;
    } else if a == 0 && b == 1 {
        assert((1 - a) * b * eq == eq && eq * (a * b + (1 - a) * (1 - b)) == 0) by (nonlinear_arith)
            requires
                a == 0,
                b == 1,
        ;
    } else if a == 1 && b == 0 {
        assert((1 - a) * b * eq == 0 && eq * (a * b + (1 - a) * (1 - b)) == 0) by (nonlinear_arith)
            requires
                a == 1,
                b == 0,
        ;
    } else {
        assert((1 - a) * b * eq == 0 && eq * (a * b + (1 - a) * (1 - b)) == eq) by (nonlinear_arith)
            requires
                a == 1,
                b == 1,
        ;
    }
}

/// On the Boolean point of `index`, the comparison state after `i` bit pairs compares the
/// top `i` bits of the two operands.
proof fn lemma_less_than_state_bits(index: int, x_len: nat, i: nat)
    requires
        0 <= index,
        i <= x_len,
    ensures
        ({
            let z = index / (pow2((2 * (x_len - i)) as nat) as int);
            less_than_state(bool_point(index, 2 * x_len), i) == (
                if odd_bits(z, i) < even_bits(z, i) {
                    1int
                } else {
                    0int
                },
                if odd_bits(z, i) == even_bits(z, i) {
                    1int
                } else {
                    0int
                },
            )
        }),
    decreases i,
{
    let r = bool_point(index, 2 * x_len);
    let e = (2 * (x_len - i)) as nat;
    let z = index / (pow2(e) as int);
    lemma_pow2_pos(e);
    if i > 0 {
        let i1 = (i - 1) as nat;
        lemma_less_than_state_bits(index, x_len, i1);
        lemma_div_pow2_twice(index, e, 2);
        lemma_div_pow2_twice(index, e, 1);
        lemma_pow2_succ(0);
        lemma_pow2_succ(1);
        assert((2 * (x_len - i1)) as nat == e + 2);
        assert(r[2 * i1 as int] == bit(index, e + 1));
        assert(r[2 * i1 as int + 1] == bit(index, e));
        lemma_less_than_step(
            odd_bits(z / 4, i1),
            even_bits(z / 4, i1),
            (z / 2) % 2,
            z % 2,
            less_than_state(r, i1).0,
            less_than_state(r, i1).1,
        );
    }
}

/// On every point of the Boolean hypercube, the less-than MLE equals the table's entry.
pub proof fn lemma_less_than_mle_extends_table<const XLEN: usize>(
    table: UnsignedLessThanTable<XLEN>,
    index: u64,
)
    requires
        XLEN <= 32,
        index < pow2(2 * XLEN as nat),
    ensures
        table.mle_defined(2 * XLEN as nat),
        table.mle(bool_point(index as int, 2 * XLEN as nat)) == table.entry(index),
{
    let x = index as int;
    lemma_less_than_state_bits(x, XLEN as nat, XLEN as nat);
    lemma2_to64();
    assert((2 * (XLEN - XLEN)) as nat == 0);
    lemma_packed_bits_high_zero(x, XLEN as nat, (32 - XLEN) as nat);
    assert(XLEN as nat + (32 - XLEN) as nat == 32);
}

/// Changing a coordinate at or beyond `2i` leaves the first `i` steps unchanged.
proof fn lemma_less_than_state_frame(r: Seq<int>, i: nat, k: int, t: int)
    requires
        0 <= k < r.len(),
        2 * i <= k,
    ensures
        less_than_state(r.update(k, t), i) == less_than_state(r, i),
    decreases i,
{
    if i > 0 {
        lemma_less_than_state_frame(r, (i - 1) as nat, k, t);
    }
}

/// Both components of the comparison state are affine in each coordinate.
proof fn lemma_less_than_state_affine(r: Seq<int>, i: nat, k: int, t: int)
    requires
        0 <= k < r.len(),
        2 * i <= r.len(),
    ensures
        affine(
            less_than_state(r.update(k, 0), i).0,
            less_than_state(r.update(k, 1), i).0,
            less_than_state(r.update(k, t), i).0,
            t,
        ),
        affine(
            less_than_state(r.update(k, 0), i).1,
            less_than_state(r.update(k, 1), i).1,
            less_than_state(r.update(k, t), i).1,
            t,
        ),
    decreases i,
{
    let r0 = r.update(k, 0);
    let r1 = r.update(k, 1);
    let rt = r.update(k, t);
    if i == 0 {
        lemma_affine_const(0, t);
        lemma_affine_const(1, t);
    } else {
        let i1 = (i - 1) as nat;
        lemma_less_than_state_affine(r, i1, k, t);
        let (l0, e0) = less_than_state(r0, i1);
        let (l1, e1) = less_than_state(r1, i1);
        let (lt, et) = less_than_state(rt, i1);
        let xi = 2 * i1 as int;
        let yi = 2 * i1 as int + 1;
        if k < xi {
            // The new bit pair does not depend on coordinate k.
            let x = r[xi];
            let y = r[yi];
            assert(r0[xi] == x && r1[xi] == x && rt[xi] == x);
            assert(r0[yi] == y && r1[yi] == y && rt[yi] == y);
            let c = (1 - x) * y;
            let d = x * y + (1 - x) * (1 - y);
            assert(lt + c * et == (l0 + c * e0) + t * ((l1 + c * e1) - (l0 + c * e0))) by (nonlinear_arith)
                requires
                    lt == l0 + t * (l1 - l0),
                    et == e0 + t * (e1 - e0),
            ;
            assert(et * d == e0 * d + t * (e1 * d - e0 * d)) by (nonlinear_arith)
                requires
                    et == e0 + t * (e1 - e0),
            ;
        } else {
            // The state so far does not depend on coordinate k.
            lemma_less_than_state_frame(r, i1, k, 0);
            lemma_less_than_state_frame(r, i1, k, 1);
            lemma_less_than_state_frame(r, i1, k, t);
            let l = less_than_state(r, i1).0;
            let e = less_than_state(r, i1).1;
            if k == xi {
                let y = r[yi];
                assert(r0[yi] == y && r1[yi] == y && rt[yi] == y);
                assert(l + (1 - t) * y * e == (l + (1 - 0) * y * e) + t * ((l + (1 - 1) * y * e) - (l
                    + (1 - 0) * y * e))) by (nonlinear_arith);
                assert(e * (t * y + (1 - t) * (1 - y)) == e * (0 * y + (1 - 0) * (1 - y)) + t * (e * (1
                    * y + (1 - 1) * (1 - y)) - e * (0 * y + (1 - 0) * (1 - y)))) by (nonlinear_arith);
            } else if k == yi {
                let x = r[xi];
                assert(r0[xi] == x && r1[xi] == x && rt[xi] == x);
                assert(l + (1 - x) * t * e == (l + (1 - x) * 0 * e) + t * ((l + (1 - x) * 1 * e) - (l
                    + (1 - x) * 0 * e))) by (nonlinear_arith);
                assert(e * (x * t + (1 - x) * (1 - t)) == e * (x * 0 + (1 - x) * (1 - 0)) + t * (e * (x
                    * 1 + (1 - x) * (1 - 1)) - e * (x * 0 + (1 - x) * (1 - 0)))) by (nonlinear_arith);
            } else {
                lemma_less_than_state_frame(r, i, k, 0);
                lemma_less_than_state_frame(r, i, k, 1);
                lemma_less_than_state_frame(r, i, k, t);
                lemma_affine_const(less_than_state(r, i).0, t);
                lemma_affine_const(less_than_state(r, i).1, t);
            }
        }
    }
}

/// The less-than MLE is affine in each of its coordinates.
pub proof fn lemma_less_than_mle_affine<const XLEN: usize>(
    table: UnsignedLessThanTable<XLEN>,
    r: Seq<int>,
    k: int,
    t: int,
)
    requires
        table.mle_defined(r.len()),
        0 <= k < r.len(),
    ensures
        affine(table.mle(r.update(k, 0)), table.mle(r.update(k, 1)), table.mle(r.update(k, t)), t),
{
    lemma_less_than_state_affine(r, XLEN as nat, k, t);
}

/// The comparison prefixes on the first `2i` coordinates of `r` are the less-than state after
/// `i` bit pairs: LessThan its first component, Eq its second.
pub proof fn lemma_comparison_prefixes(xlen: nat, r: Seq<int>, i: nat)
    requires
        2 * i <= r.len(),
    ensures
        prefix_poly(Prefixes::LessThan, xlen, r.subrange(0, (2 * i) as int)) == less_than_state(r, i).0,
        prefix_poly(Prefixes::Eq, xlen, r.subrange(0, (2 * i) as int)) == less_than_state(r, i).1,
    decreases i,
{
    if i > 0 {
        lemma_comparison_prefixes(xlen, r, (i - 1) as nat);
        let h = (2 * i) as int;
        let u = r.subrange(0, h - 2);
        let x = r[h - 2];
        let y = r[h - 1];
        assert(u + seq![x, y] =~= r.subrange(0, h));
        assert(r.subrange(0, 2 * (i - 1)) == u);
        let lt0 = (0int, 1int);
        let eq0 = (1int, 1int);
        lemma_fold_concat(Prefixes::LessThan, xlen, lt0, 0, u, seq![x, y]);
        lemma_fold_concat(Prefixes::Eq, xlen, eq0, 0, u, seq![x, y]);
        let fl = fold_pairs(Prefixes::LessThan, xlen, lt0, 0, u);
        let fe = fold_pairs(Prefixes::Eq, xlen, eq0, 0, u);
        lemma_fold_one_pair(Prefixes::LessThan, xlen, fl, h - 2, x, y);
        lemma_fold_one_pair(Prefixes::Eq, xlen, fe, h - 2, x, y);
        lemma_eq_component(Prefixes::LessThan, xlen, 0, 1, 0, u);
        lemma_eq_component(Prefixes::Eq, xlen, 1, 1, 0, u);
        let prev = less_than_state(r, (i - 1) as nat);
        assert(fl.0 == prev.0 && fl.1 == prev.1 && fe.0 == prev.1 && fe.1 == prev.1);
        assert(2 * (i - 1) == h - 2);
        let a = fl.0;
        let e = fl.1;
        assert(a * bilinear((1, 0, 0, 0), x, y) + bilinear((0, 0, 0, 0), x, y) + e * bilinear((0, 0, 1, -1), x, y)
            == a + (1 - x) * y * e) by (nonlinear_arith);
        assert(e * bilinear(eq_form(), x, y) + bilinear((0, 0, 0, 0), x, y) + e * bilinear((0, 0, 0, 0), x, y)
            == e * (x * y + (1 - x) * (1 - y))) by (nonlinear_arith);
    }
}

/// The less-than state splits at a whole number of pairs: after the first `i` pairs (state
/// `a`) and `j` more (whose own state is `b`), it is `(a.0 + a.1 · b.0, a.1 · b.1)`.
pub proof fn lemma_less_than_state_split(u: Seq<int>, w: Seq<int>, i: nat, j: nat)
    requires
        u.len() == 2 * i,
        2 * j <= w.len(),
    ensures
        ({
            let a = less_than_state(u + w, i);
            let b = less_than_state(w, j);
            less_than_state(u + w, i + j) == (a.0 + a.1 * b.0, a.1 * b.1)
        }),
    decreases j,
{
    let a = less_than_state(u + w, i);
    if j == 0 {
        assert(a.1 * 0 == 0 && a.1 * 1 == a.1) by (nonlinear_arith);
    } else {
        lemma_less_than_state_split(u, w, i, (j - 1) as nat);
        let b1 = less_than_state(w, (j - 1) as nat);
        let x = w[2 * (j - 1)];
        let y = w[2 * (j - 1) + 1];
        assert((u + w)[2 * (i + j - 1)] == x);
        assert((u + w)[2 * (i + j - 1) + 1] == y);
        assert((i + j - 1) as nat == i + (j - 1) as nat);
        let a0 = a.0;
        let a1 = a.1;
        let c0 = b1.0;
        let c1 = b1.1;
        assert(a0 + a1 * c0 + (1 - x) * y * (a1 * c1) == a0 + a1 * (c0 + (1 - x) * y * c1)) by (nonlinear_arith);
        assert(a1 * c1 * (x * y + (1 - x) * (1 - y)) == a1 * (c1 * (x * y + (1 - x) * (1 - y)))) by (nonlinear_arith);
    }
}

/// The sum-check decomposition of the less-than table: on any point made of a prefix part `pt`
/// (whole pairs of coordinates, any values) and the Boolean point of a suffix, the table's MLE
/// is the recombination of its prefixes' polynomials on `pt` with its suffixes' values.
#[verifier::spinoff_prover]
pub proof fn lemma_less_than_decomposition<const XLEN: usize>(
    table: UnsignedLessThanTable<XLEN>,
    pt: Seq<int>,
    suffix: LookupBits,
)
    requires
        0 <= suffix.value() < pow2(suffix.length()),
        pt.len() % 2 == 0,
        pt.len() + suffix.length() == 2 * XLEN,
        XLEN <= 32,
    ensures
        table.mle(pt + bool_point(suffix.value(), suffix.length())) == table.combination(
            table.prefix_list().map_values(|p: Prefixes| prefix_poly(p, XLEN as nat, pt)),
            table.suffix_list().map_values(|x: Suffixes| x.value(XLEN as nat, suffix)),
        ),
{
    let s = suffix.value();
    let k = suffix.length();
    let i = pt.len() / 2;
    let j = (k / 2) as nat;
    assert(2 * j == k);
    let w = bool_point(s, k);
    let r = pt + w;
    assert(r.subrange(0, (2 * i) as int) =~= pt);
    lemma_comparison_prefixes(XLEN as nat, r, i as nat);
    lemma_less_than_state_split(pt, w, i as nat, j);
    assert(i + j == XLEN);
    lemma_less_than_state_bits(s, j, j);
    assert((2 * (j - j)) as nat == 0);
    lemma2_to64();
    lemma_packed_bits_high_zero(s, j, (32 - j) as nat);
    assert(j + (32 - j) as nat == 32);
    let a = less_than_state(r, i as nat);
    let b = less_than_state(w, j);
    assert(pow2(0) == 1);
    assert(s / 1 == s);
    assert(odd_bits(s, 32) == odd_bits(s, j) && even_bits(s, 32) == even_bits(s, j));
    assert(b.0 == (if odd_bits(s, 32) < even_bits(s, 32) { 1int } else { 0int }));
    assert(Suffixes::LessThan.value(XLEN as nat, suffix) == b.0);
    assert(table.prefix_list().map_values(|p: Prefixes| prefix_poly(p, XLEN as nat, pt)) =~= seq![a.1, a.0]);
    assert(table.suffix_list().map_values(|x: Suffixes| x.value(XLEN as nat, suffix)) =~= seq![1int, b.0]);
    assert(a.0 * 1 == a.0) by (nonlinear_arith);
}

/// The UnsignedLessThan recombination is linear in the suffix evaluations (see
/// `linear_in_suffixes`): the One-suffix slot, like every other, is scaled and summed with the
/// suffix evaluations, as when they are aggregated over many lookups.
pub proof fn lemma_less_than_linear<const XLEN: usize>(table: UnsignedLessThanTable<XLEN>)
    ensures
        linear_in_suffixes::<XLEN, UnsignedLessThanTable<XLEN>>(table),
{
    assert forall|p: Seq<int>| p.len() == 2 implies #[trigger] table.combination(p, zeros(2)) == 0 by {
        let z = zeros(2);
        assert(z[0] == 0 && z[1] == 0);
        let a0 = p[0];
        let a1 = p[1];
        assert(a1 * 0 + a0 * 0 == 0) by (nonlinear_arith);
    }
    assert forall|p: Seq<int>, u: Seq<int>, c: int, v: Seq<int>|
        p.len() == 2 && u.len() == 2 && v.len() == 2 implies #[trigger] table.combination(p, shift_add(u, c, v))
            == table.combination(p, u) + c * table.combination(p, v) by {
        let s = shift_add(u, c, v);
        assert(s[0] == u[0] + c * v[0] && s[1] == u[1] + c * v[1]);
        let a0 = p[0];
        let a1 = p[1];
        let u0 = u[0];
        let u1 = u[1];
        let v0 = v[0];
        let v1 = v[1];
        assert(a1 * (u0 + c * v0) + a0 * (u1 + c * v1) == (a1 * u0 + a0 * u1) + c * (a1 * v0 + a0 * v1)) by (nonlinear_arith);
    }
}

/// The aggregated decomposition of the UnsignedLessThan table: on any prefix part `pt` (whole pairs
/// of coordinates, any values), recombining the prefixes' polynomials with the suffix
/// evaluations summed, with weights `w`, over the suffixes `bits` of several lookups gives the
/// same weighted sum of the table's MLE on those lookups' points.
pub proof fn lemma_less_than_aggregated_decomposition<const XLEN: usize>(
    table: UnsignedLessThanTable<XLEN>,
    pt: Seq<int>,
    bits: Seq<LookupBits>,
    w: Seq<int>,
)
    requires
        XLEN <= 32,
        pt.len() % 2 == 0,
        bits.len() == w.len(),
        forall|j: int|
            0 <= j < bits.len() ==> 0 <= (#[trigger] bits[j]).value() < pow2(bits[j].length()) && pt.len()
                + bits[j].length() == 2 * XLEN,
    ensures
        table.combination(
            table.prefix_list().map_values(|p: Prefixes| prefix_poly(p, XLEN as nat, pt)),
            aggregate(table.suffix_list(), XLEN as nat, bits, w, bits.len()),
        ) == weighted_mle(table, pt, bits, w, bits.len()),
{
    lemma_less_than_linear(table);
    lemma_aggregated_decomposition(table, pt, bits, w, bits.len());
}

} // verus!
