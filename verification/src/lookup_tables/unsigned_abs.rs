//! The unsigned absolute value lookup table: `f(x) = |x| = relu(x) + relu(-x)`.
use crate::field::{fmod, lemma_field_basics, lemma_plus_represents, lemma_times_represents, vals, JoltField};
use crate::hypercube::{
    affine, bit, bool_point, lemma_affine_add, lemma_affine_const, lemma_affine_mul, lemma_frame,
    lemma_not_wsum_complement, lemma_wsum_affine, lemma_wsum_bits, not_wsum, place, wsum,
};
use crate::hypercube::{lemma_boolean_tail, lemma_wsum_split};
use crate::lookup_tables::neg_relu::lemma_neg_relu_split;
use crate::lookup_tables::prefixes::sparse_dense::{
    lemma_lower_word_closed, lemma_msb_closed, lemma_single_fold, prefix_poly,
};
use crate::lookup_tables::prefixes::{PrefixEval, Prefixes};
use crate::lookup_tables::suffixes::lower_word_no_msb::sign_of;
use crate::lookup_tables::suffixes::neg_relu::neg_relu_suffix_value;
use crate::lookup_tables::suffixes::relu::relu_suffix_value;
use crate::utils::lookup_bits::LookupBits;
use vstd::arithmetic::div_mod::*;
use crate::lookup_tables::suffixes::Suffixes;
use crate::lookup_tables::neg_relu::NegReluTable;
use crate::lookup_tables::{JoltLookupTable, PrefixSuffixDecompositionTrait};
use crate::utils::{lemma_not_mod_pow2, lemma_sign_bit, pow2_word, signed_word, word_bit};
use vstd::arithmetic::power2::*;
use crate::field::{lemma_congruent_plus, lemma_congruent_times};
use crate::lookup_tables::{aggregate, lemma_scale_sum, lemma_aggregated_decomposition, linear_in_suffixes, shift_add, weighted_mle, zeros};
use vstd::prelude::*;

verus! {

/// Unsigned absolute value lookup table: `f(x) = |x| = relu(x) + relu(-x)`, where `x` is the
/// two's-complement value of the low `X_LEN` bits of the index.
///
/// For `x = -2^(X_LEN - 1)` (for example `i8::MIN`) the magnitude `2^(X_LEN - 1)` is returned,
/// not a wrapped value: the table's outputs are field elements, where no overflow occurs.
#[derive(Debug, Default, Clone, Copy)]
pub struct UnsignedAbsTable<const X_LEN: usize>;

/// `|x|` for the two's-complement value `x` of the low `x_len` bits of `index`.
pub open spec fn unsigned_abs_value(index: int, x_len: nat) -> int {
    let x = signed_word(index, x_len);
    if x < 0 {
        -x
    } else {
        x
    }
}

/// The absolute-value MLE on `2 · x_len` coordinates: with `s = r_X` the sign bit and the bits
/// below it read as `x` (positive case) or `(!x) + 1` (negative case),
/// `(1 - s) · ∑_{i > X} r_i · 2^(n-1-i) + s · (1 + ∑_{i > X} (1 - r_i) · 2^(n-1-i))`.
pub open spec fn unsigned_abs_mle(r: Seq<int>, x_len: int) -> int {
    let n = 2 * x_len;
    let s = r[x_len];
    wsum(r, x_len + 1, n, n) * (1 - s) + (1 + not_wsum(r, x_len + 1, n, n)) * s
}

impl<const X_LEN: usize> JoltLookupTable for UnsignedAbsTable<X_LEN> {
    open spec fn entries_defined(&self) -> bool {
        1 <= X_LEN <= 64
    }

    open spec fn entry(&self, index: u64) -> int {
        unsigned_abs_value(index as int, X_LEN as nat)
    }

    open spec fn mle_defined(&self, len: nat) -> bool {
        1 <= X_LEN <= 65 && len == 2 * X_LEN
    }

    open spec fn mle(&self, r: Seq<int>) -> int {
        unsigned_abs_mle(r, X_LEN as int)
    }

    fn materialize_entry(&self, index: u64) -> (v: u64) {
        proof {
            lemma_sign_bit(index as int, X_LEN as nat);
            lemma_not_mod_pow2(index, (X_LEN - 1) as nat);
            lemma_pow2_pos((X_LEN - 1) as nat);
        }
        let sign_bit: bool = word_bit(index, X_LEN - 1) == 1;
        if sign_bit {
            // Two's complement negation: -x = (!x) + 1, taken over the magnitude bits (below
            // the sign bit). For the most negative value the magnitude bits are all zero, so this
            // yields 2^(X_LEN - 1).
            (!index) % pow2_word(X_LEN - 1) + 1
        } else {
            index % pow2_word(X_LEN - 1)
        }
    }

    fn evaluate_mle<F: JoltField>(&self, r: &[F]) -> (v: F) {
        proof {
            lemma_field_basics::<F>();
        }
        let ghost rv = vals(r@);
        let ghost n = 2 * X_LEN as int;
        let len = r.len();
        let mut positive_case = F::zero();
        // if x < 0, abs(x) = -x = (!x) + 1
        let mut negative_case = F::one();
        let mut p: usize = len;
        while p > X_LEN + 1
            invariant
                F::modulus() > 1,
                X_LEN + 1 <= p <= len,
                len == 2 * X_LEN,
                1 <= X_LEN <= 65,
                n == len,
                len == r@.len(),
                rv == vals(r@),
                positive_case.val() == fmod::<F>(wsum(rv, p as int, n, n)),
                negative_case.val() == fmod::<F>(1 + not_wsum(rv, p as int, n, n)),
            decreases p,
        {
            p = p - 1;
            let w = F::from_u64(pow2_word(len - 1 - p));
            let pos_term = r[p].times(w);
            let d = F::one().minus(r[p]);
            let neg_term = d.times(w);
            proof {
                r@[p as int].lemma_val_range();
                lemma_times_represents(r@[p as int], w, rv[p as int], place(n, p as int));
                lemma_times_represents(d, w, 1 - rv[p as int], place(n, p as int));
                lemma_plus_represents(positive_case, pos_term, wsum(rv, p + 1, n, n), rv[p as int] * place(n, p as int));
                lemma_plus_represents(
                    negative_case,
                    neg_term,
                    1 + not_wsum(rv, p + 1, n, n),
                    (1 - rv[p as int]) * place(n, p as int),
                );
            }
            positive_case = positive_case.plus(pos_term);
            negative_case = negative_case.plus(neg_term);
        }
        let sign_bit = r[X_LEN];
        let ghost s = rv[X_LEN as int];
        let ghost w = wsum(rv, X_LEN + 1, n, n);
        let ghost nw = 1 + not_wsum(rv, X_LEN + 1, n, n);
        let not_sign = F::one().minus(sign_bit);
        let a = positive_case.times(not_sign);
        let b = negative_case.times(sign_bit);
        proof {
            sign_bit.lemma_val_range();
            lemma_times_represents(positive_case, not_sign, w, 1 - s);
            lemma_times_represents(negative_case, sign_bit, nw, s);
            lemma_plus_represents(a, b, w * (1 - s), nw * s);
        }
        a.plus(b)
    }
}

/// The ReLU part `not_msb · lower_word_no_msb · one + not_msb · relu` plus the negated ReLU
/// part `msb · not_lower_word · one + msb · neg_relu`, each a decomposition of the same shape.
pub open spec fn unsigned_abs_combination(prefixes: Seq<int>, suffixes: Seq<int>) -> int {
    let relu = prefixes[0] * prefixes[1] * suffixes[0] + prefixes[0] * suffixes[1];
    let neg_relu = prefixes[2] * prefixes[3] * suffixes[0] + prefixes[2] * suffixes[2];
    relu + neg_relu
}

/// `p · q · one + p · s`, the shape of both halves of the absolute-value decomposition.
fn half_combine<F: JoltField>(p: F, q: F, one: F, s: F) -> (r: F)
    ensures
        r.val() == fmod::<F>(p.val() * q.val() * one.val() + p.val() * s.val()),
{
    proof {
        lemma_field_basics::<F>();
    }
    let a = p.times(q);
    let b = a.times(one);
    let c = p.times(s);
    proof {
        p.lemma_val_range();
        q.lemma_val_range();
        one.lemma_val_range();
        s.lemma_val_range();
        lemma_times_represents(a, one, p.val() * q.val(), one.val());
        lemma_plus_represents(b, c, p.val() * q.val() * one.val(), p.val() * s.val());
    }
    b.plus(c)
}

impl<const X_LEN: usize> PrefixSuffixDecompositionTrait<X_LEN> for UnsignedAbsTable<X_LEN> {
    open spec fn suffix_list(&self) -> Seq<Suffixes> {
        seq![Suffixes::One, Suffixes::Relu, Suffixes::NegRelu]
    }

    open spec fn prefix_list(&self) -> Seq<Prefixes> {
        seq![Prefixes::NotMsb, Prefixes::LowerWordNoMsb, Prefixes::Msb, Prefixes::NotLowerWord]
    }

    open spec fn combination(&self, prefixes: Seq<int>, suffixes: Seq<int>) -> int {
        unsigned_abs_combination(prefixes, suffixes)
    }

    fn suffixes(&self) -> (s: Vec<Suffixes>) {
        vec![Suffixes::One, Suffixes::Relu, Suffixes::NegRelu]
    }

    fn prefixes(&self) -> (p: Vec<Prefixes>) {
        vec![Prefixes::NotMsb, Prefixes::LowerWordNoMsb, Prefixes::Msb, Prefixes::NotLowerWord]
    }

    open spec fn decomposition_defined(&self) -> bool {
        X_LEN >= 1
    }

    proof fn lemma_decomposition(&self, pt: Seq<int>, suffix: LookupBits) {
        lemma_unsigned_abs_decomposition(*self, pt, suffix);
    }

    proof fn lemma_combination_congruent<F: JoltField>(&self, p1: Seq<int>, p2: Seq<int>, s1: Seq<int>, s2: Seq<int>) {
        assert(fmod::<F>(p1[0]) == fmod::<F>(p2[0]) && fmod::<F>(p1[1]) == fmod::<F>(p2[1]));
        assert(fmod::<F>(p1[2]) == fmod::<F>(p2[2]) && fmod::<F>(p1[3]) == fmod::<F>(p2[3]));
        assert(fmod::<F>(s1[0]) == fmod::<F>(s2[0]) && fmod::<F>(s1[1]) == fmod::<F>(s2[1]));
        assert(fmod::<F>(s1[2]) == fmod::<F>(s2[2]));
        lemma_congruent_times::<F>(p1[0], p2[0], p1[1], p2[1]);
        lemma_congruent_times::<F>(p1[0] * p1[1], p2[0] * p2[1], s1[0], s2[0]);
        lemma_congruent_times::<F>(p1[0], p2[0], s1[1], s2[1]);
        lemma_congruent_plus::<F>(p1[0] * p1[1] * s1[0], p2[0] * p2[1] * s2[0], p1[0] * s1[1], p2[0] * s2[1]);
        lemma_congruent_times::<F>(p1[2], p2[2], p1[3], p2[3]);
        lemma_congruent_times::<F>(p1[2] * p1[3], p2[2] * p2[3], s1[0], s2[0]);
        lemma_congruent_times::<F>(p1[2], p2[2], s1[2], s2[2]);
        lemma_congruent_plus::<F>(p1[2] * p1[3] * s1[0], p2[2] * p2[3] * s2[0], p1[2] * s1[2], p2[2] * s2[2]);
        lemma_congruent_plus::<F>(
            p1[0] * p1[1] * s1[0] + p1[0] * s1[1],
            p2[0] * p2[1] * s2[0] + p2[0] * s2[1],
            p1[2] * p1[3] * s1[0] + p1[2] * s1[2],
            p2[2] * p2[3] * s2[0] + p2[2] * s2[2],
        );
    }

    fn combine<F: JoltField>(&self, prefixes: &[PrefixEval<F>], suffixes: &[F]) -> (r: F) {
        proof {
            lemma_field_basics::<F>();
        }
        let suffix_one = suffixes[0];
        let suffix_relu = suffixes[1];
        let suffix_neg_relu = suffixes[2];
        let prefix_not_msb = prefixes[0].value();
        let prefix_lower_word_no_msb = prefixes[1].value();
        let prefix_msb = prefixes[2].value();
        let prefix_nlw = prefixes[3].value();
        let relu = half_combine(prefix_not_msb, prefix_lower_word_no_msb, suffix_one, suffix_relu);
        let neg_relu = half_combine(prefix_msb, prefix_nlw, suffix_one, suffix_neg_relu);
        proof {
            lemma_plus_represents(
                relu,
                neg_relu,
                prefix_not_msb.val() * prefix_lower_word_no_msb.val() * suffix_one.val()
                    + prefix_not_msb.val() * suffix_relu.val(),
                prefix_msb.val() * prefix_nlw.val() * suffix_one.val() + prefix_msb.val()
                    * suffix_neg_relu.val(),
            );
        }
        relu.plus(neg_relu)
    }
}

/// On every point of the Boolean hypercube, the absolute-value MLE equals the table's entry.
pub proof fn lemma_unsigned_abs_mle_extends_table<const X_LEN: usize>(
    table: UnsignedAbsTable<X_LEN>,
    index: u64,
)
    requires
        table.entries_defined(),
    ensures
        table.mle_defined(2 * X_LEN as nat),
        table.mle(bool_point(index as int, 2 * X_LEN as nat)) == table.entry(index),
{
    let x = index as int;
    let n = 2 * X_LEN as nat;
    let r = bool_point(x, n);
    let h = (X_LEN - 1) as nat;
    lemma_sign_bit(x, X_LEN as nat);
    lemma_wsum_bits(x, n, X_LEN + 1);
    lemma_not_wsum_complement(r, X_LEN + 1, n as int, n as int);
    assert((n - (X_LEN + 1)) as nat == h);
    lemma2_to64();
    assert(r[X_LEN as int] == bit(x, h));
    let s = bit(x, h);
    let low = x % (pow2(h) as int);
    let w = wsum(r, X_LEN + 1, n as int, n as int);
    let nw = not_wsum(r, X_LEN + 1, n as int, n as int);
    assert(w == low);
    assert(nw == pow2(h) - 1 - low);
    if s == 1 {
        assert(w * (1 - s) + (1 + nw) * s == 1 + nw) by (nonlinear_arith)
            requires
                s == 1,
        ;
    } else {
        assert(w * (1 - s) + (1 + nw) * s == w) by (nonlinear_arith)
            requires
                s == 0,
        ;
    }
}

/// The absolute-value MLE is affine in each of its coordinates.
pub proof fn lemma_unsigned_abs_mle_affine<const X_LEN: usize>(
    table: UnsignedAbsTable<X_LEN>,
    r: Seq<int>,
    k: int,
    t: int,
)
    requires
        table.mle_defined(r.len()),
        0 <= k < r.len(),
    ensures
        affine(table.mle(r.update(k, 0)), table.mle(r.update(k, 1)), table.mle(r.update(k, t)), t),
{
    let n = r.len() as int;
    let x = X_LEN as int;
    let r0 = r.update(k, 0);
    let r1 = r.update(k, 1);
    let rt = r.update(k, t);
    lemma_wsum_affine(r, x + 1, n, n, k, t);
    let w0 = wsum(r0, x + 1, n, n);
    let w1 = wsum(r1, x + 1, n, n);
    let wt = wsum(rt, x + 1, n, n);
    let n0 = 1 + not_wsum(r0, x + 1, n, n);
    let n1 = 1 + not_wsum(r1, x + 1, n, n);
    let nt = 1 + not_wsum(rt, x + 1, n, n);
    lemma_affine_const(1, t);
    lemma_affine_add(
        1,
        1,
        1,
        not_wsum(r0, x + 1, n, n),
        not_wsum(r1, x + 1, n, n),
        not_wsum(rt, x + 1, n, n),
        t,
    );
    if k == x {
        lemma_frame(r, x + 1, n, n, k, 0);
        lemma_frame(r, x + 1, n, n, k, 1);
        lemma_frame(r, x + 1, n, n, k, t);
        assert(t == 0 + t * (1 - 0)) by (nonlinear_arith);
    } else {
        lemma_affine_const(r[x], t);
    }
    lemma_affine_add(1, 1, 1, r0[x], r1[x], rt[x], t);
    lemma_affine_mul(w0, w1, wt, 1 - r0[x], 1 - r1[x], 1 - rt[x], t);
    lemma_affine_mul(n0, n1, nt, r0[x], r1[x], rt[x], t);
    lemma_affine_add(
        w0 * (1 - r0[x]),
        w1 * (1 - r1[x]),
        wt * (1 - rt[x]),
        n0 * r0[x],
        n1 * r1[x],
        nt * rt[x],
        t,
    );
}

/// `|x| = relu(x) + neg_relu(x)`: the absolute-value table is the ReLU of the signed word plus the
/// negated ReLU table, entry by entry, and so is its MLE, whose ReLU part is
/// `(1 - s) · ∑_{i > X} r_i · 2^(n-1-i)`.
pub proof fn lemma_abs_is_relu_plus_neg_relu<const X_LEN: usize>(
    table: UnsignedAbsTable<X_LEN>,
    neg_relu: NegReluTable<X_LEN>,
    index: u64,
    r: Seq<int>,
)
    requires
        r.len() == 2 * X_LEN,
        X_LEN >= 1,
    ensures
        table.entry(index) == (if signed_word(index as int, X_LEN as nat) > 0 {
            signed_word(index as int, X_LEN as nat)
        } else {
            0
        }) + neg_relu.entry(index),
        table.mle(r) == wsum(r, X_LEN + 1, 2 * X_LEN, 2 * X_LEN) * (1 - r[X_LEN as int]) + neg_relu.mle(r),
{
}

/// The ReLU half of the absolute-value MLE on a point made of any prefix part `u` and the
/// Boolean point of a suffix `b` splits into the not-MSB and lower-word prefixes of `u` and the
/// suffix's ReLU value: `not_msb · lower_word · 1 + not_msb · relu_suffix`.
pub proof fn lemma_relu_split(u: Seq<int>, b: LookupBits, xlen: nat)
    requires
        0 <= b.value() < pow2(b.length()),
        u.len() + b.length() == 2 * xlen,
        xlen >= 1,
    ensures
        ({
            let r = u + bool_point(b.value(), b.length());
            let n = (2 * xlen) as int;
            let m = u.len() as int;
            let not_msb = if m > xlen { 1 - r[xlen as int] } else { 1 };
            let lw = wsum(r, (xlen + 1) as int, m, n);
            not_msb * lw * 1 + not_msb * relu_suffix_value(b, xlen) == wsum(r, (xlen + 1) as int, n, n) * (1
                - r[xlen as int])
        }),
{
    let s = b.value();
    let k = b.length();
    let r = u + bool_point(s, k);
    let n = (2 * xlen) as int;
    let m = u.len() as int;
    let x = xlen as int;
    if m > x {
        lemma_boolean_tail(u, s, k, m);
        assert((n - m) as nat == k);
        lemma_wsum_split(r, x + 1, m, n, n);
        let wp = wsum(r, x + 1, m, n);
        let ws = wsum(r, m, n, n);
        lemma_small_mod(s as nat, pow2(k));
        if k < (xlen - 1) as nat {
            lemma_pow2_strictly_increases(k, (xlen - 1) as nat);
        }
        lemma_small_mod(s as nat, pow2((xlen - 1) as nat));
        assert(relu_suffix_value(b, xlen) == ws);
        let sx = r[x];
        assert((1 - sx) * wp * 1 + (1 - sx) * ws == (wp + ws) * (1 - sx)) by (nonlinear_arith);
    } else {
        lemma_boolean_tail(u, s, k, x + 1);
        assert((n - (x + 1)) as nat == (xlen - 1) as nat);
        assert(r[x] == bool_point(s, k)[x - m]);
        assert((k - 1 - (x - m)) as nat == (xlen - 1) as nat);
        assert(r[x] == sign_of(b, xlen));
        let w = wsum(r, x + 1, n, n);
        assert(relu_suffix_value(b, xlen) == (1 - r[x]) * w);
        assert(wsum(r, x + 1, m, n) == 0);
        assert(1 * 0 * 1 + 1 * ((1 - r[x]) * w) == w * (1 - r[x])) by (nonlinear_arith);
    }
}

/// The sum-check decomposition of the absolute-value table: on any point made of a prefix part
/// `pt` (whole pairs of coordinates, any values) and the Boolean point of a suffix, the table's
/// MLE is the recombination of its prefixes' polynomials on `pt` with its suffixes' values.
pub proof fn lemma_unsigned_abs_decomposition<const X_LEN: usize>(
    table: UnsignedAbsTable<X_LEN>,
    pt: Seq<int>,
    suffix: LookupBits,
)
    requires
        0 <= suffix.value() < pow2(suffix.length()),
        pt.len() % 2 == 0,
        pt.len() + suffix.length() == 2 * X_LEN,
        X_LEN >= 1,
    ensures
        table.mle(pt + bool_point(suffix.value(), suffix.length())) == table.combination(
            table.prefix_list().map_values(|p: Prefixes| prefix_poly(p, X_LEN as nat, pt)),
            table.suffix_list().map_values(|x: Suffixes| x.value(X_LEN as nat, suffix)),
        ),
{
    let xlen = X_LEN as nat;
    let r = pt + bool_point(suffix.value(), suffix.length());
    let m = pt.len() as int;
    assert(r.subrange(0, m) =~= pt);
    lemma_single_fold(Prefixes::Msb, xlen, r, m);
    lemma_single_fold(Prefixes::NotMsb, xlen, r, m);
    lemma_single_fold(Prefixes::NotLowerWord, xlen, r, m);
    lemma_single_fold(Prefixes::LowerWordNoMsb, xlen, r, m);
    lemma_msb_closed(xlen, r, m);
    lemma_lower_word_closed(xlen, r, m);
    lemma_neg_relu_split(pt, suffix, xlen);
    lemma_relu_split(pt, suffix, xlen);
    assert(table.prefix_list().map_values(|p: Prefixes| prefix_poly(p, X_LEN as nat, pt)) =~= seq![
        prefix_poly(Prefixes::NotMsb, xlen, pt),
        prefix_poly(Prefixes::LowerWordNoMsb, xlen, pt),
        prefix_poly(Prefixes::Msb, xlen, pt),
        prefix_poly(Prefixes::NotLowerWord, xlen, pt),
    ]);
    assert(table.suffix_list().map_values(|x: Suffixes| x.value(X_LEN as nat, suffix)) =~= seq![
        1int,
        relu_suffix_value(suffix, xlen),
        neg_relu_suffix_value(suffix, xlen),
    ]);
    assert(r.len() == 2 * X_LEN);
}

/// The UnsignedAbs recombination is linear in the suffix evaluations (see
/// `linear_in_suffixes`): the One-suffix slot, like every other, is scaled and summed with the
/// suffix evaluations, as when they are aggregated over many lookups.
pub proof fn lemma_unsigned_abs_linear<const X_LEN: usize>(table: UnsignedAbsTable<X_LEN>)
    ensures
        linear_in_suffixes::<X_LEN, UnsignedAbsTable<X_LEN>>(table),
{
    assert forall|p: Seq<int>| p.len() == 4 implies #[trigger] table.combination(p, zeros(3)) == 0 by {
        let z = zeros(3);
        assert(z[0] == 0 && z[1] == 0 && z[2] == 0);
        let a0 = p[0];
        let a1 = p[1];
        let a2 = p[2];
        let a3 = p[3];
        assert(a0 * a1 * 0 + a0 * 0 + (a2 * a3 * 0 + a2 * 0) == 0) by (nonlinear_arith);
    }
    assert forall|p: Seq<int>, u: Seq<int>, c: int, v: Seq<int>|
        p.len() == 4 && u.len() == 3 && v.len() == 3 implies #[trigger] table.combination(p, shift_add(u, c, v))
            == table.combination(p, u) + c * table.combination(p, v) by {
        let s = shift_add(u, c, v);
        assert(s[0] == u[0] + c * v[0] && s[1] == u[1] + c * v[1] && s[2] == u[2] + c * v[2]);
        let a0 = p[0];
        let a1 = p[1];
        let a2 = p[2];
        let a3 = p[3];
        let u0 = u[0];
        let u1 = u[1];
        let u2 = u[2];
        let v0 = v[0];
        let v1 = v[1];
        let v2 = v[2];
        let m = a0 * a1;
        let n = a2 * a3;
        lemma_scale_sum(m, u0, v0, c);
        lemma_scale_sum(a0, u1, v1, c);
        lemma_scale_sum(n, u0, v0, c);
        lemma_scale_sum(a2, u2, v2, c);
        vstd::arithmetic::mul::lemma_mul_is_distributive_add(c, m * v0, a0 * v1);
        vstd::arithmetic::mul::lemma_mul_is_distributive_add(c, n * v0, a2 * v2);
        vstd::arithmetic::mul::lemma_mul_is_distributive_add(c, m * v0 + a0 * v1, n * v0 + a2 * v2);
    }
}

/// The aggregated decomposition of the UnsignedAbs table: on any prefix part `pt` (whole pairs
/// of coordinates, any values), recombining the prefixes' polynomials with the suffix
/// evaluations summed, with weights `w`, over the suffixes `bits` of several lookups gives the
/// same weighted sum of the table's MLE on those lookups' points.
pub proof fn lemma_unsigned_abs_aggregated_decomposition<const X_LEN: usize>(
    table: UnsignedAbsTable<X_LEN>,
    pt: Seq<int>,
    bits: Seq<LookupBits>,
    w: Seq<int>,
)
    requires
        X_LEN >= 1,
        pt.len() % 2 == 0,
        bits.len() == w.len(),
        forall|j: int|
            0 <= j < bits.len() ==> 0 <= (#[trigger] bits[j]).value() < pow2(bits[j].length()) && pt.len()
                + bits[j].length() == 2 * X_LEN,
    ensures
        table.combination(
            table.prefix_list().map_values(|p: Prefixes| prefix_poly(p, X_LEN as nat, pt)),
            aggregate(table.suffix_list(), X_LEN as nat, bits, w, bits.len()),
        ) == weighted_mle(table, pt, bits, w, bits.len()),
{
    lemma_unsigned_abs_linear(table);
    lemma_aggregated_decomposition(table, pt, bits, w, bits.len());
}

} // verus!
