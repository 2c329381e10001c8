//! The negated ReLU lookup table: `f(x) = max(-x, 0)`.
use crate::field::{fmod, lemma_field_basics, lemma_plus_represents, lemma_times_represents, vals, JoltField};
use crate::hypercube::{
    affine, bit, bool_point, lemma_affine_add, lemma_affine_const, lemma_affine_mul, lemma_frame,
    lemma_not_wsum_complement, lemma_wsum_affine, lemma_wsum_bits, not_wsum, place,
};
use crate::hypercube::{lemma_boolean_tail, lemma_not_wsum_split};
use crate::lookup_tables::prefixes::sparse_dense::{
    lemma_lower_word_closed, lemma_msb_closed, lemma_single_fold, prefix_poly,
};
use crate::lookup_tables::prefixes::{PrefixEval, Prefixes};
use crate::lookup_tables::suffixes::lower_word_no_msb::{low_width, sign_of};
use crate::lookup_tables::suffixes::neg_relu::neg_relu_suffix_value;
use crate::utils::lookup_bits::LookupBits;
use crate::lookup_tables::suffixes::Suffixes;
use crate::lookup_tables::{JoltLookupTable, PrefixSuffixDecompositionTrait};
use crate::utils::{lemma_not_mod_pow2, lemma_sign_bit, pow2_word, signed_word, word_bit};
use vstd::arithmetic::power2::*;
use vstd::bits::lemma_u64_pow2_no_overflow;
use crate::field::{lemma_congruent_plus, lemma_congruent_times};
use crate::lookup_tables::{aggregate, lemma_scale_sum, lemma_aggregated_decomposition, linear_in_suffixes, shift_add, weighted_mle, zeros};
use vstd::prelude::*;

verus! {

/// Negated ReLU lookup table: `f(x) = max(−x, 0)`, where `x` is the two's-complement value of
/// the low `X_LEN` bits of the index.
///
/// Returns the magnitude of `x` when negative, and `0` otherwise.
/// Used in the decomposition `abs(x) = relu(x) + neg_relu(x)`.
#[derive(Debug, Default, Clone, Copy)]
pub struct NegReluTable<const X_LEN: usize>;

/// `max(-x, 0)` for the two's-complement value `x` of the low `x_len` bits of `index`.
pub open spec fn neg_relu_value(index: int, x_len: nat) -> int {
    let x = signed_word(index, x_len);
    if x < 0 {
        -x
    } else {
        0
    }
}

/// The negated ReLU MLE: `r_X · (1 + ∑_{i > X} (1 - r_i) · 2^(len-1-i))`, i.e. the sign bit times
/// the two's-complement negation `(!x) + 1` of the bits below it.
pub open spec fn neg_relu_mle(r: Seq<int>, x_len: int) -> int {
    (1 + not_wsum(r, x_len + 1, r.len() as int, r.len() as int)) * r[x_len]
}

impl<const X_LEN: usize> JoltLookupTable for NegReluTable<X_LEN> {
    open spec fn entries_defined(&self) -> bool {
        1 <= X_LEN < 64
    }

    open spec fn entry(&self, index: u64) -> int {
        neg_relu_value(index as int, X_LEN as nat)
    }

    open spec fn mle_defined(&self, len: nat) -> bool {
        X_LEN < len <= X_LEN + 65
    }

    open spec fn mle(&self, r: Seq<int>) -> int {
        neg_relu_mle(r, X_LEN as int)
    }

    fn materialize_entry(&self, index: u64) -> (v: u64) {
        proof {
            lemma_sign_bit(index as int, X_LEN as nat);
            lemma_not_mod_pow2(index, X_LEN as nat);
            lemma_pow2_pos((X_LEN - 1) as nat);
            lemma_u64_pow2_no_overflow(X_LEN as nat);
        }
        let is_negative = word_bit(index, X_LEN - 1) == 1;
        if is_negative {
            // Two's complement negation: |x| = (!x % 2^X_LEN) + 1
            (!index % pow2_word(X_LEN)) + 1
        } else {
            0
        }
    }

    fn evaluate_mle<F: JoltField>(&self, r: &[F]) -> (v: F) {
        proof {
            lemma_field_basics::<F>();
        }
        let ghost rv = vals(r@);
        let len = r.len();
        // Start at 1 for the +1 of the two's-complement negation -x = (!x) + 1; the loop adds
        // the (!x) part as the sum of (1 - r_i) * 2^(len-1-i) over the bits below the sign bit.
        let mut res = F::one();
        let mut p: usize = len;
        while p > X_LEN + 1
            invariant
                F::modulus() > 1,
                X_LEN + 1 <= p <= len <= X_LEN + 65,
                len == r@.len(),
                rv == vals(r@),
                res.val() == fmod::<F>(1 + not_wsum(rv, p as int, len as int, len as int)),
            decreases p,
        {
            p = p - 1;
            let w = F::from_u64(pow2_word(len - 1 - p));
            let d = F::one().minus(r[p]);
            let term = d.times(w);
            proof {
                r@[p as int].lemma_val_range();
                lemma_times_represents(d, w, 1 - rv[p as int], place(len as int, p as int));
                lemma_plus_represents(
                    res,
                    term,
                    1 + not_wsum(rv, p + 1, len as int, len as int),
                    (1 - rv[p as int]) * place(len as int, p as int),
                );
            }
            res = res.plus(term);
        }
        let sign_bit = r[X_LEN];
        proof {
            sign_bit.lemma_val_range();
            lemma_times_represents(res, sign_bit, 1 + not_wsum(rv, p as int, len as int, len as int), rv[X_LEN as int]);
        }
        res.times(sign_bit)
    }
}

impl<const X_LEN: usize> PrefixSuffixDecompositionTrait<X_LEN> for NegReluTable<X_LEN> {
    open spec fn suffix_list(&self) -> Seq<Suffixes> {
        seq![Suffixes::One, Suffixes::NegRelu]
    }

    open spec fn prefix_list(&self) -> Seq<Prefixes> {
        seq![Prefixes::Msb, Prefixes::NotLowerWord]
    }

    /// `msb · nlw · one + msb · neg_relu`: the product of the MSB prefix and the not-lower-word
    /// prefix has degree at most one in every variable, since the not-lower-word prefix does
    /// not depend on the MSB variable and the MSB prefix depends on no lower bit.
    open spec fn combination(&self, prefixes: Seq<int>, suffixes: Seq<int>) -> int {
        prefixes[0] * prefixes[1] * suffixes[0] + prefixes[0] * suffixes[1]
    }

    fn suffixes(&self) -> (s: Vec<Suffixes>) {
        vec![Suffixes::One, Suffixes::NegRelu]
    }

    fn prefixes(&self) -> (p: Vec<Prefixes>) {
        vec![Prefixes::Msb, Prefixes::NotLowerWord]
    }

    open spec fn decomposition_defined(&self) -> bool {
        X_LEN >= 1
    }

    proof fn lemma_decomposition(&self, pt: Seq<int>, suffix: LookupBits) {
        lemma_neg_relu_decomposition(*self, pt, suffix);
    }

    proof fn lemma_combination_congruent<F: JoltField>(&self, p1: Seq<int>, p2: Seq<int>, s1: Seq<int>, s2: Seq<int>) {
        assert(fmod::<F>(p1[0]) == fmod::<F>(p2[0]) && fmod::<F>(p1[1]) == fmod::<F>(p2[1]));
        assert(fmod::<F>(s1[0]) == fmod::<F>(s2[0]) && fmod::<F>(s1[1]) == fmod::<F>(s2[1]));
        lemma_congruent_times::<F>(p1[0], p2[0], p1[1], p2[1]);
        lemma_congruent_times::<F>(p1[0] * p1[1], p2[0] * p2[1], s1[0], s2[0]);
        lemma_congruent_times::<F>(p1[0], p2[0], s1[1], s2[1]);
        lemma_congruent_plus::<F>(p1[0] * p1[1] * s1[0], p2[0] * p2[1] * s2[0], p1[0] * s1[1], p2[0] * s2[1]);
    }

    fn combine<F: JoltField>(&self, prefixes: &[PrefixEval<F>], suffixes: &[F]) -> (r: F) {
        proof {
            lemma_field_basics::<F>();
        }
        let suffix_one = suffixes[0];
        let suffix_nlw = suffixes[1];
        let prefix_msb = prefixes[0].value();
        let prefix_nlw = prefixes[1].value();
        let a = prefix_msb.times(prefix_nlw);
        let b = a.times(suffix_one);
        let c = prefix_msb.times(suffix_nlw);
        proof {
            prefix_msb.lemma_val_range();
            prefix_nlw.lemma_val_range();
            suffix_one.lemma_val_range();
            suffix_nlw.lemma_val_range();
            lemma_times_represents(a, suffix_one, prefix_msb.val() * prefix_nlw.val(), suffix_one.val());
            lemma_plus_represents(
                b,
                c,
                prefix_msb.val() * prefix_nlw.val() * suffix_one.val(),
                prefix_msb.val() * suffix_nlw.val(),
            );
        }
        b.plus(c)
    }
}

/// On every point of the Boolean hypercube, the negated ReLU MLE equals the table's entry.
pub proof fn lemma_neg_relu_mle_extends_table<const X_LEN: usize>(table: NegReluTable<X_LEN>, index: u64)
    requires
        table.entries_defined(),
    ensures
        table.mle_defined(2 * X_LEN as nat),
        table.mle(bool_point(index as int, 2 * X_LEN as nat)) == table.entry(index),
{
    let x = index as int;
    let n = 2 * X_LEN as nat;
    let r = bool_point(x, n);
    let h = (X_LEN - 1) as nat;
    lemma_sign_bit(x, X_LEN as nat);
    lemma_wsum_bits(x, n, X_LEN + 1);
    lemma_not_wsum_complement(r, X_LEN + 1, n as int, n as int);
    assert((n - (X_LEN + 1)) as nat == h);
    lemma2_to64();
    assert(r[X_LEN as int] == bit(x, h));
    let s = bit(x, h);
    let low = x % (pow2(h) as int);
    let nw = not_wsum(r, X_LEN + 1, n as int, n as int);
    assert(nw == pow2(h) - 1 - low);
    if s == 1 {
        assert((1 + nw) * s == 1 + nw) by (nonlinear_arith)
            requires
                s == 1,
        ;
    } else {
        assert((1 + nw) * s == 0) by (nonlinear_arith)
            requires
                s == 0,
        ;
    }
}

/// The negated ReLU MLE is affine in each of its coordinates.
pub proof fn lemma_neg_relu_mle_affine<const X_LEN: usize>(
    table: NegReluTable<X_LEN>,
    r: Seq<int>,
    k: int,
    t: int,
)
    requires
        table.mle_defined(r.len()),
        0 <= k < r.len(),
    ensures
        affine(table.mle(r.update(k, 0)), table.mle(r.update(k, 1)), table.mle(r.update(k, t)), t),
{
    let len = r.len() as int;
    let x = X_LEN as int;
    let r0 = r.update(k, 0);
    let r1 = r.update(k, 1);
    let rt = r.update(k, t);
    lemma_wsum_affine(r, x + 1, len, len, k, t);
    let n0 = 1 + not_wsum(r0, x + 1, len, len);
    let n1 = 1 + not_wsum(r1, x + 1, len, len);
    let nt = 1 + not_wsum(rt, x + 1, len, len);
    lemma_affine_const(1, t);
    lemma_affine_add(
        1,
        1,
        1,
        not_wsum(r0, x + 1, len, len),
        not_wsum(r1, x + 1, len, len),
        not_wsum(rt, x + 1, len, len),
        t,
    );
    if k == x {
        lemma_frame(r, x + 1, len, len, k, 0);
        lemma_frame(r, x + 1, len, len, k, 1);
        lemma_frame(r, x + 1, len, len, k, t);
        assert(t == 0 + t * (1 - 0)) by (nonlinear_arith);
    } else {
        lemma_affine_const(r[x], t);
    }
    lemma_affine_mul(n0, n1, nt, r0[x], r1[x], rt[x], t);
}

/// The negated-ReLU MLE on a point made of any prefix part `u` and the Boolean point of a
/// suffix `b` splits into the MSB and not-lower-word prefixes of `u` and the suffix's own value:
/// `msb · nlw · 1 + msb · neg_relu_suffix`.
pub proof fn lemma_neg_relu_split(u: Seq<int>, b: LookupBits, xlen: nat)
    requires
        0 <= b.value() < pow2(b.length()),
        u.len() + b.length() == 2 * xlen,
        xlen >= 1,
    ensures
        ({
            let r = u + bool_point(b.value(), b.length());
            let n = (2 * xlen) as int;
            let m = u.len() as int;
            let msb = if m > xlen { r[xlen as int] } else { 1 };
            let nlw = if m > xlen { 1 + not_wsum(r, (xlen + 1) as int, m, n) } else { 0 };
            msb * nlw * 1 + msb * neg_relu_suffix_value(b, xlen) == (1 + not_wsum(r, (xlen + 1) as int, n, n)) * r[xlen as int]
        }),
{
    let s = b.value();
    let k = b.length();
    let r = u + bool_point(s, k);
    let n = (2 * xlen) as int;
    let m = u.len() as int;
    let x = xlen as int;
    if m > x {
        lemma_boolean_tail(u, s, k, m);
        assert((n - m) as nat == k);
        lemma_not_wsum_split(r, x + 1, m, n, n);
        let nwp = not_wsum(r, x + 1, m, n);
        let nws = not_wsum(r, m, n, n);
        assert(low_width(xlen, k) == k);
        assert(neg_relu_suffix_value(b, xlen) == nws);
        let sx = r[x];
        assert(sx * (1 + nwp) * 1 + sx * nws == (1 + (nwp + nws)) * sx) by (nonlinear_arith);
    } else {
        lemma_boolean_tail(u, s, k, x + 1);
        assert((n - (x + 1)) as nat == (xlen - 1) as nat);
        assert(low_width(xlen, k) == (xlen - 1) as nat);
        assert(r[x] == bool_point(s, k)[x - m]);
        assert((k - 1 - (x - m)) as nat == (xlen - 1) as nat);
        assert(r[x] == sign_of(b, xlen));
        let nw = not_wsum(r, x + 1, n, n);
        assert(neg_relu_suffix_value(b, xlen) == r[x] * (1 + nw));
        assert(1 * 0 * 1 + 1 * (r[x] * (1 + nw)) == (1 + nw) * r[x]) by (nonlinear_arith);
    }
}

/// The sum-check decomposition of the negated-ReLU table: on any point made of a prefix part
/// `pt` (whole pairs of coordinates, any values) and the Boolean point of a suffix, the table's
/// MLE is the recombination of its prefixes' polynomials on `pt` with its suffixes' values.
pub proof fn lemma_neg_relu_decomposition<const X_LEN: usize>(
    table: NegReluTable<X_LEN>,
    pt: Seq<int>,
    suffix: LookupBits,
)
    requires
        0 <= suffix.value() < pow2(suffix.length()),
        pt.len() % 2 == 0,
        pt.len() + suffix.length() == 2 * X_LEN,
        X_LEN >= 1,
    ensures
        table.mle(pt + bool_point(suffix.value(), suffix.length())) == table.combination(
            table.prefix_list().map_values(|p: Prefixes| prefix_poly(p, X_LEN as nat, pt)),
            table.suffix_list().map_values(|x: Suffixes| x.value(X_LEN as nat, suffix)),
        ),
{
    let xlen = X_LEN as nat;
    let r = pt + bool_point(suffix.value(), suffix.length());
    let m = pt.len() as int;
    assert(r.subrange(0, m) =~= pt);
    lemma_single_fold(Prefixes::Msb, xlen, r, m);
    lemma_single_fold(Prefixes::NotLowerWord, xlen, r, m);
    lemma_msb_closed(xlen, r, m);
    lemma_lower_word_closed(xlen, r, m);
    lemma_neg_relu_split(pt, suffix, xlen);
    assert(table.prefix_list().map_values(|p: Prefixes| prefix_poly(p, X_LEN as nat, pt)) =~= seq![
        prefix_poly(Prefixes::Msb, xlen, pt),
        prefix_poly(Prefixes::NotLowerWord, xlen, pt),
    ]);
    assert(table.suffix_list().map_values(|x: Suffixes| x.value(X_LEN as nat, suffix)) =~= seq![
        1int,
        neg_relu_suffix_value(suffix, xlen),
    ]);
    assert(r.len() == 2 * X_LEN);
}

/// The NegRelu recombination is linear in the suffix evaluations (see
/// `linear_in_suffixes`): the One-suffix slot, like every other, is scaled and summed with the
/// suffix evaluations, as when they are aggregated over many lookups.
pub proof fn lemma_neg_relu_linear<const X_LEN: usize>(table: NegReluTable<X_LEN>)
    ensures
        linear_in_suffixes::<X_LEN, NegReluTable<X_LEN>>(table),
{
    assert forall|p: Seq<int>| p.len() == 2 implies #[trigger] table.combination(p, zeros(2)) == 0 by {
        let z = zeros(2);
        assert(z[0] == 0 && z[1] == 0);
        let a0 = p[0];
        let a1 = p[1];
        assert(a0 * a1 * 0 + a0 * 0 == 0) by (nonlinear_arith);
    }
    assert forall|p: Seq<int>, u: Seq<int>, c: int, v: Seq<int>|
        p.len() == 2 && u.len() == 2 && v.len() == 2 implies #[trigger] table.combination(p, shift_add(u, c, v))
            == table.combination(p, u) + c * table.combination(p, v) by {
        let s = shift_add(u, c, v);
        assert(s[0] == u[0] + c * v[0] && s[1] == u[1] + c * v[1]);
        let a0 = p[0];
        let a1 = p[1];
        let u0 = u[0];
        let u1 = u[1];
        let v0 = v[0];
        let v1 = v[1];
        let m = a0 * a1;
        lemma_scale_sum(m, u0, v0, c);
        lemma_scale_sum(a0, u1, v1, c);
        vstd::arithmetic::mul::lemma_mul_is_distributive_add(c, m * v0, a0 * v1);
    }
}

/// The aggregated decomposition of the NegRelu table: on any prefix part `pt` (whole pairs
/// of coordinates, any values), recombining the prefixes' polynomials with the suffix
/// evaluations summed, with weights `w`, over the suffixes `bits` of several lookups gives the
/// same weighted sum of the table's MLE on those lookups' points.
pub proof fn lemma_neg_relu_aggregated_decomposition<const X_LEN: usize>(
    table: NegReluTable<X_LEN>,
    pt: Seq<int>,
    bits: Seq<LookupBits>,
    w: Seq<int>,
)
    requires
        X_LEN >= 1,
        pt.len() % 2 == 0,
        bits.len() == w.len(),
        forall|j: int|
            0 <= j < bits.len() ==> 0 <= (#[trigger] bits[j]).value() < pow2(bits[j].length()) && pt.len()
                + bits[j].length() == 2 * X_LEN,
    ensures
        table.combination(
            table.prefix_list().map_values(|p: Prefixes| prefix_poly(p, X_LEN as nat, pt)),
            aggregate(table.suffix_list(), X_LEN as nat, bits, w, bits.len()),
        ) == weighted_mle(table, pt, bits, w, bits.len()),
{
    lemma_neg_relu_linear(table);
    lemma_aggregated_decomposition(table, pt, bits, w, bits.len());
}

} // verus!
