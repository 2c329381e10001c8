//! The sparse-dense evaluation of prefixes.
//!
//! Each prefix is a polynomial in the variables of the prefix part of a lookup index, built pair
//! by pair from the most significant variable down: a running accumulator, and beside it the
//! running equality indicator of the pairs seen so far, are updated by every pair of variables.
//! A checkpoint is the accumulator after the pairs bound so far, so that a prefix can be
//! evaluated from its checkpoint on without going over the bound variables again.
use crate::hypercube::{lemma_wsum_append, lemma_zprod_append, not_wsum, place, wsum, zprod};
use crate::field::{fmod, lemma_field_basics, lemma_plus_represents, lemma_times_represents, JoltField};
use crate::lookup_tables::clamp::{CLAMP_OP1_LOWER, CLAMP_OP2_LOWER, CLAMP_OPS_UPPER};
use crate::lookup_tables::prefixes::Prefixes;
use crate::utils::pow2_word;
use vstd::arithmetic::div_mod::*;
use vstd::arithmetic::mul::*;
use vstd::arithmetic::power2::*;
use vstd::prelude::*;

verus! {

/// The significance, in a `2 * xlen`-bit index, of the variable at position `q` (the most
/// significant variable has position 0).
pub open spec fn significance(xlen: nat, q: int) -> int {
    2 * xlen - 1 - q
}

/// The value `c0 + cx·x + cy·y + cxy·x·y` of the bilinear form with coefficients `c`.
pub open spec fn bilinear(c: (int, int, int, int), x: int, y: int) -> int {
    c.0 + c.1 * x + c.2 * y + c.3 * x * y
}

/// The equality indicator of a pair of variables, `x·y + (1 - x)·(1 - y)`, as a bilinear form.
pub open spec fn eq_form() -> (int, int, int, int) {
    (1, -1, -1, 2)
}

/// The coefficients of a bilinear form held as 64-bit words.
pub open spec fn coefficients(c: (i64, i64, i64, i64)) -> (int, int, int, int) {
    (c.0 as int, c.1 as int, c.2 as int, c.3 as int)
}

/// For a prefix that is a product over single variables, the factor `a + b·v` (as `(a, b)`) that
/// the variable `v` at position `q` contributes:
/// - zero-above-bound: `1 - v` on the variables of significance `>= bound`, else 1;
/// - MSB: `v` on the sign variable (position `xlen`), else 1;
/// - not-MSB: `1 - v` on the sign variable, else 1.
pub open spec fn position_factor(p: Prefixes, xlen: nat, q: int) -> (int, int) {
    let s = significance(xlen, q);
    match p {
        Prefixes::OpsZeroGtHigh => if s >= CLAMP_OPS_UPPER { (1, -1) } else { (1, 0) },
        Prefixes::Op1ZeroGtLow => if s >= CLAMP_OP1_LOWER { (1, -1) } else { (1, 0) },
        Prefixes::Op2ZeroGtLow => if s >= CLAMP_OP2_LOWER { (1, -1) } else { (1, 0) },
        Prefixes::Msb => if q == xlen { (0, 1) } else { (1, 0) },
        Prefixes::NotMsb => if q == xlen { (1, -1) } else { (1, 0) },
        _ => (1, 0),
    }
}

/// For a prefix that is a sum over single variables, the term `a + b·v` (as `(a, b)`) that the
/// variable `v` at position `q`, of significance `s`, adds:
/// - word-below-bound: `v·2^s` on the variables of significance `s < bound`;
/// - lower word without MSB: `v·2^s` on the variables below the sign variable;
/// - not-lower-word, the two's-complement negation `(!x) + 1` of the lower word: 1 on the sign
///   variable and `(1 - v)·2^s` on the variables below it.
pub open spec fn position_term(p: Prefixes, xlen: nat, q: int) -> (int, int) {
    let s = significance(xlen, q);
    let w = pow2(s as nat) as int;
    match p {
        Prefixes::OpsWordLtHigh => if 0 <= s < CLAMP_OPS_UPPER { (0, w) } else { (0, 0) },
        Prefixes::Op1WordLtLow => if 0 <= s < CLAMP_OP1_LOWER { (0, w) } else { (0, 0) },
        Prefixes::Op2WordLtLow => if 0 <= s < CLAMP_OP2_LOWER { (0, w) } else { (0, 0) },
        Prefixes::LowerWordNoMsb => if q > xlen { (0, w) } else { (0, 0) },
        Prefixes::NotLowerWord => if q == xlen {
            (1, 0)
        } else if q > xlen {
            (w, -w)
        } else {
            (0, 0)
        },
        _ => (0, 0),
    }
}

/// The forms `(M, S, T)` by which the pair `(x, y)` of variables at positions `q` and `q + 1`
/// updates a prefix's accumulator `a` to `a·M(x, y) + S(x, y) + e·T(x, y)`, with `e` the
/// equality indicator of the pairs before. With `w = 2^(xlen - 1 - q/2)` the weight of the
/// pair's bit in each operand:
/// - AND: `a + x·y·w`; OR: `a + (x + y - x·y)·w`; XOR: `a + (x + y - 2·x·y)·w`;
/// - Eq: `a·(x·y + (1 - x)·(1 - y))`;
/// - LessThan: `a + e·(1 - x)·y`;
/// - the prefixes over single variables: the factors and terms of the two variables in turn.
pub open spec fn pair_coefficients(p: Prefixes, xlen: nat, q: int) -> (
    (int, int, int, int),
    (int, int, int, int),
    (int, int, int, int),
) {
    let w = pow2((xlen - 1 - q / 2) as nat) as int;
    let one = (1int, 0int, 0int, 0int);
    let zero = (0int, 0int, 0int, 0int);
    match p {
        Prefixes::And => (one, (0, 0, 0, w), zero),
        Prefixes::Or => (one, (0, w, w, -w), zero),
        Prefixes::Xor => (one, (0, w, w, -2 * w), zero),
        Prefixes::Eq => (eq_form(), zero, zero),
        Prefixes::LessThan => (one, zero, (0, 0, 1, -1)),
        _ => {
            let f0 = position_factor(p, xlen, q);
            let f1 = position_factor(p, xlen, q + 1);
            let t0 = position_term(p, xlen, q);
            let t1 = position_term(p, xlen, q + 1);
            (
                (f0.0 * f1.0, f0.1 * f1.0, f0.0 * f1.1, f0.1 * f1.1),
                (t0.0 * f1.0 + t1.0, t0.1 * f1.0, t0.0 * f1.1 + t1.1, t0.1 * f1.1),
                zero,
            )
        },
    }
}

/// One update of a prefix's state `(accumulator, equality indicator)` by the pair `(x, y)` at
/// positions `q` and `q + 1` (see [`pair_coefficients`]).
pub open spec fn pair_step(p: Prefixes, xlen: nat, st: (int, int), q: int, x: int, y: int) -> (int, int) {
    let c = pair_coefficients(p, xlen, q);
    (
        st.0 * bilinear(c.0, x, y) + bilinear(c.1, x, y) + st.1 * bilinear(c.2, x, y),
        st.1 * bilinear(eq_form(), x, y),
    )
}

/// The state of a prefix after the pairs of `v`, whose first value has position `q`, starting
/// from the state `st`. A trailing unpaired value is not taken in: a prefix part always holds
/// whole pairs.
pub open spec fn fold_pairs(p: Prefixes, xlen: nat, st: (int, int), q: int, v: Seq<int>) -> (int, int)
    decreases v.len(),
{
    if v.len() < 2 {
        st
    } else {
        fold_pairs(p, xlen, pair_step(p, xlen, st, q, v[0], v[1]), q + 2, v.subrange(2, v.len() as int))
    }
}

/// The accumulator of a prefix before any variable: 1 for the products, 0 for the sums.
pub open spec fn base_value(p: Prefixes) -> int {
    match p {
        Prefixes::OpsZeroGtHigh | Prefixes::Op1ZeroGtLow | Prefixes::Op2ZeroGtLow | Prefixes::Msb
        | Prefixes::NotMsb | Prefixes::Eq => 1,
        _ => 0,
    }
}

/// The prefix's polynomial on the prefix part `pt` of a point (coordinates from position 0).
pub open spec fn prefix_poly(p: Prefixes, xlen: nat, pt: Seq<int>) -> int {
    fold_pairs(p, xlen, (base_value(p), 1), 0, pt).0
}

/// The state from which a prefix is evaluated, given the checkpoints (in the order of
/// [`Prefixes`]): its own checkpoint and the Eq checkpoint, or the values before any variable
/// where they are not set.
pub open spec fn start_state(p: Prefixes, cps: Seq<Option<int>>) -> (int, int) {
    (
        match cps[p.ordinal()] {
            Some(v) => v,
            None => base_value(p),
        },
        match cps[Prefixes::Eq.ordinal()] {
            Some(v) => v,
            None => 1,
        },
    )
}

/// `2^e` as a 64-bit signed word, for `e <= 31`.
fn small_pow2(e: usize) -> (r: i64)
    requires
        e <= 31,
    ensures
        r == pow2(e as nat),
        0 < r <= 0x8000_0000,
{
    proof {
        lemma2_to64();
        if e < 31 {
            lemma_pow2_strictly_increases(e as nat, 31);
        }
    }
    pow2_word(e) as i64
}

/// Computes [`position_factor`].
fn position_factor_exec(p: &Prefixes, xlen: usize, q: usize) -> (r: (i64, i64))
    requires
        xlen <= 32,
        q < 2 * xlen,
    ensures
        (r.0 as int, r.1 as int) == position_factor(*p, xlen as nat, q as int),
        -1 <= r.0 <= 1,
        -1 <= r.1 <= 1,
{
    let s = 2 * xlen - 1 - q;
    match p {
        Prefixes::OpsZeroGtHigh => if s >= CLAMP_OPS_UPPER { (1, -1) } else { (1, 0) },
        Prefixes::Op1ZeroGtLow => if s >= CLAMP_OP1_LOWER { (1, -1) } else { (1, 0) },
        Prefixes::Op2ZeroGtLow => if s >= CLAMP_OP2_LOWER { (1, -1) } else { (1, 0) },
        Prefixes::Msb => if q == xlen { (0, 1) } else { (1, 0) },
        Prefixes::NotMsb => if q == xlen { (1, -1) } else { (1, 0) },
        _ => (1, 0),
    }
}

/// Computes [`position_term`].
fn position_term_exec(p: &Prefixes, xlen: usize, q: usize) -> (r: (i64, i64))
    requires
        xlen <= 32,
        q < 2 * xlen,
    ensures
        (r.0 as int, r.1 as int) == position_term(*p, xlen as nat, q as int),
        -0x8000_0000 <= r.0 <= 0x8000_0000,
        -0x8000_0000 <= r.1 <= 0x8000_0000,
{
    let s = 2 * xlen - 1 - q;
    match p {
        Prefixes::OpsWordLtHigh => if s < CLAMP_OPS_UPPER { (0, small_pow2(s)) } else { (0, 0) },
        Prefixes::Op1WordLtLow => if s < CLAMP_OP1_LOWER { (0, small_pow2(s)) } else { (0, 0) },
        Prefixes::Op2WordLtLow => if s < CLAMP_OP2_LOWER { (0, small_pow2(s)) } else { (0, 0) },
        Prefixes::LowerWordNoMsb => if q > xlen { (0, small_pow2(s)) } else { (0, 0) },
        Prefixes::NotLowerWord => if q == xlen {
            (1, 0)
        } else if q > xlen {
            let w = small_pow2(s);
            (w, -w)
        } else {
            (0, 0)
        },
        _ => (0, 0),
    }
}

/// Computes the forms of [`pair_coefficients`].
fn pair_coefficients_exec(p: &Prefixes, xlen: usize, q: usize) -> (r: (
    (i64, i64, i64, i64),
    (i64, i64, i64, i64),
    (i64, i64, i64, i64),
))
    requires
        xlen <= 32,
        q + 1 < 2 * xlen,
    ensures
        (coefficients(r.0), coefficients(r.1), coefficients(r.2)) == pair_coefficients(*p, xlen as nat, q as int),
{
    let one: (i64, i64, i64, i64) = (1, 0, 0, 0);
    let zero: (i64, i64, i64, i64) = (0, 0, 0, 0);
    match p {
        Prefixes::And => {
            let w = small_pow2(xlen - 1 - q / 2);
            (one, (0, 0, 0, w), zero)
        },
        Prefixes::Or => {
            let w = small_pow2(xlen - 1 - q / 2);
            (one, (0, w, w, -w), zero)
        },
        Prefixes::Xor => {
            let w = small_pow2(xlen - 1 - q / 2);
            let w2 = 2 * w;
            (one, (0, w, w, -w2), zero)
        },
        Prefixes::Eq => ((1, -1, -1, 2), zero, zero),
        Prefixes::LessThan => (one, zero, (0, 0, 1, -1)),
        _ => {
            let f0 = position_factor_exec(p, xlen, q);
            let f1 = position_factor_exec(p, xlen, q + 1);
            let t0 = position_term_exec(p, xlen, q);
            let t1 = position_term_exec(p, xlen, q + 1);
            proof {
                assert(-1 <= f0.0 * f1.0 <= 1 && -1 <= f0.1 * f1.0 <= 1 && -1 <= f0.0 * f1.1 <= 1
                    && -1 <= f0.1 * f1.1 <= 1) by (nonlinear_arith)
                    requires
                        -1 <= f0.0 <= 1,
                        -1 <= f0.1 <= 1,
                        -1 <= f1.0 <= 1,
                        -1 <= f1.1 <= 1,
                ;
                assert(-0x8000_0000 <= t0.0 * f1.0 <= 0x8000_0000 && -0x8000_0000 <= t0.1 * f1.0
                    <= 0x8000_0000 && -0x8000_0000 <= t0.0 * f1.1 <= 0x8000_0000 && -0x8000_0000
                    <= t0.1 * f1.1 <= 0x8000_0000) by (nonlinear_arith)
                    requires
                        -0x8000_0000 <= t0.0 <= 0x8000_0000,
                        -0x8000_0000 <= t0.1 <= 0x8000_0000,
                        -1 <= f1.0 <= 1,
                        -1 <= f1.1 <= 1,
                ;
            }
            (
                (f0.0 * f1.0, f0.1 * f1.0, f0.0 * f1.1, f0.1 * f1.1),
                (t0.0 * f1.0 + t1.0, t0.1 * f1.0, t0.0 * f1.1 + t1.1, t0.1 * f1.1),
                zero,
            )
        },
    }
}

/// Evaluates a bilinear form at field elements that represent `xr` and `yr`.
fn eval_bilinear<F: JoltField>(c: (i64, i64, i64, i64), x: F, y: F, Ghost(xr): Ghost<int>, Ghost(yr): Ghost<int>) -> (r: F)
    requires
        x.val() == fmod::<F>(xr),
        y.val() == fmod::<F>(yr),
    ensures
        r.val() == fmod::<F>(bilinear(coefficients(c), xr, yr)),
{
    let k0 = F::from_i64(c.0);
    let k1 = F::from_i64(c.1);
    let k2 = F::from_i64(c.2);
    let k3 = F::from_i64(c.3);
    let a = k1.times(x);
    let b = k2.times(y);
    let d = k3.times(x);
    let d2 = d.times(y);
    let s1 = k0.plus(a);
    let s2 = s1.plus(b);
    proof {
        lemma_times_represents(k1, x, c.1 as int, xr);
        lemma_times_represents(k2, y, c.2 as int, yr);
        lemma_times_represents(k3, x, c.3 as int, xr);
        lemma_times_represents(d, y, c.3 * xr, yr);
        lemma_plus_represents(k0, a, c.0 as int, c.1 * xr);
        lemma_plus_represents(s1, b, c.0 + c.1 * xr, c.2 * yr);
        lemma_plus_represents(s2, d2, c.0 + c.1 * xr + c.2 * yr, c.3 * xr * yr);
    }
    s2.plus(d2)
}

/// Computes [`pair_step`] on field elements that represent the state and the pair.
pub(crate) fn pair_step_exec<F: JoltField>(
    p: &Prefixes,
    xlen: usize,
    st: (F, F),
    q: usize,
    x: F,
    y: F,
    Ghost(sr): Ghost<(int, int)>,
    Ghost(xr): Ghost<int>,
    Ghost(yr): Ghost<int>,
) -> (r: (F, F))
    requires
        xlen <= 32,
        q + 1 < 2 * xlen,
        st.0.val() == fmod::<F>(sr.0),
        st.1.val() == fmod::<F>(sr.1),
        x.val() == fmod::<F>(xr),
        y.val() == fmod::<F>(yr),
    ensures
        r.0.val() == fmod::<F>(pair_step(*p, xlen as nat, sr, q as int, xr, yr).0),
        r.1.val() == fmod::<F>(pair_step(*p, xlen as nat, sr, q as int, xr, yr).1),
{
    let c = pair_coefficients_exec(p, xlen, q);
    let m = eval_bilinear(c.0, x, y, Ghost(xr), Ghost(yr));
    let s = eval_bilinear(c.1, x, y, Ghost(xr), Ghost(yr));
    let t = eval_bilinear(c.2, x, y, Ghost(xr), Ghost(yr));
    let ev = eval_bilinear((1, -1, -1, 2), x, y, Ghost(xr), Ghost(yr));
    let a1 = st.0.times(m);
    let a2 = a1.plus(s);
    let a3 = st.1.times(t);
    let e2 = st.1.times(ev);
    let ghost cs = pair_coefficients(*p, xlen as nat, q as int);
    let ghost mv = bilinear(cs.0, xr, yr);
    let ghost sv = bilinear(cs.1, xr, yr);
    let ghost tv = bilinear(cs.2, xr, yr);
    proof {
        assert(coefficients((1i64, -1i64, -1i64, 2i64)) == eq_form());
        lemma_times_represents(st.0, m, sr.0, mv);
        lemma_plus_represents(a1, s, sr.0 * mv, sv);
        lemma_times_represents(st.1, t, sr.1, tv);
        lemma_plus_represents(a2, a3, sr.0 * mv + sv, sr.1 * tv);
        lemma_times_represents(st.1, ev, sr.1, bilinear(eq_form(), xr, yr));
    }
    (a2.plus(a3), e2)
}

/// Running the pairs of `u` and then those of `w` is running the pairs of `u + w`, when `u`
/// holds whole pairs.
pub proof fn lemma_fold_concat(p: Prefixes, xlen: nat, st: (int, int), q: int, u: Seq<int>, w: Seq<int>)
    requires
        u.len() % 2 == 0,
    ensures
        fold_pairs(p, xlen, st, q, u + w) == fold_pairs(p, xlen, fold_pairs(p, xlen, st, q, u), q + u.len(), w),
    decreases u.len(),
{
    if u.len() == 0 {
        assert(u + w =~= w);
    } else {
        let uw = u + w;
        let st2 = pair_step(p, xlen, st, q, u[0], u[1]);
        assert(uw[0] == u[0] && uw[1] == u[1]);
        assert(uw.subrange(2, uw.len() as int) =~= u.subrange(2, u.len() as int) + w);
        lemma_fold_concat(p, xlen, st2, q + 2, u.subrange(2, u.len() as int), w);
    }
}

/// Two states that agree modulo the field's order stay in agreement after any pairs.
pub proof fn lemma_fold_congruent<F: JoltField>(
    p: Prefixes,
    xlen: nat,
    st: (int, int),
    st2: (int, int),
    q: int,
    v: Seq<int>,
)
    requires
        fmod::<F>(st.0) == fmod::<F>(st2.0),
        fmod::<F>(st.1) == fmod::<F>(st2.1),
    ensures
        fmod::<F>(fold_pairs(p, xlen, st, q, v).0) == fmod::<F>(fold_pairs(p, xlen, st2, q, v).0),
        fmod::<F>(fold_pairs(p, xlen, st, q, v).1) == fmod::<F>(fold_pairs(p, xlen, st2, q, v).1),
    decreases v.len(),
{
    if v.len() >= 2 {
        let m = F::modulus();
        F::lemma_modulus();
        let c = pair_coefficients(p, xlen, q);
        let mv = bilinear(c.0, v[0], v[1]);
        let sv = bilinear(c.1, v[0], v[1]);
        let tv = bilinear(c.2, v[0], v[1]);
        let ev = bilinear(eq_form(), v[0], v[1]);
        lemma_mul_mod_noop_left(st.0, mv, m);
        lemma_mul_mod_noop_left(st2.0, mv, m);
        lemma_mul_mod_noop_left(st.1, tv, m);
        lemma_mul_mod_noop_left(st2.1, tv, m);
        lemma_mul_mod_noop_left(st.1, ev, m);
        lemma_mul_mod_noop_left(st2.1, ev, m);
        lemma_add_mod_noop(st.0 * mv + sv, st.1 * tv, m);
        lemma_add_mod_noop(st2.0 * mv + sv, st2.1 * tv, m);
        lemma_add_mod_noop(st.0 * mv, sv, m);
        lemma_add_mod_noop(st2.0 * mv, sv, m);
        lemma_fold_congruent::<F>(
            p,
            xlen,
            pair_step(p, xlen, st, q, v[0], v[1]),
            pair_step(p, xlen, st2, q, v[0], v[1]),
            q + 2,
            v.subrange(2, v.len() as int),
        );
    }
}

/// The equality indicator that every prefix carries is the Eq prefix's accumulator.
pub proof fn lemma_eq_component(p: Prefixes, xlen: nat, a: int, e: int, q: int, v: Seq<int>)
    ensures
        fold_pairs(p, xlen, (a, e), q, v).1 == fold_pairs(Prefixes::Eq, xlen, (e, e), q, v).0,
        fold_pairs(Prefixes::Eq, xlen, (e, e), q, v).0 == fold_pairs(Prefixes::Eq, xlen, (e, e), q, v).1,
    decreases v.len(),
{
    if v.len() >= 2 {
        let st = pair_step(p, xlen, (a, e), q, v[0], v[1]);
        let se = pair_step(Prefixes::Eq, xlen, (e, e), q, v[0], v[1]);
        let c = pair_coefficients(Prefixes::Eq, xlen, q);
        assert(c.1 == (0int, 0int, 0int, 0int) && c.2 == (0int, 0int, 0int, 0int));
        assert(bilinear(c.1, v[0], v[1]) == 0);
        assert(bilinear(c.2, v[0], v[1]) == 0);
        let z = bilinear(c.2, v[0], v[1]);
        assert(e * z == 0) by (nonlinear_arith)
            requires
                z == 0,
        ;
        assert(se.0 == se.1);
        assert(st.1 == se.1);
        lemma_eq_component(p, xlen, st.0, st.1, q + 2, v.subrange(2, v.len() as int));
    }
}

/// Whether a prefix's accumulator starts at 1 (rather than 0).
pub(crate) fn base_is_one(p: &Prefixes) -> (b: bool)
    ensures
        base_value(*p) == if b { 1int } else { 0int },
{
    match p {
        Prefixes::OpsZeroGtHigh | Prefixes::Op1ZeroGtLow | Prefixes::Op2ZeroGtLow | Prefixes::Msb
        | Prefixes::NotMsb | Prefixes::Eq => true,
        _ => false,
    }
}

/// A sequence of exactly two values runs as one pair.
pub proof fn lemma_fold_one_pair(p: Prefixes, xlen: nat, st: (int, int), q: int, x: int, y: int)
    ensures
        fold_pairs(p, xlen, st, q, seq![x, y]) == pair_step(p, xlen, st, q, x, y),
{
    let v = seq![x, y];
    assert(v.subrange(2, 2).len() == 0);
    assert(fold_pairs(p, xlen, pair_step(p, xlen, st, q, x, y), q + 2, v.subrange(2, 2)) == pair_step(
        p,
        xlen,
        st,
        q,
        x,
        y,
    ));
}

/// Computes [`fold_pairs`] on field elements that represent the state and the values `vs`.
pub(crate) fn fold_pairs_exec<F: JoltField>(
    p: &Prefixes,
    xlen: usize,
    st: (F, F),
    q: usize,
    v: &Vec<F>,
    Ghost(sr): Ghost<(int, int)>,
    Ghost(vs): Ghost<Seq<int>>,
) -> (r: (F, F))
    requires
        xlen <= 32,
        q + v.len() <= 2 * xlen,
        st.0.val() == fmod::<F>(sr.0),
        st.1.val() == fmod::<F>(sr.1),
        vs.len() == v.len(),
        forall|i: int| 0 <= i < v.len() ==> #[trigger] v@[i].val() == fmod::<F>(vs[i]),
    ensures
        r.0.val() == fmod::<F>(fold_pairs(*p, xlen as nat, sr, q as int, vs).0),
        r.1.val() == fmod::<F>(fold_pairs(*p, xlen as nat, sr, q as int, vs).1),
{
    let mut cur = st;
    let mut i: usize = 0;
    while i + 1 < v.len()
        invariant
            xlen <= 32,
            q + v.len() <= 2 * xlen,
            i <= v.len(),
            vs.len() == v.len(),
            forall|k: int| 0 <= k < v.len() ==> #[trigger] v@[k].val() == fmod::<F>(vs[k]),
            i % 2 == 0,
            cur.0.val() == fmod::<F>(fold_pairs(*p, xlen as nat, sr, q as int, vs.subrange(0, i as int)).0),
            cur.1.val() == fmod::<F>(fold_pairs(*p, xlen as nat, sr, q as int, vs.subrange(0, i as int)).1),
        decreases v.len() - i,
    {
        let ghost pre = vs.subrange(0, i as int);
        let ghost fs = fold_pairs(*p, xlen as nat, sr, q as int, pre);
        proof {
            let w = vs.subrange(i as int, i + 2);
            lemma_fold_concat(*p, xlen as nat, sr, q as int, pre, w);
            assert(pre + w =~= vs.subrange(0, i + 2));
            assert(w =~= seq![vs[i as int], vs[i + 1]]);
            lemma_fold_one_pair(*p, xlen as nat, fs, q + i, vs[i as int], vs[i + 1]);
        }
        cur = pair_step_exec(p, xlen, cur, q + i, v[i], v[i + 1], Ghost(fs), Ghost(vs[i as int]), Ghost(vs[i + 1]));
        i += 2;
    }
    proof {
        let pre = vs.subrange(0, i as int);
        let w = vs.subrange(i as int, vs.len() as int);
        lemma_fold_concat(*p, xlen as nat, sr, q as int, pre, w);
        assert(pre + w =~= vs);
    }
    cur
}

/// Whether a prefix is built from single variables (each variable contributes a factor or a
/// term of its own), rather than from pairs of operand bits.
pub open spec fn is_single(p: Prefixes) -> bool {
    !(p is And || p is Or || p is Xor || p is Eq || p is LessThan)
}

/// A prefix built from single variables, run over the first `h` coordinates of `r` one at a
/// time: the accumulator `a` becomes `a·(factor) + (term)` at each coordinate.
pub open spec fn single_fold(p: Prefixes, xlen: nat, r: Seq<int>, h: int) -> int
    decreases h,
{
    if h <= 0 {
        base_value(p)
    } else {
        let f = position_factor(p, xlen, h - 1);
        let t = position_term(p, xlen, h - 1);
        single_fold(p, xlen, r, h - 1) * (f.0 + f.1 * r[h - 1]) + (t.0 + t.1 * r[h - 1])
    }
}

/// `(a + b·x)·(c + d·y) == a·c + (b·c)·x + (a·d)·y + (b·d)·x·y`.
proof fn lemma_expand(a: int, b: int, c: int, d: int, x: int, y: int)
    ensures
        (a + b * x) * (c + d * y) == a * c + (b * c) * x + (a * d) * y + (b * d) * x * y,
{
    lemma_mul_is_distributive_add_other_way(c + d * y, a, b * x);
    lemma_mul_is_distributive_add(a, c, d * y);
    lemma_mul_is_distributive_add(b * x, c, d * y);
    lemma_mul_is_associative(a, d, y);
    lemma_mul_is_associative(b, x, c);
    lemma_mul_is_commutative(x, c);
    lemma_mul_is_associative(b, c, x);
    lemma_mul_is_associative(b * x, d, y);
    lemma_mul_is_associative(b, x, d);
    lemma_mul_is_commutative(x, d);
    lemma_mul_is_associative(b, d, x);
    lemma_mul_is_associative(b * d, x, y);
    lemma_mul_is_commutative(a + b * x, c + d * y);
    lemma_mul_is_commutative(a, c + d * y);
    lemma_mul_is_commutative(b * x, c + d * y);
}

/// The product of two affine factors as a bilinear form.
proof fn lemma_factor_product(a0: int, b0: int, a1: int, b1: int, x: int, y: int)
    ensures
        bilinear((a0 * a1, b0 * a1, a0 * b1, b0 * b1), x, y) == (a0 + b0 * x) * (a1 + b1 * y),
{
    lemma_expand(a0, b0, a1, b1, x, y);
}

/// A term carried through a factor, plus the next term, as a bilinear form.
proof fn lemma_term_product(s0: int, t0: int, a1: int, b1: int, s1: int, t1: int, x: int, y: int)
    ensures
        bilinear((s0 * a1 + s1, t0 * a1, s0 * b1 + t1, t0 * b1), x, y) == (s0 + t0 * x) * (a1 + b1 * y) + (s1
            + t1 * y),
{
    lemma_expand(s0, t0, a1, b1, x, y);
    lemma_mul_is_distributive_add_other_way(y, s0 * b1, t1);
}

/// `(a·f0 + t0)·f1 + t1 == a·(f0·f1) + (t0·f1 + t1)`.
proof fn lemma_two_steps(a: int, f0: int, t0: int, f1: int, t1: int)
    by (nonlinear_arith)
    ensures
        (a * f0 + t0) * f1 + t1 == a * (f0 * f1) + (t0 * f1 + t1),
{
}

/// One single-variable step: the accumulator times the factor, plus the term.
proof fn lemma_single_step(p: Prefixes, xlen: nat, r: Seq<int>, h: int)
    requires
        h > 0,
    ensures
        ({
            let f = position_factor(p, xlen, h - 1);
            let t = position_term(p, xlen, h - 1);
            let prev = single_fold(p, xlen, r, h - 1);
            &&& f == (1int, 0int) ==> single_fold(p, xlen, r, h) == prev + (t.0 + t.1 * r[h - 1])
            &&& t == (0int, 0int) ==> single_fold(p, xlen, r, h) == prev * (f.0 + f.1 * r[h - 1])
        }),
{
    let f = position_factor(p, xlen, h - 1);
    let t = position_term(p, xlen, h - 1);
    let prev = single_fold(p, xlen, r, h - 1);
    let fv = f.0 + f.1 * r[h - 1];
    let tv = t.0 + t.1 * r[h - 1];
    assert(single_fold(p, xlen, r, h) == prev * fv + tv);
    if f == (1int, 0int) {
        lemma_mul_basics(r[h - 1]);
        assert(fv == 1);
        lemma_mul_basics(prev);
    }
    if t == (0int, 0int) {
        lemma_mul_basics(r[h - 1]);
        assert(tv == 0);
    }
}

/// A prefix built from single variables, on the first `h` coordinates of `r` (an even number),
/// is its single-variable run.
pub proof fn lemma_single_fold(p: Prefixes, xlen: nat, r: Seq<int>, h: int)
    requires
        is_single(p),
        0 <= h <= r.len(),
        h % 2 == 0,
    ensures
        prefix_poly(p, xlen, r.subrange(0, h)) == single_fold(p, xlen, r, h),
    decreases h,
{
    if h > 0 {
        let base = (base_value(p), 1int);
        let u = r.subrange(0, h - 2);
        lemma_single_fold(p, xlen, r, h - 2);
        lemma_fold_concat(p, xlen, base, 0, u, seq![r[h - 2], r[h - 1]]);
        assert(u + seq![r[h - 2], r[h - 1]] =~= r.subrange(0, h));
        let st = fold_pairs(p, xlen, base, 0, u);
        lemma_fold_one_pair(p, xlen, st, h - 2, r[h - 2], r[h - 1]);
        let f0 = position_factor(p, xlen, h - 2);
        let f1 = position_factor(p, xlen, h - 1);
        let t0 = position_term(p, xlen, h - 2);
        let t1 = position_term(p, xlen, h - 1);
        let x = r[h - 2];
        let y = r[h - 1];
        lemma_factor_product(f0.0, f0.1, f1.0, f1.1, x, y);
        lemma_term_product(t0.0, t0.1, f1.0, f1.1, t1.0, t1.1, x, y);
        lemma_two_steps(st.0, f0.0 + f0.1 * x, t0.0 + t0.1 * x, f1.0 + f1.1 * y, t1.0 + t1.1 * y);
        assert(single_fold(p, xlen, r, h - 1) == st.0 * (f0.0 + f0.1 * x) + (t0.0 + t0.1 * x));
        assert(single_fold(p, xlen, r, h) == single_fold(p, xlen, r, h - 1) * (f1.0 + f1.1 * y) + (t1.0 + t1.1 * y));
        let c = pair_coefficients(p, xlen, h - 2);
        assert(c.2 == (0int, 0int, 0int, 0int));
        let z = bilinear(c.2, r[h - 2], r[h - 1]);
        assert(z == 0);
        assert(st.1 * z == 0) by (nonlinear_arith)
            requires
                z == 0,
        ;
    }
}

/// The zero-above-bound prefix with bound `bound` on the first `h` coordinates is the product of
/// `1 - r_q` over those of significance `>= bound`.
pub proof fn lemma_zero_gt_closed(p: Prefixes, xlen: nat, bound: nat, r: Seq<int>, h: int)
    requires
        p == Prefixes::OpsZeroGtHigh && bound == CLAMP_OPS_UPPER || p == Prefixes::Op1ZeroGtLow && bound
            == CLAMP_OP1_LOWER || p == Prefixes::Op2ZeroGtLow && bound == CLAMP_OP2_LOWER,
        bound < 2 * xlen,
        0 <= h <= r.len(),
    ensures
        single_fold(p, xlen, r, h) == zprod(r, 0, if h < 2 * xlen - bound { h } else { 2 * xlen - bound }),
    decreases h,
{
    if h > 0 {
        lemma_zero_gt_closed(p, xlen, bound, r, h - 1);
        lemma_single_step(p, xlen, r, h);
        let lim = 2 * xlen - bound;
        if h - 1 < lim {
            lemma_zprod_append(r, 0, h - 1);
            assert(zprod(r, 0, h - 1) * (1 - r[h - 1]) == single_fold(p, xlen, r, h - 1) * (1 + (-1) * r[h - 1]));
        } else {
            assert(single_fold(p, xlen, r, h - 1) * (1 + 0 * r[h - 1]) == single_fold(p, xlen, r, h - 1)) by (nonlinear_arith);
        }
    }
}

/// The word-below-bound prefix with bound `bound` on the first `h` coordinates is the binary
/// value of those of significance `< bound`.
pub proof fn lemma_word_lt_closed(p: Prefixes, xlen: nat, bound: nat, r: Seq<int>, h: int)
    requires
        p == Prefixes::OpsWordLtHigh && bound == CLAMP_OPS_UPPER || p == Prefixes::Op1WordLtLow && bound
            == CLAMP_OP1_LOWER || p == Prefixes::Op2WordLtLow && bound == CLAMP_OP2_LOWER,
        bound < 2 * xlen,
        0 <= h <= r.len(),
        h <= 2 * xlen,
    ensures
        single_fold(p, xlen, r, h) == wsum(r, 2 * xlen - bound, h, (2 * xlen) as int),
    decreases h,
{
    if h > 0 {
        lemma_word_lt_closed(p, xlen, bound, r, h - 1);
        lemma_single_step(p, xlen, r, h);
        let lo = 2 * xlen - bound;
        let w = pow2(significance(xlen, h - 1) as nat) as int;
        assert(0 + w * r[h - 1] == r[h - 1] * w) by (nonlinear_arith);
        if h - 1 >= lo {
            lemma_wsum_append(r, lo, h - 1, (2 * xlen) as int);
        }
    }
}

/// The MSB prefix is the sign coordinate once it is in the prefix, 1 before.
pub proof fn lemma_msb_closed(xlen: nat, r: Seq<int>, h: int)
    requires
        0 <= h <= r.len(),
    ensures
        single_fold(Prefixes::Msb, xlen, r, h) == if h > xlen { r[xlen as int] } else { 1 },
        single_fold(Prefixes::NotMsb, xlen, r, h) == if h > xlen { 1 - r[xlen as int] } else { 1 },
    decreases h,
{
    if h > 0 {
        lemma_msb_closed(xlen, r, h - 1);
        lemma_single_step(Prefixes::Msb, xlen, r, h);
        lemma_single_step(Prefixes::NotMsb, xlen, r, h);
        let prev = single_fold(Prefixes::Msb, xlen, r, h - 1);
        let prev2 = single_fold(Prefixes::NotMsb, xlen, r, h - 1);
        let v = r[h - 1];
        assert(prev * (1 + 0 * v) == prev && prev2 * (1 + 0 * v) == prev2) by (nonlinear_arith);
        if h - 1 == xlen {
            assert(prev == 1 && prev2 == 1);
            assert(1 * (0 + 1 * v) == v && 1 * (1 + (-1) * v) == 1 - v) by (nonlinear_arith);
        }
    }
}

/// The lower word without MSB, on the first `h` coordinates, is the binary value of those below
/// the sign coordinate; the not-lower-word prefix is one more than that of their complements,
/// once the sign coordinate is in the prefix, and 0 before.
pub proof fn lemma_lower_word_closed(xlen: nat, r: Seq<int>, h: int)
    requires
        0 <= h <= r.len(),
        h <= 2 * xlen,
    ensures
        single_fold(Prefixes::LowerWordNoMsb, xlen, r, h) == wsum(r, (xlen + 1) as int, h, (2 * xlen) as int),
        single_fold(Prefixes::NotLowerWord, xlen, r, h) == if h > xlen {
            1 + not_wsum(r, (xlen + 1) as int, h, (2 * xlen) as int)
        } else {
            0
        },
    decreases h,
{
    if h > 0 {
        lemma_lower_word_closed(xlen, r, h - 1);
        lemma_single_step(Prefixes::LowerWordNoMsb, xlen, r, h);
        lemma_single_step(Prefixes::NotLowerWord, xlen, r, h);
        let n = (2 * xlen) as int;
        if h - 1 > xlen {
            lemma_wsum_append(r, (xlen + 1) as int, h - 1, n);
            crate::hypercube::lemma_not_wsum_append(r, (xlen + 1) as int, h - 1, n);
            let w = pow2(significance(xlen, h - 1) as nat) as int;
            assert(w == place(n, h - 1));
            assert(w + (-w) * r[h - 1] == (1 - r[h - 1]) * w) by (nonlinear_arith);
            assert(0 + w * r[h - 1] == r[h - 1] * w) by (nonlinear_arith);
        }
    }
}

} // verus!
