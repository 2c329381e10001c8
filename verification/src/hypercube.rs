//! Points of the Boolean hypercube and the polynomial building blocks of
//! lookup-table multilinear extensions, with the facts that relate them.
//!
//! A point `r` has `n` coordinates; coordinate `i` stands for the bit of
//! significance `n - 1 - i` (the most significant bit comes first).
use vstd::arithmetic::div_mod::*;
use vstd::arithmetic::mul::*;
use vstd::arithmetic::power2::*;
use vstd::prelude::*;

verus! {

/// Bit `k` of a non-negative integer.
pub open spec fn bit(x: int, k: nat) -> int {
    (x / (pow2(k) as int)) % 2
}

/// The `n`-coordinate Boolean point of the low `n` bits of `x`, most significant bit first.
pub open spec fn bool_point(x: int, n: nat) -> Seq<int> {
    Seq::new(n, |i: int| bit(x, (n - 1 - i) as nat))
}

/// The weight of coordinate `i` in an `n`-coordinate point: `2^(n - 1 - i)`.
pub open spec fn place(n: int, i: int) -> int {
    pow2((n - 1 - i) as nat) as int
}

/// `∑_{lo <= i < hi} r_i · 2^(n-1-i)`: the binary value of coordinates `[lo, hi)`.
pub open spec fn wsum(r: Seq<int>, lo: int, hi: int, n: int) -> int
    decreases hi - lo,
{
    if lo >= hi {
        0
    } else {
        r[lo] * place(n, lo) + wsum(r, lo + 1, hi, n)
    }
}

/// `∑_{lo <= i < hi} (1 - r_i) · 2^(n-1-i)`: the binary value of the complemented coordinates.
pub open spec fn not_wsum(r: Seq<int>, lo: int, hi: int, n: int) -> int
    decreases hi - lo,
{
    if lo >= hi {
        0
    } else {
        (1 - r[lo]) * place(n, lo) + not_wsum(r, lo + 1, hi, n)
    }
}

/// `∏_{lo <= i < hi} (1 - r_i)`: on Boolean points, whether coordinates `[lo, hi)` are all zero.
pub open spec fn zprod(r: Seq<int>, lo: int, hi: int) -> int
    decreases hi - lo,
{
    if lo >= hi {
        1
    } else {
        (1 - r[lo]) * zprod(r, lo + 1, hi)
    }
}

/// A value `ft`, taken at `t`, is the affine interpolation of its values `f0` at 0 and `f1` at 1.
pub open spec fn affine(f0: int, f1: int, ft: int, t: int) -> bool {
    ft == f0 + t * (f1 - f0)
}

pub proof fn lemma_pow2_succ(e: nat)
    ensures
        pow2(e + 1) == 2 * pow2(e),
        pow2(0) == 1,
        pow2(e) > 0,
{
    lemma_pow2_unfold(e + 1);
    lemma_pow2_pos(e);
    lemma2_to64();
}

pub proof fn lemma_wsum_append(r: Seq<int>, lo: int, hi: int, n: int)
    requires
        lo <= hi,
    ensures
        wsum(r, lo, hi + 1, n) == wsum(r, lo, hi, n) + r[hi] * place(n, hi),
    decreases hi - lo,
{
    if lo < hi {
        lemma_wsum_append(r, lo + 1, hi, n);
    } else {
        assert(wsum(r, lo + 1, hi + 1, n) == 0);
    }
}

pub proof fn lemma_not_wsum_append(r: Seq<int>, lo: int, hi: int, n: int)
    requires
        lo <= hi,
    ensures
        not_wsum(r, lo, hi + 1, n) == not_wsum(r, lo, hi, n) + (1 - r[hi]) * place(n, hi),
    decreases hi - lo,
{
    if lo < hi {
        lemma_not_wsum_append(r, lo + 1, hi, n);
    } else {
        assert(not_wsum(r, lo + 1, hi + 1, n) == 0);
    }
}

pub proof fn lemma_zprod_append(r: Seq<int>, lo: int, hi: int)
    requires
        lo <= hi,
    ensures
        zprod(r, lo, hi + 1) == zprod(r, lo, hi) * (1 - r[hi]),
    decreases hi - lo,
{
    if lo < hi {
        lemma_zprod_append(r, lo + 1, hi);
        lemma_mul_is_associative(1 - r[lo], zprod(r, lo + 1, hi), 1 - r[hi]);
    } else {
        assert(zprod(r, lo + 1, hi + 1) == 1);
    }
}

/// `wsum` over adjacent ranges adds.
pub proof fn lemma_wsum_split(r: Seq<int>, a: int, b: int, c: int, n: int)
    requires
        a <= b <= c,
    ensures
        wsum(r, a, b, n) + wsum(r, b, c, n) == wsum(r, a, c, n),
    decreases b - a,
{
    if a < b {
        lemma_wsum_split(r, a + 1, b, c, n);
    }
}

/// On a Boolean point, every binary value is non-negative.
pub proof fn lemma_wsum_bits_nonneg(x: int, n: nat, lo: int, hi: int)
    requires
        0 <= lo,
        hi <= n,
    ensures
        wsum(bool_point(x, n), lo, hi, n as int) >= 0,
    decreases hi - lo,
{
    if lo < hi {
        lemma_wsum_bits_nonneg(x, n, lo + 1, hi);
        lemma_pow2_pos((n - 1 - lo) as nat);
        let b = bool_point(x, n)[lo];
        assert(b >= 0);
        assert(b * place(n as int, lo) >= 0) by (nonlinear_arith)
            requires
                b >= 0,
                place(n as int, lo) > 0,
        ;
    }
}

/// `not_wsum` over adjacent ranges adds.
pub proof fn lemma_not_wsum_split(r: Seq<int>, a: int, b: int, c: int, n: int)
    requires
        a <= b <= c,
    ensures
        not_wsum(r, a, b, n) + not_wsum(r, b, c, n) == not_wsum(r, a, c, n),
    decreases b - a,
{
    if a < b {
        lemma_not_wsum_split(r, a + 1, b, c, n);
    }
}

/// `zprod` over adjacent ranges multiplies.
pub proof fn lemma_zprod_split(r: Seq<int>, a: int, b: int, c: int)
    requires
        a <= b <= c,
    ensures
        zprod(r, a, b) * zprod(r, b, c) == zprod(r, a, c),
    decreases b - a,
{
    if a < b {
        lemma_zprod_split(r, a + 1, b, c);
        lemma_mul_is_associative(1 - r[a], zprod(r, a + 1, b), zprod(r, b, c));
    }
}

/// On the Boolean point of `x`, the binary value of the trailing coordinates `[lo, n)`
/// is `x mod 2^(n - lo)`.
pub proof fn lemma_wsum_bits(x: int, n: nat, lo: int)
    requires
        0 <= x,
        0 <= lo <= n,
    ensures
        wsum(bool_point(x, n), lo, n as int, n as int) == x % (pow2((n - lo) as nat) as int),
    decreases n - lo,
{
    let r = bool_point(x, n);
    if lo == n {
        lemma_pow2_succ(0);
    } else {
        let m = (n - 1 - lo) as nat;
        lemma_wsum_bits(x, n, lo + 1);
        assert(r[lo] == bit(x, m));
        lemma_pow2_succ(m);
        assert((n - lo) as nat == m + 1);
        lemma_mod_breakdown(x, pow2(m) as int, 2);
        lemma_mul_is_commutative(pow2(m) as int, 2);
        lemma_mul_is_commutative(pow2(m) as int, bit(x, m));
    }
}

/// `x / 2^a / 2^b == x / 2^(a + b)`.
pub proof fn lemma_div_pow2_twice(x: int, a: nat, b: nat)
    requires
        0 <= x,
    ensures
        (x / (pow2(a) as int)) / (pow2(b) as int) == x / (pow2(a + b) as int),
{
    lemma_pow2_pos(a);
    lemma_pow2_pos(b);
    lemma_pow2_adds(a, b);
    lemma_div_denominator(x, pow2(a) as int, pow2(b) as int);
}

/// On the Boolean point of `x`, the product of the complemented coordinates `[lo, hi)`
/// is 1 exactly when the bits of `x` at those coordinates are all zero, and 0 otherwise.
pub proof fn lemma_zprod_bits(x: int, n: nat, lo: int, hi: int)
    requires
        0 <= x,
        0 <= lo <= hi <= n,
    ensures
        zprod(bool_point(x, n), lo, hi) == (if (x / (pow2((n - hi) as nat) as int)) % (pow2(
            (hi - lo) as nat,
        ) as int) == 0 {
            1int
        } else {
            0int
        }),
    decreases hi - lo,
{
    let r = bool_point(x, n);
    let y = x / (pow2((n - hi) as nat) as int);
    lemma_pow2_pos((n - hi) as nat);
    if lo == hi {
        lemma_pow2_succ(0);
    } else {
        let m = (hi - lo) as nat;
        lemma_zprod_bits(x, n, lo + 1, hi);
        let m1 = (m - 1) as nat;
        assert((n - 1 - lo) as nat == (n - hi) as nat + m1);
        lemma_div_pow2_twice(x, (n - hi) as nat, m1);
        assert(r[lo] == bit(x, (n - 1 - lo) as nat));
        assert(r[lo] == (y / (pow2(m1) as int)) % 2);
        lemma_pow2_succ(m1);
        assert(m == m1 + 1);
        assert(y >= 0);
        lemma_mod_breakdown(y, pow2(m1) as int, 2);
        lemma_mul_is_commutative(pow2(m1) as int, 2);
        let b = (y / (pow2(m1) as int)) % 2;
        let low = y % (pow2(m1) as int);
        assert(y % (pow2(m) as int) == pow2(m1) * b + low);
        assert(0 <= b < 2);
        assert(0 <= low);
        if b == 0 {
            assert(pow2(m1) * b == 0) by (nonlinear_arith)
                requires
                    b == 0,
            ;
        } else {
            assert(pow2(m1) * b == pow2(m1)) by (nonlinear_arith)
                requires
                    b == 1,
            ;
        }
    }
}

/// For `x < 2^n`, the product of the complemented coordinates `[0, hi)` of the Boolean point
/// of `x` is 1 exactly when `x < 2^(n - hi)`.
pub proof fn lemma_zprod_prefix_bits(x: int, n: nat, hi: int)
    requires
        0 <= x < pow2(n),
        0 <= hi <= n,
    ensures
        zprod(bool_point(x, n), 0, hi) == (if x < pow2((n - hi) as nat) {
            1int
        } else {
            0int
        }),
{
    lemma_zprod_bits(x, n, 0, hi);
    let d = pow2((n - hi) as nat) as int;
    let y = x / d;
    lemma_pow2_pos((n - hi) as nat);
    lemma_pow2_adds((n - hi) as nat, hi as nat);
    assert((n - hi) as nat + hi as nat == n);
    assert(y < pow2(hi as nat)) by {
        lemma_div_by_multiple_is_strongly_ordered(x, pow2(n) as int, pow2(hi as nat) as int, d);
        lemma_mul_is_commutative(d, pow2(hi as nat) as int);
        lemma_div_by_multiple(pow2(hi as nat) as int, d);
    }
    lemma_small_mod(y as nat, pow2(hi as nat));
    if x < d {
        lemma_basic_div(x, d);
    } else {
        lemma_div_non_zero(x, d);
    }
}

/// The binary value of a range plus that of its complement is the sum of the range's weights.
pub proof fn lemma_not_wsum_complement(r: Seq<int>, lo: int, hi: int, n: int)
    requires
        lo <= hi <= n,
    ensures
        not_wsum(r, lo, hi, n) + wsum(r, lo, hi, n) == pow2((n - lo) as nat) - pow2(
            (n - hi) as nat,
        ),
    decreases hi - lo,
{
    if lo < hi {
        lemma_not_wsum_complement(r, lo + 1, hi, n);
        lemma_pow2_succ((n - 1 - lo) as nat);
        assert((n - 1 - lo) as nat + 1 == (n - lo) as nat);
        assert((1 - r[lo]) * place(n, lo) + r[lo] * place(n, lo) == place(n, lo)) by (nonlinear_arith)
        ;
    }
}

/// Changing a coordinate outside `[lo, hi)` changes none of the building blocks over `[lo, hi)`.
pub proof fn lemma_frame(r: Seq<int>, lo: int, hi: int, n: int, k: int, t: int)
    requires
        0 <= k < r.len(),
        0 <= lo,
        hi <= r.len(),
        k < lo || k >= hi,
    ensures
        wsum(r.update(k, t), lo, hi, n) == wsum(r, lo, hi, n),
        not_wsum(r.update(k, t), lo, hi, n) == not_wsum(r, lo, hi, n),
        zprod(r.update(k, t), lo, hi) == zprod(r, lo, hi),
    decreases hi - lo,
{
    if lo < hi {
        lemma_frame(r, lo + 1, hi, n, k, t);
    }
}

/// `wsum` is affine in every coordinate, with slope the coordinate's weight inside the range.
pub proof fn lemma_wsum_update(r: Seq<int>, lo: int, hi: int, n: int, k: int, t: int)
    requires
        0 <= k < r.len(),
        0 <= lo,
        hi <= r.len(),
    ensures
        wsum(r.update(k, t), lo, hi, n) == wsum(r.update(k, 0), lo, hi, n) + t * (if lo <= k
            < hi {
            place(n, k)
        } else {
            0
        }),
    decreases hi - lo,
{
    if lo < hi {
        lemma_wsum_update(r, lo + 1, hi, n, k, t);
    }
}

/// `not_wsum` is affine in every coordinate, with slope minus the coordinate's weight inside the range.
pub proof fn lemma_not_wsum_update(r: Seq<int>, lo: int, hi: int, n: int, k: int, t: int)
    requires
        0 <= k < r.len(),
        0 <= lo,
        hi <= r.len(),
    ensures
        not_wsum(r.update(k, t), lo, hi, n) == not_wsum(r.update(k, 0), lo, hi, n) - t * (if lo
            <= k < hi {
            place(n, k)
        } else {
            0
        }),
    decreases hi - lo,
{
    if lo < hi {
        lemma_not_wsum_update(r, lo + 1, hi, n, k, t);
        if lo == k {
            assert((1 - t) * place(n, k) == (1 - 0) * place(n, k) - t * place(n, k))
                by (nonlinear_arith);
        }
    }
}

/// `zprod` is affine in every coordinate.
pub proof fn lemma_zprod_update(r: Seq<int>, lo: int, hi: int, k: int, t: int)
    requires
        0 <= k < r.len(),
        0 <= lo,
        hi <= r.len(),
    ensures
        affine(
            zprod(r.update(k, 0), lo, hi),
            zprod(r.update(k, 1), lo, hi),
            zprod(r.update(k, t), lo, hi),
            t,
        ),
    decreases hi - lo,
{
    if lo < hi {
        lemma_zprod_update(r, lo + 1, hi, k, t);
        let a0 = zprod(r.update(k, 0), lo + 1, hi);
        let a1 = zprod(r.update(k, 1), lo + 1, hi);
        let at = zprod(r.update(k, t), lo + 1, hi);
        assert(zprod(r.update(k, t), lo, hi) == (1 - r.update(k, t)[lo]) * at);
        assert(zprod(r.update(k, 0), lo, hi) == (1 - r.update(k, 0)[lo]) * a0);
        assert(zprod(r.update(k, 1), lo, hi) == (1 - r.update(k, 1)[lo]) * a1);
        if lo == k {
            lemma_frame(r.update(k, 0), lo + 1, hi, 0, k, t);
            lemma_frame(r.update(k, 0), lo + 1, hi, 0, k, 1);
            assert(r.update(k, 0).update(k, t) =~= r.update(k, t));
            assert(r.update(k, 0).update(k, 1) =~= r.update(k, 1));
            assert(a1 == a0 && at == a0);
            assert((1 - t) * a0 == (1 - 0) * a0 + t * ((1 - 1) * a0 - (1 - 0) * a0))
                by (nonlinear_arith);
        } else {
            let c = r[lo];
            assert(r.update(k, t)[lo] == c);
            assert(r.update(k, 0)[lo] == c);
            assert(r.update(k, 1)[lo] == c);
            assert((1 - c) * at == (1 - c) * a0 + t * ((1 - c) * a1 - (1 - c) * a0))
                by (nonlinear_arith)
                requires
                    at == a0 + t * (a1 - a0),
            ;
        }
    } else {
        lemma_affine_const(1, t);
    }
}

/// A product of a factor affine in `t` and a factor that does not depend on `t` is affine.
pub proof fn lemma_affine_scale(f0: int, f1: int, ft: int, t: int, c: int)
    requires
        affine(f0, f1, ft, t),
    ensures
        affine(f0 * c, f1 * c, ft * c, t),
        affine(c * f0, c * f1, c * ft, t),
{
    assert(ft * c == f0 * c + t * (f1 * c - f0 * c)) by (nonlinear_arith)
        requires
            ft == f0 + t * (f1 - f0),
    ;
    assert(c * ft == c * f0 + t * (c * f1 - c * f0)) by (nonlinear_arith)
        requires
            ft == f0 + t * (f1 - f0),
    ;
}

/// Sums of affine values are affine; constants are affine.
pub proof fn lemma_affine_add(f0: int, f1: int, ft: int, g0: int, g1: int, gt: int, t: int)
    requires
        affine(f0, f1, ft, t),
        affine(g0, g1, gt, t),
    ensures
        affine(f0 + g0, f1 + g1, ft + gt, t),
        affine(f0 - g0, f1 - g1, ft - gt, t),
{
    assert(ft + gt == (f0 + g0) + t * ((f1 + g1) - (f0 + g0))) by (nonlinear_arith)
        requires
            ft == f0 + t * (f1 - f0),
            gt == g0 + t * (g1 - g0),
    ;
    assert(ft - gt == (f0 - g0) + t * ((f1 - g1) - (f0 - g0))) by (nonlinear_arith)
        requires
            ft == f0 + t * (f1 - f0),
            gt == g0 + t * (g1 - g0),
    ;
}

/// A product of two affine values of which one does not depend on `t` is affine.
pub proof fn lemma_affine_mul(f0: int, f1: int, ft: int, g0: int, g1: int, gt: int, t: int)
    requires
        affine(f0, f1, ft, t),
        affine(g0, g1, gt, t),
        (f0 == f1 && f1 == ft) || (g0 == g1 && g1 == gt),
    ensures
        affine(f0 * g0, f1 * g1, ft * gt, t),
{
    if f0 == f1 && f1 == ft {
        lemma_affine_scale(g0, g1, gt, t, f0);
    } else {
        lemma_affine_scale(f0, f1, ft, t, g0);
    }
}

pub proof fn lemma_affine_const(c: int, t: int)
    ensures
        affine(c, c, c, t),
{
    assert(c == c + t * (c - c)) by (nonlinear_arith);
}

/// `wsum` and `not_wsum` are affine in every coordinate.
pub proof fn lemma_wsum_affine(r: Seq<int>, lo: int, hi: int, n: int, k: int, t: int)
    requires
        0 <= k < r.len(),
        0 <= lo,
        hi <= r.len(),
    ensures
        affine(
            wsum(r.update(k, 0), lo, hi, n),
            wsum(r.update(k, 1), lo, hi, n),
            wsum(r.update(k, t), lo, hi, n),
            t,
        ),
        affine(
            not_wsum(r.update(k, 0), lo, hi, n),
            not_wsum(r.update(k, 1), lo, hi, n),
            not_wsum(r.update(k, t), lo, hi, n),
            t,
        ),
{
    lemma_wsum_update(r, lo, hi, n, k, t);
    lemma_wsum_update(r, lo, hi, n, k, 1);
    lemma_not_wsum_update(r, lo, hi, n, k, t);
    lemma_not_wsum_update(r, lo, hi, n, k, 1);
    let d = if lo <= k < hi {
        place(n, k)
    } else {
        0
    };
    assert(t * d == t * (1 * d)) by (nonlinear_arith);
    assert(-(t * d) == t * (-(1 * d))) by (nonlinear_arith);
}

/// The building blocks over a range of the tail `w` of the point `u + w` are those of `w` over
/// the range shifted by `u.len()`.
pub proof fn lemma_shift(u: Seq<int>, w: Seq<int>, lo: int, hi: int, n: int)
    requires
        0 <= lo,
        hi <= w.len(),
    ensures
        wsum(u + w, u.len() + lo, u.len() + hi, u.len() + n) == wsum(w, lo, hi, n),
        not_wsum(u + w, u.len() + lo, u.len() + hi, u.len() + n) == not_wsum(w, lo, hi, n),
        zprod(u + w, u.len() + lo, u.len() + hi) == zprod(w, lo, hi),
    decreases hi - lo,
{
    if lo < hi {
        lemma_shift(u, w, lo + 1, hi, n);
        assert((u + w)[u.len() + lo] == w[lo]);
        assert(place(u.len() + n, u.len() + lo) == place(n, lo));
    }
}

/// On a point whose last `k` coordinates are the Boolean point of `s < 2^k`, the building blocks
/// over the trailing coordinates are the values of bits of `s`: the binary value from `lo` on is
/// `s mod 2^(n - lo)`, that of the complements is `2^(n - lo) - 1` minus it, and the product of
/// the complements of `[m, hi)` is 1 exactly when `s < 2^(n - hi)`.
pub proof fn lemma_boolean_tail(u: Seq<int>, s: int, k: nat, lo: int)
    requires
        0 <= s < pow2(k),
        u.len() <= lo <= u.len() + k,
    ensures
        ({
            let r = u + bool_point(s, k);
            let n = (u.len() + k) as int;
            &&& wsum(r, lo, n, n) == s % (pow2((n - lo) as nat) as int)
            &&& not_wsum(r, lo, n, n) == (pow2((n - lo) as nat) - 1) - s % (pow2((n - lo) as nat) as int)
            &&& zprod(r, u.len() as int, lo) == if s < pow2((n - lo) as nat) { 1int } else { 0int }
        }),
{
    let w = bool_point(s, k);
    let m = u.len() as int;
    lemma_shift(u, w, lo - m, k as int, k as int);
    lemma_shift(u, w, 0, lo - m, k as int);
    lemma_wsum_bits(s, k, lo - m);
    lemma_not_wsum_complement(w, lo - m, k as int, k as int);
    lemma_pow2_succ(0);
    lemma_zprod_prefix_bits(s, k, lo - m);
    assert((k - (lo - m)) as nat == (m + k - lo) as nat);
}

} // verus!
