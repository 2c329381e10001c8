//! The shared structure of the bitwise lookup tables: their entries combine the two operands
//! interleaved in the index bit by bit, and their MLEs sum a per-bit polynomial.
use crate::hypercube::{affine, bit, bool_point, lemma_affine_add, lemma_affine_const, lemma_affine_scale, lemma_div_pow2_twice, lemma_pow2_succ};
use crate::lookup_tables::prefixes::sparse_dense::{
    bilinear, fold_pairs, lemma_fold_concat, lemma_fold_one_pair, prefix_poly,
};
use crate::lookup_tables::and::AndTable;
use crate::lookup_tables::or::OrTable;
use crate::lookup_tables::prefixes::Prefixes;
use crate::lookup_tables::xor::XorTable;
use crate::lookup_tables::JoltLookupTable;
use vstd::bits::lemma_u32_shr_is_div;
use crate::utils::{even_bits, odd_bits};
use vstd::arithmetic::div_mod::*;
use vstd::arithmetic::mul::*;
use vstd::arithmetic::power2::*;
use vstd::prelude::*;

verus! {

/// The multilinear polynomial of bitwise AND on one bit pair.
pub open spec fn and_poly(a: int, b: int) -> int {
    a * b
}

/// The multilinear polynomial of bitwise OR on one bit pair.
pub open spec fn or_poly(a: int, b: int) -> int {
    a + b - a * b
}

/// The multilinear polynomial of bitwise XOR on one bit pair.
pub open spec fn xor_poly(a: int, b: int) -> int {
    (1 - a) * b + a * (1 - b)
}

/// `∑_{i < m} 2^(x_len-1-i) · g(r_{2i}, r_{2i+1})`: a per-bit polynomial `g` of the operand
/// bit pairs `(x_i, y_i) = (r_{2i}, r_{2i+1})`, most significant pair first.
pub open spec fn pair_sum(r: Seq<int>, m: nat, x_len: nat, g: spec_fn(int, int) -> int) -> int
    decreases m,
{
    if m == 0 {
        0
    } else {
        let i = (m - 1) as nat;
        pair_sum(r, i, x_len, g) + pow2((x_len - 1 - i) as nat) * g(r[2 * i as int], r[2 * i as int + 1])
    }
}

/// `g` applied to the `m` low bit pairs of `z`, packed into an `m`-bit integer: the bitwise
/// combination of the two interleaved operands when `g` is a bitwise operation's polynomial.
pub open spec fn packed_op(z: int, m: nat, g: spec_fn(int, int) -> int) -> int
    decreases m,
{
    if m == 0 {
        0
    } else {
        g((z / 2) % 2, z % 2) + 2 * packed_op(z / 4, (m - 1) as nat, g)
    }
}

/// On the Boolean point of `index`, the first `i` terms of the pair sum are the packed
/// combination of the top `i` bit pairs, scaled to their significance.
pub proof fn lemma_pair_sum_bits(index: int, x_len: nat, i: nat, g: spec_fn(int, int) -> int)
    requires
        0 <= index,
        i <= x_len,
    ensures
        pair_sum(bool_point(index, 2 * x_len), i, x_len, g) == packed_op(
            index / (pow2((2 * (x_len - i)) as nat) as int),
            i,
            g,
        ) * pow2((x_len - i) as nat),
    decreases i,
{
    let r = bool_point(index, 2 * x_len);
    let e = (2 * (x_len - i)) as nat;
    let z = index / (pow2(e) as int);
    lemma_pow2_pos(e);
    if i == 0 {
        lemma_pow2_succ(0);
    } else {
        let i1 = (i - 1) as nat;
        lemma_pair_sum_bits(index, x_len, i1, g);
        lemma_div_pow2_twice(index, e, 2);
        lemma_div_pow2_twice(index, e, 1);
        lemma_pow2_succ(0);
        lemma_pow2_succ(1);
        lemma_pow2_succ((x_len - i) as nat);
        assert((2 * (x_len - i1)) as nat == e + 2);
        assert((x_len - i1) as nat == (x_len - i) as nat + 1);
        assert(r[2 * i1 as int] == bit(index, e + 1));
        assert(r[2 * i1 as int + 1] == bit(index, e));
        let w = pow2((x_len - i) as nat) as int;
        let p = packed_op(z / 4, i1, g);
        let gi = g((z / 2) % 2, z % 2);
        assert(p * (2 * w) + w * gi == (gi + 2 * p) * w) by (nonlinear_arith);
    }
}

pub proof fn lemma_packed_op_of_zero(m: nat, g: spec_fn(int, int) -> int)
    requires
        g(0, 0) == 0,
    ensures
        packed_op(0, m, g) == 0,
    decreases m,
{
    if m > 0 {
        lemma_packed_op_of_zero((m - 1) as nat, g);
    }
}

/// For `z < 4^m`, combining more than `m` bit pairs adds nothing.
pub proof fn lemma_packed_op_high_zero(z: int, m: nat, j: nat, g: spec_fn(int, int) -> int)
    requires
        0 <= z < pow2(2 * m),
        g(0, 0) == 0,
    ensures
        packed_op(z, m + j, g) == packed_op(z, m, g),
    decreases m,
{
    if m == 0 {
        lemma2_to64();
        assert(z == 0);
        lemma_packed_op_of_zero(j, g);
    } else {
        let m1 = (m - 1) as nat;
        lemma_pow2_adds(2 * m1, 2);
        lemma2_to64();
        assert(2 * m == 2 * m1 + 2);
        lemma_div_by_multiple_is_strongly_ordered(z, pow2(2 * m) as int, pow2(2 * m1) as int, 4);
        lemma_div_by_multiple(pow2(2 * m1) as int, 4);
        lemma_packed_op_high_zero(z / 4, m1, j, g);
        assert((m + j - 1) as nat == m1 + j);
    }
}

/// The packed AND, OR and XOR of the operands are the machine's bitwise operations on them.
pub proof fn lemma_packed_ops_are_bitwise(z: int, m: nat)
    requires
        0 <= z,
        m <= 32,
    ensures
        packed_op(z, m, |a: int, b: int| and_poly(a, b)) == ((odd_bits(z, m) as u32) & (even_bits(
            z,
            m,
        ) as u32)) as int,
        packed_op(z, m, |a: int, b: int| or_poly(a, b)) == ((odd_bits(z, m) as u32) | (even_bits(
            z,
            m,
        ) as u32)) as int,
        packed_op(z, m, |a: int, b: int| xor_poly(a, b)) == ((odd_bits(z, m) as u32) ^ (even_bits(
            z,
            m,
        ) as u32)) as int,
    decreases m,
{
    crate::utils::lemma_packed_bits_range(z, m);
    lemma2_to64();
    if m == 0 {
        assert(0u32 & 0u32 == 0u32) by (bit_vector);
        assert(0u32 | 0u32 == 0u32) by (bit_vector);
        assert(0u32 ^ 0u32 == 0u32) by (bit_vector);
    } else {
        let m1 = (m - 1) as nat;
        lemma_packed_ops_are_bitwise(z / 4, m1);
        crate::utils::lemma_packed_bits_range(z / 4, m1);
        lemma_pow2_strictly_increases(m, 33);
        if m < 32 {
            lemma_pow2_strictly_increases(m, 32);
        }
        let x = odd_bits(z, m) as u32;
        let y = even_bits(z, m) as u32;
        let a = (z / 2) % 2;
        let b = z % 2;
        let xs = odd_bits(z / 4, m1);
        let ys = even_bits(z / 4, m1);
        assert(x == a + 2 * xs);
        assert(y == b + 2 * ys);
        lemma_fundamental_div_mod_converse(x as int, 2, xs, a);
        lemma_fundamental_div_mod_converse(y as int, 2, ys, b);
        assert(x & y == (x % 2) * (y % 2) + 2 * ((x / 2) & (y / 2))) by (bit_vector);
        assert(x | y == ((x % 2) + (y % 2) - (x % 2) * (y % 2)) + 2 * ((x / 2) | (y / 2)))
            by (bit_vector);
        assert(x ^ y == ((x % 2) + (y % 2) - 2 * (x % 2) * (y % 2)) + 2 * ((x / 2) ^ (y / 2)))
            by (bit_vector);
        assert((1 - a) * b + a * (1 - b) == a + b - 2 * a * b) by (nonlinear_arith);
    }
}

/// On every point of the Boolean hypercube, the pair sum of a bitwise operation's polynomial
/// is the operation applied to the interleaved operands.
pub proof fn lemma_pair_sum_extends(index: int, x_len: nat)
    requires
        0 <= index < pow2(2 * x_len),
        x_len <= 32,
    ensures
        pair_sum(bool_point(index, 2 * x_len), x_len, x_len, |a: int, b: int| and_poly(a, b))
            == ((odd_bits(index, 32) as u32) & (even_bits(index, 32) as u32)) as int,
        pair_sum(bool_point(index, 2 * x_len), x_len, x_len, |a: int, b: int| or_poly(a, b))
            == ((odd_bits(index, 32) as u32) | (even_bits(index, 32) as u32)) as int,
        pair_sum(bool_point(index, 2 * x_len), x_len, x_len, |a: int, b: int| xor_poly(a, b))
            == ((odd_bits(index, 32) as u32) ^ (even_bits(index, 32) as u32)) as int,
{
    let and_g = |a: int, b: int| and_poly(a, b);
    let or_g = |a: int, b: int| or_poly(a, b);
    let xor_g = |a: int, b: int| xor_poly(a, b);
    lemma2_to64();
    assert((2 * (x_len - x_len)) as nat == 0);
    assert((x_len - x_len) as nat == 0);
    lemma_pair_sum_bits(index, x_len, x_len, and_g);
    lemma_pair_sum_bits(index, x_len, x_len, or_g);
    lemma_pair_sum_bits(index, x_len, x_len, xor_g);
    let j = (32 - x_len) as nat;
    assert(x_len + j == 32);
    lemma_packed_op_high_zero(index, x_len, j, and_g);
    lemma_packed_op_high_zero(index, x_len, j, or_g);
    lemma_packed_op_high_zero(index, x_len, j, xor_g);
    lemma_packed_ops_are_bitwise(index, 32);
    crate::utils::lemma_packed_bits_high_zero(index, x_len, j);
}

/// A pair sum of a polynomial that is affine in each of its two arguments is affine in every
/// coordinate.
pub proof fn lemma_pair_sum_affine(r: Seq<int>, m: nat, x_len: nat, g: spec_fn(int, int) -> int, k: int, t: int)
    requires
        0 <= k < r.len(),
        2 * m <= r.len(),
        forall|b: int, s: int| affine(g(0, b), g(1, b), #[trigger] g(s, b), s),
        forall|a: int, s: int| affine(g(a, 0), g(a, 1), #[trigger] g(a, s), s),
    ensures
        affine(
            pair_sum(r.update(k, 0), m, x_len, g),
            pair_sum(r.update(k, 1), m, x_len, g),
            pair_sum(r.update(k, t), m, x_len, g),
            t,
        ),
    decreases m,
{
    if m == 0 {
        lemma_affine_const(0, t);
    } else {
        let i = (m - 1) as nat;
        lemma_pair_sum_affine(r, i, x_len, g, k, t);
        let xi = 2 * i as int;
        let yi = 2 * i as int + 1;
        let r0 = r.update(k, 0);
        let r1 = r.update(k, 1);
        let rt = r.update(k, t);
        let g0 = g(r0[xi], r0[yi]);
        let g1 = g(r1[xi], r1[yi]);
        let gt = g(rt[xi], rt[yi]);
        if k == xi {
            assert(affine(g(0, r[yi]), g(1, r[yi]), g(t, r[yi]), t));
        } else if k == yi {
            assert(affine(g(r[xi], 0), g(r[xi], 1), g(r[xi], t), t));
        } else {
            lemma_affine_const(g(r[xi], r[yi]), t);
        }
        let w = pow2((x_len - 1 - i) as nat) as int;
        lemma_affine_scale(g0, g1, gt, t, w);
        lemma_affine_add(
            pair_sum(r0, i, x_len, g),
            pair_sum(r1, i, x_len, g),
            pair_sum(rt, i, x_len, g),
            w * g0,
            w * g1,
            w * gt,
            t,
        );
    }
}

/// The AND, OR and XOR polynomials are affine in each argument.
pub proof fn lemma_bit_polys_affine()
    ensures
        forall|b: int, s: int| affine(and_poly(0, b), and_poly(1, b), #[trigger] and_poly(s, b), s),
        forall|a: int, s: int| affine(and_poly(a, 0), and_poly(a, 1), #[trigger] and_poly(a, s), s),
        forall|b: int, s: int| affine(or_poly(0, b), or_poly(1, b), #[trigger] or_poly(s, b), s),
        forall|a: int, s: int| affine(or_poly(a, 0), or_poly(a, 1), #[trigger] or_poly(a, s), s),
        forall|b: int, s: int| affine(xor_poly(0, b), xor_poly(1, b), #[trigger] xor_poly(s, b), s),
        forall|a: int, s: int| affine(xor_poly(a, 0), xor_poly(a, 1), #[trigger] xor_poly(a, s), s),
{
    assert forall|b: int, s: int| affine(and_poly(0, b), and_poly(1, b), #[trigger] and_poly(s, b), s) by {
        assert(s * b == 0 * b + s * (1 * b - 0 * b)) by (nonlinear_arith);
    }
    assert forall|a: int, s: int| affine(and_poly(a, 0), and_poly(a, 1), #[trigger] and_poly(a, s), s) by {
        assert(a * s == a * 0 + s * (a * 1 - a * 0)) by (nonlinear_arith);
    }
    assert forall|b: int, s: int| affine(or_poly(0, b), or_poly(1, b), #[trigger] or_poly(s, b), s) by {
        assert(s + b - s * b == (0 + b - 0 * b) + s * ((1 + b - 1 * b) - (0 + b - 0 * b)))
            by (nonlinear_arith);
    }
    assert forall|a: int, s: int| affine(or_poly(a, 0), or_poly(a, 1), #[trigger] or_poly(a, s), s) by {
        assert(a + s - a * s == (a + 0 - a * 0) + s * ((a + 1 - a * 1) - (a + 0 - a * 0)))
            by (nonlinear_arith);
    }
    assert forall|b: int, s: int| affine(xor_poly(0, b), xor_poly(1, b), #[trigger] xor_poly(s, b), s) by {
        assert((1 - s) * b + s * (1 - b) == ((1 - 0) * b + 0 * (1 - b)) + s * (((1 - 1) * b + 1 * (1
            - b)) - ((1 - 0) * b + 0 * (1 - b)))) by (nonlinear_arith);
    }
    assert forall|a: int, s: int| affine(xor_poly(a, 0), xor_poly(a, 1), #[trigger] xor_poly(a, s), s) by {
        assert((1 - a) * s + a * (1 - s) == ((1 - a) * 0 + a * (1 - 0)) + s * (((1 - a) * 1 + a * (1
            - 1)) - ((1 - a) * 0 + a * (1 - 0)))) by (nonlinear_arith);
    }
}

/// The bitwise prefixes on the first `2i` coordinates of `r` are the pair sums of their bit
/// polynomials over the first `i` bit pairs.
pub proof fn lemma_bitwise_prefixes(xlen: nat, r: Seq<int>, i: nat)
    requires
        2 * i <= r.len(),
        i <= xlen,
    ensures
        prefix_poly(Prefixes::And, xlen, r.subrange(0, (2 * i) as int)) == pair_sum(r, i, xlen, |a: int, b: int| and_poly(a, b)),
        prefix_poly(Prefixes::Or, xlen, r.subrange(0, (2 * i) as int)) == pair_sum(r, i, xlen, |a: int, b: int| or_poly(a, b)),
        prefix_poly(Prefixes::Xor, xlen, r.subrange(0, (2 * i) as int)) == pair_sum(r, i, xlen, |a: int, b: int| xor_poly(a, b)),
    decreases i,
{
    if i > 0 {
        lemma_bitwise_prefixes(xlen, r, (i - 1) as nat);
        let h = (2 * i) as int;
        let u = r.subrange(0, h - 2);
        let x = r[h - 2];
        let y = r[h - 1];
        assert(u + seq![x, y] =~= r.subrange(0, h));
        assert(r.subrange(0, (2 * (i - 1)) as int) == u);
        assert((h - 2) / 2 == i - 1);
        let w = pow2((xlen - 1 - (i - 1)) as nat) as int;
        let st = (0int, 1int);
        lemma_fold_concat(Prefixes::And, xlen, st, 0, u, seq![x, y]);
        lemma_fold_concat(Prefixes::Or, xlen, st, 0, u, seq![x, y]);
        lemma_fold_concat(Prefixes::Xor, xlen, st, 0, u, seq![x, y]);
        let fa = fold_pairs(Prefixes::And, xlen, st, 0, u);
        let fo = fold_pairs(Prefixes::Or, xlen, st, 0, u);
        let fx = fold_pairs(Prefixes::Xor, xlen, st, 0, u);
        lemma_fold_one_pair(Prefixes::And, xlen, fa, h - 2, x, y);
        lemma_fold_one_pair(Prefixes::Or, xlen, fo, h - 2, x, y);
        lemma_fold_one_pair(Prefixes::Xor, xlen, fx, h - 2, x, y);
        assert(2 * (i - 1) as int == h - 2);
        assert(fa.0 * bilinear((1, 0, 0, 0), x, y) + bilinear((0, 0, 0, w), x, y) + fa.1 * bilinear((0, 0, 0, 0), x, y)
            == fa.0 + w * and_poly(x, y)) by (nonlinear_arith);
        assert(fo.0 * bilinear((1, 0, 0, 0), x, y) + bilinear((0, w, w, -w), x, y) + fo.1 * bilinear((0, 0, 0, 0), x, y)
            == fo.0 + w * or_poly(x, y)) by (nonlinear_arith);
        assert(fx.0 * bilinear((1, 0, 0, 0), x, y) + bilinear((0, w, w, -2 * w), x, y) + fx.1 * bilinear((0, 0, 0, 0), x, y)
            == fx.0 + w * xor_poly(x, y)) by (nonlinear_arith);
    }
}

/// A pair sum splits at a whole number of pairs: the first `i` pairs, then the next `j`, which
/// are those of `w` at the significances that remain.
pub proof fn lemma_pair_sum_split(u: Seq<int>, w: Seq<int>, i: nat, j: nat, x_len: nat, g: spec_fn(int, int) -> int)
    requires
        u.len() == 2 * i,
        2 * j <= w.len(),
        i + j <= x_len,
    ensures
        pair_sum(u + w, i + j, x_len, g) == pair_sum(u + w, i, x_len, g) + pair_sum(w, j, (x_len - i) as nat, g),
    decreases j,
{
    if j > 0 {
        lemma_pair_sum_split(u, w, i, (j - 1) as nat, x_len, g);
        let t = (i + j - 1) as nat;
        assert(t == i + (j - 1) as nat);
        assert((u + w)[2 * t as int] == w[2 * (j - 1) as int]);
        assert((u + w)[2 * t as int + 1] == w[2 * (j - 1) as int + 1]);
        assert((x_len - 1 - t) as nat == ((x_len - i) as nat - 1 - (j - 1) as nat) as nat);
    }
}

/// On the Boolean point of a suffix `s` of `j` bit pairs, the pair sums are the bitwise
/// operations on the two operands interleaved in `s`.
pub proof fn lemma_bitwise_suffix(s: int, j: nat)
    requires
        0 <= s < pow2(2 * j),
        j <= 32,
    ensures
        pair_sum(bool_point(s, 2 * j), j, j, |a: int, b: int| and_poly(a, b)) == ((odd_bits(s, 32) as u32) & (
        even_bits(s, 32) as u32)) as int,
        pair_sum(bool_point(s, 2 * j), j, j, |a: int, b: int| or_poly(a, b)) == ((odd_bits(s, 32) as u32) | (
        even_bits(s, 32) as u32)) as int,
        pair_sum(bool_point(s, 2 * j), j, j, |a: int, b: int| xor_poly(a, b)) == ((odd_bits(s, 32) as u32) ^ (
        even_bits(s, 32) as u32)) as int,
{
    let ga = |a: int, b: int| and_poly(a, b);
    let go = |a: int, b: int| or_poly(a, b);
    let gx = |a: int, b: int| xor_poly(a, b);
    lemma_pair_sum_bits(s, j, j, ga);
    lemma_pair_sum_bits(s, j, j, go);
    lemma_pair_sum_bits(s, j, j, gx);
    assert((2 * (j - j)) as nat == 0 && (j - j) as nat == 0);
    lemma_pow2_succ(0);
    assert(s / 1 == s);
    assert(ga(0, 0) == 0 && go(0, 0) == 0 && gx(0, 0) == 0);
    lemma_packed_op_high_zero(s, j, (32 - j) as nat, ga);
    lemma_packed_op_high_zero(s, j, (32 - j) as nat, go);
    lemma_packed_op_high_zero(s, j, (32 - j) as nat, gx);
    assert(j + (32 - j) as nat == 32);
    lemma_packed_ops_are_bitwise(s, 32);
    let bp = bool_point(s, 2 * j);
    assert(pow2(0) == 1);
    lemma_mul_basics(packed_op(s, j, ga));
    lemma_mul_basics(packed_op(s, j, go));
    lemma_mul_basics(packed_op(s, j, gx));
    assert(packed_op(s, j + (32 - j) as nat, ga) == packed_op(s, j, ga));
    assert(pair_sum(bp, j, j, ga) == packed_op(s, 32, ga));
    assert(pair_sum(bp, j, j, go) == packed_op(s, 32, go));
    assert(pair_sum(bp, j, j, gx) == packed_op(s, 32, gx));
}

/// A 32-bit word is below `2^e` exactly when shifting it right by `e` leaves 0.
proof fn lemma_below_iff_shr_zero(v: u32, e: u32)
    requires
        e < 32,
    ensures
        (v < pow2(e as nat)) == (v >> e == 0),
{
    lemma_u32_shr_is_div(v, e);
    lemma_pow2_pos(e as nat);
    let p = pow2(e as nat) as int;
    if v < p {
        lemma_basic_div(v as int, p);
    } else {
        lemma_div_non_zero(v as int, p);
    }
}

/// For any two operands, interleaved in `index` and, swapped, in `swapped`: the AND, OR and XOR
/// tables hold the operands' bitwise AND, OR and XOR; their entries do not change when the
/// operands swap; the OR entry is the AND entry plus the XOR entry; and where both operands are
/// below `2^XLEN`, so is every entry.
pub proof fn lemma_bitwise_entries<const XLEN: usize>(x: u32, y: u32, index: u64, swapped: u64)
    requires
        odd_bits(index as int, 32) == x,
        even_bits(index as int, 32) == y,
        odd_bits(swapped as int, 32) == y,
        even_bits(swapped as int, 32) == x,
    ensures
        AndTable::<XLEN>.entry(index) == (x & y) as int,
        OrTable::<XLEN>.entry(index) == (x | y) as int,
        XorTable::<XLEN>.entry(index) == (x ^ y) as int,
        AndTable::<XLEN>.entry(swapped) == AndTable::<XLEN>.entry(index),
        OrTable::<XLEN>.entry(swapped) == OrTable::<XLEN>.entry(index),
        XorTable::<XLEN>.entry(swapped) == XorTable::<XLEN>.entry(index),
        OrTable::<XLEN>.entry(index) == AndTable::<XLEN>.entry(index) + XorTable::<XLEN>.entry(index),
        XLEN <= 32 && x < pow2(XLEN as nat) && y < pow2(XLEN as nat) ==> {
            &&& AndTable::<XLEN>.entry(index) < pow2(XLEN as nat)
            &&& OrTable::<XLEN>.entry(index) < pow2(XLEN as nat)
            &&& XorTable::<XLEN>.entry(index) < pow2(XLEN as nat)
        },
{
    assert(x & y == y & x && x | y == y | x && x ^ y == y ^ x) by (bit_vector);
    assert((x | y) as int == (x & y) as int + (x ^ y) as int) by (bit_vector);
    if XLEN <= 32 && x < pow2(XLEN as nat) && y < pow2(XLEN as nat) {
        if XLEN < 32 {
            let e = XLEN as u32;
            lemma_below_iff_shr_zero(x, e);
            lemma_below_iff_shr_zero(y, e);
            lemma_below_iff_shr_zero(x & y, e);
            lemma_below_iff_shr_zero(x | y, e);
            lemma_below_iff_shr_zero(x ^ y, e);
            assert((x >> e) == 0 && (y >> e) == 0 ==> ((x & y) >> e) == 0 && ((x | y) >> e) == 0 && ((x ^ y)
                >> e) == 0) by (bit_vector);
        } else {
            lemma2_to64();
        }
    }
}

} // verus!
