//! Word and bit utilities shared by the lookup tables.
use crate::field::{lemma_field_basics, vals, JoltField};
use crate::hypercube::{bit, bool_point, lemma_div_pow2_twice};
use vstd::arithmetic::div_mod::*;
use vstd::arithmetic::mul::*;
use vstd::arithmetic::power2::*;
use vstd::bits::*;
use vstd::prelude::*;

pub mod lookup_bits;

verus! {

/// The value of `1 << e` as a 64-bit unsigned word: `2^e`.
pub fn pow2_word(e: usize) -> (r: u64)
    requires
        e < 64,
    ensures
        r == pow2(e as nat),
{
    proof {
        lemma_u64_pow2_no_overflow(e as nat);
        lemma_u64_shl_is_mul(1, e as u64);
    }
    1u64 << (e as u64)
}

/// The value of the 64-bit signed expression `1 << e`: `2^e`, except that `1 << 63` wraps to `-2^63`.
pub open spec fn signed_pow2(e: nat) -> int {
    if e < 63 {
        pow2(e) as int
    } else {
        -(pow2(63) as int)
    }
}

/// The value of `1 << e` as a 64-bit signed word.
pub fn signed_pow2_word(e: usize) -> (r: i64)
    requires
        e < 64,
    ensures
        r == signed_pow2(e as nat),
{
    if e < 63 {
        let w = pow2_word(e);
        proof {
            lemma_pow2_strictly_increases(e as nat, 63);
            lemma2_to64_rest();
        }
        w as i64
    } else {
        proof {
            lemma2_to64_rest();
        }
        i64::MIN
    }
}

/// The Boolean point of the low `len` bits of `index`, most significant bit first, as field elements.
pub fn index_to_field_bitvector<F: JoltField>(index: u64, len: usize) -> (r: Vec<F>)
    requires
        len <= 64,
    ensures
        vals(r@) == bool_point(index as int, len as nat),
{
    let mut r: Vec<F> = Vec::new();
    let mut i: usize = 0;
    while i < len
        invariant
            i <= len <= 64,
            r@.len() == i,
            forall|j: int| 0 <= j < i ==> #[trigger] r@[j].val() == bit(index as int, (len - 1 - j) as nat),
        decreases len - i,
    {
        let e: u64 = (len - 1 - i) as u64;
        let b: u64 = (index >> e) & 1;
        proof {
            lemma_field_basics::<F>();
            lemma_u64_shr_is_div(index, e);
            assert((index >> e) & 1 == (index >> e) % 2) by (bit_vector);
        }
        r.push(F::from_u64(b));
        i += 1;
    }
    proof {
        assert(vals(r@) =~= bool_point(index as int, len as nat));
    }
    r
}

/// Bit `k` of a 64-bit word.
pub fn word_bit(index: u64, k: usize) -> (b: u64)
    requires
        k < 64,
    ensures
        b == bit(index as int, k as nat),
        b <= 1,
{
    let s: u64 = index >> (k as u64);
    proof {
        lemma_u64_shr_is_div(index, k as u64);
        assert(s & 1 == s % 2) by (bit_vector);
    }
    s & 1
}

/// The complement of a word, reduced modulo `2^e`, complements the word's low `e` bits.
pub proof fn lemma_not_mod_pow2(index: u64, e: nat)
    requires
        e <= 64,
    ensures
        (!index) as int % (pow2(e) as int) == pow2(e) - 1 - index as int % (pow2(e) as int),
{
    let d = pow2(e) as int;
    lemma_pow2_pos(e);
    assert(!index == 0xffff_ffff_ffff_ffffu64 - index) by (bit_vector);
    lemma2_to64_rest();
    lemma_pow2_adds(e, (64 - e) as nat);
    assert(e + (64 - e) as nat == 64);
    let q = pow2((64 - e) as nat) as int;
    lemma_pow2_pos((64 - e) as nat);
    lemma_fundamental_div_mod(index as int, d);
    let iq = index as int / d;
    let ir = index as int % d;
    assert(0 <= ir < d);
    // 2^64 - 1 - index == d * (q - 1 - iq) + (d - 1 - ir)
    assert(d * q == 0x1_0000_0000_0000_0000int);
    assert((!index) as int == d * (q - 1 - iq) + (d - 1 - ir)) by (nonlinear_arith)
        requires
            (!index) as int == 0xffff_ffff_ffff_ffffint - index as int,
            index as int == d * iq + ir,
            d * q == 0x1_0000_0000_0000_0000int,
    ;
    lemma_mul_is_commutative(d, q - 1 - iq);
    lemma_fundamental_div_mod_converse_mod((!index) as int, d, q - 1 - iq, d - 1 - ir);
}

/// The two's-complement value of the low `x_len` bits of `index` (`x_len >= 1`).
pub open spec fn signed_word(index: int, x_len: nat) -> int {
    let low = index % (pow2(x_len) as int);
    if low >= pow2((x_len - 1) as nat) {
        low - pow2(x_len)
    } else {
        low
    }
}

/// The sign bit (bit `x_len - 1`) of `index` is set exactly when its low `x_len` bits are
/// negative in two's complement; the low `x_len` bits split into the sign bit and the rest.
pub proof fn lemma_sign_bit(index: int, x_len: nat)
    requires
        0 <= index,
        x_len >= 1,
    ensures
        index % (pow2(x_len) as int) == pow2((x_len - 1) as nat) * bit(index, (x_len - 1) as nat)
            + index % (pow2((x_len - 1) as nat) as int),
        (bit(index, (x_len - 1) as nat) == 1) == (signed_word(index, x_len) < 0),
        bit(index, (x_len - 1) as nat) == 0 || bit(index, (x_len - 1) as nat) == 1,
        pow2(x_len) == 2 * pow2((x_len - 1) as nat),
        signed_word(index, x_len) == (if bit(index, (x_len - 1) as nat) == 1 {
            index % (pow2((x_len - 1) as nat) as int) - pow2((x_len - 1) as nat)
        } else {
            index % (pow2((x_len - 1) as nat) as int)
        }),
{
    let h = (x_len - 1) as nat;
    let ph = pow2(h) as int;
    lemma_pow2_pos(h);
    lemma_pow2_unfold(x_len);
    lemma_mod_breakdown(index, ph, 2);
    lemma_mul_is_commutative(ph, 2);
    let b = bit(index, h);
    let low = index % ph;
    assert(0 <= low < ph);
    assert(0 <= b < 2);
    if b == 0 {
        assert(ph * b == 0) by (nonlinear_arith)
            requires
                b == 0,
        ;
    } else {
        assert(ph * b == ph) by (nonlinear_arith)
            requires
                b == 1,
        ;
    }
}

/// The bits of `z` at odd positions `1, 3, ..., 2m - 1`, packed into an `m`-bit integer:
/// the first operand of an interleaved lookup index.
pub open spec fn odd_bits(z: int, m: nat) -> int
    decreases m,
{
    if m == 0 {
        0
    } else {
        (z / 2) % 2 + 2 * odd_bits(z / 4, (m - 1) as nat)
    }
}

/// The bits of `z` at even positions `0, 2, ..., 2m - 2`, packed into an `m`-bit integer:
/// the second operand of an interleaved lookup index.
pub open spec fn even_bits(z: int, m: nat) -> int
    decreases m,
{
    if m == 0 {
        0
    } else {
        z % 2 + 2 * even_bits(z / 4, (m - 1) as nat)
    }
}

pub proof fn lemma_packed_bits_range(z: int, m: nat)
    ensures
        0 <= odd_bits(z, m) < pow2(m),
        0 <= even_bits(z, m) < pow2(m),
    decreases m,
{
    lemma_pow2_pos(m);
    if m == 0 {
        lemma2_to64();
    } else {
        lemma_packed_bits_range(z / 4, (m - 1) as nat);
        lemma_pow2_unfold(m);
    }
}

/// Splits the `x` and `y` operands interleaved in `val`: `x` from the odd bit positions,
/// `y` from the even ones.
pub fn uninterleave_bits(val: u64) -> (r: (u32, u32))
    ensures
        r.0 == odd_bits(val as int, 32),
        r.1 == even_bits(val as int, 32),
{
    let mut x: u64 = 0;
    let mut y: u64 = 0;
    let mut z: u64 = val;
    let mut p: u64 = 1;
    let mut k: usize = 0;
    proof {
        lemma2_to64();
    }
    while k < 32
        invariant
            k <= 32,
            p == pow2(k as nat),
            x < p,
            y < p,
            x + p * odd_bits(z as int, (32 - k) as nat) == odd_bits(val as int, 32),
            y + p * even_bits(z as int, (32 - k) as nat) == even_bits(val as int, 32),
        decreases 32 - k,
    {
        let ghost m = (32 - k - 1) as nat;
        let a = (z / 2) % 2;
        let b = z % 2;
        proof {
            lemma_pow2_unfold((k + 1) as nat);
            lemma_pow2_strictly_increases(k as nat, 32);
            lemma2_to64();
            assert(odd_bits(z as int, (32 - k) as nat) == a + 2 * odd_bits(z as int / 4, m));
            assert(even_bits(z as int, (32 - k) as nat) == b + 2 * even_bits(z as int / 4, m));
            assert(p * (a + 2 * odd_bits(z as int / 4, m)) == p * a + (2 * p) * odd_bits(z as int / 4, m))
                by (nonlinear_arith);
            assert(p * (b + 2 * even_bits(z as int / 4, m)) == p * b + (2 * p) * even_bits(z as int / 4, m))
                by (nonlinear_arith);
            assert(p * a <= p * 1) by (nonlinear_arith)
                requires
                    a <= 1,
                    p > 0,
            ;
            assert(p * b <= p * 1) by (nonlinear_arith)
                requires
                    b <= 1,
                    p > 0,
            ;
        }
        x = x + p * a;
        y = y + p * b;
        z = z / 4;
        p = p * 2;
        k += 1;
    }
    proof {
        lemma2_to64();
    }
    (x as u32, y as u32)
}

/// Interleaves the bits of `x` and `y` into one index: `x` on the odd bit positions, `y` on the
/// even ones (the inverse of [`uninterleave_bits`]).
pub fn interleave_bits(x: u32, y: u32) -> (r: u64)
    ensures
        odd_bits(r as int, 32) == x,
        even_bits(r as int, 32) == y,
{
    let mut z: u64 = 0;
    let mut k: u32 = 32;
    proof {
        lemma2_to64();
        lemma_packed_bits_of_zero(0);
        lemma_basic_div(x as int, pow2(32) as int);
        lemma_basic_div(y as int, pow2(32) as int);
    }
    while k > 0
        invariant
            k <= 32,
            z < pow2((2 * (32 - k)) as nat),
            odd_bits(z as int, (32 - k) as nat) == x as int / (pow2(k as nat) as int),
            even_bits(z as int, (32 - k) as nat) == y as int / (pow2(k as nat) as int),
        decreases k,
    {
        k -= 1;
        let a: u64 = ((x >> k) & 1) as u64;
        let b: u64 = ((y >> k) & 1) as u64;
        let ghost m = (32 - k - 1) as nat;
        proof {
            lemma_u32_shr_is_div(x, k);
            lemma_u32_shr_is_div(y, k);
            assert((x >> k) & 1 == (x >> k) % 2) by (bit_vector);
            assert((y >> k) & 1 == (y >> k) % 2) by (bit_vector);
            lemma_pow2_pos(k as nat);
            lemma_div_pow2_twice(x as int, k as nat, 1);
            lemma_div_pow2_twice(y as int, k as nat, 1);
            lemma2_to64();
            let xk = x as int / (pow2(k as nat) as int);
            let yk = y as int / (pow2(k as nat) as int);
            lemma_fundamental_div_mod(xk, 2);
            lemma_fundamental_div_mod(yk, 2);
            assert(xk / 2 == x as int / (pow2((k + 1) as nat) as int));
            assert(a == xk % 2 && b == yk % 2);
            assert(xk == 2 * (xk / 2) + a);
            assert(yk == 2 * (yk / 2) + b);
            lemma_pow2_adds(2 * m, 2);
            assert((2 * (32 - k)) as nat == 2 * m + 2);
            assert(pow2((2 * (32 - k)) as nat) == pow2(2 * m) * 4);
            if k > 0 {
                lemma_pow2_strictly_increases((2 * (32 - k)) as nat, 64);
            }
            let zn = 4 * z + 2 * a + b;
            assert(zn / 2 == 2 * z + a);
            assert(zn / 4 == z);
            assert((zn / 2) % 2 == a);
            assert(zn % 2 == b);
        }
        z = 4 * z + 2 * a + b;
    }
    proof {
        assert(pow2(0) == 1) by {
            lemma2_to64();
        }
        assert(x as int / 1 == x as int);
        assert(y as int / 1 == y as int);
    }
    z
}

pub proof fn lemma_packed_bits_of_zero(m: nat)
    ensures
        odd_bits(0, m) == 0,
        even_bits(0, m) == 0,
    decreases m,
{
    if m > 0 {
        lemma_packed_bits_of_zero((m - 1) as nat);
    }
}

/// For `z < 4^m`, packing more than `m` bit pairs adds nothing.
pub proof fn lemma_packed_bits_high_zero(z: int, m: nat, j: nat)
    requires
        0 <= z < pow2(2 * m),
    ensures
        odd_bits(z, m + j) == odd_bits(z, m),
        even_bits(z, m + j) == even_bits(z, m),
    decreases m,
{
    if m == 0 {
        lemma2_to64();
        assert(z == 0);
        lemma_packed_bits_of_zero(j);
    } else {
        let m1 = (m - 1) as nat;
        lemma_pow2_adds(2 * m1, 2);
        lemma2_to64();
        assert(2 * m == 2 * m1 + 2);
        lemma_div_by_multiple_is_strongly_ordered(z, pow2(2 * m) as int, pow2(2 * m1) as int, 4);
        lemma_div_by_multiple(pow2(2 * m1) as int, 4);
        lemma_packed_bits_high_zero(z / 4, m1, j);
        assert((m + j - 1) as nat == m1 + j);
    }
}

} // verus!
