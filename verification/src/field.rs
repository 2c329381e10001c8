//! Prime fields in which lookup-table multilinear extensions are evaluated.
use vstd::arithmetic::div_mod::*;
use vstd::prelude::*;

verus! {

/// A prime field: its elements, as integers below its order, and its arithmetic.
pub trait JoltField: Sized + Copy {
    /// The order of the field.
    spec fn modulus() -> int;

    /// The element as an integer in `[0, modulus)`.
    spec fn val(self) -> int;

    /// The order exceeds one.
    proof fn lemma_modulus()
        ensures
            Self::modulus() > 1,
    ;

    /// Every element lies in `[0, modulus)`.
    proof fn lemma_val_range(self)
        ensures
            0 <= self.val() < Self::modulus(),
            self.val() % Self::modulus() == self.val(),
    ;

    /// The additive identity.
    fn zero() -> (r: Self)
        ensures
            r.val() == 0,
    ;

    /// The multiplicative identity.
    fn one() -> (r: Self)
        ensures
            r.val() == 1,
    ;

    /// The residue of an unsigned integer.
    fn from_u64(x: u64) -> (r: Self)
        ensures
            r.val() == x as int % Self::modulus(),
    ;

    /// The residue of an unsigned 32-bit integer.
    fn from_u32(x: u32) -> (r: Self)
        ensures
            r.val() == x as int % Self::modulus(),
    ;

    /// The residue of a signed integer.
    fn from_i64(x: i64) -> (r: Self)
        ensures
            r.val() == x as int % Self::modulus(),
    ;

    /// Field addition.
    fn plus(self, other: Self) -> (r: Self)
        ensures
            r.val() == (self.val() + other.val()) % Self::modulus(),
    ;

    /// Field subtraction.
    fn minus(self, other: Self) -> (r: Self)
        ensures
            r.val() == (self.val() - other.val()) % Self::modulus(),
    ;

    /// The product of two elements.
    spec fn product(self, other: Self) -> Self;

    /// Field multiplication.
    fn times(self, other: Self) -> (r: Self)
        ensures
            r.val() == (self.val() * other.val()) % Self::modulus(),
            r == self.product(other),
    ;
}

/// The residue of an integer in the field `F`.
pub open spec fn fmod<F: JoltField>(x: int) -> int {
    x % F::modulus()
}

/// The field values of a sequence of elements, as integers.
pub open spec fn vals<F: JoltField>(s: Seq<F>) -> Seq<int> {
    Seq::new(s.len(), |i: int| s[i].val())
}

/// The field's order exceeds one, so 0 and 1 are their own residues.
pub proof fn lemma_field_basics<F: JoltField>()
    ensures
        F::modulus() > 1,
        fmod::<F>(0) == 0,
        fmod::<F>(1) == 1,
{
    F::lemma_modulus();
    lemma_small_mod(0, F::modulus() as nat);
    lemma_small_mod(1, F::modulus() as nat);
}

/// An element that represents `a` times one that represents `b` represents `a * b`.
pub proof fn lemma_times_represents<F: JoltField>(x: F, y: F, a: int, b: int)
    requires
        x.val() == fmod::<F>(a),
        y.val() == fmod::<F>(b),
    ensures
        fmod::<F>(x.val() * y.val()) == fmod::<F>(a * b),
{
    F::lemma_modulus();
    lemma_mul_mod_noop(a, b, F::modulus());
}

/// An element that represents `a` plus one that represents `b` represents `a + b`.
pub proof fn lemma_plus_represents<F: JoltField>(x: F, y: F, a: int, b: int)
    requires
        x.val() == fmod::<F>(a),
        y.val() == fmod::<F>(b),
    ensures
        fmod::<F>(x.val() + y.val()) == fmod::<F>(a + b),
{
    F::lemma_modulus();
    lemma_add_mod_noop(a, b, F::modulus());
}

/// An element that represents `a` minus one that represents `b` represents `a - b`.
pub proof fn lemma_minus_represents<F: JoltField>(x: F, y: F, a: int, b: int)
    requires
        x.val() == fmod::<F>(a),
        y.val() == fmod::<F>(b),
    ensures
        fmod::<F>(x.val() - y.val()) == fmod::<F>(a - b),
{
    F::lemma_modulus();
    lemma_sub_mod_noop(a, b, F::modulus());
}

/// The order of the prime field [`Fp`]: 2^64 - 2^32 + 1.
pub const MODULUS: u64 = 0xffff_ffff_0000_0001u64;

/// An element of the prime field of order [`MODULUS`], kept in canonical form.
#[derive(Clone, Copy, Debug, PartialEq, Eq)]
pub struct Fp {
    v: u64,
}

impl JoltField for Fp {
    open spec fn modulus() -> int {
        MODULUS as int
    }

    closed spec fn val(self) -> int {
        self.v as int % (MODULUS as int)
    }

    proof fn lemma_modulus() {
    }

    proof fn lemma_val_range(self) {
        lemma_mod_twice(self.v as int, MODULUS as int);
    }

    fn zero() -> (r: Fp) {
        Fp { v: 0 }
    }

    fn one() -> (r: Fp) {
        Fp { v: 1 }
    }

    fn from_u64(x: u64) -> (r: Fp) {
        let v = x % MODULUS;
        proof {
            lemma_mod_twice(x as int, MODULUS as int);
        }
        Fp { v }
    }

    fn from_u32(x: u32) -> (r: Fp) {
        Fp { v: x as u64 }
    }

    fn from_i64(x: i64) -> (r: Fp) {
        if x >= 0 {
            Fp::from_u64(x as u64)
        } else {
            let a: u64 = (0i128 - x as i128) as u64;
            let m = a % MODULUS;
            let v = if m == 0 {
                0
            } else {
                MODULUS - m
            };
            proof {
                let p = MODULUS as int;
                assert(x as int == -(a as int));
                lemma_fundamental_div_mod(a as int, p);
                if m == 0 {
                    vstd::arithmetic::mul::lemma_mul_is_commutative(p, -(a as int / p));
                    lemma_mod_multiples_basic(-(a as int / p), p);
                } else {
                    assert(-(a as int) == (p - m) + p * (-(a as int / p) - 1)) by (nonlinear_arith)
                        requires
                            a as int == p * (a as int / p) + m,
                    ;
                    vstd::arithmetic::mul::lemma_mul_is_commutative(p, -(a as int / p) - 1);
                    lemma_mod_multiples_vanish(-(a as int / p) - 1, p - m, p);
                    lemma_small_mod((p - m) as nat, p as nat);
                }
            }
            Fp { v }
        }
    }

    fn plus(self, other: Fp) -> (r: Fp) {
        let s: u128 = self.v as u128 + other.v as u128;
        let v = (s % (MODULUS as u128)) as u64;
        proof {
            lemma_add_mod_noop(self.v as int, other.v as int, MODULUS as int);
            lemma_mod_twice(s as int, MODULUS as int);
        }
        Fp { v }
    }

    fn minus(self, other: Fp) -> (r: Fp) {
        let a = self.v % MODULUS;
        let b = other.v % MODULUS;
        let v = if a >= b {
            a - b
        } else {
            a + (MODULUS - b)
        };
        proof {
            let p = MODULUS as int;
            if a >= b {
                lemma_small_mod((a - b) as nat, p as nat);
            } else {
                lemma_small_mod(v as nat, p as nat);
                lemma_mod_add_multiples_vanish(a as int - b as int, p);
            }
        }
        Fp { v }
    }

    closed spec fn product(self, other: Fp) -> Fp {
        Fp { v: ((self.v as int * other.v as int) % (MODULUS as int)) as u64 }
    }

    fn times(self, other: Fp) -> (r: Fp) {
        let a = self.v as u128;
        let b = other.v as u128;
        assert(a * b <= 0xffff_ffff_ffff_ffffu128 * 0xffff_ffff_ffff_ffffu128) by (nonlinear_arith)
            requires
                a <= 0xffff_ffff_ffff_ffffu128,
                b <= 0xffff_ffff_ffff_ffffu128,
        ;
        let prod: u128 = a * b;
        let v = (prod % (MODULUS as u128)) as u64;
        proof {
            lemma_mul_mod_noop(self.v as int, other.v as int, MODULUS as int);
            lemma_mod_twice(prod as int, MODULUS as int);
        }
        Fp { v }
    }
}

/// Sums of values that agree in the field agree in the field.
pub proof fn lemma_congruent_plus<F: JoltField>(a1: int, a2: int, b1: int, b2: int)
    requires
        fmod::<F>(a1) == fmod::<F>(a2),
        fmod::<F>(b1) == fmod::<F>(b2),
    ensures
        fmod::<F>(a1 + b1) == fmod::<F>(a2 + b2),
        fmod::<F>(a1 - b1) == fmod::<F>(a2 - b2),
{
    F::lemma_modulus();
    lemma_add_mod_noop(a1, b1, F::modulus());
    lemma_add_mod_noop(a2, b2, F::modulus());
    lemma_sub_mod_noop(a1, b1, F::modulus());
    lemma_sub_mod_noop(a2, b2, F::modulus());
}

/// Products of values that agree in the field agree in the field.
pub proof fn lemma_congruent_times<F: JoltField>(a1: int, a2: int, b1: int, b2: int)
    requires
        fmod::<F>(a1) == fmod::<F>(a2),
        fmod::<F>(b1) == fmod::<F>(b2),
    ensures
        fmod::<F>(a1 * b1) == fmod::<F>(a2 * b2),
{
    F::lemma_modulus();
    lemma_mul_mod_noop(a1, b1, F::modulus());
    lemma_mul_mod_noop(a2, b2, F::modulus());
}

} // verus!
