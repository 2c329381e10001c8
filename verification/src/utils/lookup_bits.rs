//! A bitvector of a given length: the Boolean variables of a lookup index that are still free.
use vstd::arithmetic::div_mod::*;
use vstd::arithmetic::mul::*;
use vstd::arithmetic::power2::*;
use vstd::prelude::*;

verus! {

/// The low `len` bits of a lookup index, as an integer below `2^len`.
#[derive(Clone, Copy, Debug)]
pub struct LookupBits {
    bits: u64,
    len: usize,
}

impl LookupBits {
    #[verifier::type_invariant]
    spec fn inv(self) -> bool {
        self.len <= 64 && self.bits < pow2(self.len as nat)
    }

    /// The integer that the bits represent.
    pub closed spec fn value(self) -> int {
        self.bits as int
    }

    /// The number of bits.
    pub closed spec fn length(self) -> nat {
        self.len as nat
    }

    /// The low `len` bits of `bits`.
    pub fn new(bits: u64, len: usize) -> (r: LookupBits)
        requires
            len <= 64,
        ensures
            r.length() == len,
            r.value() == bits as int % (pow2(len as nat) as int),
    {
        proof {
            lemma_pow2_pos(len as nat);
        }
        if len < 64 {
            proof {
                vstd::bits::lemma_u64_pow2_no_overflow(len as nat);
                vstd::bits::lemma_u64_shl_is_mul(1, len as u64);
            }
            let m: u64 = 1u64 << (len as u64);
            LookupBits { bits: bits % m, len }
        } else {
            proof {
                lemma2_to64_rest();
                lemma_small_mod(bits as nat, pow2(64));
            }
            LookupBits { bits, len }
        }
    }

    /// The number of bits.
    pub fn len(&self) -> (l: usize)
        ensures
            l == self.length(),
            l <= 64,
            0 <= self.value() < pow2(l as nat),
    {
        proof {
            use_type_invariant(self);
        }
        self.len
    }

    /// The bits as a 64-bit word.
    pub fn to_u64(&self) -> (v: u64)
        ensures
            v == self.value(),
    {
        self.bits
    }

    /// Splits the bits into the high part and the low `suffix_len` bits.
    pub fn split(&self, suffix_len: usize) -> (r: (LookupBits, LookupBits))
        requires
            suffix_len <= self.length(),
        ensures
            r.0.length() == self.length() - suffix_len,
            r.1.length() == suffix_len,
            r.0.value() == self.value() / (pow2(suffix_len as nat) as int),
            r.1.value() == self.value() % (pow2(suffix_len as nat) as int),
    {
        proof {
            use_type_invariant(self);
            lemma_pow2_pos(suffix_len as nat);
        }
        let hl = (self.len - suffix_len) as usize;
        let ghost p = pow2(suffix_len as nat) as int;
        let ghost v = self.bits as int;
        proof {
            lemma_pow2_adds(hl as nat, suffix_len as nat);
            assert(hl as nat + suffix_len as nat == self.len as nat);
            lemma_div_by_multiple_is_strongly_ordered(v, pow2(self.len as nat) as int, pow2(hl as nat) as int, p);
            lemma_mul_is_commutative(pow2(hl as nat) as int, p);
            lemma_div_by_multiple(pow2(hl as nat) as int, p);
            lemma_mod_bound(v, p);
        }
        if suffix_len < 64 {
            proof {
                vstd::bits::lemma_u64_pow2_no_overflow(suffix_len as nat);
                vstd::bits::lemma_u64_shl_is_mul(1, suffix_len as u64);
                vstd::bits::lemma_u64_shr_is_div(self.bits, suffix_len as u64);
            }
            let m: u64 = 1u64 << (suffix_len as u64);
            (LookupBits { bits: self.bits >> (suffix_len as u64), len: hl }, LookupBits { bits: self.bits % m, len: suffix_len })
        } else {
            proof {
                lemma2_to64_rest();
                lemma_small_mod(self.bits as nat, pow2(64));
                lemma_basic_div(v, p);
            }
            (LookupBits { bits: 0, len: hl }, LookupBits { bits: self.bits, len: suffix_len })
        }
    }

    /// Removes the most significant bit and returns it.
    pub fn pop_msb(&mut self) -> (b: u8)
        requires
            old(self).length() > 0,
        ensures
            final(self).length() == old(self).length() - 1,
            final(self).value() == old(self).value() % (pow2((old(self).length() - 1) as nat) as int),
            b as int == old(self).value() / (pow2((old(self).length() - 1) as nat) as int),
            b <= 1,
    {
        proof {
            use_type_invariant(&*self);
        }
        let len = self.len - 1;
        let (high, low) = self.split(len);
        proof {
            use_type_invariant(&high);
            lemma2_to64();
            assert(high.length() == 1);
        }
        *self = low;
        high.bits as u8
    }
}

} // verus!
