//! Prefix components of lookup table MLE decompositions.
//!
//! Prefixes capture the high-order bits of lookup table inputs and maintain checkpoints
//! that accumulate contributions during the prefix-suffix sum-check protocol. By evaluating
//! prefix MLEs incrementally with checkpoints updated every two rounds, we avoid summing
//! over the full 2^(2*XLEN) lookup table.
use crate::field::{fmod, lemma_field_basics, vals, JoltField};
use crate::hypercube::bool_point;
use crate::lookup_tables::clamp::{CLAMP_OP1_LOWER, CLAMP_OP2_LOWER, CLAMP_OPS_UPPER};
use crate::utils::index_to_field_bitvector;
use crate::utils::lookup_bits::LookupBits;
use crate::utils::pow2_word;
use vstd::arithmetic::div_mod::*;
use vstd::arithmetic::power2::*;
use vstd::prelude::*;

pub mod sparse_dense;

use self::sparse_dense::{
    base_is_one, fold_pairs, fold_pairs_exec, lemma_eq_component, lemma_fold_concat, lemma_fold_congruent,
    lemma_fold_one_pair, pair_step, pair_step_exec, prefix_poly, start_state,
};

verus! {

/// The number of prefixes.
pub const PREFIX_COUNT: usize = 15;

/// An enum containing all prefixes used by the lookup tables.
#[derive(Copy, Clone, Debug, PartialEq, Eq)]
pub enum Prefixes {
    /// Bitwise AND prefix
    And,
    /// ∑_{i < HighBound} x_i * 2^i
    OpsWordLtHigh,
    /// ∀i >= HighBound, x_i == 0
    OpsZeroGtHigh,
    /// ∑_{i < Op1LowBound} x_i * 2^i
    Op1WordLtLow,
    /// ∑_{i < Op2LowBound} x_i * 2^i
    Op2WordLtLow,
    /// ∀i >= Op1LowBound, x_i == 0
    Op1ZeroGtLow,
    /// ∀i >= Op2LowBound, x_i == 0
    Op2ZeroGtLow,
    /// Equality comparison prefix
    Eq,
    /// Less-than comparison prefix
    LessThan,
    /// Lower word without MSB prefix
    LowerWordNoMsb,
    /// Not-MSB prefix
    NotMsb,
    /// Bitwise OR prefix
    Or,
    /// Bitwise XOR prefix
    Xor,
    /// MSB (sign bit) prefix
    Msb,
    /// Two's complement negation prefix: `(!lower_word) + 1`
    NotLowerWord,
}

impl Prefixes {
    /// The position of the prefix in the declaration, which is also its checkpoint's slot.
    pub open spec fn ordinal(self) -> int {
        match self {
            Prefixes::And => 0,
            Prefixes::OpsWordLtHigh => 1,
            Prefixes::OpsZeroGtHigh => 2,
            Prefixes::Op1WordLtLow => 3,
            Prefixes::Op2WordLtLow => 4,
            Prefixes::Op1ZeroGtLow => 5,
            Prefixes::Op2ZeroGtLow => 6,
            Prefixes::Eq => 7,
            Prefixes::LessThan => 8,
            Prefixes::LowerWordNoMsb => 9,
            Prefixes::NotMsb => 10,
            Prefixes::Or => 11,
            Prefixes::Xor => 12,
            Prefixes::Msb => 13,
            Prefixes::NotLowerWord => 14,
        }
    }

    /// The position of the prefix in the declaration.
    pub fn to_ordinal(&self) -> (i: usize)
        ensures
            i == self.ordinal(),
            i < PREFIX_COUNT,
    {
        match self {
            Prefixes::And => 0,
            Prefixes::OpsWordLtHigh => 1,
            Prefixes::OpsZeroGtHigh => 2,
            Prefixes::Op1WordLtLow => 3,
            Prefixes::Op2WordLtLow => 4,
            Prefixes::Op1ZeroGtLow => 5,
            Prefixes::Op2ZeroGtLow => 6,
            Prefixes::Eq => 7,
            Prefixes::LessThan => 8,
            Prefixes::LowerWordNoMsb => 9,
            Prefixes::NotMsb => 10,
            Prefixes::Or => 11,
            Prefixes::Xor => 12,
            Prefixes::Msb => 13,
            Prefixes::NotLowerWord => 14,
        }
    }

    /// The prefix at position `i` of the declaration, for `i < PREFIX_COUNT`.
    pub fn from_ordinal(i: usize) -> (p: Prefixes)
        requires
            i < PREFIX_COUNT,
        ensures
            p.ordinal() == i,
            p == prefix_at(i as int),
    {
        if i == 0 {
            Prefixes::And
        } else if i == 1 {
            Prefixes::OpsWordLtHigh
        } else if i == 2 {
            Prefixes::OpsZeroGtHigh
        } else if i == 3 {
            Prefixes::Op1WordLtLow
        } else if i == 4 {
            Prefixes::Op2WordLtLow
        } else if i == 5 {
            Prefixes::Op1ZeroGtLow
        } else if i == 6 {
            Prefixes::Op2ZeroGtLow
        } else if i == 7 {
            Prefixes::Eq
        } else if i == 8 {
            Prefixes::LessThan
        } else if i == 9 {
            Prefixes::LowerWordNoMsb
        } else if i == 10 {
            Prefixes::NotMsb
        } else if i == 11 {
            Prefixes::Or
        } else if i == 12 {
            Prefixes::Xor
        } else if i == 13 {
            Prefixes::Msb
        } else {
            Prefixes::NotLowerWord
        }
    }
}

/// The prefix at position `i` of the declaration of [`Prefixes`].
pub open spec fn prefix_at(i: int) -> Prefixes {
    if i == 0 {
        Prefixes::And
    } else if i == 1 {
        Prefixes::OpsWordLtHigh
    } else if i == 2 {
        Prefixes::OpsZeroGtHigh
    } else if i == 3 {
        Prefixes::Op1WordLtLow
    } else if i == 4 {
        Prefixes::Op2WordLtLow
    } else if i == 5 {
        Prefixes::Op1ZeroGtLow
    } else if i == 6 {
        Prefixes::Op2ZeroGtLow
    } else if i == 7 {
        Prefixes::Eq
    } else if i == 8 {
        Prefixes::LessThan
    } else if i == 9 {
        Prefixes::LowerWordNoMsb
    } else if i == 10 {
        Prefixes::NotMsb
    } else if i == 11 {
        Prefixes::Or
    } else if i == 12 {
        Prefixes::Xor
    } else if i == 13 {
        Prefixes::Msb
    } else {
        Prefixes::NotLowerWord
    }
}

/// Wrapper for prefix polynomial evaluations, used for type safety in prefix operations.
#[derive(Clone, Copy)]
pub struct PrefixEval<F>(pub F);

/// Optional prefix evaluation cached after each pair of address-binding rounds (r_x, r_y).
pub type PrefixCheckpoint<F> = PrefixEval<Option<F>>;

impl<F> PrefixEval<F> {
    /// The wrapped evaluation.
    pub open spec fn inner(self) -> F {
        self.0
    }

    /// The wrapped evaluation.
    pub fn value(self) -> (v: F)
        ensures
            v == self.inner(),
    {
        self.0
    }
}

impl<F> From<F> for PrefixEval<F> {
    fn from(value: F) -> (r: Self)
        ensures
            r.inner() == value,
    {
        PrefixEval(value)
    }
}

impl<F> vstd::std_specs::convert::FromSpecImpl<F> for PrefixEval<F> {
    open spec fn obeys_from_spec() -> bool {
        true
    }

    open spec fn from_spec(v: F) -> Self {
        PrefixEval(v)
    }
}

impl<F> PrefixEval<Option<F>> {
    /// Unwraps the optional checkpoint value; the checkpoint must be set.
    pub fn unwrap(self) -> (r: PrefixEval<F>)
        requires
            self.inner() is Some,
        ensures
            r.inner() == self.inner().unwrap(),
    {
        PrefixEval(self.0.unwrap())
    }
}

impl<F: JoltField> std::ops::Mul<F> for PrefixEval<F> {
    type Output = F;

    /// The evaluation times a field element.
    fn mul(self, rhs: F) -> (r: F)
        ensures
            r == self.inner().product(rhs),
            r.val() == fmod::<F>(self.inner().val() * rhs.val()),
    {
        self.0.times(rhs)
    }
}

impl<F: JoltField> vstd::std_specs::ops::MulSpecImpl<F> for PrefixEval<F> {
    open spec fn obeys_mul_spec() -> bool {
        true
    }

    open spec fn mul_req(self, rhs: F) -> bool {
        true
    }

    open spec fn mul_spec(self, rhs: F) -> F {
        self.inner().product(rhs)
    }
}

impl<F: JoltField> std::ops::Mul<PrefixEval<F>> for PrefixEval<F> {
    type Output = F;

    /// The product of two evaluations.
    fn mul(self, rhs: PrefixEval<F>) -> (r: F)
        ensures
            r == self.inner().product(rhs.inner()),
            r.val() == fmod::<F>(self.inner().val() * rhs.inner().val()),
    {
        self.0.times(rhs.0)
    }
}

impl<F: JoltField> vstd::std_specs::ops::MulSpecImpl<PrefixEval<F>> for PrefixEval<F> {
    open spec fn obeys_mul_spec() -> bool {
        true
    }

    open spec fn mul_req(self, rhs: PrefixEval<F>) -> bool {
        true
    }

    open spec fn mul_spec(self, rhs: PrefixEval<F>) -> F {
        self.inner().product(rhs.inner())
    }
}

/// The field values of a sequence of prefix evaluations, as integers.
pub open spec fn prefix_vals<F: JoltField>(s: Seq<PrefixEval<F>>) -> Seq<int> {
    Seq::new(s.len(), |i: int| s[i].inner().val())
}

/// Stores the checkpoints for all prefixes, updated every two rounds of sumcheck.
#[derive(Clone, Copy)]
pub struct PrefixCheckpoints<F>([PrefixCheckpoint<F>; PREFIX_COUNT]);

impl<F: Copy> PrefixCheckpoints<F> {
    /// The checkpoint of each prefix, in the order of [`Prefixes`].
    pub closed spec fn checkpoints(self) -> Seq<Option<F>> {
        Seq::new(PREFIX_COUNT as nat, |i: int| self.0[i].inner())
    }

    /// No prefix has a checkpoint yet.
    pub fn new() -> (r: Self)
        ensures
            r.checkpoints().len() == PREFIX_COUNT,
            forall|i: int| 0 <= i < PREFIX_COUNT ==> #[trigger] r.checkpoints()[i] is None,
    {
        let c: PrefixCheckpoint<F> = PrefixEval(None);
        PrefixCheckpoints([c; PREFIX_COUNT])
    }

    /// The number of checkpoints: one per prefix.
    pub fn len(&self) -> (n: usize)
        ensures
            n == PREFIX_COUNT,
            n == self.checkpoints().len(),
    {
        PREFIX_COUNT
    }

    /// Sets the checkpoint of the prefix at `index` in the order of [`Prefixes`].
    pub fn set(&mut self, index: usize, value: Option<F>)
        requires
            index < PREFIX_COUNT,
        ensures
            final(self).checkpoints() == old(self).checkpoints().update(index as int, value),
    {
        self.0[index] = PrefixEval(value);
        proof {
            assert(self.checkpoints() =~= old(self).checkpoints().update(index as int, value));
        }
    }

    /// The checkpoint of the prefix at `index` in the order of [`Prefixes`].
    pub fn get(&self, index: usize) -> (c: Option<F>)
        requires
            index < PREFIX_COUNT,
        ensures
            c == self.checkpoints()[index as int],
    {
        self.0[index].0
    }
}

impl<F: JoltField> std::ops::Index<usize> for PrefixCheckpoints<F> {
    type Output = Option<F>;

    /// The checkpoint of the prefix at `index` in the order of [`Prefixes`].
    fn index(&self, index: usize) -> (r: &Option<F>)
        ensures
            *r == self.checkpoints()[index as int],
    {
        &self.0[index].0
    }
}

impl<F: JoltField> vstd::std_specs::core::IndexSpecImpl<usize> for PrefixCheckpoints<F> {
    open spec fn index_req(&self, index: &usize) -> bool {
        *index < PREFIX_COUNT
    }
}

impl<F: JoltField> std::ops::Index<Prefixes> for PrefixCheckpoints<F> {
    type Output = Option<F>;

    /// The checkpoint of `prefix`.
    fn index(&self, prefix: Prefixes) -> (r: &Option<F>)
        ensures
            *r == self.checkpoints()[prefix.ordinal()],
    {
        &self.0[prefix.to_ordinal()].0
    }
}

impl<F: JoltField> vstd::std_specs::core::IndexSpecImpl<Prefixes> for PrefixCheckpoints<F> {
    open spec fn index_req(&self, prefix: &Prefixes) -> bool {
        true
    }
}

impl<F: Copy> Default for PrefixCheckpoints<F> {
    fn default() -> (r: Self)
        ensures
            forall|i: int| 0 <= i < PREFIX_COUNT ==> #[trigger] r.checkpoints()[i] is None,
    {
        Self::new()
    }
}

impl<F: JoltField> PrefixCheckpoints<F> {
    /// The field values of the checkpoints, in the order of [`Prefixes`].
    pub open spec fn checkpoint_vals(self) -> Seq<Option<int>> {
        self.checkpoints().map_values(|c: Option<F>| option_val(c))
    }
}

/// The field value of an optional element.
pub open spec fn option_val<F: JoltField>(o: Option<F>) -> Option<int> {
    match o {
        Some(f) => Some(f.val()),
        None => None,
    }
}

/// The state from which `p` is evaluated, as field elements (see [`start_state`]).
fn start_state_exec<F: JoltField>(p: &Prefixes, checkpoints: &PrefixCheckpoints<F>) -> (r: (F, F))
    ensures
        r.0.val() == fmod::<F>(start_state(*p, checkpoints.checkpoint_vals()).0),
        r.1.val() == fmod::<F>(start_state(*p, checkpoints.checkpoint_vals()).1),
{
    proof {
        lemma_field_basics::<F>();
    }
    let i = p.to_ordinal();
    let a = match checkpoints.get(i) {
        Some(v) => {
            proof {
                v.lemma_val_range();
            }
            v
        },
        None => if base_is_one(p) {
            F::one()
        } else {
            F::zero()
        },
    };
    let e = match checkpoints.get(7) {
        Some(v) => {
            proof {
                v.lemma_val_range();
            }
            v
        },
        None => F::one(),
    };
    (a, e)
}

impl Prefixes {
    /// The value of this prefix's checkpoint after the challenges `r_x` and `r_y` of rounds
    /// `j - 1` and `j`: the prefix's state, taken from the checkpoints `cps` (see
    /// [`start_state`]), updated by the pair `(r_x, r_y)` at positions `j - 1` and `j` (see
    /// [`pair_step`] and, for each prefix's recurrence, `pair_coefficients`). For example the Eq
    /// checkpoint `e` becomes `e·(r_x·r_y + (1 - r_x)·(1 - r_y))`, the LessThan checkpoint `l`
    /// becomes `l + e·(1 - r_x)·r_y`. The suffix length does not enter it.
    pub open spec fn checkpoint_value(
        self,
        xlen: nat,
        cps: Seq<Option<int>>,
        rx: int,
        ry: int,
        j: nat,
        suffix_len: nat,
    ) -> Option<int> {
        Some(pair_step(self, xlen, start_state(self, cps), j - 1, rx, ry).0)
    }

    /// The prefix's value at round `j`: from the checkpoints `cps`, run over the values not yet in
    /// a checkpoint (`r_x`, bound in round `j - 1` when `j` is odd, then `c` for round `j`, then
    /// the bits of `b`).
    pub open spec fn prefix_value(
        self,
        xlen: nat,
        cps: Seq<Option<int>>,
        rx: Option<int>,
        c: int,
        b: LookupBits,
        j: nat,
    ) -> int {
        let bits = bool_point(b.value(), b.length());
        match rx {
            Some(x) => fold_pairs(self, xlen, start_state(self, cps), j - 1, seq![x, c] + bits).0,
            None => fold_pairs(self, xlen, start_state(self, cps), j as int, seq![c] + bits).0,
        }
    }

    /// Evaluates the MLE for this prefix:
    /// - prefix(r, r_x, c, b)   if j is odd
    /// - prefix(r, c, b)        if j is even
    ///
    /// where the prefix checkpoint captures the "contribution" of `r` to this evaluation.
    /// `r` (and potentially `r_x`) are the variables of the prefix bound in the previous rounds;
    /// the current variable is fixed to `c`; the remaining variables of the prefix are the bits
    /// of `b`.
    pub fn prefix_mle<const XLEN: usize, F: JoltField>(
        &self,
        checkpoints: &PrefixCheckpoints<F>,
        r_x: Option<F>,
        c: u32,
        b: LookupBits,
        j: usize,
    ) -> (e: PrefixEval<F>)
        requires
            (r_x is Some) == (j % 2 == 1),
            XLEN <= 32,
            j + 1 + b.length() <= 2 * XLEN,
        ensures
            e.inner().val() == fmod::<F>(
                self.prefix_value(XLEN as nat, checkpoints.checkpoint_vals(), option_val(r_x), c as int, b, j as nat),
            ),
    {
        proof {
            lemma_field_basics::<F>();
        }
        let ghost bits = bool_point(b.value(), b.length());
        let ghost head: Seq<int> = match r_x {
            Some(x) => seq![x.val(), c as int],
            None => seq![c as int],
        };
        let ghost vs = head + bits;
        let mut rest: Vec<F> = Vec::new();
        let mut start: usize = j;
        match r_x {
            Some(x) => {
                proof {
                    x.lemma_val_range();
                }
                rest.push(x);
                start = j - 1;
            },
            None => {},
        }
        rest.push(F::from_u32(c));
        let bv = index_to_field_bitvector::<F>(b.to_u64(), b.len());
        let h = rest.len();
        let mut k: usize = 0;
        while k < bv.len()
            invariant
                h == head.len(),
                k <= bv.len(),
                vals(bv@) == bits,
                bits == bool_point(b.value(), b.length()),
                vs == head + bits,
                rest@.len() == h + k,
                forall|i: int| 0 <= i < h + k ==> #[trigger] rest@[i].val() == fmod::<F>(vs[i]),
                F::modulus() > 1,
                fmod::<F>(0) == 0,
                fmod::<F>(1) == 1,
                b.value() >= 0,
            decreases bv.len() - k,
        {
            proof {
                let t = bits[k as int];
                let e = (b.length() - 1 - k) as nat;
                lemma_pow2_pos(e);
                lemma_div_pos_is_pos(b.value(), pow2(e) as int);
                lemma_mod_pos_bound(b.value() / (pow2(e) as int), 2);
                assert(k < bits.len());
                assert(t == crate::hypercube::bit(b.value(), e));
                assert(0 <= t < 2);
                assert(t == 0 || t == 1);
            }
            rest.push(bv[k]);
            k += 1;
        }
        let st = start_state_exec(self, checkpoints);
        let r = fold_pairs_exec(
            self,
            XLEN,
            st,
            start,
            &rest,
            Ghost(start_state(*self, checkpoints.checkpoint_vals())),
            Ghost(vs),
        );
        proof {
            match r_x {
                Some(x) => {
                    assert(vs =~= seq![x.val(), c as int] + bits);
                },
                None => {
                    assert(vs =~= seq![c as int] + bits);
                },
            }
        }
        PrefixEval(r.0)
    }

    /// Every two rounds of sumcheck, the "checkpoint" value of each prefix incorporates the two
    /// random challenges `r_x` and `r_y` received since the last update. `j` is the sumcheck
    /// round index. A checkpoint update may depend on the values of the other prefix
    /// checkpoints, so all the `checkpoints` are passed in.
    pub fn update_prefix_checkpoint<const XLEN: usize, F: JoltField>(
        &self,
        checkpoints: &PrefixCheckpoints<F>,
        r_x: F,
        r_y: F,
        j: usize,
        suffix_len: usize,
    ) -> (c: PrefixCheckpoint<F>)
        requires
            j % 2 == 1,
            j < 2 * XLEN,
            XLEN <= 32,
        ensures
            c.inner() is Some,
            c.inner().unwrap().val() == fmod::<F>(
                self.checkpoint_value(
                    XLEN as nat,
                    checkpoints.checkpoint_vals(),
                    r_x.val(),
                    r_y.val(),
                    j as nat,
                    suffix_len as nat,
                ).unwrap(),
            ),
    {
        let st = start_state_exec(self, checkpoints);
        proof {
            r_x.lemma_val_range();
            r_y.lemma_val_range();
        }
        let r = pair_step_exec(
            self,
            XLEN,
            st,
            j - 1,
            r_x,
            r_y,
            Ghost(start_state(*self, checkpoints.checkpoint_vals())),
            Ghost(r_x.val()),
            Ghost(r_y.val()),
        );
        PrefixEval(Some(r.0))
    }

    /// Every two rounds of sumcheck, updates the checkpoints of all the prefixes with the two
    /// random challenges `r_x` and `r_y` received since the last update, each from the
    /// checkpoints as they were before the update.
    pub fn update_checkpoints<const XLEN: usize, F: JoltField>(
        checkpoints: &mut PrefixCheckpoints<F>,
        r_x: F,
        r_y: F,
        j: usize,
        suffix_len: usize,
    )
        requires
            j % 2 == 1,
            j < 2 * XLEN,
            XLEN <= 32,
        ensures
            forall|i: int|
                0 <= i < PREFIX_COUNT ==> #[trigger] final(checkpoints).checkpoint_vals()[i] == Some(
                    fmod::<F>(
                        prefix_at(i).checkpoint_value(
                            XLEN as nat,
                            old(checkpoints).checkpoint_vals(),
                            r_x.val(),
                            r_y.val(),
                            j as nat,
                            suffix_len as nat,
                        ).unwrap(),
                    ),
                ),
    {
        let previous = *checkpoints;
        let mut i: usize = 0;
        while i < PREFIX_COUNT
            invariant
                i <= PREFIX_COUNT,
                previous == *old(checkpoints),
                j % 2 == 1,
                j < 2 * XLEN,
                XLEN <= 32,
                forall|k: int|
                    0 <= k < i ==> #[trigger] checkpoints.checkpoint_vals()[k] == Some(
                        fmod::<F>(
                            prefix_at(k).checkpoint_value(
                                XLEN as nat,
                                previous.checkpoint_vals(),
                                r_x.val(),
                                r_y.val(),
                                j as nat,
                                suffix_len as nat,
                            ).unwrap(),
                        ),
                    ),
            decreases PREFIX_COUNT - i,
        {
            let p = Prefixes::from_ordinal(i);
            let c = p.update_prefix_checkpoint::<XLEN, F>(&previous, r_x, r_y, j, suffix_len);
            let ghost before = checkpoints.checkpoint_vals();
            checkpoints.0[i] = c;
            proof {
                assert forall|k: int| 0 <= k < i + 1 implies #[trigger] checkpoints.checkpoint_vals()[k] == Some(
                    fmod::<F>(
                        prefix_at(k).checkpoint_value(
                            XLEN as nat,
                            previous.checkpoint_vals(),
                            r_x.val(),
                            r_y.val(),
                            j as nat,
                            suffix_len as nat,
                        ).unwrap(),
                    ),
                ) by {
                    if k < i {
                        assert(checkpoints.checkpoint_vals()[k] == before[k]);
                    }
                }
            }
            i += 1;
        }
    }
}

/// The checkpoints agree with the variables `r` bound so far (an even number of them): each
/// prefix's checkpoint holds, in the field, its polynomial on `r`, and none is set before any
/// variable is bound.
pub open spec fn checkpoints_agree<F: JoltField>(xlen: nat, cps: Seq<Option<int>>, r: Seq<int>) -> bool {
    &&& cps.len() == PREFIX_COUNT
    &&& forall|i: int|
        0 <= i < PREFIX_COUNT ==> #[trigger] cps[i] == if r.len() == 0 {
            None::<int>
        } else {
            Some(fmod::<F>(prefix_poly(prefix_at(i), xlen, r)))
        }
}

/// Each prefix sits at its own position.
pub proof fn lemma_prefix_at_ordinal(p: Prefixes)
    ensures
        0 <= p.ordinal() < PREFIX_COUNT,
        prefix_at(p.ordinal()) == p,
{
}

/// From checkpoints that agree with the bound variables, a prefix's state agrees in the field
/// with its state after those variables.
proof fn lemma_start_state_agrees<F: JoltField>(p: Prefixes, xlen: nat, cps: Seq<Option<int>>, d: Seq<int>)
    requires
        checkpoints_agree::<F>(xlen, cps, d),
    ensures
        fmod::<F>(start_state(p, cps).0) == fmod::<F>(fold_pairs(p, xlen, (sparse_dense::base_value(p), 1), 0, d).0),
        fmod::<F>(start_state(p, cps).1) == fmod::<F>(fold_pairs(p, xlen, (sparse_dense::base_value(p), 1), 0, d).1),
{
    F::lemma_modulus();
    lemma_prefix_at_ordinal(p);
    lemma_prefix_at_ordinal(Prefixes::Eq);
    let base = (sparse_dense::base_value(p), 1int);
    lemma_eq_component(p, xlen, base.0, 1, 0, d);
    if d.len() > 0 {
        let f = fold_pairs(p, xlen, base, 0, d);
        lemma_mod_twice(f.0, F::modulus());
        lemma_mod_twice(fold_pairs(Prefixes::Eq, xlen, (1, 1), 0, d).0, F::modulus());
        assert(cps[p.ordinal()] == Some(fmod::<F>(prefix_poly(p, xlen, d))));
        assert(cps[7] == Some(fmod::<F>(prefix_poly(Prefixes::Eq, xlen, d))));
    }
}

/// A prefix evaluated at round `j = r.len()` from checkpoints that agree with the bound
/// variables before the last whole pair of `r` is, in the field, the prefix's polynomial on the
/// point `r`, then `c`, then the bits of `b`.
pub proof fn lemma_prefix_value_agrees<F: JoltField>(
    p: Prefixes,
    xlen: nat,
    cps: Seq<Option<int>>,
    r: Seq<int>,
    c: int,
    b: LookupBits,
)
    requires
        checkpoints_agree::<F>(xlen, cps, r.subrange(0, r.len() - r.len() % 2)),
    ensures
        fmod::<F>(
            p.prefix_value(
                xlen,
                cps,
                if r.len() % 2 == 1 { Some(r.last()) } else { None },
                c,
                b,
                r.len(),
            ),
        ) == fmod::<F>(prefix_poly(p, xlen, r + seq![c] + bool_point(b.value(), b.length()))),
{
    let d = r.subrange(0, r.len() - r.len() % 2);
    let bits = bool_point(b.value(), b.length());
    let base = (sparse_dense::base_value(p), 1int);
    let st = start_state(p, cps);
    lemma_start_state_agrees::<F>(p, xlen, cps, d);
    let fd = fold_pairs(p, xlen, base, 0, d);
    let rest = if r.len() % 2 == 1 {
        seq![r.last(), c] + bits
    } else {
        seq![c] + bits
    };
    lemma_fold_congruent::<F>(p, xlen, st, fd, d.len() as int, rest);
    lemma_fold_concat(p, xlen, base, 0, d, rest);
    assert(d + rest =~= r + seq![c] + bits);
}

/// Updating checkpoints that agree with the bound variables `r` with the next pair of
/// challenges gives checkpoints that agree with `r` and that pair.
pub proof fn lemma_update_agrees<F: JoltField>(
    xlen: nat,
    cps: Seq<Option<int>>,
    r: Seq<int>,
    rx: int,
    ry: int,
    suffix_len: nat,
)
    requires
        r.len() % 2 == 0,
        checkpoints_agree::<F>(xlen, cps, r),
    ensures
        checkpoints_agree::<F>(
            xlen,
            Seq::new(
                PREFIX_COUNT as nat,
                |i: int|
                    Some(
                        fmod::<F>(
                            prefix_at(i).checkpoint_value(xlen, cps, rx, ry, r.len() + 1, suffix_len).unwrap(),
                        ),
                    ),
            ),
            r + seq![rx, ry],
        ),
{
    let new_cps = Seq::new(
        PREFIX_COUNT as nat,
        |i: int| Some(fmod::<F>(prefix_at(i).checkpoint_value(xlen, cps, rx, ry, r.len() + 1, suffix_len).unwrap())),
    );
    assert forall|i: int| 0 <= i < PREFIX_COUNT implies #[trigger] new_cps[i] == Some(
        fmod::<F>(prefix_poly(prefix_at(i), xlen, r + seq![rx, ry])),
    ) by {
        let p = prefix_at(i);
        let base = (sparse_dense::base_value(p), 1int);
        lemma_start_state_agrees::<F>(p, xlen, cps, r);
        let st = start_state(p, cps);
        let fr = fold_pairs(p, xlen, base, 0, r);
        lemma_fold_congruent::<F>(p, xlen, st, fr, r.len() as int, seq![rx, ry]);
        lemma_fold_one_pair(p, xlen, st, r.len() as int, rx, ry);
        lemma_fold_one_pair(p, xlen, fr, r.len() as int, rx, ry);
        lemma_fold_concat(p, xlen, base, 0, r, seq![rx, ry]);
        F::lemma_modulus();
        lemma_mod_twice(pair_step(p, xlen, st, r.len() as int, rx, ry).0, F::modulus());
    }
}

} // verus!
