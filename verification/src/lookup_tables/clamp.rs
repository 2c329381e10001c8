//! The clamp lookup table: `f(x) = min(max(x, 2^L), 2^U)`.
use crate::field::{fmod, lemma_field_basics, lemma_minus_represents, lemma_plus_represents, lemma_times_represents, vals, JoltField};
use crate::hypercube::{
    affine, bool_point, lemma_affine_add, lemma_affine_const, lemma_affine_mul, lemma_frame,
    lemma_wsum_affine, lemma_wsum_append, lemma_wsum_bits, lemma_wsum_split, lemma_zprod_append,
    lemma_zprod_prefix_bits, lemma_zprod_split, lemma_zprod_update, place, wsum, zprod,
};
use crate::hypercube::lemma_boolean_tail;
use crate::lookup_tables::prefixes::sparse_dense::{
    lemma_single_fold, lemma_word_lt_closed, lemma_zero_gt_closed, prefix_poly,
};
use crate::lookup_tables::prefixes::{prefix_vals, PrefixEval, Prefixes};
use crate::lookup_tables::suffixes::Suffixes;
use crate::lookup_tables::{JoltLookupTable, PrefixSuffixDecompositionTrait};
use crate::utils::{pow2_word, signed_pow2, signed_pow2_word};
use crate::utils::lookup_bits::LookupBits;
use vstd::arithmetic::div_mod::*;
use vstd::arithmetic::mul::*;
use vstd::arithmetic::power2::*;
use crate::field::{lemma_congruent_plus, lemma_congruent_times};
use vstd::prelude::*;

verus! {

/// Clamps its index into `[2^LOWER_BOUND_LOG, 2^UPPER_BOUND_LOG]`.
#[derive(Debug, Default, Clone, Copy)]
pub struct ClampTable<const X_LEN: usize, const LOWER_BOUND_LOG: usize, const UPPER_BOUND_LOG: usize>;

/// The common upper bound (as a power of two) of the clamp tables.
pub const CLAMP_OPS_UPPER: usize = 10;

/// The lower bound (as a power of two) of the first clamp table.
pub const CLAMP_OP1_LOWER: usize = 5;

/// The lower bound (as a power of two) of the second clamp table.
pub const CLAMP_OP2_LOWER: usize = 0;

/// The clamp table with the common upper bound and the first lower bound.
pub type ClampTableOp1<const X_LEN: usize> = ClampTable<X_LEN, CLAMP_OP1_LOWER, CLAMP_OPS_UPPER>;

/// The clamp table with the common upper bound and the second lower bound.
pub type ClampTableOp2<const X_LEN: usize> = ClampTable<X_LEN, CLAMP_OP2_LOWER, CLAMP_OPS_UPPER>;

/// The prefixes required for a specific-bounds clamp table.
struct ClampPrefixes {
    /// Whether all bits x_i, where i >= UPPER_BOUND_LOG, are zero.
    zero_gt_upper_bound: Prefixes,
    /// Whether all bits x_i, where i >= LOWER_BOUND_LOG, are zero.
    zero_gt_lower_bound: Prefixes,
    /// The value of the word formed by bits x_i, where i < UPPER_BOUND_LOG.
    word_lt_upper_bound: Prefixes,
    /// The value of the word formed by bits x_i, where i < LOWER_BOUND_LOG.
    word_lt_lower_bound: Prefixes,
}

/// The suffixes required for a specific-bounds clamp table.
struct ClampSuffixes {
    /// Whether all bits x_i, where i >= UPPER_BOUND_LOG, are zero.
    zero_gt_upper_bound: Suffixes,
    /// Whether all bits x_i, where i >= LOWER_BOUND_LOG, are zero.
    zero_gt_lower_bound: Suffixes,
    /// The value of the word formed by bits x_i, where i < UPPER_BOUND_LOG.
    word_lt_upper_bound: Suffixes,
    /// The value of the word formed by bits x_i, where i < LOWER_BOUND_LOG.
    word_lt_lower_bound: Suffixes,
}

/// The prefixes and suffixes of a specific clamp table.
trait ClampTableTrait<const X_LEN: usize> {
    spec fn prefix_spec() -> ClampPrefixes;

    spec fn suffix_spec() -> ClampSuffixes;

    fn table_prefixes() -> (p: ClampPrefixes)
        ensures
            p == Self::prefix_spec(),
    ;

    fn table_suffixes() -> (s: ClampSuffixes)
        ensures
            s == Self::suffix_spec(),
    ;
}

impl<const X_LEN: usize> ClampTableTrait<X_LEN> for ClampTableOp1<X_LEN> {
    spec fn prefix_spec() -> ClampPrefixes {
        ClampPrefixes {
            zero_gt_upper_bound: Prefixes::OpsZeroGtHigh,
            zero_gt_lower_bound: Prefixes::Op1ZeroGtLow,
            word_lt_upper_bound: Prefixes::OpsWordLtHigh,
            word_lt_lower_bound: Prefixes::Op1WordLtLow,
        }
    }

    spec fn suffix_spec() -> ClampSuffixes {
        ClampSuffixes {
            zero_gt_upper_bound: Suffixes::OpsZeroGtHigh,
            zero_gt_lower_bound: Suffixes::Op1ZeroGtLow,
            word_lt_upper_bound: Suffixes::OpsWordLtHigh,
            word_lt_lower_bound: Suffixes::Op1WordLtLow,
        }
    }

    fn table_prefixes() -> (p: ClampPrefixes) {
        ClampPrefixes {
            zero_gt_upper_bound: Prefixes::OpsZeroGtHigh,
            zero_gt_lower_bound: Prefixes::Op1ZeroGtLow,
            word_lt_upper_bound: Prefixes::OpsWordLtHigh,
            word_lt_lower_bound: Prefixes::Op1WordLtLow,
        }
    }

    fn table_suffixes() -> (s: ClampSuffixes) {
        ClampSuffixes {
            zero_gt_upper_bound: Suffixes::OpsZeroGtHigh,
            zero_gt_lower_bound: Suffixes::Op1ZeroGtLow,
            word_lt_upper_bound: Suffixes::OpsWordLtHigh,
            word_lt_lower_bound: Suffixes::Op1WordLtLow,
        }
    }
}

impl<const X_LEN: usize> ClampTableTrait<X_LEN> for ClampTableOp2<X_LEN> {
    spec fn prefix_spec() -> ClampPrefixes {
        ClampPrefixes {
            zero_gt_upper_bound: Prefixes::OpsZeroGtHigh,
            zero_gt_lower_bound: Prefixes::Op2ZeroGtLow,
            word_lt_upper_bound: Prefixes::OpsWordLtHigh,
            word_lt_lower_bound: Prefixes::Op2WordLtLow,
        }
    }

    spec fn suffix_spec() -> ClampSuffixes {
        ClampSuffixes {
            zero_gt_upper_bound: Suffixes::OpsZeroGtHigh,
            zero_gt_lower_bound: Suffixes::Op2ZeroGtLow,
            word_lt_upper_bound: Suffixes::OpsWordLtHigh,
            word_lt_lower_bound: Suffixes::Op2WordLtLow,
        }
    }

    fn table_prefixes() -> (p: ClampPrefixes) {
        ClampPrefixes {
            zero_gt_upper_bound: Prefixes::OpsZeroGtHigh,
            zero_gt_lower_bound: Prefixes::Op2ZeroGtLow,
            word_lt_upper_bound: Prefixes::OpsWordLtHigh,
            word_lt_lower_bound: Prefixes::Op2WordLtLow,
        }
    }

    fn table_suffixes() -> (s: ClampSuffixes) {
        ClampSuffixes {
            zero_gt_upper_bound: Suffixes::OpsZeroGtHigh,
            zero_gt_lower_bound: Suffixes::Op2ZeroGtLow,
            word_lt_upper_bound: Suffixes::OpsWordLtHigh,
            word_lt_lower_bound: Suffixes::Op2WordLtLow,
        }
    }
}

/// The clamp recombination, with prefixes and suffixes each in the order zero-above-upper,
/// zero-above-lower, word-below-upper, word-below-lower:
/// `2^U + p0·s0 · ((p2 + s2) - 2^U) + p1·s1 · (2^L - (p3 + s3))`.
pub open spec fn clamp_combination(p: Seq<int>, s: Seq<int>, lower_log: nat, upper_log: nat) -> int {
    let cu = pow2(upper_log) as int;
    let cl = pow2(lower_log) as int;
    cu + p[0] * s[0] * ((p[2] + s[2]) - cu) + p[1] * s[1] * (cl - (p[3] + s[3]))
}

/// The clamp recombination of values that agree in the field agrees in the field.
proof fn clamp_combination_congruent<F: JoltField>(
    p1: Seq<int>,
    p2: Seq<int>,
    s1: Seq<int>,
    s2: Seq<int>,
    lower_log: nat,
    upper_log: nat,
)
    requires
        p1.len() == 4 && p2.len() == 4 && s1.len() == 4 && s2.len() == 4,
        forall|i: int| 0 <= i < p1.len() ==> fmod::<F>(#[trigger] p1[i]) == fmod::<F>(p2[i]),
        forall|i: int| 0 <= i < s1.len() ==> fmod::<F>(#[trigger] s1[i]) == fmod::<F>(s2[i]),
    ensures
        fmod::<F>(clamp_combination(p1, s1, lower_log, upper_log)) == fmod::<F>(
            clamp_combination(p2, s2, lower_log, upper_log),
        ),
{
    let cu = pow2(upper_log) as int;
    let cl = pow2(lower_log) as int;
    assert(fmod::<F>(p1[0]) == fmod::<F>(p2[0]) && fmod::<F>(p1[1]) == fmod::<F>(p2[1]));
    assert(fmod::<F>(p1[2]) == fmod::<F>(p2[2]) && fmod::<F>(p1[3]) == fmod::<F>(p2[3]));
    assert(fmod::<F>(s1[0]) == fmod::<F>(s2[0]) && fmod::<F>(s1[1]) == fmod::<F>(s2[1]));
    assert(fmod::<F>(s1[2]) == fmod::<F>(s2[2]) && fmod::<F>(s1[3]) == fmod::<F>(s2[3]));
    lemma_congruent_times::<F>(p1[0], p2[0], s1[0], s2[0]);
    lemma_congruent_times::<F>(p1[1], p2[1], s1[1], s2[1]);
    lemma_congruent_plus::<F>(p1[2], p2[2], s1[2], s2[2]);
    lemma_congruent_plus::<F>(p1[3], p2[3], s1[3], s2[3]);
    lemma_congruent_plus::<F>(p1[2] + s1[2], p2[2] + s2[2], cu, cu);
    lemma_congruent_plus::<F>(cl, cl, p1[3] + s1[3], p2[3] + s2[3]);
    lemma_congruent_times::<F>(p1[0] * s1[0], p2[0] * s2[0], (p1[2] + s1[2]) - cu, (p2[2] + s2[2]) - cu);
    lemma_congruent_times::<F>(p1[1] * s1[1], p2[1] * s2[1], cl - (p1[3] + s1[3]), cl - (p2[3] + s2[3]));
    lemma_congruent_plus::<F>(cu, cu, p1[0] * s1[0] * ((p1[2] + s1[2]) - cu), p2[0] * s2[0] * ((p2[2] + s2[2]) - cu));
    lemma_congruent_plus::<F>(
        cu + p1[0] * s1[0] * ((p1[2] + s1[2]) - cu),
        cu + p2[0] * s2[0] * ((p2[2] + s2[2]) - cu),
        p1[1] * s1[1] * (cl - (p1[3] + s1[3])),
        p2[1] * s2[1] * (cl - (p2[3] + s2[3])),
    );
}

/// Recombines the four clamp prefix evaluations and the four clamp suffix evaluations.
fn clamp_combine<F: JoltField>(prefixes: &[PrefixEval<F>], suffixes: &[F], lower_log: usize, upper_log: usize) -> (r: F)
    requires
        prefixes@.len() == 4,
        suffixes@.len() == 4,
        lower_log < 64,
        upper_log < 64,
    ensures
        r.val() == fmod::<F>(clamp_combination(prefix_vals(prefixes@), vals(suffixes@), lower_log as nat, upper_log as nat)),
{
    proof {
        lemma_field_basics::<F>();
    }
    let s_zero_gt_upper = suffixes[0];
    let s_zero_gt_lower = suffixes[1];
    let s_word_lt_upper = suffixes[2];
    let s_word_lt_lower = suffixes[3];
    let p_zero_gt_upper = prefixes[0].value();
    let p_zero_gt_lower = prefixes[1].value();
    let p_word_lt_upper = prefixes[2].value();
    let p_word_lt_lower = prefixes[3].value();
    let const_upper_bound_value = F::from_u64(pow2_word(upper_log));
    let const_lower_bound_value = F::from_u64(pow2_word(lower_log));

    let ps_zero_gtupper = p_zero_gt_upper.times(s_zero_gt_upper);
    let ps_zero_gtlower = p_zero_gt_lower.times(s_zero_gt_lower);
    let ps_word_ltupper = p_word_lt_upper.plus(s_word_lt_upper);
    let ps_word_ltlower = p_word_lt_lower.plus(s_word_lt_lower);

    let d1 = ps_word_ltupper.minus(const_upper_bound_value);
    let t1 = ps_zero_gtupper.times(d1);
    let d2 = const_lower_bound_value.minus(ps_word_ltlower);
    let t2 = ps_zero_gtlower.times(d2);
    let r1 = const_upper_bound_value.plus(t1);
    let ghost p = prefix_vals(prefixes@);
    let ghost s = vals(suffixes@);
    let ghost cu = pow2(upper_log as nat) as int;
    let ghost cl = pow2(lower_log as nat) as int;
    proof {
        p_zero_gt_upper.lemma_val_range();
        p_zero_gt_lower.lemma_val_range();
        p_word_lt_upper.lemma_val_range();
        p_word_lt_lower.lemma_val_range();
        s_zero_gt_upper.lemma_val_range();
        s_zero_gt_lower.lemma_val_range();
        s_word_lt_upper.lemma_val_range();
        s_word_lt_lower.lemma_val_range();
        lemma_minus_represents(ps_word_ltupper, const_upper_bound_value, p[2] + s[2], cu);
        lemma_times_represents(ps_zero_gtupper, d1, p[0] * s[0], (p[2] + s[2]) - cu);
        lemma_minus_represents(const_lower_bound_value, ps_word_ltlower, cl, p[3] + s[3]);
        lemma_times_represents(ps_zero_gtlower, d2, p[1] * s[1], cl - (p[3] + s[3]));
        lemma_plus_represents(const_upper_bound_value, t1, cu, p[0] * s[0] * ((p[2] + s[2]) - cu));
        lemma_plus_represents(
            r1,
            t2,
            cu + p[0] * s[0] * ((p[2] + s[2]) - cu),
            p[1] * s[1] * (cl - (p[3] + s[3])),
        );
    }
    r1.plus(t2)
}

impl<const X_LEN: usize> PrefixSuffixDecompositionTrait<X_LEN> for ClampTableOp1<X_LEN> {
    open spec fn prefix_list(&self) -> Seq<Prefixes> {
        seq![Prefixes::OpsZeroGtHigh, Prefixes::Op1ZeroGtLow, Prefixes::OpsWordLtHigh, Prefixes::Op1WordLtLow]
    }

    open spec fn suffix_list(&self) -> Seq<Suffixes> {
        seq![Suffixes::OpsZeroGtHigh, Suffixes::Op1ZeroGtLow, Suffixes::OpsWordLtHigh, Suffixes::Op1WordLtLow]
    }

    open spec fn combination(&self, prefixes: Seq<int>, suffixes: Seq<int>) -> int {
        clamp_combination(prefixes, suffixes, CLAMP_OP1_LOWER as nat, CLAMP_OPS_UPPER as nat)
    }

    fn prefixes(&self) -> (p: Vec<Prefixes>) {
        let pre = Self::table_prefixes();
        vec![pre.zero_gt_upper_bound, pre.zero_gt_lower_bound, pre.word_lt_upper_bound, pre.word_lt_lower_bound]
    }

    fn suffixes(&self) -> (s: Vec<Suffixes>) {
        let suf = Self::table_suffixes();
        vec![suf.zero_gt_upper_bound, suf.zero_gt_lower_bound, suf.word_lt_upper_bound, suf.word_lt_lower_bound]
    }

    open spec fn decomposition_defined(&self) -> bool {
        CLAMP_OPS_UPPER < 2 * X_LEN
    }

    proof fn lemma_decomposition(&self, pt: Seq<int>, suffix: LookupBits) {
        lemma_clamp_op1_decomposition(*self, pt, suffix);
    }

    proof fn lemma_combination_congruent<F: JoltField>(&self, p1: Seq<int>, p2: Seq<int>, s1: Seq<int>, s2: Seq<int>) {
        clamp_combination_congruent::<F>(p1, p2, s1, s2, CLAMP_OP1_LOWER as nat, CLAMP_OPS_UPPER as nat);
    }

    fn combine<F: JoltField>(&self, prefixes: &[PrefixEval<F>], suffixes: &[F]) -> (r: F) {
        proof {
            lemma_field_basics::<F>();
        }
        clamp_combine(prefixes, suffixes, CLAMP_OP1_LOWER, CLAMP_OPS_UPPER)
    }
}

impl<const X_LEN: usize> PrefixSuffixDecompositionTrait<X_LEN> for ClampTableOp2<X_LEN> {
    open spec fn prefix_list(&self) -> Seq<Prefixes> {
        seq![Prefixes::OpsZeroGtHigh, Prefixes::Op2ZeroGtLow, Prefixes::OpsWordLtHigh, Prefixes::Op2WordLtLow]
    }

    open spec fn suffix_list(&self) -> Seq<Suffixes> {
        seq![Suffixes::OpsZeroGtHigh, Suffixes::Op2ZeroGtLow, Suffixes::OpsWordLtHigh, Suffixes::Op2WordLtLow]
    }

    open spec fn combination(&self, prefixes: Seq<int>, suffixes: Seq<int>) -> int {
        clamp_combination(prefixes, suffixes, CLAMP_OP2_LOWER as nat, CLAMP_OPS_UPPER as nat)
    }

    fn prefixes(&self) -> (p: Vec<Prefixes>) {
        let pre = Self::table_prefixes();
        vec![pre.zero_gt_upper_bound, pre.zero_gt_lower_bound, pre.word_lt_upper_bound, pre.word_lt_lower_bound]
    }

    fn suffixes(&self) -> (s: Vec<Suffixes>) {
        let suf = Self::table_suffixes();
        vec![suf.zero_gt_upper_bound, suf.zero_gt_lower_bound, suf.word_lt_upper_bound, suf.word_lt_lower_bound]
    }

    open spec fn decomposition_defined(&self) -> bool {
        CLAMP_OPS_UPPER < 2 * X_LEN
    }

    proof fn lemma_decomposition(&self, pt: Seq<int>, suffix: LookupBits) {
        lemma_clamp_op2_decomposition(*self, pt, suffix);
    }

    proof fn lemma_combination_congruent<F: JoltField>(&self, p1: Seq<int>, p2: Seq<int>, s1: Seq<int>, s2: Seq<int>) {
        clamp_combination_congruent::<F>(p1, p2, s1, s2, CLAMP_OP2_LOWER as nat, CLAMP_OPS_UPPER as nat);
    }

    fn combine<F: JoltField>(&self, prefixes: &[PrefixEval<F>], suffixes: &[F]) -> (r: F) {
        proof {
            lemma_field_basics::<F>();
        }
        clamp_combine(prefixes, suffixes, CLAMP_OP2_LOWER, CLAMP_OPS_UPPER)
    }
}

/// `index` clamped into `[2^lower_log, 2^upper_log]`, the lower bound checked last.
pub open spec fn clamp_value(index: int, lower_log: nat, upper_log: nat) -> int {
    if index > pow2(upper_log) {
        pow2(upper_log) as int
    } else if index > pow2(lower_log) {
        index
    } else {
        pow2(lower_log) as int
    }
}

/// The parameters and point lengths on which the clamp MLE is evaluated.
pub open spec fn clamp_mle_defined(x_len: nat, lower_log: nat, upper_log: nat, len: nat) -> bool {
    &&& lower_log <= upper_log < 2 * x_len
    &&& upper_log < 64
    &&& 2 * x_len <= usize::MAX
    &&& 2 * x_len - lower_log <= len <= 2 * x_len
}

/// The clamp MLE at `r`, for words of `n = 2 * X_LEN` bits:
/// `2^U + Z_U(r) · (W_U(r) - 2^U) + Z_L(r) · (2^L - W_L(r))`, where `Z_B` is 1 when every bit of
/// significance `>= B` is zero and `W_B` is the value of the bits of significance `< B`.
/// The constants `2^U`, `2^L` are the signed 64-bit words `1 << U`, `1 << L`.
pub open spec fn clamp_mle(r: Seq<int>, n: int, lower_log: nat, upper_log: nat) -> int {
    let ub = n - upper_log - 1;
    let lb = n - lower_log - 1;
    let zero_above_upper = zprod(r, 0, ub + 1);
    let zero_above_lower = zero_above_upper * zprod(r, ub + 1, lb + 1);
    let word_below_lower = wsum(r, lb + 1, r.len() as int, n);
    let word_below_upper = word_below_lower + wsum(r, ub + 1, lb + 1, n);
    let cu = signed_pow2(upper_log);
    let cl = signed_pow2(lower_log);
    cu + zero_above_upper * (word_below_upper - cu) + zero_above_lower * (cl - word_below_lower)
}

impl<const X_LEN: usize, const L: usize, const U: usize> JoltLookupTable for ClampTable<
    X_LEN,
    L,
    U,
> {
    open spec fn entries_defined(&self) -> bool {
        L < 64 && U < 64
    }

    open spec fn entry(&self, index: u64) -> int {
        clamp_value(index as int, L as nat, U as nat)
    }

    open spec fn mle_defined(&self, len: nat) -> bool {
        clamp_mle_defined(X_LEN as nat, L as nat, U as nat, len)
    }

    open spec fn mle(&self, r: Seq<int>) -> int {
        clamp_mle(r, 2 * X_LEN, L as nat, U as nat)
    }

    fn materialize_entry(&self, index: u64) -> (v: u64) {
        if index > pow2_word(U) {
            pow2_word(U)
        } else if index > pow2_word(L) {
            index
        } else {
            pow2_word(L)
        }
    }

    fn evaluate_mle<F: JoltField>(&self, r: &[F]) -> (v: F) {
        proof {
            lemma_field_basics::<F>();
        }
        let ghost rv = vals(r@);
        let ghost n = 2 * X_LEN as int;
        let len = r.len();
        let ubound_index = 2 * X_LEN - U - 1;  // index corresponding to the set bit in the upper bound
        let lbound_index = 2 * X_LEN - L - 1;  // index corresponding to the set bit in the lower bound

        // 1 if all bits with significance >= upper bound are zero.
        let mut is_higher_zero_hbound = F::one();
        let mut i: usize = 0;
        while i <= ubound_index
            invariant
                F::modulus() > 1,
                i <= ubound_index + 1 <= len,
                len == r@.len(),
                rv == vals(r@),
                is_higher_zero_hbound.val() == fmod::<F>(zprod(rv, 0, i as int)),
            decreases ubound_index + 1 - i,
        {
            let factor = F::one().minus(r[i]);
            proof {
                lemma_zprod_append(rv, 0, i as int);
                lemma_times_represents(is_higher_zero_hbound, factor, zprod(rv, 0, i as int), 1 - rv[i as int]);
            }
            is_higher_zero_hbound = is_higher_zero_hbound.times(factor);
            i += 1;
        }
        // The factor over bits of significance in [lower bound, upper bound).
        let mut middle_zero = F::one();
        let mut i: usize = ubound_index + 1;
        while i <= lbound_index
            invariant
                F::modulus() > 1,
                ubound_index + 1 <= i <= lbound_index + 1 <= len,
                len == r@.len(),
                rv == vals(r@),
                middle_zero.val() == fmod::<F>(zprod(rv, ubound_index + 1, i as int)),
            decreases lbound_index + 1 - i,
        {
            let factor = F::one().minus(r[i]);
            proof {
                lemma_zprod_append(rv, ubound_index + 1, i as int);
                lemma_times_represents(middle_zero, factor, zprod(rv, ubound_index + 1, i as int), 1 - rv[i as int]);
            }
            middle_zero = middle_zero.times(factor);
            i += 1;
        }
        proof {
            lemma_times_represents(is_higher_zero_hbound, middle_zero, zprod(rv, 0, ubound_index + 1), zprod(rv, ubound_index + 1, lbound_index + 1));
        }
        let is_higher_zero_lbound = is_higher_zero_hbound.times(middle_zero);

        // The value of the bits with significance < lower bound.
        let mut lbound_word = F::zero();
        let mut i: usize = lbound_index + 1;
        while i < len
            invariant
                F::modulus() > 1,
                lbound_index + 1 <= i <= len <= 2 * X_LEN,
                L < 64,
                lbound_index == 2 * X_LEN - L - 1,
                len == r@.len(),
                rv == vals(r@),
                n == 2 * X_LEN,
                2 * X_LEN <= usize::MAX,
                lbound_word.val() == fmod::<F>(wsum(rv, lbound_index + 1, i as int, n)),
            decreases len - i,
        {
            let exponent = 2 * X_LEN - i - 1;
            let w = F::from_u64(pow2_word(exponent));
            let term = r[i].times(w);
            proof {
                r@[i as int].lemma_val_range();
                lemma_wsum_append(rv, lbound_index + 1, i as int, n);
                lemma_times_represents(r@[i as int], w, rv[i as int], place(n, i as int));
                lemma_plus_represents(lbound_word, term, wsum(rv, lbound_index + 1, i as int, n), rv[i as int] * place(n, i as int));
            }
            lbound_word = lbound_word.plus(term);
            i += 1;
        }
        // The value of the bits with significance in [lower bound, upper bound).
        let mut middle_word = F::zero();
        let mut i: usize = ubound_index + 1;
        while i <= lbound_index
            invariant
                F::modulus() > 1,
                ubound_index + 1 <= i <= lbound_index + 1 <= len <= 2 * X_LEN,
                U < 64,
                ubound_index == 2 * X_LEN - U - 1,
                len == r@.len(),
                rv == vals(r@),
                n == 2 * X_LEN,
                2 * X_LEN <= usize::MAX,
                middle_word.val() == fmod::<F>(wsum(rv, ubound_index + 1, i as int, n)),
            decreases lbound_index + 1 - i,
        {
            let exponent = 2 * X_LEN - i - 1;
            let w = F::from_u64(pow2_word(exponent));
            let term = r[i].times(w);
            proof {
                r@[i as int].lemma_val_range();
                lemma_wsum_append(rv, ubound_index + 1, i as int, n);
                lemma_times_represents(r@[i as int], w, rv[i as int], place(n, i as int));
                lemma_plus_represents(middle_word, term, wsum(rv, ubound_index + 1, i as int, n), rv[i as int] * place(n, i as int));
            }
            middle_word = middle_word.plus(term);
            i += 1;
        }
        proof {
            lemma_plus_represents(lbound_word, middle_word, wsum(rv, lbound_index + 1, len as int, n), wsum(rv, ubound_index + 1, lbound_index + 1, n));
        }
        let hbound_word = lbound_word.plus(middle_word);

        let upper = F::from_i64(signed_pow2_word(U));
        let lower = F::from_i64(signed_pow2_word(L));
        let ghost zu = zprod(rv, 0, ubound_index + 1);
        let ghost zl = zu * zprod(rv, ubound_index + 1, lbound_index + 1);
        let ghost wl = wsum(rv, lbound_index + 1, len as int, n);
        let ghost wu = wl + wsum(rv, ubound_index + 1, lbound_index + 1, n);
        let ghost cu = signed_pow2(U as nat);
        let ghost cl = signed_pow2(L as nat);
        let d1 = hbound_word.minus(upper);
        let t1 = is_higher_zero_hbound.times(d1);
        let d2 = lower.minus(lbound_word);
        let t2 = is_higher_zero_lbound.times(d2);
        let s1 = upper.plus(t1);
        let res = s1.plus(t2);
        proof {
            lemma_minus_represents(hbound_word, upper, wu, cu);
            lemma_times_represents(is_higher_zero_hbound, d1, zu, wu - cu);
            lemma_minus_represents(lower, lbound_word, cl, wl);
            lemma_times_represents(is_higher_zero_lbound, d2, zl, cl - wl);
            lemma_plus_represents(upper, t1, cu, zu * (wu - cu));
            lemma_plus_represents(s1, t2, cu + zu * (wu - cu), zl * (cl - wl));
        }
        res
    }
}

/// 1 if `x < 2^bound`, 0 otherwise: whether every bit of `x` of significance `>= bound` is zero.
pub open spec fn below(x: int, bound: nat) -> int {
    if x < pow2(bound) {
        1
    } else {
        0
    }
}

/// The clamp value written with the zero-above-bound indicators and the words below the bounds:
/// `2^U + Z_U · (W_U - 2^U) + Z_L · (2^L - W_L)`.
proof fn lemma_clamp_formula(x: int, lower: nat, upper: nat)
    requires
        0 <= x,
        lower <= upper,
    ensures
        pow2(upper) + below(x, upper) * (x % (pow2(upper) as int) - pow2(upper)) + below(x, lower) * (
        pow2(lower) - x % (pow2(lower) as int)) == clamp_value(x, lower, upper),
{
    let pu = pow2(upper) as int;
    let pl = pow2(lower) as int;
    let zu = below(x, upper);
    let zl = below(x, lower);
    let wu = x % pu;
    let wl = x % pl;
    if lower < upper {
        lemma_pow2_strictly_increases(lower, upper);
    }
    lemma_pow2_pos(lower);
    let m = pu + zu * (wu - pu) + zl * (pl - wl);
    if x < pl {
        lemma_small_mod(x as nat, pl as nat);
        lemma_small_mod(x as nat, pu as nat);
        assert(m == pl) by (nonlinear_arith)
            requires
                m == pu + zu * (wu - pu) + zl * (pl - wl),
                zu == 1,
                zl == 1,
                wl == x,
                wu == x,
        ;
    } else if x < pu {
        lemma_small_mod(x as nat, pu as nat);
        assert(m == x) by (nonlinear_arith)
            requires
                m == pu + zu * (wu - pu) + zl * (pl - wl),
                zu == 1,
                zl == 0,
                wu == x,
        ;
    } else {
        assert(m == pu) by (nonlinear_arith)
            requires
                m == pu + zu * (wu - pu) + zl * (pl - wl),
                zu == 0,
                zl == 0,
        ;
    }
}

/// Splitting at the prefix part `u` of the point `u + bool_point(s, k)`: the zero-above-bound
/// product and the word below the bound `b` are those of the prefix part times, and plus, the
/// suffix's own.
proof fn lemma_clamp_bound_split(u: Seq<int>, s: int, k: nat, b: nat)
    requires
        0 <= s < pow2(k),
        b < u.len() + k,
    ensures
        ({
            let n = (u.len() + k) as int;
            let r = u + bool_point(s, k);
            let m = u.len() as int;
            &&& zprod(r, 0, n - b) == zprod(r, 0, if m < n - b { m } else { n - b }) * below(s, b)
            &&& wsum(r, n - b, n, n) == wsum(r, n - b, m, n) + s % (pow2(b) as int)
        }),
{
    let n = (u.len() + k) as int;
    let r = u + bool_point(s, k);
    let m = u.len() as int;
    lemma_pow2_pos(b);
    if m < n - b {
        lemma_boolean_tail(u, s, k, n - b);
        assert((n - (n - b)) as nat == b);
        lemma_zprod_split(r, 0, m, n - b);
    } else {
        lemma_boolean_tail(u, s, k, m);
        assert((n - m) as nat == k);
        if k < b {
            lemma_pow2_strictly_increases(k, b);
        }
        lemma_small_mod(s as nat, pow2(k));
        lemma_small_mod(s as nat, pow2(b));
        lemma_wsum_split(r, n - b, m, n, n);
        lemma_mul_basics(zprod(r, 0, n - b));
    }
}

/// The clamp MLE on a point made of any prefix part `u` and the Boolean point of a suffix `s`
/// is the clamp recombination of the prefix part's zero-above-bound products and words below the
/// bounds with those of the suffix.
pub proof fn lemma_clamp_mle_split(u: Seq<int>, s: int, k: nat, lower: nat, upper: nat)
    requires
        0 <= s < pow2(k),
        lower <= upper < u.len() + k,
        upper < 63,
    ensures
        ({
            let n = (u.len() + k) as int;
            let r = u + bool_point(s, k);
            let m = u.len() as int;
            clamp_mle(r, n, lower, upper) == clamp_combination(
                seq![
                    zprod(r, 0, if m < n - upper { m } else { n - upper }),
                    zprod(r, 0, if m < n - lower { m } else { n - lower }),
                    wsum(r, n - upper, m, n),
                    wsum(r, n - lower, m, n),
                ],
                seq![below(s, upper), below(s, lower), s % (pow2(upper) as int), s % (pow2(lower) as int)],
                lower,
                upper,
            )
        }),
{
    let n = (u.len() + k) as int;
    let r = u + bool_point(s, k);
    lemma_clamp_bound_split(u, s, k, upper);
    lemma_clamp_bound_split(u, s, k, lower);
    lemma_zprod_split(r, 0, n - upper, n - lower);
    lemma_wsum_split(r, n - upper, n - lower, n, n);
    assert(n - upper - 1 + 1 == n - upper);
    assert(r.len() == n);
}

/// The zero-above-bound and word-below-bound prefixes of a clamp table, on a prefix part of
/// whole pairs, are the blocks of [`lemma_clamp_mle_split`].
proof fn lemma_clamp_prefix_polys(xlen: nat, pt: Seq<int>, w: Seq<int>)
    requires
        pt.len() % 2 == 0,
        pt.len() <= 2 * xlen,
        CLAMP_OPS_UPPER < 2 * xlen,
    ensures
        ({
            let r = pt + w;
            let n = (2 * xlen) as int;
            let m = pt.len() as int;
            &&& prefix_poly(Prefixes::OpsZeroGtHigh, xlen, pt) == zprod(r, 0, if m < n - CLAMP_OPS_UPPER { m } else { n - CLAMP_OPS_UPPER })
            &&& prefix_poly(Prefixes::Op1ZeroGtLow, xlen, pt) == zprod(r, 0, if m < n - CLAMP_OP1_LOWER { m } else { n - CLAMP_OP1_LOWER })
            &&& prefix_poly(Prefixes::Op2ZeroGtLow, xlen, pt) == zprod(r, 0, if m < n - CLAMP_OP2_LOWER { m } else { n - CLAMP_OP2_LOWER })
            &&& prefix_poly(Prefixes::OpsWordLtHigh, xlen, pt) == wsum(r, n - CLAMP_OPS_UPPER, m, n)
            &&& prefix_poly(Prefixes::Op1WordLtLow, xlen, pt) == wsum(r, n - CLAMP_OP1_LOWER, m, n)
            &&& prefix_poly(Prefixes::Op2WordLtLow, xlen, pt) == wsum(r, n - CLAMP_OP2_LOWER, m, n)
        }),
{
    let r = pt + w;
    let m = pt.len() as int;
    assert(r.subrange(0, m) =~= pt);
    lemma_single_fold(Prefixes::OpsZeroGtHigh, xlen, r, m);
    lemma_single_fold(Prefixes::Op1ZeroGtLow, xlen, r, m);
    lemma_single_fold(Prefixes::Op2ZeroGtLow, xlen, r, m);
    lemma_single_fold(Prefixes::OpsWordLtHigh, xlen, r, m);
    lemma_single_fold(Prefixes::Op1WordLtLow, xlen, r, m);
    lemma_single_fold(Prefixes::Op2WordLtLow, xlen, r, m);
    lemma_zero_gt_closed(Prefixes::OpsZeroGtHigh, xlen, CLAMP_OPS_UPPER as nat, r, m);
    lemma_zero_gt_closed(Prefixes::Op1ZeroGtLow, xlen, CLAMP_OP1_LOWER as nat, r, m);
    lemma_zero_gt_closed(Prefixes::Op2ZeroGtLow, xlen, CLAMP_OP2_LOWER as nat, r, m);
    lemma_word_lt_closed(Prefixes::OpsWordLtHigh, xlen, CLAMP_OPS_UPPER as nat, r, m);
    lemma_word_lt_closed(Prefixes::Op1WordLtLow, xlen, CLAMP_OP1_LOWER as nat, r, m);
    lemma_word_lt_closed(Prefixes::Op2WordLtLow, xlen, CLAMP_OP2_LOWER as nat, r, m);
}

/// The sum-check decomposition of the first clamp table: on any point made of a prefix part
/// `pt` (whole pairs of coordinates, any values) and the Boolean point of a suffix, the table's
/// MLE is the recombination of its prefixes' polynomials on `pt` (which `prefix_mle` evaluates
/// from the checkpoints, see `lemma_prefix_value_agrees`) with its suffixes' values (which
/// `suffix_mle` computes).
pub proof fn lemma_clamp_op1_decomposition<const X_LEN: usize>(
    table: ClampTableOp1<X_LEN>,
    pt: Seq<int>,
    suffix: LookupBits,
)
    requires
        0 <= suffix.value() < pow2(suffix.length()),
        pt.len() % 2 == 0,
        pt.len() + suffix.length() == 2 * X_LEN,
        CLAMP_OPS_UPPER < 2 * X_LEN,
    ensures
        table.mle(pt + bool_point(suffix.value(), suffix.length())) == table.combination(
            table.prefix_list().map_values(|p: Prefixes| prefix_poly(p, X_LEN as nat, pt)),
            table.suffix_list().map_values(|x: Suffixes| x.value(X_LEN as nat, suffix)),
        ),
{
    let w = bool_point(suffix.value(), suffix.length());
    lemma_clamp_prefix_polys(X_LEN as nat, pt, w);
    lemma_clamp_mle_split(pt, suffix.value(), suffix.length(), CLAMP_OP1_LOWER as nat, CLAMP_OPS_UPPER as nat);
    let r = pt + w;
    let n = (2 * X_LEN) as int;
    let m = pt.len() as int;
    assert(table.prefix_list().map_values(|p: Prefixes| prefix_poly(p, X_LEN as nat, pt)) =~= seq![
        zprod(r, 0, if m < n - CLAMP_OPS_UPPER { m } else { n - CLAMP_OPS_UPPER }),
        zprod(r, 0, if m < n - CLAMP_OP1_LOWER { m } else { n - CLAMP_OP1_LOWER }),
        wsum(r, n - CLAMP_OPS_UPPER, m, n),
        wsum(r, n - CLAMP_OP1_LOWER, m, n),
    ]);
    let s = suffix.value();
    assert(table.suffix_list().map_values(|x: Suffixes| x.value(X_LEN as nat, suffix)) =~= seq![
        below(s, CLAMP_OPS_UPPER as nat),
        below(s, CLAMP_OP1_LOWER as nat),
        s % (pow2(CLAMP_OPS_UPPER as nat) as int),
        s % (pow2(CLAMP_OP1_LOWER as nat) as int),
    ]);
}

/// The sum-check decomposition of the second clamp table (see the first).
pub proof fn lemma_clamp_op2_decomposition<const X_LEN: usize>(
    table: ClampTableOp2<X_LEN>,
    pt: Seq<int>,
    suffix: LookupBits,
)
    requires
        0 <= suffix.value() < pow2(suffix.length()),
        pt.len() % 2 == 0,
        pt.len() + suffix.length() == 2 * X_LEN,
        CLAMP_OPS_UPPER < 2 * X_LEN,
    ensures
        table.mle(pt + bool_point(suffix.value(), suffix.length())) == table.combination(
            table.prefix_list().map_values(|p: Prefixes| prefix_poly(p, X_LEN as nat, pt)),
            table.suffix_list().map_values(|x: Suffixes| x.value(X_LEN as nat, suffix)),
        ),
{
    let w = bool_point(suffix.value(), suffix.length());
    lemma_clamp_prefix_polys(X_LEN as nat, pt, w);
    lemma_clamp_mle_split(pt, suffix.value(), suffix.length(), CLAMP_OP2_LOWER as nat, CLAMP_OPS_UPPER as nat);
    let r = pt + w;
    let n = (2 * X_LEN) as int;
    let m = pt.len() as int;
    assert(table.prefix_list().map_values(|p: Prefixes| prefix_poly(p, X_LEN as nat, pt)) =~= seq![
        zprod(r, 0, if m < n - CLAMP_OPS_UPPER { m } else { n - CLAMP_OPS_UPPER }),
        zprod(r, 0, if m < n - CLAMP_OP2_LOWER { m } else { n - CLAMP_OP2_LOWER }),
        wsum(r, n - CLAMP_OPS_UPPER, m, n),
        wsum(r, n - CLAMP_OP2_LOWER, m, n),
    ]);
    let s = suffix.value();
    assert(table.suffix_list().map_values(|x: Suffixes| x.value(X_LEN as nat, suffix)) =~= seq![
        below(s, CLAMP_OPS_UPPER as nat),
        below(s, CLAMP_OP2_LOWER as nat),
        s % (pow2(CLAMP_OPS_UPPER as nat) as int),
        s % (pow2(CLAMP_OP2_LOWER as nat) as int),
    ]);
}

/// On every point of the Boolean hypercube, the clamp MLE equals the clamp table's entry.
pub proof fn lemma_clamp_mle_extends_table<const X_LEN: usize, const L: usize, const U: usize>(
    table: ClampTable<X_LEN, L, U>,
    index: u64,
)
    requires
        table.entries_defined(),
        table.mle_defined(2 * X_LEN as nat),
        U < 63,
        index < pow2(2 * X_LEN as nat),
    ensures
        table.mle(bool_point(index as int, 2 * X_LEN as nat)) == table.entry(index),
{
    let n = 2 * X_LEN as nat;
    let x = index as int;
    let r = bool_point(x, n);
    let ub = n - U - 1;
    let lb = n - L - 1;
    let pu = pow2(U as nat) as int;
    let pl = pow2(L as nat) as int;
    lemma_zprod_prefix_bits(x, n, ub + 1);
    lemma_zprod_prefix_bits(x, n, lb + 1);
    lemma_zprod_split(r, 0, ub + 1, lb + 1);
    lemma_wsum_bits(x, n, lb + 1);
    lemma_wsum_bits(x, n, ub + 1);
    lemma_wsum_split(r, ub + 1, lb + 1, n as int, n as int);
    assert((n - (ub + 1)) as nat == U as nat);
    assert((n - (lb + 1)) as nat == L as nat);
    if L < U {
        lemma_pow2_strictly_increases(L as nat, U as nat);
    }
    lemma_pow2_pos(L as nat);
    let zu = zprod(r, 0, ub + 1);
    let zl = zu * zprod(r, ub + 1, lb + 1);
    let wl = wsum(r, lb + 1, r.len() as int, n as int);
    let wu = wl + wsum(r, ub + 1, lb + 1, n as int);
    assert(zl == zprod(r, 0, lb + 1));
    let cu = signed_pow2(U as nat);
    let cl = signed_pow2(L as nat);
    assert(cu == pu && cl == pl);
    assert(table.mle(r) == cu + zu * (wu - cu) + zl * (cl - wl));
    if x < pu {
        lemma_small_mod(x as nat, pu as nat);
    }
    if x < pl {
        lemma_small_mod(x as nat, pl as nat);
    }
    assert(zu == below(x, U as nat) && zl == below(x, L as nat));
    assert(wu == x % pu && wl == x % pl);
    lemma_clamp_formula(x, L as nat, U as nat);
}

/// The clamp MLE is affine in each of its coordinates.
pub proof fn lemma_clamp_mle_affine<const X_LEN: usize, const L: usize, const U: usize>(
    table: ClampTable<X_LEN, L, U>,
    r: Seq<int>,
    k: int,
    t: int,
)
    requires
        table.mle_defined(r.len()),
        0 <= k < r.len(),
    ensures
        affine(table.mle(r.update(k, 0)), table.mle(r.update(k, 1)), table.mle(r.update(k, t)), t),
{
    let n = 2 * X_LEN as int;
    let len = r.len() as int;
    let ub = n - U - 1;
    let lb = n - L - 1;
    let r0 = r.update(k, 0);
    let r1 = r.update(k, 1);
    let rt = r.update(k, t);
    let cu = signed_pow2(U as nat);
    let cl = signed_pow2(L as nat);
    // The four building blocks are each affine in coordinate k.
    lemma_zprod_update(r, 0, ub + 1, k, t);
    lemma_zprod_update(r, ub + 1, lb + 1, k, t);
    lemma_wsum_affine(r, lb + 1, len, n, k, t);
    lemma_wsum_affine(r, ub + 1, lb + 1, n, k, t);
    let zu0 = zprod(r0, 0, ub + 1);
    let zu1 = zprod(r1, 0, ub + 1);
    let zut = zprod(rt, 0, ub + 1);
    let zm0 = zprod(r0, ub + 1, lb + 1);
    let zm1 = zprod(r1, ub + 1, lb + 1);
    let zmt = zprod(rt, ub + 1, lb + 1);
    let wl0 = wsum(r0, lb + 1, len, n);
    let wl1 = wsum(r1, lb + 1, len, n);
    let wlt = wsum(rt, lb + 1, len, n);
    let wm0 = wsum(r0, ub + 1, lb + 1, n);
    let wm1 = wsum(r1, ub + 1, lb + 1, n);
    let wmt = wsum(rt, ub + 1, lb + 1, n);
    // Each factor of a product depends on a different range of coordinates.
    if k < ub + 1 {
        lemma_frame(r, ub + 1, lb + 1, n, k, 0);
        lemma_frame(r, ub + 1, lb + 1, n, k, 1);
        lemma_frame(r, ub + 1, lb + 1, n, k, t);
    } else {
        lemma_frame(r, 0, ub + 1, n, k, 0);
        lemma_frame(r, 0, ub + 1, n, k, 1);
        lemma_frame(r, 0, ub + 1, n, k, t);
    }
    if k < lb + 1 {
        lemma_frame(r, lb + 1, len, n, k, 0);
        lemma_frame(r, lb + 1, len, n, k, 1);
        lemma_frame(r, lb + 1, len, n, k, t);
    } else {
        lemma_frame(r, ub + 1, lb + 1, n, k, 0);
        lemma_frame(r, ub + 1, lb + 1, n, k, 1);
        lemma_frame(r, ub + 1, lb + 1, n, k, t);
    }
    lemma_affine_mul(zu0, zu1, zut, zm0, zm1, zmt, t);
    lemma_affine_add(wl0, wl1, wlt, wm0, wm1, wmt, t);
    lemma_affine_const(cu, t);
    lemma_affine_const(cl, t);
    lemma_affine_add(wl0 + wm0, wl1 + wm1, wlt + wmt, cu, cu, cu, t);
    lemma_affine_add(cl, cl, cl, wl0, wl1, wlt, t);
    lemma_affine_mul(zu0, zu1, zut, wl0 + wm0 - cu, wl1 + wm1 - cu, wlt + wmt - cu, t);
    lemma_affine_mul(
        zu0 * zm0,
        zu1 * zm1,
        zut * zmt,
        cl - wl0,
        cl - wl1,
        cl - wlt,
        t,
    );
    lemma_affine_add(
        cu,
        cu,
        cu,
        zu0 * (wl0 + wm0 - cu),
        zu1 * (wl1 + wm1 - cu),
        zut * (wlt + wmt - cu),
        t,
    );
    lemma_affine_add(
        cu + zu0 * (wl0 + wm0 - cu),
        cu + zu1 * (wl1 + wm1 - cu),
        cu + zut * (wlt + wmt - cu),
        zu0 * zm0 * (cl - wl0),
        zu1 * zm1 * (cl - wl1),
        zut * zmt * (cl - wlt),
        t,
    );
}

/// The clamp recombination with suffix slot `k` taken out: the part that does not depend on it.
spec fn clamp_slot_rest(p: Seq<int>, s: Seq<int>, k: int, lower_log: nat, upper_log: nat) -> int {
    let cu = pow2(upper_log) as int;
    let cl = pow2(lower_log) as int;
    let upper_part = p[0] * s[0] * ((p[2] + s[2]) - cu);
    let lower_part = p[1] * s[1] * (cl - (p[3] + s[3]));
    if k == 0 {
        cu + lower_part
    } else if k == 1 {
        cu + upper_part
    } else if k == 2 {
        cu + p[0] * s[0] * (p[2] - cu) + lower_part
    } else {
        cu + upper_part + p[1] * s[1] * (cl - p[3])
    }
}

/// The coefficient of suffix slot `k` in the clamp recombination.
spec fn clamp_slot_coefficient(p: Seq<int>, s: Seq<int>, k: int, lower_log: nat, upper_log: nat) -> int {
    let cu = pow2(upper_log) as int;
    let cl = pow2(lower_log) as int;
    if k == 0 {
        p[0] * ((p[2] + s[2]) - cu)
    } else if k == 1 {
        p[1] * (cl - (p[3] + s[3]))
    } else if k == 2 {
        p[0] * s[0]
    } else {
        -(p[1] * s[1])
    }
}

/// With suffix slot `k` set to `x`, the clamp recombination is `rest + x · coefficient`.
proof fn lemma_clamp_slot_form(p: Seq<int>, s: Seq<int>, k: int, x: int, lower_log: nat, upper_log: nat)
    requires
        p.len() == 4,
        s.len() == 4,
        0 <= k < 4,
    ensures
        clamp_combination(p, s.update(k, x), lower_log, upper_log) == clamp_slot_rest(p, s, k, lower_log, upper_log)
            + x * clamp_slot_coefficient(p, s, k, lower_log, upper_log),
{
    let q = s.update(k, x);
    let cu = pow2(upper_log) as int;
    let cl = pow2(lower_log) as int;
    if k == 0 {
        assert(q[0] == x && q[1] == s[1] && q[2] == s[2] && q[3] == s[3]);
        let a = p[0];
        let b = (p[2] + s[2]) - cu;
        assert(a * x * b == x * (a * b)) by (nonlinear_arith);
    } else if k == 1 {
        assert(q[0] == s[0] && q[1] == x && q[2] == s[2] && q[3] == s[3]);
        let a = p[1];
        let b = cl - (p[3] + s[3]);
        assert(a * x * b == x * (a * b)) by (nonlinear_arith);
    } else if k == 2 {
        assert(q[0] == s[0] && q[1] == s[1] && q[2] == x && q[3] == s[3]);
        let m = p[0] * s[0];
        assert(m * ((p[2] + x) - cu) == m * (p[2] - cu) + x * m) by (nonlinear_arith);
    } else {
        assert(q[0] == s[0] && q[1] == s[1] && q[2] == s[2] && q[3] == x);
        let m = p[1] * s[1];
        assert(m * (cl - (p[3] + x)) == m * (cl - p[3]) + x * (-m)) by (nonlinear_arith);
    }
}

/// A line `rest + x · coefficient` is affine in `x`.
proof fn lemma_affine_line(rest: int, coefficient: int, t: int)
    ensures
        affine(rest + 0 * coefficient, rest + 1 * coefficient, rest + t * coefficient, t),
{
    assert(rest + t * coefficient == (rest + 0 * coefficient) + t * ((rest + 1 * coefficient) - (rest + 0
        * coefficient))) by (nonlinear_arith);
}

/// The clamp recombination is affine in each suffix evaluation: every suffix slot enters it
/// with degree at most one, as the recombination of multilinear extensions must (so that the
/// recombined polynomial keeps degree at most one in every variable).
pub proof fn lemma_clamp_affine_in_suffixes(p: Seq<int>, s: Seq<int>, k: int, t: int, lower_log: nat, upper_log: nat)
    requires
        p.len() == 4,
        s.len() == 4,
        0 <= k < 4,
    ensures
        affine(
            clamp_combination(p, s.update(k, 0), lower_log, upper_log),
            clamp_combination(p, s.update(k, 1), lower_log, upper_log),
            clamp_combination(p, s.update(k, t), lower_log, upper_log),
            t,
        ),
{
    lemma_clamp_slot_form(p, s, k, 0, lower_log, upper_log);
    lemma_clamp_slot_form(p, s, k, 1, lower_log, upper_log);
    lemma_clamp_slot_form(p, s, k, t, lower_log, upper_log);
    lemma_affine_line(
        clamp_slot_rest(p, s, k, lower_log, upper_log),
        clamp_slot_coefficient(p, s, k, lower_log, upper_log),
        t,
    );
}

/// Each clamp table's recombination is affine in each suffix evaluation.
pub proof fn lemma_clamp_tables_affine_in_suffixes<const X_LEN: usize>(
    op1: ClampTableOp1<X_LEN>,
    op2: ClampTableOp2<X_LEN>,
    p: Seq<int>,
    s: Seq<int>,
    k: int,
    t: int,
)
    requires
        p.len() == 4,
        s.len() == 4,
        0 <= k < 4,
    ensures
        affine(op1.combination(p, s.update(k, 0)), op1.combination(p, s.update(k, 1)), op1.combination(p, s.update(k, t)), t),
        affine(op2.combination(p, s.update(k, 0)), op2.combination(p, s.update(k, 1)), op2.combination(p, s.update(k, t)), t),
{
    lemma_clamp_affine_in_suffixes(p, s, k, t, CLAMP_OP1_LOWER as nat, CLAMP_OPS_UPPER as nat);
    lemma_clamp_affine_in_suffixes(p, s, k, t, CLAMP_OP2_LOWER as nat, CLAMP_OPS_UPPER as nat);
}

} // verus!
