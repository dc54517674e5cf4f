//! Vector-level operations and their mathematical models: sums, dot products,
//! the softmax distribution, one-hot targets, squared error, and row-major
//! flattening with its inverse reshape.
use crate::fixed::{exp_approx, exp_spec, EXP_MAX, SCALE};
use vstd::arithmetic::div_mod::{
    lemma_div_is_ordered, lemma_div_multiples_vanish, lemma_div_pos_is_pos,
    lemma_fundamental_div_mod, lemma_multiply_divide_lt,
};
use vstd::arithmetic::mul::{lemma_mul_inequality, lemma_mul_is_distributive_add};
use vstd::prelude::*;

verus! {

/// Largest layer width the library accepts (keeps every sum inside `i64`).
pub const MAX_DIM: usize = 1000000;

/// Magnitude cap for weights, biases and mounted inputs, in `SCALE` units.
pub const PARAM_LIMIT: i64 = 16 * SCALE;

/// Magnitude cap on any affine result under the caps above:
/// `MAX_DIM * PARAM_LIMIT * PARAM_LIMIT / SCALE + PARAM_LIMIT`.
pub const Z_LIMIT: i64 = 1000000 * 16777216 + 1048576;

/// Sum of a sequence of integers.
pub open spec fn seq_sum(s: Seq<int>) -> int
    decreases s.len(),
{
    if s.len() == 0 {
        0
    } else {
        seq_sum(s.drop_last()) + s.last()
    }
}

pub proof fn lemma_seq_sum_prefix(s: Seq<int>, i: int)
    requires
        0 <= i < s.len(),
    ensures
        seq_sum(s.subrange(0, i + 1)) == seq_sum(s.subrange(0, i)) + s[i],
{
    let p = s.subrange(0, i + 1);
    assert(p.drop_last() =~= s.subrange(0, i));
}

pub proof fn lemma_seq_sum_bounds(s: Seq<int>, lo: int, hi: int)
    requires
        forall|i: int| 0 <= i < s.len() ==> lo <= #[trigger] s[i] <= hi,
    ensures
        s.len() * lo <= seq_sum(s) <= s.len() * hi,
    decreases s.len(),
{
    if s.len() == 0 {
    } else {
        let d = s.drop_last();
        lemma_seq_sum_bounds(d, lo, hi);
        assert((s.len() - 1) * lo + lo == s.len() * lo) by (nonlinear_arith);
        assert((s.len() - 1) * hi + hi == s.len() * hi) by (nonlinear_arith);
    }
}

pub proof fn lemma_seq_sum_lower(s: Seq<int>, lo: int)
    requires
        forall|i: int| 0 <= i < s.len() ==> lo <= #[trigger] s[i],
    ensures
        s.len() * lo <= seq_sum(s),
    decreases s.len(),
{
    if s.len() > 0 {
        lemma_seq_sum_lower(s.drop_last(), lo);
        assert((s.len() - 1) * lo + lo == s.len() * lo) by (nonlinear_arith);
    } else {
        assert(s.len() * lo == 0) by (nonlinear_arith)
            requires
                s.len() == 0,
        ;
    }
}

/// In a sequence of values each at least one, every element is at most the
/// sum minus the count of the other elements.
pub proof fn lemma_seq_sum_element_bound(s: Seq<int>, i: int)
    requires
        0 <= i < s.len(),
        forall|j: int| 0 <= j < s.len() ==> 1 <= #[trigger] s[j],
    ensures
        s[i] + s.len() - 1 <= seq_sum(s),
    decreases s.len(),
{
    let d = s.drop_last();
    if i == s.len() - 1 {
        lemma_seq_sum_lower(d, 1);
        assert(d.len() * 1 == d.len()) by (nonlinear_arith);
    } else {
        lemma_seq_sum_element_bound(d, i);
    }
}

/// The exponentials of a sequence of fixed-point arguments.
pub open spec fn exp_seq(s: Seq<i64>) -> Seq<int> {
    Seq::new(s.len(), |i: int| exp_spec(s[i] as int))
}

pub open spec fn exp_sum(s: Seq<i64>) -> int {
    seq_sum(exp_seq(s))
}

/// The softmax distribution of a sequence of fixed-point arguments: each
/// exponential scaled by `SCALE` and divided by the sum of all exponentials.
pub open spec fn softmax_spec(s: Seq<i64>) -> Seq<int> {
    Seq::new(s.len(), |i: int| exp_spec(s[i] as int) * SCALE / exp_sum(s))
}

pub proof fn lemma_exp_seq_bounds(s: Seq<i64>)
    ensures
        forall|i: int| 0 <= i < s.len() ==> 1 <= #[trigger] exp_seq(s)[i] <= EXP_MAX,
        s.len() <= exp_sum(s) <= s.len() * EXP_MAX,
{
    assert forall|i: int| 0 <= i < s.len() implies 1 <= #[trigger] exp_seq(s)[i] <= EXP_MAX by {
        crate::fixed::lemma_exp_spec_bounds(s[i] as int);
    }
    lemma_seq_sum_bounds(exp_seq(s), 1, EXP_MAX as int);
    assert(s.len() * 1 == s.len()) by (nonlinear_arith);
}

/// Scaling a nonnegative sequence by `SCALE / t` and rounding down keeps the
/// scaled sum within one rounding unit per element.
proof fn lemma_div_seq_sum(q: Seq<int>, t: int)
    requires
        1 <= t,
        forall|i: int| 0 <= i < q.len() ==> 0 <= #[trigger] q[i],
    ensures
        t * seq_sum(Seq::new(q.len(), |i: int| q[i] * SCALE / t)) <= seq_sum(q) * SCALE,
        t * seq_sum(Seq::new(q.len(), |i: int| q[i] * SCALE / t)) >= seq_sum(q) * SCALE - q.len()
            * (t - 1),
    decreases q.len(),
{
    let p = Seq::new(q.len(), |i: int| q[i] * SCALE / t);
    if q.len() == 0 {
        assert(seq_sum(q) * SCALE == 0) by (nonlinear_arith)
            requires
                seq_sum(q) == 0,
        ;
    } else {
        let qd = q.drop_last();
        let pd = Seq::new(qd.len(), |i: int| qd[i] * SCALE / t);
        lemma_div_seq_sum(qd, t);
        assert(p.drop_last() =~= pd);
        let x = q.last();
        let xdiv = x * SCALE / t;
        lemma_fundamental_div_mod(x * SCALE, t);
        lemma_mul_is_distributive_add(t, seq_sum(pd), xdiv);
        assert(seq_sum(q) * SCALE == seq_sum(qd) * SCALE + x * SCALE) by (nonlinear_arith)
            requires
                seq_sum(q) == seq_sum(qd) + x,
        ;
        assert((q.len() - 1) * t + t == q.len() * t) by (nonlinear_arith);
        assert(0 <= (x * SCALE) % t < t) by {
            vstd::arithmetic::div_mod::lemma_mod_bound(x * SCALE, t);
            vstd::arithmetic::mul::lemma_mul_nonnegative(x, SCALE as int);
        }
        assert(t * xdiv <= x * SCALE);
        assert(t * xdiv >= x * SCALE - (t - 1));
        assert(seq_sum(p) == seq_sum(pd) + xdiv);
        assert(t * seq_sum(p) == t * seq_sum(pd) + t * xdiv);
        assert((q.len() - 1) * (t - 1) + (t - 1) == q.len() * (t - 1)) by (nonlinear_arith);
        assert(t * seq_sum(pd) >= seq_sum(qd) * SCALE - (q.len() - 1) * (t - 1));
        assert(t * seq_sum(p) >= seq_sum(q) * SCALE - q.len() * (t - 1));
    }
}

/// The softmax outputs are a near-distribution: every entry lies in
/// `[0, SCALE]` (strictly under `SCALE` when there are at least two entries)
/// and the entries sum to `SCALE` up to one rounding unit per entry.
pub proof fn lemma_softmax_distribution(s: Seq<i64>)
    requires
        1 <= s.len(),
    ensures
        SCALE - s.len() < seq_sum(softmax_spec(s)) <= SCALE,
        forall|i: int| 0 <= i < s.len() ==> 0 <= #[trigger] softmax_spec(s)[i] <= SCALE,
        s.len() >= 2 ==> forall|i: int| 0 <= i < s.len() ==> #[trigger] softmax_spec(s)[i]
            < SCALE,
        forall|i: int|
            0 <= i < s.len() && exp_seq(s)[i] * SCALE >= exp_sum(s) ==> #[trigger] softmax_spec(
                s,
            )[i] >= 1,
{
    let q = exp_seq(s);
    let t = exp_sum(s);
    lemma_exp_seq_bounds(s);
    assert forall|i: int| 0 <= i < q.len() implies 0 <= #[trigger] q[i] by {}
    lemma_div_seq_sum(q, t);
    assert(softmax_spec(s) =~= Seq::new(q.len(), |i: int| q[i] * SCALE / t));
    let total = seq_sum(softmax_spec(s));
    assert(total <= SCALE) by (nonlinear_arith)
        requires
            1 <= t,
            t * total <= t * SCALE,
    ;
    assert(total > SCALE - s.len()) by (nonlinear_arith)
        requires
            1 <= t,
            1 <= s.len(),
            t * total >= t * SCALE - s.len() * (t - 1),
    ;
    assert forall|i: int|
        0 <= i < s.len() && exp_seq(s)[i] * SCALE >= exp_sum(s) implies #[trigger] softmax_spec(
        s,
    )[i] >= 1 by {
        vstd::arithmetic::div_mod::lemma_div_non_zero(q[i] * SCALE, t);
    }
    assert forall|i: int| 0 <= i < s.len() implies 0 <= #[trigger] softmax_spec(s)[i]
        <= SCALE by {
        lemma_seq_sum_element_bound(q, i);
        lemma_div_pos_is_pos(q[i] * SCALE, t);
        lemma_mul_inequality(q[i], t, SCALE as int);
        assert(q[i] * SCALE == SCALE * q[i]) by (nonlinear_arith);
        assert(t * SCALE == SCALE * t) by (nonlinear_arith);
        lemma_div_is_ordered(q[i] * SCALE, t * SCALE, t);
        lemma_div_multiples_vanish(SCALE as int, t);
        assert((t * SCALE) / t == SCALE);
    }
    if s.len() >= 2 {
        assert forall|i: int| 0 <= i < s.len() implies #[trigger] softmax_spec(s)[i] < SCALE by {
            lemma_seq_sum_element_bound(q, i);
            assert(q[i] < t);
            assert(q[i] * SCALE < t * SCALE) by (nonlinear_arith)
                requires
                    q[i] < t,
                    SCALE > 0,
            ;
            lemma_multiply_divide_lt(q[i] * SCALE, t, SCALE as int);
        }
    }
}

/// Compute the softmax distribution of `v`, exactly as `softmax_spec` states.
pub fn softmax_vec(v: &Vec<i64>) -> (r: Vec<i64>)
    requires
        1 <= v.len() <= MAX_DIM,
    ensures
        r.len() == v.len(),
        forall|i: int| 0 <= i < v.len() ==> r@[i] as int == #[trigger] softmax_spec(v@)[i],
        forall|i: int| 0 <= i < v.len() ==> 0 <= #[trigger] r@[i] <= SCALE,
{
    proof {
        lemma_exp_seq_bounds(v@);
        lemma_softmax_distribution(v@);
    }
    let n = v.len();
    let mut exps: Vec<i64> = Vec::new();
    let mut i: usize = 0;
    while i < n
        invariant
            0 <= i <= n == v.len() <= MAX_DIM,
            exps.len() == i,
            forall|j: int| 0 <= j < i ==> exps@[j] as int == #[trigger] exp_seq(v@)[j],
            forall|j: int| 0 <= j < i ==> 1 <= #[trigger] exps@[j] <= EXP_MAX,
        decreases n - i,
    {
        let e = exp_approx(v[i]);
        exps.push(e);
        i = i + 1;
    }
    let mut total: i64 = 0;
    let mut j: usize = 0;
    while j < n
        invariant
            0 <= j <= n == v.len() <= MAX_DIM,
            exps.len() == n,
            forall|k: int| 0 <= k < n ==> exps@[k] as int == #[trigger] exp_seq(v@)[k],
            forall|k: int| 0 <= k < n ==> 1 <= #[trigger] exps@[k] <= EXP_MAX,
            total as int == seq_sum(exp_seq(v@).subrange(0, j as int)),
            j <= total <= j * EXP_MAX,
        decreases n - j,
    {
        proof {
            lemma_seq_sum_prefix(exp_seq(v@), j as int);
            lemma_seq_sum_bounds(exp_seq(v@).subrange(0, j as int), 1, EXP_MAX as int);
            assert((j + 1) * (EXP_MAX as int) == j * EXP_MAX + EXP_MAX) by (nonlinear_arith);
            assert(j * (EXP_MAX as int) <= (MAX_DIM as int) * EXP_MAX) by (nonlinear_arith)
                requires
                    0 <= j <= MAX_DIM,
                    EXP_MAX > 0,
            ;
        }
        total = total + exps[j];
        j = j + 1;
    }
    proof {
        assert(exp_seq(v@).subrange(0, n as int) =~= exp_seq(v@));
        assert(total as int == exp_sum(v@));
    }
    let mut r: Vec<i64> = Vec::new();
    let mut k: usize = 0;
    while k < n
        invariant
            0 <= k <= n == v.len() <= MAX_DIM,
            exps.len() == n,
            r.len() == k,
            1 <= total,
            total as int == exp_sum(v@),
            forall|m: int| 0 <= m < n ==> exps@[m] as int == #[trigger] exp_seq(v@)[m],
            forall|m: int| 0 <= m < n ==> 1 <= #[trigger] exps@[m] <= EXP_MAX,
            forall|m: int| 0 <= m < k ==> r@[m] as int == #[trigger] softmax_spec(v@)[m],
            forall|m: int| 0 <= m < k ==> 0 <= #[trigger] r@[m] <= SCALE,
        decreases n - k,
    {
        proof {
            lemma_div_pos_is_pos(exps@[k as int] * SCALE, total as int);
            lemma_softmax_distribution(v@);
        }
        let p = exps[k] * SCALE / total;
        proof {
            assert(softmax_spec(v@)[k as int] == exp_seq(v@)[k as int] * SCALE / exp_sum(v@));
            assert(p as int == softmax_spec(v@)[k as int]);
            assert(0 <= softmax_spec(v@)[k as int] <= SCALE);
        }
        r.push(p);
        k = k + 1;
    }
    r
}

/// Partial dot product: the sum of the first `n` coordinate products.
pub open spec fn dot_prefix(w: Seq<i64>, x: Seq<i64>, n: int) -> int
    decreases n,
{
    if n <= 0 {
        0
    } else {
        dot_prefix(w, x, n - 1) + w[n - 1] * x[n - 1]
    }
}

/// Dot product of a weight row with an input vector.
pub open spec fn dot_spec(w: Seq<i64>, x: Seq<i64>) -> int {
    dot_prefix(w, x, w.len() as int)
}

/// A dot product against all-zero weights is zero.
pub proof fn lemma_dot_prefix_zero(w: Seq<i64>, x: Seq<i64>, n: int)
    requires
        0 <= n <= w.len(),
        forall|i: int| 0 <= i < n ==> #[trigger] w[i] == 0,
    ensures
        dot_prefix(w, x, n) == 0,
    decreases n,
{
    if n > 0 {
        lemma_dot_prefix_zero(w, x, n - 1);
        assert((0int) * x[n - 1] == 0) by (nonlinear_arith);
    }
}

/// One-hot target distribution: a full unit at the correct class, zero
/// elsewhere.
pub open spec fn one_hot(n: nat, class: int) -> Seq<int> {
    Seq::new(n, |i: int| if i == class { SCALE as int } else { 0 })
}

/// Squared differences between a target distribution and an activation
/// vector.
pub open spec fn sq_err_seq(target: Seq<int>, a: Seq<i64>) -> Seq<int> {
    Seq::new(a.len(), |i: int| (target[i] - a[i]) * (target[i] - a[i]))
}

/// The cost of an activation vector against the one-hot target of `class`:
/// the sum of squared differences, scaled by `1 / (2 * len)`, in `SCALE`
/// units.
pub open spec fn cost_spec(a: Seq<i64>, class: int) -> int {
    seq_sum(sq_err_seq(one_hot(a.len(), class), a)) / (2 * a.len() * SCALE)
}

/// The diagonal softmax derivative term `p * (1 - p)` at position `i`, with
/// `p` the softmax of the stored arguments. This ignores the off-diagonal
/// terms of the softmax Jacobian: a deliberate, documented simplification.
pub open spec fn softmax_deriv(args: Seq<i64>, i: int) -> int {
    let p = softmax_spec(args)[i];
    p * ((SCALE as int) - p) / (SCALE as int)
}

/// Fixed-point product of a nonnegative factor with a signed factor, scaled
/// back to `SCALE` units and rounded toward zero.
pub open spec fn mul_scale_spec(s: int, d: int) -> int {
    if d >= 0 {
        s * d / (SCALE as int)
    } else {
        -(s * (-d) / (SCALE as int))
    }
}

/// The output layer's bias gradient at position `i`: the cost derivative
/// `a - t` times the diagonal softmax derivative recomputed from the stored
/// arguments.
pub open spec fn bias_grad_spec(args: Seq<i64>, acts: Seq<i64>, class: int, i: int) -> int {
    mul_scale_spec(softmax_deriv(args, i), acts[i] - one_hot(acts.len(), class)[i])
}

/// In a sequence of nonnegative values, every element is at most the sum.
pub proof fn lemma_seq_sum_element_le(s: Seq<int>, i: int)
    requires
        0 <= i < s.len(),
        forall|j: int| 0 <= j < s.len() ==> 0 <= #[trigger] s[j],
    ensures
        s[i] <= seq_sum(s),
    decreases s.len(),
{
    let d = s.drop_last();
    if i == s.len() - 1 {
        lemma_seq_sum_lower(d, 0);
        assert(d.len() * 0 == 0) by (nonlinear_arith);
    } else {
        lemma_seq_sum_element_le(d, i);
    }
}

/// Pointwise dominated sequences have dominated sums.
pub proof fn lemma_seq_sum_mono(s1: Seq<int>, s2: Seq<int>)
    requires
        s1.len() == s2.len(),
        forall|i: int| 0 <= i < s1.len() ==> #[trigger] s1[i] <= #[trigger] s2[i],
    ensures
        seq_sum(s1) <= seq_sum(s2),
    decreases s1.len(),
{
    if s1.len() > 0 {
        lemma_seq_sum_mono(s1.drop_last(), s2.drop_last());
    }
}

/// An activation vector that equals the one-hot target has cost exactly
/// zero.
pub proof fn lemma_cost_zero_at_target(a: Seq<i64>, class: int)
    requires
        1 <= a.len(),
        0 <= class < a.len(),
        forall|i: int| 0 <= i < a.len() ==> #[trigger] a[i] as int == one_hot(a.len(), class)[i],
    ensures
        cost_spec(a, class) == 0,
{
    let errs = sq_err_seq(one_hot(a.len(), class), a);
    assert forall|i: int| 0 <= i < errs.len() implies 0 <= #[trigger] errs[i] <= 0 by {
        assert((0int) * 0 == 0) by (nonlinear_arith);
    }
    lemma_seq_sum_bounds(errs, 0, 0);
    assert(errs.len() * 0 == 0) by (nonlinear_arith);
    vstd::arithmetic::div_mod::lemma_div_of0(2 * a.len() * SCALE);
}

/// When the cost is zero, every output entry is within one rounding unit of
/// the target: each squared difference is under `2 * len * SCALE`.
pub proof fn lemma_cost_zero_is_close(a: Seq<i64>, class: int)
    requires
        1 <= a.len(),
        0 <= class < a.len(),
        cost_spec(a, class) == 0,
    ensures
        forall|i: int|
            0 <= i < a.len() ==> (one_hot(a.len(), class)[i] - a[i]) * (one_hot(a.len(), class)[i]
                - a[i]) < 2 * a.len() * SCALE,
{
    let errs = sq_err_seq(one_hot(a.len(), class), a);
    assert forall|i: int| 0 <= i < errs.len() implies 0 <= #[trigger] errs[i] by {
        let d = one_hot(a.len(), class)[i] - a[i];
        assert(0 <= d * d) by (nonlinear_arith);
    }
    lemma_seq_sum_lower(errs, 0);
    assert(errs.len() * 0 == 0) by (nonlinear_arith);
    vstd::arithmetic::div_mod::lemma_small_div_converse(seq_sum(errs), 2 * a.len() * SCALE);
    assert forall|i: int|
        0 <= i < a.len() implies (one_hot(a.len(), class)[i] - a[i]) * (one_hot(a.len(), class)[i]
        - a[i]) < 2 * a.len() * SCALE by {
        lemma_seq_sum_element_le(errs, i);
    }
}

/// Cost grows as activation mass shifts away from the target: if every
/// entry of `a2` is at least as far from the one-hot target as the matching
/// entry of `a1` (by squared difference), the cost of `a2` is at least the
/// cost of `a1`.
pub proof fn lemma_cost_monotone(a1: Seq<i64>, a2: Seq<i64>, class: int)
    requires
        a1.len() == a2.len(),
        1 <= a1.len(),
        0 <= class < a1.len(),
        forall|i: int|
            0 <= i < a1.len() ==> (one_hot(a1.len(), class)[i] - a1[i]) * (one_hot(
                a1.len(),
                class,
            )[i] - a1[i]) <= (one_hot(a2.len(), class)[i] - a2[i]) * (one_hot(a2.len(), class)[i]
                - a2[i]),
    ensures
        cost_spec(a1, class) <= cost_spec(a2, class),
{
    let e1 = sq_err_seq(one_hot(a1.len(), class), a1);
    let e2 = sq_err_seq(one_hot(a2.len(), class), a2);
    lemma_seq_sum_mono(e1, e2);
    lemma_div_is_ordered(seq_sum(e1), seq_sum(e2), 2 * a1.len() * SCALE);
}

/// When the output activations already equal the one-hot target, the output
/// bias gradient is the zero vector.
pub proof fn lemma_gradient_zero_at_target(args: Seq<i64>, acts: Seq<i64>, class: int)
    requires
        0 <= class < acts.len(),
        forall|i: int|
            0 <= i < acts.len() ==> #[trigger] acts[i] as int == one_hot(acts.len(), class)[i],
    ensures
        forall|i: int| 0 <= i < acts.len() ==> #[trigger] bias_grad_spec(args, acts, class, i) == 0,
{
    assert forall|i: int|
        0 <= i < acts.len() implies #[trigger] bias_grad_spec(args, acts, class, i) == 0 by {
        let s = softmax_deriv(args, i);
        assert(acts[i] - one_hot(acts.len(), class)[i] == 0);
        assert(s * 0 == 0) by (nonlinear_arith);
        vstd::arithmetic::div_mod::lemma_div_of0(SCALE as int);
    }
}

/// Row-major flattening of a matrix held as a sequence of rows.
pub open spec fn flatten_spec(img: Seq<Seq<i64>>) -> Seq<i64>
    decreases img.len(),
{
    if img.len() == 0 {
        Seq::empty()
    } else {
        flatten_spec(img.drop_last()) + img.last()
    }
}

/// Reshape of a flat vector into `rows` rows of `cols` entries.
pub open spec fn reshape_spec(v: Seq<i64>, rows: nat, cols: nat) -> Seq<Seq<i64>> {
    Seq::new(rows, |i: int| v.subrange(i * cols, i * cols + cols))
}

pub proof fn lemma_flatten_len(img: Seq<Seq<i64>>, cols: nat)
    requires
        forall|i: int| 0 <= i < img.len() ==> (#[trigger] img[i]).len() == cols,
    ensures
        flatten_spec(img).len() == img.len() * cols,
    decreases img.len(),
{
    if img.len() == 0 {
        assert(img.len() * cols == 0) by (nonlinear_arith)
            requires
                img.len() == 0,
        ;
    } else {
        lemma_flatten_len(img.drop_last(), cols);
        assert((img.len() - 1) * cols + cols == img.len() * cols) by (nonlinear_arith);
    }
}

pub proof fn lemma_flatten_prefix(img: Seq<Seq<i64>>, r: int)
    requires
        0 <= r < img.len(),
    ensures
        flatten_spec(img.subrange(0, r + 1)) == flatten_spec(img.subrange(0, r)) + img[r],
{
    let p = img.subrange(0, r + 1);
    assert(p.drop_last() =~= img.subrange(0, r));
}

/// Flattening a well-shaped matrix and reshaping the result gives the matrix
/// back: flatten-then-reshape is the identity.
pub proof fn lemma_reshape_flatten(img: Seq<Seq<i64>>, cols: nat)
    requires
        forall|i: int| 0 <= i < img.len() ==> (#[trigger] img[i]).len() == cols,
    ensures
        reshape_spec(flatten_spec(img), img.len() as nat, cols) == img,
    decreases img.len(),
{
    let rows = img.len() as nat;
    let flat = flatten_spec(img);
    lemma_flatten_len(img, cols);
    if img.len() == 0 {
        assert(reshape_spec(flat, rows, cols) =~= img);
    } else {
        let d = img.drop_last();
        lemma_reshape_flatten(d, cols);
        lemma_flatten_len(d, cols);
        assert forall|i: int| 0 <= i < img.len() implies reshape_spec(flat, rows, cols)[i] == img[i] by {
            assert(i * cols >= 0) by (nonlinear_arith)
                requires
                    i >= 0,
                    cols >= 0,
            ;
            assert(i * cols + cols <= img.len() * cols) by (nonlinear_arith)
                requires
                    i < img.len(),
                    cols >= 0,
            ;
            if i < img.len() - 1 {
                assert(i * cols + cols <= d.len() * cols) by (nonlinear_arith)
                    requires
                        i < d.len(),
                        cols >= 0,
                ;
                assert(flat.subrange(i * cols, i * cols + cols) =~= flatten_spec(d).subrange(
                    i * cols,
                    i * cols + cols,
                ));
                assert(reshape_spec(flatten_spec(d), d.len() as nat, cols)[i] == d[i]);
            } else {
                assert(i == img.len() - 1);
                assert(i * cols == d.len() * cols) by (nonlinear_arith)
                    requires
                        i == d.len(),
                ;
                assert(flat.subrange(i * cols, i * cols + cols) =~= img.last());
            }
        }
        assert(reshape_spec(flat, rows, cols) =~= img);
    }
}

/// Copy a vector of fixed-point values.
pub fn copy_vec(v: &Vec<i64>) -> (r: Vec<i64>)
    ensures
        r@ == v@,
{
    let mut r: Vec<i64> = Vec::new();
    let mut i: usize = 0;
    while i < v.len()
        invariant
            0 <= i <= v.len(),
            r@ == v@.subrange(0, i as int),
        decreases v.len() - i,
    {
        r.push(v[i]);
        i = i + 1;
    }
    proof {
        assert(v@.subrange(0, v.len() as int) =~= v@);
    }
    r
}

/// A zero-filled vector.
pub fn zero_vec(n: usize) -> (r: Vec<i64>)
    ensures
        r.len() == n,
        forall|i: int| 0 <= i < n ==> r@[i] == 0,
{
    let mut r: Vec<i64> = Vec::new();
    let mut i: usize = 0;
    while i < n
        invariant
            0 <= i <= n,
            r.len() == i,
            forall|j: int| 0 <= j < i ==> r@[j] == 0,
        decreases n - i,
    {
        r.push(0);
        i = i + 1;
    }
    r
}

} // verus!
