//! Fixed-point scalar arithmetic for the network: values are reals scaled by
//! `SCALE`, stored in `i64`. The nonlinearities (leaky ramp, tanh, softmax's
//! exponential) are computed exactly as the spec functions here state them.
use vstd::arithmetic::div_mod::{
    lemma_multiply_divide_lt,
    lemma_div_is_ordered, lemma_div_multiples_vanish, lemma_div_of0, lemma_div_pos_is_pos,
    lemma_mod_bound, lemma_mod_multiples_basic,
};
use vstd::arithmetic::mul::{lemma_mul_inequality, lemma_mul_nonnegative};
use vstd::prelude::*;

verus! {

/// One real unit in fixed-point representation.
pub const SCALE: i64 = 65536;

/// Euler's number scaled by `SCALE` (rounded to the nearest unit).
pub const EXP_UNIT: i64 = 178145;

/// Arguments to the exponential are clamped to `[-EXP_ARG_LIMIT, EXP_ARG_LIMIT]`.
pub const EXP_ARG_LIMIT: i64 = 16 * SCALE;

/// Arguments to the hyperbolic tangent are clamped to `[-TANH_ARG_LIMIT, TANH_ARG_LIMIT]`.
pub const TANH_ARG_LIMIT: i64 = 8 * SCALE;

/// Upper bound on every value `exp_approx` returns: 3^17 * SCALE.
pub const EXP_MAX: i64 = 3 * 43046721 * SCALE;

pub open spec fn clamp_spec(x: int, lo: int, hi: int) -> int {
    if x < lo {
        lo
    } else if x > hi {
        hi
    } else {
        x
    }
}

/// Second-order series for exp on a fractional argument `0 <= r < SCALE`.
pub open spec fn exp_taylor(r: int) -> int {
    SCALE + r + r * r / (2 * SCALE)
}

pub open spec fn exp_step_up(a: int) -> int {
    a * EXP_UNIT / (SCALE as int)
}

pub open spec fn exp_step_down(a: int) -> int {
    let d = a * SCALE / (EXP_UNIT as int);
    if d < 1 {
        1
    } else {
        d
    }
}

pub open spec fn exp_steps_up(a: int, q: nat) -> int
    decreases q,
{
    if q == 0 {
        a
    } else {
        exp_steps_up(exp_step_up(a), (q - 1) as nat)
    }
}

pub open spec fn exp_steps_down(a: int, q: nat) -> int
    decreases q,
{
    if q == 0 {
        a
    } else {
        exp_steps_down(exp_step_down(a), (q - 1) as nat)
    }
}

/// The exact value the fixed-point exponential computes: the argument is
/// clamped, split into integer and fractional parts, the series is taken on
/// the fraction and one factor of e is applied (or removed) per integer step.
pub open spec fn exp_spec(x: int) -> int {
    let shifted = clamp_spec(x, -EXP_ARG_LIMIT as int, EXP_ARG_LIMIT as int) + EXP_ARG_LIMIT;
    let q = shifted / (SCALE as int);
    let r = shifted % (SCALE as int);
    let base = exp_taylor(r);
    if q >= 16 {
        exp_steps_up(base, (q - 16) as nat)
    } else {
        exp_steps_down(base, (16 - q) as nat)
    }
}

pub open spec fn pow3(q: nat) -> int
    decreases q,
{
    if q == 0 {
        1
    } else {
        3 * pow3((q - 1) as nat)
    }
}

pub proof fn lemma_pow3_pos(q: nat)
    ensures
        1 <= pow3(q),
    decreases q,
{
    if q > 0 {
        lemma_pow3_pos((q - 1) as nat);
    }
}

pub proof fn lemma_pow3_mono(q1: nat, q2: nat)
    requires
        q1 <= q2,
    ensures
        pow3(q1) <= pow3(q2),
    decreases q2,
{
    lemma_pow3_pos(q1);
    if q1 < q2 {
        lemma_pow3_mono(q1, (q2 - 1) as nat);
        lemma_pow3_pos((q2 - 1) as nat);
    }
}

pub proof fn lemma_exp_taylor_bounds(r: int)
    requires
        0 <= r < SCALE,
    ensures
        SCALE <= exp_taylor(r) < 3 * SCALE,
{
    lemma_mul_nonnegative(r, r);
    lemma_div_pos_is_pos(r * r, 2 * (SCALE as int));
    assert(r * r <= (SCALE - 1) * SCALE) by (nonlinear_arith)
        requires
            0 <= r < SCALE,
    ;
    lemma_div_is_ordered(r * r, (SCALE - 1) * (SCALE as int), 2 * (SCALE as int));
    assert(((SCALE - 1) * (SCALE as int)) / (2 * (SCALE as int)) < SCALE as int / 2 + 1)
        by (nonlinear_arith);
}

pub proof fn lemma_step_up_bounds(a: int)
    requires
        0 <= a,
    ensures
        a <= exp_step_up(a) <= 3 * a,
{
    lemma_mul_inequality(SCALE as int, EXP_UNIT as int, a);
    lemma_mul_inequality(EXP_UNIT as int, 3 * SCALE, a);
    lemma_div_is_ordered(a * SCALE, a * EXP_UNIT, SCALE as int);
    lemma_div_is_ordered(a * EXP_UNIT, a * (3 * SCALE), SCALE as int);
    lemma_div_multiples_vanish(a, SCALE as int);
    assert(a * (3 * SCALE) == (SCALE as int) * (3 * a)) by (nonlinear_arith);
    lemma_div_multiples_vanish(3 * a, SCALE as int);
}

pub proof fn lemma_step_down_bounds(a: int)
    requires
        1 <= a,
    ensures
        1 <= exp_step_down(a) <= a,
{
    lemma_mul_inequality(SCALE as int, EXP_UNIT as int, a);
    lemma_div_is_ordered(a * SCALE, a * EXP_UNIT, EXP_UNIT as int);
    lemma_div_multiples_vanish(a, EXP_UNIT as int);
}

pub proof fn lemma_steps_up_bounds(a: int, q: nat)
    requires
        1 <= a,
    ensures
        a <= exp_steps_up(a, q) <= a * pow3(q),
    decreases q,
{
    if q == 0 {
        assert(a * pow3(0nat) == a) by (nonlinear_arith)
            requires
                pow3(0nat) == 1,
        ;
    } else {
        lemma_step_up_bounds(a);
        let b = exp_step_up(a);
        lemma_steps_up_bounds(b, (q - 1) as nat);
        lemma_pow3_pos((q - 1) as nat);
        lemma_mul_inequality(b, 3 * a, pow3((q - 1) as nat));
        assert((3 * a) * pow3((q - 1) as nat) == a * pow3(q)) by (nonlinear_arith)
            requires
                pow3(q) == 3 * pow3((q - 1) as nat),
        ;
    }
}

pub proof fn lemma_steps_down_bounds(a: int, q: nat)
    requires
        1 <= a,
    ensures
        1 <= exp_steps_down(a, q) <= a,
    decreases q,
{
    if q > 0 {
        lemma_step_down_bounds(a);
        lemma_steps_down_bounds(exp_step_down(a), (q - 1) as nat);
    }
}

/// Every value of the fixed-point exponential lies in `[1, EXP_MAX]`, and a
/// nonnegative argument gives at least one unit (exp of a nonnegative real
/// is at least 1).
pub proof fn lemma_exp_spec_bounds(x: int)
    ensures
        1 <= exp_spec(x) <= EXP_MAX,
        x >= 0 ==> exp_spec(x) >= SCALE,
{
    let shifted = clamp_spec(x, -EXP_ARG_LIMIT as int, EXP_ARG_LIMIT as int) + EXP_ARG_LIMIT;
    let q = shifted / (SCALE as int);
    let r = shifted % (SCALE as int);
    let base = exp_taylor(r);
    assert(0 <= shifted <= 32 * SCALE);
    lemma_div_pos_is_pos(shifted, SCALE as int);
    lemma_div_is_ordered(shifted, 32 * (SCALE as int), SCALE as int);
    lemma_div_multiples_vanish(32, SCALE as int);
    assert(0 <= q <= 32);
    lemma_mod_bound(shifted, SCALE as int);
    lemma_exp_taylor_bounds(r);
    if q >= 16 {
        lemma_steps_up_bounds(base, (q - 16) as nat);
        lemma_pow3_mono((q - 16) as nat, 16nat);
        assert(pow3(16nat) == 43046721) by {
            reveal_with_fuel(pow3, 17);
        }
        lemma_mul_inequality(pow3((q - 16) as nat), 43046721, base);
        assert(base * pow3((q - 16) as nat) == pow3((q - 16) as nat) * base) by (nonlinear_arith);
        lemma_mul_inequality(base, 3 * SCALE, 43046721);
        assert(43046721 * base == base * 43046721) by (nonlinear_arith);
        assert((3 * (SCALE as int)) * 43046721 == EXP_MAX) by (nonlinear_arith)
            requires
                EXP_MAX == 3 * 43046721 * SCALE,
        ;
    } else {
        lemma_steps_down_bounds(base, (16 - q) as nat);
    }
    if x >= 0 {
        assert(shifted >= 16 * SCALE);
        lemma_div_is_ordered(16 * (SCALE as int), shifted, SCALE as int);
        lemma_div_multiples_vanish(16, SCALE as int);
        assert(q >= 16);
    }
}

/// The exponential of zero is exactly one unit.
pub proof fn lemma_exp_spec_zero()
    ensures
        exp_spec(0) == SCALE,
{
    let shifted = 16 * (SCALE as int);
    lemma_div_multiples_vanish(16, SCALE as int);
    lemma_mod_multiples_basic(16, SCALE as int);
    assert(shifted / (SCALE as int) == 16);
    assert(shifted % (SCALE as int) == 0);
    lemma_div_of0(2 * (SCALE as int));
    assert(exp_taylor(0) == SCALE);
}

/// Fixed-point exponential: returns exactly `exp_spec` of the argument.
pub fn exp_approx(x: i64) -> (r: i64)
    ensures
        r as int == exp_spec(x as int),
        1 <= r <= EXP_MAX,
        x >= 0 ==> r >= SCALE,
{
    proof {
        lemma_exp_spec_bounds(x as int);
    }
    let c = if x < -EXP_ARG_LIMIT {
        -EXP_ARG_LIMIT
    } else if x > EXP_ARG_LIMIT {
        EXP_ARG_LIMIT
    } else {
        x
    };
    let shifted = c + EXP_ARG_LIMIT;
    let q = shifted / SCALE;
    let r0 = shifted % SCALE;
    proof {
        lemma_mod_bound(shifted as int, SCALE as int);
        lemma_div_pos_is_pos(shifted as int, SCALE as int);
        lemma_div_is_ordered(shifted as int, 32 * (SCALE as int), SCALE as int);
        lemma_div_multiples_vanish(32, SCALE as int);
        lemma_mul_nonnegative(r0 as int, r0 as int);
        lemma_div_pos_is_pos(r0 as int * r0 as int, 2 * (SCALE as int));
        lemma_exp_taylor_bounds(r0 as int);
    }
    let mut acc = SCALE + r0 + r0 * r0 / (2 * SCALE);
    let ghost base = acc as int;
    if q >= 16 {
        let steps = q - 16;
        let mut i: i64 = 0;
        proof {
            lemma_pow3_mono(steps as nat, 16nat);
            assert(pow3(16nat) == 43046721) by {
                reveal_with_fuel(pow3, 17);
            }
            lemma_mul_inequality(pow3(steps as nat), 43046721, base);
            assert(base * pow3(steps as nat) == pow3(steps as nat) * base) by (nonlinear_arith);
            lemma_mul_inequality(base, 3 * SCALE, 43046721);
            assert(43046721 * base == base * 43046721) by (nonlinear_arith);
            assert((3 * (SCALE as int)) * 43046721 == EXP_MAX) by (nonlinear_arith)
                requires
                    EXP_MAX == 3 * 43046721 * SCALE,
            ;
        }
        while i < steps
            invariant
                0 <= i <= steps <= 16,
                1 <= acc,
                acc * pow3((steps - i) as nat) <= EXP_MAX,
                exp_steps_up(acc as int, (steps - i) as nat) == exp_steps_up(base, steps as nat),
            decreases steps - i,
        {
            proof {
                lemma_pow3_pos((steps - i) as nat);
                lemma_pow3_pos((steps - i - 1) as nat);
                assert(acc as int <= acc * pow3((steps - i) as nat)) by (nonlinear_arith)
                    requires
                        1 <= acc,
                        1 <= pow3((steps - i) as nat),
                ;
                lemma_step_up_bounds(acc as int);
                lemma_mul_inequality(exp_step_up(acc as int), 3 * (acc as int),
                    pow3((steps - i - 1) as nat));
                assert((3 * (acc as int)) * pow3((steps - i - 1) as nat) == acc * pow3(
                    (steps - i) as nat,
                )) by (nonlinear_arith)
                    requires
                        pow3((steps - i) as nat) == 3 * pow3((steps - i - 1) as nat),
                ;
            }
            acc = acc * EXP_UNIT / SCALE;
            i = i + 1;
        }
        acc
    } else {
        let steps = 16 - q;
        let mut i: i64 = 0;
        while i < steps
            invariant
                0 <= i <= steps <= 16,
                1 <= acc <= 3 * SCALE,
                exp_steps_down(acc as int, (steps - i) as nat) == exp_steps_down(
                    base,
                    steps as nat,
                ),
            decreases steps - i,
        {
            proof {
                lemma_step_down_bounds(acc as int);
            }
            let d = acc * SCALE / EXP_UNIT;
            acc = if d < 1 {
                1
            } else {
                d
            };
            i = i + 1;
        }
        acc
    }
}

/// The exact value the fixed-point tanh computes on a nonnegative argument:
/// `(e - 1) / (e + 1)` with `e` the exponential of twice the (clamped)
/// argument, all in `SCALE` units.
pub open spec fn tanh_mag(x: int) -> int {
    let xc = if x > TANH_ARG_LIMIT {
        TANH_ARG_LIMIT as int
    } else {
        x
    };
    let e = exp_spec(2 * xc);
    (e - SCALE) * SCALE / (e + SCALE)
}

/// The exact value the fixed-point tanh computes: odd extension of `tanh_mag`.
pub open spec fn tanh_spec(x: int) -> int {
    if x >= 0 {
        tanh_mag(x)
    } else {
        -tanh_mag(-x)
    }
}

pub proof fn lemma_tanh_mag_bounds(x: int)
    requires
        x >= 0,
    ensures
        0 <= tanh_mag(x) < SCALE,
{
    let xc = if x > TANH_ARG_LIMIT {
        TANH_ARG_LIMIT as int
    } else {
        x
    };
    let e = exp_spec(2 * xc);
    lemma_exp_spec_bounds(2 * xc);
    lemma_mul_nonnegative(e - SCALE, SCALE as int);
    lemma_div_pos_is_pos((e - SCALE) * SCALE, e + SCALE);
    assert((e - SCALE) * SCALE < (e + SCALE) * SCALE) by (nonlinear_arith)
        requires
            SCALE <= e,
    ;
    lemma_multiply_divide_lt((e - SCALE) * SCALE, e + SCALE, SCALE as int);
}

/// The fixed-point tanh is zero at zero, odd, and strictly inside one unit.
pub proof fn lemma_tanh_spec_bounds(x: int)
    ensures
        -SCALE < tanh_spec(x) < SCALE,
        tanh_spec(0) == 0,
        tanh_spec(-x) == -tanh_spec(x),
{
    if x >= 0 {
        lemma_tanh_mag_bounds(x);
    } else {
        lemma_tanh_mag_bounds(-x);
    }
    lemma_exp_spec_zero();
    assert(exp_taylor(0) == SCALE) by {
        lemma_div_of0(2 * (SCALE as int));
    }
    assert((0int) * SCALE == 0) by (nonlinear_arith);
    lemma_div_of0((exp_spec(0) + SCALE) as int);
    assert(tanh_mag(0) == 0);
    if x < 0 {
        lemma_tanh_mag_bounds(-x);
    }
}

/// Fixed-point hyperbolic tangent: returns exactly `tanh_spec` of the argument.
pub fn tanh_approx(x: i64) -> (r: i64)
    requires
        x > i64::MIN,
    ensures
        r as int == tanh_spec(x as int),
        -SCALE < r < SCALE,
{
    proof {
        lemma_tanh_spec_bounds(x as int);
    }
    let neg = x < 0;
    let m = if neg {
        -x
    } else {
        x
    };
    let xc = if m > TANH_ARG_LIMIT {
        TANH_ARG_LIMIT
    } else {
        m
    };
    let e = exp_approx(2 * xc);
    let t = (e - SCALE) * SCALE / (e + SCALE);
    proof {
        lemma_tanh_mag_bounds(m as int);
    }
    if neg {
        -t
    } else {
        t
    }
}

/// The exact value of the leaky ramp: identity on positive arguments, one
/// fifth (rounded toward zero) on the rest.
pub open spec fn leaky_spec(x: int) -> int {
    if x > 0 {
        x
    } else {
        -((-x) / 5)
    }
}

/// Fixed-point leaky rectifier.
pub fn leaky_ramp(x: i64) -> (r: i64)
    requires
        x > i64::MIN,
    ensures
        r as int == leaky_spec(x as int),
{
    if x > 0 {
        x
    } else {
        proof {
            lemma_div_pos_is_pos(-x as int, 5);
            lemma_div_is_ordered(0, -x as int, 5);
            lemma_div_is_ordered(-x as int, i64::MAX as int, 5);
        }
        -((-x) / 5)
    }
}

/// The exact value of division by `SCALE` rounded toward zero.
pub open spec fn div_scale_spec(a: int) -> int {
    if a >= 0 {
        a / (SCALE as int)
    } else {
        -((-a) / (SCALE as int))
    }
}

/// Divide a fixed-point product back to `SCALE` units, rounding toward zero.
pub fn div_scale(a: i64) -> (r: i64)
    requires
        a > i64::MIN,
    ensures
        r as int == div_scale_spec(a as int),
{
    if a >= 0 {
        proof {
            lemma_div_pos_is_pos(a as int, SCALE as int);
            lemma_div_is_ordered(a as int, i64::MAX as int, SCALE as int);
        }
        a / SCALE
    } else {
        proof {
            lemma_div_pos_is_pos(-a as int, SCALE as int);
            lemma_div_is_ordered(-a as int, i64::MAX as int, SCALE as int);
        }
        -((-a) / SCALE)
    }
}

/// The magnitude of `div_scale_spec(a)` is at most the magnitude of `a / SCALE`.
pub proof fn lemma_div_scale_bound(a: int, m: int)
    requires
        -m <= a <= m,
        0 <= m,
    ensures
        -(m / (SCALE as int)) <= div_scale_spec(a) <= m / (SCALE as int),
{
    if a >= 0 {
        lemma_div_pos_is_pos(a, SCALE as int);
        lemma_div_is_ordered(a, m, SCALE as int);
    } else {
        lemma_div_pos_is_pos(-a, SCALE as int);
        lemma_div_is_ordered(-a, m, SCALE as int);
    }
}

} // verus!
