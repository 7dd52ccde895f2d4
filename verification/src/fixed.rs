//! Fixed-point scalar kernels.
//!
//! A score or vector value is an `i64` holding `real * SCALE`. `SCALE` is a
//! power of two so that products and quotients stay exact powers-of-two
//! rescalings. Probability-like scores live in `[0, SCALE]`.

use vstd::arithmetic::div_mod::{
    lemma_div_is_ordered, lemma_div_is_ordered_by_denominator, lemma_div_multiples_vanish,
    lemma_div_pos_is_pos,
};
use vstd::prelude::*;

verus! {

/// One unit (the real number 1.0) in fixed-point representation.
pub const SCALE: i64 = 1048576;

/// The largest magnitude any stored fixed-point value may have; model
/// invariants keep every weight and vector entry within this bound so that
/// dot products provably fit in 128-bit accumulators.
pub const MAX_VAL: i64 = 1099511627776;

/// Absolute value of a fixed-point scalar, as a spec-level integer.
pub open spec fn abs_val(v: int) -> int {
    if v < 0 {
        -v
    } else {
        v
    }
}

/// Truncating (round-toward-zero) signed division by a positive divisor,
/// as executable Rust's `/` computes it on `i64`.
pub open spec fn div_trunc(a: int, b: int) -> int
    recommends
        b > 0,
{
    if a >= 0 {
        a / b
    } else {
        -((-a) / b)
    }
}

/// `x` clamped into `[lo, hi]`.
pub open spec fn clamp_spec(x: int, lo: int, hi: int) -> int {
    if x < lo {
        lo
    } else if x > hi {
        hi
    } else {
        x
    }
}

/// Margins are clamped to this magnitude (32 units) before the logistic
/// transform; beyond it the sigmoid is indistinguishable from 0 or 1 at
/// this resolution.
pub const MARGIN_CAP: i64 = 33554432;

/// Arguments above this magnitude (16 units) make `exp_neg` underflow to 0.
pub const EXP_FLOOR: i64 = 16777216;

/// Below this argument (1/16 unit) `exp_neg` switches to its quadratic
/// Taylor base case.
pub const EXP_BASE: i64 = 65536;

/// Fixed-point `e^(-u)` for `u >= 0`: quadratic Taylor base case under
/// `EXP_BASE`, squaring (splitting `u` in half) above it, underflow to zero
/// past `EXP_FLOOR`. This recursion is the definition of the library's
/// exponential; the executable `exp_neg` computes it exactly.
pub open spec fn exp_neg_spec(u: int) -> int
    decreases u,
{
    if u < 0 {
        SCALE as int
    } else if u > EXP_FLOOR {
        0
    } else if u <= EXP_BASE {
        SCALE - u + (u * u) / (2 * SCALE)
    } else {
        let a = u / 2;
        (exp_neg_spec(a) * exp_neg_spec(u - a)) / (SCALE as int)
    }
}

/// The fixed-point logistic function `1 / (1 + e^(-m))`, scaled to
/// `[0, SCALE]`.
pub open spec fn sigmoid_spec(m: int) -> int {
    if m >= 0 {
        (SCALE * (SCALE as int)) / (SCALE + exp_neg_spec(m))
    } else {
        (exp_neg_spec(-m) * (SCALE as int)) / (SCALE + exp_neg_spec(-m))
    }
}

/// `exp_neg_spec` stays within one unit.
pub proof fn lemma_exp_neg_range(u: int)
    ensures
        0 <= exp_neg_spec(u) <= SCALE,
    decreases u,
{
    if u < 0 || u > EXP_FLOOR {
    } else if u <= EXP_BASE {
        assert(0 <= u * u <= u * (2 * (SCALE as int))) by (nonlinear_arith)
            requires
                0 <= u <= SCALE,
        ;
        lemma_div_pos_is_pos(u * u, 2 * (SCALE as int));
        lemma_div_is_ordered(u * u, u * (2 * (SCALE as int)), 2 * (SCALE as int));
        lemma_div_multiples_vanish(u, 2 * (SCALE as int));
        assert(u * (2 * (SCALE as int)) == (2 * (SCALE as int)) * u) by (nonlinear_arith);
    } else {
        let a = u / 2;
        lemma_exp_neg_range(a);
        lemma_exp_neg_range(u - a);
        let p = exp_neg_spec(a) * exp_neg_spec(u - a);
        assert(0 <= p <= (SCALE as int) * SCALE) by (nonlinear_arith)
            requires
                0 <= exp_neg_spec(a) <= SCALE,
                0 <= exp_neg_spec(u - a) <= SCALE,
                p == exp_neg_spec(a) * exp_neg_spec(u - a),
        ;
        lemma_div_pos_is_pos(p, SCALE as int);
        lemma_div_is_ordered(p, (SCALE as int) * SCALE, SCALE as int);
        lemma_div_multiples_vanish(SCALE as int, SCALE as int);
        assert((SCALE as int) * SCALE == (SCALE as int) * (SCALE as int));
    }
}

/// Computes `exp_neg_spec` exactly in 64-bit arithmetic.
pub fn exp_neg(u: i64) -> (r: i64)
    requires
        0 <= u,
    ensures
        r == exp_neg_spec(u as int),
        0 <= r <= SCALE,
    decreases u,
{
    proof {
        lemma_exp_neg_range(u as int);
    }
    if u > EXP_FLOOR {
        0
    } else if u <= EXP_BASE {
        proof {
            assert(0 <= u * u <= (EXP_BASE as int) * EXP_BASE) by (nonlinear_arith)
                requires
                    0 <= u <= EXP_BASE,
            ;
        }
        SCALE - u + (u * u) / (2 * SCALE)
    } else {
        let a = u / 2;
        let r1 = exp_neg(a);
        let r2 = exp_neg(u - a);
        proof {
            assert(0 <= r1 * r2 <= (SCALE as int) * SCALE) by (nonlinear_arith)
                requires
                    0 <= r1 <= SCALE,
                    0 <= r2 <= SCALE,
            ;
        }
        (r1 * r2) / SCALE
    }
}

/// `sigmoid_spec` stays within `[0, SCALE]`.
pub proof fn lemma_sigmoid_range(m: int)
    ensures
        0 <= sigmoid_spec(m) <= SCALE,
{
    if m >= 0 {
        let e = exp_neg_spec(m);
        lemma_exp_neg_range(m);
        lemma_div_pos_is_pos(SCALE * (SCALE as int), SCALE + e);
        lemma_div_is_ordered_by_denominator(SCALE * (SCALE as int), SCALE as int, SCALE + e);
        lemma_div_multiples_vanish(SCALE as int, SCALE as int);
    } else {
        let e = exp_neg_spec(-m);
        lemma_exp_neg_range(-m);
        lemma_div_pos_is_pos(e * (SCALE as int), SCALE + e);
        lemma_div_is_ordered_by_denominator(e * (SCALE as int), SCALE as int, SCALE + e);
        lemma_div_is_ordered(e * (SCALE as int), SCALE * (SCALE as int), SCALE as int);
        lemma_div_multiples_vanish(SCALE as int, SCALE as int);
        assert(e * (SCALE as int) <= SCALE * (SCALE as int)) by (nonlinear_arith)
            requires
                0 <= e <= SCALE,
        ;
    }
}

/// The logistic transform of a raw margin into a probability-like score in
/// `[0, SCALE]`; computes `sigmoid_spec` exactly.
pub fn sigmoid(m: i64) -> (r: i64)
    requires
        -MARGIN_CAP <= m <= MARGIN_CAP,
    ensures
        r == sigmoid_spec(m as int),
        0 <= r <= SCALE,
{
    proof {
        lemma_sigmoid_range(m as int);
    }
    if m >= 0 {
        let e = exp_neg(m);
        (SCALE * SCALE) / (SCALE + e)
    } else {
        let e = exp_neg(-m);
        (e * SCALE) / (SCALE + e)
    }
}

/// Multiplies two probability-like scores in `[0, SCALE]`; the fixed-point
/// product stays in `[0, SCALE]`.
pub fn mul_prob(a: i64, b: i64) -> (r: i64)
    requires
        0 <= a <= SCALE,
        0 <= b <= SCALE,
    ensures
        r == (a * b) / (SCALE as int),
        0 <= r <= SCALE,
{
    proof {
        assert(0 <= a * b <= (SCALE as int) * SCALE) by (nonlinear_arith)
            requires
                0 <= a <= SCALE,
                0 <= b <= SCALE,
        ;
        lemma_div_pos_is_pos(a * b, SCALE as int);
        lemma_div_is_ordered(a * b, (SCALE as int) * SCALE, SCALE as int);
        lemma_div_multiples_vanish(SCALE as int, SCALE as int);
        assert((SCALE as int) * SCALE == (SCALE as int) * (SCALE as int));
    }
    (a * b) / SCALE
}

/// Rescales a raw (scale-squared) dot product to a fixed-point margin and
/// clamps it to `[-MARGIN_CAP, MARGIN_CAP]`.
pub fn margin_of_dot(d: i128) -> (r: i64)
    requires
        -0x7fffffffffffffffffffffffffffffff <= d,
    ensures
        r == clamp_spec(div_trunc(d as int, SCALE as int), -MARGIN_CAP as int, MARGIN_CAP as int),
{
    let q: i128 = if d >= 0 {
        d / (SCALE as i128)
    } else {
        -((-d) / (SCALE as i128))
    };
    proof {
        if d >= 0 {
            lemma_div_pos_is_pos(d as int, SCALE as int);
        } else {
            lemma_div_pos_is_pos(-(d as int), SCALE as int);
        }
    }
    if q < -(MARGIN_CAP as i128) {
        -MARGIN_CAP
    } else if q > MARGIN_CAP as i128 {
        MARGIN_CAP
    } else {
        q as i64
    }
}

} // verus!
