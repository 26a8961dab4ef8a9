//! The clip-and-normalize transform, on fixed-point samples.
//!
//! A sample or a threshold is an `i32` holding a real number scaled by
//! `UNITY` (eight integer bits and 23 fractional bits): `UNITY` stands for
//! 1.0, `UNITY / 2` for 0.5. The transform divides by the threshold, so the
//! threshold must be strictly positive: `floor_threshold` lifts any value
//! below the smallest positive step to that step.
use vstd::prelude::*;

verus! {

use vstd::arithmetic::div_mod::{
    lemma_div_by_multiple,
    lemma_div_is_ordered,
    lemma_div_pos_is_pos,
    lemma_fundamental_div_mod,
    lemma_mod_pos_bound,
};
use vstd::arithmetic::mul::lemma_mul_inequality;

/// The fixed-point value that stands for 1.0.
pub const UNITY: i32 = 8388608;

/// `x` held to the band `[-t, t]`.
pub open spec fn clip(x: int, t: int) -> int {
    if x > t {
        t
    } else if x < -t {
        -t
    } else {
        x
    }
}

/// `n / d` rounded toward zero, the way machine integer division rounds.
pub open spec fn div_toward_zero(n: int, d: int) -> int {
    if n >= 0 {
        n / d
    } else {
        -((-n) / d)
    }
}

/// The transform of one sample `x` under the threshold `t > 0`, both scaled by
/// `UNITY`: `clip(x, t) / t`, scaled by `UNITY` again.
pub open spec fn shaped(x: int, t: int) -> int {
    div_toward_zero(clip(x, t) * UNITY, t)
}

/// A threshold as the transform uses it: values below one step become one step.
pub open spec fn floored(t: int) -> int {
    if t >= 1 {
        t
    } else {
        1
    }
}

/// For `0 <= m <= t`, the quotient `m * UNITY / t` lies in `[0, UNITY]` and
/// differs from the exact ratio by less than one step.
proof fn lemma_scaled_quotient(m: int, t: int)
    requires
        0 <= m <= t,
        0 < t,
    ensures
        0 <= (m * UNITY) / t <= UNITY,
        0 <= m * UNITY - t * ((m * UNITY) / t) < t,
{
    lemma_mul_inequality(m, t, UNITY as int);
    lemma_div_is_ordered(m * UNITY, t * UNITY, t);
    lemma_div_by_multiple(UNITY as int, t);
    assert(t * UNITY == UNITY * t) by (nonlinear_arith);
    assert(0 <= m * UNITY) by (nonlinear_arith)
        requires
            0 <= m,
    ;
    lemma_div_pos_is_pos(m * UNITY, t);
    lemma_fundamental_div_mod(m * UNITY, t);
    lemma_mod_pos_bound(m * UNITY, t);
}

/// Silence stays silence: a zero sample comes out as zero under every
/// positive threshold.
pub proof fn lemma_silence_stays_silent(t: int)
    requires
        t > 0,
    ensures
        shaped(0, t) == 0,
{
    lemma_scaled_quotient(0, t);
}

/// The output never leaves `[-UNITY, UNITY]`, that is `[-1.0, 1.0]`, whatever
/// the sample and the positive threshold.
pub proof fn lemma_shaped_bounded(x: int, t: int)
    requires
        t > 0,
    ensures
        -UNITY <= shaped(x, t) <= UNITY,
{
    let c = clip(x, t);
    if c >= 0 {
        lemma_scaled_quotient(c, t);
    } else {
        lemma_scaled_quotient(-c, t);
        assert(-(c * UNITY) == (-c) * UNITY) by (nonlinear_arith);
    }
}

/// Inside the threshold the transform is the plain ratio `x / t`: the output is
/// `x * UNITY / t` rounded toward zero, less than one step from the exact value.
pub proof fn lemma_linear_inside_threshold(x: int, t: int)
    requires
        t > 0,
        -t <= x <= t,
    ensures
        shaped(x, t) == div_toward_zero(x * UNITY, t),
        -t < shaped(x, t) * t - x * UNITY < t,
{
    if x >= 0 {
        lemma_scaled_quotient(x, t);
        assert(x * UNITY >= 0) by (nonlinear_arith)
            requires
                x >= 0,
        ;
        assert(t * ((x * UNITY) / t) == ((x * UNITY) / t) * t) by (nonlinear_arith);
    } else {
        lemma_scaled_quotient(-x, t);
        assert(-(x * UNITY) == (-x) * UNITY) by (nonlinear_arith);
        assert(x * UNITY < 0) by (nonlinear_arith)
            requires
                x < 0,
        ;
        let q = ((-x) * UNITY) / t;
        assert(t * q == q * t) by (nonlinear_arith);
        assert((-q) * t == -(q * t)) by (nonlinear_arith);
    }
}

/// The transform is odd: a negated sample gives the negated output.
pub proof fn lemma_shaped_symmetric(x: int, t: int)
    requires
        t > 0,
    ensures
        shaped(-x, t) == -shaped(x, t),
{
    let c = clip(x, t);
    assert(clip(-x, t) == -c);
    assert((-c) * UNITY == -(c * UNITY)) by (nonlinear_arith);
    if c > 0 {
        lemma_scaled_quotient(c, t);
        assert(c * UNITY > 0) by (nonlinear_arith)
            requires
                c > 0,
        ;
    } else if c == 0 {
        lemma_scaled_quotient(0, t);
    } else {
        lemma_scaled_quotient(-c, t);
        assert(c * UNITY < 0) by (nonlinear_arith)
            requires
                c < 0,
        ;
    }
}

/// Lifts a threshold below one step to one step, so that the transform can
/// divide by it.
pub fn floor_threshold(t: i32) -> (r: i32)
    ensures
        r as int == floored(t as int),
        r >= 1,
{
    if t >= 1 {
        t
    } else {
        1
    }
}

/// Clips the sample `x` to `[-t, t]` and divides by `t`: samples inside the
/// threshold are rescaled to `[-UNITY, UNITY]`, those outside become `UNITY`
/// or `-UNITY`. A smaller threshold drives the signal harder.
pub fn shape_sample(x: i32, t: i32) -> (r: i32)
    requires
        t > 0,
    ensures
        r as int == shaped(x as int, t as int),
        -UNITY <= r <= UNITY,
        x == 0 ==> r == 0,
        -t <= x <= t ==> r as int == div_toward_zero(x * UNITY, t as int),
{
    proof {
        lemma_shaped_bounded(x as int, t as int);
        lemma_silence_stays_silent(t as int);
        if -t <= x <= t {
            lemma_linear_inside_threshold(x as int, t as int);
        }
    }
    let x64 = x as i64;
    let t64 = t as i64;
    if x64 >= 0 {
        let m: i64 = if x64 < t64 {
            x64
        } else {
            t64
        };
        proof {
            lemma_scaled_quotient(m as int, t as int);
            assert(m * UNITY <= t * UNITY) by (nonlinear_arith)
                requires
                    m <= t,
            ;
            assert(t * UNITY <= i32::MAX * UNITY) by (nonlinear_arith)
                requires
                    t <= i32::MAX,
            ;
        }
        let q = (m * (UNITY as i64)) / t64;
        q as i32
    } else {
        let m: i64 = if -x64 < t64 {
            -x64
        } else {
            t64
        };
        proof {
            lemma_scaled_quotient(m as int, t as int);
            assert(m * UNITY <= t * UNITY) by (nonlinear_arith)
                requires
                    m <= t,
            ;
            assert(t * UNITY <= i32::MAX * UNITY) by (nonlinear_arith)
                requires
                    t <= i32::MAX,
            ;
            assert(clip(x as int, t as int) == -m);
            assert((-m) * UNITY == -(m * UNITY)) by (nonlinear_arith);
            assert(m * UNITY > 0) by (nonlinear_arith)
                requires
                    m > 0,
            ;
        }
        let q = (m * (UNITY as i64)) / t64;
        (-q) as i32
    }
}

} // verus!
