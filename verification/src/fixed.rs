//! Q32.32 fixed-point arithmetic for signal values.
//!
//! Every signal value in the engine is an `i64` holding the real value
//! multiplied by [`crate::SCALE`] (2^32). Sums saturate at the `i64` range;
//! products are computed exactly in `i128`, scaled back down with floor
//! division, and saturated.
use vstd::prelude::*;

verus! {

use crate::SCALE;

/// The mathematical value `x` clamped to the `i64` range.
pub open spec fn clamp_i64(x: int) -> i64 {
    if x > i64::MAX {
        i64::MAX
    } else if x < i64::MIN {
        i64::MIN
    } else {
        x as i64
    }
}

/// Saturating sum of two fixed-point values.
pub open spec fn spec_sat_add(a: i64, b: i64) -> i64 {
    clamp_i64(a + b)
}

/// Saturating fixed-point product: `floor(a * b / 2^32)`, clamped.
pub open spec fn spec_mul_fp(a: i64, b: i64) -> i64 {
    clamp_i64((a as int * b as int) / (SCALE as int))
}

/// Saturating addition of two fixed-point values.
pub fn sat_add(a: i64, b: i64) -> (r: i64)
    ensures
        r == spec_sat_add(a, b),
{
    match a.checked_add(b) {
        Some(s) => s,
        None => {
            if a > 0 {
                i64::MAX
            } else {
                i64::MIN
            }
        },
    }
}

/// Saturating fixed-point multiplication.
pub fn mul_fp(a: i64, b: i64) -> (r: i64)
    ensures
        r == spec_mul_fp(a, b),
{
    proof {
        assert(i128::MIN <= a as int * b as int <= i128::MAX) by (nonlinear_arith)
            requires
                i64::MIN <= a <= i64::MAX,
                i64::MIN <= b <= i64::MAX,
        ;
    }
    let p = (a as i128) * (b as i128);
    let q = p.checked_div_euclid(SCALE as i128).unwrap();
    if q > i64::MAX as i128 {
        i64::MAX
    } else if q < i64::MIN as i128 {
        i64::MIN
    } else {
        q as i64
    }
}

/// Wraps a fixed-point value into `[0, 1)`, i.e. into `[0, 2^32)` raw,
/// by the Euclidean remainder. Adding or subtracting one repeatedly until
/// the value lands in `[0, 1)` gives the same result.
pub fn wrap_unit(x: i64) -> (r: i64)
    ensures
        r == x as int % (SCALE as int),
        0 <= r < SCALE,
{
    x.checked_rem_euclid(SCALE).unwrap()
}

/// Floor division of a fixed-point value by two (used for channel mixing).
pub fn half(x: i64) -> (r: i64)
    ensures
        r == x as int / 2,
{
    proof {
        vstd::arithmetic::div_mod::lemma_div_is_ordered(i64::MIN as int, x as int, 2);
        vstd::arithmetic::div_mod::lemma_div_is_ordered(x as int, i64::MAX as int, 2);
    }
    x.checked_div_euclid(2).unwrap()
}

/// Fixed-point multiplication is exact when one factor is one:
/// `x * 1.0 == x` for every `x`.
pub proof fn lemma_mul_fp_one(x: i64)
    ensures
        spec_mul_fp(x, SCALE) == x,
{
    vstd::arithmetic::div_mod::lemma_div_multiples_vanish(x as int, SCALE as int);
    assert(x as int * SCALE as int == SCALE as int * x as int) by (nonlinear_arith);
}

} // verus!
