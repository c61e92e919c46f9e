//! Fixed-point scalars.
//!
//! A coordinate in the complex plane is an `i64` holding the real value
//! multiplied by `SCALE` (2^24). Division by `SCALE` after a product
//! truncates toward zero, like Rust's `/` on signed integers; `tdiv` is the
//! specification of that rounding.

use vstd::prelude::*;
use vstd::arithmetic::div_mod::lemma_fundamental_div_mod;

verus! {

/// One unit in the complex plane: 2^24 fixed-point steps.
pub const SCALE: i64 = 16777216;

/// Largest magnitude a plane coordinate may have (2^40 steps, i.e. 2^16 units).
/// Keeps every intermediate product of the pipeline inside `i64`/`u128` range.
pub const COORD_LIMIT: i64 = 1099511627776;

/// Truncating division by a positive divisor: rounds toward zero, as Rust's
/// `/` does on signed integers.
pub open spec fn tdiv(a: int, d: int) -> int {
    if a >= 0 {
        a / d
    } else {
        -((-a) / d)
    }
}

/// Quotient of a nonnegative dividend is bounded by the dividend (divisor >= 1).
pub proof fn lemma_tdiv_nonneg_le(a: int, d: int)
    requires
        0 <= a,
        1 <= d,
    ensures
        0 <= tdiv(a, d) <= a,
{
    lemma_fundamental_div_mod(a, d);
    assert(a == d * (a / d) + a % d);
    assert(0 <= a % d < d);
    assert(a / d >= 0) by (nonlinear_arith)
        requires
            a >= 0,
            d >= 1,
            a == d * (a / d) + a % d,
            0 <= a % d < d,
    ;
    assert(a / d <= a) by (nonlinear_arith)
        requires
            a >= 0,
            d >= 1,
            a / d >= 0,
            a == d * (a / d) + a % d,
            0 <= a % d < d,
    ;
}

/// Scaling a truncated quotient by a factor smaller than the divisor cannot
/// exceed the dividend: `x * (a / d) <= a` for `0 <= x < d`.
pub proof fn lemma_mul_tdiv_le(x: int, a: int, d: int)
    requires
        0 <= a,
        1 <= d,
        0 <= x < d,
    ensures
        0 <= x * tdiv(a, d) <= a,
{
    lemma_tdiv_nonneg_le(a, d);
    lemma_fundamental_div_mod(a, d);
    assert(0 <= x * (a / d)) by (nonlinear_arith)
        requires
            0 <= x,
            0 <= a / d,
    ;
    assert(x * (a / d) <= a) by (nonlinear_arith)
        requires
            0 <= x < d,
            0 <= a / d,
            a == d * (a / d) + a % d,
            0 <= a % d,
    ;
}

/// Divides by `SCALE`, rounding toward zero.
pub fn div_scale(a: i64) -> (r: i64)
    requires
        -0x7fff_ffff_ffff_ffff <= a,
    ensures
        r as int == tdiv(a as int, SCALE as int),
        -0x7fff_ffff_ffff_ffff <= r,
{
    if a >= 0 {
        let m: u64 = a as u64;
        assert(m == a as int);
        let q: u64 = m / (SCALE as u64);
        proof {
            lemma_tdiv_nonneg_le(a as int, SCALE as int);
        }
        q as i64
    } else {
        let m: u64 = (-a) as u64;
        assert(m == -(a as int));
        let q: u64 = m / (SCALE as u64);
        proof {
            lemma_tdiv_nonneg_le(-(a as int), SCALE as int);
        }
        -(q as i64)
    }
}

/// Divides a nonnegative value by a positive divisor, rounding toward zero.
pub fn div_pos(a: i64, d: u64) -> (r: i64)
    requires
        0 <= a,
        1 <= d,
    ensures
        r as int == tdiv(a as int, d as int),
        0 <= r <= a,
{
    let m: u64 = a as u64;
    assert(m == a as int);
    let q: u64 = m / d;
    proof {
        lemma_tdiv_nonneg_le(a as int, d as int);
    }
    q as i64
}

} // verus!
