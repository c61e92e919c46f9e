//! The escape-time recurrence `z <- z*z + c`.
//!
//! A step squares `z` and adds `c` in fixed point; a point has escaped once
//! `|z|^2 >= 4`, i.e. once `z.re^2 + z.im^2 >= 4 * SCALE^2` in fixed-point
//! steps. The iteration count of `c` under a budget `max` is the number of
//! steps taken before the first escaped value appears, capped at `max`:
//! 0 means the very first step already escaped, `max` means no escape was
//! seen within the budget.

use vstd::prelude::*;
use crate::fixed::{SCALE, tdiv, div_scale};
use crate::geom::CPoint;

verus! {

/// Fixed-point threshold for `|z|^2 >= 4`: `4 * SCALE * SCALE`.
pub const ESCAPE_NORM: i64 = 1125899906842624;

/// `|z|^2` in fixed-point steps squared (not rescaled).
pub open spec fn norm2(re: int, im: int) -> int {
    re * re + im * im
}

/// `|z|^2 >= 4`, on raw fixed-point coordinates.
pub open spec fn spec_escaped(re: int, im: int) -> bool {
    norm2(re, im) >= ESCAPE_NORM
}

/// Real part of `z*z + c`.
pub open spec fn step_re(zr: int, zi: int, cr: int) -> int {
    tdiv(zr * zr - zi * zi, SCALE as int) + cr
}

/// Imaginary part of `z*z + c`.
pub open spec fn step_im(zr: int, zi: int, ci: int) -> int {
    tdiv(2 * zr * zi, SCALE as int) + ci
}

/// Number of further steps from `z` before the first escaped value appears,
/// capped at `fuel`.
pub open spec fn escape_count(zr: int, zi: int, cr: int, ci: int, fuel: nat) -> nat
    decreases fuel,
{
    if fuel == 0 {
        0
    } else if spec_escaped(step_re(zr, zi, cr), step_im(zr, zi, ci)) {
        0
    } else {
        1 + escape_count(step_re(zr, zi, cr), step_im(zr, zi, ci), cr, ci, (fuel - 1) as nat)
    }
}

/// The iteration count of a point `c` under budget `max`.
pub open spec fn iterate_spec(c: CPoint, max: u16) -> nat {
    escape_count(0, 0, c.re as int, c.im as int, max as nat)
}

/// The count never exceeds the budget.
pub proof fn lemma_escape_count_le_fuel(zr: int, zi: int, cr: int, ci: int, fuel: nat)
    ensures
        escape_count(zr, zi, cr, ci, fuel) <= fuel,
    decreases fuel,
{
    if fuel > 0 && !spec_escaped(step_re(zr, zi, cr), step_im(zr, zi, ci)) {
        lemma_escape_count_le_fuel(step_re(zr, zi, cr), step_im(zr, zi, ci), cr, ci,
            (fuel - 1) as nat);
    }
}

/// The origin never escapes: its count is the whole budget.
pub proof fn lemma_iterate_origin(c: CPoint, max: u16)
    requires
        c.re == 0,
        c.im == 0,
    ensures
        iterate_spec(c, max) == max as nat,
{
    lemma_origin_fuel(max as nat);
}

proof fn lemma_origin_fuel(fuel: nat)
    ensures
        escape_count(0, 0, 0, 0, fuel) == fuel,
    decreases fuel,
{
    if fuel > 0 {
        assert(step_re(0, 0, 0) == 0);
        assert(step_im(0, 0, 0) == 0);
        lemma_origin_fuel((fuel - 1) as nat);
    }
}

/// A point with `|c|^2 >= 4` escapes on the very first step: its count is 0.
pub proof fn lemma_iterate_escaped_at_once(c: CPoint, max: u16)
    requires
        spec_escaped(c.re as int, c.im as int),
    ensures
        iterate_spec(c, max) == 0,
{
    if max > 0 {
        assert(step_re(0, 0, c.re as int) == c.re as int);
        assert(step_im(0, 0, c.im as int) == c.im as int);
    }
}

/// Inside the escape threshold, both coordinates are below `2 * SCALE` in
/// magnitude.
proof fn lemma_unescaped_bounds(zr: int, zi: int)
    requires
        !spec_escaped(zr, zi),
    ensures
        -2 * (SCALE as int) < zr < 2 * (SCALE as int),
        -2 * (SCALE as int) < zi < 2 * (SCALE as int),
{
    assert(-33554432 < zr < 33554432 && -33554432 < zi < 33554432) by (nonlinear_arith)
        requires
            zr * zr + zi * zi < 1125899906842624,
    ;
}

/// Decides `|z|^2 >= 4` on raw fixed-point coordinates.
pub fn escaped(zr: i64, zi: i64) -> (r: bool)
    requires
        -2251799813685248 <= zr <= 2251799813685248,
        -2251799813685248 <= zi <= 2251799813685248,
    ensures
        r == spec_escaped(zr as int, zi as int),
{
    let zrm: u64 = if zr >= 0 { zr as u64 } else { (-zr) as u64 };
    let zim: u64 = if zi >= 0 { zi as u64 } else { (-zi) as u64 };
    proof {
        assert((zrm as int) * (zrm as int) == (zr as int) * (zr as int)) by (nonlinear_arith)
            requires
                zrm as int == zr as int || zrm as int == -(zr as int),
        ;
        assert((zim as int) * (zim as int) == (zi as int) * (zi as int)) by (nonlinear_arith)
            requires
                zim as int == zi as int || zim as int == -(zi as int),
        ;
        assert((zrm as int) * (zrm as int) <= 5070602400912917605986812821504)
            by (nonlinear_arith)
            requires
                0 <= zrm <= 2251799813685248,
        ;
        assert((zim as int) * (zim as int) <= 5070602400912917605986812821504)
            by (nonlinear_arith)
            requires
                0 <= zim <= 2251799813685248,
        ;
    }
    let n: u128 = (zrm as u128) * (zrm as u128) + (zim as u128) * (zim as u128);
    n >= ESCAPE_NORM as u128
}

/// Escape-time evaluator: runs `z <- z*z + c` from the origin and returns the
/// number of steps taken before the first escaped value, capped at `max`.
pub fn iterate(c: CPoint, max: u16) -> (count: u16)
    requires
        c.bounded(),
    ensures
        count as nat == iterate_spec(c, max),
        count <= max,
{
    let mut zr: i64 = 0;
    let mut zi: i64 = 0;
    let mut n: u16 = 0;
    proof {
        lemma_escape_count_le_fuel(0, 0, c.re as int, c.im as int, max as nat);
    }
    while n < max
        invariant
            c.bounded(),
            n <= max,
            !spec_escaped(zr as int, zi as int),
            iterate_spec(c, max) == n as nat
                + escape_count(zr as int, zi as int, c.re as int, c.im as int, (max - n) as nat),
        decreases max - n,
    {
        proof {
            lemma_unescaped_bounds(zr as int, zi as int);
            assert(0 <= zr * zr < 1125899906842624 && 0 <= zi * zi < 1125899906842624
                && -2251799813685248 < 2 * zr * zi < 2251799813685248) by (nonlinear_arith)
                requires
                    -33554432 < zr < 33554432,
                    -33554432 < zi < 33554432,
            ;
        }
        let sq: i64 = zr * zr - zi * zi;
        let cr2: i64 = 2 * zr * zi;
        proof {
            if sq >= 0 {
                crate::fixed::lemma_tdiv_nonneg_le(sq as int, SCALE as int);
            } else {
                crate::fixed::lemma_tdiv_nonneg_le(-(sq as int), SCALE as int);
            }
            if cr2 >= 0 {
                crate::fixed::lemma_tdiv_nonneg_le(cr2 as int, SCALE as int);
            } else {
                crate::fixed::lemma_tdiv_nonneg_le(-(cr2 as int), SCALE as int);
            }
        }
        let nr: i64 = div_scale(sq) + c.re;
        let ni: i64 = div_scale(cr2) + c.im;
        proof {
            assert(nr as int == step_re(zr as int, zi as int, c.re as int));
            assert(ni as int == step_im(zr as int, zi as int, c.im as int));
        }
        if escaped(nr, ni) {
            proof {
                assert(escape_count(zr as int, zi as int, c.re as int, c.im as int,
                    (max - n) as nat) == 0);
            }
            return n;
        }
        proof {
            assert(escape_count(zr as int, zi as int, c.re as int, c.im as int,
                (max - n) as nat) == 1 + escape_count(nr as int, ni as int, c.re as int,
                c.im as int, (max - n - 1) as nat));
        }
        zr = nr;
        zi = ni;
        n = n + 1;
    }
    n
}

} // verus!
