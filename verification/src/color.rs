//! Colour mapping: iteration count to an RGB triple.
//!
//! Two interchangeable policies. The palette policy maps count 0 to black
//! and any other count to a fixed 16-entry palette indexed by `count % 16`.
//! The gradient policy derives each channel from the count and the point's
//! squared modulus; every channel is clamped (saturated) to the byte range
//! rather than wrapped.

use vstd::prelude::*;
use crate::fixed::SCALE;
use crate::geom::CPoint;
use crate::escape::norm2;

verus! {

/// Which colour-mapping strategy to apply.
#[derive(Clone, Copy, PartialEq, Eq, Structural, Debug)]
pub enum ColorPolicy {
    Palette,
    Gradient,
}

/// The fixed 16-entry palette.
pub open spec fn palette_entry(i: int) -> (u8, u8, u8) {
    if i == 0 {
        (66, 30, 15)
    } else if i == 1 {
        (25, 7, 26)
    } else if i == 2 {
        (9, 1, 47)
    } else if i == 3 {
        (4, 4, 73)
    } else if i == 4 {
        (0, 7, 100)
    } else if i == 5 {
        (12, 44, 138)
    } else if i == 6 {
        (24, 82, 177)
    } else if i == 7 {
        (57, 125, 209)
    } else if i == 8 {
        (134, 181, 229)
    } else if i == 9 {
        (211, 236, 248)
    } else if i == 10 {
        (241, 233, 191)
    } else if i == 11 {
        (248, 201, 95)
    } else if i == 12 {
        (255, 170, 0)
    } else if i == 13 {
        (204, 128, 0)
    } else if i == 14 {
        (153, 87, 0)
    } else {
        (0, 0, 0)
    }
}

/// Palette policy: black for count 0, else the palette entry `count % 16`.
pub open spec fn palette_color(count: nat) -> (u8, u8, u8) {
    if count == 0 {
        (0, 0, 0)
    } else {
        palette_entry((count % 16) as int)
    }
}

/// Saturates a nonnegative value to a byte.
pub open spec fn clamp_byte(v: int) -> u8 {
    if v >= 255 {
        255u8
    } else if v <= 0 {
        0u8
    } else {
        v as u8
    }
}

/// Gradient policy: each channel is a product of the count and the point's
/// squared modulus, saturated to a byte. `norm2` carries two factors of
/// `SCALE`, hence the division by `SCALE * SCALE`.
pub open spec fn gradient_color(count: nat, p: CPoint) -> (u8, u8, u8) {
    let n2 = norm2(p.re as int, p.im as int);
    (
        clamp_byte(255 * n2 * count / ((SCALE * SCALE) as int)),
        clamp_byte(255 * (count as int)),
        clamp_byte(20 * n2 * count / ((SCALE * SCALE) as int)),
    )
}

/// The colour of an iteration count under a policy, at a given plane point.
pub open spec fn color_spec(policy: ColorPolicy, count: u16, p: CPoint) -> (u8, u8, u8) {
    match policy {
        ColorPolicy::Palette => palette_color(count as nat),
        ColorPolicy::Gradient => gradient_color(count as nat, p),
    }
}

/// The palette policy reads nothing of the point: any two points give the
/// same colour for the same count.
pub proof fn lemma_palette_point_free(count: u16, p1: CPoint, p2: CPoint)
    ensures
        color_spec(ColorPolicy::Palette, count, p1) == color_spec(ColorPolicy::Palette, count, p2),
{
}

fn palette_lookup(i: u16) -> (rgb: (u8, u8, u8))
    requires
        i < 16,
    ensures
        rgb == palette_entry(i as int),
{
    match i {
        0 => (66, 30, 15),
        1 => (25, 7, 26),
        2 => (9, 1, 47),
        3 => (4, 4, 73),
        4 => (0, 7, 100),
        5 => (12, 44, 138),
        6 => (24, 82, 177),
        7 => (57, 125, 209),
        8 => (134, 181, 229),
        9 => (211, 236, 248),
        10 => (241, 233, 191),
        11 => (248, 201, 95),
        12 => (255, 170, 0),
        13 => (204, 128, 0),
        14 => (153, 87, 0),
        _ => (0, 0, 0),
    }
}

fn clamp_exec(v: u128) -> (b: u8)
    ensures
        b == clamp_byte(v as int),
{
    if v >= 255 {
        255
    } else {
        v as u8
    }
}

fn gradient_exec(count: u16, p: CPoint) -> (rgb: (u8, u8, u8))
    requires
        p.bounded(),
    ensures
        rgb == gradient_color(count as nat, p),
{
    let crm: u64 = if p.re >= 0 { p.re as u64 } else { (-p.re) as u64 };
    let cim: u64 = if p.im >= 0 { p.im as u64 } else { (-p.im) as u64 };
    proof {
        assert((crm as int) * (crm as int) == (p.re as int) * (p.re as int)) by (nonlinear_arith)
            requires
                crm as int == p.re as int || crm as int == -(p.re as int),
        ;
        assert((cim as int) * (cim as int) == (p.im as int) * (p.im as int)) by (nonlinear_arith)
            requires
                cim as int == p.im as int || cim as int == -(p.im as int),
        ;
        assert(0 <= (crm as int) * (crm as int) <= 1208925819614629174706176)
            by (nonlinear_arith)
            requires
                0 <= crm <= 1099511627776,
        ;
        assert(0 <= (cim as int) * (cim as int) <= 1208925819614629174706176)
            by (nonlinear_arith)
            requires
                0 <= cim <= 1099511627776,
        ;
    }
    let n2: u128 = (crm as u128) * (crm as u128) + (cim as u128) * (cim as u128);
    proof {
        assert(255 * (n2 as int) * (count as int) <= 255 * 2417851639229258349412352 * 65535
            && 0 <= 255 * (n2 as int) * (count as int)
            && 20 * (n2 as int) * (count as int) <= 20 * 2417851639229258349412352 * 65535
            && 0 <= 20 * (n2 as int) * (count as int)) by (nonlinear_arith)
            requires
                0 <= n2 <= 2417851639229258349412352,
                0 <= count <= 65535,
        ;
    }
    let rn: u128 = 255 * n2 * (count as u128);
    let bn: u128 = 20 * n2 * (count as u128);
    proof {
        assert(16777216 * 16777216 == 281474976710656) by (nonlinear_arith);
    }
    let s2: u128 = (SCALE as u128) * (SCALE as u128);
    let r: u8 = clamp_exec(rn / s2);
    let g: u8 = clamp_exec(255 * (count as u128));
    let b: u8 = clamp_exec(bn / s2);
    (r, g, b)
}

/// Maps an iteration count (and, for the gradient policy, the plane point)
/// to an RGB triple. Deterministic: the result is exactly
/// `color_spec(policy, count, p)`, a pure function of its inputs.
pub fn color(policy: ColorPolicy, count: u16, p: CPoint) -> (rgb: (u8, u8, u8))
    requires
        p.bounded(),
    ensures
        rgb == color_spec(policy, count, p),
{
    match policy {
        ColorPolicy::Palette => {
            if count == 0 {
                (0, 0, 0)
            } else {
                palette_lookup(count % 16)
            }
        },
        ColorPolicy::Gradient => gradient_exec(count, p),
    }
}

} // verus!
