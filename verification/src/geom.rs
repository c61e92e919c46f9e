//! Pixel grid, plane window, and the mapping from one to the other.

use vstd::prelude::*;
use crate::fixed::{SCALE, COORD_LIMIT, tdiv, lemma_mul_tdiv_le, div_pos};

verus! {

/// A point in the complex plane, in fixed-point steps of 1/`SCALE`.
#[derive(Clone, Copy, PartialEq, Eq, Structural, Debug)]
pub struct CPoint {
    pub re: i64,
    pub im: i64,
}

impl CPoint {
    /// Both coordinates lie within `COORD_LIMIT`.
    pub open spec fn bounded(self) -> bool {
        &&& -COORD_LIMIT <= self.re <= COORD_LIMIT
        &&& -COORD_LIMIT <= self.im <= COORD_LIMIT
    }

    pub fn new(re: i64, im: i64) -> (p: CPoint)
        ensures
            p.re == re,
            p.im == im,
    {
        CPoint { re, im }
    }

    /// The point `units_re + units_im * i`, for whole units within the
    /// coordinate limit.
    pub fn from_units(units_re: i32, units_im: i32) -> (p: CPoint)
        requires
            -65536 <= units_re <= 65536,
            -65536 <= units_im <= 65536,
        ensures
            p.re == units_re * SCALE,
            p.im == units_im * SCALE,
            p.bounded(),
    {
        proof {
            assert(-1099511627776 <= units_re * 16777216 <= 1099511627776) by (nonlinear_arith)
                requires
                    -65536 <= units_re <= 65536,
            ;
            assert(-1099511627776 <= units_im * 16777216 <= 1099511627776) by (nonlinear_arith)
                requires
                    -65536 <= units_im <= 65536,
            ;
        }
        CPoint { re: (units_re as i64) * SCALE, im: (units_im as i64) * SCALE }
    }
}

/// Pixel-grid dimensions of the output image.
#[derive(Clone, Copy, PartialEq, Eq, Structural, Debug)]
pub struct Bounds {
    pub width: usize,
    pub height: usize,
}

/// Largest accepted image side, so that `width * height * 3` and every index
/// computation fit comfortably in `usize`.
pub const MAX_SIDE: usize = 16384;

impl Bounds {
    /// Both dimensions positive and within the machine limit.
    pub open spec fn wf(self) -> bool {
        &&& 0 < self.width <= MAX_SIDE
        &&& 0 < self.height <= MAX_SIDE
    }

    /// Accepts the dimensions only when both are positive and within `MAX_SIDE`.
    pub fn new(width: usize, height: usize) -> (r: Option<Bounds>)
        ensures
            r is Some <==> (0 < width <= MAX_SIDE && 0 < height <= MAX_SIDE),
            r is Some ==> r.unwrap() == (Bounds { width, height }) && r.unwrap().wf(),
    {
        if 0 < width && width <= MAX_SIDE && 0 < height && height <= MAX_SIDE {
            Some(Bounds { width, height })
        } else {
            None
        }
    }
}

/// The rectangle of the complex plane mapped onto the pixel grid, given by
/// its top-left and bottom-right corners.
#[derive(Clone, Copy, PartialEq, Eq, Structural, Debug)]
pub struct PlaneWindow {
    pub top_left: CPoint,
    pub bottom_right: CPoint,
}

impl PlaneWindow {
    /// Non-degenerate, non-inverted, and within the coordinate limit.
    pub open spec fn wf(self) -> bool {
        &&& self.top_left.bounded()
        &&& self.bottom_right.bounded()
        &&& self.bottom_right.re > self.top_left.re
        &&& self.top_left.im > self.bottom_right.im
    }

    /// Accepts the corners only when the window is non-degenerate and
    /// non-inverted and both corners are bounded.
    pub fn new(top_left: CPoint, bottom_right: CPoint) -> (r: Option<PlaneWindow>)
        ensures
            r is Some <==> (PlaneWindow { top_left, bottom_right }).wf(),
            r is Some ==> r.unwrap() == (PlaneWindow { top_left, bottom_right }),
    {
        let w = PlaneWindow { top_left, bottom_right };
        if -COORD_LIMIT <= top_left.re && top_left.re <= COORD_LIMIT
            && -COORD_LIMIT <= top_left.im && top_left.im <= COORD_LIMIT
            && -COORD_LIMIT <= bottom_right.re && bottom_right.re <= COORD_LIMIT
            && -COORD_LIMIT <= bottom_right.im && bottom_right.im <= COORD_LIMIT
            && bottom_right.re > top_left.re && top_left.im > bottom_right.im {
            Some(w)
        } else {
            None
        }
    }

    /// Horizontal plane distance covered by one pixel column.
    pub open spec fn x_step(self, b: Bounds) -> int {
        tdiv(self.bottom_right.re - self.top_left.re, b.width as int)
    }

    /// Vertical plane distance covered by one pixel row.
    pub open spec fn y_step(self, b: Bounds) -> int {
        tdiv(self.top_left.im - self.bottom_right.im, b.height as int)
    }
}

/// Real part of the plane point of pixel column `x`.
pub open spec fn point_re(x: int, b: Bounds, w: PlaneWindow) -> int {
    w.top_left.re + x * w.x_step(b)
}

/// Imaginary part of the plane point of pixel row `y`. Row 0 sits at the
/// `bottom_right` imaginary coordinate and rising row index moves toward
/// `top_left.im`.
pub open spec fn point_im(y: int, b: Bounds, w: PlaneWindow) -> int {
    w.bottom_right.im + y * w.y_step(b)
}

/// The mapped point of any in-range pixel stays inside the window, hence
/// inside the coordinate limit.
pub proof fn lemma_point_in_window(x: int, y: int, b: Bounds, w: PlaneWindow)
    requires
        b.wf(),
        w.wf(),
        0 <= x < b.width,
        0 <= y < b.height,
    ensures
        w.top_left.re <= point_re(x, b, w) <= w.bottom_right.re,
        w.bottom_right.im <= point_im(y, b, w) <= w.top_left.im,
{
    lemma_mul_tdiv_le(x, w.bottom_right.re - w.top_left.re, b.width as int);
    lemma_mul_tdiv_le(y, w.top_left.im - w.bottom_right.im, b.height as int);
}

/// Converts a pixel index into its point in the complex plane: the window is
/// divided into `width` columns of `x_step` and `height` rows of `y_step`,
/// both rounded toward zero.
pub fn map_pixel(x: usize, y: usize, bounds: &Bounds, window: &PlaneWindow) -> (p: CPoint)
    requires
        bounds.wf(),
        window.wf(),
        x < bounds.width,
        y < bounds.height,
    ensures
        p.re == point_re(x as int, *bounds, *window),
        p.im == point_im(y as int, *bounds, *window),
        p.bounded(),
{
    proof {
        lemma_point_in_window(x as int, y as int, *bounds, *window);
        lemma_mul_tdiv_le(x as int, window.bottom_right.re - window.top_left.re,
            bounds.width as int);
        lemma_mul_tdiv_le(y as int, window.top_left.im - window.bottom_right.im,
            bounds.height as int);
    }
    let dx: i64 = window.bottom_right.re - window.top_left.re;
    let dy: i64 = window.top_left.im - window.bottom_right.im;
    let xs: i64 = div_pos(dx, bounds.width as u64);
    let ys: i64 = div_pos(dy, bounds.height as u64);
    proof {
        assert(0 <= (x as int) * (xs as int) <= dx as int);
        assert(0 <= (y as int) * (ys as int) <= dy as int);
    }
    let px: i64 = window.top_left.re + (x as i64) * xs;
    let py: i64 = window.bottom_right.im + (y as i64) * ys;
    CPoint { re: px, im: py }
}

/// The mapping is monotone in the pixel index: the real part never decreases
/// with the column, and the imaginary part never decreases with the row
/// (row 0 lies at the bottom edge of the window).
pub proof fn lemma_map_monotone(x1: int, x2: int, y1: int, y2: int, b: Bounds, w: PlaneWindow)
    requires
        b.wf(),
        w.wf(),
        0 <= x1 <= x2 < b.width,
        0 <= y1 <= y2 < b.height,
    ensures
        point_re(x1, b, w) <= point_re(x2, b, w),
        point_im(y1, b, w) <= point_im(y2, b, w),
        x1 < x2 && w.x_step(b) >= 1 ==> point_re(x1, b, w) < point_re(x2, b, w),
        y1 < y2 && w.y_step(b) >= 1 ==> point_im(y1, b, w) < point_im(y2, b, w),
{
    crate::fixed::lemma_tdiv_nonneg_le(w.bottom_right.re - w.top_left.re, b.width as int);
    crate::fixed::lemma_tdiv_nonneg_le(w.top_left.im - w.bottom_right.im, b.height as int);
    assert(x1 * w.x_step(b) <= x2 * w.x_step(b)) by (nonlinear_arith)
        requires
            x1 <= x2,
            w.x_step(b) >= 0,
    ;
    assert(y1 * w.y_step(b) <= y2 * w.y_step(b)) by (nonlinear_arith)
        requires
            y1 <= y2,
            w.y_step(b) >= 0,
    ;
    if x1 < x2 && w.x_step(b) >= 1 {
        assert(x1 * w.x_step(b) < x2 * w.x_step(b)) by (nonlinear_arith)
            requires
                x1 < x2,
                w.x_step(b) >= 1,
        ;
    }
    if y1 < y2 && w.y_step(b) >= 1 {
        assert(y1 * w.y_step(b) < y2 * w.y_step(b)) by (nonlinear_arith)
            requires
                y1 < y2,
                w.y_step(b) >= 1,
        ;
    }
}

} // verus!
