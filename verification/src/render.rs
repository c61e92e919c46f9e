//! Tile rendering and the partitioned render of the whole image.
//!
//! The image is cut into a `num_workers` x `num_workers` grid of equal
//! tiles of `width / num_workers` by `height / num_workers` pixels. Each
//! tile is rendered independently into its own buffer and then placed at
//! its rectangle of the row-major output buffer, so the partitioned render
//! agrees pixel for pixel with a single full-image render wherever the grid
//! covers the image. When a dimension is not a multiple of the worker
//! count, the leftover pixels at the far edges belong to no tile and keep
//! their initial zero bytes; the contracts state this explicitly.

use vstd::prelude::*;
use vstd::pervasive::VecAdditionalExecFns;
use vstd::arithmetic::div_mod::{
    lemma_fundamental_div_mod, lemma_fundamental_div_mod_converse_div,
    lemma_fundamental_div_mod_converse_mod,
};
use crate::geom::{CPoint, Bounds, PlaneWindow, map_pixel, point_re, point_im,
    lemma_point_in_window};
use crate::escape::{iterate, iterate_spec};
use crate::color::{color, color_spec, ColorPolicy};

verus! {

/// The plane point of pixel `(x, y)`.
pub open spec fn point_of(x: int, y: int, b: Bounds, w: PlaneWindow) -> CPoint {
    CPoint { re: point_re(x, b, w) as i64, im: point_im(y, b, w) as i64 }
}

/// The colour of pixel `(x, y)`: map, iterate, colour.
pub open spec fn pixel_rgb(x: int, y: int, b: Bounds, w: PlaneWindow, policy: ColorPolicy,
    max: u16) -> (u8, u8, u8) {
    color_spec(policy, iterate_spec(point_of(x, y, b, w), max) as u16, point_of(x, y, b, w))
}

/// One channel of an RGB triple.
pub open spec fn chan(rgb: (u8, u8, u8), k: int) -> u8 {
    if k == 0 {
        rgb.0
    } else if k == 1 {
        rgb.1
    } else {
        rgb.2
    }
}

/// Byte index of channel `k` of local pixel `(r, c)` in a tile `tw` wide.
pub open spec fn tidx(r: int, c: int, tw: int, k: int) -> int {
    3 * (r * tw + c) + k
}

/// Byte index of channel `k` of pixel `(x, y)` in the row-major image buffer.
pub open spec fn gidx(x: int, y: int, k: int, b: Bounds) -> int {
    3 * (y * (b.width as int) + x) + k
}

/// Length in bytes of the image buffer: `width * height * 3`.
pub open spec fn image_len(b: Bounds) -> int {
    3 * ((b.width as int) * (b.height as int))
}

/// Pixel column of byte `i` of the image buffer.
pub open spec fn byte_x(i: int, b: Bounds) -> int {
    (i / 3) % (b.width as int)
}

/// Pixel row of byte `i` of the image buffer.
pub open spec fn byte_y(i: int, b: Bounds) -> int {
    (i / 3) / (b.width as int)
}

/// Every byte index of the buffer decomposes uniquely into a pixel and a
/// channel.
pub proof fn lemma_byte_decompose(i: int, b: Bounds)
    requires
        b.wf(),
        0 <= i < image_len(b),
    ensures
        0 <= byte_x(i, b) < b.width,
        0 <= byte_y(i, b) < b.height,
        0 <= i % 3 < 3,
        gidx(byte_x(i, b), byte_y(i, b), i % 3, b) == i,
{
    let wd = b.width as int;
    let ht = b.height as int;
    let pix = i / 3;
    lemma_fundamental_div_mod(i, 3);
    assert(0 <= pix < wd * ht) by (nonlinear_arith)
        requires
            i == 3 * pix + i % 3,
            0 <= i % 3 < 3,
            0 <= i < 3 * (wd * ht),
    ;
    lemma_fundamental_div_mod(pix, wd);
    assert(0 <= pix % wd < wd);
    assert(0 <= pix / wd < ht) by (nonlinear_arith)
        requires
            pix == wd * (pix / wd) + pix % wd,
            0 <= pix % wd < wd,
            0 <= pix < wd * ht,
            wd >= 1,
            ht >= 1,
    ;
    assert(gidx(byte_x(i, b), byte_y(i, b), i % 3, b)
        == 3 * ((pix / wd) * wd + pix % wd) + i % 3);
    assert((pix / wd) * wd == wd * (pix / wd)) by (nonlinear_arith);
}

/// The byte index of an in-range pixel and channel is in range, and the
/// decomposition inverts it.
pub proof fn lemma_gidx_range(x: int, y: int, k: int, b: Bounds)
    requires
        b.wf(),
        0 <= x < b.width,
        0 <= y < b.height,
        0 <= k < 3,
    ensures
        0 <= gidx(x, y, k, b) < image_len(b),
        byte_x(gidx(x, y, k, b), b) == x,
        byte_y(gidx(x, y, k, b), b) == y,
        gidx(x, y, k, b) % 3 == k,
{
    let wd = b.width as int;
    let ht = b.height as int;
    let pix = y * wd + x;
    assert(0 <= pix && pix + 1 <= wd * ht) by (nonlinear_arith)
        requires
            0 <= x < wd,
            0 <= y < ht,
            pix == y * wd + x,
    ;
    lemma_fundamental_div_mod_converse_div(3 * pix + k, 3, pix, k);
    lemma_fundamental_div_mod_converse_mod(3 * pix + k, 3, pix, k);
    lemma_fundamental_div_mod_converse_div(pix, wd, y, x);
    lemma_fundamental_div_mod_converse_mod(pix, wd, y, x);
}

/// A tile byte index stays below the bytes of `rows` full rows.
proof fn lemma_tidx_lt(r: int, c: int, k: int, rows: int, tw: int)
    requires
        0 <= r < rows,
        0 <= c < tw,
        0 <= k < 3,
    ensures
        0 <= tidx(r, c, tw, k),
        tidx(r, c, tw, k) < 3 * (rows * tw),
        tidx(r, c, tw, k) < 3 * (tw * rows),
{
    assert(0 <= 3 * (r * tw + c) + k < 3 * (rows * tw) && rows * tw == tw * rows)
        by (nonlinear_arith)
        requires
            0 <= r < rows,
            0 <= c < tw,
            0 <= k < 3,
    ;
}

/// Renders one tile: for each pixel of the `tile_w` x `tile_h` rectangle
/// whose top-left pixel is `(x0, y0)`, maps it into the plane through the
/// whole-image bounds and window, evaluates the escape time, and colours it.
/// The result is the tile's pixels in row-major order, three bytes each.
pub fn render_tile(x0: usize, y0: usize, tile_w: usize, tile_h: usize, bounds: &Bounds,
    window: &PlaneWindow, policy: ColorPolicy, max: u16) -> (out: Vec<u8>)
    requires
        bounds.wf(),
        window.wf(),
        x0 + tile_w <= bounds.width,
        y0 + tile_h <= bounds.height,
    ensures
        out@.len() == 3 * ((tile_w as int) * (tile_h as int)),
        forall |r: int, c: int, k: int|
            0 <= r < tile_h && 0 <= c < tile_w && 0 <= k < 3 ==>
                #[trigger] out@[tidx(r, c, tile_w as int, k)]
                    == chan(pixel_rgb(x0 + c, y0 + r, *bounds, *window, policy, max), k),
{
    let mut out: Vec<u8> = Vec::new();
    let mut row: usize = 0;
    while row < tile_h
        invariant
            bounds.wf(),
            window.wf(),
            x0 + tile_w <= bounds.width,
            y0 + tile_h <= bounds.height,
            row <= tile_h,
            out@.len() == 3 * ((row as int) * (tile_w as int)),
            forall |r: int, c: int, k: int|
                0 <= r < row && 0 <= c < tile_w && 0 <= k < 3 ==>
                    #[trigger] out@[tidx(r, c, tile_w as int, k)]
                        == chan(pixel_rgb(x0 + c, y0 + r, *bounds, *window, policy, max), k),
        decreases tile_h - row,
    {
        let mut col: usize = 0;
        while col < tile_w
            invariant
                bounds.wf(),
                window.wf(),
                x0 + tile_w <= bounds.width,
                y0 + tile_h <= bounds.height,
                row < tile_h,
                col <= tile_w,
                out@.len() == 3 * ((row as int) * (tile_w as int)) + 3 * (col as int),
                forall |r: int, c: int, k: int|
                    0 <= r < row && 0 <= c < tile_w && 0 <= k < 3 ==>
                        #[trigger] out@[tidx(r, c, tile_w as int, k)]
                            == chan(pixel_rgb(x0 + c, y0 + r, *bounds, *window, policy, max), k),
                forall |c: int, k: int|
                    0 <= c < col && 0 <= k < 3 ==>
                        #[trigger] out@[tidx(row as int, c, tile_w as int, k)]
                            == chan(pixel_rgb(x0 + c, y0 + row, *bounds, *window, policy, max),
                                k),
            decreases tile_w - col,
        {
            let p = map_pixel(x0 + col, y0 + row, bounds, window);
            proof {
                lemma_point_in_window((x0 + col) as int, (y0 + row) as int, *bounds, *window);
                assert(p == point_of((x0 + col) as int, (y0 + row) as int, *bounds, *window));
            }
            let n = iterate(p, max);
            let rgb = color(policy, n, p);
            out.push(rgb.0);
            out.push(rgb.1);
            out.push(rgb.2);
            proof {
                let tw = tile_w as int;
                let base = 3 * ((row as int) * tw) + 3 * (col as int);
                assert(tidx(row as int, col as int, tw, 0) == base);
                assert(tidx(row as int, col as int, tw, 1) == base + 1);
                assert(tidx(row as int, col as int, tw, 2) == base + 2);
                assert(rgb == pixel_rgb((x0 + col) as int, (y0 + row) as int, *bounds, *window,
                    policy, max));
                assert forall |r: int, c: int, k: int|
                    0 <= r < row && 0 <= c < tile_w && 0 <= k < 3 implies
                        #[trigger] out@[tidx(r, c, tw, k)]
                            == chan(pixel_rgb(x0 + c, y0 + r, *bounds, *window, policy, max),
                                k) by {
                    lemma_tidx_lt(r, c, k, row as int, tw);
                }
            }
            col = col + 1;
        }
        proof {
            assert(3 * ((row as int) * (tile_w as int)) + 3 * (tile_w as int)
                == 3 * (((row as int) + 1) * (tile_w as int))) by (nonlinear_arith);
        }
        row = row + 1;
    }
    out
}

/// The full image as a byte sequence: channel `i % 3` of pixel `i / 3`.
pub open spec fn full_image(b: Bounds, w: PlaneWindow, policy: ColorPolicy, max: u16) -> Seq<u8> {
    Seq::new(image_len(b) as nat, |i: int|
        chan(pixel_rgb(byte_x(i, b), byte_y(i, b), b, w, policy, max), i % 3))
}

/// Renders the whole image as one tile: the result is exactly `full_image`.
pub fn render_full(bounds: &Bounds, window: &PlaneWindow, policy: ColorPolicy, max: u16)
    -> (out: Vec<u8>)
    requires
        bounds.wf(),
        window.wf(),
    ensures
        out@ == full_image(*bounds, *window, policy, max),
        out@.len() == image_len(*bounds),
{
    let out = render_tile(0, 0, bounds.width, bounds.height, bounds, window, policy, max);
    proof {
        let b = *bounds;
        assert forall |i: int| 0 <= i < image_len(b) implies
            out@[i] == full_image(b, *window, policy, max)[i] by {
            lemma_byte_decompose(i, b);
            let x = byte_x(i, b);
            let y = byte_y(i, b);
            let k = i % 3;
            assert(tidx(y, x, b.width as int, k) == gidx(x, y, k, b));
            assert(out@[tidx(y, x, b.width as int, k)]
                == chan(pixel_rgb(0 + x, 0 + y, b, *window, policy, max), k));
        }
        assert(out@ =~= full_image(b, *window, policy, max));
    }
    out
}

/// One rendering band: the pixel rectangle handed to one worker.
#[derive(Clone, Copy, PartialEq, Eq, Structural, Debug)]
pub struct Band {
    pub x0: usize,
    pub y0: usize,
    pub width: usize,
    pub height: usize,
}

/// A configuration the partitioner rejects before any work starts.
#[derive(Clone, Copy, PartialEq, Eq, Structural, Debug)]
pub enum ConfigError {
    NoWorkers,
    TileWidthZero,
    TileHeightZero,
}

/// Tile width of an `n`-worker partition.
pub open spec fn bw_of(n: int, b: Bounds) -> int {
    (b.width as int) / n
}

/// Tile height of an `n`-worker partition.
pub open spec fn bh_of(n: int, b: Bounds) -> int {
    (b.height as int) / n
}

/// A worker count the partitioner accepts: positive, and neither tile
/// dimension degenerates to zero.
pub open spec fn config_ok(n: int, b: Bounds) -> bool {
    &&& n >= 1
    &&& bw_of(n, b) >= 1
    &&& bh_of(n, b) >= 1
}

/// The `i`-th band of an `n`-worker partition: tile `(i % n, i / n)` of the
/// grid, in-bounds in the image.
pub open spec fn is_band(bd: Band, i: int, n: int, b: Bounds) -> bool {
    &&& bd.x0 == (i % n) * bw_of(n, b)
    &&& bd.y0 == (i / n) * bh_of(n, b)
    &&& bd.width == bw_of(n, b)
    &&& bd.height == bh_of(n, b)
    &&& bd.x0 + bd.width <= b.width
    &&& bd.y0 + bd.height <= b.height
}

/// Splits the image into the `n * n` grid of equal tiles, row-major over
/// the grid. Rejects a zero worker count and any count that degenerates a
/// tile dimension to zero, before any rendering work.
pub fn partition(num_workers: usize, bounds: &Bounds) -> (r: Result<Vec<Band>, ConfigError>)
    requires
        bounds.wf(),
    ensures
        r is Ok <==> config_ok(num_workers as int, *bounds),
        num_workers == 0 ==> r == Err::<Vec<Band>, ConfigError>(ConfigError::NoWorkers),
        num_workers >= 1 && bw_of(num_workers as int, *bounds) == 0
            ==> r == Err::<Vec<Band>, ConfigError>(ConfigError::TileWidthZero),
        num_workers >= 1 && bw_of(num_workers as int, *bounds) >= 1
            && bh_of(num_workers as int, *bounds) == 0
            ==> r == Err::<Vec<Band>, ConfigError>(ConfigError::TileHeightZero),
        r is Ok ==> r.unwrap()@.len() == (num_workers as int) * (num_workers as int),
        r is Ok ==> forall |i: int| 0 <= i < r.unwrap()@.len()
            ==> is_band(#[trigger] r.unwrap()@[i], i, num_workers as int, *bounds),
{
    if num_workers == 0 {
        return Err(ConfigError::NoWorkers);
    }
    let bw = bounds.width / num_workers;
    if bw == 0 {
        return Err(ConfigError::TileWidthZero);
    }
    let bh = bounds.height / num_workers;
    if bh == 0 {
        return Err(ConfigError::TileHeightZero);
    }
    let n = num_workers;
    proof {
        lemma_fundamental_div_mod(bounds.width as int, n as int);
        lemma_fundamental_div_mod(bounds.height as int, n as int);
        assert((n as int) * bw_of(n as int, *bounds) <= bounds.width);
        assert((n as int) * bh_of(n as int, *bounds) <= bounds.height);
        assert(n <= bounds.width) by (nonlinear_arith)
            requires
                (n as int) * (bw as int) <= bounds.width,
                bw >= 1,
                n >= 1,
        ;
        assert((n as int) * (n as int) <= (bounds.width as int) * (bounds.height as int))
            by (nonlinear_arith)
            requires
                (n as int) * (bw as int) <= bounds.width,
                (n as int) * (bh as int) <= bounds.height,
                bw >= 1,
                bh >= 1,
                n >= 1,
        ;
        assert((bounds.width as int) * (bounds.height as int) <= 16384 * 16384)
            by (nonlinear_arith)
            requires
                0 < bounds.width <= 16384,
                0 < bounds.height <= 16384,
        ;
    }
    let total = n * n;
    let mut bands: Vec<Band> = Vec::new();
    let mut i: usize = 0;
    while i < total
        invariant
            bounds.wf(),
            1 <= n,
            bw == bw_of(n as int, *bounds),
            bh == bh_of(n as int, *bounds),
            1 <= bw,
            1 <= bh,
            (n as int) * (bw as int) <= bounds.width,
            (n as int) * (bh as int) <= bounds.height,
            total == (n as int) * (n as int),
            total <= 16384 * 16384,
            i <= total,
            bands@.len() == i,
            forall |j: int| 0 <= j < i
                ==> is_band(#[trigger] bands@[j], j, n as int, *bounds),
        decreases total - i,
    {
        let xi = i % n;
        let yi = i / n;
        proof {
            lemma_fundamental_div_mod(i as int, n as int);
            assert(yi < n) by (nonlinear_arith)
                requires
                    i as int == (n as int) * (yi as int) + (xi as int),
                    0 <= xi < n,
                    (i as int) < (n as int) * (n as int),
                    n >= 1,
                    yi == i as int / n as int,
            ;
            assert((xi as int) * (bw as int) + bw <= (n as int) * (bw as int))
                by (nonlinear_arith)
                requires
                    0 <= xi,
                    (xi as int) + 1 <= n,
                    bw >= 1,
            ;
            assert((yi as int) * (bh as int) + bh <= (n as int) * (bh as int))
                by (nonlinear_arith)
                requires
                    0 <= yi,
                    (yi as int) + 1 <= n,
                    bh >= 1,
            ;
        }
        let band = Band { x0: xi * bw, y0: yi * bh, width: bw, height: bh };
        bands.push(band);
        i = i + 1;
    }
    Ok(bands)
}

/// Byte `i` of the image buffer lies in the given pixel rectangle.
pub open spec fn rect_byte(i: int, x0: int, y0: int, tw: int, th: int, b: Bounds) -> bool {
    &&& x0 <= byte_x(i, b) < x0 + tw
    &&& y0 <= byte_y(i, b) < y0 + th
}

fn tidx_exec(r: usize, c: usize, tw: usize, k: usize) -> (i: usize)
    requires
        r < 16384,
        c < tw,
        tw <= 16384,
        k < 3,
    ensures
        i as int == tidx(r as int, c as int, tw as int, k as int),
{
    proof {
        assert(0 <= (r as int) * (tw as int) <= 16383 * 16384) by (nonlinear_arith)
            requires
                0 <= r <= 16383,
                0 < tw <= 16384,
        ;
    }
    3 * (r * tw + c) + k
}

fn gidx_exec(x: usize, y: usize, k: usize, bounds: &Bounds) -> (i: usize)
    requires
        bounds.wf(),
        x < bounds.width,
        y < bounds.height,
        k < 3,
    ensures
        i as int == gidx(x as int, y as int, k as int, *bounds),
        i < image_len(*bounds),
{
    proof {
        lemma_gidx_range(x as int, y as int, k as int, *bounds);
        assert(0 <= (y as int) * (bounds.width as int) <= 16383 * 16384) by (nonlinear_arith)
            requires
                0 <= y <= 16383,
                0 < bounds.width <= 16384,
        ;
    }
    3 * (y * bounds.width + x) + k
}

/// A buffer of `len` zero bytes.
pub fn zero_buffer(len: usize) -> (v: Vec<u8>)
    ensures
        v@.len() == len,
        forall |i: int| 0 <= i < len ==> v@[i] == 0,
{
    let mut v: Vec<u8> = Vec::new();
    let mut j: usize = 0;
    while j < len
        invariant
            j <= len,
            v@.len() == j,
            forall |i: int| 0 <= i < j ==> v@[i] == 0,
        decreases len - j,
    {
        v.push(0);
        j = j + 1;
    }
    v
}

/// Copies a rendered tile into its rectangle of the row-major image
/// buffer; every byte outside the rectangle is left untouched.
pub fn blit(buf: &mut Vec<u8>, tile: &Vec<u8>, x0: usize, y0: usize, tw: usize, th: usize,
    bounds: &Bounds)
    requires
        bounds.wf(),
        x0 + tw <= bounds.width,
        y0 + th <= bounds.height,
        old(buf)@.len() == image_len(*bounds),
        tile@.len() == 3 * ((tw as int) * (th as int)),
    ensures
        final(buf)@.len() == image_len(*bounds),
        forall |r: int, c: int, k: int|
            0 <= r < th && 0 <= c < tw && 0 <= k < 3 ==>
                final(buf)@[gidx(x0 + c, y0 + r, k, *bounds)]
                    == #[trigger] tile@[tidx(r, c, tw as int, k)],
        forall |i: int|
            0 <= i < image_len(*bounds)
                && !rect_byte(i, x0 as int, y0 as int, tw as int, th as int, *bounds)
                ==> final(buf)@[i] == old(buf)@[i],
{
    let ghost b = *bounds;
    let ghost twi = tw as int;
    let mut r: usize = 0;
    while r < th
        invariant
            bounds.wf(),
            b == *bounds,
            twi == tw as int,
            x0 + tw <= bounds.width,
            y0 + th <= bounds.height,
            buf@.len() == image_len(b),
            tile@.len() == 3 * (twi * (th as int)),
            r <= th,
            forall |rr: int, cc: int, kk: int|
                0 <= rr < r && 0 <= cc < tw && 0 <= kk < 3 ==>
                    buf@[gidx(x0 + cc, y0 + rr, kk, b)] == #[trigger] tile@[tidx(rr, cc, twi, kk)],
            forall |i: int|
                0 <= i < image_len(b)
                    && !rect_byte(i, x0 as int, y0 as int, tw as int, th as int, b)
                    ==> buf@[i] == old(buf)@[i],
        decreases th - r,
    {
        let mut c: usize = 0;
        while c < tw
            invariant
                bounds.wf(),
                b == *bounds,
                twi == tw as int,
                x0 + tw <= bounds.width,
                y0 + th <= bounds.height,
                buf@.len() == image_len(b),
                tile@.len() == 3 * (twi * (th as int)),
                r < th,
                c <= tw,
                forall |rr: int, cc: int, kk: int|
                    0 <= rr < r && 0 <= cc < tw && 0 <= kk < 3 ==>
                        buf@[gidx(x0 + cc, y0 + rr, kk, b)]
                            == #[trigger] tile@[tidx(rr, cc, twi, kk)],
                forall |cc: int, kk: int|
                    0 <= cc < c && 0 <= kk < 3 ==>
                        buf@[gidx(x0 + cc, y0 + r, kk, b)]
                            == #[trigger] tile@[tidx(r as int, cc, twi, kk)],
                forall |i: int|
                    0 <= i < image_len(b)
                        && !rect_byte(i, x0 as int, y0 as int, tw as int, th as int, b)
                        ==> buf@[i] == old(buf)@[i],
            decreases tw - c,
        {
            let mut k: usize = 0;
            while k < 3
                invariant
                    bounds.wf(),
                    b == *bounds,
                    twi == tw as int,
                    x0 + tw <= bounds.width,
                    y0 + th <= bounds.height,
                    buf@.len() == image_len(b),
                    tile@.len() == 3 * (twi * (th as int)),
                    r < th,
                    c < tw,
                    k <= 3,
                    forall |rr: int, cc: int, kk: int|
                        0 <= rr < r && 0 <= cc < tw && 0 <= kk < 3 ==>
                            buf@[gidx(x0 + cc, y0 + rr, kk, b)]
                                == #[trigger] tile@[tidx(rr, cc, twi, kk)],
                    forall |cc: int, kk: int|
                        0 <= cc < c && 0 <= kk < 3 ==>
                            buf@[gidx(x0 + cc, y0 + r, kk, b)]
                                == #[trigger] tile@[tidx(r as int, cc, twi, kk)],
                    forall |kk: int|
                        0 <= kk < k ==>
                            buf@[gidx(x0 + c, y0 + r, kk, b)]
                                == #[trigger] tile@[tidx(r as int, c as int, twi, kk)],
                    forall |i: int|
                        0 <= i < image_len(b)
                            && !rect_byte(i, x0 as int, y0 as int, tw as int, th as int, b)
                            ==> buf@[i] == old(buf)@[i],
                decreases 3 - k,
            {
                let ti = tidx_exec(r, c, tw, k);
                proof {
                    lemma_tidx_lt(r as int, c as int, k as int, th as int, twi);
                }
                let tv = tile[ti];
                let g = gidx_exec(x0 + c, y0 + r, k, bounds);
                buf.set(g, tv);
                proof {
                    lemma_gidx_range((x0 + c) as int, (y0 + r) as int, k as int, b);
                    assert(rect_byte(g as int, x0 as int, y0 as int, tw as int, th as int, b));
                    assert forall |rr: int, cc: int, kk: int|
                        0 <= rr < r && 0 <= cc < tw && 0 <= kk < 3 implies
                            buf@[gidx(x0 + cc, y0 + rr, kk, b)]
                                == #[trigger] tile@[tidx(rr, cc, twi, kk)] by {
                        lemma_gidx_range(x0 + cc, y0 + rr, kk, b);
                    }
                    assert forall |cc: int, kk: int|
                        0 <= cc < c && 0 <= kk < 3 implies
                            buf@[gidx(x0 + cc, y0 + r, kk, b)]
                                == #[trigger] tile@[tidx(r as int, cc, twi, kk)] by {
                        lemma_gidx_range(x0 + cc, y0 + r, kk, b);
                    }
                    assert forall |kk: int|
                        0 <= kk < k implies
                            buf@[gidx(x0 + c, y0 + r, kk, b)]
                                == #[trigger] tile@[tidx(r as int, c as int, twi, kk)] by {
                        lemma_gidx_range(x0 + c, y0 + r, kk, b);
                    }
                }
                k = k + 1;
            }
            c = c + 1;
        }
        r = r + 1;
    }
}

/// `x / d == q` exactly when `x` lies in the `q`-th block of size `d`.
proof fn lemma_div_block(x: int, d: int, q: int)
    requires
        d >= 1,
        0 <= x,
        0 <= q,
    ensures
        (x / d == q) <==> (q * d <= x < (q + 1) * d),
{
    lemma_fundamental_div_mod(x, d);
    if x / d == q {
        assert(q * d <= x < (q + 1) * d) by (nonlinear_arith)
            requires
                x == d * q + x % d,
                0 <= x % d < d,
        ;
    }
    if q * d <= x && x < (q + 1) * d {
        assert(0 <= x - q * d < d) by (nonlinear_arith)
            requires
                q * d <= x,
                x < (q + 1) * d,
        ;
        lemma_fundamental_div_mod_converse_div(x, d, q, x - q * d);
    }
}

/// Pixel `(x, y)` lies in some tile of the `n`-worker grid.
pub open spec fn covered(x: int, y: int, n: int, b: Bounds) -> bool {
    &&& 0 <= x < n * bw_of(n, b)
    &&& 0 <= y < n * bh_of(n, b)
}

/// The grid index of the tile holding pixel `(x, y)`.
pub open spec fn tile_of(x: int, y: int, n: int, b: Bounds) -> int {
    (y / bh_of(n, b)) * n + x / bw_of(n, b)
}

/// Pixel `(x, y)` is covered by one of the first `t` tiles.
pub open spec fn covered_upto(x: int, y: int, t: int, n: int, b: Bounds) -> bool {
    covered(x, y, n, b) && tile_of(x, y, n, b) < t
}

/// The partitioned image as a byte sequence: every covered pixel carries
/// its colour, every pixel outside the grid keeps its zero bytes.
pub open spec fn banded_image(n: int, b: Bounds, w: PlaneWindow, policy: ColorPolicy,
    max: u16) -> Seq<u8> {
    Seq::new(image_len(b) as nat, |i: int|
        if covered(byte_x(i, b), byte_y(i, b), n, b) {
            chan(pixel_rgb(byte_x(i, b), byte_y(i, b), b, w, policy, max), i % 3)
        } else {
            0u8
        })
}

/// A pixel lies inside tile `t`'s rectangle exactly when `t` is its tile.
proof fn lemma_tile_membership(x: int, y: int, t: int, n: int, b: Bounds)
    requires
        config_ok(n, b),
        0 <= t < n * n,
        0 <= x,
        0 <= y,
    ensures
        ((t % n) * bw_of(n, b) <= x < (t % n) * bw_of(n, b) + bw_of(n, b)
            && (t / n) * bh_of(n, b) <= y < (t / n) * bh_of(n, b) + bh_of(n, b))
        <==> (covered(x, y, n, b) && tile_of(x, y, n, b) == t),
{
    let bw = bw_of(n, b);
    let bh = bh_of(n, b);
    let xi = t % n;
    let yi = t / n;
    lemma_fundamental_div_mod(t, n);
    assert(0 <= xi < n);
    assert(0 <= yi < n) by (nonlinear_arith)
        requires
            t == n * yi + xi,
            0 <= xi < n,
            0 <= t,
            t < n * n,
            n >= 1,
    ;
    if xi * bw <= x && x < xi * bw + bw && yi * bh <= y && y < yi * bh + bh {
        assert((xi + 1) * bw == xi * bw + bw) by (nonlinear_arith);
        assert((yi + 1) * bh == yi * bh + bh) by (nonlinear_arith);
        lemma_div_block(x, bw, xi);
        lemma_div_block(y, bh, yi);
        assert(x < n * bw) by (nonlinear_arith)
            requires
                x < xi * bw + bw,
                xi + 1 <= n,
                bw >= 1,
                0 <= xi,
        ;
        assert(y < n * bh) by (nonlinear_arith)
            requires
                y < yi * bh + bh,
                yi + 1 <= n,
                bh >= 1,
                0 <= yi,
        ;
        assert(yi * n + xi == t) by (nonlinear_arith)
            requires
                t == n * yi + xi,
        ;
    }
    if covered(x, y, n, b) && tile_of(x, y, n, b) == t {
        let xq = x / bw;
        let yq = y / bh;
        lemma_fundamental_div_mod(x, bw);
        lemma_fundamental_div_mod(y, bh);
        assert(0 <= xq && xq < n) by (nonlinear_arith)
            requires
                x == bw * xq + x % bw,
                0 <= x % bw < bw,
                0 <= x,
                x < n * bw,
                bw >= 1,
        ;
        assert(0 <= yq && yq < n) by (nonlinear_arith)
            requires
                y == bh * yq + y % bh,
                0 <= y % bh < bh,
                0 <= y,
                y < n * bh,
                bh >= 1,
        ;
        assert(yq == yi && xq == xi) by (nonlinear_arith)
            requires
                yq * n + xq == n * yi + xi,
                0 <= xq < n,
                0 <= xi < n,
                0 <= yq,
                0 <= yi,
        ;
        assert(xi * bw <= x < xi * bw + bw) by (nonlinear_arith)
            requires
                x == bw * xq + x % bw,
                0 <= x % bw < bw,
                xq == xi,
        ;
        assert(yi * bh <= y < yi * bh + bh) by (nonlinear_arith)
            requires
                y == bh * yq + y % bh,
                0 <= y % bh < bh,
                yq == yi,
        ;
    }
}

/// Two distinct bands of the same partition claim disjoint pixel
/// rectangles: a pixel inside both band `i` and band `j` forces `i == j`.
pub proof fn lemma_bands_disjoint(x: int, y: int, i: int, j: int, n: int, b: Bounds)
    requires
        config_ok(n, b),
        0 <= i < n * n,
        0 <= j < n * n,
        0 <= x,
        0 <= y,
        (i % n) * bw_of(n, b) <= x < (i % n) * bw_of(n, b) + bw_of(n, b),
        (i / n) * bh_of(n, b) <= y < (i / n) * bh_of(n, b) + bh_of(n, b),
        (j % n) * bw_of(n, b) <= x < (j % n) * bw_of(n, b) + bw_of(n, b),
        (j / n) * bh_of(n, b) <= y < (j / n) * bh_of(n, b) + bh_of(n, b),
    ensures
        i == j,
{
    lemma_tile_membership(x, y, i, n, b);
    lemma_tile_membership(x, y, j, n, b);
}

/// Once all `n * n` tiles are placed, every covered pixel is covered by one
/// of them.
proof fn lemma_covered_final(x: int, y: int, n: int, b: Bounds)
    requires
        config_ok(n, b),
        covered(x, y, n, b),
    ensures
        covered_upto(x, y, n * n, n, b),
{
    let bw = bw_of(n, b);
    let bh = bh_of(n, b);
    let xq = x / bw;
    let yq = y / bh;
    lemma_fundamental_div_mod(x, bw);
    lemma_fundamental_div_mod(y, bh);
    assert(0 <= xq && xq < n) by (nonlinear_arith)
        requires
            x == bw * xq + x % bw,
            0 <= x % bw < bw,
            0 <= x,
            x < n * bw,
            bw >= 1,
    ;
    assert(0 <= yq && yq < n) by (nonlinear_arith)
        requires
            y == bh * yq + y % bh,
            0 <= y % bh < bh,
            0 <= y,
            y < n * bh,
            bh >= 1,
    ;
    assert(yq * n + xq < n * n) by (nonlinear_arith)
        requires
            0 <= xq < n,
            0 <= yq < n,
    ;
}

/// Partitioned render: splits the image into the worker grid, renders each
/// band as an independent tile, and places every tile at its rectangle of
/// the row-major buffer. Rejects bad worker counts exactly as `partition`
/// does; on success the buffer is exactly `banded_image`.
pub fn render_parallel(num_workers: usize, bounds: &Bounds, window: &PlaneWindow,
    policy: ColorPolicy, max: u16) -> (res: Result<Vec<u8>, ConfigError>)
    requires
        bounds.wf(),
        window.wf(),
    ensures
        res is Ok <==> config_ok(num_workers as int, *bounds),
        num_workers == 0 ==> res == Err::<Vec<u8>, ConfigError>(ConfigError::NoWorkers),
        num_workers >= 1 && bw_of(num_workers as int, *bounds) == 0
            ==> res == Err::<Vec<u8>, ConfigError>(ConfigError::TileWidthZero),
        num_workers >= 1 && bw_of(num_workers as int, *bounds) >= 1
            && bh_of(num_workers as int, *bounds) == 0
            ==> res == Err::<Vec<u8>, ConfigError>(ConfigError::TileHeightZero),
        res is Ok ==> res.unwrap()@
            == banded_image(num_workers as int, *bounds, *window, policy, max),
{
    let bands = match partition(num_workers, bounds) {
        Ok(bs) => bs,
        Err(e) => {
            return Err(e);
        },
    };
    let n = num_workers;
    let ghost ni = n as int;
    let ghost b = *bounds;
    proof {
        assert(0 < (bounds.width as int) * (bounds.height as int) <= 16384 * 16384)
            by (nonlinear_arith)
            requires
                0 < bounds.width <= 16384,
                0 < bounds.height <= 16384,
        ;
    }
    let len = 3 * (bounds.width * bounds.height);
    let mut buf = zero_buffer(len);
    proof {
        assert forall |x: int, y: int, k: int|
            0 <= x < b.width && 0 <= y < b.height && 0 <= k < 3 implies
                #[trigger] buf@[gidx(x, y, k, b)] == 0 by {
            lemma_gidx_range(x, y, k, b);
        }
    }
    let total = bands.len();
    let mut t: usize = 0;
    while t < total
        invariant
            bounds.wf(),
            window.wf(),
            b == *bounds,
            ni == n as int,
            config_ok(ni, b),
            bands@.len() == ni * ni,
            total == bands@.len(),
            forall |j: int| 0 <= j < bands@.len() ==> is_band(#[trigger] bands@[j], j, ni, b),
            buf@.len() == image_len(b),
            t <= total,
            forall |x: int, y: int, k: int|
                0 <= x < b.width && 0 <= y < b.height && 0 <= k < 3
                    && covered_upto(x, y, t as int, ni, b) ==>
                    #[trigger] buf@[gidx(x, y, k, b)]
                        == chan(pixel_rgb(x, y, b, *window, policy, max), k),
            forall |x: int, y: int, k: int|
                0 <= x < b.width && 0 <= y < b.height && 0 <= k < 3
                    && !covered_upto(x, y, t as int, ni, b) ==>
                    #[trigger] buf@[gidx(x, y, k, b)] == 0,
        decreases total - t,
    {
        let band = bands[t];
        let ghost buf0 = buf@;
        let tile = render_tile(band.x0, band.y0, band.width, band.height, bounds, window,
            policy, max);
        blit(&mut buf, &tile, band.x0, band.y0, band.width, band.height, bounds);
        proof {
            let ti = t as int;
            let bw = bw_of(ni, b);
            let bh = bh_of(ni, b);
            let x0 = (ti % ni) * bw;
            let y0 = (ti / ni) * bh;
            assert(is_band(bands@[ti], ti, ni, b));
            assert(band.x0 == x0 && band.y0 == y0 && band.width == bw && band.height == bh);
            assert forall |x: int, y: int, k: int|
                0 <= x < b.width && 0 <= y < b.height && 0 <= k < 3
                    && covered_upto(x, y, ti + 1, ni, b) implies
                    #[trigger] buf@[gidx(x, y, k, b)]
                        == chan(pixel_rgb(x, y, b, *window, policy, max), k) by {
                lemma_tile_membership(x, y, ti, ni, b);
                lemma_gidx_range(x, y, k, b);
                if tile_of(x, y, ni, b) == ti {
                    let rr = y - y0;
                    let cc = x - x0;
                    assert(buf@[gidx(x0 + cc, y0 + rr, k, b)] == tile@[tidx(rr, cc, bw, k)]);
                    assert(tile@[tidx(rr, cc, bw, k)]
                        == chan(pixel_rgb(x0 + cc, y0 + rr, b, *window, policy, max), k));
                } else {
                    assert(covered_upto(x, y, ti, ni, b));
                    assert(!rect_byte(gidx(x, y, k, b), x0, y0, bw, bh, b));
                    assert(buf0[gidx(x, y, k, b)]
                        == chan(pixel_rgb(x, y, b, *window, policy, max), k));
                }
            }
            assert forall |x: int, y: int, k: int|
                0 <= x < b.width && 0 <= y < b.height && 0 <= k < 3
                    && !covered_upto(x, y, ti + 1, ni, b) implies
                    #[trigger] buf@[gidx(x, y, k, b)] == 0 by {
                lemma_tile_membership(x, y, ti, ni, b);
                lemma_gidx_range(x, y, k, b);
                assert(!covered_upto(x, y, ti, ni, b));
                assert(!rect_byte(gidx(x, y, k, b), x0, y0, bw, bh, b));
                assert(buf0[gidx(x, y, k, b)] == 0);
            }
        }
        t = t + 1;
    }
    proof {
        assert forall |i: int| 0 <= i < image_len(b) implies
            buf@[i] == banded_image(ni, b, *window, policy, max)[i] by {
            lemma_byte_decompose(i, b);
            let x = byte_x(i, b);
            let y = byte_y(i, b);
            let k = i % 3;
            if covered(x, y, ni, b) {
                lemma_covered_final(x, y, ni, b);
                assert(buf@[gidx(x, y, k, b)]
                    == chan(pixel_rgb(x, y, b, *window, policy, max), k));
            } else {
                assert(!covered_upto(x, y, (ni * ni) as int, ni, b));
                assert(buf@[gidx(x, y, k, b)] == 0);
            }
        }
        assert(buf@ =~= banded_image(ni, b, *window, policy, max));
    }
    Ok(buf)
}

/// When the worker count divides both image dimensions the grid covers
/// every pixel, and the partitioned render is byte-identical to the
/// single-tile full-image render.
pub proof fn lemma_parallel_equiv(n: int, b: Bounds, w: PlaneWindow, policy: ColorPolicy,
    max: u16)
    requires
        b.wf(),
        n >= 1,
        (b.width as int) % n == 0,
        (b.height as int) % n == 0,
    ensures
        config_ok(n, b),
        banded_image(n, b, w, policy, max) == full_image(b, w, policy, max),
{
    lemma_fundamental_div_mod(b.width as int, n);
    lemma_fundamental_div_mod(b.height as int, n);
    assert(n * bw_of(n, b) == b.width);
    assert(n * bh_of(n, b) == b.height);
    assert(bw_of(n, b) >= 1) by (nonlinear_arith)
        requires
            n * bw_of(n, b) == b.width,
            b.width >= 1,
            n >= 1,
    ;
    assert(bh_of(n, b) >= 1) by (nonlinear_arith)
        requires
            n * bh_of(n, b) == b.height,
            b.height >= 1,
            n >= 1,
    ;
    assert forall |i: int| 0 <= i < image_len(b) implies
        banded_image(n, b, w, policy, max)[i] == full_image(b, w, policy, max)[i] by {
        lemma_byte_decompose(i, b);
    }
    assert(banded_image(n, b, w, policy, max) =~= full_image(b, w, policy, max));
}

} // verus!
