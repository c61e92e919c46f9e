use mandelbrot::geom::{Bounds, CPoint, PlaneWindow};
use mandelbrot::escape::iterate;
use mandelbrot::color::{color, ColorPolicy};
use mandelbrot::fixed::{div_scale, SCALE};
use mandelbrot::render::{partition, render_full, render_parallel, render_tile, Band, ConfigError};

fn small_setup() -> (Bounds, PlaneWindow) {
    let bounds = Bounds::new(4, 4).unwrap();
    let top_left = CPoint::from_units(-2, 2);
    let bottom_right = CPoint::from_units(1, -2);
    let window = PlaneWindow::new(top_left, bottom_right).unwrap();
    (bounds, window)
}

fn pixel<'a>(buf: &'a [u8], x: usize, y: usize, width: usize) -> &'a [u8] {
    let base = 3 * (y * width + x);
    &buf[base..base + 3]
}

#[test]
fn div_scale_truncates_toward_zero() {
    assert_eq!(div_scale(0), 0);
    assert_eq!(div_scale(SCALE), 1);
    assert_eq!(div_scale(SCALE + 1), 1);
    assert_eq!(div_scale(-1), 0);
    assert_eq!(div_scale(-(SCALE + 1)), -1);
    assert_eq!(div_scale(-SCALE), -1);
}

#[test]
fn map_pixel_is_deterministic_and_monotone() {
    let (bounds, window) = small_setup();
    let mut prev_re = i64::MIN;
    for x in 0..4 {
        let p = mandelbrot::geom::map_pixel(x, 0, &bounds, &window);
        let q = mandelbrot::geom::map_pixel(x, 0, &bounds, &window);
        assert_eq!(p, q);
        assert!(p.re > prev_re);
        prev_re = p.re;
    }
    let mut prev_im = i64::MIN;
    for y in 0..4 {
        let p = mandelbrot::geom::map_pixel(0, y, &bounds, &window);
        assert!(p.im > prev_im);
        prev_im = p.im;
    }
}

#[test]
fn map_pixel_exact_values() {
    let (bounds, window) = small_setup();
    // x_step = 3.0 / 4 = 0.75; y_step = 4.0 / 4 = 1.0, both exact in fixed point
    let p00 = mandelbrot::geom::map_pixel(0, 0, &bounds, &window);
    assert_eq!(p00.re, -2 * SCALE);
    assert_eq!(p00.im, -2 * SCALE);
    let p22 = mandelbrot::geom::map_pixel(2, 2, &bounds, &window);
    assert_eq!(p22.re, -SCALE / 2);
    assert_eq!(p22.im, 0);
}

#[test]
fn iterate_origin_runs_to_budget() {
    let origin = CPoint::new(0, 0);
    assert_eq!(iterate(origin, 255), 255);
    assert_eq!(iterate(origin, 7), 7);
    assert_eq!(iterate(origin, 0), 0);
}

#[test]
fn iterate_far_point_escapes_at_once() {
    // |c| >= 2 escapes on the first step
    assert_eq!(iterate(CPoint::from_units(-2, 2), 255), 0);
    assert_eq!(iterate(CPoint::from_units(2, 0), 255), 0);
    assert_eq!(iterate(CPoint::from_units(0, -2), 255), 0);
    assert_eq!(iterate(CPoint::from_units(100, 100), 255), 0);
}

#[test]
fn iterate_interior_point_reaches_max() {
    // c = -1 cycles between -1 and 0, never escaping
    assert_eq!(iterate(CPoint::from_units(-1, 0), 255), 255);
    // c = -0.5 converges toward a fixed point inside the set
    assert_eq!(iterate(CPoint::new(-SCALE / 2, 0), 255), 255);
}

#[test]
fn iterate_stays_within_budget() {
    for units in [-3, -1, 0, 1, 3] {
        let c = CPoint::from_units(units, -units);
        let n = iterate(c, 40);
        assert!(n <= 40);
    }
    // c = 0.5: escapes after a few steps, strictly between the extremes
    let n = iterate(CPoint::new(SCALE / 2, 0), 255);
    assert!(n > 0 && n < 255);
}

#[test]
fn color_same_inputs_same_output() {
    let p = CPoint::new(SCALE / 2, -SCALE / 4);
    for policy in [ColorPolicy::Palette, ColorPolicy::Gradient] {
        for count in [0u16, 1, 15, 255] {
            assert_eq!(color(policy, count, p), color(policy, count, p));
        }
    }
}

#[test]
fn palette_count_zero_is_black() {
    let p = CPoint::new(123456, -654321);
    assert_eq!(color(ColorPolicy::Palette, 0, p), (0, 0, 0));
}

#[test]
fn palette_wraps_mod_16() {
    let p = CPoint::new(0, 0);
    assert_eq!(color(ColorPolicy::Palette, 1, p), (25, 7, 26));
    // count 16 is nonzero, so it takes palette entry 16 % 16 = 0
    assert_eq!(color(ColorPolicy::Palette, 16, p), (66, 30, 15));
    assert_eq!(color(ColorPolicy::Palette, 17, p), (25, 7, 26));
    // the last palette entry is black, so a full budget maps to black
    assert_eq!(color(ColorPolicy::Palette, 255, p), (0, 0, 0));
}

#[test]
fn palette_ignores_the_point() {
    let p1 = CPoint::new(0, 0);
    let p2 = CPoint::from_units(7, -3);
    for count in [0u16, 1, 9, 200] {
        assert_eq!(
            color(ColorPolicy::Palette, count, p1),
            color(ColorPolicy::Palette, count, p2)
        );
    }
}

#[test]
fn gradient_exact_values_and_saturation() {
    // c = 0.5 + 0i: |c|^2 = 0.25
    let p = CPoint::new(SCALE / 2, 0);
    // R = 255 * 0.25 * 2 = 127.5 -> 127; G = 255 * 2 saturates; B = 20 * 0.25 * 2 = 10
    assert_eq!(color(ColorPolicy::Gradient, 2, p), (127, 255, 10));
    assert_eq!(color(ColorPolicy::Gradient, 0, p), (0, 0, 0));
    // a far point saturates every channel that has a nonzero factor
    let far = CPoint::from_units(100, 0);
    assert_eq!(color(ColorPolicy::Gradient, 3, far), (255, 255, 255));
}

#[test]
fn partition_grid_layout() {
    let (bounds, _) = small_setup();
    let bands = partition(2, &bounds).unwrap();
    assert_eq!(bands.len(), 4);
    assert_eq!(bands[0], Band { x0: 0, y0: 0, width: 2, height: 2 });
    assert_eq!(bands[1], Band { x0: 2, y0: 0, width: 2, height: 2 });
    assert_eq!(bands[2], Band { x0: 0, y0: 2, width: 2, height: 2 });
    assert_eq!(bands[3], Band { x0: 2, y0: 2, width: 2, height: 2 });
}

#[test]
fn partition_rejects_bad_worker_counts() {
    let (bounds, window) = small_setup();
    assert_eq!(partition(0, &bounds), Err(ConfigError::NoWorkers));
    assert_eq!(partition(5, &bounds), Err(ConfigError::TileWidthZero));
    let wide = Bounds::new(8, 4).unwrap();
    assert_eq!(partition(5, &wide), Err(ConfigError::TileHeightZero));
    // the renderer rejects the same configurations without rendering
    assert_eq!(
        render_parallel(0, &bounds, &window, ColorPolicy::Palette, 255),
        Err(ConfigError::NoWorkers)
    );
    assert_eq!(
        render_parallel(5, &bounds, &window, ColorPolicy::Palette, 255),
        Err(ConfigError::TileWidthZero)
    );
    assert_eq!(
        render_parallel(5, &wide, &window, ColorPolicy::Palette, 255),
        Err(ConfigError::TileHeightZero)
    );
}

#[test]
fn parallel_matches_full_when_divisible() {
    let (bounds, window) = small_setup();
    let full = render_full(&bounds, &window, ColorPolicy::Palette, 255);
    for workers in [1, 2, 4] {
        let par = render_parallel(workers, &bounds, &window, ColorPolicy::Palette, 255).unwrap();
        assert_eq!(par, full);
    }
    let grad_full = render_full(&bounds, &window, ColorPolicy::Gradient, 255);
    let grad_par = render_parallel(2, &bounds, &window, ColorPolicy::Gradient, 255).unwrap();
    assert_eq!(grad_par, grad_full);
}

#[test]
fn uncovered_edge_pixels_stay_zero() {
    let bounds = Bounds::new(5, 5).unwrap();
    let top_left = CPoint::from_units(-2, 2);
    let bottom_right = CPoint::from_units(1, -2);
    let window = PlaneWindow::new(top_left, bottom_right).unwrap();
    // 2 workers on a 5x5 image: tiles are 2x2, pixels with x == 4 or y == 4
    // belong to no tile and keep their zero bytes
    let par = render_parallel(2, &bounds, &window, ColorPolicy::Palette, 255).unwrap();
    assert_eq!(par.len(), 75);
    for x in 0..5 {
        assert_eq!(pixel(&par, x, 4, 5), &[0, 0, 0]);
    }
    for y in 0..5 {
        assert_eq!(pixel(&par, 4, y, 5), &[0, 0, 0]);
    }
    // covered pixels agree with the full render
    let full = render_full(&bounds, &window, ColorPolicy::Palette, 255);
    for y in 0..4 {
        for x in 0..4 {
            assert_eq!(pixel(&par, x, y, 5), pixel(&full, x, y, 5));
        }
    }
}

#[test]
fn render_tile_matches_full_render() {
    let (bounds, window) = small_setup();
    let full = render_full(&bounds, &window, ColorPolicy::Palette, 255);
    let tile = render_tile(2, 1, 2, 2, &bounds, &window, ColorPolicy::Palette, 255);
    assert_eq!(tile.len(), 12);
    for r in 0..2 {
        for c in 0..2 {
            let base = 3 * (r * 2 + c);
            assert_eq!(&tile[base..base + 3], pixel(&full, 2 + c, 1 + r, 4));
        }
    }
}

#[test]
fn end_to_end_corner_pixel_is_black() {
    // 4x4 image of the window (-2, 2) .. (1, -2), one worker: 48 bytes,
    // and pixel (0, 0) maps to a point with |c| >= 2, so it escapes at
    // once and the palette paints it black
    let (bounds, window) = small_setup();
    let buf = render_parallel(1, &bounds, &window, ColorPolicy::Palette, 255).unwrap();
    assert_eq!(buf.len(), 48);
    let p00 = mandelbrot::geom::map_pixel(0, 0, &bounds, &window);
    assert_eq!(iterate(p00, 255), 0);
    assert_eq!(pixel(&buf, 0, 0, 4), &[0, 0, 0]);
}

#[test]
fn end_to_end_interior_pixel_reaches_max() {
    // pixel (2, 2) maps to -0.5 + 0i, inside the set: the full budget is
    // spent, and the last palette entry paints it black
    let (bounds, window) = small_setup();
    let p22 = mandelbrot::geom::map_pixel(2, 2, &bounds, &window);
    assert_eq!(iterate(p22, 255), 255);
    let buf = render_parallel(1, &bounds, &window, ColorPolicy::Palette, 255).unwrap();
    assert_eq!(pixel(&buf, 2, 2, 4), &[0, 0, 0]);
}

#[test]
fn bounds_validation() {
    assert!(Bounds::new(0, 5).is_none());
    assert!(Bounds::new(5, 0).is_none());
    assert!(Bounds::new(16385, 5).is_none());
    assert!(Bounds::new(5, 16385).is_none());
    let b = Bounds::new(1000, 1000).unwrap();
    assert_eq!(b.width, 1000);
    assert_eq!(b.height, 1000);
}

#[test]
fn window_validation() {
    let tl = CPoint::from_units(-2, 2);
    let br = CPoint::from_units(1, -2);
    assert!(PlaneWindow::new(tl, br).is_some());
    // inverted or degenerate windows are rejected
    assert!(PlaneWindow::new(br, tl).is_none());
    assert!(PlaneWindow::new(tl, tl).is_none());
}
