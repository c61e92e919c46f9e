//! A verified Mandelbrot renderer.
//!
//! The complex plane is modelled in fixed-point arithmetic: a coordinate is
//! an `i64` holding the real value scaled by `SCALE` (2^24). Every stage of
//! the pipeline — mapping a pixel to its point in the plane, the escape-time
//! recurrence, colour mapping, tile rendering, and the partitioning of the
//! image into disjoint bands — carries an exact contract and is verified.
//! Writing the finished pixel buffer to an image file, and dispatching bands
//! to worker threads, are left to the surrounding application.

pub mod fixed;
pub mod geom;
pub mod escape;
pub mod color;
pub mod render;
