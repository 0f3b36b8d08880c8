//! Rasterises parametric shapes (lines, circles, chord figures) by sampling
//! points along each outline, fitting them into a pixel grid with the aspect
//! ratio kept, and compositing a draw colour over the hit pixels.
//!
//! All quantities are integers. World coordinates and interpolation parameters
//! are fixed-point numbers with [`arith::UNIT`] parts to one, alpha is a
//! fixed-point fraction with [`color::OPAQUE`] parts to one.

pub mod arith;
pub mod color;
pub mod random;
pub mod shape;
pub mod math;
pub mod primitives;
pub mod cardioid;
pub mod canvas;
pub mod ppm;
