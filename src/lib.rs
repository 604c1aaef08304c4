//! An explorable Mandelbrot field: an escape-time iteration per grid cell,
//! advanced in lock-step on a fixed cadence and rendered as RGBA pixels.
//!
//! Plane coordinates are fixed-point integers with 32 fractional bits: a value `v`
//! stands for `v / ONE` (see `point::ONE`).
pub mod complex;
pub mod field;
pub mod point;
