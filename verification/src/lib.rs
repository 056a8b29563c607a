//! A recursive ray-tracing kernel in exact fixed-point arithmetic.
//!
//! Real numbers are held as `i64` counts of `1 / ONE`; every product is formed
//! exactly in `i128` before it is rounded down to the grid, so each function's
//! contract gives its result as a formula over the integers.

pub mod hittable;
pub mod ray;
pub mod utilities;
