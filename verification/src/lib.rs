//! A CPU-side ray-tracing core: camera ray generation, sphere intersection,
//! light evaluation with shadowing, and per-pixel shading, producing a
//! row-major RGBA pixel buffer.
//!
//! All coordinates, angles and intensities are fixed-point reals: an `i64`
//! holds the real value scaled by `fixed::FX_ONE` (2^16). Every operation of
//! the pipeline carries a contract stating exactly which scaled-integer value
//! it computes.

pub mod fixed;
pub mod geom;
pub mod color;
pub mod utils;
pub mod light;
pub mod objects;
pub mod scene;
