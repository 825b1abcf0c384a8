//! Escape-time and orbit-accumulation fractal fields over a window of the
//! complex plane: the per-pixel state machine, the orbit calculator, the
//! chunked calculation of a field, the migration of a field after zoom or
//! pan, and the rank-based ("perfect") colour distribution.
//!
//! The complex plane is held in fixed point: a coordinate is an `i64` that
//! counts units of `1 / mem::SCALE`.
use vstd::prelude::*;

pub mod pixel_states;
pub mod mem;
pub mod area;
pub mod data_image;
pub mod fractal;
pub mod fractals;
pub mod resolution_multiplier;
pub mod machine;
pub mod migration;
pub mod perfect_color_distribution;

verus! {

} // verus!
