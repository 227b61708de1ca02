//! A particle-life simulation engine in fixed-point arithmetic.
//!
//! Particles live on the unit torus. Each coordinate is a `u32` read as a
//! fraction of one turn, so wrapping around an edge is exact. Velocities and
//! forces are `i64` in the same units per time unit, and force coefficients are
//! `i32` thousandths.

pub mod bodies;
pub mod forces;
pub mod geometry;
pub mod islands;
pub mod physics;
pub mod positioners;
mod random;
pub mod text;
