//! A gravitational N-body simulator built around a k-d partition tree.
//!
//! Bodies carry position, velocity, mass and radius. Each step builds a
//! spatial tree over the bodies, evaluates every body's gravitational
//! acceleration with the Barnes-Hut opening criterion, and produces the
//! body set for the next step.
//!
//! All physical quantities are exact fixed-point numbers: a value is an
//! `i64` count of millionths (`SCALE` raw units are 1.0). Every operation
//! in the pipeline is integer arithmetic with a pinned rounding rule, so
//! the whole computation is deterministic and fully specified.

use vstd::prelude::*;

pub mod dimension;
pub mod entity;
pub mod utilities;
pub mod node;
pub mod gravtree;
pub mod codec;
pub mod laws;

verus! {

/// Number of raw fixed-point units in 1.0.
pub const SCALE: i64 = 1_000_000;

/// Largest magnitude a position or velocity component may take, in raw units.
pub const MAX_COORD: i64 = 500_000_000_000;

/// Largest mass, in raw units. Masses are strictly positive.
pub const MAX_MASS: i64 = 1_000_000_000_000;

/// Largest radius, in raw units. Radii are non-negative.
pub const MAX_RADIUS: i64 = 1_000_000_000_000;

/// Largest opening-angle threshold, in raw units (2.0). Strictly positive.
pub const MAX_THETA: i64 = 2_000_000;

/// Largest time step, in raw units (10.0). Strictly positive.
pub const MAX_TIME_STEP: i64 = 10_000_000;

/// Largest number of bodies a tree may hold.
pub const MAX_BODIES: usize = 1_000_000;

/// Largest mass a whole tree may carry: `MAX_BODIES` times `MAX_MASS`.
pub const MAX_TOTAL_MASS: i64 = 1_000_000_000_000_000_000;

/// Bound at which accumulated accelerations saturate, in raw units.
pub const ACCEL_CLAMP: i128 = 1_000_000_000_000_000_000_000_000_000_000;

/// The per-simulation parameters: opening-angle threshold, leaf capacity
/// and time step. The tree carries one copy; bodies carry none.
pub struct SimParams {
    pub theta: i64,
    pub max_pts: usize,
    pub time_step: i64,
}

impl SimParams {
    /// The parameter ranges the simulation accepts.
    pub open spec fn wf(self) -> bool {
        &&& 0 < self.theta <= MAX_THETA
        &&& 0 < self.max_pts
        &&& 0 < self.time_step <= MAX_TIME_STEP
    }
}

} // verus!
