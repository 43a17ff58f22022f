//! Simulation of a folded biological surface: two nested closed contours
//! (an outer and an inner boundary of a gray-matter shell) perturbed under
//! simulated annealing, subject to a no-self-intersection constraint and a
//! target annulus area.
//!
//! All geometry is carried in fixed-point coordinates: a world unit is
//! `SCALE` ticks of an `i64`. This keeps areas, distances and crossing
//! tests exact, so the contracts below are exact statements about the
//! values the library computes.

use vstd::prelude::*;

pub mod geometry;
pub mod graph;
pub mod effects;
pub mod rng;
pub mod stitcher;
pub mod types;
pub mod simulated_annealing;
pub mod recorders;
pub mod renderer;
pub mod playground;

verus! {

/// Number of coordinate ticks in one world unit.
pub const SCALE: i64 = 65536;

/// Largest magnitude a coordinate may take, in ticks.
pub const COORD_LIMIT: i64 = 0x40_0000;

/// Largest number of nodes a contour may hold.
pub const MAX_NODES: usize = 16384;

} // verus!
