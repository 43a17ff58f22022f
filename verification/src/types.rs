//! Shared plain types: node identifiers, the simulation parameters, and
//! the correspondence edge record the rendering interface uses.

use vstd::prelude::*;

use crate::recorders::Recorder;
use crate::{COORD_LIMIT, MAX_NODES};

verus! {

/// A node identifier: the node's index in its contour's arena.
pub type NodeIndex = usize;

/// An edge identifier: the identifier of the node the edge leaves.
pub type EdgeIndex = usize;

/// One correspondence edge, from an outer node to an inner node, as the
/// rendering interface reports it.
#[derive(Debug, PartialEq, Eq, Hash, Clone, Copy, Structural)]
pub struct EdgeOuterToInner {
    pub target: NodeIndex,
    pub source: NodeIndex,
}

/// The configuration record of a simulation run. Lengths are in
/// fixed-point ticks, temperatures in energy units.
pub struct Params {
    pub initial_thickness: i64,
    pub initial_radius: i64,
    pub initial_num_points: usize,
    pub initial_temperature: i128,
    pub initial_gray_matter_area: i128,
    pub compression_factor: i64,
    pub softness_factor: i64,
    pub how_smooth: usize,
    pub node_addition_threshold: i64,
    pub node_deletion_threshold: i64,
    pub low_high: (i64, i64),
    pub temperature_param: i128,
    pub recorders: Vec<Recorder>,
}

impl Params {
    /// The ranges under which every step of the simulation is defined.
    pub open spec fn valid(self) -> bool {
        &&& -COORD_LIMIT <= self.low_high.0 < self.low_high.1 <= COORD_LIMIT
        &&& 1 <= self.how_smooth <= 0x7fff_ffff
        &&& 0 <= self.compression_factor <= 0x1000_0000
        &&& -0x1000_0000_0000_0000 <= self.initial_gray_matter_area <= 0x1000_0000_0000_0000
        &&& 0 < self.initial_num_points <= MAX_NODES
        &&& -0x1_0000_0000_0000_0000_0000 <= self.temperature_param <= 0x1_0000_0000_0000_0000_0000
    }
}

} // verus!
