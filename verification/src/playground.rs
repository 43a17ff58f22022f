//! A small hand-built surface for interactive experiments: two slanted
//! open-looking polylines closed into cycles, one slightly inside the
//! other.

use vstd::prelude::*;

use crate::simulated_annealing::SimState;
use crate::graph::{cyclic_graph_from_coords, ThickSurface, INNER, OUTER};
use crate::stitcher::stitch_default;

verus! {

/// A surface whose two layers run diagonally across the world, the inner
/// one a tenth of a unit below the outer. Coordinates are in ticks; one
/// world unit is `SCALE` ticks.
pub fn diagonal_ts() -> (ts: ThickSurface)
    ensures
        ts.wf(),
        ts.layers@[OUTER as int].nodes@.len() == 6,
        ts.layers@[INNER as int].nodes@.len() == 6,
{
    let mut coords_outer: Vec<(i64, i64)> = Vec::new();
    coords_outer.push((-65536, -65536));
    coords_outer.push((-52429, 55706));
    coords_outer.push((-26214, 29491));
    coords_outer.push((0, 3277));
    coords_outer.push((26214, -22938));
    coords_outer.push((52429, -49152));

    let mut coords_inner: Vec<(i64, i64)> = Vec::new();
    coords_inner.push((-65536, -65536));
    coords_inner.push((-52429, 49152));
    coords_inner.push((-26214, 22938));
    coords_inner.push((0, -3277));
    coords_inner.push((26214, -29491));
    coords_inner.push((52429, -55706));

    let outer_graph = cyclic_graph_from_coords(&coords_outer);
    let inner_graph = cyclic_graph_from_coords(&coords_inner);

    ThickSurface::new(outer_graph, inner_graph)
}

/// The entry point of the interactive playground: the diagonal demo
/// surface, freshly stitched, at temperature zero, ready for an embedding
/// window to step and draw.
pub fn playin_main() -> (s: SimState)
    ensures
        s.wf(),
        s.timestep == 0,
{
    let ts = diagonal_ts();
    let stitching = stitch_default(&ts);
    SimState {
        ts,
        temperature: 0,
        stitching,
        timestep: 0,
        next_topology_action: crate::simulated_annealing::TopologyAction::Addition,
    }
}

} // verus!
