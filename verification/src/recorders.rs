//! The metric registry: a closed set of named pure functions over the
//! surface state, evaluated once per timestep and written as one CSV row
//! by the caller.

use vstd::prelude::*;

use crate::graph::{area2_spec, ThickSurface, INNER, OUTER};
use crate::simulated_annealing::energy_spec;
use crate::types::Params;

verus! {

/// The closed set of metrics a run may record. Unknown names are
/// rejected when the configuration is loaded, not at first use.
#[derive(Debug, Clone, Copy, PartialEq, Eq, Structural)]
pub enum Recorder {
    Energy,
    OuterPerimeter,
    InnerPerimeter,
    OuterArea,
    InnerArea,
    GrayMatterArea,
    NumInnerPoints,
    NumOuterPoints,
}

/// The value a recorder reports for the given state. Areas are doubled
/// and in ticks squared, perimeters in ticks, the energy in energy units,
/// counts plain.
pub open spec fn recorder_value_spec(r: Recorder, outer: Seq<crate::graph::Node>, inner: Seq<crate::graph::Node>, p: Params) -> int {
    match r {
        Recorder::Energy => energy_spec(outer, inner, p.initial_gray_matter_area as int),
        Recorder::OuterPerimeter => crate::graph::perimeter_sum(outer, outer.len() as int),
        Recorder::InnerPerimeter => crate::graph::perimeter_sum(inner, inner.len() as int),
        Recorder::OuterArea => area2_spec(outer),
        Recorder::InnerArea => area2_spec(inner),
        Recorder::GrayMatterArea => area2_spec(outer) - area2_spec(inner),
        Recorder::NumInnerPoints => inner.len() as int,
        Recorder::NumOuterPoints => outer.len() as int,
    }
}

/// Evaluates one recorder on the surface.
pub fn recorder_value(r: Recorder, ts: &ThickSurface, p: &Params) -> (v: i128)
    requires
        ts.wf(),
        p.valid(),
    ensures
        v == recorder_value_spec(r, ts.layers@[OUTER as int].nodes@, ts.layers@[INNER as int].nodes@, *p),
{
    match r {
        Recorder::Energy => crate::simulated_annealing::energy(ts, p.initial_gray_matter_area),
        Recorder::OuterPerimeter => crate::graph::perimeter(&ts.layers[0]) as i128,
        Recorder::InnerPerimeter => crate::graph::perimeter(&ts.layers[1]) as i128,
        Recorder::OuterArea => crate::graph::area(&ts.layers[0]),
        Recorder::InnerArea => crate::graph::area(&ts.layers[1]),
        Recorder::GrayMatterArea => crate::graph::gray_matter_area(ts),
        Recorder::NumInnerPoints => ts.layers[1].nodes.len() as i128,
        Recorder::NumOuterPoints => ts.layers[0].nodes.len() as i128,
    }
}

/// Evaluates the configured recorders in order: one value per configured
/// recorder, each exactly [`recorder_value_spec`].
pub fn record_row(ts: &ThickSurface, p: &Params) -> (row: Vec<i128>)
    requires
        ts.wf(),
        p.valid(),
    ensures
        row@.len() == p.recorders@.len(),
        forall|i: int|
            0 <= i < row@.len() ==> #[trigger] row@[i] == recorder_value_spec(
                p.recorders@[i],
                ts.layers@[OUTER as int].nodes@,
                ts.layers@[INNER as int].nodes@,
                *p,
            ),
{
    let mut row: Vec<i128> = Vec::new();
    let n = p.recorders.len();
    let mut i: usize = 0;
    while i < n
        invariant
            ts.wf(),
            p.valid(),
            n == p.recorders@.len(),
            0 <= i <= n,
            row@.len() == i,
            forall|k: int|
                0 <= k < i ==> #[trigger] row@[k] == recorder_value_spec(
                    p.recorders@[k],
                    ts.layers@[OUTER as int].nodes@,
                    ts.layers@[INNER as int].nodes@,
                    *p,
                ),
        decreases n - i,
    {
        let v = recorder_value(p.recorders[i], ts, p);
        row.push(v);
        i = i + 1;
    }
    row
}

} // verus!
