//! The rendering and input interface of the core: the translation of a
//! surface and its correspondence into plain line segments, and the state
//! machine that turns keyboard events into stepping-mode transitions.
//! How the segments are drawn, and where the events come from, is the
//! embedding application's business.

use vstd::prelude::*;

use crate::geometry::Segment;
use crate::graph::{graphs_to_lines, surface_segments, ThickSurface, INNER, OUTER};
use crate::stitcher::{valid_stitching, Stitching};
use crate::types::EdgeOuterToInner;

verus! {

/// How the simulation advances under the interactive loop.
#[derive(Debug, PartialEq, Eq, Clone, Copy, Structural)]
pub enum StepType {
    ManualChange,
    OneAtATime,
    Automatic,
    NoStep,
    Reset,
}

/// The keyboard events the stepping-mode machine reacts to.
#[derive(Debug, PartialEq, Eq, Clone, Copy, Structural)]
pub enum UiEvent {
    ToggleRun,
    StepOnce,
    ManualStep,
    Reset,
    ToggleDebug,
    Other,
}

/// The interactive loop's mode state.
#[derive(Debug, PartialEq, Eq, Clone, Copy, Structural)]
pub struct UiState {
    pub should_step: bool,
    pub one_at_a_time: bool,
    pub step_type: StepType,
    pub temperature: i128,
    pub should_stitch: bool,
    pub hyper_debug: bool,
}

/// The mode transition one event causes: toggling the run flips between
/// automatic stepping and standstill, the two single-step keys arm one
/// step only while stepping one at a time, reset stops everything and
/// zeroes the temperature, the debug key flips the debug overlay, and any
/// other event keeps the mode except that a stopped machine never steps.
pub open spec fn next_state_spec(event: UiEvent, s: UiState) -> UiState {
    match event {
        UiEvent::ToggleRun => UiState {
            should_step: !s.should_step,
            one_at_a_time: !s.one_at_a_time,
            step_type: match s.step_type {
                StepType::Automatic => StepType::NoStep,
                _ => StepType::Automatic,
            },
            ..s
        },
        UiEvent::StepOnce => UiState {
            step_type: if s.one_at_a_time {
                StepType::OneAtATime
            } else {
                s.step_type
            },
            ..s
        },
        UiEvent::ManualStep => UiState {
            step_type: if s.one_at_a_time {
                StepType::ManualChange
            } else {
                s.step_type
            },
            ..s
        },
        UiEvent::Reset => UiState {
            should_step: false,
            one_at_a_time: true,
            step_type: StepType::Reset,
            temperature: 0,
            ..s
        },
        UiEvent::ToggleDebug => UiState { hyper_debug: !s.hyper_debug, ..s },
        UiEvent::Other => UiState {
            step_type: if !s.should_step {
                StepType::NoStep
            } else {
                s.step_type
            },
            ..s
        },
    }
}

/// Applies one event to the mode state: exactly [`next_state_spec`].
pub fn next_state(event: UiEvent, s: UiState) -> (r: UiState)
    ensures
        r == next_state_spec(event, s),
{
    match event {
        UiEvent::ToggleRun => UiState {
            should_step: !s.should_step,
            one_at_a_time: !s.one_at_a_time,
            step_type: match s.step_type {
                StepType::Automatic => StepType::NoStep,
                _ => StepType::Automatic,
            },
            ..s
        },
        UiEvent::StepOnce => UiState {
            step_type: if s.one_at_a_time {
                StepType::OneAtATime
            } else {
                s.step_type
            },
            ..s
        },
        UiEvent::ManualStep => UiState {
            step_type: if s.one_at_a_time {
                StepType::ManualChange
            } else {
                s.step_type
            },
            ..s
        },
        UiEvent::Reset => UiState {
            should_step: false,
            one_at_a_time: true,
            step_type: StepType::Reset,
            temperature: 0,
            ..s
        },
        UiEvent::ToggleDebug => UiState { hyper_debug: !s.hyper_debug, ..s },
        UiEvent::Other => UiState {
            step_type: if !s.should_step {
                StepType::NoStep
            } else {
                s.step_type
            },
            ..s
        },
    }
}

/// The mode the interactive loop starts in: stopped, stepping one at a
/// time, at the configured temperature, with stitching drawn and the
/// debug overlay off.
pub fn initial_state(initial_temperature: i128) -> (s: UiState)
    ensures
        s == (UiState {
            should_step: false,
            one_at_a_time: true,
            step_type: StepType::NoStep,
            temperature: initial_temperature,
            should_stitch: true,
            hyper_debug: false,
        }),
{
    UiState {
        should_step: false,
        one_at_a_time: true,
        step_type: StepType::NoStep,
        temperature: initial_temperature,
        should_stitch: true,
        hyper_debug: false,
    }
}

/// The correspondence edges of one outer node, in list order.
pub open spec fn edges_of_node(st: Stitching, o: int) -> Seq<EdgeOuterToInner> {
    Seq::new(
        st.list(OUTER as int, o).len(),
        |j: int| EdgeOuterToInner { source: o as usize, target: st.list(OUTER as int, o)[j].0 },
    )
}

/// The correspondence edges of the first `out_n` outer nodes, in
/// identifier order, each node's edges in list order.
pub open spec fn correspondence_edges(st: Stitching, out_n: int) -> Seq<EdgeOuterToInner>
    decreases out_n,
{
    if out_n <= 0 {
        Seq::empty()
    } else {
        correspondence_edges(st, out_n - 1) + edges_of_node(st, out_n - 1)
    }
}

/// Lists every correspondence edge of the stitching: for each outer node,
/// one edge per correspondent, in list order.
pub fn stitching_edges(ts: &ThickSurface, st: &Stitching) -> (edges: Vec<EdgeOuterToInner>)
    requires
        ts.wf(),
        valid_stitching(*st, ts.layers@[OUTER as int].nodes@, ts.layers@[INNER as int].nodes@),
    ensures
        edges@ == correspondence_edges(*st, ts.layers@[OUTER as int].nodes@.len() as int),
        forall|e: int|
            0 <= e < edges@.len() ==> (#[trigger] edges@[e]).source
                < ts.layers@[OUTER as int].nodes@.len() && edges@[e].target
                < ts.layers@[INNER as int].nodes@.len(),
        forall|e: int|
            0 <= e < edges@.len() ==> crate::stitcher::has_entry(
                st.list(OUTER as int, (#[trigger] edges@[e]).source as int),
                edges@[e].target as int,
            ),
{
    let out_n = ts.layers[0].nodes.len();
    let mut edges: Vec<EdgeOuterToInner> = Vec::new();
    let mut o: usize = 0;
    while o < out_n
        invariant
            ts.wf(),
            valid_stitching(*st, ts.layers@[OUTER as int].nodes@, ts.layers@[INNER as int].nodes@),
            out_n == ts.layers@[OUTER as int].nodes@.len(),
            0 <= o <= out_n,
            edges@ == correspondence_edges(*st, o as int),
            forall|e: int|
                0 <= e < edges@.len() ==> (#[trigger] edges@[e]).source
                    < ts.layers@[OUTER as int].nodes@.len() && edges@[e].target
                    < ts.layers@[INNER as int].nodes@.len(),
            forall|e: int|
                0 <= e < edges@.len() ==> crate::stitcher::has_entry(
                    st.list(OUTER as int, (#[trigger] edges@[e]).source as int),
                    edges@[e].target as int,
                ),
        decreases out_n - o,
    {
        let ghost row_base = edges@;
        let ids = st.get(0, o);
        let m = ids.len();
        let mut j: usize = 0;
        while j < m
            invariant
                ts.wf(),
                valid_stitching(
                    *st,
                    ts.layers@[OUTER as int].nodes@,
                    ts.layers@[INNER as int].nodes@,
                ),
                out_n == ts.layers@[OUTER as int].nodes@.len(),
                0 <= o < out_n,
                m == ids@.len(),
                m == st.list(OUTER as int, o as int).len(),
                forall|k: int|
                    0 <= k < m ==> #[trigger] ids@[k] == st.list(OUTER as int, o as int)[k].0,
                0 <= j <= m,
                row_base == correspondence_edges(*st, o as int),
                edges@ == row_base + edges_of_node(*st, o as int).take(j as int),
                forall|e: int|
                    0 <= e < edges@.len() ==> (#[trigger] edges@[e]).source
                        < ts.layers@[OUTER as int].nodes@.len() && edges@[e].target
                        < ts.layers@[INNER as int].nodes@.len(),
                forall|e: int|
                    0 <= e < edges@.len() ==> crate::stitcher::has_entry(
                        st.list(OUTER as int, (#[trigger] edges@[e]).source as int),
                        edges@[e].target as int,
                    ),
            decreases m - j,
        {
            let target = ids[j];
            proof {
                assert(st.list(OUTER as int, o as int)[j as int].0 == target);
            }
            edges.push(EdgeOuterToInner { source: o, target });
            proof {
                assert(edges@ =~= row_base + edges_of_node(*st, o as int).take(j + 1));
            }
            j = j + 1;
        }
        proof {
            assert(edges_of_node(*st, o as int).take(m as int) =~= edges_of_node(*st, o as int));
            assert(edges@ =~= correspondence_edges(*st, o + 1));
        }
        o = o + 1;
    }
    edges
}

/// The segment one correspondence edge draws: from the outer node to its
/// inner correspondent.
pub open spec fn corr_segment(
    outer: Seq<crate::graph::Node>,
    inner: Seq<crate::graph::Node>,
    e: EdgeOuterToInner,
) -> Segment {
    Segment {
        x1: outer[e.source as int].x,
        y1: outer[e.source as int].y,
        x2: inner[e.target as int].x,
        y2: inner[e.target as int].y,
    }
}

/// The segments to draw for a surface and its correspondence: one per
/// contour edge of both layers (outer first, then inner), then one per
/// correspondence edge, from the outer node to each of its inner
/// correspondents.
pub fn lines_from_thick_surface(ts: &ThickSurface, st: &Stitching) -> (lines: Vec<Segment>)
    requires
        ts.wf(),
        valid_stitching(*st, ts.layers@[OUTER as int].nodes@, ts.layers@[INNER as int].nodes@),
    ensures
        lines@.len() == ts.layers@[OUTER as int].nodes@.len()
            + ts.layers@[INNER as int].nodes@.len() + correspondence_edges(
            *st,
            ts.layers@[OUTER as int].nodes@.len() as int,
        ).len(),
        forall|i: int|
            0 <= i < ts.layers@[OUTER as int].nodes@.len()
                + ts.layers@[INNER as int].nodes@.len() ==> #[trigger] lines@[i]
                == surface_segments(
                ts.layers@[OUTER as int].nodes@,
                ts.layers@[INNER as int].nodes@,
            )[i],
        forall|k: int|
            0 <= k < correspondence_edges(
                *st,
                ts.layers@[OUTER as int].nodes@.len() as int,
            ).len() ==> #[trigger] lines@[ts.layers@[OUTER as int].nodes@.len()
                + ts.layers@[INNER as int].nodes@.len() + k] == corr_segment(
                ts.layers@[OUTER as int].nodes@,
                ts.layers@[INNER as int].nodes@,
                correspondence_edges(*st, ts.layers@[OUTER as int].nodes@.len() as int)[k],
            ),
{
    let mut lines = graphs_to_lines(&ts.layers);
    let ghost contour_count = lines@.len();
    let edges = stitching_edges(ts, st);
    let n = edges.len();
    let mut e: usize = 0;
    while e < n
        invariant
            ts.wf(),
            n == edges@.len(),
            0 <= e <= n,
            lines@.len() == contour_count + e,
            contour_count == ts.layers@[OUTER as int].nodes@.len()
                + ts.layers@[INNER as int].nodes@.len(),
            forall|i: int|
                0 <= i < contour_count ==> #[trigger] lines@[i] == surface_segments(
                    ts.layers@[OUTER as int].nodes@,
                    ts.layers@[INNER as int].nodes@,
                )[i],
            forall|k: int|
                0 <= k < edges@.len() ==> (#[trigger] edges@[k]).source
                    < ts.layers@[OUTER as int].nodes@.len() && edges@[k].target
                    < ts.layers@[INNER as int].nodes@.len(),
            edges@ == correspondence_edges(*st, ts.layers@[OUTER as int].nodes@.len() as int),
            forall|k: int|
                0 <= k < e ==> #[trigger] lines@[contour_count + k] == corr_segment(
                    ts.layers@[OUTER as int].nodes@,
                    ts.layers@[INNER as int].nodes@,
                    edges@[k],
                ),
        decreases n - e,
    {
        let edge = edges[e];
        let outer_node = ts.layers[0].nodes[edge.source];
        let inner_node = ts.layers[1].nodes[edge.target];
        lines.push(
            Segment { x1: outer_node.x, y1: outer_node.y, x2: inner_node.x, y2: inner_node.y },
        );
        e = e + 1;
    }
    lines
}

} // verus!
