//! The annealing engine: the energy of a dual-contour state, the
//! temperature schedule, the Metropolis-style acceptance rule, the
//! self-intersection veto, and the per-step state machine.

use vstd::prelude::*;

use crate::effects::{
    add_node_, applied_nodes, apply_changes, change_applicable, changer_of_choice, changes_applied,
    delete_node_, induced_map, random_change, revert_changes, smooth_change_out, smoothed_after,
    NodeChangeMap, Smooth,
};
use crate::graph::{
    area, area2_spec, bisected_at, graphs_to_lines, node_to_add, node_to_delete, surface_segments,
    ThickSurface, INNER, OUTER,
};
use crate::geometry::{lines_intersection, some_pair_crosses};
use crate::rng::random_u64;
use crate::stitcher::{stitch_default, valid_stitching, Stitching};
use crate::types::Params;

verus! {

/// Twice the square of `SCALE`: one world-unit of area, expressed in the
/// doubled, ticks-squared measure that [`area`] returns.
pub const AREA_UNIT: i128 = 0x2_0000_0000;

/// A temperature at or above this value accepts every non-intersecting
/// step: one hundred million world-units, in energy units.
pub const PRACTICALLY_INFINITY: i128 = 100_000_000 * 0x2_0000_0000 * 0x2_0000_0000;

/// One in fixed point with 32 fractional bits: the scale of acceptance
/// thresholds and of the random draw they are compared against.
pub const Q32_ONE: u64 = 0x1_0000_0000;

/// The magnitude of an integer.
pub open spec fn abs_i(a: int) -> int {
    if a >= 0 {
        a
    } else {
        -a
    }
}

/// The energy of a dual-contour state:
/// `white_matter + (1 + |gray_matter - initial_gray_matter|)^2`, where the
/// white matter is the (doubled, ticks-squared) inner area and the gray
/// matter the magnitude of the area between the contours, everything
/// expressed in multiples of [`AREA_UNIT`] so the formula stays integer.
/// Shrinking the inner contour is rewarded; deviating from the initial
/// annulus area is penalized quadratically.
pub open spec fn energy_spec(outer: Seq<crate::graph::Node>, inner: Seq<crate::graph::Node>, initial_gray_matter_area: int) -> int {
    let white_matter = area2_spec(inner);
    let gray_matter = abs_i(area2_spec(outer) - area2_spec(inner));
    let gray_matter_stretch = abs_i(gray_matter - initial_gray_matter_area);
    white_matter * AREA_UNIT + (AREA_UNIT + gray_matter_stretch) * (AREA_UNIT
        + gray_matter_stretch)
}

/// Computes [`energy_spec`] for the surface.
pub fn energy(ts: &ThickSurface, initial_gray_matter_area: i128) -> (e: i128)
    requires
        ts.wf(),
        -0x1000_0000_0000_0000 <= initial_gray_matter_area <= 0x1000_0000_0000_0000,
    ensures
        e == energy_spec(
            ts.layers@[OUTER as int].nodes@,
            ts.layers@[INNER as int].nodes@,
            initial_gray_matter_area as int,
        ),
        -0x2000_0000_0000_0000_0000_0000_0000_0000i128 <= e
            <= 0x2000_0000_0000_0000_0000_0000_0000_0000i128,
{
    let white_matter: i128 = area(&ts.layers[1]);
    let outer_area: i128 = area(&ts.layers[0]);
    let gray_signed: i128 = outer_area - white_matter;
    let gray_matter: i128 = if gray_signed >= 0 {
        gray_signed
    } else {
        -gray_signed
    };
    let stretch_signed: i128 = gray_matter - initial_gray_matter_area;
    let gray_matter_stretch: i128 = if stretch_signed >= 0 {
        stretch_signed
    } else {
        -stretch_signed
    };
    proof {
        assert(0 <= (AREA_UNIT + gray_matter_stretch) * (AREA_UNIT + gray_matter_stretch)
            <= 0x1000_0000_0000_0000_0000_0000_0000_0000i128
            && -0x1000_0000_0000_0000_0000_0000_0000_0000i128 <= white_matter * AREA_UNIT
            <= 0x1000_0000_0000_0000_0000_0000_0000_0000i128) by (nonlinear_arith)
            requires
                0 <= gray_matter_stretch <= 0x3000_0000_0000_0000i128,
                -0x1000_0000_0000_0000i128 <= white_matter <= 0x1000_0000_0000_0000i128,
                AREA_UNIT == 0x2_0000_0000i128,
        ;
    }
    white_matter * AREA_UNIT + (AREA_UNIT + gray_matter_stretch) * (AREA_UNIT
        + gray_matter_stretch)
}

/// The linear temperature schedule: `timestep * slope`, floored at zero.
pub open spec fn temperature_spec(timestep: int, slope: int) -> int {
    if timestep * slope < 0 {
        0
    } else {
        timestep * slope
    }
}

/// Number of squarings in the acceptance threshold's fixed-point
/// exponential.
pub const EXP_SQUARINGS: u32 = 16;

/// `k` repeated fixed-point squarings of `r` in Q32: each step maps `r`
/// to `r * r / 2^32`.
pub open spec fn sq_steps(r: int, k: nat) -> int
    decreases k,
{
    if k == 0 {
        r
    } else {
        let p = sq_steps(r, (k - 1) as nat);
        (p * p) / 0x1_0000_0000
    }
}

/// The acceptance threshold in Q32 for an energy increase `d > 0` at
/// temperature `t > 0`: a fixed-point approximation of
/// `exp(-d / t) * 2^32`, computed as `(1 - z / 2^16)^(2^16)` with
/// `z = d * 2^32 / t`, and zero outright once `d` is at least `64 t`.
pub open spec fn threshold_q32_spec(d: int, t: int) -> int {
    if d / t >= 64 {
        0
    } else {
        let z = (d * 0x1_0000_0000) / t;
        sq_steps(0x1_0000_0000 - z / 0x1_0000, 16)
    }
}

/// Repeated squaring stays within Q32 one.
proof fn lemma_sq_steps_bounded(r: int, k: nat)
    requires
        0 <= r <= 0x1_0000_0000,
    ensures
        0 <= sq_steps(r, k) <= 0x1_0000_0000,
    decreases k,
{
    if k > 0 {
        lemma_sq_steps_bounded(r, (k - 1) as nat);
        let p = sq_steps(r, (k - 1) as nat);
        vstd::arithmetic::div_mod::lemma_fundamental_div_mod(p * p, 0x1_0000_0000);
        assert(0 <= (p * p) / 0x1_0000_0000 <= 0x1_0000_0000) by (nonlinear_arith)
            requires
                0 <= p <= 0x1_0000_0000,
                p * p == 0x1_0000_0000 * ((p * p) / 0x1_0000_0000) + (p * p) % 0x1_0000_0000,
                0 <= (p * p) % 0x1_0000_0000 < 0x1_0000_0000,
        ;
    }
}

/// Computes [`threshold_q32_spec`] exactly.
pub fn threshold_q32(d: i128, t: i128) -> (r: u64)
    requires
        0 < d,
        0 < t < PRACTICALLY_INFINITY,
        d <= 0x4000_0000_0000_0000_0000_0000_0000_0000i128,
    ensures
        r as int == threshold_q32_spec(d as int, t as int),
        r <= Q32_ONE,
{
    let q: u128 = (d as u128) / (t as u128);
    if q >= 64 {
        proof {
            lemma_sq_steps_bounded(0, 16);
        }
        0
    } else {
        let rem: u128 = (d as u128) % (t as u128);
        proof {
            assert(rem * 0x1_0000_0000 < 0x2000_0000_0000_0000_0000_0000_0000_0000u128)
                by (nonlinear_arith)
                requires
                    0 <= rem < 0x2000_0000_0000_0000_0000_0000u128,
            ;
        }
        let frac: u128 = (rem * 0x1_0000_0000) / (t as u128);
        let z: u128 = q * 0x1_0000_0000 + frac;
        proof {
            vstd::arithmetic::div_mod::lemma_fundamental_div_mod(d as int, t as int);
            vstd::arithmetic::div_mod::lemma_fundamental_div_mod(
                rem as int * 0x1_0000_0000,
                t as int,
            );
            assert(0 <= frac < 0x1_0000_0000) by (nonlinear_arith)
                requires
                    0 <= rem < t,
                    t > 0,
                    rem as int * 0x1_0000_0000 == (t as int) * (frac as int) + (rem as int
                        * 0x1_0000_0000) % (t as int),
                    0 <= (rem as int * 0x1_0000_0000) % (t as int) < t,
            ;
            assert((d as int) * 0x1_0000_0000 == (z as int) * (t as int) + (rem as int
                * 0x1_0000_0000) % (t as int)) by (nonlinear_arith)
                requires
                    d as int == (t as int) * (q as int) + rem,
                    z == q * 0x1_0000_0000 + frac,
                    rem as int * 0x1_0000_0000 == (t as int) * (frac as int) + (rem as int
                        * 0x1_0000_0000) % (t as int),
            ;
            vstd::arithmetic::div_mod::lemma_fundamental_div_mod_converse(
                (d as int) * 0x1_0000_0000,
                t as int,
                z as int,
                ((rem as int) * 0x1_0000_0000) % (t as int),
            );
            assert(z as int == ((d as int) * 0x1_0000_0000) / (t as int));
        }
        let base: u64 = (Q32_ONE - (z / 0x1_0000) as u64) as u64;
        let mut r: u64 = base;
        let mut k: u32 = 0;
        proof {
            lemma_sq_steps_bounded(base as int, 16);
        }
        while k < EXP_SQUARINGS
            invariant
                0 <= k <= EXP_SQUARINGS,
                EXP_SQUARINGS == 16,
                0 <= base <= Q32_ONE,
                r as int == sq_steps(base as int, k as nat),
                0 <= r <= Q32_ONE,
            decreases EXP_SQUARINGS - k,
        {
            proof {
                lemma_sq_steps_bounded(base as int, (k + 1) as nat);
            }
            let wide: u128 = (r as u128) * (r as u128);
            r = (wide / 0x1_0000_0000) as u64;
            k = k + 1;
        }
        r
    }
}

/// The acceptance rule of one annealing step, decided against a uniform
/// 64-bit draw. At or below temperature zero the rule is pure greedy
/// descent; at or above [`PRACTICALLY_INFINITY`] every step is accepted;
/// in between, a step that does not increase the energy is always
/// accepted and one that increases it by `d` is accepted exactly when the
/// draw's low 32 bits fall below the Metropolis threshold
/// [`threshold_q32_spec`]`(d, t)`.
pub open spec fn accepts_spec(
    energy_state: int,
    energy_neighbor: int,
    temperature: int,
    draw: u64,
) -> bool {
    if temperature <= 0 {
        energy_neighbor < energy_state
    } else if temperature >= PRACTICALLY_INFINITY {
        true
    } else if energy_neighbor <= energy_state {
        true
    } else {
        (draw as int) % (Q32_ONE as int) < threshold_q32_spec(
            energy_neighbor - energy_state,
            temperature,
        )
    }
}

/// Decides acceptance of a neighbour state: exactly [`accepts_spec`].
/// In particular, at any temperature below or at zero a step whose
/// post-change energy is not strictly smaller is never accepted. The
/// Metropolis comparison is strict (`draw < threshold`, not `<=`), so a
/// zero threshold can never accept; at the scale of a 32-bit draw the
/// boundary case has no further significance.
pub fn accepts_neighbor_state(
    energy_state: i128,
    energy_neighbor: i128,
    temperature: i128,
    draw: u64,
) -> (r: bool)
    requires
        -0x2000_0000_0000_0000_0000_0000_0000_0000i128 <= energy_state
            <= 0x2000_0000_0000_0000_0000_0000_0000_0000i128,
        -0x2000_0000_0000_0000_0000_0000_0000_0000i128 <= energy_neighbor
            <= 0x2000_0000_0000_0000_0000_0000_0000_0000i128,
    ensures
        r == accepts_spec(energy_state as int, energy_neighbor as int, temperature as int, draw),
        temperature <= 0 && energy_neighbor >= energy_state ==> !r,
{
    if temperature <= 0 {
        energy_neighbor < energy_state
    } else if temperature >= PRACTICALLY_INFINITY {
        true
    } else if energy_neighbor <= energy_state {
        true
    } else {
        let threshold = threshold_q32(energy_neighbor - energy_state, temperature);
        let u: u64 = draw % Q32_ONE;
        u < threshold
    }
}


/// Evaluates a proposed neighbour state that is already applied to the
/// surface: a state in which any two edge segments (of either layer)
/// properly cross is reverted outright, whatever the temperature; an
/// intersection-free state is kept exactly when the acceptance rule
/// [`accepts_spec`] passes against the given draw, and reverted
/// otherwise. Reverting restores the proposal-time position of every
/// changed node and touches nothing else.
pub fn intersection_effects(
    ts: &mut ThickSurface,
    outer_changes: &NodeChangeMap,
    inner_changes: &NodeChangeMap,
    energy_state: i128,
    energy_neighbor: i128,
    temperature: i128,
    draw: u64,
) -> (accepted: bool)
    requires
        old(ts).wf(),
        outer_changes.wf(),
        inner_changes.wf(),
        changes_applied(old(ts).layers@[OUTER as int].nodes@, outer_changes@),
        changes_applied(old(ts).layers@[INNER as int].nodes@, inner_changes@),
        -0x2000_0000_0000_0000_0000_0000_0000_0000i128 <= energy_state
            <= 0x2000_0000_0000_0000_0000_0000_0000_0000i128,
        -0x2000_0000_0000_0000_0000_0000_0000_0000i128 <= energy_neighbor
            <= 0x2000_0000_0000_0000_0000_0000_0000_0000i128,
    ensures
        final(ts).wf(),
        final(ts).layers@.len() == 2,
        accepted == (!some_pair_crosses(
            surface_segments(
                old(ts).layers@[OUTER as int].nodes@,
                old(ts).layers@[INNER as int].nodes@,
            ),
        ) && accepts_spec(energy_state as int, energy_neighbor as int, temperature as int, draw)),
        some_pair_crosses(
            surface_segments(
                old(ts).layers@[OUTER as int].nodes@,
                old(ts).layers@[INNER as int].nodes@,
            ),
        ) ==> !accepted,
        temperature <= 0 && energy_neighbor >= energy_state ==> !accepted,
        accepted ==> final(ts).layers@ == old(ts).layers@,
        !accepted ==> reverted_layer(
            old(ts).layers@[OUTER as int].nodes@,
            final(ts).layers@[OUTER as int].nodes@,
            outer_changes@,
        ),
        !accepted ==> reverted_layer(
            old(ts).layers@[INNER as int].nodes@,
            final(ts).layers@[INNER as int].nodes@,
            inner_changes@,
        ),
{
    let lines = graphs_to_lines(&ts.layers);
    let crossing = lines_intersection(&lines);
    let accepted = !crossing && accepts_neighbor_state(
        energy_state,
        energy_neighbor,
        temperature,
        draw,
    );
    if !accepted {
        let mut outer_graph = ts.layers.remove(0);
        revert_changes(&mut outer_graph, outer_changes);
        ts.layers.insert(0, outer_graph);
        let mut inner_graph = ts.layers.remove(1);
        revert_changes(&mut inner_graph, inner_changes);
        ts.layers.insert(1, inner_graph);
        proof {
            assert(ts.layers@[OUTER as int] == outer_graph);
            assert(ts.layers@[INNER as int] == inner_graph);
        }
    }
    accepted
}

/// How [`revert_changes`] leaves a layer: every node the change-set
/// covers is back at its proposal-time position, every other node and
/// every link is as it was.
pub open spec fn reverted_layer(
    before: Seq<crate::graph::Node>,
    after: Seq<crate::graph::Node>,
    m: Map<int, crate::effects::NodeChange>,
) -> bool {
    &&& after.len() == before.len()
    &&& forall|k: int|
        0 <= k < before.len() && m.contains_key(k) ==> (#[trigger] after[k]).x == m[k].cur_x
            && after[k].y == m[k].cur_y
    &&& forall|k: int| 0 <= k < before.len() && !m.contains_key(k) ==> after[k] == before[k]
    &&& forall|k: int|
        0 <= k < before.len() ==> (#[trigger] after[k]).next_id == before[k].next_id
            && after[k].prev_id == before[k].prev_id
}


/// Whether the edge leaving node `i` is a bisection candidate: longer
/// than the addition threshold, in an arena that still has room.
pub open spec fn bisection_candidate(nodes: Seq<crate::graph::Node>, i: int, threshold: int) -> bool {
    nodes.len() < crate::MAX_NODES && crate::graph::edge_length(nodes, i) > threshold
}

/// The first bisection candidate at or after position `i`, in identifier
/// order.
pub open spec fn first_bisection_from(
    nodes: Seq<crate::graph::Node>,
    threshold: int,
    i: int,
) -> Option<int>
    decreases nodes.len() - i,
{
    if i < 0 || i >= nodes.len() {
        None
    } else if bisection_candidate(nodes, i, threshold) {
        Some(i)
    } else {
        first_bisection_from(nodes, threshold, i + 1)
    }
}

proof fn lemma_first_bisection_step(nodes: Seq<crate::graph::Node>, threshold: int, i: int)
    requires
        0 <= i < nodes.len(),
        !bisection_candidate(nodes, i, threshold),
    ensures
        first_bisection_from(nodes, threshold, i) == first_bisection_from(nodes, threshold, i + 1),
{
}

/// Whether the edge leaving node `i` is a merge candidate: shorter than
/// the deletion threshold, in an arena of at least two nodes, with the
/// correspondence allowing the removal of node `i`.
pub open spec fn merge_candidate(
    nodes: Seq<crate::graph::Node>,
    st: Stitching,
    layer: int,
    i: int,
    threshold: int,
) -> bool {
    &&& nodes.len() >= 2
    &&& crate::graph::edge_length(nodes, i) < threshold
    &&& crate::stitcher::merge_allowed_spec(st, layer, i)
}

/// The first merge candidate at or after position `i`, in identifier
/// order.
pub open spec fn first_merge_from(
    nodes: Seq<crate::graph::Node>,
    st: Stitching,
    layer: int,
    threshold: int,
    i: int,
) -> Option<int>
    decreases nodes.len() - i,
{
    if i < 0 || i >= nodes.len() {
        None
    } else if merge_candidate(nodes, st, layer, i, threshold) {
        Some(i)
    } else {
        first_merge_from(nodes, st, layer, threshold, i + 1)
    }
}

proof fn lemma_first_merge_step(
    nodes: Seq<crate::graph::Node>,
    st: Stitching,
    layer: int,
    threshold: int,
    i: int,
)
    requires
        0 <= i < nodes.len(),
        !merge_candidate(nodes, st, layer, i, threshold),
    ensures
        first_merge_from(nodes, st, layer, threshold, i) == first_merge_from(
            nodes,
            st,
            layer,
            threshold,
            i + 1,
        ),
{
}

/// Scans the layer's edges in identifier order and bisects the first one
/// longer than the addition threshold, if any: the new node sits at that
/// edge's midpoint; at most one node is added per layer per step, to keep
/// perturbation magnitude bounded between re-stitches. When no edge
/// qualifies (or the arena is full) the surface is untouched.
pub fn add_single_node_effects(ts: &mut ThickSurface, layer_to_add: usize, addition_threshold: i64)
    requires
        old(ts).wf(),
        layer_to_add < 2,
    ensures
        final(ts).wf(),
        final(ts).layers@.len() == 2,
        final(ts).layers@[1 - layer_to_add as int] == old(ts).layers@[1 - layer_to_add as int],
        first_bisection_from(
            old(ts).layers@[layer_to_add as int].nodes@,
            addition_threshold as int,
            0,
        ) is None ==> final(ts).layers@[layer_to_add as int] == old(
            ts,
        ).layers@[layer_to_add as int],
        first_bisection_from(
            old(ts).layers@[layer_to_add as int].nodes@,
            addition_threshold as int,
            0,
        ) matches Some(i) ==> bisected_at(
            old(ts).layers@[layer_to_add as int].nodes@,
            final(ts).layers@[layer_to_add as int].nodes@,
            i,
        ),
{
    let ghost old_nodes = ts.layers@[layer_to_add as int].nodes@;
    let n = ts.layers[layer_to_add].nodes.len();
    let mut i: usize = 0;
    while i < n
        invariant
            ts == old(ts),
            ts.wf(),
            layer_to_add < 2,
            old_nodes == ts.layers@[layer_to_add as int].nodes@,
            n == old_nodes.len(),
            0 <= i <= n,
            first_bisection_from(old_nodes, addition_threshold as int, 0)
                == first_bisection_from(old_nodes, addition_threshold as int, i as int),
        decreases n - i,
    {
        proof {
            crate::graph::lemma_wf_links(ts.layers@[layer_to_add as int], i as int);
        }
        let next_id = ts.layers[layer_to_add].nodes[i].next_id;
        match node_to_add(&ts.layers[layer_to_add], i, next_id, addition_threshold) {
            Some(addition) => {
                proof {
                    assert(bisection_candidate(old_nodes, i as int, addition_threshold as int));
                    assert(first_bisection_from(old_nodes, addition_threshold as int, 0)
                        == Some(i as int));
                }
                add_node_(ts, layer_to_add, &addition);
                proof {
                    assert(bisected_at(
                        old_nodes,
                        ts.layers@[layer_to_add as int].nodes@,
                        i as int,
                    ));
                }
                return ;
            },
            None => {
                proof {
                    assert(!bisection_candidate(old_nodes, i as int, addition_threshold as int))
                        by {
                        crate::graph::lemma_wf_links(ts.layers@[layer_to_add as int], i as int);
                    }
                    lemma_first_bisection_step(old_nodes, addition_threshold as int, i as int);
                }
            },
        }
        i = i + 1;
    }
}

/// Scans the layer's edges in identifier order and merges away the first
/// node that starts an edge shorter than the deletion threshold, provided
/// no opposite-layer partner would be left with that node as its sole
/// correspondent: at most one merge per layer per step. When no edge
/// qualifies the surface is untouched.
pub fn delete_single_node_effects(
    ts: &mut ThickSurface,
    layer_from_which_delete: usize,
    deletion_threshold: i64,
    s: &Stitching,
)
    requires
        old(ts).wf(),
        layer_from_which_delete < 2,
        s.layers@.len() == 2,
    ensures
        final(ts).wf(),
        final(ts).layers@.len() == 2,
        final(ts).layers@[1 - layer_from_which_delete as int] == old(ts).layers@[1
            - layer_from_which_delete as int],
        first_merge_from(
            old(ts).layers@[layer_from_which_delete as int].nodes@,
            *s,
            layer_from_which_delete as int,
            deletion_threshold as int,
            0,
        ) is None ==> final(ts).layers@[layer_from_which_delete as int] == old(
            ts,
        ).layers@[layer_from_which_delete as int],
        first_merge_from(
            old(ts).layers@[layer_from_which_delete as int].nodes@,
            *s,
            layer_from_which_delete as int,
            deletion_threshold as int,
            0,
        ) matches Some(d) ==> final(ts).layers@[layer_from_which_delete as int].nodes@
            == crate::graph::merged_nodes(
            old(ts).layers@[layer_from_which_delete as int].nodes@,
            d,
        ),
{
    let ghost old_nodes = ts.layers@[layer_from_which_delete as int].nodes@;
    let n = ts.layers[layer_from_which_delete].nodes.len();
    let mut i: usize = 0;
    while i < n
        invariant
            ts == old(ts),
            ts.wf(),
            layer_from_which_delete < 2,
            s.layers@.len() == 2,
            old_nodes == ts.layers@[layer_from_which_delete as int].nodes@,
            n == old_nodes.len(),
            0 <= i <= n,
            first_merge_from(
                old_nodes,
                *s,
                layer_from_which_delete as int,
                deletion_threshold as int,
                0,
            ) == first_merge_from(
                old_nodes,
                *s,
                layer_from_which_delete as int,
                deletion_threshold as int,
                i as int,
            ),
        decreases n - i,
    {
        proof {
            crate::graph::lemma_wf_links(ts.layers@[layer_from_which_delete as int], i as int);
        }
        let next_id = ts.layers[layer_from_which_delete].nodes[i].next_id;
        match node_to_delete(
            &ts.layers[layer_from_which_delete],
            i,
            next_id,
            deletion_threshold,
        ) {
            Some(deletion) => {
                if crate::stitcher::merge_allowed(s, layer_from_which_delete, deletion) {
                    proof {
                        assert(merge_candidate(
                            old_nodes,
                            *s,
                            layer_from_which_delete as int,
                            i as int,
                            deletion_threshold as int,
                        ));
                        assert(first_merge_from(
                            old_nodes,
                            *s,
                            layer_from_which_delete as int,
                            deletion_threshold as int,
                            0,
                        ) == Some(i as int));
                    }
                    delete_node_(ts, layer_from_which_delete, deletion);
                    return ;
                } else {
                    proof {
                        lemma_first_merge_step(
                            old_nodes,
                            *s,
                            layer_from_which_delete as int,
                            deletion_threshold as int,
                            i as int,
                        );
                    }
                }
            },
            None => {
                proof {
                    assert(!merge_candidate(
                        old_nodes,
                        *s,
                        layer_from_which_delete as int,
                        i as int,
                        deletion_threshold as int,
                    ));
                    lemma_first_merge_step(
                        old_nodes,
                        *s,
                        layer_from_which_delete as int,
                        deletion_threshold as int,
                        i as int,
                    );
                }
            },
        }
        i = i + 1;
    }
}

/// Which kind of topology edit the next step performs; the two kinds
/// alternate deterministically, one per step.
#[derive(Clone, Copy, PartialEq, Eq, Structural, Debug)]
pub enum TopologyAction {
    Addition,
    Merging,
}

/// The full state of a simulation run: the surface, the current
/// temperature (in energy units), the current correspondence, the
/// monotonically increasing timestep, and the topology edit the next step
/// performs.
pub struct SimState {
    pub ts: ThickSurface,
    pub temperature: i128,
    pub stitching: Stitching,
    pub timestep: u64,
    pub next_topology_action: TopologyAction,
}

impl SimState {
    /// The state's invariant: the surface is well-formed and the
    /// correspondence is valid for it.
    pub open spec fn wf(self) -> bool {
        &&& self.ts.wf()
        &&& valid_stitching(
            self.stitching,
            self.ts.layers@[OUTER as int].nodes@,
            self.ts.layers@[INNER as int].nodes@,
        )
    }

    /// The state a run starts from: the two sampled contours, the
    /// configured initial temperature, a fresh correspondence, timestep
    /// zero, and an addition as the first topology action.
    pub fn initial_state(
        p: &Params,
        outer_coords: &Vec<(i64, i64)>,
        inner_coords: &Vec<(i64, i64)>,
    ) -> (s: SimState)
        requires
            1 <= outer_coords@.len() <= crate::MAX_NODES,
            1 <= inner_coords@.len() <= crate::MAX_NODES,
            forall|i: int|
                0 <= i < outer_coords@.len() ==> -crate::COORD_LIMIT <= (
                #[trigger] outer_coords@[i]).0 <= crate::COORD_LIMIT && -crate::COORD_LIMIT
                    <= outer_coords@[i].1 <= crate::COORD_LIMIT,
            forall|i: int|
                0 <= i < inner_coords@.len() ==> -crate::COORD_LIMIT <= (
                #[trigger] inner_coords@[i]).0 <= crate::COORD_LIMIT && -crate::COORD_LIMIT
                    <= inner_coords@[i].1 <= crate::COORD_LIMIT,
        ensures
            s.wf(),
            s.timestep == 0,
            s.temperature == p.initial_temperature,
            s.next_topology_action == TopologyAction::Addition,
            s.ts.layers@[OUTER as int].nodes@.len() == outer_coords@.len(),
            s.ts.layers@[INNER as int].nodes@.len() == inner_coords@.len(),
            forall|i: int|
                0 <= i < outer_coords@.len() ==> (
                #[trigger] s.ts.layers@[OUTER as int].nodes@[i]).x == outer_coords@[i].0
                    && s.ts.layers@[OUTER as int].nodes@[i].y == outer_coords@[i].1,
            forall|i: int|
                0 <= i < inner_coords@.len() ==> (
                #[trigger] s.ts.layers@[INNER as int].nodes@[i]).x == inner_coords@[i].0
                    && s.ts.layers@[INNER as int].nodes@[i].y == inner_coords@[i].1,
            valid_stitching(
                s.stitching,
                s.ts.layers@[OUTER as int].nodes@,
                s.ts.layers@[INNER as int].nodes@,
            ),
    {
        let outer_graph = crate::graph::cyclic_graph_from_coords(outer_coords);
        let inner_graph = crate::graph::cyclic_graph_from_coords(inner_coords);
        let ts = ThickSurface::new(outer_graph, inner_graph);
        let s = stitch_default(&ts);
        SimState {
            ts,
            temperature: p.initial_temperature,
            stitching: s,
            timestep: 0,
            next_topology_action: TopologyAction::Addition,
        }
    }
}

/// The linear temperature schedule at the state's current timestep:
/// `timestep * slope`, floored at zero.
pub fn temperature(sim_state: &SimState, slope: i128) -> (t: i128)
    requires
        sim_state.timestep <= 0x1_0000_0000,
        -0x1_0000_0000_0000_0000_0000 <= slope <= 0x1_0000_0000_0000_0000_0000,
    ensures
        t == temperature_spec(sim_state.timestep as int, slope as int),
{
    proof {
        assert(-0x1_0000_0000_0000_0000_0000_0000_0000i128 <= (sim_state.timestep as i128) * slope
            <= 0x1_0000_0000_0000_0000_0000_0000_0000i128) by (nonlinear_arith)
            requires
                0 <= sim_state.timestep <= 0x1_0000_0000,
                -0x1_0000_0000_0000_0000_0000 <= slope <= 0x1_0000_0000_0000_0000_0000,
        ;
    }
    let new: i128 = (sim_state.timestep as i128) * slope;
    if new < 0 {
        0
    } else {
        new
    }
}


/// One layer after the step's topology action of the addition kind: the
/// first over-threshold edge bisected, or the layer untouched when none
/// qualifies.
pub open spec fn topo_added_layer(
    before: Seq<crate::graph::Node>,
    after: Seq<crate::graph::Node>,
    threshold: int,
) -> bool {
    match first_bisection_from(before, threshold, 0) {
        Some(i) => bisected_at(before, after, i),
        None => after == before,
    }
}

/// One layer after the step's topology action of the merging kind: the
/// first mergeable under-threshold edge merged, or the layer untouched
/// when none qualifies.
pub open spec fn topo_merged_layer(
    before: Seq<crate::graph::Node>,
    after: Seq<crate::graph::Node>,
    st: Stitching,
    layer: int,
    threshold: int,
) -> bool {
    match first_merge_from(before, st, layer, threshold, 0) {
        Some(d) => after == crate::graph::merged_nodes(before, d),
        None => after == before,
    }
}

/// Everything one annealing step does to the surface, given the two
/// change-sets it proposed, its uniform draw, and whether it kept the
/// proposal: the proposal applied to the old surface is the evaluated
/// neighbour state; a neighbour with any proper edge crossing is never
/// kept; otherwise keeping is exactly the acceptance rule against the
/// draw; the kept (or restored) surface then receives the step's topology
/// action, one edit per layer at most.
pub open spec fn step_outcome(
    old_ss: SimState,
    new_ss: SimState,
    oc: NodeChangeMap,
    ic: NodeChangeMap,
    params: Params,
    accepted: bool,
    draw: u64,
) -> bool {
    let old_out = old_ss.ts.layers@[OUTER as int].nodes@;
    let old_inn = old_ss.ts.layers@[INNER as int].nodes@;
    let mid_out = applied_nodes(old_out, oc@);
    let mid_inn = applied_nodes(old_inn, ic@);
    let crossed = some_pair_crosses(surface_segments(mid_out, mid_inn));
    let eb = energy_spec(old_out, old_inn, params.initial_gray_matter_area as int);
    let ea = energy_spec(mid_out, mid_inn, params.initial_gray_matter_area as int);
    let anneal_out = if accepted {
        mid_out
    } else {
        old_out
    };
    let anneal_inn = if accepted {
        mid_inn
    } else {
        old_inn
    };
    let new_out = new_ss.ts.layers@[OUTER as int].nodes@;
    let new_inn = new_ss.ts.layers@[INNER as int].nodes@;
    &&& (crossed ==> !accepted)
    &&& accepted == (!crossed && accepts_spec(eb, ea, old_ss.temperature as int, draw))
    &&& match old_ss.next_topology_action {
        TopologyAction::Addition => topo_added_layer(
            anneal_out,
            new_out,
            params.node_addition_threshold as int,
        ) && topo_added_layer(anneal_inn, new_inn, params.node_addition_threshold as int),
        TopologyAction::Merging => topo_merged_layer(
            anneal_out,
            new_out,
            old_ss.stitching,
            OUTER as int,
            params.node_deletion_threshold as int,
        ) && topo_merged_layer(
            anneal_inn,
            new_inn,
            old_ss.stitching,
            INNER as int,
            params.node_deletion_threshold as int,
        ),
    }
}

/// One annealing step. A random displacement on the outer contour is
/// smoothed along it and propagated to the inner contour through the
/// correspondence; the combined proposal is applied, energies before and
/// after are compared, and [`intersection_effects`] keeps or reverts the
/// proposal (a self-intersecting state is always reverted). The step's
/// topology action then bisects or merges at most one edge per layer, the
/// correspondence is rebuilt, the temperature follows the schedule at the
/// old timestep, the timestep advances by one, and the topology action
/// alternates. Returns the outer and inner change-sets that were
/// proposed.
pub fn step(sim_state: &mut SimState, params: &Params) -> (changes: Vec<NodeChangeMap>)
    requires
        old(sim_state).wf(),
        params.valid(),
        old(sim_state).timestep <= 0xffff_ffff,
    ensures
        final(sim_state).wf(),
        final(sim_state).timestep == old(sim_state).timestep + 1,
        final(sim_state).temperature == temperature_spec(
            old(sim_state).timestep as int + 1,
            params.temperature_param as int,
        ),
        final(sim_state).next_topology_action != old(sim_state).next_topology_action,
        changes@.len() == 2,
        changes@[0].wf(),
        changes@[1].wf(),
        exists|seed: crate::effects::NodeChange|
            #[trigger] change_applicable(old(sim_state).ts.layers@[OUTER as int].nodes@, seed)
                && changes@[0]@ == smoothed_after(
                old(sim_state).ts.layers@[OUTER as int].nodes@,
                seed,
                Smooth::Count(params.how_smooth),
                old(sim_state).ts.layers@[OUTER as int].nodes@.len() - 1,
            ),
        changes@[1]@ == induced_map(
            old(sim_state).ts.layers@[INNER as int].nodes@,
            changes@[0].entries@,
            old(sim_state).stitching,
            params.compression_factor as int,
            changes@[0].entries@.len() as int,
        ),
        exists|accepted: bool, draw: u64|
            #[trigger] step_outcome(
                *old(sim_state),
                *final(sim_state),
                changes@[0],
                changes@[1],
                *params,
                accepted,
                draw,
            ),
{
    let how_smooth = params.how_smooth;
    let compression_factor = params.compression_factor;
    let low_high = params.low_high;
    let node_addition_threshold = params.node_addition_threshold;
    let node_deletion_threshold = params.node_deletion_threshold;

    let outer_change = random_change(&sim_state.ts.layers[0], low_high);
    let outer_changes = smooth_change_out(
        &sim_state.ts.layers[0],
        outer_change,
        Smooth::Count(how_smooth),
    );
    let inner_changes = changer_of_choice(
        &sim_state.ts.layers[1],
        &sim_state.ts.layers[0],
        &outer_changes,
        compression_factor,
        &sim_state.stitching,
    );

    let ghost old_out = old(sim_state).ts.layers@[OUTER as int].nodes@;
    let ghost old_inn = old(sim_state).ts.layers@[INNER as int].nodes@;
    let energy_state = energy(&sim_state.ts, params.initial_gray_matter_area);
    let mut outer_graph = sim_state.ts.layers.remove(0);
    apply_changes(&mut outer_graph, &outer_changes);
    sim_state.ts.layers.insert(0, outer_graph);
    let mut inner_graph = sim_state.ts.layers.remove(1);
    apply_changes(&mut inner_graph, &inner_changes);
    sim_state.ts.layers.insert(1, inner_graph);
    proof {
        assert(sim_state.ts.layers@[OUTER as int] == outer_graph);
        assert(sim_state.ts.layers@[INNER as int] == inner_graph);
    }
    let ghost mid_out = sim_state.ts.layers@[OUTER as int].nodes@;
    let ghost mid_inn = sim_state.ts.layers@[INNER as int].nodes@;
    proof {
        assert(mid_out == applied_nodes(old_out, outer_changes@));
        assert(mid_inn == applied_nodes(old_inn, inner_changes@));
    }
    let energy_neighbor = energy(&sim_state.ts, params.initial_gray_matter_area);

    let draw = random_u64();
    let accepted = intersection_effects(
        &mut sim_state.ts,
        &outer_changes,
        &inner_changes,
        energy_state,
        energy_neighbor,
        sim_state.temperature,
        draw,
    );
    proof {
        // an accepted proposal stands; a refused one is restored exactly
        if accepted {
            assert(sim_state.ts.layers@[OUTER as int].nodes@ == mid_out);
            assert(sim_state.ts.layers@[INNER as int].nodes@ == mid_inn);
        } else {
            assert forall|k: int|
                0 <= k < old_out.len() implies sim_state.ts.layers@[OUTER as int].nodes@[k]
                == old_out[k] by {
                if outer_changes@.contains_key(k) {
                    assert(crate::effects::change_applicable(old_out, outer_changes@[k]));
                }
            }
            assert(sim_state.ts.layers@[OUTER as int].nodes@ =~= old_out);
            assert forall|k: int|
                0 <= k < old_inn.len() implies sim_state.ts.layers@[INNER as int].nodes@[k]
                == old_inn[k] by {
                if inner_changes@.contains_key(k) {
                    assert(crate::effects::change_applicable(old_inn, inner_changes@[k]));
                }
            }
            assert(sim_state.ts.layers@[INNER as int].nodes@ =~= old_inn);
        }
    }
    let ghost anneal_out = sim_state.ts.layers@[OUTER as int].nodes@;
    let ghost anneal_inn = sim_state.ts.layers@[INNER as int].nodes@;

    let ghost old_action = old(sim_state).next_topology_action;
    match sim_state.next_topology_action {
        TopologyAction::Addition => {
            add_single_node_effects(&mut sim_state.ts, 0, node_addition_threshold);
            add_single_node_effects(&mut sim_state.ts, 1, node_addition_threshold);
            sim_state.next_topology_action = TopologyAction::Merging;
            proof {
                assert(old_action == TopologyAction::Addition);
                assert(topo_added_layer(
                    anneal_out,
                    sim_state.ts.layers@[OUTER as int].nodes@,
                    node_addition_threshold as int,
                ));
                assert(topo_added_layer(
                    anneal_inn,
                    sim_state.ts.layers@[INNER as int].nodes@,
                    node_addition_threshold as int,
                ));
            }
        },
        TopologyAction::Merging => {
            delete_single_node_effects(
                &mut sim_state.ts,
                0,
                node_deletion_threshold,
                &sim_state.stitching,
            );
            delete_single_node_effects(
                &mut sim_state.ts,
                1,
                node_deletion_threshold,
                &sim_state.stitching,
            );
            sim_state.next_topology_action = TopologyAction::Addition;
            proof {
                assert(old_action == TopologyAction::Merging);
                assert(topo_merged_layer(
                    anneal_out,
                    sim_state.ts.layers@[OUTER as int].nodes@,
                    old(sim_state).stitching,
                    OUTER as int,
                    node_deletion_threshold as int,
                ));
                assert(topo_merged_layer(
                    anneal_inn,
                    sim_state.ts.layers@[INNER as int].nodes@,
                    old(sim_state).stitching,
                    INNER as int,
                    node_deletion_threshold as int,
                ));
            }
        },
    }

    let ghost topo_out = sim_state.ts.layers@[OUTER as int].nodes@;
    let ghost topo_inn = sim_state.ts.layers@[INNER as int].nodes@;

    sim_state.stitching = stitch_default(&sim_state.ts);
    sim_state.timestep = sim_state.timestep + 1;
    sim_state.temperature = temperature(sim_state, params.temperature_param);

    let mut changes: Vec<NodeChangeMap> = Vec::new();
    changes.push(outer_changes);
    changes.push(inner_changes);
    proof {
        assert(changes@[0] == outer_changes);
        assert(changes@[1] == inner_changes);
        assert(change_applicable(old_out, outer_change) && changes@[0]@ == smoothed_after(
            old_out,
            outer_change,
            Smooth::Count(params.how_smooth),
            old_out.len() - 1,
        ));
        assert(step_outcome(
            *old(sim_state),
            *sim_state,
            outer_changes,
            inner_changes,
            *params,
            accepted,
            draw,
        )) by {
            assert(sim_state.ts.layers@[OUTER as int].nodes@ == topo_out);
            assert(sim_state.ts.layers@[INNER as int].nodes@ == topo_inn);
            assert(accepted == (!some_pair_crosses(surface_segments(mid_out, mid_inn))
                && accepts_spec(
                energy_state as int,
                energy_neighbor as int,
                old(sim_state).temperature as int,
                draw,
            )));
            assert(mid_out == applied_nodes(old_out, outer_changes@));
            assert(mid_inn == applied_nodes(old_inn, inner_changes@));
            if accepted {
                assert(anneal_out == mid_out && anneal_inn == mid_inn);
            } else {
                assert(anneal_out == old_out && anneal_inn == old_inn);
            }
            // the outcome's own terms for the evaluated neighbour state
            let spec_mid_out = applied_nodes(old_out, outer_changes@);
            let spec_mid_inn = applied_nodes(old_inn, inner_changes@);
            let crossed = some_pair_crosses(surface_segments(spec_mid_out, spec_mid_inn));
            let eb = energy_spec(old_out, old_inn, params.initial_gray_matter_area as int);
            let ea = energy_spec(spec_mid_out, spec_mid_inn, params.initial_gray_matter_area as int);
            assert(crossed ==> !accepted);
            assert(accepted == (!crossed && accepts_spec(
                eb,
                ea,
                old(sim_state).temperature as int,
                draw,
            )));
            let spec_anneal_out = if accepted { spec_mid_out } else { old_out };
            let spec_anneal_inn = if accepted { spec_mid_inn } else { old_inn };
            assert(spec_anneal_out == anneal_out && spec_anneal_inn == anneal_inn);
            match old(sim_state).next_topology_action {
                TopologyAction::Addition => {
                    assert(topo_added_layer(
                        spec_anneal_out,
                        topo_out,
                        params.node_addition_threshold as int,
                    ));
                    assert(topo_added_layer(
                        spec_anneal_inn,
                        topo_inn,
                        params.node_addition_threshold as int,
                    ));
                },
                TopologyAction::Merging => {
                    assert(topo_merged_layer(
                        spec_anneal_out,
                        topo_out,
                        old(sim_state).stitching,
                        OUTER as int,
                        params.node_deletion_threshold as int,
                    ));
                    assert(topo_merged_layer(
                        spec_anneal_inn,
                        topo_inn,
                        old(sim_state).stitching,
                        INNER as int,
                        params.node_deletion_threshold as int,
                    ));
                },
            }
        }
    }
    changes
}

} // verus!
