use gray_matter::effects::{NodeChange, NodeChangeMap};
use gray_matter::geometry::{intersection, lines_intersection, Segment};
use gray_matter::graph::{cyclic_graph_from_coords, graphs_to_lines, Graph, ThickSurface};
use gray_matter::recorders::{record_row, Recorder};
use gray_matter::simulated_annealing::{
    accepts_neighbor_state, energy, intersection_effects, step, SimState, TopologyAction,
    PRACTICALLY_INFINITY,
};
use gray_matter::types::Params;
use gray_matter::SCALE;

fn circular_coords(radius: f64, num_points: usize) -> Vec<(i64, i64)> {
    let mut coords = Vec::new();
    for i in 0..num_points {
        let angle = i as f64 * 2.0 * std::f64::consts::PI / num_points as f64;
        coords.push((
            (angle.cos() * radius * SCALE as f64).round() as i64,
            (angle.sin() * radius * SCALE as f64).round() as i64,
        ));
    }
    coords
}

fn circular_thick_surface(radius: f64, thickness: f64, num_points: usize) -> ThickSurface {
    ThickSurface::new(
        cyclic_graph_from_coords(&circular_coords(radius, num_points)),
        cyclic_graph_from_coords(&circular_coords(radius - thickness, num_points)),
    )
}

fn default_params() -> Params {
    // the derived initial annulus measure: 2 pi r - 2 pi (r - t), scaled
    // to the doubled ticks-squared units the energy works in
    let initial = 2.0 * std::f64::consts::PI * 1.0 - 2.0 * std::f64::consts::PI * 0.8;
    Params {
        initial_thickness: (0.2 * SCALE as f64) as i64,
        initial_radius: SCALE,
        initial_num_points: 50,
        initial_temperature: 0,
        initial_gray_matter_area: (initial * 2.0 * (SCALE as f64) * (SCALE as f64)) as i128,
        compression_factor: SCALE,
        softness_factor: SCALE,
        how_smooth: 3,
        node_addition_threshold: (0.3 * SCALE as f64) as i64,
        node_deletion_threshold: (0.01 * SCALE as f64) as i64,
        low_high: ((-0.01 * SCALE as f64) as i64, (0.01 * SCALE as f64) as i64),
        temperature_param: 0,
        recorders: vec![Recorder::Energy, Recorder::GrayMatterArea, Recorder::NumOuterPoints],
    }
}

#[test]
fn greedy_descent_never_accepts_a_worse_state() {
    for draw in [0u64, 1, u64::MAX / 2, u64::MAX] {
        // post-change energy above the pre-change energy: rejected
        assert!(!accepts_neighbor_state(100, 200, -1, draw));
        // equal energy: rejected
        assert!(!accepts_neighbor_state(100, 100, -1, draw));
        // strictly smaller energy: accepted
        assert!(accepts_neighbor_state(200, 100, -1, draw));
        // the same holds at temperature zero
        assert!(!accepts_neighbor_state(100, 200, 0, draw));
        assert!(accepts_neighbor_state(200, 100, 0, draw));
    }
}

#[test]
fn infinite_temperature_accepts_everything() {
    for draw in [0u64, u64::MAX] {
        assert!(accepts_neighbor_state(0, 1 << 90, PRACTICALLY_INFINITY, draw));
    }
}

#[test]
fn moderate_temperature_always_accepts_improvements() {
    for draw in [0u64, u64::MAX] {
        assert!(accepts_neighbor_state(500, 400, 1 << 40, draw));
        assert!(accepts_neighbor_state(500, 500, 1 << 40, draw));
    }
}

fn single_change_map(g: &Graph, id: usize, dx: i64, dy: i64) -> NodeChangeMap {
    let mut m = NodeChangeMap::new();
    m.insert(
        id,
        NodeChange { id, cur_x: g.nodes[id].x, cur_y: g.nodes[id].y, delta_x: dx, delta_y: dy },
    );
    m
}

#[test]
fn crossing_states_are_reverted_whatever_the_temperature() {
    // a small square outer contour and a thin inner one; pushing one
    // inner node far out makes the layers cross
    let mut ts = circular_thick_surface(1.0, 0.5, 8);
    let before_inner = ts.layers[1].nodes.clone();
    let inner_changes = single_change_map(&ts.layers[1], 0, 3 * SCALE, 3 * SCALE);
    let outer_changes = NodeChangeMap::new();
    gray_matter::effects::apply_changes(&mut ts.layers[1], &inner_changes);
    assert!(lines_intersection(&graphs_to_lines(&ts.layers)));

    // even at practically infinite temperature the state is vetoed
    let accepted = intersection_effects(
        &mut ts,
        &outer_changes,
        &inner_changes,
        0,
        0,
        PRACTICALLY_INFINITY,
        12345,
    );
    assert!(!accepted);
    for id in 0..before_inner.len() {
        assert_eq!(ts.layers[1].nodes[id], before_inner[id]);
    }
    assert!(!lines_intersection(&graphs_to_lines(&ts.layers)));
}

#[test]
fn worse_states_are_reverted_in_greedy_descent() {
    let mut ts = circular_thick_surface(1.0, 0.4, 12);
    let p = default_params();
    let before_outer = ts.layers[0].nodes.clone();
    // pushing the outer contour outward grows the annulus: worse energy
    let outer_changes = single_change_map(&ts.layers[0], 2, SCALE / 2, 0);
    let inner_changes = NodeChangeMap::new();
    let energy_state = energy(&ts, p.initial_gray_matter_area);
    gray_matter::effects::apply_changes(&mut ts.layers[0], &outer_changes);
    let energy_neighbor = energy(&ts, p.initial_gray_matter_area);
    assert!(energy_neighbor > energy_state);

    let accepted =
        intersection_effects(&mut ts, &outer_changes, &inner_changes, energy_state, energy_neighbor, 0, 7);
    assert!(!accepted);
    for id in 0..before_outer.len() {
        assert_eq!(ts.layers[0].nodes[id], before_outer[id]);
    }
}

#[test]
fn recorders_report_the_configured_metrics() {
    let ts = circular_thick_surface(1.0, 0.2, 50);
    let p = default_params();
    let row = record_row(&ts, &p);
    assert_eq!(row.len(), 3);
    assert_eq!(row[0], energy(&ts, p.initial_gray_matter_area));
    let gray = gray_matter::graph::area(&ts.layers[0]) - gray_matter::graph::area(&ts.layers[1]);
    assert_eq!(row[1], gray);
    assert_eq!(row[2], 50);
}

#[test]
fn hundred_steps_at_zero_temperature_conserve_the_annulus() {
    let p = default_params();
    let outer_coords = circular_coords(1.0, 50);
    let inner_coords = circular_coords(0.8, 50);
    let mut state = SimState::initial_state(&p, &outer_coords, &inner_coords);

    let unit = 2.0 * (SCALE as f64) * (SCALE as f64);
    let initial_gray = gray_matter::graph::gray_matter_area(&state.ts) as f64 / unit;
    for _ in 0..100 {
        step(&mut state, &p);
    }
    let final_gray = gray_matter::graph::gray_matter_area(&state.ts) as f64 / unit;
    assert!((final_gray - initial_gray).abs() < 0.2);
    assert!(!lines_intersection(&graphs_to_lines(&state.ts.layers)));
    assert_eq!(state.timestep, 100);
}

#[test]
fn segments_cross_only_in_their_interiors() {
    let s = |x1: i64, y1: i64, x2: i64, y2: i64| Segment { x1, y1, x2, y2 };
    // the two diagonals of a unit square cross
    assert!(intersection(
        s(SCALE, SCALE, 2 * SCALE, 2 * SCALE),
        s(SCALE, 2 * SCALE, 2 * SCALE, SCALE),
    ));
    // two segments sharing an endpoint do not count as crossing
    assert!(!intersection(
        s(SCALE, SCALE, 2 * SCALE, 2 * SCALE),
        s(SCALE, SCALE, 49 * SCALE, 78 * SCALE),
    ));
}

#[test]
fn intersection_is_calculated_correctly() {
    let s = |x1: i64, y1: i64, x2: i64, y2: i64| Segment { x1, y1, x2, y2 };
    let inter = intersection(
        s(SCALE, SCALE, 2 * SCALE, 2 * SCALE),
        s(SCALE, 2 * SCALE, 2 * SCALE, SCALE),
    );
    assert!(inter);

    /* Two lines having a point in common shouldn't intersect */
    let (x1, y1) = (SCALE, SCALE);
    let inter = intersection(
        s(x1, y1, 2 * SCALE, 2 * SCALE),
        s(x1, y1, 49 * SCALE, 78 * SCALE),
    );
    assert!(!inter);
}

#[test]
fn temperature_follows_the_schedule_at_the_advanced_timestep() {
    let mut p = default_params();
    let slope: i128 = 1 << 40;
    p.temperature_param = slope;
    p.initial_temperature = 7;
    let outer_coords = circular_coords(1.0, 24);
    let inner_coords = circular_coords(0.8, 24);
    let mut state = SimState::initial_state(&p, &outer_coords, &inner_coords);
    assert_eq!(state.temperature, 7);
    step(&mut state, &p);
    assert_eq!(state.timestep, 1);
    assert_eq!(state.temperature, slope);
    step(&mut state, &p);
    assert_eq!(state.temperature, 2 * slope);

    // a cooling slope floors at zero
    p.temperature_param = -slope;
    let mut cooling = SimState::initial_state(&p, &outer_coords, &inner_coords);
    step(&mut cooling, &p);
    assert_eq!(cooling.temperature, 0);
}

#[test]
fn topology_actions_alternate_each_step() {
    let p = default_params();
    let outer_coords = circular_coords(1.0, 16);
    let inner_coords = circular_coords(0.8, 16);
    let mut state = SimState::initial_state(&p, &outer_coords, &inner_coords);
    assert!(matches!(state.next_topology_action, TopologyAction::Addition));
    step(&mut state, &p);
    assert!(matches!(state.next_topology_action, TopologyAction::Merging));
    step(&mut state, &p);
    assert!(matches!(state.next_topology_action, TopologyAction::Addition));
}
