use gray_matter::geometry::{direction_vector, norm};
use gray_matter::playground::{diagonal_ts, playin_main};
use gray_matter::renderer::{
    initial_state, lines_from_thick_surface, next_state, stitching_edges, StepType, UiEvent,
    UiState,
};
use gray_matter::stitcher::stitch;
use gray_matter::SCALE;

#[test]
fn direction_for_inner_push_is_correct() {
    assert_eq!(
        direction_vector(0, 0, -SCALE, -SCALE / 2, SCALE, -SCALE / 2),
        (0, -SCALE),
    );
    let (some_dir_x, some_dir_y) = direction_vector(0, 0, 0, 100 * SCALE, SCALE, 0);
    // the bisector is a unit vector, up to fixed-point rounding
    assert_eq!(some_dir_y, some_dir_y);
    let len = norm(some_dir_x, some_dir_y);
    assert!((len - SCALE).abs() <= 2);
}

#[test]
fn run_toggle_flips_between_automatic_and_standstill() {
    let s0 = initial_state(42);
    assert_eq!(s0.step_type, StepType::NoStep);
    assert_eq!(s0.temperature, 42);
    let s1 = next_state(UiEvent::ToggleRun, s0);
    assert!(s1.should_step);
    assert_eq!(s1.step_type, StepType::Automatic);
    let s2 = next_state(UiEvent::ToggleRun, s1);
    assert!(!s2.should_step);
    assert_eq!(s2.step_type, StepType::NoStep);
}

#[test]
fn single_step_keys_arm_one_step_only_when_stepping_one_at_a_time() {
    let s0 = initial_state(0);
    let armed = next_state(UiEvent::StepOnce, s0);
    assert_eq!(armed.step_type, StepType::OneAtATime);
    let manual = next_state(UiEvent::ManualStep, s0);
    assert_eq!(manual.step_type, StepType::ManualChange);

    let running = UiState { one_at_a_time: false, ..s0 };
    assert_eq!(next_state(UiEvent::StepOnce, running).step_type, StepType::NoStep);
}

#[test]
fn reset_stops_everything_and_zeroes_the_temperature() {
    let s0 = UiState {
        should_step: true,
        one_at_a_time: false,
        step_type: StepType::Automatic,
        temperature: 99,
        should_stitch: true,
        hyper_debug: true,
    };
    let s1 = next_state(UiEvent::Reset, s0);
    assert!(!s1.should_step);
    assert!(s1.one_at_a_time);
    assert_eq!(s1.step_type, StepType::Reset);
    assert_eq!(s1.temperature, 0);
    assert!(s1.hyper_debug);
}

#[test]
fn surface_lines_cover_every_edge_and_correspondence() {
    let ts = diagonal_ts();
    let s = stitch(&ts);
    let edges = stitching_edges(&ts, &s);
    let lines = lines_from_thick_surface(&ts, &s);
    let contour_edges = ts.layers[0].nodes.len() + ts.layers[1].nodes.len();
    assert_eq!(lines.len(), contour_edges + edges.len());
    // the first segment is the outer contour's first edge
    let n0 = ts.layers[0].nodes[0];
    let n1 = ts.layers[0].nodes[n0.next_id];
    assert_eq!(lines[0].x1, n0.x);
    assert_eq!(lines[0].y1, n0.y);
    assert_eq!(lines[0].x2, n1.x);
    assert_eq!(lines[0].y2, n1.y);
    // every correspondence segment joins an outer node to an inner node
    for (k, e) in edges.iter().enumerate() {
        let line = lines[contour_edges + k];
        assert_eq!(line.x1, ts.layers[0].nodes[e.source].x);
        assert_eq!(line.x2, ts.layers[1].nodes[e.target].x);
    }
}

#[test]
fn playground_state_is_ready_to_step() {
    let mut s = playin_main();
    assert_eq!(s.timestep, 0);
    assert_eq!(s.ts.layers[0].nodes.len(), 6);
    let p = gray_matter::types::Params {
        initial_thickness: SCALE / 10,
        initial_radius: SCALE,
        initial_num_points: 6,
        initial_temperature: 0,
        initial_gray_matter_area: 0,
        compression_factor: SCALE,
        softness_factor: SCALE,
        how_smooth: 2,
        node_addition_threshold: 10 * SCALE,
        node_deletion_threshold: 0,
        low_high: (-SCALE / 100, SCALE / 100),
        temperature_param: 0,
        recorders: Vec::new(),
    };
    gray_matter::simulated_annealing::step(&mut s, &p);
    assert_eq!(s.timestep, 1);
}
