use gray_matter::graph::{cyclic_graph_from_coords, Graph, Node};
use gray_matter::SCALE;

fn circular_coords(center_x: f64, center_y: f64, radius: f64, num_points: usize) -> Vec<(i64, i64)> {
    let mut coords = Vec::new();
    for i in 0..num_points {
        let angle = i as f64 * 2.0 * std::f64::consts::PI / num_points as f64;
        let x = center_x + angle.cos() * radius;
        let y = center_y + angle.sin() * radius;
        coords.push(((x * SCALE as f64).round() as i64, (y * SCALE as f64).round() as i64));
    }
    coords
}

fn circular_graph(center_x: f64, center_y: f64, radius: f64, num_points: usize) -> Graph {
    cyclic_graph_from_coords(&circular_coords(center_x, center_y, radius, num_points))
}

fn area_units(g: &Graph) -> f64 {
    let a2 = gray_matter::graph::area(g);
    a2 as f64 / (2.0 * SCALE as f64 * SCALE as f64)
}

fn perimeter_units(g: &Graph) -> f64 {
    gray_matter::graph::perimeter(g) as f64 / SCALE as f64
}

#[test]
fn we_go_around() {
    let size_of_test_circ = 4;

    let test_circ = circular_graph(0.0, 0.0, 1.0, size_of_test_circ);
    let first: Node = test_circ.nodes[0];
    let mut walker: Node = first;
    let mut id = 0usize;
    for _i in 0..size_of_test_circ {
        walker = *test_circ.next(id);
        id = test_circ.nodes[id].next_id;
    }
    assert_eq!(walker, first);
}

#[test]
fn circular_area() {
    let size_of_graph = 200;
    let test_circ = circular_graph(0.0, 0.0, 1.0, size_of_graph);

    assert!(area_units(&test_circ) < 3.15);
    assert!(area_units(&test_circ) > 3.13);
}

#[test]
fn circular_perimeter() {
    let size_of_graph = 200;
    let test_circ = circular_graph(2.0, 7.0, 1.0, size_of_graph);

    assert!(perimeter_units(&test_circ) < 6.30);
    assert!(perimeter_units(&test_circ) > 6.26);
}

#[test]
fn area_and_perimeter_converge_on_circle() {
    // a regular n-gon inscribed in the unit circle approaches area pi
    // and perimeter 2 pi; within one percent for two hundred points
    let g = circular_graph(0.0, 0.0, 1.0, 200);
    let pi = std::f64::consts::PI;
    assert!((area_units(&g) - pi).abs() / pi < 0.01);
    assert!((perimeter_units(&g) - 2.0 * pi).abs() / (2.0 * pi) < 0.01);
}

#[test]
fn walking_next_visits_every_node_once() {
    let n = 37;
    let g = circular_graph(0.0, 0.0, 1.0, n);
    for start in [0usize, 5, 36] {
        let mut seen = vec![false; n];
        let mut id = start;
        for _ in 0..n {
            assert!(!seen[id]);
            seen[id] = true;
            id = g.nodes[id].next_id;
        }
        assert_eq!(id, start);
        assert!(seen.iter().all(|&s| s));
    }
}

#[test]
fn next_and_prev_invert_each_other() {
    let g = circular_graph(0.0, 0.0, 1.0, 12);
    for id in 0..12usize {
        let next_id = g.nodes[id].next_id;
        let prev_id = g.nodes[id].prev_id;
        assert_eq!(g.nodes[next_id].prev_id, id);
        assert_eq!(g.nodes[prev_id].next_id, id);
    }
}

#[test]
fn insertion_links_the_new_node_between_its_neighbours() {
    let mut g = circular_graph(0.0, 0.0, 1.0, 8);
    let len_before = g.nodes.len();
    let a = 3usize;
    let b = g.nodes[a].next_id;
    let new_id = g.insert_between(a, b, 1000, 2000);
    assert_eq!(g.nodes.len(), len_before + 1);
    assert_eq!(g.nodes[new_id].prev_id, a);
    assert_eq!(g.nodes[new_id].next_id, b);
    assert_eq!(g.nodes[a].next_id, new_id);
    assert_eq!(g.nodes[b].prev_id, new_id);
    assert_eq!(g.nodes[new_id].x, 1000);
    assert_eq!(g.nodes[new_id].y, 2000);
}

#[test]
fn merge_shrinks_by_one_and_keeps_identifiers_dense() {
    let mut g = circular_graph(0.0, 0.0, 1.0, 9);
    let len_before = g.nodes.len();
    let a = 2usize;
    let b = g.nodes[a].next_id;
    g.merge(a, b);
    assert_eq!(g.nodes.len(), len_before - 1);
    // no remaining node references an identifier outside the dense range
    for node in &g.nodes {
        assert!(node.next_id < g.nodes.len());
        assert!(node.prev_id < g.nodes.len());
    }
    // the cycle still passes through every node exactly once
    let n = g.nodes.len();
    let mut seen = vec![false; n];
    let mut id = 0usize;
    for _ in 0..n {
        assert!(!seen[id]);
        seen[id] = true;
        id = g.nodes[id].next_id;
    }
    assert_eq!(id, 0);
}

#[test]
fn merge_of_the_last_slot_needs_no_move() {
    let mut g = circular_graph(0.0, 0.0, 1.0, 5);
    let a = 4usize;
    let b = g.nodes[a].next_id;
    g.merge(a, b);
    assert_eq!(g.nodes.len(), 4);
    for node in &g.nodes {
        assert!(node.next_id < 4);
        assert!(node.prev_id < 4);
    }
}

#[test]
fn adding_node_leaves_consistent_graph() {
    let size_of_graph = 30;
    let mut circular = gray_matter::graph::ThickSurface::new(
        circular_graph(0.0, 0.0, 1.0, size_of_graph),
        circular_graph(0.0, 0.0, 0.7, size_of_graph),
    );

    // Low addition threshold ensures this adds a node
    for _ in 0..3 {
        let prev = 10usize;
        let next = circular.layers[0].nodes[prev].next_id;
        let to_add = gray_matter::graph::node_to_add(&circular.layers[0], prev, next, 0);
        gray_matter::effects::add_node_(&mut circular, 0, &to_add.unwrap());
    }
    let prev = 10usize;
    let next = circular.layers[1].nodes[prev].next_id;
    let to_add = gray_matter::graph::node_to_add(&circular.layers[1], prev, next, 0);
    gray_matter::effects::add_node_(&mut circular, 1, &to_add.unwrap());
    assert_eq!(circular.layers[0].nodes.len(), size_of_graph + 3);
    assert_eq!(circular.layers[1].nodes.len(), size_of_graph + 1);
}

#[test]
fn closest_node_is_found() {
    let g = circular_graph(0.0, 0.0, 1.0, 16);
    // the node at angle zero sits at (SCALE, 0); a probe just beside it
    let id = gray_matter::graph::closest_node_to_some_point(&g, SCALE - 10, 25);
    assert_eq!(id, 0);
}

#[test]
fn addition_candidate_requires_a_long_adjacent_edge() {
    let g = circular_graph(0.0, 0.0, 1.0, 12);
    let prev = 4usize;
    let next = g.nodes[prev].next_id;
    // a huge threshold refuses the bisection
    assert!(gray_matter::graph::node_to_add(&g, prev, next, i64::MAX).is_none());
    // non-adjacent nodes are refused whatever the threshold
    assert!(gray_matter::graph::node_to_add(&g, prev, prev, 0).is_none());
    // a short-enough threshold yields the midpoint
    let added = gray_matter::graph::node_to_add(&g, prev, next, 0).unwrap();
    assert_eq!(added.n.prev_id, prev);
    assert_eq!(added.n.next_id, next);
}

#[test]
fn deletion_candidate_requires_a_short_adjacent_edge() {
    let g = circular_graph(0.0, 0.0, 1.0, 12);
    let prev = 7usize;
    let next = g.nodes[prev].next_id;
    assert!(gray_matter::graph::node_to_delete(&g, prev, next, 0).is_none());
    assert_eq!(gray_matter::graph::node_to_delete(&g, prev, next, i64::MAX), Some(prev));
}
