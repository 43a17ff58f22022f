use gray_matter::effects::{
    apply_changes, revert_changes, smooth_change_out, NodeChange, NodeChangeMap, Smooth,
};
use gray_matter::graph::{cyclic_graph_from_coords, Graph};
use gray_matter::SCALE;

fn circular_graph(center_x: f64, center_y: f64, radius: f64, num_points: usize) -> Graph {
    let mut coords = Vec::new();
    for i in 0..num_points {
        let angle = i as f64 * 2.0 * std::f64::consts::PI / num_points as f64;
        let x = center_x + angle.cos() * radius;
        let y = center_y + angle.sin() * radius;
        coords.push(((x * SCALE as f64).round() as i64, (y * SCALE as f64).round() as i64));
    }
    cyclic_graph_from_coords(&coords)
}

fn area2(g: &Graph) -> i128 {
    gray_matter::graph::area(g)
}

#[test]
fn change_is_applied_and_reversed() {
    let size_of_test_circ = 40;

    let mut test_circ = circular_graph(0.0, 0.0, 1.0, size_of_test_circ);
    let area_before = area2(&test_circ);
    let change = NodeChange {
        id: 1,
        cur_x: test_circ.nodes[1].x,
        cur_y: test_circ.nodes[1].y,
        delta_x: 7 * SCALE,
        delta_y: 10 * SCALE,
    };
    let mut changes = NodeChangeMap::new();
    changes.insert(1, change);

    apply_changes(&mut test_circ, &changes);
    let area_after_applying = area2(&test_circ);

    assert!(area_before < area_after_applying);

    revert_changes(&mut test_circ, &changes);
    let area_after_reverting = area2(&test_circ);

    assert_eq!(area_after_reverting, area_before);
}

#[test]
fn random_node_is_changed() {
    let size_of_test_circ = 40;

    let mut test_circ = circular_graph(0.0, 0.0, 1.0, size_of_test_circ);
    let area_before = area2(&test_circ);

    let low = (0.01 * SCALE as f64) as i64;
    let high = (0.02 * SCALE as f64) as i64;
    let change = gray_matter::effects::random_change(&test_circ, (low, high));
    let mut changes = NodeChangeMap::new();
    changes.insert(change.id, change);

    apply_changes(&mut test_circ, &changes);
    let area_after_applying = area2(&test_circ);

    assert_ne!(area_before, area_after_applying);
}

#[test]
fn round_trip_restores_every_position_and_link() {
    let mut g = circular_graph(0.0, 0.0, 1.0, 24);
    let before = g.nodes.clone();

    let mut changes = NodeChangeMap::new();
    for id in [0usize, 3, 7, 23] {
        changes.insert(
            id,
            NodeChange {
                id,
                cur_x: g.nodes[id].x,
                cur_y: g.nodes[id].y,
                delta_x: (id as i64 + 1) * 1000,
                delta_y: -(id as i64 + 1) * 500,
            },
        );
    }
    apply_changes(&mut g, &changes);
    assert_ne!(g.nodes[3], before[3]);
    revert_changes(&mut g, &changes);
    for id in 0..24usize {
        assert_eq!(g.nodes[id], before[id]);
    }
}

#[test]
fn inserting_twice_averages_the_deltas() {
    let mut changes = NodeChangeMap::new();
    let first = NodeChange { id: 5, cur_x: 100, cur_y: 200, delta_x: 2000, delta_y: 4000 };
    let second = NodeChange { id: 5, cur_x: 100, cur_y: 200, delta_x: 4000, delta_y: -2000 };
    changes.insert(5, first);
    changes.insert(5, second);
    let stored = changes.get(5).unwrap();
    assert_eq!(stored.delta_x, 3000);
    assert_eq!(stored.delta_y, 1000);
    assert_eq!(stored.cur_x, 100);
    assert_eq!(stored.cur_y, 200);
    assert_eq!(changes.len(), 1);
}

#[test]
fn smoothing_decays_linearly_with_hop_count() {
    let g = circular_graph(0.0, 0.0, 1.0, 12);
    let change = NodeChange {
        id: 0,
        cur_x: g.nodes[0].x,
        cur_y: g.nodes[0].y,
        delta_x: 1000,
        delta_y: -600,
    };
    let smoothed = smooth_change_out(&g, change, Smooth::Count(2));
    // the change at the perturbed node itself is kept exactly
    let center = smoothed.get(0).unwrap();
    assert_eq!(center.delta_x, 1000);
    assert_eq!(center.delta_y, -600);
    // one hop away the delta has decayed to half
    let next = smoothed.get(g.nodes[0].next_id).unwrap();
    assert_eq!(next.delta_x, 500);
    assert_eq!(next.delta_y, -300);
    let prev = smoothed.get(g.nodes[0].prev_id).unwrap();
    assert_eq!(prev.delta_x, 500);
    assert_eq!(prev.delta_y, -300);
    // two hops away the budget is spent
    let two = smoothed.get(g.nodes[g.nodes[0].next_id].next_id).unwrap();
    assert_eq!(two.delta_x, 0);
    assert_eq!(two.delta_y, 0);
}

#[test]
fn smoothing_with_distance_budget_covers_nearby_nodes() {
    let g = circular_graph(0.0, 0.0, 1.0, 36);
    let change = NodeChange {
        id: 6,
        cur_x: g.nodes[6].x,
        cur_y: g.nodes[6].y,
        delta_x: 800,
        delta_y: 0,
    };
    let budget = SCALE / 2;
    let smoothed = smooth_change_out(&g, change, Smooth::Continuous(budget));
    assert!(smoothed.len() >= 3);
    let center = smoothed.get(6).unwrap();
    assert_eq!(center.delta_x, 800);
}
