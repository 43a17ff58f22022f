use gray_matter::graph::{cyclic_graph_from_coords, Graph, ThickSurface};
use gray_matter::stitcher::{greedy, merge_allowed, stitch, stitch_default, Stitching};
use gray_matter::SCALE;

fn circular_graph(center_x: f64, center_y: f64, radius: f64, num_points: usize) -> Graph {
    let mut coords = Vec::new();
    for i in 0..num_points {
        let angle = i as f64 * 2.0 * std::f64::consts::PI / num_points as f64;
        let x = center_x + angle.cos() * radius;
        let y = center_y + angle.sin() * radius;
        coords.push(((x * SCALE as f64).round() as i64, (y * SCALE as f64).round() as i64));
    }
    cyclic_graph_from_coords(&coords)
}

fn circular_thick_surface(radius: f64, thickness: f64, num_points: usize) -> ThickSurface {
    ThickSurface::new(
        circular_graph(0.0, 0.0, radius, num_points),
        circular_graph(0.0, 0.0, radius - thickness, num_points),
    )
}

fn check_symmetry_and_coverage(ts: &ThickSurface, s: &Stitching) {
    let out_n = ts.layers[0].nodes.len();
    let inn_n = ts.layers[1].nodes.len();
    for o in 0..out_n {
        let partners = s.get(0, o);
        assert!(!partners.is_empty());
        for &i in &partners {
            assert!(i < inn_n);
            let back = s.get(1, i);
            assert!(back.contains(&o));
        }
    }
    for i in 0..inn_n {
        let partners = s.get(1, i);
        assert!(!partners.is_empty());
        for &o in &partners {
            assert!(o < out_n);
            let back = s.get(0, o);
            assert!(back.contains(&i));
        }
    }
}

#[test]
fn greedy_stitching_is_symmetric_and_total() {
    let ts = circular_thick_surface(1.0, 0.3, 20);
    let s = greedy(&ts);
    check_symmetry_and_coverage(&ts, &s);
}

#[test]
fn default_stitching_is_symmetric_and_total() {
    let ts = circular_thick_surface(1.0, 0.2, 14);
    let s = stitch_default(&ts);
    check_symmetry_and_coverage(&ts, &s);
}

#[test]
fn stitching_works_with_unequal_layer_sizes() {
    let ts = ThickSurface::new(
        circular_graph(0.0, 0.0, 1.0, 23),
        circular_graph(0.0, 0.0, 0.8, 11),
    );
    let s = stitch(&ts);
    check_symmetry_and_coverage(&ts, &s);
}

#[test]
fn closest_correspondent_minimizes_distance() {
    let ts = circular_thick_surface(1.0, 0.4, 16);
    let s = stitch(&ts);
    let node = ts.layers[0].nodes[5];
    let best = s.get_closest_correspondent(0, 5, node.x, node.y);
    let partners = s.get(0, 5);
    assert!(partners.contains(&best));
    let d = |i: usize| {
        let n = ts.layers[1].nodes[i];
        let dx = (n.x - node.x) as i128;
        let dy = (n.y - node.y) as i128;
        dx * dx + dy * dy
    };
    for &p in &partners {
        assert!(d(best) <= d(p));
    }
}

#[test]
fn one_edge_is_recorded_per_advance() {
    let ts = circular_thick_surface(1.0, 0.25, 18);
    let out_n = ts.layers[0].nodes.len();
    let inn_n = ts.layers[1].nodes.len();
    for s in [greedy(&ts), stitch_default(&ts)] {
        let outer_total: usize = (0..out_n).map(|o| s.get(0, o).len()).sum();
        let inner_total: usize = (0..inn_n).map(|i| s.get(1, i).len()).sum();
        assert_eq!(outer_total, out_n + inn_n + 1);
        assert_eq!(inner_total, out_n + inn_n + 1);
    }
}

#[test]
fn merging_away_a_sole_correspondent_is_refused() {
    // a hand-built correspondence: inner node 0 is stitched only to
    // outer node 0, inner node 1 to outer nodes 0 and 1
    let mut s = Stitching::new(2, 2);
    s.put((0, 0, 0), (0, 0, 0));
    s.put((1, 0, 0), (0, 0, 0));
    s.put((1, 0, 0), (1, 0, 0));
    // removing outer node 0 would leave inner node 0 unstitched
    assert!(!merge_allowed(&s, 0, 0));
    // removing outer node 1 is fine: its only partner keeps outer 0
    assert!(merge_allowed(&s, 0, 1));
}
