use bounded_hop::model::Point;
use bounded_hop::solver::fast_and_maybe_wrong;

fn pt(x: i64, y: i64, z: i64) -> Point {
    Point { x, y, z }
}

/// The pairwise planar distances of the points, rounded to whole units:
/// the upper region (i < j) is filled, the rest stays zero and unused.
fn planar_distances(points: &Vec<Point>) -> Vec<Vec<u32>> {
    let n = points.len();
    let mut d = vec![vec![0u32; n]; n];
    for j in 1..n {
        for i in 0..j {
            let dx = (points[j].x - points[i].x) as f64;
            let dy = (points[j].y - points[i].y) as f64;
            d[i][j] = f64::hypot(dx, dy).round() as u32;
        }
    }
    d
}

fn path_sum(d: &Vec<Vec<u32>>, path: &Vec<usize>) -> u64 {
    let mut total: u64 = 0;
    for t in 0..path.len() - 1 {
        total += d[path[t]][path[t + 1]] as u64;
    }
    total
}

#[test]
fn concrete_scenario_four_points() {
    // Points on a vertical line; index order forbids revisiting lower
    // indices, so with two hops the best chain is 0 -> 2 -> 3
    // (20 + 15), beating 0 -> 1 -> 2 (10 + 10) and the single edge
    // 0 -> 2 (20).
    let points = vec![pt(0, 0, 0), pt(0, 10, 0), pt(0, 20, 0), pt(0, 5, 0)];
    let d = planar_distances(&points);
    assert_eq!(d[0][1], 10);
    assert_eq!(d[0][2], 20);
    assert_eq!(d[0][3], 5);
    assert_eq!(d[1][2], 10);
    assert_eq!(d[1][3], 5);
    assert_eq!(d[2][3], 15);
    let (total, path) = fast_and_maybe_wrong(4, 2, &points, &d);
    assert_eq!(total, 35);
    assert_eq!(path, vec![0usize, 2, 3]);
}

#[test]
fn single_hop_picks_longest_admissible_edge() {
    let points = vec![pt(0, 0, 0), pt(0, 0, 0), pt(0, 0, 0)];
    let d = vec![vec![0u32, 5, 7], vec![0u32, 0, 6], vec![0u32, 0, 0]];
    let (total, path) = fast_and_maybe_wrong(3, 1, &points, &d);
    assert_eq!(total, 7);
    assert_eq!(path, vec![0usize, 2]);
}

#[test]
fn single_hop_respects_gate() {
    // Point 0 stands more than the margin above both others, so with a
    // single hop (which is also the final level) only 1 -> 2 remains.
    let points = vec![pt(0, 0, 5000), pt(0, 0, 0), pt(0, 0, 0)];
    let d = vec![vec![0u32, 5, 7], vec![0u32, 0, 6], vec![0u32, 0, 0]];
    let (total, path) = fast_and_maybe_wrong(3, 1, &points, &d);
    assert_eq!(total, 6);
    assert_eq!(path, vec![1usize, 2]);
}

#[test]
fn gate_blocking_every_pair_yields_zero() {
    // Every pair in index order descends by more than the margin, so
    // level K admits no transition at all and the total collapses to
    // zero with a single-point path.
    let points = vec![pt(0, 0, 3000), pt(0, 0, 1500), pt(0, 0, 0)];
    let d = vec![vec![0u32, 50, 80], vec![0u32, 0, 60], vec![0u32, 0, 0]];
    let (total, path) = fast_and_maybe_wrong(3, 2, &points, &d);
    assert_eq!(total, 0);
    assert_eq!(path, vec![0usize]);
}

#[test]
fn gate_applies_to_final_level_not_final_edge() {
    // The steep descent 0 -> 1 is forbidden while filling the final
    // level, but lower levels may still use it; the best path therefore
    // keeps that edge, grown at level 1, and only its last growth step
    // had to be admissible.
    let points = vec![pt(0, 0, 5000), pt(0, 0, 0), pt(0, 0, 0)];
    let d = vec![vec![0u32, 100, 1], vec![0u32, 0, 10], vec![0u32, 0, 0]];
    let (total, path) = fast_and_maybe_wrong(3, 2, &points, &d);
    assert_eq!(total, 110);
    assert_eq!(path, vec![0usize, 1, 2]);
}

#[test]
fn identical_inputs_give_identical_results() {
    let points = vec![
        pt(12, 7, 400),
        pt(90, 3, 2200),
        pt(44, 61, 100),
        pt(8, 80, 900),
        pt(70, 70, 1500),
    ];
    let d = planar_distances(&points);
    let (total_a, path_a) = fast_and_maybe_wrong(5, 3, &points, &d);
    let (total_b, path_b) = fast_and_maybe_wrong(5, 3, &points, &d);
    assert_eq!(total_a, total_b);
    assert_eq!(path_a, path_b);
}

#[test]
fn larger_budget_never_hurts_when_gate_free() {
    let points = vec![
        pt(0, 0, 0),
        pt(35, 12, 100),
        pt(10, 44, 200),
        pt(81, 9, 300),
        pt(60, 60, 400),
    ];
    let d = planar_distances(&points);
    let (total_1, _) = fast_and_maybe_wrong(5, 1, &points, &d);
    let (total_2, _) = fast_and_maybe_wrong(5, 2, &points, &d);
    let (total_3, _) = fast_and_maybe_wrong(5, 3, &points, &d);
    assert!(total_1 <= total_2);
    assert!(total_2 <= total_3);
}

#[test]
fn returned_path_is_valid() {
    let points = vec![
        pt(3, 1, 0),
        pt(55, 23, 500),
        pt(17, 90, 250),
        pt(42, 42, 750),
        pt(95, 5, 1250),
        pt(66, 77, 300),
    ];
    let d = planar_distances(&points);
    let k: usize = 3;
    let (total, path) = fast_and_maybe_wrong(6, k, &points, &d);
    assert!(1 <= path.len() && path.len() <= k + 1);
    for t in 0..path.len() {
        assert!(path[t] < 6);
    }
    for t in 0..path.len() - 1 {
        assert!(path[t] < path[t + 1]);
    }
    assert_eq!(total, path_sum(&d, &path));
    assert!(total > 0);
}

#[test]
fn single_point_gives_empty_walk() {
    let points = vec![pt(5, 5, 5)];
    let d = vec![vec![0u32]];
    let (total, path) = fast_and_maybe_wrong(1, 4, &points, &d);
    assert_eq!(total, 0);
    assert_eq!(path, vec![0usize]);
}

#[test]
fn terminal_tie_breaks_to_smallest_index() {
    // Both point 1 and point 2 can be reached over an edge of length 7;
    // the selection keeps the smaller terminal index.
    let points = vec![pt(0, 0, 0), pt(0, 0, 0), pt(0, 0, 0)];
    let d = vec![vec![0u32, 7, 7], vec![0u32, 0, 1], vec![0u32, 0, 0]];
    let (total, path) = fast_and_maybe_wrong(3, 1, &points, &d);
    assert_eq!(total, 7);
    assert_eq!(path, vec![0usize, 1]);
}

#[test]
fn predecessor_tie_keeps_earliest_source() {
    // Point 2 is reachable at distance 9 from both 0 and 1; the fill
    // keeps the earliest source, so the path starts at 0.
    let points = vec![pt(0, 0, 0), pt(0, 0, 0), pt(0, 0, 0)];
    let d = vec![vec![0u32, 1, 9], vec![0u32, 0, 9], vec![0u32, 0, 0]];
    let (total, path) = fast_and_maybe_wrong(3, 1, &points, &d);
    assert_eq!(total, 9);
    assert_eq!(path, vec![0usize, 2]);
}

#[test]
fn all_zero_distances_collapse_to_start() {
    let points = vec![pt(0, 0, 0), pt(0, 0, 0), pt(0, 0, 0)];
    let d = vec![vec![0u32; 3]; 3];
    let (total, path) = fast_and_maybe_wrong(3, 2, &points, &d);
    assert_eq!(total, 0);
    assert_eq!(path, vec![0usize]);
}

#[test]
fn budget_beyond_longest_chain_stops_at_restart() {
    // Ten hops of budget, but only two edges exist in index order: the
    // walk stops at the zero-cost restart and the path stays short.
    let points = vec![pt(0, 0, 0), pt(0, 0, 0), pt(0, 0, 0)];
    let d = vec![vec![0u32, 4, 3], vec![0u32, 0, 5], vec![0u32, 0, 0]];
    let (total, path) = fast_and_maybe_wrong(3, 10, &points, &d);
    assert_eq!(total, 9);
    assert_eq!(path, vec![0usize, 1, 2]);
}
