use score_rs::free::{find_minimum_stop, optimize, OptimizeError};

// Fixes on a line at the given positions in meters.
fn line(xs: &[i64]) -> Vec<Vec<u32>> {
    (0..xs.len())
        .map(|i| (i..xs.len()).map(|j| (xs[j] - xs[i]).unsigned_abs() as u32).collect())
        .collect()
}

#[test]
fn degenerate_route_of_identical_fixes() {
    let route: Vec<i16> = vec![300; 7];
    let dist_matrix = line(&[0; 7]);
    let result = optimize(&route, &dist_matrix, 0, 6).unwrap();
    assert_eq!(result.distance, 0);
    assert_eq!(result.path, vec![0, 1, 2, 3, 4, 5, 6]);
}

#[test]
fn monotone_altitude_drop_has_no_valid_solution() {
    // 1500 units lost evenly over the only possible path
    let route: Vec<i16> = vec![1500, 1250, 1000, 750, 500, 250, 0];
    let dist_matrix = line(&[0, 1000, 2000, 3000, 4000, 5000, 6000]);
    assert_eq!(
        optimize(&route, &dist_matrix, 0, 6).err(),
        Some(OptimizeError::NoValidSolution)
    );
}

#[test]
fn short_route_is_empty_input() {
    let route: Vec<i16> = vec![0; 3];
    let dist_matrix = line(&[0, 1, 2]);
    assert_eq!(
        optimize(&route, &dist_matrix, 0, 3).err(),
        Some(OptimizeError::EmptyInput)
    );
    let empty: Vec<i16> = Vec::new();
    let no_rows: Vec<Vec<u32>> = Vec::new();
    assert_eq!(
        optimize(&empty, &no_rows, 0, 1).err(),
        Some(OptimizeError::EmptyInput)
    );
}

// The seed (best compliant path of the unconstrained table) is 2 -> 3; only
// solving start 0 finds 0 -> 1.
fn seeded_route() -> (Vec<i16>, Vec<Vec<u32>>) {
    (vec![2000, 1000, 900, 0], line(&[0, 25_000, 20_000, 30_000]))
}

#[test]
fn search_beats_the_seed() {
    let (route, dist_matrix) = seeded_route();
    let result = optimize(&route, &dist_matrix, 0, 1).unwrap();
    assert_eq!(result.path, vec![0, 1]);
    assert_eq!(result.distance, 25_000);
}

#[test]
fn break_at_above_every_bound_returns_the_seed() {
    let (route, dist_matrix) = seeded_route();
    let result = optimize(&route, &dist_matrix, 40_000, 1).unwrap();
    assert_eq!(result.path, vec![2, 3]);
    assert_eq!(result.distance, 10_000);
}

#[test]
fn repeated_calls_give_identical_results() {
    let route: Vec<i16> = vec![900, 1200, 300, 800, 2500, 100, 700, 1600, 400, 0];
    let dist_matrix = line(&[0, 4_000, 1_500, 9_000, 2_000, 12_000, 6_500, 3_000, 11_000, 8_000]);
    let first = optimize(&route, &dist_matrix, 0, 3).unwrap();
    let second = optimize(&route, &dist_matrix, 0, 3).unwrap();
    assert_eq!(first.path, second.path);
    assert_eq!(first.distance, second.distance);
    assert_eq!(first.path.len(), 4);
    for w in first.path.windows(2) {
        assert!(w[0] < w[1]);
    }
    assert!(route[first.path[0]] as i32 - route[first.path[3]] as i32 <= 1000);
}

#[test]
fn minimum_stop_not_found_when_fix_to_fix_is_short() {
    // fix 0 to fix 2 is far, yet the consecutive legs are zero
    let route: Vec<i16> = vec![2000, 0, 0];
    let dist_matrix = vec![vec![0, 0, 100], vec![0, 0], vec![0]];
    assert_eq!(
        optimize(&route, &dist_matrix, 0, 1).err(),
        Some(OptimizeError::MinimumStopNotFound)
    );
}

#[test]
fn minimum_stop_is_first_prefix_beyond_distance() {
    let dist_matrix = line(&[0, 10, 30, 60]);
    assert_eq!(find_minimum_stop(&dist_matrix, 5), Some(0));
    assert_eq!(find_minimum_stop(&dist_matrix, 10), Some(1));
    assert_eq!(find_minimum_stop(&dist_matrix, 45), Some(2));
    assert_eq!(find_minimum_stop(&dist_matrix, 60), None);
    assert_eq!(find_minimum_stop(&line(&[0]), -1), None);
}
