use score_rs::graph::StartCandidate;
use score_rs::result::{Bound, OptimizationResult};

// Fixes on the diagonal (i, i) km: |i - j| * 1414 m apart.
fn diagonal(n: usize) -> Vec<Vec<u32>> {
    (0..n)
        .map(|i| (i..n).map(|j| ((j - i) * 1414) as u32).collect())
        .collect()
}

#[test]
fn bound_finds_min_and_max() {
    let candidates = vec![
        StartCandidate {
            start: 100,
            distance: 0,
        },
        StartCandidate {
            start: 20,
            distance: 0,
        },
    ];
    let bound = Bound::from(candidates.as_slice());
    assert_eq!(bound.start, 20);
    assert_eq!(bound.stop, 100);
}

#[test]
fn optimize_by_sliding_produces_better_result() {
    let route: Vec<i16> = vec![0; 5];
    let result = OptimizationResult {
        path: vec![1, 1, 1],
        distance: 100,
    };
    let dist_matrix = diagonal(5);
    let start_window = Bound { start: 0, stop: 5 };
    let improved = result.optimize_by_sliding(&route, &dist_matrix, &start_window);
    assert_eq!(improved.unwrap().path, vec![0, 1, 4]);
}

#[test]
fn new_result_sums_the_legs() {
    let dist_matrix = diagonal(6);
    let result = OptimizationResult::new(vec![0, 2, 5], &dist_matrix);
    assert_eq!(result.path, vec![0, 2, 5]);
    assert_eq!(result.distance, 5 * 1414);
}

#[test]
fn slide_keeps_inner_turnpoints_and_recomputes_distance() {
    let dist_matrix = diagonal(8);
    let route: Vec<i16> = vec![0; 8];
    let result = OptimizationResult {
        path: vec![2, 3, 4, 5],
        distance: 3 * 1414,
    };
    let window = Bound { start: 0, stop: 7 };
    let improved = result
        .optimize_by_sliding(&route, &dist_matrix, &window)
        .unwrap();
    assert_eq!(improved.path, vec![0, 3, 4, 7]);
    assert_eq!(improved.distance, 7 * 1414);
}

#[test]
fn slide_respects_altitude_rule() {
    let dist_matrix = diagonal(8);
    // a start at fix 0 or 1 lies too high for any finish after fix 5
    let route: Vec<i16> = vec![2000, 2000, 500, 500, 500, 500, 0, 0];
    let result = OptimizationResult {
        path: vec![2, 3, 4, 5],
        distance: 3 * 1414,
    };
    let window = Bound { start: 0, stop: 7 };
    let improved = result
        .optimize_by_sliding(&route, &dist_matrix, &window)
        .unwrap();
    assert_eq!(improved.path, vec![2, 3, 4, 7]);
    assert_eq!(improved.distance, 5 * 1414);
}

#[test]
fn slide_on_optimal_path_gives_no_gain() {
    let dist_matrix = diagonal(8);
    let route: Vec<i16> = vec![0; 8];
    let result = OptimizationResult {
        path: vec![0, 3, 4, 7],
        distance: 7 * 1414,
    };
    let window = Bound { start: 0, stop: 7 };
    assert!(result
        .optimize_by_sliding(&route, &dist_matrix, &window)
        .is_none());
}

#[test]
fn slide_of_zero_distances_gives_nothing() {
    let dist_matrix = vec![vec![0, 0, 0], vec![0, 0], vec![0]];
    let route: Vec<i16> = vec![0; 3];
    let result = OptimizationResult {
        path: vec![0, 1, 2],
        distance: 0,
    };
    let window = Bound { start: 0, stop: 3 };
    assert!(result
        .optimize_by_sliding(&route, &dist_matrix, &window)
        .is_none());
}

#[test]
fn slide_needs_three_turnpoints_and_an_allowed_pair() {
    let dist_matrix = diagonal(4);
    let route: Vec<i16> = vec![0; 4];
    let short = OptimizationResult {
        path: vec![0, 3],
        distance: 3 * 1414,
    };
    let window = Bound { start: 0, stop: 3 };
    assert!(short
        .optimize_by_sliding(&route, &dist_matrix, &window)
        .is_none());
    // the window lies after the second turnpoint: no start is allowed
    let late = OptimizationResult {
        path: vec![0, 1, 2],
        distance: 2 * 1414,
    };
    let window = Bound { start: 2, stop: 3 };
    assert!(late
        .optimize_by_sliding(&route, &dist_matrix, &window)
        .is_none());
}
