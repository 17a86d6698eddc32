use score_rs::graph::{Graph, StartCandidate};

// Fixes on a line at the given positions in meters.
fn line(xs: &[i64]) -> Vec<Vec<u32>> {
    (0..xs.len())
        .map(|i| (i..xs.len()).map(|j| (xs[j] - xs[i]).unsigned_abs() as u32).collect())
        .collect()
}

#[test]
fn layers_shrink_and_hold_best_distances() {
    let dist_matrix = line(&[0, 10, 5, 20, 15]);
    let graph = Graph::from_distance_matrix(&dist_matrix, 2);
    assert_eq!(graph.g.len(), 2);
    assert_eq!(graph.g[0].len(), 4);
    assert_eq!(graph.g[1].len(), 3);
    // one leg from fix 0: the farthest later fix is 3
    assert_eq!(graph.g[0][0].prev_index, 3);
    assert_eq!(graph.g[0][0].distance, 20);
    // two legs from fix 0: 0 -> 1 -> 3 and 0 -> 2 -> 3 give 20,
    // 0 -> 3 -> 4 gives 25
    assert_eq!(graph.g[1][0].distance, 25);
    assert_eq!(graph.g[1][0].prev_index, 3);
}

#[test]
fn top_cell_bounds_every_path_from_its_start() {
    let xs = [0, 7, 3, 12, 1, 9];
    let dist_matrix = line(&xs);
    let graph = Graph::from_distance_matrix(&dist_matrix, 2);
    for a in 0..xs.len() {
        for b in a + 1..xs.len() {
            for c in b + 1..xs.len() {
                let sum = (xs[b] - xs[a]).abs() + (xs[c] - xs[b]).abs();
                assert!(sum <= graph.g[1][a].distance);
            }
        }
    }
}

#[test]
fn best_valid_solution_skips_paths_breaking_altitude_rule() {
    let dist_matrix = line(&[0, 25, 20, 30]);
    let route: Vec<i16> = vec![2000, 1000, 900, 0];
    let graph = Graph::from_distance_matrix(&dist_matrix, 1);
    let best = graph.find_best_valid_solution(&route).unwrap();
    assert_eq!(best.path, vec![2, 3]);
    assert_eq!(best.distance, 10);
    let any = graph.find_best_solution(&route);
    assert_eq!(any.path, vec![0, 3]);
    assert_eq!(any.distance, 30);
}

#[test]
fn no_valid_solution_when_every_path_drops_too_far() {
    let dist_matrix = line(&[0, 1, 2]);
    let route: Vec<i16> = vec![3000, 1500, 0];
    let graph = Graph::from_distance_matrix(&dist_matrix, 1);
    assert!(graph.find_best_valid_solution(&route).is_none());
}

#[test]
fn candidate_graph_penalizes_finishes_too_low() {
    let dist_matrix = line(&[0, 25, 20, 30]);
    let route: Vec<i16> = vec![2000, 1000, 900, 0];
    let candidate = StartCandidate::new(30, 0);
    let graph = Graph::for_candidate(&candidate, &dist_matrix, &route, 1);
    assert_eq!(graph.g[0][0].prev_index, 1);
    assert_eq!(graph.g[0][0].distance, 25);
    assert_eq!(graph.g[0][2].distance, 10 - 4_611_686_018_427_387_904);
    let best = graph.find_best_valid_solution(&route).unwrap();
    assert_eq!(best.path, vec![0, 1]);
    assert_eq!(best.distance, 25);
}

#[test]
fn start_candidates_come_in_ascending_order() {
    let dist_matrix = line(&[0, 30, 5, 10, 40]);
    let graph = Graph::from_distance_matrix(&dist_matrix, 1);
    // top cells: 0 -> 40, 1 -> 25 (to 2), 2 -> 35, 3 -> 30
    let candidates = graph.get_start_candidates(26);
    let got: Vec<(i64, usize)> = candidates.iter().map(|c| (c.distance, c.start)).collect();
    assert_eq!(got, vec![(30, 3), (35, 2), (40, 0)]);
    assert!(graph.get_start_candidates(40).is_empty());
}

#[test]
fn equal_candidates_are_ordered_by_start() {
    let dist_matrix = line(&[0, 10, 0, 10]);
    let graph = Graph::from_distance_matrix(&dist_matrix, 1);
    let candidates = graph.get_start_candidates(0);
    let got: Vec<(i64, usize)> = candidates.iter().map(|c| (c.distance, c.start)).collect();
    assert_eq!(got, vec![(10, 0), (10, 1), (10, 2)]);
}

#[test]
fn valid_stops_lie_after_start_and_minimum_stop() {
    let route: Vec<i16> = vec![1500, 2000, 400, 600, 500, 1000];
    let candidate = StartCandidate::new(0, 0);
    assert_eq!(candidate.get_valid_stops(&route, 0), vec![1, 3, 4, 5]);
    assert_eq!(candidate.get_valid_stops(&route, 3), vec![4, 5]);
    let last = StartCandidate::new(0, 5);
    assert!(last.get_valid_stops(&route, 0).is_empty());
}

#[test]
fn penalty_outweighs_any_distance() {
    // fix 2 is 4e9 m away but 2000 units below the start
    let dist_matrix = vec![vec![0, 0, 4_000_000_000], vec![0, 4_000_000_000], vec![0]];
    let route: Vec<i16> = vec![2000, 2000, 0];
    let candidate = StartCandidate::new(0, 0);
    let graph = Graph::for_candidate(&candidate, &dist_matrix, &route, 1);
    assert_eq!(graph.g[0][0].prev_index, 1);
    assert_eq!(graph.g[0][0].distance, 0);
    let best = graph.find_best_valid_solution(&route).unwrap();
    assert_eq!(best.path, vec![0, 1]);
    assert_eq!(best.distance, 0);
}

#[test]
fn cells_grow_with_leg_count_on_a_line() {
    let dist_matrix = line(&[0, 7, 3, 12, 1, 9, 4, 15]);
    let graph = Graph::from_distance_matrix(&dist_matrix, 4);
    for k in 0..3 {
        for i in 0..graph.g[k + 1].len() {
            assert!(graph.g[k][i].distance <= graph.g[k + 1][i].distance);
        }
    }
}
