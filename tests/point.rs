use score_rs::point::{ApproxDistance, Valid};

#[test]
fn route_valid_for_negative_alt_diff() {
    let points: Vec<i16> = vec![-1000, 0];
    assert!(points.valid(0, 1));
}

#[test]
fn route_not_valid_for_high_alt_diff() {
    let points: Vec<i16> = vec![0, 2_000];
    assert!(points.valid(0, 1));
}

#[test]
fn drop_of_more_than_1000_is_not_valid() {
    let points: Vec<i16> = vec![1001, 0, 1000, i16::MIN, i16::MAX];
    assert!(!points.valid(0, 1));
    assert!(points.valid(2, 1));
    assert!(points.valid(3, 4));
    assert!(!points.valid(4, 3));
}

#[test]
fn approx_distance_between_two_points() {
    // (0, 0) and (1, 1) km apart
    let dist_matrix = vec![vec![0, 1414], vec![0]];
    assert_eq!(dist_matrix.as_slice().distance(0, 1), 1414);
    assert_eq!(dist_matrix.as_slice().distance(1, 0), 1414);
}

#[test]
fn approx_distance_same_points_is_zero() {
    let dist_matrix = vec![vec![0, 1414], vec![0]];
    assert_eq!(dist_matrix.as_slice().distance(0, 0), 0);
}

#[test]
fn approx_cum_distance_adds_up() {
    // (0, 0), (0, 1) and (3, 5) km
    let dist_matrix = vec![vec![0, 1000, 5831], vec![0, 5000], vec![0]];
    let path = vec![0, 1, 2];
    assert_eq!(dist_matrix.as_slice().cum_distance(&path), 6000);
    assert_eq!(dist_matrix.as_slice().cum_distance(&vec![2, 0]), 5831);
    assert_eq!(dist_matrix.as_slice().cum_distance(&vec![1]), 0);
}
