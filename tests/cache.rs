use score_rs::cache::{Cache, CacheItem};
use score_rs::graph::StartCandidate;

// Two fixes (0, 0) and (1, 1) km apart: 1414 m.
fn two_fixes() -> Vec<Vec<u32>> {
    vec![vec![0, 1414], vec![0]]
}

#[test]
fn test_item_with_super_set_does_not_place_upperbound() {
    // set a high best distance to make sure the cache item stays below
    let dist_matrix = two_fixes();
    let candidate = StartCandidate {
        start: 0,
        distance: 0,
    };
    let best_distance = 1_000_000;

    let super_set: Vec<usize> = vec![0, 1];
    let sub_set: Vec<usize> = vec![0];

    // set the item with the super set in the cache
    let item = CacheItem {
        start: 0,
        last_stop: 0,
        stop_set: super_set,
        distance: 0,
    };

    assert_eq!(
        item.places_upperbound(&dist_matrix, &candidate, best_distance, &sub_set),
        None
    );
}

#[test]
fn test_item_with_sub_set_places_upperbound() {
    let dist_matrix = two_fixes();
    let candidate = StartCandidate {
        start: 0,
        distance: 0,
    };

    // set a high best distance to make sure the cache item stays below
    let best_distance = 1_000_000;

    let super_set: Vec<usize> = vec![0, 1];
    let sub_set: Vec<usize> = vec![0];

    let item = CacheItem {
        start: 0,
        last_stop: 0,
        stop_set: sub_set,
        distance: 0,
    };
    assert!(item
        .places_upperbound(&dist_matrix, &candidate, best_distance, &super_set)
        .is_some());
}

#[test]
fn test_item_with_sub_set_but_bigger_distance() {
    let dist_matrix = two_fixes();
    let candidate = StartCandidate {
        start: 0,
        distance: 100_000,
    };
    // set a high best distance to make sure the item exceeds this
    let best_distance = 1_000;

    let super_set: Vec<usize> = vec![0, 1];
    let sub_set: Vec<usize> = vec![0];

    let item = CacheItem {
        start: 0,
        last_stop: 0,
        stop_set: sub_set,
        distance: 100_000,
    };

    assert!(item
        .places_upperbound(&dist_matrix, &candidate, best_distance, &super_set)
        .is_none());
}

#[test]
fn test_set_preserves_order() {
    let mut cache = Cache::new();
    let first_item = CacheItem {
        start: 0,
        last_stop: 1,
        stop_set: Vec::new(),
        distance: 0,
    };
    let second_item = CacheItem {
        start: 1,
        last_stop: 2,
        stop_set: Vec::new(),
        distance: 0,
    };
    cache.set(first_item);
    cache.set(second_item);
    assert_eq!(cache.get(1).map(|item| item.start), Some(1));
}

#[test]
fn test_empty_cache_returns_false() {
    let dist_matrix = two_fixes();
    let candidate = StartCandidate {
        start: 0,
        distance: 0,
    };
    let best_distance = 0;
    let stop_set: Vec<usize> = Vec::new();

    let mut cache = Cache::new();
    assert_eq!(
        cache.check(&dist_matrix, &candidate, best_distance, &stop_set),
        false
    );
}

#[test]
fn test_cache_with_sub_set_item_returns_true() {
    let dist_matrix = two_fixes();
    let candidate = StartCandidate {
        start: 0,
        distance: 0,
    };

    // set a high best distance to make sure the cache item stays below
    let best_distance = 1_000_000;

    let super_set: Vec<usize> = vec![0, 1];
    let sub_set: Vec<usize> = vec![0];

    let mut cache = Cache::new();
    let item = CacheItem {
        start: 0,
        last_stop: 0,
        stop_set: sub_set,
        distance: 0,
    };
    cache.set(item);
    assert_eq!(
        cache.check(&dist_matrix, &candidate, best_distance, &super_set),
        true
    );
}

// Three fixes on a line at 0, 3 and 7 km.
fn line() -> Vec<Vec<u32>> {
    vec![vec![0, 3000, 7000], vec![0, 4000], vec![0]]
}

#[test]
fn upper_bound_adds_start_offset_and_longest_extra_stop() {
    let item = CacheItem {
        start: 0,
        last_stop: 0,
        stop_set: vec![0],
        distance: 500,
    };
    let candidate = StartCandidate {
        start: 1,
        distance: 0,
    };
    // 500 + d(0, 1) + max(d(0, 1), d(0, 2)) = 500 + 3000 + 7000
    assert_eq!(
        item.places_upperbound(&line(), &candidate, 20_000, &vec![0, 1, 2]),
        Some(10_500)
    );
    // at the best distance itself the item still prunes
    assert_eq!(
        item.places_upperbound(&line(), &candidate, 10_500, &vec![0, 1, 2]),
        Some(10_500)
    );
    assert_eq!(
        item.places_upperbound(&line(), &candidate, 10_499, &vec![0, 1, 2]),
        None
    );
    // with no extra stop only the start offset counts
    assert_eq!(
        item.places_upperbound(&line(), &candidate, 20_000, &vec![0]),
        Some(3_500)
    );
}

#[test]
fn check_uses_latest_item_that_prunes() {
    let mut cache = Cache::new();
    cache.set(CacheItem {
        start: 0,
        last_stop: 2,
        stop_set: vec![2],
        distance: 100,
    });
    cache.set(CacheItem {
        start: 1,
        last_stop: 2,
        stop_set: vec![2],
        distance: 200,
    });
    let candidate = StartCandidate {
        start: 1,
        distance: 0,
    };
    // the latest item gives 200 + d(1, 1) = 200; the first would give 3100
    assert!(cache.check(&line(), &candidate, 5_000, &vec![2]));
    // the pruned candidate is now cached with its bound: it prunes itself
    assert!(cache.check(&line(), &candidate, 200, &vec![2]));
    assert!(!cache.check(&line(), &candidate, 199, &vec![2]));
}

#[test]
fn check_fails_when_no_item_is_a_subset() {
    let mut cache = Cache::new();
    cache.set(CacheItem {
        start: 0,
        last_stop: 2,
        stop_set: vec![1, 2],
        distance: 0,
    });
    let candidate = StartCandidate {
        start: 0,
        distance: 0,
    };
    assert!(!cache.check(&line(), &candidate, 1_000_000, &vec![2]));
}
