use vstd::prelude::*;

use crate::cache::{bound_of, item_ok, Cache, CacheItem, ItemView};
use crate::graph::{
    candidates_ok, compliant, first_best, lemma_candidates_unique, lemma_first_best_unique,
    lemma_increasing_unique, lemma_links, lemma_table_unique, lemma_walk, stops_ok, table_ok, top,
    top_walk, Graph, GraphCell, StartCandidate,
};
use crate::point::{dist, in_route, is_increasing, is_triangular, path_sum, valid_spec, MAX_LEGS};
use crate::result::{slide_of, Bound, OptimizationResult};

verus! {

/// Why no path is returned.
#[derive(Debug, Clone, Copy, PartialEq, Eq)]
pub enum OptimizeError {
    /// The route has fewer fixes than the path needs.
    EmptyInput,
    /// No path that the unconstrained table reconstructs keeps the altitude
    /// rule.
    NoValidSolution,
    /// Going from fix to fix never covers more than the best path found.
    MinimumStopNotFound,
}

/// Distance covered going from fix to fix over the first `i` legs.
pub open spec fn consecutive_sum(m: Seq<Vec<u32>>, i: int) -> int
    decreases i,
{
    if i <= 0 {
        0
    } else {
        consecutive_sum(m, i - 1) + dist(m, i - 1, i)
    }
}

/// The first fix `i` such that going from fix to fix up to `i + 1` covers
/// more than `distance`: no path that ends at or before `i` can be longer.
pub fn find_minimum_stop(dist_matrix: &[Vec<u32>], distance: i64) -> (r: Option<usize>)
    requires
        is_triangular(dist_matrix@),
    ensures
        r is None <==> forall|j: int| 0 <= j < dist_matrix@.len() - 1
            ==> #[trigger] consecutive_sum(dist_matrix@, j + 1) <= distance,
        r matches Some(i) ==> {
            &&& i + 1 < dist_matrix@.len()
            &&& consecutive_sum(dist_matrix@, i + 1) > distance
            &&& forall|j: int| 0 <= j < i ==> #[trigger] consecutive_sum(dist_matrix@, j + 1) <= distance
        },
{
    let n = dist_matrix.len();
    if n == 0 {
        return None;
    }
    let mut sum: u128 = 0;
    let mut i: usize = 0;
    while i < n - 1
        invariant
            n == dist_matrix@.len(),
            n > 0,
            is_triangular(dist_matrix@),
            i < n,
            sum == consecutive_sum(dist_matrix@, i as int),
            sum <= i * (u32::MAX as int),
            forall|j: int| 0 <= j < i ==> #[trigger] consecutive_sum(dist_matrix@, j + 1) <= distance,
        decreases n - i,
    {
        proof {
            assert(dist_matrix@[i as int]@.len() == n - i);
        }
        sum = sum + dist_matrix[i][1] as u128;
        assert(sum == consecutive_sum(dist_matrix@, i + 1));
        if sum as i128 > distance as i128 {
            assert(consecutive_sum(dist_matrix@, i + 1) > distance);
            return Some(i);
        }
        i = i + 1;
    }
    None
}

/// `p` is a flight of `legs` legs: increasing fixes of the route whose
/// finish keeps the altitude rule against the start.
pub open spec fn is_flight(alts: Seq<i16>, p: Seq<usize>, legs: int) -> bool {
    &&& p.len() == legs + 1
    &&& is_increasing(p)
    &&& in_route(p, alts.len() as int)
    &&& valid_spec(alts, p[0] as int, p.last() as int)
}

/// No path that the unconstrained table reconstructs from its top layer
/// keeps the altitude rule.
pub open spec fn no_compliant_seed(m: Seq<Vec<u32>>, alts: Seq<i16>, legs: int) -> bool {
    forall|t: Seq<Seq<GraphCell>>| #[trigger] table_ok(m, alts, None, t) && t.len() == legs
        ==> forall|i: int| 0 <= i < top(t).len() ==> !#[trigger] compliant(t, alts, i)
}

/// `d` is at least the distance of every path that the unconstrained table
/// reconstructs from its top layer and that keeps the altitude rule.
pub open spec fn above_seeds(m: Seq<Vec<u32>>, alts: Seq<i16>, legs: int, d: int) -> bool {
    forall|t: Seq<Seq<GraphCell>>| #[trigger] table_ok(m, alts, None, t) && t.len() == legs
        ==> forall|i: int| 0 <= i < top(t).len() && #[trigger] compliant(t, alts, i) ==> top(t)[i].distance <= d
}

/// Every top-layer distance of the unconstrained table lies below `break_at`.
pub open spec fn seeds_below(m: Seq<Vec<u32>>, alts: Seq<i16>, legs: int, break_at: int) -> bool {
    forall|t: Seq<Seq<GraphCell>>| #[trigger] table_ok(m, alts, None, t) && t.len() == legs
        ==> forall|a: int| 0 <= a < top(t).len() ==> #[trigger] top(t)[a].distance < break_at
}

/// `w` spans the top-layer fixes whose distance exceeds `d`.
pub open spec fn window_of(t: Seq<Seq<GraphCell>>, d: int, w: Bound) -> bool {
    &&& exists|a: int| 0 <= a < top(t).len() && top(t)[a].distance > d && a == w.start
    &&& exists|a: int| 0 <= a < top(t).len() && top(t)[a].distance > d && a == w.stop
    &&& forall|a: int| 0 <= a < top(t).len() && #[trigger] top(t)[a].distance > d ==> w.start <= a <= w.stop
}

/// The window of the starts above `d` is fixed by the table.
pub proof fn lemma_window_unique(t: Seq<Seq<GraphCell>>, d: int, w1: Bound, w2: Bound)
    requires
        window_of(t, d, w1),
        window_of(t, d, w2),
    ensures
        w1 == w2,
{
    let a1 = choose|a: int| 0 <= a < top(t).len() && top(t)[a].distance > d && a == w1.start;
    let a2 = choose|a: int| 0 <= a < top(t).len() && top(t)[a].distance > d && a == w2.start;
    let b1 = choose|a: int| 0 <= a < top(t).len() && top(t)[a].distance > d && a == w1.stop;
    let b2 = choose|a: int| 0 <= a < top(t).len() && top(t)[a].distance > d && a == w2.stop;
    assert(w2.start <= a1 <= w2.stop);
    assert(w1.start <= a2 <= w1.stop);
    assert(w2.start <= b1 <= w2.stop);
    assert(w1.start <= b2 <= w1.stop);
}

/// The unconstrained table of `legs` layers.
pub open spec fn seed_table(m: Seq<Vec<u32>>, alts: Seq<i16>, legs: int) -> Seq<Seq<GraphCell>> {
    choose|t: Seq<Seq<GraphCell>>| table_ok(m, alts, None, t) && t.len() == legs
}

/// The top-layer fix of the best compliant path.
pub open spec fn seed_index(t: Seq<Seq<GraphCell>>, alts: Seq<i16>) -> int {
    choose|i: int| first_best(t, alts, true, i)
}

/// The top-layer fix of the best path, compliant or not.
pub open spec fn overall_index(t: Seq<Seq<GraphCell>>, alts: Seq<i16>) -> int {
    choose|j: int| first_best(t, alts, false, j)
}

/// Some top-layer fix has a distance above `d`.
pub open spec fn has_candidates(t: Seq<Seq<GraphCell>>, d: int) -> bool {
    exists|a: int| 0 <= a < top(t).len() && top(t)[a].distance > d
}

/// The window of the top-layer fixes whose distance exceeds `d`.
pub open spec fn window_for(t: Seq<Seq<GraphCell>>, d: int) -> Bound {
    choose|w: Bound| window_of(t, d, w)
}

/// `cand` where it is longer than `cur`, else `cur`.
pub open spec fn keep_longer(m: Seq<Vec<u32>>, cur: Seq<usize>, cand: Option<Seq<usize>>) -> Seq<usize> {
    match cand {
        Some(q) => if path_sum(m, q) > path_sum(m, cur) {
            q
        } else {
            cur
        },
        None => cur,
    }
}

/// The distance of the best compliant path of the unconstrained table.
pub open spec fn seed_distance(m: Seq<Vec<u32>>, alts: Seq<i16>, legs: int) -> int {
    let t = seed_table(m, alts, legs);
    top(t)[seed_index(t, alts)].distance as int
}

/// The best flight known before any start is solved on its own: the best
/// compliant path of the unconstrained table and, when some start may do
/// better, the longer of it and the slides of it and of the best path
/// overall.
pub open spec fn seed_result(m: Seq<Vec<u32>>, alts: Seq<i16>, legs: int) -> Seq<usize> {
    let t = seed_table(m, alts, legs);
    let b0 = top_walk(t, seed_index(t, alts));
    let d0 = seed_distance(m, alts, legs);
    if has_candidates(t, d0) {
        let w = window_for(t, d0);
        let b1 = keep_longer(m, b0, slide_of(m, alts, b0, w));
        keep_longer(m, b1, slide_of(m, alts, top_walk(t, overall_index(t, alts)), w))
    } else {
        b0
    }
}

/// Going from fix to fix never covers more than `d`.
pub open spec fn short_consecutive(m: Seq<Vec<u32>>, d: int) -> bool {
    forall|j: int| 0 <= j < m.len() - 1 ==> #[trigger] consecutive_sum(m, j + 1) <= d
}

/// The start candidates of table `t` above `d`, as `get_start_candidates`
/// lists them.
pub open spec fn candidates_of(t: Seq<Seq<GraphCell>>, d: int) -> Seq<StartCandidate> {
    choose|s: Seq<StartCandidate>| candidates_ok(t, d, s)
}

/// The stops of a flight from `start`, as `get_valid_stops` lists them.
pub open spec fn stops_of(alts: Seq<i16>, start: int, minimum_stop: int) -> Seq<usize> {
    choose|s: Seq<usize>| stops_ok(alts, start, minimum_stop, s)
}

/// `i` is the first fix after which going from fix to fix covers more
/// than `d`.
pub open spec fn minimum_stop_ok(m: Seq<Vec<u32>>, d: int, i: int) -> bool {
    &&& 0 <= i
    &&& i + 1 < m.len()
    &&& consecutive_sum(m, i + 1) > d
    &&& forall|j: int| 0 <= j < i ==> #[trigger] consecutive_sum(m, j + 1) <= d
}

/// The first fix after which going from fix to fix covers more than `d`.
pub open spec fn minimum_stop_of(m: Seq<Vec<u32>>, d: int) -> int {
    choose|i: int| minimum_stop_ok(m, d, i)
}

/// At most one fix is the first after which going from fix to fix covers
/// more than `d`.
pub proof fn lemma_minimum_stop_unique(m: Seq<Vec<u32>>, d: int, i1: int, i2: int)
    requires
        minimum_stop_ok(m, d, i1),
        minimum_stop_ok(m, d, i2),
    ensures
        i1 == i2,
{
    if i1 < i2 {
        assert(consecutive_sum(m, i1 + 1) <= d);
    } else if i2 < i1 {
        assert(consecutive_sum(m, i2 + 1) <= d);
    }
}

/// The bound of the latest cached item that places one.
pub open spec fn cache_hit(m: Seq<Vec<u32>>, items: Seq<ItemView>, start: int, best: int, stops: Seq<usize>) -> Option<int>
    decreases items.len(),
{
    if items.len() == 0 {
        None
    } else {
        match bound_of(m, items.last(), start, best, stops) {
            Some(b) => Some(b),
            None => cache_hit(m, items.drop_last(), start, best, stops),
        }
    }
}

/// The cache hit is the bound of the latest item that places one.
pub proof fn lemma_cache_hit(m: Seq<Vec<u32>>, items: Seq<ItemView>, start: int, best: int, stops: Seq<usize>, a: int)
    requires
        0 <= a < items.len(),
        bound_of(m, items[a], start, best, stops) is Some,
        forall|b: int| a < b < items.len() ==> bound_of(m, #[trigger] items[b], start, best, stops) is None,
    ensures
        cache_hit(m, items, start, best, stops) == bound_of(m, items[a], start, best, stops),
    decreases items.len(),
{
    if a < items.len() - 1 {
        assert(bound_of(m, items[items.len() - 1], start, best, stops) is None);
        assert(items.drop_last()[a] == items[a]);
        lemma_cache_hit(m, items.drop_last(), start, best, stops, a);
    }
}

/// With no item placing a bound, there is no cache hit.
pub proof fn lemma_cache_miss(m: Seq<Vec<u32>>, items: Seq<ItemView>, start: int, best: int, stops: Seq<usize>)
    requires
        forall|b: int| 0 <= b < items.len() ==> bound_of(m, #[trigger] items[b], start, best, stops) is None,
    ensures
        cache_hit(m, items, start, best, stops) is None,
    decreases items.len(),
{
    if items.len() > 0 {
        assert(bound_of(m, items[items.len() - 1], start, best, stops) is None);
        lemma_cache_miss(m, items.drop_last(), start, best, stops);
    }
}

/// The table built for the fixed start `c`.
pub open spec fn start_table(m: Seq<Vec<u32>>, alts: Seq<i16>, c: usize, legs: int) -> Seq<Seq<GraphCell>> {
    choose|t: Seq<Seq<GraphCell>>| table_ok(m, alts, Some(c), t) && t.len() == legs
}

/// Some path of the top layer of `t` keeps the altitude rule.
pub open spec fn has_compliant(t: Seq<Seq<GraphCell>>, alts: Seq<i16>) -> bool {
    exists|i: int| 0 <= i < top(t).len() && compliant(t, alts, i)
}

/// The search over the first `k` start candidates, taken from the last:
/// from the best flight `best` and the cached items `items`, the best flight
/// that it ends with.
pub open spec fn search(
    m: Seq<Vec<u32>>,
    alts: Seq<i16>,
    legs: int,
    break_at: int,
    cands: Seq<StartCandidate>,
    minimum_stop: int,
    k: int,
    best: Seq<usize>,
    items: Seq<ItemView>,
) -> Seq<usize>
    decreases k,
{
    if k <= 0 || k > cands.len() {
        best
    } else {
        let c = cands[k - 1];
        if c.distance <= path_sum(m, best) || c.distance < break_at {
            best
        } else {
            let stops = stops_of(alts, c.start as int, minimum_stop);
            if stops.len() == 0 {
                search(m, alts, legs, break_at, cands, minimum_stop, k - 1, best, items)
            } else {
                match cache_hit(m, items, c.start as int, path_sum(m, best), stops) {
                    Some(b) => search(
                        m, alts, legs, break_at, cands, minimum_stop, k - 1, best,
                        items.push((c.start, stops.last(), stops, b as i64)),
                    ),
                    None => {
                        let ct = start_table(m, alts, c.start, legs);
                        if !has_compliant(ct, alts) {
                            search(m, alts, legs, break_at, cands, minimum_stop, k - 1, best, items)
                        } else {
                            let i = seed_index(ct, alts);
                            let d = top(ct)[i].distance;
                            let items2 = items.push((c.start, stops.last(), stops, d));
                            if d > path_sum(m, best) {
                                search(m, alts, legs, break_at, cands, minimum_stop, k - 1, top_walk(ct, i), items2)
                            } else {
                                search(m, alts, legs, break_at, cands, minimum_stop, k - 1, best, items2)
                            }
                        }
                    },
                }
            }
        }
    }
}

/// The flight that `optimize` returns when it returns one.
pub open spec fn optimize_result(m: Seq<Vec<u32>>, alts: Seq<i16>, break_at: int, legs: int) -> Seq<usize> {
    let t = seed_table(m, alts, legs);
    let d0 = seed_distance(m, alts, legs);
    let b = seed_result(m, alts, legs);
    if has_candidates(t, d0) {
        let cands = candidates_of(t, d0);
        search(m, alts, legs, break_at, cands, minimum_stop_of(m, path_sum(m, b)), cands.len() as int, b, Seq::empty())
    } else {
        b
    }
}

/// Finds the flight of `legs` legs through `route` with the largest
/// distance. `dist_matrix` holds the planar distances between the fixes of
/// `route`, in whole meters. The search stops early once the best start
/// left to try has an upper bound below `break_at`.
#[verifier::rlimit(60)]
pub fn optimize(route: &[i16], dist_matrix: &[Vec<u32>], break_at: i64, legs: usize) -> (r: Result<
    OptimizationResult,
    OptimizeError,
>)
    requires
        is_triangular(dist_matrix@),
        route@.len() == dist_matrix@.len(),
        1 <= legs <= MAX_LEGS,
    ensures
        r == Err::<OptimizationResult, OptimizeError>(OptimizeError::EmptyInput) <==> route@.len() < legs + 1,
        r == Err::<OptimizationResult, OptimizeError>(OptimizeError::NoValidSolution) <==> route@.len() >= legs + 1
            && no_compliant_seed(dist_matrix@, route@, legs as int),
        r == Err::<OptimizationResult, OptimizeError>(OptimizeError::MinimumStopNotFound) <==> {
            &&& route@.len() >= legs + 1
            &&& !no_compliant_seed(dist_matrix@, route@, legs as int)
            &&& has_candidates(seed_table(dist_matrix@, route@, legs as int), seed_distance(dist_matrix@, route@, legs as int))
            &&& short_consecutive(dist_matrix@, path_sum(dist_matrix@, seed_result(dist_matrix@, route@, legs as int)))
        },
        r matches Ok(res) ==> {
            &&& is_flight(route@, res.path@, legs as int)
            &&& res.distance == path_sum(dist_matrix@, res.path@)
            &&& above_seeds(dist_matrix@, route@, legs as int, res.distance as int)
        },
        r matches Ok(res) ==> res.path@ == optimize_result(dist_matrix@, route@, break_at as int, legs as int),
        r matches Ok(res) ==> (seeds_below(dist_matrix@, route@, legs as int, break_at as int)
            ==> res.path@ == seed_result(dist_matrix@, route@, legs as int)),
{
    let ghost m = dist_matrix@;
    let ghost alts = route@;
    let n = route.len();
    if n < legs + 1 {
        return Err(OptimizeError::EmptyInput);
    }
    let graph = Graph::from_distance_matrix(dist_matrix, legs);
    let ghost t = graph.layers();
    proof {
        assert(graph.wf(m, alts, legs as int));
        lemma_links(m, alts, None, t);
        assert forall|t2: Seq<Seq<GraphCell>>| #[trigger] table_ok(m, alts, None, t2) && t2.len() == legs implies t2 == t by {
            lemma_table_unique(m, alts, None, t2, t);
        }
    }
    let mut best = match graph.find_best_valid_solution(route) {
        None => {
            return Err(OptimizeError::NoValidSolution);
        },
        Some(b) => b,
    };
    let ghost seed_d = best.distance as int;
    let ghost seed_path = best.path@;
    let ghost i = choose|i: int| {
        &&& first_best(t, alts, true, i)
        &&& best.path@ == top_walk(t, i)
        &&& best.distance == top(t)[i].distance
    };
    proof {
        let i = choose|i: int| {
            &&& first_best(t, alts, true, i)
            &&& best.path@ == top_walk(t, i)
            &&& best.distance == top(t)[i].distance
        };
        lemma_walk(m, alts, None, t, legs - 1, i);
        assert(above_seeds(m, alts, legs as int, seed_d)) by {
            assert forall|t2: Seq<Seq<GraphCell>>| #[trigger] table_ok(m, alts, None, t2) && t2.len() == legs implies
                forall|j: int| 0 <= j < top(t2).len() && #[trigger] compliant(t2, alts, j) ==> top(t2)[j].distance <= seed_d by {
                assert(t2 == t);
                assert forall|j: int| 0 <= j < top(t).len() && #[trigger] compliant(t, alts, j) implies top(t)[j].distance <= seed_d by {
                    assert(crate::graph::eligible(t, alts, true, j));
                }
            }
        }
        assert(!no_compliant_seed(m, alts, legs as int)) by {
            assert(table_ok(m, alts, None, t) && t.len() == legs);
            assert(compliant(t, alts, i));
        }
        assert(exists|t2: Seq<Seq<GraphCell>>| table_ok(m, alts, None, t2) && t2.len() == legs);
        assert(seed_table(m, alts, legs as int) == t);
        lemma_first_best_unique(t, alts, true, i, seed_index(t, alts));
        assert(seed_distance(m, alts, legs as int) == seed_d);
    }
    let best_invalid = graph.find_best_solution(route);
    let ghost j = choose|j: int| {
        &&& first_best(t, alts, false, j)
        &&& best_invalid.path@ == top_walk(t, j)
        &&& best_invalid.distance == top(t)[j].distance
    };
    proof {
        let j = choose|j: int| {
            &&& first_best(t, alts, false, j)
            &&& best_invalid.path@ == top_walk(t, j)
            &&& best_invalid.distance == top(t)[j].distance
        };
        lemma_walk(m, alts, None, t, legs - 1, j);
        lemma_first_best_unique(t, alts, false, j, overall_index(t, alts));
    }
    let candidates = graph.get_start_candidates(best.distance);
    if candidates.len() == 0 {
        proof {
            if has_candidates(t, seed_d) {
                let a = choose|a: int| 0 <= a < top(t).len() && top(t)[a].distance > seed_d;
                assert(exists|c: int| 0 <= c < candidates@.len() && (#[trigger] candidates@[c]).start == a);
            }
        }
        return Ok(best);
    }
    let window = Bound::from(candidates.as_slice());
    proof {
        assert(window_of(t, seed_d, window)) by {
            let a = choose|a: int| 0 <= a < candidates@.len() && candidates@[a].start == window.start;
            let b = choose|b: int| 0 <= b < candidates@.len() && candidates@[b].start == window.stop;
            assert(candidates@[a].start < top(t).len());
            assert(candidates@[b].start < top(t).len());
            assert forall|c: int| 0 <= c < top(t).len() && #[trigger] top(t)[c].distance > seed_d
                implies window.start <= c <= window.stop by {
                let d = choose|d: int| 0 <= d < candidates@.len() && (#[trigger] candidates@[d]).start == c;
                assert(window.start <= candidates@[d].start <= window.stop);
            }
        }
        lemma_window_unique(t, seed_d, window, window_for(t, seed_d));
        assert(candidates@[0].start < top(t).len());
        assert(has_candidates(t, seed_d));
    }
    let ghost b1 = keep_longer(m, seed_path, slide_of(m, alts, seed_path, window));
    if let Some(improved) = best.optimize_by_sliding(route, dist_matrix, &window) {
        if improved.distance > best.distance {
            best = improved;
        }
    }
    assert(best.path@ == b1);
    if let Some(improved) = best_invalid.optimize_by_sliding(route, dist_matrix, &window) {
        if improved.distance > best.distance {
            best = improved;
        }
    }
    assert(best.path@ == seed_result(m, alts, legs as int));
    let minimum_stop = match find_minimum_stop(dist_matrix, best.distance) {
        None => {
            return Err(OptimizeError::MinimumStopNotFound);
        },
        Some(i) => {
            proof {
                assert(consecutive_sum(m, i + 1) > path_sum(m, best.path@));
                assert(minimum_stop_ok(m, best.distance as int, i as int));
                lemma_minimum_stop_unique(m, best.distance as int, i as int, minimum_stop_of(m, best.distance as int));
            }
            i
        },
    };
    proof {
        lemma_candidates_unique(t, seed_d, candidates@, candidates_of(t, seed_d));
    }
    let ghost pre_loop = best.path@;
    let ghost result = optimize_result(m, alts, break_at as int, legs as int);
    let mut cache = Cache::new();
    let mut k: usize = candidates.len();
    while k > 0
        invariant
            m == dist_matrix@,
            alts == route@,
            n == alts.len(),
            n == m.len(),
            is_triangular(m),
            1 <= legs <= MAX_LEGS,
            legs + 1 <= n,
            k <= candidates@.len(),
            forall|a: int| 0 <= a < candidates@.len() ==> (#[trigger] candidates@[a]).start < n,
            is_flight(alts, best.path@, legs as int),
            best.distance == path_sum(m, best.path@),
            seed_d <= best.distance,
            above_seeds(m, alts, legs as int, seed_d),
            !no_compliant_seed(m, alts, legs as int),
            cache.wf(n as int),
            forall|t2: Seq<Seq<GraphCell>>| #[trigger] table_ok(m, alts, None, t2) && t2.len() == legs ==> t2 == t,
            table_ok(m, alts, None, t),
            t.len() == legs,
            forall|a: int| 0 <= a < candidates@.len() ==> (#[trigger] candidates@[a]).start < top(t).len()
                && candidates@[a].distance == top(t)[candidates@[a].start as int].distance,
            pre_loop == seed_result(m, alts, legs as int),
            !short_consecutive(m, path_sum(m, pre_loop)),
            seeds_below(m, alts, legs as int, break_at as int) ==> best.path@ == pre_loop,
            minimum_stop == minimum_stop_of(m, path_sum(m, pre_loop)),
            result == optimize_result(m, alts, break_at as int, legs as int),
            result == search(m, alts, legs as int, break_at as int, candidates@, minimum_stop as int, k as int, best.path@, cache@),
        decreases k,
    {
        let ghost k0 = k as int;
        let candidate = &candidates[k - 1];
        k = k - 1;
        assert(candidate == candidates@[k0 - 1]);
        if candidate.distance <= best.distance || candidate.distance < break_at {
            assert(search(m, alts, legs as int, break_at as int, candidates@, minimum_stop as int, k0, best.path@, cache@)
                == best.path@);
            return Ok(best);
        }
        proof {
            if seeds_below(m, alts, legs as int, break_at as int) {
                assert(top(t)[candidate.start as int].distance < break_at);
            }
        }
        let stops = candidate.get_valid_stops(route, minimum_stop);
        proof {
            lemma_increasing_unique(stops@, stops_of(alts, candidate.start as int, minimum_stop as int));
        }
        if stops.len() == 0 {
            continue;
        }
        let ghost items = cache@;
        if cache.check(dist_matrix, candidate, best.distance, &stops) {
            proof {
                let a = choose|a: int| {
                    &&& 0 <= a < items.len()
                    &&& bound_of(m, items[a], candidate.start as int, best.distance as int, stops@)
                        == Some(cache@.last().3 as int)
                    &&& forall|b: int| a < b < items.len()
                        ==> bound_of(m, #[trigger] items[b], candidate.start as int, best.distance as int, stops@) is None
                };
                lemma_cache_hit(m, items, candidate.start as int, best.distance as int, stops@, a);
            }
            continue;
        }
        proof {
            lemma_cache_miss(m, items, candidate.start as int, best.distance as int, stops@);
        }
        let candidate_graph = Graph::for_candidate(candidate, dist_matrix, route, legs);
        let ghost ct = candidate_graph.layers();
        proof {
            lemma_links(m, alts, Some(candidate.start), ct);
            assert(table_ok(m, alts, Some(candidate.start), ct));
            assert(ct.len() == legs);
            assert(exists|t2: Seq<Seq<GraphCell>>| table_ok(m, alts, Some(candidate.start), t2) && t2.len() == legs);
            lemma_table_unique(m, alts, Some(candidate.start), ct, start_table(m, alts, candidate.start, legs as int));
        }
        if let Some(res) = candidate_graph.find_best_valid_solution(route) {
            let last_stop = stops[stops.len() - 1];
            let res_distance = res.distance;
            let item = CacheItem { start: candidate.start, last_stop, stop_set: stops, distance: res_distance };
            let ghost before = cache@;
            proof {
                assert(item_ok(item@, n as int));
            }
            cache.set(item);
            proof {
                assert forall|a: int| 0 <= a < cache@.len() implies item_ok(#[trigger] cache@[a], n as int) by {
                    if a < cache@.len() - 1 {
                        assert(cache@[a] == before[a]);
                    }
                }
            }
            let ghost i = choose|i: int| {
                &&& first_best(ct, alts, true, i)
                &&& res.path@ == top_walk(ct, i)
                &&& res.distance == top(ct)[i].distance
            };
            proof {
                lemma_walk(m, alts, Some(candidate.start), ct, legs - 1, i);
                assert(compliant(ct, alts, i));
                assert(has_compliant(ct, alts));
                lemma_first_best_unique(ct, alts, true, i, seed_index(ct, alts));
            }
            if res_distance > best.distance {
                best = OptimizationResult::new(res.path, dist_matrix);
            }
        } else {
            proof {
                if has_compliant(ct, alts) {
                    let i = choose|i: int| 0 <= i < top(ct).len() && compliant(ct, alts, i);
                    assert(!compliant(ct, alts, i));
                }
            }
        }
    }
    Ok(best)
}

} // verus!
