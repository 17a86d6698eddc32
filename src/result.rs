use vstd::prelude::*;

use crate::graph::StartCandidate;
use crate::point::{
    dist, in_route, is_increasing, is_triangular, path_sum, valid_spec, ApproxDistance, Valid,
    MAX_LEGS,
};

verus! {

/// A path of turnpoints and its distance.
#[derive(Debug)]
pub struct OptimizationResult {
    pub path: Vec<usize>,
    pub distance: i64,
}

/// An inclusive window of fix indices.
#[derive(Debug, PartialEq, Eq)]
pub struct Bound {
    pub start: usize,
    pub stop: usize,
}

impl OptimizationResult {
    /// `path` with its distance.
    pub fn new(path: Vec<usize>, dist_matrix: &[Vec<u32>]) -> (r: Self)
        requires
            is_triangular(dist_matrix@),
            in_route(path@, dist_matrix@.len() as int),
            path@.len() <= MAX_LEGS + 1,
        ensures
            r.path@ == path@,
            r.distance == path_sum(dist_matrix@, path@),
    {
        let distance = dist_matrix.cum_distance(&path);
        OptimizationResult { path, distance }
    }
}

impl Bound {
    /// The smallest and the largest start of `candidates`.
    pub fn from(candidates: &[StartCandidate]) -> (r: Bound)
        requires
            candidates@.len() > 0,
        ensures
            exists|a: int| 0 <= a < candidates@.len() && candidates@[a].start == r.start,
            exists|a: int| 0 <= a < candidates@.len() && candidates@[a].start == r.stop,
            forall|a: int| 0 <= a < candidates@.len() ==> r.start <= #[trigger] candidates@[a].start <= r.stop,
    {
        let mut start = candidates[0].start;
        let mut stop = candidates[0].start;
        let mut i: usize = 1;
        while i < candidates.len()
            invariant
                1 <= i <= candidates@.len(),
                exists|a: int| 0 <= a < i && candidates@[a].start == start,
                exists|a: int| 0 <= a < i && candidates@[a].start == stop,
                forall|a: int| 0 <= a < i ==> start <= #[trigger] candidates@[a].start <= stop,
            decreases candidates@.len() - i,
        {
            let s = candidates[i].start;
            if s < start {
                start = s;
            }
            if s > stop {
                stop = s;
            }
            i = i + 1;
        }
        Bound { start, stop }
    }
}

/// What moving the first turnpoint to `s` and the last to `e` is worth,
/// with the inner turnpoints held.
pub open spec fn slide_gain(m: Seq<Vec<u32>>, path: Seq<usize>, s: int, e: int) -> int {
    dist(m, s, path[1] as int) + dist(m, path[path.len() - 2] as int, e)
}

/// `s` lies in the window and before the second turnpoint, `e` after the
/// penultimate one, and the pair keeps the altitude rule.
pub open spec fn slide_ok(alts: Seq<i16>, path: Seq<usize>, window: Bound, s: int, e: int) -> bool {
    &&& window.start <= s < window.stop
    &&& s < path[1]
    &&& path[path.len() - 2] < e < alts.len()
    &&& valid_spec(alts, s, e)
}

/// `(s1, e1)` comes before `(s2, e2)` in the search order.
pub open spec fn pair_before(s1: int, e1: int, s2: int, e2: int) -> bool {
    s1 < s2 || (s1 == s2 && e1 < e2)
}

/// `(s, e)` is the first pair of largest gain.
pub open spec fn best_slide(m: Seq<Vec<u32>>, alts: Seq<i16>, path: Seq<usize>, window: Bound, s: int, e: int) -> bool {
    &&& slide_ok(alts, path, window, s, e)
    &&& forall|s2: int, e2: int| #[trigger] slide_ok(alts, path, window, s2, e2)
        ==> slide_gain(m, path, s2, e2) <= slide_gain(m, path, s, e)
    &&& forall|s2: int, e2: int| #[trigger] slide_ok(alts, path, window, s2, e2) && pair_before(s2, e2, s, e)
        ==> slide_gain(m, path, s2, e2) < slide_gain(m, path, s, e)
}

/// At most one pair is the first of largest gain.
pub proof fn lemma_best_slide_unique(
    m: Seq<Vec<u32>>,
    alts: Seq<i16>,
    path: Seq<usize>,
    window: Bound,
    s1: int,
    e1: int,
    s2: int,
    e2: int,
)
    requires
        best_slide(m, alts, path, window, s1, e1),
        best_slide(m, alts, path, window, s2, e2),
    ensures
        s1 == s2 && e1 == e2,
{
    assert(slide_ok(alts, path, window, s1, e1));
    assert(slide_ok(alts, path, window, s2, e2));
    if pair_before(s1, e1, s2, e2) {
        assert(slide_gain(m, path, s1, e1) < slide_gain(m, path, s2, e2));
    } else if pair_before(s2, e2, s1, e1) {
        assert(slide_gain(m, path, s2, e2) < slide_gain(m, path, s1, e1));
    }
}

/// What the current end turnpoints of `path` are worth.
pub open spec fn current_gain(m: Seq<Vec<u32>>, path: Seq<usize>) -> int {
    slide_gain(m, path, path[0] as int, path.last() as int)
}

/// The slide of `path` over `window`: the path moved to the first pair of
/// largest gain, when that gain exceeds the current one.
pub open spec fn slide_of(m: Seq<Vec<u32>>, alts: Seq<i16>, path: Seq<usize>, window: Bound) -> Option<Seq<usize>> {
    if path.len() >= 3 && exists|s: int, e: int| best_slide(m, alts, path, window, s, e) {
        let (s, e) = choose|s: int, e: int| best_slide(m, alts, path, window, s, e);
        if slide_gain(m, path, s, e) > current_gain(m, path) {
            Some(slid(path, s, e))
        } else {
            None
        }
    } else {
        None
    }
}

/// `path` with its first turnpoint at `s` and its last at `e`.
pub open spec fn slid(path: Seq<usize>, s: int, e: int) -> Seq<usize> {
    path.update(0, s as usize).update(path.len() - 1, e as usize)
}

/// A path's distance is that of its path without the last fix, plus the
/// last leg.
pub proof fn lemma_path_sum_last(m: Seq<Vec<u32>>, p: Seq<usize>)
    requires
        p.len() >= 2,
    ensures
        path_sum(m, p) == path_sum(m, p.drop_last()) + dist(m, p[p.len() - 2] as int, p.last() as int),
    decreases p.len(),
{
    let q = p.drop_first();
    assert(path_sum(m, p) == dist(m, p[0] as int, p[1] as int) + path_sum(m, q));
    if p.len() > 2 {
        lemma_path_sum_last(m, q);
        assert(q.drop_last() =~= p.drop_last().drop_first());
        assert(path_sum(m, p.drop_last()) == dist(m, p[0] as int, p[1] as int) + path_sum(m, p.drop_last().drop_first()));
        assert(q[q.len() - 2] == p[p.len() - 2]);
    } else {
        assert(path_sum(m, q) == 0);
        assert(path_sum(m, p.drop_last()) == 0);
    }
}

/// Moving the end turnpoints changes the distance by the change in the two
/// end legs.
pub proof fn lemma_slid_sum(m: Seq<Vec<u32>>, p: Seq<usize>, s: int, e: int)
    requires
        p.len() >= 3,
        0 <= s <= usize::MAX,
        0 <= e <= usize::MAX,
    ensures
        path_sum(m, slid(p, s, e)) - slide_gain(m, p, s, e)
            == path_sum(m, p) - slide_gain(m, p, p[0] as int, p.last() as int),
{
    let q = slid(p, s, e);
    let pd = p.drop_first();
    let qd = q.drop_first();
    assert(path_sum(m, p) == dist(m, p[0] as int, p[1] as int) + path_sum(m, pd));
    assert(path_sum(m, q) == dist(m, q[0] as int, q[1] as int) + path_sum(m, qd));
    lemma_path_sum_last(m, pd);
    lemma_path_sum_last(m, qd);
    assert(qd.drop_last() =~= pd.drop_last());
    assert(q[0] == s);
    assert(q[1] == p[1]);
    assert(qd[qd.len() - 2] == pd[pd.len() - 2]);
    assert(pd[pd.len() - 2] == p[p.len() - 2]);
    assert(qd.last() == e);
    assert(pd.last() == p.last());
}

/// Sliding a path whose end turnpoints already have the largest gain over
/// every allowed pair gives nothing.
pub proof fn lemma_slide_no_gain_on_optimum(m: Seq<Vec<u32>>, alts: Seq<i16>, path: Seq<usize>, window: Bound)
    requires
        forall|s2: int, e2: int| #[trigger] slide_ok(alts, path, window, s2, e2)
            ==> slide_gain(m, path, s2, e2) <= current_gain(m, path),
    ensures
        slide_of(m, alts, path, window) is None,
{
    if path.len() >= 3 && exists|s: int, e: int| best_slide(m, alts, path, window, s, e) {
        let (s, e) = choose|s: int, e: int| best_slide(m, alts, path, window, s, e);
        assert(slide_ok(alts, path, window, s, e));
    }
}

impl OptimizationResult {
    /// Holds the inner turnpoints and moves the first one within the window
    /// (before the second turnpoint) and the last one after the penultimate
    /// turnpoint, to the first pair of largest gain that keeps the altitude
    /// rule. Gives nothing for a path of fewer than three turnpoints, or
    /// when no allowed pair gains more than the current end turnpoints.
    pub fn optimize_by_sliding(
        &self,
        route: &[i16],
        dist_matrix: &[Vec<u32>],
        start_window: &Bound,
    ) -> (r: Option<OptimizationResult>)
        requires
            is_triangular(dist_matrix@),
            route@.len() == dist_matrix@.len(),
            in_route(self.path@, dist_matrix@.len() as int),
            self.path@.len() <= MAX_LEGS + 1,
        ensures
            r is None <==> (self.path@.len() < 3 || forall|s: int, e: int|
                #[trigger] slide_ok(route@, self.path@, *start_window, s, e)
                ==> slide_gain(dist_matrix@, self.path@, s, e) <= current_gain(dist_matrix@, self.path@)),
            r matches Some(res) ==> exists|s: int, e: int| {
                &&& best_slide(dist_matrix@, route@, self.path@, *start_window, s, e)
                &&& res.path@ == slid(self.path@, s, e)
            },
            r matches Some(res) ==> path_sum(dist_matrix@, res.path@) > path_sum(dist_matrix@, self.path@),
            r matches Some(res) ==> slide_of(dist_matrix@, route@, self.path@, *start_window) == Some(res.path@),
            r is None ==> slide_of(dist_matrix@, route@, self.path@, *start_window) is None,
            r matches Some(res) ==> {
                &&& res.distance == path_sum(dist_matrix@, res.path@)
                &&& res.path@.len() == self.path@.len()
                &&& in_route(res.path@, dist_matrix@.len() as int)
                &&& valid_spec(route@, res.path@[0] as int, res.path@.last() as int)
                &&& is_increasing(self.path@) ==> is_increasing(res.path@)
            },
    {
        let len = self.path.len();
        if len < 3 {
            return None;
        }
        let ghost m = dist_matrix@;
        let ghost p = self.path@;
        let ghost w = *start_window;
        let n = route.len();
        let second = self.path[1];
        let penultimate = self.path[len - 2];
        let hi = if start_window.stop < second {
            start_window.stop
        } else {
            second
        };
        let mut found = false;
        let mut best_s: usize = 0;
        let mut best_e: usize = 0;
        let mut best_gain: u64 = 0;
        let mut s: usize = start_window.start;
        while s < hi
            invariant
                m == dist_matrix@,
                p == self.path@,
                w == *start_window,
                is_triangular(m),
                n == route@.len(),
                n == m.len(),
                len == p.len(),
                len >= 3,
                in_route(p, n as int),
                second == p[1],
                penultimate == p[len - 2],
                hi <= second,
                hi <= w.stop,
                w.start <= s,
                !found ==> forall|s2: int, e2: int| #[trigger] slide_ok(route@, p, w, s2, e2) ==> s2 >= s,
                found ==> {
                    &&& slide_ok(route@, p, w, best_s as int, best_e as int)
                    &&& best_s < s
                    &&& best_gain == slide_gain(m, p, best_s as int, best_e as int)
                    &&& forall|s2: int, e2: int| #[trigger] slide_ok(route@, p, w, s2, e2) && s2 < s
                        ==> slide_gain(m, p, s2, e2) <= best_gain
                    &&& forall|s2: int, e2: int| #[trigger] slide_ok(route@, p, w, s2, e2)
                        && pair_before(s2, e2, best_s as int, best_e as int)
                        ==> slide_gain(m, p, s2, e2) < best_gain
                },
            decreases hi - s,
        {
            let mut e: usize = penultimate + 1;
            while e < n
                invariant
                    m == dist_matrix@,
                    p == self.path@,
                    w == *start_window,
                    is_triangular(m),
                    n == route@.len(),
                    n == m.len(),
                    len == p.len(),
                    len >= 3,
                    in_route(p, n as int),
                    second == p[1],
                    penultimate == p[len - 2],
                    hi <= second,
                    hi <= w.stop,
                    w.start <= s < hi,
                    penultimate < e <= n,
                    !found ==> forall|s2: int, e2: int| #[trigger] slide_ok(route@, p, w, s2, e2)
                        ==> pair_before(s as int, e as int - 1, s2, e2),
                    found ==> {
                        &&& slide_ok(route@, p, w, best_s as int, best_e as int)
                        &&& pair_before(best_s as int, best_e as int, s as int, e as int)
                        &&& best_gain == slide_gain(m, p, best_s as int, best_e as int)
                        &&& forall|s2: int, e2: int| #[trigger] slide_ok(route@, p, w, s2, e2)
                            && pair_before(s2, e2, s as int, e as int)
                            ==> slide_gain(m, p, s2, e2) <= best_gain
                        &&& forall|s2: int, e2: int| #[trigger] slide_ok(route@, p, w, s2, e2)
                            && pair_before(s2, e2, best_s as int, best_e as int)
                            ==> slide_gain(m, p, s2, e2) < best_gain
                    },
                decreases n - e,
            {
                if route.valid(s, e) {
                    let gain = dist_matrix.distance(s, second) as u64 + dist_matrix.distance(penultimate, e) as u64;
                    if !found || gain > best_gain {
                        found = true;
                        best_s = s;
                        best_e = e;
                        best_gain = gain;
                    }
                }
                e = e + 1;
            }
            s = s + 1;
        }
        if !found {
            proof {
                assert forall|s2: int, e2: int| !best_slide(m, route@, p, w, s2, e2) by {
                    if best_slide(m, route@, p, w, s2, e2) {
                        assert(slide_ok(route@, p, w, s2, e2));
                    }
                }
            }
            return None;
        }
        let current = dist_matrix.distance(self.path[0], second) as u64
            + dist_matrix.distance(penultimate, self.path[len - 1]) as u64;
        proof {
            assert(best_slide(m, route@, p, w, best_s as int, best_e as int));
            let (s1, e1) = choose|s1: int, e1: int| best_slide(m, route@, p, w, s1, e1);
            lemma_best_slide_unique(m, route@, p, w, s1, e1, best_s as int, best_e as int);
            assert(current == current_gain(m, p));
        }
        if best_gain <= current {
            return None;
        }
        let mut path = self.path.clone();
        assert(path@ =~= p);
        path.set(0, best_s);
        path.set(len - 1, best_e);
        proof {
            assert(path@ =~= slid(p, best_s as int, best_e as int));
            lemma_slid_sum(m, p, best_s as int, best_e as int);
            if is_increasing(p) {
                assert forall|a: int, b: int| 0 <= a < b < path@.len() implies path@[a] < path@[b] by {
                    if a == 0 && b != len - 1 {
                        assert(p[1] <= p[b]);
                    }
                    if b == len - 1 && a != 0 {
                        assert(p[a] <= p[len - 2]);
                    }
                    if a == 0 && b == len - 1 {
                        assert(p[1] <= p[len - 2]);
                    }
                }
            }
        }
        let distance = dist_matrix.cum_distance(&path);
        Some(OptimizationResult { path, distance })
    }
}

} // verus!
