use vstd::prelude::*;

use crate::graph::StartCandidate;
use crate::point::{dist, in_route, is_increasing, is_triangular, ApproxDistance};

verus! {

/// A start that was solved or pruned: the fixes that may close a flight
/// from it (in increasing order), the last of them, and the best distance
/// reached from it or a bound on that distance.
pub struct CacheItem {
    pub start: usize,
    pub last_stop: usize,
    pub stop_set: Vec<usize>,
    pub distance: i64,
}

/// A cache item as plain values: start, last stop, stops, distance.
pub type ItemView = (usize, usize, Seq<usize>, i64);

impl View for CacheItem {
    type V = ItemView;

    open spec fn view(&self) -> ItemView {
        (self.start, self.last_stop, self.stop_set@, self.distance)
    }
}

/// The longest reach from `last_stop` to a stop of `s` that `known` does not
/// hold, or 0 when there is none.
pub open spec fn extra_reach(m: Seq<Vec<u32>>, last_stop: int, known: Seq<usize>, s: Seq<usize>) -> int
    decreases s.len(),
{
    if s.len() == 0 {
        0
    } else {
        let rest = extra_reach(m, last_stop, known, s.drop_last());
        let e = s.last();
        if known.contains(e) || dist(m, last_stop, e as int) <= rest {
            rest
        } else {
            dist(m, last_stop, e as int)
        }
    }
}

/// The bound that `item` places on a start `start` with stop set `stops`.
pub open spec fn upper_bound(m: Seq<Vec<u32>>, item: ItemView, start: int, stops: Seq<usize>) -> int {
    item.3 + dist(m, item.0 as int, start) + extra_reach(m, item.1 as int, item.2, stops)
}

/// Every element of `a` is in `b`.
pub open spec fn is_subset(a: Seq<usize>, b: Seq<usize>) -> bool {
    forall|x: usize| a.contains(x) ==> b.contains(x)
}

/// The bound, when `item` places one at or below `best`: only an item whose
/// stops all lie in `stops` places one.
pub open spec fn bound_of(m: Seq<Vec<u32>>, item: ItemView, start: int, best: int, stops: Seq<usize>) -> Option<int> {
    if is_subset(item.2, stops) && upper_bound(m, item, start, stops) <= best {
        Some(upper_bound(m, item, start, stops))
    } else {
        None
    }
}

/// An item that the cache may hold for a route of `n` fixes.
pub open spec fn item_ok(item: ItemView, n: int) -> bool {
    &&& item.0 < n
    &&& item.1 < n
    &&& is_increasing(item.2)
    &&& item.2.len() > 0
    &&& item.1 == item.2.last()
}

/// The reach over a prefix of the stops is at least 0 and at most the
/// reach over all of them.
pub proof fn lemma_extra_reach_prefix(m: Seq<Vec<u32>>, last_stop: int, known: Seq<usize>, s: Seq<usize>, t: int)
    requires
        0 <= t <= s.len(),
    ensures
        0 <= extra_reach(m, last_stop, known, s.subrange(0, t)) <= extra_reach(m, last_stop, known, s),
    decreases s.len(),
{
    if t == s.len() {
        assert(s.subrange(0, t) =~= s);
    } else {
        assert(s.subrange(0, t) =~= s.drop_last().subrange(0, t));
    }
    if s.len() > 0 {
        lemma_extra_reach_prefix(m, last_stop, known, s.drop_last(), if t == s.len() { t - 1 } else { t });
    }
}

/// Whether the increasing sequence `v` holds `x`.
fn contains_sorted(v: &Vec<usize>, x: usize) -> (r: bool)
    requires
        is_increasing(v@),
    ensures
        r == v@.contains(x),
{
    let mut lo: usize = 0;
    let mut hi: usize = v.len();
    while lo < hi
        invariant
            0 <= lo <= hi <= v@.len(),
            is_increasing(v@),
            forall|a: int| 0 <= a < lo ==> v@[a] < x,
            forall|a: int| hi <= a < v@.len() ==> v@[a] > x,
        decreases hi - lo,
    {
        let mid = lo + (hi - lo) / 2;
        if v[mid] == x {
            return true;
        } else if v[mid] < x {
            lo = mid + 1;
        } else {
            hi = mid;
        }
    }
    proof {
        if v@.contains(x) {
            let a = choose|a: int| 0 <= a < v@.len() && v@[a] == x;
        }
    }
    false
}

impl CacheItem {
    /// The bound that this item places on `candidate` with stop set
    /// `stop_set`: the distance between the two starts plus this item's
    /// distance, plus the longest reach from this item's last stop to a stop
    /// that only the candidate has. It is a bound only when this item's stops
    /// all lie in `stop_set`, and it is returned only when it does not exceed
    /// `best_distance`.
    pub fn places_upperbound(
        &self,
        dist_matrix: &[Vec<u32>],
        candidate: &StartCandidate,
        best_distance: i64,
        stop_set: &Vec<usize>,
    ) -> (r: Option<i64>)
        requires
            is_triangular(dist_matrix@),
            self.start < dist_matrix@.len(),
            self.last_stop < dist_matrix@.len(),
            is_increasing(self.stop_set@),
            candidate.start < dist_matrix@.len(),
            is_increasing(stop_set@),
            in_route(stop_set@, dist_matrix@.len() as int),
        ensures
            match r {
                Some(ub) => bound_of(dist_matrix@, self@, candidate.start as int, best_distance as int, stop_set@)
                    == Some(ub as int),
                None => bound_of(dist_matrix@, self@, candidate.start as int, best_distance as int, stop_set@)
                    is None,
            },
    {
        let ghost m = dist_matrix@;
        let ghost full = extra_reach(m, self.last_stop as int, self.stop_set@, stop_set@);
        proof {
            lemma_extra_reach_prefix(m, self.last_stop as int, self.stop_set@, stop_set@, 0);
        }
        let offset_start = dist_matrix.distance(self.start, candidate.start);
        let base: i128 = self.distance as i128 + offset_start as i128;
        if base > best_distance as i128 {
            return None;
        }
        let mut a: usize = 0;
        while a < self.stop_set.len()
            invariant
                a <= self.stop_set@.len(),
                is_increasing(stop_set@),
                forall|b: int| 0 <= b < a ==> stop_set@.contains(#[trigger] self.stop_set@[b]),
            decreases self.stop_set@.len() - a,
        {
            if !contains_sorted(stop_set, self.stop_set[a]) {
                proof {
                    assert(self.stop_set@.contains(self.stop_set@[a as int]));
                }
                return None;
            }
            a = a + 1;
        }
        proof {
            assert forall|x: usize| self.stop_set@.contains(x) implies stop_set@.contains(x) by {
                let b = choose|b: int| 0 <= b < self.stop_set@.len() && #[trigger] self.stop_set@[b] == x;
            }
        }
        let mut extra: i128 = 0;
        let mut t: usize = 0;
        while t < stop_set.len()
            invariant
                m == dist_matrix@,
                is_triangular(m),
                self.last_stop < m.len(),
                is_increasing(self.stop_set@),
                in_route(stop_set@, m.len() as int),
                t <= stop_set@.len(),
                extra == extra_reach(m, self.last_stop as int, self.stop_set@, stop_set@.subrange(0, t as int)),
                0 <= extra <= u32::MAX,
                base == self.distance + dist(m, self.start as int, candidate.start as int),
                base + extra <= best_distance,
                is_subset(self.stop_set@, stop_set@),
                full == extra_reach(m, self.last_stop as int, self.stop_set@, stop_set@),
                extra <= full,
            decreases stop_set@.len() - t,
        {
            let e = stop_set[t];
            proof {
                let s = stop_set@.subrange(0, t + 1);
                assert(s.drop_last() =~= stop_set@.subrange(0, t as int));
                assert(s.last() == e);
                lemma_extra_reach_prefix(m, self.last_stop as int, self.stop_set@, stop_set@, t + 1);
            }
            if !contains_sorted(&self.stop_set, e) {
                let reach = dist_matrix.distance(self.last_stop, e);
                if reach as i128 > extra {
                    extra = reach as i128;
                }
                if base + extra > best_distance as i128 {
                    return None;
                }
            }
            t = t + 1;
        }
        assert(stop_set@.subrange(0, t as int) =~= stop_set@);
        Some((base + extra) as i64)
    }
}

/// Earlier starts, solved or pruned, kept in the order they were set.
pub struct Cache {
    items: Vec<CacheItem>,
}

impl View for Cache {
    type V = Seq<ItemView>;

    closed spec fn view(&self) -> Seq<ItemView> {
        self.items@.map_values(|item: CacheItem| item@)
    }
}

impl Cache {
    /// Every item fits a route of `n` fixes.
    pub open spec fn wf(&self, n: int) -> bool {
        forall|a: int| 0 <= a < self@.len() ==> item_ok(#[trigger] self@[a], n)
    }

    /// An empty cache.
    pub fn new() -> (r: Cache)
        ensures
            r@ == Seq::<ItemView>::empty(),
    {
        let r = Cache { items: Vec::new() };
        assert(r@ =~= Seq::<ItemView>::empty());
        r
    }

    /// Appends `item`.
    pub fn set(&mut self, item: CacheItem)
        ensures
            final(self)@ == old(self)@.push(item@),
    {
        let ghost before = self@;
        self.items.push(item);
        assert(self@ =~= before.push(item@));
    }

    /// The item set `i`-th, if any.
    pub fn get(&self, i: usize) -> (r: Option<&CacheItem>)
        ensures
            r is None <==> i >= self@.len(),
            r matches Some(item) ==> item@ == self@[i as int],
    {
        if i < self.items.len() {
            Some(&self.items[i])
        } else {
            None
        }
    }

    /// Looks, from the latest item back, for one that places a bound on
    /// `candidate` at or below `best_distance`. On the first found, sets an
    /// item for the candidate with that bound and returns `true`.
    pub fn check(
        &mut self,
        dist_matrix: &[Vec<u32>],
        candidate: &StartCandidate,
        best_distance: i64,
        stop_set: &Vec<usize>,
    ) -> (r: bool)
        requires
            old(self).wf(dist_matrix@.len() as int),
            is_triangular(dist_matrix@),
            candidate.start < dist_matrix@.len(),
            is_increasing(stop_set@),
            in_route(stop_set@, dist_matrix@.len() as int),
        ensures
            final(self).wf(dist_matrix@.len() as int),
            r <==> exists|a: int| 0 <= a < old(self)@.len()
                && bound_of(dist_matrix@, #[trigger] old(self)@[a], candidate.start as int, best_distance as int, stop_set@) is Some,
            !r ==> final(self)@ == old(self)@,
            r ==> exists|a: int| {
                &&& 0 <= a < old(self)@.len()
                &&& bound_of(dist_matrix@, old(self)@[a], candidate.start as int, best_distance as int, stop_set@)
                    == Some(final(self)@.last().3 as int)
                &&& forall|b: int| a < b < old(self)@.len()
                    ==> bound_of(dist_matrix@, #[trigger] old(self)@[b], candidate.start as int, best_distance as int, stop_set@) is None
            },
            r ==> final(self)@ == old(self)@.push((candidate.start, stop_set@.last(), stop_set@, final(self)@.last().3)),
    {
        let ghost m = dist_matrix@;
        let ghost n = m.len() as int;
        let mut a: usize = self.items.len();
        while a > 0
            invariant
                m == dist_matrix@,
                n == m.len(),
                self@ == old(self)@,
                self.wf(n),
                is_triangular(m),
                candidate.start < n,
                is_increasing(stop_set@),
                in_route(stop_set@, n),
                a <= self@.len(),
                forall|b: int| a <= b < self@.len()
                    ==> bound_of(m, #[trigger] self@[b], candidate.start as int, best_distance as int, stop_set@) is None,
            decreases a,
        {
            let ghost here = self@[a - 1];
            proof {
                assert(item_ok(self@[a - 1], n));
                assert(self.items@[a - 1]@ == here);
            }
            if let Some(upperbound) = self.items[a - 1].places_upperbound(dist_matrix, candidate, best_distance, stop_set) {
                proof {
                    assert(here.2.contains(here.2.last()));
                    assert(stop_set@.contains(here.2.last()));
                }
                let last_stop = stop_set[stop_set.len() - 1];
                let item = CacheItem {
                    start: candidate.start,
                    last_stop,
                    stop_set: stop_set.clone(),
                    distance: upperbound,
                };
                let ghost before = self@;
                self.items.push(item);
                proof {
                    assert(self@ =~= before.push(item@));
                    assert(self@.drop_last() =~= old(self)@);
                    assert(item_ok(self@.last(), n));
                    assert forall|b: int| 0 <= b < self@.len() implies item_ok(#[trigger] self@[b], n) by {
                        if b < self@.len() - 1 {
                            assert(self@[b] == old(self)@[b]);
                        }
                    }
                }
                return true;
            }
            a = a - 1;
        }
        false
    }
}

} // verus!
