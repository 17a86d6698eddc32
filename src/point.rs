use vstd::prelude::*;

verus! {

/// Largest altitude drop from start to finish that a flight may have.
pub const ALTITUDE_LIMIT: i32 = 1000;

/// Amount taken off a leaf cell whose finish breaks the altitude rule:
/// 2^62, more than any path of at most `MAX_LEGS` legs can cover.
pub const PENALTY: i64 = 4_611_686_018_427_387_904;

/// Largest number of legs: it keeps every sum of leg distances inside `i64`.
pub const MAX_LEGS: usize = 1_073_741_824;

/// The altitude rule: the finish lies at most 1000 units below the start.
pub open spec fn valid_spec(alts: Seq<i16>, start: int, stop: int) -> bool {
    alts[start] - alts[stop] <= ALTITUDE_LIMIT
}

/// Whether a flight from `start` to `stop` keeps the altitude rule.
pub trait Valid {
    spec fn fix_count(&self) -> nat;

    spec fn allows(&self, start: int, stop: int) -> bool;

    fn valid(&self, start: usize, stop: usize) -> (r: bool)
        requires
            start < self.fix_count(),
            stop < self.fix_count(),
        ensures
            r == self.allows(start as int, stop as int),
    ;
}

impl Valid for [i16] {
    open spec fn fix_count(&self) -> nat {
        self@.len()
    }

    open spec fn allows(&self, start: int, stop: int) -> bool {
        valid_spec(self@, start, stop)
    }

    fn valid(&self, start: usize, stop: usize) -> (r: bool) {
        (self[start] as i32) - (self[stop] as i32) <= ALTITUDE_LIMIT
    }
}

/// Row `i` of the table holds `n - i` entries.
pub open spec fn is_triangular(m: Seq<Vec<u32>>) -> bool {
    forall|i: int| 0 <= i < m.len() ==> (#[trigger] m[i]@).len() == m.len() - i
}

/// Distance between fixes `i` and `j`, read from the triangular table.
pub open spec fn dist(m: Seq<Vec<u32>>, i: int, j: int) -> int {
    if i <= j {
        m[i]@[j - i] as int
    } else {
        m[j]@[i - j] as int
    }
}

/// Sum of the leg distances along a path.
pub open spec fn path_sum(m: Seq<Vec<u32>>, p: Seq<usize>) -> int
    decreases p.len(),
{
    if p.len() < 2 {
        0
    } else {
        dist(m, p[0] as int, p[1] as int) + path_sum(m, p.drop_first())
    }
}

/// The fixes of `p` come in strictly increasing order.
pub open spec fn is_increasing(p: Seq<usize>) -> bool {
    forall|a: int, b: int| 0 <= a < b < p.len() ==> p[a] < p[b]
}

/// Every fix of `p` lies in a route of `n` fixes.
pub open spec fn in_route(p: Seq<usize>, n: int) -> bool {
    forall|a: int| 0 <= a < p.len() ==> p[a] < n
}

/// A path of `len` fixes covers between 0 and `len - 1` times the largest
/// distance.
pub proof fn lemma_path_sum_bounds(m: Seq<Vec<u32>>, p: Seq<usize>)
    ensures
        0 <= path_sum(m, p),
        p.len() >= 1 ==> path_sum(m, p) <= (p.len() - 1) * (u32::MAX as int),
    decreases p.len(),
{
    if p.len() >= 2 {
        lemma_path_sum_bounds(m, p.drop_first());
    }
}

/// Planar distances between the fixes of a route.
pub trait ApproxDistance {
    spec fn table(&self) -> Seq<Vec<u32>>;

    /// Distance between fixes `start` and `stop`.
    fn distance(&self, start: usize, stop: usize) -> (r: u32)
        requires
            is_triangular(self.table()),
            start < self.table().len(),
            stop < self.table().len(),
        ensures
            r == dist(self.table(), start as int, stop as int),
    ;

    /// Sum of the leg distances along `path`.
    fn cum_distance(&self, path: &Vec<usize>) -> (r: i64)
        requires
            is_triangular(self.table()),
            in_route(path@, self.table().len() as int),
            path@.len() <= MAX_LEGS + 1,
        ensures
            r == path_sum(self.table(), path@),
    ;
}

impl ApproxDistance for [Vec<u32>] {
    open spec fn table(&self) -> Seq<Vec<u32>> {
        self@
    }

    fn distance(&self, start: usize, stop: usize) -> (r: u32) {
        if start <= stop {
            self[start][stop - start]
        } else {
            self[stop][start - stop]
        }
    }

    fn cum_distance(&self, path: &Vec<usize>) -> (r: i64) {
        let len = path.len();
        if len < 2 {
            return 0;
        }
        let mut sum: i64 = 0;
        let mut t: usize = len - 1;
        proof {
            assert(path@.subrange(t as int, len as int).len() == 1);
        }
        while t > 0
            invariant
                0 <= t < len,
                len == path@.len(),
                len <= MAX_LEGS + 1,
                is_triangular(self@),
                in_route(path@, self@.len() as int),
                sum == path_sum(self@, path@.subrange(t as int, len as int)),
            decreases t,
        {
            let leg = self.distance(path[t - 1], path[t]);
            proof {
                let s = path@.subrange(t - 1, len as int);
                assert(s.drop_first() =~= path@.subrange(t as int, len as int));
                lemma_path_sum_bounds(self@, s);
            }
            sum = sum + leg as i64;
            t = t - 1;
        }
        assert(path@.subrange(0, len as int) =~= path@);
        sum
    }
}

} // verus!
