use vstd::prelude::*;

use crate::result::{lemma_path_sum_last, OptimizationResult};
use crate::point::{
    lemma_path_sum_bounds, dist, in_route, is_increasing, is_triangular, path_sum, valid_spec, ApproxDistance, Valid,
    MAX_LEGS, PENALTY,
};

verus! {

/// A start fix with the best distance that the unconstrained graph allows
/// from it.
#[derive(Debug)]
pub struct StartCandidate {
    pub distance: i64,
    pub start: usize,
}

/// One cell of a layer: the next turnpoint chosen after this fix and the
/// distance reached from this fix over the remaining legs.
#[derive(Debug, Clone, Copy)]
pub struct GraphCell {
    pub prev_index: usize,
    pub distance: i64,
}

/// The layered table. Layer `k` has one cell per fix `i < n - 1 - k`: the
/// best distance over `k + 1` legs that start at `i`. With `start` set, a
/// finish that breaks the altitude rule against fix `start` costs `PENALTY`.
pub struct Graph {
    pub g: Vec<Vec<GraphCell>>,
    pub start: Option<usize>,
}

/// What a finish at `p` costs in the bottom layer: `PENALTY` when a start
/// is fixed and `p` breaks the altitude rule against it.
pub open spec fn leaf_penalty(alts: Seq<i16>, mode: Option<usize>, p: int) -> int {
    match mode {
        Some(c) => if valid_spec(alts, c as int, p) {
            0
        } else {
            PENALTY as int
        },
        None => 0,
    }
}

/// Distance from fix `i` over `k + 1` legs when the next turnpoint is `p`.
pub open spec fn weight(
    m: Seq<Vec<u32>>,
    alts: Seq<i16>,
    mode: Option<usize>,
    below: Seq<GraphCell>,
    k: int,
    i: int,
    p: int,
) -> int {
    if k == 0 {
        dist(m, i, p) - leaf_penalty(alts, mode, p)
    } else {
        dist(m, i, p) + below[p].distance
    }
}

/// The cell of fix `i` in layer `k` holds the first best next turnpoint.
pub open spec fn cell_ok(
    m: Seq<Vec<u32>>,
    alts: Seq<i16>,
    mode: Option<usize>,
    below: Seq<GraphCell>,
    k: int,
    i: int,
    c: GraphCell,
) -> bool {
    let hi = m.len() - k;
    &&& i < c.prev_index < hi
    &&& c.distance == weight(m, alts, mode, below, k, i, c.prev_index as int)
    &&& -PENALTY <= c.distance <= (k + 1) * (u32::MAX as int)
    &&& forall|p: int| i < p < hi ==> weight(m, alts, mode, below, k, i, p) <= c.distance
    &&& forall|p: int| i < p < c.prev_index ==> weight(m, alts, mode, below, k, i, p) < c.distance
}

pub open spec fn layer_ok(
    m: Seq<Vec<u32>>,
    alts: Seq<i16>,
    mode: Option<usize>,
    below: Seq<GraphCell>,
    k: int,
    layer: Seq<GraphCell>,
) -> bool {
    &&& layer.len() == m.len() - 1 - k
    &&& forall|i: int| 0 <= i < layer.len() ==> cell_ok(m, alts, mode, below, k, i, #[trigger] layer[i])
}

pub open spec fn below_of(t: Seq<Seq<GraphCell>>, k: int) -> Seq<GraphCell> {
    if k == 0 {
        Seq::empty()
    } else {
        t[k - 1]
    }
}

/// Every layer of `t` is the layered table of the distances `m`.
pub open spec fn table_ok(
    m: Seq<Vec<u32>>,
    alts: Seq<i16>,
    mode: Option<usize>,
    t: Seq<Seq<GraphCell>>,
) -> bool {
    forall|k: int| 0 <= k < t.len() ==> #[trigger] layer_ok(m, alts, mode, below_of(t, k), k, t[k])
}

/// The path that the back-pointers give from fix `i` of layer `k` down.
pub open spec fn walk(t: Seq<Seq<GraphCell>>, k: int, i: int) -> Seq<usize>
    decreases k + 1,
{
    if k < 0 {
        seq![i as usize]
    } else {
        seq![i as usize] + walk(t, k - 1, t[k][i].prev_index as int)
    }
}

/// What a path is worth in a table: its distance, less the penalty that
/// its finish draws.
pub open spec fn score(m: Seq<Vec<u32>>, alts: Seq<i16>, mode: Option<usize>, p: Seq<usize>) -> int {
    path_sum(m, p) - leaf_penalty(alts, mode, p.last() as int)
}

/// The inputs that a table is built from fit together.
pub open spec fn inputs_ok(m: Seq<Vec<u32>>, alts: Seq<i16>, mode: Option<usize>) -> bool {
    &&& is_triangular(m)
    &&& match mode {
        Some(c) => c < m.len() && alts.len() == m.len(),
        None => true,
    }
}

impl Graph {
    /// The layers as sequences of cells.
    pub open spec fn layers(&self) -> Seq<Seq<GraphCell>> {
        self.g@.map_values(|l: Vec<GraphCell>| l@)
    }

    /// The graph is the layered table of `m` with `legs` layers.
    pub open spec fn wf(&self, m: Seq<Vec<u32>>, alts: Seq<i16>, legs: int) -> bool {
        &&& inputs_ok(m, alts, self.start)
        &&& self.g@.len() == legs
        &&& 1 <= legs <= MAX_LEGS
        &&& legs + 1 <= m.len()
        &&& table_ok(m, alts, self.start, self.layers())
    }
}

/// Layer `k - 1` has a cell for each possible next turnpoint of layer `k`,
/// within the bounds of `k` legs.
pub open spec fn below_bounded(m: Seq<Vec<u32>>, below: Seq<GraphCell>, k: int) -> bool {
    &&& below.len() == m.len() - k
    &&& forall|p: int| 0 <= p < below.len() ==> -PENALTY <= #[trigger] below[p].distance <= k * (u32::MAX as int)
}

/// Builds layer `k` on top of `below`.
fn build_layer(
    dist_matrix: &[Vec<u32>],
    alts: &[i16],
    mode: Option<usize>,
    below: &Vec<GraphCell>,
    k: usize,
) -> (layer: Vec<GraphCell>)
    requires
        inputs_ok(dist_matrix@, alts@, mode),
        k < MAX_LEGS,
        k + 1 < dist_matrix@.len(),
        k > 0 ==> below_bounded(dist_matrix@, below@, k as int),
    ensures
        layer_ok(dist_matrix@, alts@, mode, below@, k as int, layer@),
{
    let n = dist_matrix.len();
    let hi = n - k;
    let ghost m = dist_matrix@;
    let mut layer: Vec<GraphCell> = Vec::new();
    let mut i: usize = 0;
    while i < n - 1 - k
        invariant
            n == m.len(),
            m == dist_matrix@,
            hi == n - k,
            k + 1 < n,
            k < MAX_LEGS,
            i <= n - 1 - k,
            inputs_ok(m, alts@, mode),
            k > 0 ==> below_bounded(m, below@, k as int),
            layer@.len() == i,
            forall|a: int| 0 <= a < i ==> cell_ok(m, alts@, mode, below@, k as int, a, #[trigger] layer@[a]),
        decreases n - 1 - k - i,
    {
        let mut best = GraphCell { prev_index: i + 1, distance: 0 };
        let mut p: usize = i + 1;
        let mut first = true;
        while p < hi
            invariant
                n == m.len(),
                m == dist_matrix@,
                hi == n - k,
                k + 1 < n,
                k < MAX_LEGS,
                i < n - 1 - k,
                inputs_ok(m, alts@, mode),
                k > 0 ==> below_bounded(m, below@, k as int),
                i + 1 <= p <= hi,
                first <==> p == i + 1,
                !first ==> {
                    &&& i < best.prev_index < p
                    &&& best.distance == weight(m, alts@, mode, below@, k as int, i as int, best.prev_index as int)
                    &&& -PENALTY <= best.distance <= (k + 1) * (u32::MAX as int)
                    &&& forall|q: int| i < q < p ==> weight(m, alts@, mode, below@, k as int, i as int, q) <= best.distance
                    &&& forall|q: int| i < q < best.prev_index ==> weight(m, alts@, mode, below@, k as int, i as int, q) < best.distance
                },
            decreases hi - p,
        {
            let leg = dist_matrix.distance(i, p);
            let w: i64 = if k == 0 {
                let pen: i64 = match mode {
                    Some(c) => if alts.valid(c, p) {
                        0
                    } else {
                        PENALTY
                    },
                    None => 0,
                };
                leg as i64 - pen
            } else {
                leg as i64 + below[p].distance
            };
            proof {
                assert(w == weight(m, alts@, mode, below@, k as int, i as int, p as int));
            }
            if first || w > best.distance {
                best = GraphCell { prev_index: p, distance: w };
            }
            first = false;
            p = p + 1;
        }
        layer.push(best);
        i = i + 1;
    }
    layer
}

/// With no fixed start, the table does not depend on the altitudes.
pub proof fn lemma_unconstrained_table(m: Seq<Vec<u32>>, a1: Seq<i16>, a2: Seq<i16>, t: Seq<Seq<GraphCell>>)
    requires
        table_ok(m, a1, None, t),
    ensures
        table_ok(m, a2, None, t),
{
    assert forall|k: int| 0 <= k < t.len() implies #[trigger] layer_ok(m, a2, None, below_of(t, k), k, t[k]) by {
        assert(layer_ok(m, a1, None, below_of(t, k), k, t[k]));
        assert forall|i: int| 0 <= i < t[k].len() implies cell_ok(m, a2, None, below_of(t, k), k, i, #[trigger] t[k][i]) by {
            assert(cell_ok(m, a1, None, below_of(t, k), k, i, t[k][i]));
            assert forall|p: int| true implies #[trigger] weight(m, a2, None, below_of(t, k), k, i, p)
                == weight(m, a1, None, below_of(t, k), k, i, p) by {}
        }
    }
}

/// Builds all `legs` layers.
fn build(dist_matrix: &[Vec<u32>], alts: &[i16], mode: Option<usize>, legs: usize) -> (graph: Graph)
    requires
        inputs_ok(dist_matrix@, alts@, mode),
        1 <= legs <= MAX_LEGS,
        legs + 1 <= dist_matrix@.len(),
    ensures
        graph.wf(dist_matrix@, alts@, legs as int),
        graph.start == mode,
{
    let ghost m = dist_matrix@;
    let empty: Vec<GraphCell> = Vec::new();
    let first = build_layer(dist_matrix, alts, mode, &empty, 0);
    let mut g: Vec<Vec<GraphCell>> = Vec::new();
    g.push(first);
    proof {
        let t = g@.map_values(|l: Vec<GraphCell>| l@);
        assert(t[0] == first@);
        assert(below_of(t, 0) =~= empty@);
    }
    let mut k: usize = 1;
    while k < legs
        invariant
            m == dist_matrix@,
            inputs_ok(m, alts@, mode),
            1 <= legs <= MAX_LEGS,
            legs + 1 <= m.len(),
            1 <= k <= legs,
            g@.len() == k,
            table_ok(m, alts@, mode, g@.map_values(|l: Vec<GraphCell>| l@)),
        decreases legs - k,
    {
        let ghost t = g@.map_values(|l: Vec<GraphCell>| l@);
        proof {
            assert(layer_ok(m, alts@, mode, below_of(t, k - 1), k - 1, t[k - 1]));
            assert forall|p: int| 0 <= p < t[k - 1].len() implies -PENALTY <= #[trigger] t[k - 1][p].distance
                <= k * (u32::MAX as int) by {
                assert(cell_ok(m, alts@, mode, below_of(t, k - 1), k - 1, p, t[k - 1][p]));
            }
            assert(g@[k - 1]@ == t[k - 1]);
        }
        let layer = build_layer(dist_matrix, alts, mode, &g[k - 1], k);
        g.push(layer);
        proof {
            let t2 = g@.map_values(|l: Vec<GraphCell>| l@);
            assert forall|j: int| 0 <= j < t2.len() implies #[trigger] layer_ok(m, alts@, mode, below_of(t2, j), j, t2[j]) by {
                if j < k {
                    assert(t2[j] == t[j]);
                    assert(below_of(t2, j) == below_of(t, j));
                    assert(layer_ok(m, alts@, mode, below_of(t, j), j, t[j]));
                } else {
                    assert(t2[j] == layer@);
                    assert(below_of(t2, j) == t[k - 1]);
                }
            }
        }
        k = k + 1;
    }
    Graph { g, start: mode }
}

/// The back-pointers from fix `i` of layer `k` give a path of `k + 2`
/// increasing fixes that starts at `i` and is worth exactly its cell.
pub proof fn lemma_walk(
    m: Seq<Vec<u32>>,
    alts: Seq<i16>,
    mode: Option<usize>,
    t: Seq<Seq<GraphCell>>,
    k: int,
    i: int,
)
    requires
        inputs_ok(m, alts, mode),
        table_ok(m, alts, mode, t),
        0 <= k < t.len(),
        0 <= i < t[k].len(),
    ensures
        walk(t, k, i).len() == k + 2,
        walk(t, k, i)[0] == i,
        is_increasing(walk(t, k, i)),
        in_route(walk(t, k, i), m.len() as int),
        score(m, alts, mode, walk(t, k, i)) == t[k][i].distance,
    decreases k,
{
    assert(layer_ok(m, alts, mode, below_of(t, k), k, t[k]));
    let c = t[k][i];
    assert(cell_ok(m, alts, mode, below_of(t, k), k, i, c));
    let p = c.prev_index as int;
    let w = walk(t, k, i);
    let rest = walk(t, k - 1, p);
    assert(w == seq![i as usize] + rest);
    assert(w.drop_first() =~= rest);
    if k == 0 {
        assert(rest == seq![p as usize]);
        assert(path_sum(m, rest) == 0);
    } else {
        assert(layer_ok(m, alts, mode, below_of(t, k - 1), k - 1, t[k - 1]));
        lemma_walk(m, alts, mode, t, k - 1, p);
    }
    assert(w[1] == p);
    assert(w.last() == rest.last());
    assert(path_sum(m, w) == dist(m, i, p) + path_sum(m, rest));
}

/// In a strictly increasing path, entries `b - a` apart differ by at least
/// `b - a`.
pub proof fn lemma_increasing_gap(path: Seq<usize>)
    requires
        is_increasing(path),
    ensures
        forall|a: int, b: int| 0 <= a <= b < path.len() ==> #[trigger] path[a] + (b - a) <= #[trigger] path[b],
    decreases path.len(),
{
    if path.len() > 0 {
        let front = path.drop_last();
        lemma_increasing_gap(front);
        assert forall|a: int, b: int| 0 <= a <= b < path.len() implies #[trigger] path[a] + (b - a) <= #[trigger] path[b] by {
            if b < path.len() - 1 {
                assert(front[a] + (b - a) <= front[b]);
            } else if a < b {
                assert(front[a] + (b - 1 - a) <= front[b - 1]);
            }
        }
    }
}

/// Every path of `k + 2` increasing fixes is worth at most the cell of its
/// first fix in layer `k`.
pub proof fn lemma_upper_bound(
    m: Seq<Vec<u32>>,
    alts: Seq<i16>,
    mode: Option<usize>,
    t: Seq<Seq<GraphCell>>,
    k: int,
    path: Seq<usize>,
)
    requires
        inputs_ok(m, alts, mode),
        table_ok(m, alts, mode, t),
        0 <= k < t.len(),
        path.len() == k + 2,
        is_increasing(path),
        in_route(path, m.len() as int),
    ensures
        path[0] < t[k].len(),
        score(m, alts, mode, path) <= t[k][path[0] as int].distance,
    decreases k,
{
    lemma_increasing_gap(path);
    assert(path[0] + (k + 1) <= path[k + 1]);
    assert(path[1] + k <= path[k + 1]);
    assert(layer_ok(m, alts, mode, below_of(t, k), k, t[k]));
    let i = path[0] as int;
    let p = path[1] as int;
    assert(cell_ok(m, alts, mode, below_of(t, k), k, i, t[k][i]));
    let tail = path.drop_first();
    assert(path_sum(m, path) == dist(m, i, p) + path_sum(m, tail));
    assert(path.last() == tail.last());
    if k == 0 {
        assert(path_sum(m, tail) == 0);
    } else {
        assert(tail.len() == k + 1);
        assert(forall|a: int| 0 <= a < tail.len() ==> tail[a] == path[a + 1]);
        lemma_upper_bound(m, alts, mode, t, k - 1, tail);
        assert(below_of(t, k) == t[k - 1]);
    }
    assert(weight(m, alts, mode, below_of(t, k), k, i, p) <= t[k][i].distance);
}

/// A cell is fixed by the layer below it.
proof fn lemma_cell_unique(
    m: Seq<Vec<u32>>,
    alts: Seq<i16>,
    mode: Option<usize>,
    below: Seq<GraphCell>,
    k: int,
    i: int,
    c1: GraphCell,
    c2: GraphCell,
)
    requires
        cell_ok(m, alts, mode, below, k, i, c1),
        cell_ok(m, alts, mode, below, k, i, c2),
    ensures
        c1 == c2,
{
    let w1 = weight(m, alts, mode, below, k, i, c1.prev_index as int);
    let w2 = weight(m, alts, mode, below, k, i, c2.prev_index as int);
    if c1.prev_index < c2.prev_index {
        assert(w1 < c2.distance);
    } else if c2.prev_index < c1.prev_index {
        assert(w2 < c1.distance);
    }
}

/// The layered table is fixed by its inputs: two tables built from the same
/// distances, altitudes and start are equal.
pub proof fn lemma_table_unique(
    m: Seq<Vec<u32>>,
    alts: Seq<i16>,
    mode: Option<usize>,
    t1: Seq<Seq<GraphCell>>,
    t2: Seq<Seq<GraphCell>>,
)
    requires
        table_ok(m, alts, mode, t1),
        table_ok(m, alts, mode, t2),
        t1.len() == t2.len(),
    ensures
        t1 == t2,
{
    lemma_layers_unique(m, alts, mode, t1, t2, t1.len() as int);
    assert(t1 =~= t2);
}

proof fn lemma_layers_unique(
    m: Seq<Vec<u32>>,
    alts: Seq<i16>,
    mode: Option<usize>,
    t1: Seq<Seq<GraphCell>>,
    t2: Seq<Seq<GraphCell>>,
    upto: int,
)
    requires
        table_ok(m, alts, mode, t1),
        table_ok(m, alts, mode, t2),
        t1.len() == t2.len(),
        0 <= upto <= t1.len(),
    ensures
        forall|k: int| 0 <= k < upto ==> t1[k] == t2[k],
    decreases upto,
{
    if upto > 0 {
        let k = upto - 1;
        lemma_layers_unique(m, alts, mode, t1, t2, k);
        assert(below_of(t1, k) == below_of(t2, k));
        assert(layer_ok(m, alts, mode, below_of(t1, k), k, t1[k]));
        assert(layer_ok(m, alts, mode, below_of(t2, k), k, t2[k]));
        assert forall|i: int| 0 <= i < t1[k].len() implies t1[k][i] == t2[k][i] by {
            lemma_cell_unique(m, alts, mode, below_of(t1, k), k, i, t1[k][i], t2[k][i]);
        }
        assert(t1[k] =~= t2[k]);
    }
}

/// Layer `k` has `n - 1 - k` cells, each pointing further along the route
/// to a cell of the layer below.
pub open spec fn links_ok(t: Seq<Seq<GraphCell>>, n: int) -> bool {
    forall|k: int| 0 <= k < t.len() ==> {
        &&& (#[trigger] t[k]).len() == n - 1 - k
        &&& forall|i: int| 0 <= i < t[k].len() ==> i < (#[trigger] t[k][i]).prev_index < n - k
    }
}

/// A table has the shape and the back-pointers of `links_ok`.
pub proof fn lemma_links(m: Seq<Vec<u32>>, alts: Seq<i16>, mode: Option<usize>, t: Seq<Seq<GraphCell>>)
    requires
        table_ok(m, alts, mode, t),
    ensures
        links_ok(t, m.len() as int),
{
    assert forall|k: int| 0 <= k < t.len() implies {
        &&& (#[trigger] t[k]).len() == m.len() - 1 - k
        &&& forall|i: int| 0 <= i < t[k].len() ==> i < (#[trigger] t[k][i]).prev_index < m.len() - k
    } by {
        assert(layer_ok(m, alts, mode, below_of(t, k), k, t[k]));
        assert forall|i: int| 0 <= i < t[k].len() implies i < (#[trigger] t[k][i]).prev_index < m.len() - k by {
            assert(cell_ok(m, alts, mode, below_of(t, k), k, i, t[k][i]));
        }
    }
}

/// The back-pointers from fix `i` of layer `k` give `k + 2` increasing
/// fixes of the route, starting at `i`.
pub proof fn lemma_walk_shape(t: Seq<Seq<GraphCell>>, n: int, k: int, i: int)
    requires
        links_ok(t, n),
        0 <= k < t.len(),
        0 <= i < t[k].len(),
    ensures
        walk(t, k, i).len() == k + 2,
        walk(t, k, i)[0] == i,
        is_increasing(walk(t, k, i)),
        in_route(walk(t, k, i), n),
    decreases k,
{
    let p = t[k][i].prev_index as int;
    assert(i < p < n - k);
    let w = walk(t, k, i);
    let rest = walk(t, k - 1, p);
    assert(w == seq![i as usize] + rest);
    if k > 0 {
        lemma_walk_shape(t, n, k - 1, p);
    } else {
        assert(rest == seq![p as usize]);
    }
}

/// No detour through a fix in between is shorter than the direct leg.
pub open spec fn keeps_triangle(m: Seq<Vec<u32>>) -> bool {
    forall|a: int, b: int, c: int| 0 <= a <= b <= c < m.len()
        ==> dist(m, a, c) <= #[trigger] dist(m, a, b) + #[trigger] dist(m, b, c)
}

/// A path's distance is that up to its fix `a` plus that from fix `a` on.
pub proof fn lemma_path_sum_split(m: Seq<Vec<u32>>, p: Seq<usize>, a: int)
    requires
        0 <= a < p.len(),
    ensures
        path_sum(m, p) == path_sum(m, p.subrange(0, a + 1)) + path_sum(m, p.subrange(a, p.len() as int)),
    decreases a,
{
    if a == 0 {
        assert(p.subrange(0, 1).len() == 1);
        assert(p.subrange(0, p.len() as int) =~= p);
    } else {
        let q = p.drop_first();
        lemma_path_sum_split(m, q, a - 1);
        assert(p.subrange(0, a + 1).drop_first() =~= q.subrange(0, a));
        assert(q.subrange(a - 1, q.len() as int) =~= p.subrange(a, p.len() as int));
    }
}

/// In a strictly increasing path whose consecutive fixes all lie next to
/// each other, fix `b` lies `b` after the first.
proof fn lemma_no_gap(p: Seq<usize>, b: int)
    requires
        0 <= b < p.len(),
        forall|a: int| 0 <= a < p.len() - 1 ==> #[trigger] p[a + 1] == p[a] + 1,
    ensures
        p[b] == p[0] + b,
    decreases b,
{
    if b > 0 {
        lemma_no_gap(p, b - 1);
        assert(p[(b - 1) + 1] == p[b - 1] + 1);
    }
}

/// Appending a later fix keeps a path increasing and makes it no shorter.
proof fn lemma_append_longer(m: Seq<Vec<u32>>, w: Seq<usize>, y: usize)
    requires
        w.len() >= 1,
        is_increasing(w),
        w.last() < y,
    ensures
        is_increasing(w.push(y)),
        w.push(y)[0] == w[0],
        path_sum(m, w.push(y)) >= path_sum(m, w),
{
    let w2 = w.push(y);
    assert(w2.drop_last() =~= w);
    lemma_path_sum_last(m, w2);
    assert forall|u: int, v: int| 0 <= u < v < w2.len() implies w2[u] < w2[v] by {
        if v < w.len() {
            assert(w[u] < w[v]);
        } else if u < w.len() - 1 {
            assert(w[u] < w[w.len() - 1]);
        }
    }
}

/// Inserting the fix right after `w[a]`, where the next turnpoint lies
/// further on, keeps a path increasing and, by the triangle inequality,
/// makes it no shorter.
proof fn lemma_insert_longer(m: Seq<Vec<u32>>, w: Seq<usize>, a: int) -> (w2: Seq<usize>)
    requires
        is_triangular(m),
        keeps_triangle(m),
        is_increasing(w),
        in_route(w, m.len() as int),
        0 <= a < w.len() - 1,
        w[a + 1] != w[a] + 1,
    ensures
        w2.len() == w.len() + 1,
        is_increasing(w2),
        in_route(w2, m.len() as int),
        w2[0] == w[0],
        path_sum(m, w2) >= path_sum(m, w),
{
    let x = (w[a] + 1) as usize;
    let left = w.subrange(0, a + 1);
    let right = w.subrange(a + 1, w.len() as int);
    let w2 = left + seq![x] + right;
    assert(w[a] < w[a + 1]);
    assert forall|u: int, v: int| 0 <= u < v < w2.len() implies w2[u] < w2[v] by {
        if u <= a && v <= a {
            assert(w[u] < w[v]);
        } else if u <= a && v == a + 1 {
            if u < a {
                assert(w[u] < w[a]);
            }
        } else if u <= a {
            assert(w[u] < w[v - 1]);
        } else if u == a + 1 {
            if v - 1 > a + 1 {
                assert(w[a + 1] < w[v - 1]);
            }
        } else {
            assert(w[u - 1] < w[v - 1]);
        }
    }
    assert forall|u: int| 0 <= u < w2.len() implies w2[u] < m.len() by {
        if u > a + 1 {
            assert(w2[u] == w[u - 1]);
        } else if u == a + 1 {
            assert(w[a + 1] < m.len());
        }
    }
    lemma_path_sum_split(m, w, a);
    lemma_path_sum_split(m, w2, a);
    assert(w2.subrange(0, a + 1) =~= left);
    assert(w.subrange(0, a + 1) =~= left);
    let wr = w.subrange(a, w.len() as int);
    let w2r = w2.subrange(a, w2.len() as int);
    assert(wr.drop_first() =~= right);
    assert(w2r.drop_first().drop_first() =~= right);
    assert(path_sum(m, wr) == dist(m, w[a] as int, w[a + 1] as int) + path_sum(m, right));
    assert(path_sum(m, w2r) == dist(m, w[a] as int, x as int) + path_sum(m, w2r.drop_first()));
    assert(path_sum(m, w2r.drop_first()) == dist(m, x as int, w[a + 1] as int) + path_sum(m, right));
    assert(dist(m, w[a] as int, w[a + 1] as int) <= dist(m, w[a] as int, x as int) + dist(m, x as int, w[a + 1] as int));
    w2
}

/// With distances that keep the triangle inequality, a cell of the
/// unconstrained table never shrinks as the leg count grows.
pub proof fn lemma_cells_grow(m: Seq<Vec<u32>>, alts: Seq<i16>, t: Seq<Seq<GraphCell>>, k: int, i: int)
    requires
        m.len() <= usize::MAX,
        is_triangular(m),
        keeps_triangle(m),
        table_ok(m, alts, None, t),
        0 <= k,
        k + 1 < t.len(),
        0 <= i < t[k + 1].len(),
    ensures
        t[k][i].distance <= t[k + 1][i].distance,
{
    assert(layer_ok(m, alts, None, below_of(t, k), k, t[k]));
    assert(layer_ok(m, alts, None, below_of(t, k + 1), k + 1, t[k + 1]));
    let n = m.len() as int;
    lemma_walk(m, alts, None, t, k, i);
    let w = walk(t, k, i);
    if (w.last() as int) < n - 1 {
        lemma_append_longer(m, w, (n - 1) as usize);
        lemma_upper_bound(m, alts, None, t, k + 1, w.push((n - 1) as usize));
    } else {
        if forall|a: int| 0 <= a < w.len() - 1 ==> #[trigger] w[a + 1] == w[a] + 1 {
            lemma_no_gap(w, w.len() - 1);
        }
        let a = choose|a: int| 0 <= a < w.len() - 1 && #[trigger] w[a + 1] != w[a] + 1;
        let w2 = lemma_insert_longer(m, w, a);
        lemma_upper_bound(m, alts, None, t, k + 1, w2);
    }
}

/// `q` is a path of `legs` legs from fix `c` that keeps the altitude rule.
pub open spec fn compliant_from(alts: Seq<i16>, c: int, legs: int, q: Seq<usize>) -> bool {
    &&& q.len() == legs + 1
    &&& is_increasing(q)
    &&& in_route(q, alts.len() as int)
    &&& q[0] == c
    &&& valid_spec(alts, c, q.last() as int)
}

/// In the table for the fixed start `c`, once some compliant path leaves
/// `c`, the back-pointers from `c` give a compliant path, worth its distance,
/// and no compliant path from `c` is longer: the penalty never wins.
pub proof fn lemma_start_optimal(m: Seq<Vec<u32>>, alts: Seq<i16>, c: usize, t: Seq<Seq<GraphCell>>, q: Seq<usize>)
    requires
        inputs_ok(m, alts, Some(c)),
        table_ok(m, alts, Some(c), t),
        1 <= t.len() <= MAX_LEGS,
        compliant_from(alts, c as int, t.len() as int, q),
    ensures
        c < top(t).len(),
        compliant(t, alts, c as int),
        path_sum(m, top_walk(t, c as int)) == top(t)[c as int].distance,
        path_sum(m, q) <= top(t)[c as int].distance,
{
    let k = t.len() - 1;
    lemma_upper_bound(m, alts, Some(c), t, k, q);
    lemma_walk(m, alts, Some(c), t, k, c as int);
    let w = top_walk(t, c as int);
    lemma_path_sum_bounds(m, w);
    lemma_path_sum_bounds(m, q);
    assert(k * (u32::MAX as int) < PENALTY) by (nonlinear_arith)
        requires
            0 <= k < MAX_LEGS,
    ;
    assert(leaf_penalty(alts, Some(c), q.last() as int) == 0);
}

/// The top layer of a table.
pub open spec fn top(t: Seq<Seq<GraphCell>>) -> Seq<GraphCell> {
    t[t.len() - 1]
}

/// The path that the back-pointers give from fix `i` of the top layer.
pub open spec fn top_walk(t: Seq<Seq<GraphCell>>, i: int) -> Seq<usize> {
    walk(t, t.len() - 1, i)
}

/// The path from fix `i` of the top layer keeps the altitude rule.
pub open spec fn compliant(t: Seq<Seq<GraphCell>>, alts: Seq<i16>, i: int) -> bool {
    valid_spec(alts, i, top_walk(t, i).last() as int)
}

/// Fix `i` takes part in the search.
pub open spec fn eligible(t: Seq<Seq<GraphCell>>, alts: Seq<i16>, only_compliant: bool, i: int) -> bool {
    only_compliant ==> compliant(t, alts, i)
}

/// Fix `i` holds the first largest top-layer distance, among the compliant
/// paths when `only_compliant` is set and among all paths otherwise.
pub open spec fn first_best(t: Seq<Seq<GraphCell>>, alts: Seq<i16>, only_compliant: bool, i: int) -> bool {
    &&& 0 <= i < top(t).len()
    &&& eligible(t, alts, only_compliant, i)
    &&& forall|j: int| 0 <= j < top(t).len() && #[trigger] eligible(t, alts, only_compliant, j)
        ==> top(t)[j].distance <= top(t)[i].distance
    &&& forall|j: int| 0 <= j < i && #[trigger] eligible(t, alts, only_compliant, j)
        ==> top(t)[j].distance < top(t)[i].distance
}

/// At most one fix holds the first best distance.
pub proof fn lemma_first_best_unique(t: Seq<Seq<GraphCell>>, alts: Seq<i16>, only_compliant: bool, i1: int, i2: int)
    requires
        first_best(t, alts, only_compliant, i1),
        first_best(t, alts, only_compliant, i2),
    ensures
        i1 == i2,
{
    if i1 < i2 {
        assert(top(t)[i1].distance < top(t)[i2].distance);
        assert(top(t)[i2].distance <= top(t)[i1].distance);
    } else if i2 < i1 {
        assert(top(t)[i2].distance < top(t)[i1].distance);
        assert(top(t)[i1].distance <= top(t)[i2].distance);
    }
}

/// `a` comes before `b`: by distance, then by start.
pub open spec fn pair_lt(a: (i64, usize), b: (i64, usize)) -> bool {
    a.0 < b.0 || (a.0 == b.0 && a.1 < b.1)
}

/// Relies on `slice::sort_unstable`: it puts the pairs in ascending order
/// (tuples compare by their first field, then their second) and keeps the
/// same elements. With no element twice, the order is strict.
#[verifier::external_body]
fn sort_pairs(v: &mut Vec<(i64, usize)>)
    requires
        old(v)@.no_duplicates(),
    ensures
        final(v)@.len() == old(v)@.len(),
        forall|x: (i64, usize)| final(v)@.contains(x) <==> old(v)@.contains(x),
        forall|a: int, b: int| 0 <= a < b < final(v)@.len() ==> pair_lt(final(v)@[a], final(v)@[b]),
{
    v.sort_unstable();
}

/// `s` lists, in increasing order, the fixes after `start` and after
/// `minimum_stop` that keep the altitude rule against `start`.
pub open spec fn stops_ok(alts: Seq<i16>, start: int, minimum_stop: int, s: Seq<usize>) -> bool {
    &&& is_increasing(s)
    &&& forall|a: int| 0 <= a < s.len() ==> {
        &&& start < #[trigger] s[a] < alts.len()
        &&& minimum_stop < s[a]
        &&& valid_spec(alts, start, s[a] as int)
    }
    &&& forall|e: int| start < e < alts.len() && minimum_stop < e && valid_spec(alts, start, e)
        ==> s.contains(e as usize)
}

/// `s` lists the top-layer fixes whose distance exceeds `d`, with that
/// distance, in ascending order of distance, then of start.
pub open spec fn candidates_ok(t: Seq<Seq<GraphCell>>, d: int, s: Seq<StartCandidate>) -> bool {
    &&& forall|a: int| 0 <= a < s.len() ==> {
        &&& (#[trigger] s[a]).start < top(t).len()
        &&& s[a].distance == top(t)[s[a].start as int].distance
        &&& s[a].distance > d
    }
    &&& forall|j: int| 0 <= j < top(t).len() && top(t)[j].distance > d
        ==> exists|a: int| 0 <= a < s.len() && (#[trigger] s[a]).start == j
    &&& forall|a: int, b: int| 0 <= a < b < s.len()
        ==> pair_lt((s[a].distance, s[a].start), (s[b].distance, s[b].start))
}

/// Two increasing sequences with the same elements are equal.
pub proof fn lemma_increasing_unique(s1: Seq<usize>, s2: Seq<usize>)
    requires
        is_increasing(s1),
        is_increasing(s2),
        forall|x: usize| s1.contains(x) <==> s2.contains(x),
    ensures
        s1 == s2,
    decreases s1.len(),
{
    if s1.len() == 0 {
        if s2.len() > 0 {
            assert(s2.contains(s2[0]));
        }
        assert(s1 =~= s2);
    } else {
        assert(s1.contains(s1[0]));
        let b = choose|b: int| 0 <= b < s2.len() && s2[b] == s1[0];
        assert(s2.contains(s2[0]));
        let a = choose|a: int| 0 <= a < s1.len() && s1[a] == s2[0];
        if a > 0 {
            assert(s1[0] < s1[a]);
            assert(s2[0] <= s2[b]);
        }
        assert(s1[0] == s2[0]);
        let t1 = s1.drop_first();
        let t2 = s2.drop_first();
        assert forall|x: usize| t1.contains(x) <==> t2.contains(x) by {
            if t1.contains(x) {
                let i = choose|i: int| 0 <= i < t1.len() && t1[i] == x;
                assert(s1[0] < s1[i + 1]);
                assert(s1.contains(x));
                let j = choose|j: int| 0 <= j < s2.len() && s2[j] == x;
                assert(j > 0);
                assert(t2[j - 1] == x);
            }
            if t2.contains(x) {
                let j = choose|j: int| 0 <= j < t2.len() && t2[j] == x;
                assert(s2[0] < s2[j + 1]);
                assert(s2.contains(x));
                let i = choose|i: int| 0 <= i < s1.len() && s1[i] == x;
                assert(i > 0);
                assert(t1[i - 1] == x);
            }
        }
        lemma_increasing_unique(t1, t2);
        assert(s1.len() == s2.len());
        assert forall|k: int| 0 <= k < s1.len() implies s1[k] == s2[k] by {
            if k > 0 {
                assert(s1[k] == t1[k - 1]);
                assert(s2[k] == t2[k - 1]);
            }
        }
        assert(s1 =~= s2);
    }
}

/// The candidate list is fixed by the table and `d`.
pub proof fn lemma_candidates_unique(t: Seq<Seq<GraphCell>>, d: int, s1: Seq<StartCandidate>, s2: Seq<StartCandidate>)
    requires
        candidates_ok(t, d, s1),
        candidates_ok(t, d, s2),
    ensures
        s1 == s2,
    decreases s1.len(),
{
    // each holds exactly the top-layer fixes above `d`
    assert forall|x: StartCandidate| s1.contains(x) <==> s2.contains(x) by {
        if s1.contains(x) {
            let a = choose|a: int| 0 <= a < s1.len() && s1[a] == x;
            assert(s1[a].start < top(t).len());
            let b = choose|b: int| 0 <= b < s2.len() && (#[trigger] s2[b]).start == x.start;
            assert(s2[b] == x);
        }
        if s2.contains(x) {
            let b = choose|b: int| 0 <= b < s2.len() && s2[b] == x;
            assert(s2[b].start < top(t).len());
            let a = choose|a: int| 0 <= a < s1.len() && (#[trigger] s1[a]).start == x.start;
            assert(s1[a] == x);
        }
    }
    lemma_sorted_candidates_unique(s1, s2);
}

pub open spec fn sorted_candidates(s: Seq<StartCandidate>) -> bool {
    forall|a: int, b: int| 0 <= a < b < s.len() ==> pair_lt((s[a].distance, s[a].start), (s[b].distance, s[b].start))
}

proof fn lemma_sorted_candidates_unique(s1: Seq<StartCandidate>, s2: Seq<StartCandidate>)
    requires
        sorted_candidates(s1),
        sorted_candidates(s2),
        forall|x: StartCandidate| s1.contains(x) <==> s2.contains(x),
    ensures
        s1 == s2,
    decreases s1.len(),
{
    if s1.len() == 0 {
        if s2.len() > 0 {
            assert(s2.contains(s2[0]));
        }
        assert(s1 =~= s2);
    } else {
        assert(s1.contains(s1[0]));
        let b = choose|b: int| 0 <= b < s2.len() && s2[b] == s1[0];
        assert(s2.contains(s2[0]));
        let a = choose|a: int| 0 <= a < s1.len() && s1[a] == s2[0];
        if a > 0 && b > 0 {
            assert(pair_lt((s1[0].distance, s1[0].start), (s1[a].distance, s1[a].start)));
            assert(pair_lt((s2[0].distance, s2[0].start), (s2[b].distance, s2[b].start)));
        }
        assert(s1[0] == s2[0]);
        let t1 = s1.drop_first();
        let t2 = s2.drop_first();
        assert forall|x: StartCandidate| t1.contains(x) <==> t2.contains(x) by {
            if t1.contains(x) {
                let i = choose|i: int| 0 <= i < t1.len() && t1[i] == x;
                assert(pair_lt((s1[0].distance, s1[0].start), (s1[i + 1].distance, s1[i + 1].start)));
                assert(s1.contains(x));
                let j = choose|j: int| 0 <= j < s2.len() && s2[j] == x;
                assert(j > 0);
                assert(t2[j - 1] == x);
            }
            if t2.contains(x) {
                let j = choose|j: int| 0 <= j < t2.len() && t2[j] == x;
                assert(pair_lt((s2[0].distance, s2[0].start), (s2[j + 1].distance, s2[j + 1].start)));
                assert(s2.contains(x));
                let i = choose|i: int| 0 <= i < s1.len() && s1[i] == x;
                assert(i > 0);
                assert(t1[i - 1] == x);
            }
        }
        lemma_sorted_candidates_unique(t1, t2);
        assert(s1.len() == s2.len());
        assert forall|k: int| 0 <= k < s1.len() implies s1[k] == s2[k] by {
            if k > 0 {
                assert(s1[k] == t1[k - 1]);
                assert(s2[k] == t2[k - 1]);
            }
        }
        assert(s1 =~= s2);
    }
}

impl StartCandidate {
    /// A candidate starting at `start` with bound `distance`.
    pub fn new(distance: i64, start: usize) -> (r: Self)
        ensures
            r.distance == distance,
            r.start == start,
    {
        StartCandidate { distance, start }
    }

    /// The fixes that may close a flight from this start: after the start,
    /// after `minimum_stop`, and within the altitude rule.
    pub fn get_valid_stops(&self, route: &[i16], minimum_stop: usize) -> (r: Vec<usize>)
        requires
            self.start < route@.len(),
        ensures
            stops_ok(route@, self.start as int, minimum_stop as int, r@),
    {
        let n = route.len();
        let mut stops: Vec<usize> = Vec::new();
        let mut e: usize = self.start + 1;
        while e < route.len()
            invariant
                self.start < e <= route@.len(),
                is_increasing(stops@),
                forall|a: int| 0 <= a < stops@.len() ==> {
                    &&& self.start < #[trigger] stops@[a] < e
                    &&& minimum_stop < stops@[a]
                    &&& valid_spec(route@, self.start as int, stops@[a] as int)
                },
                forall|f: int| self.start < f < e && minimum_stop < f && valid_spec(route@, self.start as int, f)
                    ==> stops@.contains(f as usize),
            decreases route@.len() - e,
        {
            if e > minimum_stop && route.valid(self.start, e) {
                let ghost old_stops = stops@;
                stops.push(e);
                proof {
                    assert(stops@.last() == e);
                    assert forall|f: int| self.start < f < e + 1 && minimum_stop < f && valid_spec(route@, self.start as int, f)
                        implies stops@.contains(f as usize) by {
                        if f < e {
                            assert(old_stops.contains(f as usize));
                            let a = choose|a: int| 0 <= a < old_stops.len() && old_stops[a] == f as usize;
                            assert(stops@[a] == f as usize);
                        } else {
                            assert(stops@[stops@.len() - 1] == f as usize);
                        }
                    }
                }
            }
            e = e + 1;
        }
        stops
    }
}

impl Graph {
    /// Builds the graph without the altitude rule.
    pub fn from_distance_matrix(dist_matrix: &[Vec<u32>], legs: usize) -> (graph: Graph)
        requires
            is_triangular(dist_matrix@),
            1 <= legs <= MAX_LEGS,
            legs + 1 <= dist_matrix@.len(),
        ensures
            graph.start == None::<usize>,
            forall|alts: Seq<i16>| #[trigger] graph.wf(dist_matrix@, alts, legs as int),
    {
        let none: Vec<i16> = Vec::new();
        let graph = build(dist_matrix, none.as_slice(), None, legs);
        proof {
            assert forall|alts: Seq<i16>| #[trigger] graph.wf(dist_matrix@, alts, legs as int) by {
                lemma_unconstrained_table(dist_matrix@, none@, alts, graph.layers());
            }
        }
        graph
    }

    /// Builds the graph for a fixed start: a finish that breaks the altitude
    /// rule against the candidate's start costs `PENALTY`.
    pub fn for_candidate(
        candidate: &StartCandidate,
        dist_matrix: &[Vec<u32>],
        route: &[i16],
        legs: usize,
    ) -> (graph: Graph)
        requires
            is_triangular(dist_matrix@),
            route@.len() == dist_matrix@.len(),
            candidate.start < route@.len(),
            1 <= legs <= MAX_LEGS,
            legs + 1 <= dist_matrix@.len(),
        ensures
            graph.start == Some(candidate.start),
            graph.wf(dist_matrix@, route@, legs as int),
            forall|q: Seq<usize>| #[trigger] compliant_from(route@, candidate.start as int, legs as int, q) ==> {
                &&& compliant(graph.layers(), route@, candidate.start as int)
                &&& path_sum(dist_matrix@, q) <= top(graph.layers())[candidate.start as int].distance
                &&& path_sum(dist_matrix@, top_walk(graph.layers(), candidate.start as int))
                    == top(graph.layers())[candidate.start as int].distance
            },
    {
        let graph = build(dist_matrix, route, Some(candidate.start), legs);
        proof {
            assert forall|q: Seq<usize>| #[trigger] compliant_from(route@, candidate.start as int, legs as int, q) implies {
                &&& compliant(graph.layers(), route@, candidate.start as int)
                &&& path_sum(dist_matrix@, q) <= top(graph.layers())[candidate.start as int].distance
                &&& path_sum(dist_matrix@, top_walk(graph.layers(), candidate.start as int))
                    == top(graph.layers())[candidate.start as int].distance
            } by {
                lemma_start_optimal(dist_matrix@, route@, candidate.start, graph.layers(), q);
            }
        }
        graph
    }

    /// The path from fix `i` of the top layer.
    fn top_path(&self, n: usize, i: usize) -> (path: Vec<usize>)
        requires
            links_ok(self.layers(), n as int),
            self.g@.len() >= 1,
            i < top(self.layers()).len(),
        ensures
            path@ == top_walk(self.layers(), i as int),
    {
        let ghost t = self.layers();
        let legs = self.g.len();
        let mut path: Vec<usize> = Vec::new();
        let mut k: usize = legs;
        let mut cur: usize = i;
        while k > 0
            invariant
                t == self.layers(),
                links_ok(t, n as int),
                legs == t.len(),
                k <= legs,
                k > 0 ==> cur < t[k - 1].len(),
                path@ + walk(t, k - 1, cur as int) == top_walk(t, i as int),
            decreases k,
        {
            let ghost before = path@;
            proof {
                assert(self.g@[k - 1]@ == t[k - 1]);
            }
            let next = self.g[k - 1][cur].prev_index;
            proof {
                assert(walk(t, k - 1, cur as int) == seq![cur] + walk(t, k - 2, next as int));
            }
            path.push(cur);
            proof {
                assert(path@ + walk(t, k - 2, next as int) =~= before + walk(t, k - 1, cur as int));
            }
            cur = next;
            k = k - 1;
        }
        path.push(cur);
        proof {
            assert(walk(t, -1, cur as int) == seq![cur]);
        }
        path
    }

    /// The first top-layer fix with the largest distance, among compliant
    /// paths when `only_compliant` is set.
    fn best_top(&self, route: &[i16], only_compliant: bool) -> (r: Option<usize>)
        requires
            links_ok(self.layers(), route@.len() as int),
            self.g@.len() >= 1,
        ensures
            r is None <==> forall|i: int| 0 <= i < top(self.layers()).len()
                ==> !#[trigger] eligible(self.layers(), route@, only_compliant, i),
            r matches Some(i) ==> first_best(self.layers(), route@, only_compliant, i as int),
    {
        let ghost t = self.layers();
        let n = route.len();
        let legs = self.g.len();
        proof {
            assert(self.g@[legs - 1]@ == top(t));
        }
        let last = &self.g[legs - 1];
        let mut found = false;
        let mut b: usize = 0;
        let mut i: usize = 0;
        while i < last.len()
            invariant
                t == self.layers(),
                n == route@.len(),
                links_ok(t, n as int),
                legs == t.len(),
                legs >= 1,
                last@ == top(t),
                i <= last@.len(),
                !found ==> forall|j: int| 0 <= j < i ==> !#[trigger] eligible(t, route@, only_compliant, j),
                found ==> {
                    &&& b < i
                    &&& eligible(t, route@, only_compliant, b as int)
                    &&& forall|j: int| 0 <= j < i && #[trigger] eligible(t, route@, only_compliant, j)
                        ==> top(t)[j].distance <= top(t)[b as int].distance
                    &&& forall|j: int| 0 <= j < b && #[trigger] eligible(t, route@, only_compliant, j)
                        ==> top(t)[j].distance < top(t)[b as int].distance
                },
            decreases last@.len() - i,
        {
            let ok = if only_compliant {
                let path = self.top_path(n, i);
                proof {
                    lemma_walk_shape(t, n as int, legs - 1, i as int);
                }
                route.valid(path[0], path[legs])
            } else {
                true
            };
            assert(ok == eligible(t, route@, only_compliant, i as int));
            if ok && (!found || last[i].distance > last[b].distance) {
                found = true;
                b = i;
            }
            i = i + 1;
        }
        if found {
            Some(b)
        } else {
            None
        }
    }

    /// The longest compliant path that the top layer reconstructs, if any.
    /// Its distance is that of its top-layer cell. On a graph built for a
    /// fixed start, no compliant path from that start is longer.
    pub fn find_best_valid_solution(&self, route: &[i16]) -> (r: Option<OptimizationResult>)
        requires
            links_ok(self.layers(), route@.len() as int),
            self.g@.len() >= 1,
        ensures
            r is None <==> forall|i: int| 0 <= i < top(self.layers()).len() ==> !compliant(self.layers(), route@, i),
            r matches Some(res) ==> exists|i: int| {
                &&& first_best(self.layers(), route@, true, i)
                &&& res.path@ == top_walk(self.layers(), i)
                &&& res.distance == top(self.layers())[i].distance
            },
            forall|m: Seq<Vec<u32>>, c: usize, q: Seq<usize>|
                self.start == Some(c) && #[trigger] self.wf(m, route@, self.g@.len() as int)
                    && #[trigger] compliant_from(route@, c as int, self.g@.len() as int, q)
                    ==> (r matches Some(res) && path_sum(m, q) <= res.distance),
    {
        let r = match self.best_top(route, true) {
            None => {
                proof {
                    assert forall|i: int| 0 <= i < top(self.layers()).len() implies !compliant(self.layers(), route@, i) by {
                        assert(!eligible(self.layers(), route@, true, i));
                    }
                }
                None
            },
            Some(i) => {
                let path = self.top_path(route.len(), i);
                proof {
                    assert(self.g@[self.g@.len() - 1]@ == top(self.layers()));
                }
                let distance = self.g[self.g.len() - 1][i].distance;
                Some(OptimizationResult { path, distance })
            },
        };
        proof {
            let t = self.layers();
            assert forall|m: Seq<Vec<u32>>, c: usize, q: Seq<usize>|
                self.start == Some(c) && #[trigger] self.wf(m, route@, self.g@.len() as int)
                    && #[trigger] compliant_from(route@, c as int, self.g@.len() as int, q)
                implies (r matches Some(res) && path_sum(m, q) <= res.distance) by {
                lemma_start_optimal(m, route@, c, t, q);
                assert(eligible(t, route@, true, c as int));
                if let Some(res) = r {
                    let i = choose|i: int| {
                        &&& first_best(t, route@, true, i)
                        &&& res.path@ == top_walk(t, i)
                        &&& res.distance == top(t)[i].distance
                    };
                    assert(top(t)[c as int].distance <= top(t)[i].distance);
                }
            }
        }
        r
    }

    /// The longest path that the top layer reconstructs, compliant or not.
    pub fn find_best_solution(&self, route: &[i16]) -> (r: OptimizationResult)
        requires
            links_ok(self.layers(), route@.len() as int),
            self.g@.len() >= 1,
            top(self.layers()).len() >= 1,
        ensures
            exists|i: int| {
                &&& first_best(self.layers(), route@, false, i)
                &&& r.path@ == top_walk(self.layers(), i)
                &&& r.distance == top(self.layers())[i].distance
            },
    {
        let i = match self.best_top(route, false) {
            Some(i) => i,
            None => {
                proof {
                    assert(eligible(self.layers(), route@, false, 0));
                }
                0
            },
        };
        let path = self.top_path(route.len(), i);
        proof {
            assert(self.g@[self.g@.len() - 1]@ == top(self.layers()));
        }
        let distance = self.g[self.g.len() - 1][i].distance;
        proof {
            assert(first_best(self.layers(), route@, false, i as int));
        }
        OptimizationResult { path, distance }
    }

    /// The top-layer fixes whose distance exceeds `current_best`, in
    /// ascending order of distance, then of start.
    pub fn get_start_candidates(&self, current_best: i64) -> (r: Vec<StartCandidate>)
        requires
            self.g@.len() >= 1,
        ensures
            candidates_ok(self.layers(), current_best as int, r@),
    {
        let ghost tp = top(self.layers());
        proof {
            assert(self.g@[self.g@.len() - 1]@ == tp);
        }
        let last = &self.g[self.g.len() - 1];
        let mut pairs: Vec<(i64, usize)> = Vec::new();
        let mut j: usize = 0;
        while j < last.len()
            invariant
                last@ == tp,
                j <= tp.len(),
                forall|a: int| 0 <= a < pairs@.len() ==> {
                    &&& (#[trigger] pairs@[a]).1 < j
                    &&& pairs@[a].0 == tp[pairs@[a].1 as int].distance
                    &&& pairs@[a].0 > current_best
                },
                forall|a: int, b: int| 0 <= a < b < pairs@.len() ==> pairs@[a].1 < pairs@[b].1,
                forall|i: int| 0 <= i < j && tp[i].distance > current_best
                    ==> pairs@.contains((tp[i].distance, i as usize)),
            decreases tp.len() - j,
        {
            if last[j].distance > current_best {
                let ghost before = pairs@;
                pairs.push((last[j].distance, j));
                proof {
                    assert(pairs@.last() == (tp[j as int].distance, j));
                    assert forall|i: int| 0 <= i < j + 1 && tp[i].distance > current_best
                        implies pairs@.contains((tp[i].distance, i as usize)) by {
                        if i < j {
                            assert(before.contains((tp[i].distance, i as usize)));
                            let a = choose|a: int| 0 <= a < before.len() && before[a] == (tp[i].distance, i as usize);
                            assert(pairs@[a] == before[a]);
                        } else {
                            assert(pairs@[pairs@.len() - 1] == (tp[i].distance, i as usize));
                        }
                    }
                }
            }
            j = j + 1;
        }
        proof {
            assert forall|a: int, b: int| 0 <= a < pairs@.len() && 0 <= b < pairs@.len() && a != b
                implies pairs@[a] != pairs@[b] by {
                if a < b {
                    assert(pairs@[a].1 < pairs@[b].1);
                } else {
                    assert(pairs@[b].1 < pairs@[a].1);
                }
            }
        }
        let ghost unsorted = pairs@;
        sort_pairs(&mut pairs);
        let mut r: Vec<StartCandidate> = Vec::new();
        let mut a: usize = 0;
        while a < pairs.len()
            invariant
                a <= pairs@.len(),
                r@.len() == a,
                forall|b: int| 0 <= b < a ==> (#[trigger] r@[b]).distance == pairs@[b].0 && r@[b].start == pairs@[b].1,
            decreases pairs@.len() - a,
        {
            r.push(StartCandidate::new(pairs[a].0, pairs[a].1));
            a = a + 1;
        }
        proof {
            assert forall|c: int| 0 <= c < r@.len() implies {
                &&& (#[trigger] r@[c]).start < tp.len()
                &&& r@[c].distance == tp[r@[c].start as int].distance
                &&& r@[c].distance > current_best
            } by {
                assert(pairs@.contains(pairs@[c]));
                assert(unsorted.contains(pairs@[c]));
                let u = choose|u: int| 0 <= u < unsorted.len() && unsorted[u] == pairs@[c];
                assert(r@[c].distance == pairs@[c].0 && r@[c].start == pairs@[c].1);
            }
            assert forall|i: int| 0 <= i < tp.len() && tp[i].distance > current_best
                implies exists|c: int| 0 <= c < r@.len() && (#[trigger] r@[c]).start == i by {
                assert(unsorted.contains((tp[i].distance, i as usize)));
                assert(pairs@.contains((tp[i].distance, i as usize)));
                let c = choose|c: int| 0 <= c < pairs@.len() && pairs@[c] == (tp[i].distance, i as usize);
                assert(r@[c].start == i);
            }
            assert forall|c: int, d: int| 0 <= c < d < r@.len()
                implies pair_lt((r@[c].distance, r@[c].start), (r@[d].distance, r@[d].start)) by {
                assert(pair_lt(pairs@[c], pairs@[d]));
                assert(r@[c].distance == pairs@[c].0 && r@[c].start == pairs@[c].1);
                assert(r@[d].distance == pairs@[d].0 && r@[d].start == pairs@[d].1);
            }
        }
        r
    }
}

} // verus!
