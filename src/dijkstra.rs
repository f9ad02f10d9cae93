//! The Dijkstra kernel: best paths under the scalar cost `sum_m alpha[m] * metric[m]`.
//!
//! Nodes are settled in order of increasing cost, ties broken by lower node index,
//! so runs are reproducible. Costs are exact integers; `INFINITY` marks nodes that no
//! path of smaller cost reaches.

use crate::graph::{Graph, GraphModel};
use crate::heap::{entry_le, MinHeap};
use crate::metrics::{lemma_weighted_prefix_bounds, scalarize, METRIC_CAPACITY, TERM_MAX};
use crate::paths::{costs_at_least, edge_cost, is_best_path, is_path, lemma_path_prepend, lemma_path_push, path_cost};
use crate::view::lemma_offset_bounded;
use vstd::multiset::Multiset;
use vstd::prelude::*;

verus! {

/// Cost of the nodes that the search did not reach.
pub const INFINITY: u128 = 0xFFFF_FFFF_FFFF_FFFF_FFFF_FFFF_FFFF_FFFF;

/// A best path found by the kernel.
pub struct Path {
    pub src: usize,
    pub dst: usize,
    /// Edge indices from `src` to `dst`, shortcuts included.
    pub edges: Vec<usize>,
    /// Scalar cost of the path.
    pub cost: u128,
}

/// Why a query cannot run.
#[derive(Clone, Copy, Debug, PartialEq, Eq, Structural)]
pub enum QueryError {
    /// The node index is not below the node count.
    UnknownNode(usize),
    /// The number of weights differs from the number of metrics.
    WeightCount(usize),
}

/// Reusable search state: cost label, tree edge and settle rank of each node.
pub struct Dijkstra {
    costs: Vec<u128>,
    preds: Vec<usize>,
    ranks: Vec<usize>,
    source: usize,
    weights: Ghost<Seq<u32>>,
}

/// Edge `pred[v]` enters `v` from a node settled earlier, and the labels agree with it.
pub open spec fn tree_edge_ok(
    g: GraphModel,
    alphas: Seq<u32>,
    d: Seq<u128>,
    pred: Seq<usize>,
    rank: Seq<usize>,
    v: int,
) -> bool {
    let e = pred[v] as int;
    &&& 0 <= e < g.edge_count()
    &&& g.dst[e] == v
    &&& d[g.src[e] as int] < INFINITY
    &&& d[v] == d[g.src[e] as int] + edge_cost(g, alphas, e)
    &&& rank[g.src[e] as int] < rank[v]
}

/// The labels are a shortest-path tree rooted at `s`: `d[s] == 0`, every finite label
/// is reached by its tree edge, and no edge out of a reached node undercuts a label.
pub open spec fn labels_ok(
    g: GraphModel,
    alphas: Seq<u32>,
    s: int,
    d: Seq<u128>,
    pred: Seq<usize>,
    rank: Seq<usize>,
) -> bool {
    &&& d.len() == g.node_count()
    &&& pred.len() == g.node_count()
    &&& rank.len() == g.node_count()
    &&& 0 <= s < g.node_count()
    &&& d[s] == 0
    &&& forall|e: int|
        0 <= e < g.edge_count() && d[g.src[e] as int] < INFINITY ==> #[trigger] d[g.dst[e] as int] <= d[g.src[e] as int]
            + edge_cost(g, alphas, e)
    &&& forall|v: int| 0 <= v < g.node_count() && #[trigger] d[v] < INFINITY && v != s ==> tree_edge_ok(g, alphas, d, pred, rank, v)
    &&& forall|v: int| 0 <= v < g.node_count() && #[trigger] d[v] < INFINITY ==> rank[v] < g.node_count()
}

/// Node `i` of the path `p` from `s`: `s` itself, then the destination of each edge.
pub open spec fn path_node(g: GraphModel, p: Seq<usize>, s: int, i: int) -> int {
    if i == 0 {
        s
    } else {
        g.dst[p[i - 1] as int] as int
    }
}

/// The path `p` from `s` visits no node twice.
pub open spec fn visits_distinct(g: GraphModel, p: Seq<usize>, s: int) -> bool {
    forall|i: int, j: int| 0 <= i < j <= p.len() ==> path_node(g, p, s, i) != path_node(g, p, s, j)
}

/// Settle ranks strictly increase along the path `p` from `s`.
pub open spec fn ranks_increase(g: GraphModel, p: Seq<usize>, s: int, rank: Seq<usize>) -> bool {
    &&& forall|i: int| 0 <= i <= p.len() ==> 0 <= #[trigger] path_node(g, p, s, i) < rank.len()
    &&& forall|i: int, j: int|
        0 <= i < j <= p.len() ==> rank[#[trigger] path_node(g, p, s, i)] < rank[#[trigger] path_node(g, p, s, j)]
}

proof fn lemma_ranks_prepend(g: GraphModel, e: usize, p: Seq<usize>, cur: int, rank: Seq<usize>)
    requires
        ranks_increase(g, p, cur, rank),
        g.dst[e as int] == cur,
        0 <= g.src[e as int] < rank.len(),
        rank[g.src[e as int] as int] < rank[cur],
    ensures
        ranks_increase(g, seq![e] + p, g.src[e as int] as int, rank),
{
    let q = seq![e] + p;
    let u = g.src[e as int] as int;
    assert forall|i: int| 0 <= i <= p.len() implies path_node(g, q, u, i + 1) == path_node(g, p, cur, i) by {
        if i > 0 {
            assert(q[i] == p[i - 1]);
        }
    }
    assert(path_node(g, p, cur, 0) == cur);
    assert forall|i: int| 0 <= i <= q.len() implies 0 <= #[trigger] path_node(g, q, u, i) < rank.len() by {
        if i > 0 {
            assert(path_node(g, q, u, i) == path_node(g, p, cur, i - 1));
        }
    }
    assert forall|i: int, j: int|
        0 <= i < j <= q.len() implies rank[#[trigger] path_node(g, q, u, i)] < rank[#[trigger] path_node(g, q, u, j)] by {
        assert(path_node(g, q, u, j) == path_node(g, p, cur, j - 1));
        if i > 0 {
            assert(path_node(g, q, u, i) == path_node(g, p, cur, i - 1));
        } else if j - 1 > 0 {
            assert(rank[path_node(g, p, cur, 0)] < rank[path_node(g, p, cur, j - 1)]);
        }
    }
}

proof fn lemma_ranks_distinct(g: GraphModel, p: Seq<usize>, s: int, rank: Seq<usize>)
    requires
        ranks_increase(g, p, s, rank),
    ensures
        visits_distinct(g, p, s),
{
    assert forall|i: int, j: int| 0 <= i < j <= p.len() implies path_node(g, p, s, i) != path_node(g, p, s, j) by {
        assert(rank[path_node(g, p, s, i)] < rank[path_node(g, p, s, j)]);
    }
}

/// `p` is a best path from `s` to `t` that costs less than `INFINITY`.
pub open spec fn best_below(g: GraphModel, a: Seq<u32>, s: int, t: int, p: Seq<usize>) -> bool {
    is_best_path(g, a, p, s, t) && path_cost(g, a, p) < INFINITY
}

/// `p` is such a best path, and no best path has fewer edges.
pub open spec fn fewest_hops(g: GraphModel, a: Seq<u32>, s: int, t: int, p: Seq<usize>) -> bool {
    &&& best_below(g, a, s, t, p)
    &&& forall|q: Seq<usize>| #[trigger] best_below(g, a, s, t, q) ==> p.len() <= q.len()
}

/// Edge `e` ends some best path to `t` with fewest edges.
pub open spec fn final_edge(g: GraphModel, a: Seq<u32>, s: int, t: int, e: int) -> bool {
    exists|q: Seq<usize>| #[trigger] fewest_hops(g, a, s, t, q) && q.len() > 0 && q.last() == e
}

/// The canonical best path: among the best paths with fewest edges, the one whose
/// last edge has the lowest index, and so on back to `s`. It depends on the graph,
/// the weights and the two nodes alone.
pub open spec fn canonical(g: GraphModel, a: Seq<u32>, s: int, t: int, p: Seq<usize>) -> bool
    decreases p.len(),
{
    &&& fewest_hops(g, a, s, t, p)
    &&& p.len() > 0 ==> {
        &&& forall|e: int| #[trigger] final_edge(g, a, s, t, e) ==> p.last() <= e
        &&& canonical(g, a, s, g.src[p.last() as int] as int, p.drop_last())
    }
}

/// At most one path is canonical: two searches, or one reused search, return the
/// same path.
pub proof fn lemma_canonical_unique(g: GraphModel, a: Seq<u32>, s: int, t: int, p: Seq<usize>, q: Seq<usize>)
    requires
        canonical(g, a, s, t, p),
        canonical(g, a, s, t, q),
    ensures
        p == q,
    decreases p.len(),
{
    assert(best_below(g, a, s, t, q));
    assert(best_below(g, a, s, t, p));
    if p.len() > 0 {
        assert(final_edge(g, a, s, t, p.last() as int));
        assert(final_edge(g, a, s, t, q.last() as int));
        lemma_canonical_unique(g, a, s, g.src[p.last() as int] as int, p.drop_last(), q.drop_last());
        assert(p =~= p.drop_last().push(p.last()));
        assert(q =~= q.drop_last().push(q.last()));
    } else {
        assert(p =~= q);
    }
}

/// Edge `e` continues a best path: both ends reached and the cost adds up.
pub open spec fn tight(g: GraphModel, a: Seq<u32>, d: Seq<u128>, e: int) -> bool {
    &&& d[g.src[e] as int] < INFINITY
    &&& d[g.dst[e] as int] < INFINITY
    &&& d[g.dst[e] as int] == d[g.src[e] as int] + edge_cost(g, a, e)
}

/// Edge `e` enters `v` tightly from a node one hop closer.
pub open spec fn cand(g: GraphModel, a: Seq<u32>, d: Seq<u128>, h: Seq<usize>, v: int, e: int) -> bool {
    &&& 0 <= e < g.edge_count()
    &&& g.dst[e] == v
    &&& tight(g, a, d, e)
    &&& h[g.src[e] as int] < usize::MAX
    &&& h[g.src[e] as int] + 1 == h[v]
}

/// Hop counts at a fixpoint: no tight edge shortens them.
pub open spec fn hops_fix(g: GraphModel, a: Seq<u32>, s: int, d: Seq<u128>, h: Seq<usize>) -> bool {
    &&& h.len() == g.node_count()
    &&& h[s] == 0
    &&& forall|e: int|
        0 <= e < g.edge_count() && tight(g, a, d, e) && h[g.src[e] as int] < usize::MAX ==> #[trigger] h[g.dst[e] as int]
            <= h[g.src[e] as int] + 1
}

/// Hops of the tree: every node with finite hops other than `s` has a tight in-edge
/// from a node with fewer hops.
pub open spec fn hops_witnessed(g: GraphModel, a: Seq<u32>, s: int, d: Seq<u128>, h: Seq<usize>, hw: Seq<usize>) -> bool {
    &&& hw.len() == g.node_count()
    &&& forall|v: int|
        0 <= v < g.node_count() && v != s && #[trigger] h[v] < usize::MAX ==> {
            let e = hw[v] as int;
            &&& 0 <= e < g.edge_count()
            &&& g.dst[e] == v
            &&& tight(g, a, d, e)
            &&& h[g.src[e] as int] < usize::MAX
            &&& h[g.src[e] as int] + 1 <= h[v]
        }
}

/// Sum of the entries of `h`.
pub open spec fn hop_sum(h: Seq<usize>) -> int
    decreases h.len(),
{
    if h.len() == 0 {
        0
    } else {
        hop_sum(h.drop_last()) + h.last()
    }
}

proof fn lemma_hop_sum_update(h: Seq<usize>, i: int, v: usize)
    requires
        0 <= i < h.len(),
    ensures
        hop_sum(h.update(i, v)) == hop_sum(h) - h[i] + v,
    decreases h.len(),
{
    if i < h.len() - 1 {
        lemma_hop_sum_update(h.drop_last(), i, v);
        assert(h.update(i, v).drop_last() =~= h.drop_last().update(i, v));
    } else {
        assert(h.update(i, v).drop_last() =~= h.drop_last());
    }
}

proof fn lemma_hop_sum_nonneg(h: Seq<usize>)
    ensures
        hop_sum(h) >= 0,
    decreases h.len(),
{
    if h.len() > 0 {
        lemma_hop_sum_nonneg(h.drop_last());
    }
}

/// `e` is the lowest-index candidate into its destination.
pub open spec fn min_cand(g: GraphModel, a: Seq<u32>, d: Seq<u128>, h: Seq<usize>, e: int) -> bool {
    &&& cand(g, a, d, h, g.dst[e] as int, e)
    &&& forall|e2: int| #[trigger] cand(g, a, d, h, g.dst[e] as int, e2) ==> e <= e2
}

/// Reached nodes have finite hops, at most their settle rank.
proof fn lemma_hops_finite(g: GraphModel, a: Seq<u32>, s: int, d: Seq<u128>, pred: Seq<usize>, rank: Seq<usize>, h: Seq<usize>, v: int)
    requires
        g.wf(),
        labels_ok(g, a, s, d, pred, rank),
        hops_fix(g, a, s, d, h),
        0 <= v < g.node_count(),
        d[v] < INFINITY,
    ensures
        h[v] <= rank[v],
    decreases rank[v],
{
    if v != s {
        assert(tree_edge_ok(g, a, d, pred, rank, v));
        let e = pred[v] as int;
        let u = g.src[e] as int;
        lemma_hops_finite(g, a, s, d, pred, rank, h, u);
        assert(rank[v] < g.node_count());
        assert(tight(g, a, d, e));
        assert(h[g.dst[e] as int] <= h[g.src[e] as int] + 1);
    }
}

/// A path that costs exactly the label of its end has at least that many hops, its
/// last edge is tight, and its prefix costs the label of the prefix's end.
proof fn lemma_best_hops(g: GraphModel, a: Seq<u32>, s: int, d: Seq<u128>, pred: Seq<usize>, rank: Seq<usize>, h: Seq<usize>, q: Seq<usize>, x: int)
    requires
        g.wf(),
        a.len() == g.dim(),
        labels_ok(g, a, s, d, pred, rank),
        hops_fix(g, a, s, d, h),
        is_path(g, q, s, x),
        d[x] < INFINITY,
        path_cost(g, a, q) == d[x],
    ensures
        q.len() >= h[x],
        q.len() > 0 ==> tight(g, a, d, q.last() as int) && path_cost(g, a, q.drop_last()) == d[g.src[q.last() as int] as int],
    decreases q.len(),
{
    if q.len() > 0 {
        let p = q.drop_last();
        let e = q.last() as int;
        let u = g.src[e] as int;
        assert(is_path(g, p, s, u)) by {
            if p.len() > 0 {
                assert(g.dst[q[p.len() - 1] as int] == g.src[q[p.len() as int] as int]);
                assert(p.last() == q[p.len() - 1]);
            }
            assert forall|i: int| 0 <= i < p.len() - 1 implies g.dst[#[trigger] p[i] as int] == g.src[p[i + 1] as int] by {
                assert(p[i] == q[i] && p[i + 1] == q[i + 1]);
            }
            assert forall|i: int| 0 <= i < p.len() implies #[trigger] p[i] < g.edge_count() by {
                assert(p[i] == q[i]);
            }
        }
        lemma_edge_cost_nonneg(g, a, e);
        lemma_labels_bound_paths(g, a, s, d, pred, rank, p, u);
        assert(d[g.dst[e] as int] <= d[g.src[e] as int] + edge_cost(g, a, e));
        lemma_best_hops(g, a, s, d, pred, rank, h, p, u);
        lemma_hops_finite(g, a, s, d, pred, rank, h, u);
        assert(rank[u] < g.node_count());
        assert(tight(g, a, d, e));
        assert(h[g.dst[e] as int] <= h[g.src[e] as int] + 1);
    }
}

/// Dropping the last edge of a path leaves a path to that edge's source.
proof fn lemma_path_prefix(g: GraphModel, q: Seq<usize>, s: int, x: int)
    requires
        is_path(g, q, s, x),
        q.len() > 0,
    ensures
        is_path(g, q.drop_last(), s, g.src[q.last() as int] as int),
{
    let p = q.drop_last();
    if p.len() > 0 {
        assert(g.dst[q[p.len() - 1] as int] == g.src[q[p.len() as int] as int]);
        assert(p.last() == q[p.len() - 1]);
    }
    assert forall|i: int| 0 <= i < p.len() - 1 implies g.dst[#[trigger] p[i] as int] == g.src[p[i + 1] as int] by {
        assert(p[i] == q[i] && p[i + 1] == q[i + 1]);
    }
    assert forall|i: int| 0 <= i < p.len() implies #[trigger] p[i] < g.edge_count() by {
        assert(p[i] == q[i]);
    }
}

/// A path costing the label of its end, with as many hops as the end, is a best
/// path with fewest hops.
proof fn lemma_fewest(g: GraphModel, a: Seq<u32>, s: int, d: Seq<u128>, pred: Seq<usize>, rank: Seq<usize>, h: Seq<usize>, p: Seq<usize>, v: int)
    requires
        g.wf(),
        a.len() == g.dim(),
        labels_ok(g, a, s, d, pred, rank),
        hops_fix(g, a, s, d, h),
        is_path(g, p, s, v),
        0 <= v < g.node_count(),
        d[v] < INFINITY,
        path_cost(g, a, p) == d[v],
        p.len() == h[v],
    ensures
        fewest_hops(g, a, s, v, p),
{
    assert forall|q2: Seq<usize>| #[trigger] is_path(g, q2, s, v) implies path_cost(g, a, p) <= path_cost(g, a, q2) by {
        if path_cost(g, a, q2) < INFINITY {
            lemma_labels_bound_paths(g, a, s, d, pred, rank, q2, v);
        }
    }
    assert(best_below(g, a, s, v, p));
    assert forall|q2: Seq<usize>| #[trigger] best_below(g, a, s, v, q2) implies p.len() <= q2.len() by {
        lemma_labels_bound_paths(g, a, s, d, pred, rank, q2, v);
        lemma_best_hops(g, a, s, d, pred, rank, h, q2, v);
    }
}

/// The last edge of a path that costs the label of its end in as many hops as the
/// end is a candidate.
proof fn lemma_final_edge_cand(g: GraphModel, a: Seq<u32>, s: int, d: Seq<u128>, pred: Seq<usize>, rank: Seq<usize>, h: Seq<usize>, v: int, q2: Seq<usize>)
    requires
        g.wf(),
        a.len() == g.dim(),
        labels_ok(g, a, s, d, pred, rank),
        hops_fix(g, a, s, d, h),
        0 <= v < g.node_count(),
        d[v] < INFINITY,
        is_path(g, q2, s, v),
        path_cost(g, a, q2) == d[v],
        q2.len() > 0,
        q2.len() <= h[v],
    ensures
        cand(g, a, d, h, v, q2.last() as int),
{
    let e2 = q2.last() as int;
    lemma_best_hops(g, a, s, d, pred, rank, h, q2, v);
    let u2 = g.src[e2] as int;
    lemma_path_prefix(g, q2, s, v);
    lemma_best_hops(g, a, s, d, pred, rank, h, q2.drop_last(), u2);
    lemma_hops_finite(g, a, s, d, pred, rank, h, u2);
    assert(rank[u2] < g.node_count());
    assert(h[g.dst[e2] as int] <= h[g.src[e2] as int] + 1);
}

/// A path from `s` made of lowest-index candidates is the canonical path.
proof fn lemma_walk_canonical(g: GraphModel, a: Seq<u32>, s: int, d: Seq<u128>, pred: Seq<usize>, rank: Seq<usize>, h: Seq<usize>, p: Seq<usize>, v: int)
    requires
        g.wf(),
        a.len() == g.dim(),
        labels_ok(g, a, s, d, pred, rank),
        hops_fix(g, a, s, d, h),
        is_path(g, p, s, v),
        0 <= v < g.node_count(),
        d[v] < INFINITY,
        forall|i: int| 0 <= i < p.len() ==> #[trigger] min_cand(g, a, d, h, p[i] as int),
    ensures
        canonical(g, a, s, v, p),
        path_cost(g, a, p) == d[v],
        p.len() == h[v],
    decreases p.len(),
{
    if p.len() > 0 {
        let q = p.drop_last();
        let e = p.last() as int;
        let u = g.src[e] as int;
        assert(min_cand(g, a, d, h, p[p.len() - 1] as int));
        lemma_path_prefix(g, p, s, v);
        assert forall|i: int| 0 <= i < q.len() implies #[trigger] min_cand(g, a, d, h, q[i] as int) by {
            assert(q[i] == p[i]);
        }
        lemma_walk_canonical(g, a, s, d, pred, rank, h, q, u);
        lemma_fewest(g, a, s, d, pred, rank, h, p, v);
        assert forall|e2: int| #[trigger] final_edge(g, a, s, v, e2) implies p.last() <= e2 by {
            let q2 = choose|q2: Seq<usize>| #[trigger] fewest_hops(g, a, s, v, q2) && q2.len() > 0 && q2.last() == e2;
            assert(best_below(g, a, s, v, p));
            assert(q2.len() <= p.len());
            assert(is_path(g, p, s, v));
            assert(path_cost(g, a, q2) <= path_cost(g, a, p));
            lemma_labels_bound_paths(g, a, s, d, pred, rank, q2, v);
            lemma_final_edge_cand(g, a, s, d, pred, rank, h, v, q2);
        }
    } else {
        assert(h[s] == 0);
        lemma_fewest(g, a, s, d, pred, rank, h, p, v);
    }
}

/// One step of the canonical walk keeps its invariants.
proof fn lemma_walk_step(gm: GraphModel, a: Seq<u32>, d: Seq<u128>, h: Seq<usize>, e: usize, suffix: Seq<usize>, cur: int, dst: int)
    requires
        gm.wf(),
        h.len() == gm.node_count(),
        e < gm.edge_count(),
        gm.dst[e as int] == cur,
        min_cand(gm, a, d, h, e as int),
        is_path(gm, suffix, cur, dst),
        forall|i: int| 0 <= i < suffix.len() ==> #[trigger] min_cand(gm, a, d, h, suffix[i] as int),
        ranks_increase(gm, suffix, cur, h),
    ensures
        is_path(gm, seq![e] + suffix, gm.src[e as int] as int, dst),
        forall|i: int| 0 <= i < (seq![e] + suffix).len() ==> #[trigger] min_cand(gm, a, d, h, (seq![e] + suffix)[i] as int),
        ranks_increase(gm, seq![e] + suffix, gm.src[e as int] as int, h),
        h[gm.src[e as int] as int] < h[cur],
        d[gm.src[e as int] as int] < INFINITY,
{
    lemma_path_prepend(gm, e, suffix, dst);
    lemma_ranks_prepend(gm, e, suffix, cur, h);
    let q = seq![e] + suffix;
    assert forall|i: int| 0 <= i < q.len() implies #[trigger] min_cand(gm, a, d, h, q[i] as int) by {
        if i > 0 {
            assert(q[i] == suffix[i - 1]);
        }
    }
}

/// Some path leads from `s` to `t`.
pub open spec fn reachable(g: GraphModel, s: int, t: int) -> bool {
    exists|q: Seq<usize>| #[trigger] is_path(g, q, s, t)
}

/// The graph is small enough that no simple path can cost `INFINITY`: every path of
/// fewer edges than nodes costs less.
pub open spec fn costs_fit(g: GraphModel) -> bool {
    g.node_count() * (METRIC_CAPACITY * TERM_MAX) < INFINITY
}

/// A finite label is at most its rank times the largest edge cost.
proof fn lemma_label_bound(g: GraphModel, alphas: Seq<u32>, s: int, d: Seq<u128>, pred: Seq<usize>, rank: Seq<usize>, v: int)
    requires
        g.wf(),
        alphas.len() == g.dim(),
        labels_ok(g, alphas, s, d, pred, rank),
        0 <= v < g.node_count(),
        d[v] < INFINITY,
    ensures
        d[v] <= rank[v] * (METRIC_CAPACITY * TERM_MAX),
    decreases rank[v],
{
    if v != s {
        assert(tree_edge_ok(g, alphas, d, pred, rank, v));
        let e = pred[v] as int;
        let u = g.src[e] as int;
        lemma_label_bound(g, alphas, s, d, pred, rank, u);
        lemma_edge_cost_nonneg(g, alphas, e);
        assert(rank[u] * (METRIC_CAPACITY * TERM_MAX) + METRIC_CAPACITY * TERM_MAX <= rank[v] * (METRIC_CAPACITY * TERM_MAX))
            by (nonlinear_arith)
            requires rank[u] < rank[v];
    }
}

/// When costs fit, every node reachable from `s` has a finite label.
proof fn lemma_reachable_finite(g: GraphModel, alphas: Seq<u32>, s: int, d: Seq<u128>, pred: Seq<usize>, rank: Seq<usize>, q: Seq<usize>, x: int)
    requires
        g.wf(),
        alphas.len() == g.dim(),
        labels_ok(g, alphas, s, d, pred, rank),
        costs_fit(g),
        is_path(g, q, s, x),
    ensures
        d[x] < INFINITY,
    decreases q.len(),
{
    if q.len() > 0 {
        let p = q.drop_last();
        let e = q.last() as int;
        let y = g.src[e] as int;
        assert(is_path(g, p, s, y)) by {
            if p.len() > 0 {
                assert(g.dst[q[p.len() - 1] as int] == g.src[q[p.len() as int] as int]);
                assert(p.last() == q[p.len() - 1]);
            }
            assert forall|i: int| 0 <= i < p.len() - 1 implies g.dst[#[trigger] p[i] as int] == g.src[p[i + 1] as int] by {
                assert(p[i] == q[i] && p[i + 1] == q[i + 1]);
            }
            assert forall|i: int| 0 <= i < p.len() implies #[trigger] p[i] < g.edge_count() by {
                assert(p[i] == q[i]);
            }
        }
        lemma_reachable_finite(g, alphas, s, d, pred, rank, p, y);
        lemma_label_bound(g, alphas, s, d, pred, rank, y);
        lemma_edge_cost_nonneg(g, alphas, e);
        assert(d[g.dst[e] as int] <= d[g.src[e] as int] + edge_cost(g, alphas, e));
        let n = g.node_count();
        assert(rank[y] * (METRIC_CAPACITY * TERM_MAX) + METRIC_CAPACITY * TERM_MAX <= n * (METRIC_CAPACITY * TERM_MAX))
            by (nonlinear_arith)
            requires rank[y] < n;
    }
}

/// Edge costs are non-negative and bounded.
pub proof fn lemma_edge_cost_nonneg(g: GraphModel, alphas: Seq<u32>, e: int)
    requires
        g.wf(),
        0 <= e < g.edge_count(),
        alphas.len() == g.dim(),
    ensures
        0 <= edge_cost(g, alphas, e) <= METRIC_CAPACITY * TERM_MAX,
{
    lemma_weighted_prefix_bounds(alphas, g.metrics[e], g.metrics[e].len() as int);
    assert(g.metrics[e].len() <= METRIC_CAPACITY);
    assert(g.metrics[e].len() * TERM_MAX <= METRIC_CAPACITY * TERM_MAX) by (nonlinear_arith)
        requires g.metrics[e].len() <= METRIC_CAPACITY;
}

/// Path costs are non-negative.
pub proof fn lemma_path_cost_nonneg(g: GraphModel, alphas: Seq<u32>, p: Seq<usize>)
    requires
        g.wf(),
        alphas.len() == g.dim(),
        forall|i: int| 0 <= i < p.len() ==> #[trigger] p[i] < g.edge_count(),
    ensures
        path_cost(g, alphas, p) >= 0,
    decreases p.len(),
{
    if p.len() > 0 {
        lemma_path_cost_nonneg(g, alphas, p.drop_last());
        lemma_edge_cost_nonneg(g, alphas, p.last() as int);
    }
}

/// No path from `s` to `x` that costs less than `INFINITY` undercuts the label of `x`.
pub proof fn lemma_labels_bound_paths(
    g: GraphModel,
    alphas: Seq<u32>,
    s: int,
    d: Seq<u128>,
    pred: Seq<usize>,
    rank: Seq<usize>,
    q: Seq<usize>,
    x: int,
)
    requires
        g.wf(),
        alphas.len() == g.dim(),
        labels_ok(g, alphas, s, d, pred, rank),
        is_path(g, q, s, x),
        path_cost(g, alphas, q) < INFINITY,
    ensures
        d[x] <= path_cost(g, alphas, q),
    decreases q.len(),
{
    if q.len() > 0 {
        let p = q.drop_last();
        let e = q.last() as int;
        let y = g.src[e] as int;
        assert(is_path(g, p, s, y)) by {
            if p.len() > 0 {
                assert(g.dst[q[p.len() - 1] as int] == g.src[q[p.len() as int] as int]);
                assert(p.last() == q[p.len() - 1]);
            }
            assert forall|i: int| 0 <= i < p.len() - 1 implies g.dst[#[trigger] p[i] as int] == g.src[p[i + 1] as int] by {
                assert(p[i] == q[i] && p[i + 1] == q[i + 1]);
            }
            assert forall|i: int| 0 <= i < p.len() implies #[trigger] p[i] < g.edge_count() by {
                assert(p[i] == q[i]);
            }
        }
        lemma_edge_cost_nonneg(g, alphas, e);
        lemma_labels_bound_paths(g, alphas, s, d, pred, rank, p, y);
        assert(d[g.dst[e] as int] <= d[g.src[e] as int] + edge_cost(g, alphas, e));
    }
}

/// Following tree edges back from `v` gives a path from `s` whose cost is `v`'s label.
pub proof fn lemma_tree_path(
    g: GraphModel,
    alphas: Seq<u32>,
    s: int,
    d: Seq<u128>,
    pred: Seq<usize>,
    rank: Seq<usize>,
    v: int,
) -> (p: Seq<usize>)
    requires
        g.wf(),
        labels_ok(g, alphas, s, d, pred, rank),
        0 <= v < g.node_count(),
        d[v] < INFINITY,
    ensures
        is_path(g, p, s, v),
        path_cost(g, alphas, p) == d[v],
    decreases rank[v],
{
    if v == s {
        Seq::empty()
    } else {
        assert(tree_edge_ok(g, alphas, d, pred, rank, v));
        let e = pred[v];
        let u = g.src[e as int] as int;
        let q = lemma_tree_path(g, alphas, s, d, pred, rank, u);
        lemma_path_push(g, q, e, s, u);
        assert(q.push(e).drop_last() =~= q);
        q.push(e)
    }
}

/// Number of `true` entries among the first `k` of `s`.
pub open spec fn count_true(s: Seq<bool>, k: int) -> nat
    decreases k,
{
    if k <= 0 {
        0
    } else {
        count_true(s, k - 1) + if s[k - 1] { 1nat } else { 0nat }
    }
}

proof fn lemma_count_true_set(s: Seq<bool>, i: int, k: int)
    requires
        0 <= i < s.len(),
        0 <= k <= s.len(),
        !s[i],
    ensures
        count_true(s.update(i, true), k) == count_true(s, k) + if i < k { 1nat } else { 0nat },
    decreases k,
{
    if k > 0 {
        lemma_count_true_set(s, i, k - 1);
    }
}

proof fn lemma_count_true_bound(s: Seq<bool>, i: int, k: int)
    requires
        0 <= k <= s.len(),
    ensures
        count_true(s, k) <= k,
        0 <= i < k && !s[i] ==> count_true(s, k) < k,
    decreases k,
{
    if k > 0 {
        lemma_count_true_bound(s, i, k - 1);
    }
}

fn repeat<T: Copy>(n: usize, x: T) -> (r: Vec<T>)
    ensures
        r@.len() == n,
        forall|i: int| 0 <= i < n ==> r@[i] == x,
{
    let mut r: Vec<T> = Vec::with_capacity(n);
    let mut i: usize = 0;
    while i < n
        invariant
            i <= n,
            r@.len() == i,
            forall|j: int| 0 <= j < i ==> r@[j] == x,
        decreases n - i,
    {
        r.push(x);
        i = i + 1;
    }
    r
}

/// Scalar cost of edge `e`.
pub fn cost_of_edge(g: &Graph, alphas: &Vec<u32>, e: usize) -> (r: u128)
    requires
        g.wf(),
        alphas@.len() == g@.dim(),
        e < g@.edge_count(),
    ensures
        r == edge_cost(g@, alphas@, e as int),
{
    scalarize(alphas, g.metrics_of(e))
}

/// Labels, tree edges and ranks of a search that has settled `count` nodes.
pub open spec fn tree_inv(
    g: GraphModel,
    alphas: Seq<u32>,
    s: int,
    d: Seq<u128>,
    pred: Seq<usize>,
    rank: Seq<usize>,
    settled: Seq<bool>,
    count: int,
) -> bool {
    &&& d.len() == g.node_count()
    &&& pred.len() == g.node_count()
    &&& rank.len() == g.node_count()
    &&& settled.len() == g.node_count()
    &&& 0 <= s < g.node_count()
    &&& d[s] == 0
    &&& forall|v: int| 0 <= v < g.node_count() && #[trigger] settled[v] ==> d[v] < INFINITY && rank[v] < count
    &&& forall|v: int|
        0 <= v < g.node_count() && #[trigger] d[v] < INFINITY && v != s ==> {
            let e = pred[v] as int;
            &&& 0 <= e < g.edge_count()
            &&& g.dst[e] == v
            &&& settled[g.src[e] as int]
            &&& d[g.src[e] as int] < INFINITY
            &&& d[v] == d[g.src[e] as int] + edge_cost(g, alphas, e)
            &&& settled[v] ==> rank[g.src[e] as int] < rank[v]
        }
}

/// Settled nodes cost no more than unsettled ones.
pub open spec fn order_inv(d: Seq<u128>, settled: Seq<bool>) -> bool {
    forall|x: int, v: int|
        0 <= x < d.len() && 0 <= v < d.len() && #[trigger] settled[x] && !#[trigger] settled[v] ==> d[x] <= d[v]
}

/// No edge out of a settled node other than `except` undercuts a label.
pub open spec fn relaxed_inv(g: GraphModel, alphas: Seq<u32>, d: Seq<u128>, settled: Seq<bool>, except: int) -> bool {
    forall|e: int|
        0 <= e < g.edge_count() && settled[g.src[e] as int] && g.src[e] != except ==> #[trigger] d[g.dst[e] as int]
            <= d[g.src[e] as int] + edge_cost(g, alphas, e)
}

/// Every entry of the queue names a node whose label is finite and no larger than
/// the entry's cost, and every unsettled node with a finite label has its entry.
pub open spec fn queue_inv(q: Multiset<(u128, usize)>, d: Seq<u128>, settled: Seq<bool>) -> bool {
    &&& forall|y: (u128, usize)| #[trigger] q.count(y) > 0 ==> y.1 < d.len() && d[y.1 as int] <= y.0 && y.0 < INFINITY
    &&& forall|v: int| 0 <= v < d.len() && !settled[v] && d[v] < INFINITY ==> #[trigger] q.count((d[v], v as usize)) > 0
}

/// Relaxes the out-edges of the freshly settled node `u`.
fn relax_out_edges(
    g: &Graph,
    alphas: &Vec<u32>,
    u: usize,
    costs: &mut Vec<u128>,
    preds: &mut Vec<usize>,
    ranks: &Vec<usize>,
    settled: &Vec<bool>,
    heap: &mut MinHeap,
    s: Ghost<int>,
    count: Ghost<int>,
)
    requires
        old(heap).inv(),
        queue_inv(old(heap)@, old(costs)@, settled@),
        g.wf(),
        alphas@.len() == g@.dim(),
        u < g@.node_count(),
        settled@[u as int],
        tree_inv(g@, alphas@, s@, old(costs)@, old(preds)@, ranks@, settled@, count@),
        order_inv(old(costs)@, settled@),
        forall|x: int| 0 <= x < settled@.len() && #[trigger] settled@[x] ==> old(costs)@[x] <= old(costs)@[u as int],
        relaxed_inv(g@, alphas@, old(costs)@, settled@, u as int),
    ensures
        final(heap).inv(),
        queue_inv(final(heap)@, final(costs)@, settled@),
        tree_inv(g@, alphas@, s@, final(costs)@, final(preds)@, ranks@, settled@, count@),
        order_inv(final(costs)@, settled@),
        relaxed_inv(g@, alphas@, final(costs)@, settled@, -1),
        forall|x: int| 0 <= x < settled@.len() && #[trigger] settled@[x] ==> final(costs)@[x] == old(costs)@[x],
{
    let ghost gm = g@;
    let ghost a = alphas@;
    let ghost d0 = costs@;
    let du = costs[u];
    let end = g.fwd_offset(u + 1);
    let mut j = g.fwd_offset(u);
    assert(gm.fwd_offsets[u as int] <= gm.fwd_offsets[u + 1]);
    proof {
        lemma_offset_bounded(gm.fwd_offsets, gm.node_count(), u + 1);
    }
    while j < end
        invariant
            g.wf(),
            gm == g@,
            a == alphas@,
            a.len() == gm.dim(),
            u < gm.node_count(),
            settled@[u as int],
            du == costs@[u as int],
            heap.inv(),
            queue_inv(heap@, costs@, settled@),
            gm.fwd_offsets[u as int] <= j <= end,
            end == gm.fwd_offsets[u + 1],
            end <= gm.edge_count(),
            tree_inv(gm, a, s@, costs@, preds@, ranks@, settled@, count@),
            order_inv(costs@, settled@),
            forall|x: int| 0 <= x < settled@.len() && #[trigger] settled@[x] ==> costs@[x] <= du,
            forall|x: int| 0 <= x < settled@.len() && #[trigger] settled@[x] ==> costs@[x] == d0[x],
            relaxed_inv(gm, a, costs@, settled@, u as int),
            forall|k: int|
                gm.fwd_offsets[u as int] <= k < j ==> #[trigger] costs@[gm.dst[gm.fwd_edges[k] as int] as int]
                    <= du + edge_cost(gm, a, gm.fwd_edges[k] as int),
        decreases end - j,
    {
        let e = g.fwd_edge(j);
        assert(gm.src[e as int] == u) by {
            assert(gm.fwd_offsets[u as int] <= j < gm.fwd_offsets[u + 1]);
        }
        let w = g.dst_idx(e);
        let ghost before = costs@;
        if !settled[w] {
            let c = cost_of_edge(g, alphas, e);
            if c < INFINITY - du {
                let nd = du + c;
                if nd < costs[w] {
                    let ghost q0 = heap@;
                    costs.set(w, nd);
                    preds.set(w, e);
                    heap.push((nd, w));
                    proof {
                        broadcast use vstd::multiset::group_multiset_axioms;

                        assert forall|y: (u128, usize)| #[trigger] heap@.count(y) > 0 implies y.1 < costs@.len()
                            && costs@[y.1 as int] <= y.0 && y.0 < INFINITY by {
                            if y != (nd, w) {
                                assert(q0.count(y) > 0);
                            }
                        }
                        assert forall|v: int| 0 <= v < costs@.len() && !settled@[v] && costs@[v] < INFINITY implies #[trigger] heap@.count(
                            (costs@[v], v as usize)) > 0 by {
                            if v != w {
                                assert(before[v] == costs@[v]);
                                assert(q0.count((before[v], v as usize)) > 0);
                            }
                        }
                        assert forall|v: int|
                            0 <= v < gm.node_count() && #[trigger] costs@[v] < INFINITY && v != s@ implies {
                                let e2 = preds@[v] as int;
                                &&& 0 <= e2 < gm.edge_count()
                                &&& gm.dst[e2] == v
                                &&& settled@[gm.src[e2] as int]
                                &&& costs@[gm.src[e2] as int] < INFINITY
                                &&& costs@[v] == costs@[gm.src[e2] as int] + edge_cost(gm, a, e2)
                                &&& settled@[v] ==> ranks@[gm.src[e2] as int] < ranks@[v]
                            } by {
                            if v != w {
                                assert(before[v] < INFINITY);
                            }
                        }
                        assert forall|e2: int|
                            0 <= e2 < gm.edge_count() && settled@[gm.src[e2] as int] && gm.src[e2] != u implies #[trigger] costs@[gm.dst[e2] as int]
                                <= costs@[gm.src[e2] as int] + edge_cost(gm, a, e2) by {
                            assert(before[gm.dst[e2] as int] <= before[gm.src[e2] as int] + edge_cost(gm, a, e2));
                        }
                    }
                }
            }
        }
        proof {
            lemma_edge_cost_nonneg(gm, a, e as int);
            assert forall|k: int|
                gm.fwd_offsets[u as int] <= k < j + 1 implies #[trigger] costs@[gm.dst[gm.fwd_edges[k] as int] as int]
                    <= du + edge_cost(gm, a, gm.fwd_edges[k] as int) by {
                if k < j {
                    assert(before[gm.dst[gm.fwd_edges[k] as int] as int] <= du + edge_cost(gm, a, gm.fwd_edges[k] as int));
                }
            }
        }
        j = j + 1;
    }
    proof {
        assert forall|e: int|
            0 <= e < gm.edge_count() && settled@[gm.src[e] as int] && gm.src[e] != -1 implies #[trigger] costs@[gm.dst[e] as int]
                <= costs@[gm.src[e] as int] + edge_cost(gm, a, e) by {
            if gm.src[e] == u {
                let k = choose|k: int| gm.fwd_offsets[gm.src[e] as int] <= k < gm.fwd_offsets[gm.src[e] + 1] && #[trigger] gm.fwd_edges[k] == e;
                assert(costs@[gm.dst[gm.fwd_edges[k] as int] as int] <= du + edge_cost(gm, a, gm.fwd_edges[k] as int));
            }
        }
    }
}

/// Settling the cheapest unsettled node keeps the search invariants.
#[verifier::spinoff_prover]
#[verifier::rlimit(40)]
proof fn lemma_settle(
    gm: GraphModel,
    a: Seq<u32>,
    s: int,
    d: Seq<u128>,
    pred: Seq<usize>,
    rank: Seq<usize>,
    settled: Seq<bool>,
    count: int,
    u: int,
)
    requires
        gm.wf(),
        tree_inv(gm, a, s, d, pred, rank, settled, count),
        order_inv(d, settled),
        relaxed_inv(gm, a, d, settled, -1),
        0 <= u < gm.node_count(),
        !settled[u],
        d[u] < INFINITY,
        0 <= count < usize::MAX,
        forall|v: int| 0 <= v < d.len() && !settled[v] ==> d[u] <= #[trigger] d[v],
    ensures
        tree_inv(gm, a, s, d, pred, rank.update(u, count as usize), settled.update(u, true), count + 1),
        order_inv(d, settled.update(u, true)),
        forall|x: int| 0 <= x < d.len() && #[trigger] settled.update(u, true)[x] ==> d[x] <= d[u],
        relaxed_inv(gm, a, d, settled.update(u, true), u),
{
    let st = settled.update(u, true);
    let rk = rank.update(u, count as usize);
    let n = gm.node_count();
    assert forall|x: int| 0 <= x < n && #[trigger] st[x] implies d[x] <= d[u] by {
        if x != u {
            assert(settled[x] && !settled[u]);
        }
    }
    assert forall|x: int, v: int|
        0 <= x < n && 0 <= v < n && #[trigger] st[x] && !#[trigger] st[v] implies d[x] <= d[v] by {
        if x != u {
            assert(settled[x] && !settled[v]);
        }
    }
    assert forall|e: int|
        0 <= e < gm.edge_count() && st[gm.src[e] as int] && gm.src[e] != u implies #[trigger] d[gm.dst[e] as int]
            <= d[gm.src[e] as int] + edge_cost(gm, a, e) by {
        assert(settled[gm.src[e] as int]);
    }
    assert forall|v: int| 0 <= v < n && #[trigger] st[v] implies d[v] < INFINITY && rk[v] < count + 1 by {
        if v != u {
            assert(settled[v]);
        }
    }
    assert forall|v: int|
        0 <= v < n && #[trigger] d[v] < INFINITY && v != s implies {
            let e = pred[v] as int;
            &&& 0 <= e < gm.edge_count()
            &&& gm.dst[e] == v
            &&& st[gm.src[e] as int]
            &&& d[gm.src[e] as int] < INFINITY
            &&& d[v] == d[gm.src[e] as int] + edge_cost(gm, a, e)
            &&& st[v] ==> rk[gm.src[e] as int] < rk[v]
        } by {
        let e = pred[v] as int;
        assert(settled[gm.src[e] as int]);
        if v != u && settled[v] {
            assert(rank[gm.src[e] as int] < rank[v]);
        }
        if v == u {
            assert(gm.src[e] != u);
            assert(rank[gm.src[e] as int] < count);
        }
    }
}

/// When no unsettled node has a finite label, the labels are final.
proof fn lemma_search_done(
    gm: GraphModel,
    a: Seq<u32>,
    s: int,
    d: Seq<u128>,
    pred: Seq<usize>,
    rank: Seq<usize>,
    settled: Seq<bool>,
    count: int,
)
    requires
        gm.wf(),
        tree_inv(gm, a, s, d, pred, rank, settled, count),
        relaxed_inv(gm, a, d, settled, -1),
        forall|v: int| 0 <= v < gm.node_count() && !settled[v] ==> #[trigger] d[v] == INFINITY,
        count <= gm.node_count(),
    ensures
        labels_ok(gm, a, s, d, pred, rank),
{
    let n = gm.node_count();
    assert forall|v: int| 0 <= v < n && #[trigger] d[v] < INFINITY implies rank[v] < n by {
        assert(settled[v]);
    }
    assert forall|e: int|
        0 <= e < gm.edge_count() && d[gm.src[e] as int] < INFINITY implies #[trigger] d[gm.dst[e] as int]
            <= d[gm.src[e] as int] + edge_cost(gm, a, e) by {
        assert(settled[gm.src[e] as int]);
    }
    assert forall|v: int| 0 <= v < n && #[trigger] d[v] < INFINITY && v != s implies tree_edge_ok(
        gm, a, d, pred, rank, v) by {
        assert(settled[v]);
    }
}

/// Popping a stale entry keeps the queue invariant.
proof fn lemma_queue_skip(q0: Multiset<(u128, usize)>, d: Seq<u128>, settled: Seq<bool>, c: u128, u: usize)
    requires
        queue_inv(q0, d, settled),
        q0.count((c, u)) > 0,
        u < d.len(),
        d.len() <= usize::MAX,
        settled[u as int] || c > d[u as int],
    ensures
        queue_inv(q0.remove((c, u)), d, settled),
{
    broadcast use vstd::multiset::group_multiset_axioms;

    let q1 = q0.remove((c, u));
    assert forall|y: (u128, usize)| #[trigger] q1.count(y) > 0 implies y.1 < d.len() && d[y.1 as int] <= y.0 && y.0 < INFINITY by {
        assert(q0.count(y) > 0);
    }
    assert forall|v: int| 0 <= v < d.len() && !settled[v] && d[v] < INFINITY implies #[trigger] q1.count((d[v], v as usize)) > 0 by {
        assert(v as usize as int == v);
        assert(q0.count((d[v], v as usize)) > 0);
        assert((d[v], v as usize) != (c, u));
    }
}

/// A popped entry that is not stale names the cheapest unsettled node.
proof fn lemma_queue_pick(q0: Multiset<(u128, usize)>, d: Seq<u128>, settled: Seq<bool>, c: u128, u: usize)
    requires
        queue_inv(q0, d, settled),
        q0.count((c, u)) > 0,
        forall|y: (u128, usize)| q0.count(y) > 0 ==> entry_le((c, u), y),
        u < d.len(),
        d.len() <= usize::MAX,
        !settled[u as int],
        c <= d[u as int],
    ensures
        d[u as int] == c,
        c < INFINITY,
        forall|v: int| 0 <= v < d.len() && !settled[v] ==> d[u as int] <= #[trigger] d[v],
{
    broadcast use vstd::multiset::group_multiset_axioms;

    assert forall|v: int| 0 <= v < d.len() && !settled[v] implies d[u as int] <= #[trigger] d[v] by {
        assert(v as usize as int == v);
        if d[v] < INFINITY {
            assert(q0.count((d[v], v as usize)) > 0);
            assert(entry_le((c, u), (d[v], v as usize)));
        }
    }
}

/// Removing the entry of the node just settled keeps the queue invariant.
proof fn lemma_queue_settle(q0: Multiset<(u128, usize)>, d: Seq<u128>, settled: Seq<bool>, c: u128, u: usize)
    requires
        queue_inv(q0, d, settled),
        q0.count((c, u)) > 0,
        u < d.len(),
        d.len() <= usize::MAX,
        settled.len() == d.len(),
    ensures
        queue_inv(q0.remove((c, u)), d, settled.update(u as int, true)),
{
    broadcast use vstd::multiset::group_multiset_axioms;

    let q1 = q0.remove((c, u));
    let st = settled.update(u as int, true);
    assert forall|y: (u128, usize)| #[trigger] q1.count(y) > 0 implies y.1 < d.len() && d[y.1 as int] <= y.0 && y.0 < INFINITY by {
        assert(q0.count(y) > 0);
    }
    assert forall|v: int| 0 <= v < d.len() && !st[v] && d[v] < INFINITY implies #[trigger] q1.count((d[v], v as usize)) > 0 by {
        assert(v as usize as int == v);
        assert(v != u);
        assert(settled[v] == st[v]);
        assert(q0.count((d[v], v as usize)) > 0);
        assert((d[v], v as usize) != (c, u));
    }
}

/// Whether edge `e` is tight under the labels `d`.
fn is_tight(g: &Graph, alphas: &Vec<u32>, d: &Vec<u128>, e: usize) -> (r: bool)
    requires
        g.wf(),
        alphas@.len() == g@.dim(),
        d@.len() == g@.node_count(),
        e < g@.edge_count(),
    ensures
        r == tight(g@, alphas@, d@, e as int),
{
    let du = d[g.src_idx(e)];
    let dv = d[g.dst_idx(e)];
    if du >= INFINITY || dv >= INFINITY {
        return false;
    }
    let c = cost_of_edge(g, alphas, e);
    c <= dv && dv - c == du
}

/// Fewest hops from `src` over tight edges, by relaxing to a fixpoint, with the edge
/// that gave each node its hops.
fn compute_hops(g: &Graph, alphas: &Vec<u32>, d: &Vec<u128>, src: usize) -> (r: (Vec<usize>, Vec<usize>))
    requires
        g.wf(),
        alphas@.len() == g@.dim(),
        d@.len() == g@.node_count(),
        src < g@.node_count(),
    ensures
        hops_fix(g@, alphas@, src as int, d@, r.0@),
        hops_witnessed(g@, alphas@, src as int, d@, r.0@, r.1@),
{
    let n = g.node_count();
    let m = g.edge_count();
    let mut h = repeat(n, usize::MAX);
    h.set(src, 0);
    let mut hw = repeat(n, 0usize);
    let mut changed = true;
    proof {
        lemma_hop_sum_nonneg(h@);
    }
    while changed
        invariant
            g.wf(),
            alphas@.len() == g@.dim(),
            d@.len() == n,
            n == g@.node_count(),
            m == g@.edge_count(),
            src < n,
            h@.len() == n,
            h@[src as int] == 0,
            hops_witnessed(g@, alphas@, src as int, d@, h@, hw@),
            !changed ==> hops_fix(g@, alphas@, src as int, d@, h@),
            hop_sum(h@) >= 0,
        decreases hop_sum(h@) + if changed { 1int } else { 0int },
    {
        changed = false;
        let ghost h0 = h@;
        let mut e: usize = 0;
        while e < m
            invariant
                g.wf(),
                alphas@.len() == g@.dim(),
                d@.len() == n,
                n == g@.node_count(),
                m == g@.edge_count(),
                src < n,
                e <= m,
                h@.len() == n,
                h@[src as int] == 0,
                hops_witnessed(g@, alphas@, src as int, d@, h@, hw@),
                hop_sum(h@) >= 0,
                changed ==> hop_sum(h@) < hop_sum(h0),
                !changed ==> h@ == h0,
                !changed ==> forall|x: int|
                    0 <= x < e && tight(g@, alphas@, d@, x) && h@[g@.src[x] as int] < usize::MAX ==> #[trigger] h@[g@.dst[x] as int]
                        <= h@[g@.src[x] as int] + 1,
            decreases m - e,
        {
            let u = g.src_idx(e);
            let v = g.dst_idx(e);
            if is_tight(g, alphas, d, e) && h[u] < usize::MAX && h[u] + 1 < h[v] {
                let ghost hb = h@;
                h.set(v, h[u] + 1);
                hw.set(v, e);
                proof {
                    lemma_hop_sum_update(hb, v as int, (hb[u as int] + 1) as usize);
                    lemma_hop_sum_nonneg(h@);
                    assert forall|w: int|
                        0 <= w < g@.node_count() && w != src && #[trigger] h@[w] < usize::MAX implies {
                            let e2 = hw@[w] as int;
                            &&& 0 <= e2 < g@.edge_count()
                            &&& g@.dst[e2] == w
                            &&& tight(g@, alphas@, d@, e2)
                            &&& h@[g@.src[e2] as int] < usize::MAX
                            &&& h@[g@.src[e2] as int] + 1 <= h@[w]
                        } by {
                        if w != v {
                            assert(hb[w] < usize::MAX);
                        }
                    }
                }
                changed = true;
            }
            e = e + 1;
        }
    }
    (h, hw)
}

/// The lowest-index candidate edge into `v`, if any.
fn min_cand_into(g: &Graph, alphas: &Vec<u32>, d: &Vec<u128>, h: &Vec<usize>, v: usize) -> (r: Option<usize>)
    requires
        g.wf(),
        alphas@.len() == g@.dim(),
        d@.len() == g@.node_count(),
        h@.len() == g@.node_count(),
        v < g@.node_count(),
    ensures
        match r {
            Some(e) => g@.dst[e as int] == v && min_cand(g@, alphas@, d@, h@, e as int),
            None => forall|e: int| !#[trigger] cand(g@, alphas@, d@, h@, v as int, e),
        },
{
    let ghost gm = g@;
    let lo = g.bwd_offset(v);
    let hi = g.bwd_offset(v + 1);
    proof {
        lemma_offset_bounded(gm.bwd_offsets, gm.node_count(), v as int + 1);
    }
    let mut best: Option<usize> = None;
    let mut j = lo;
    while j < hi
        invariant
            g.wf(),
            gm == g@,
            alphas@.len() == gm.dim(),
            d@.len() == gm.node_count(),
            h@.len() == gm.node_count(),
            v < gm.node_count(),
            lo == gm.bwd_offsets[v as int],
            hi == gm.bwd_offsets[v + 1],
            hi <= gm.edge_count(),
            lo <= j <= hi,
            match best {
                Some(b) => cand(gm, alphas@, d@, h@, v as int, b as int) && forall|jj: int|
                    lo <= jj < j && #[trigger] cand(gm, alphas@, d@, h@, v as int, gm.bwd_edges[jj] as int) ==> b <= gm.bwd_edges[jj],
                None => forall|jj: int| lo <= jj < j ==> !#[trigger] cand(gm, alphas@, d@, h@, v as int, gm.bwd_edges[jj] as int),
            },
        decreases hi - j,
    {
        let e = g.bwd_edge(j);
        assert(gm.dst[e as int] == v) by {
            assert(gm.bwd_offsets[v as int] <= j < gm.bwd_offsets[v + 1]);
        }
        let u = g.src_idx(e);
        let ok = is_tight(g, alphas, d, e) && h[u] < usize::MAX && h[u] + 1 == h[v];
        if ok {
            match best {
                Some(b) => {
                    if e < b {
                        best = Some(e);
                    }
                },
                None => {
                    best = Some(e);
                },
            }
        }
        j = j + 1;
    }
    proof {
        assert forall|e2: int| #[trigger] cand(gm, alphas@, d@, h@, v as int, e2) implies (match best {
            Some(b) => b <= e2,
            None => false,
        }) by {
            assert(gm.dst[e2] == gm.dst[e2]);
            let jj = choose|jj: int| gm.bwd_offsets[gm.dst[e2] as int] <= jj < gm.bwd_offsets[gm.dst[e2] + 1] && #[trigger] gm.bwd_edges[jj] == e2;
            assert(cand(gm, alphas@, d@, h@, v as int, gm.bwd_edges[jj] as int));
        }
    }
    best
}

impl Dijkstra {
    /// Search state for no query yet.
    pub fn new() -> (r: Dijkstra) {
        Dijkstra {
            costs: Vec::new(),
            preds: Vec::new(),
            ranks: Vec::new(),
            source: 0,
            weights: Ghost(Seq::empty()),
        }
    }

    /// Cost label of node `v` after the last search.
    pub closed spec fn label(&self, v: int) -> int {
        self.costs@[v] as int
    }

    /// The last search ran on `g` from `s` under `alphas`, and its labels are final.
    pub closed spec fn ready_for(&self, g: GraphModel, alphas: Seq<u32>, s: int) -> bool {
        &&& labels_ok(g, alphas, s, self.costs@, self.preds@, self.ranks@)
        &&& self.source == s
        &&& self.weights@ == alphas
    }

    /// Settles every node reachable from `src`, cheapest first, with a binary heap of
    /// `(cost, node)` entries; stale entries are skipped.
    #[verifier::rlimit(100)]
    #[verifier::spinoff_prover]
    fn search(&mut self, g: &Graph, alphas: &Vec<u32>, src: usize)
        requires
            g.wf(),
            alphas@.len() == g@.dim(),
            src < g@.node_count(),
        ensures
            final(self).ready_for(g@, alphas@, src as int),
    {
        let ghost gm = g@;
        let ghost a = alphas@;
        let n = g.node_count();
        let mut costs = repeat(n, INFINITY);
        let mut preds = repeat(n, 0usize);
        let mut ranks = repeat(n, 0usize);
        let mut settled = repeat(n, false);
        costs.set(src, 0);
        let mut count: usize = 0;
        let mut heap = MinHeap::new();
        heap.push((0, src));
        proof {
            broadcast use vstd::multiset::group_multiset_axioms;

            assert(count_true(settled@, n as int) == 0) by {
                lemma_count_true_zero(settled@, n as int);
            }
            assert forall|y: (u128, usize)| #[trigger] heap@.count(y) > 0 implies y.1 < costs@.len()
                && costs@[y.1 as int] <= y.0 && y.0 < INFINITY by {
                assert(y == (0u128, src));
            }
            assert forall|v: int| 0 <= v < costs@.len() && !settled@[v] && costs@[v] < INFINITY implies #[trigger] heap@.count(
                (costs@[v], v as usize)) > 0 by {
                assert(v == src);
            }
        }
        while heap.len() > 0
            invariant
                g.wf(),
                gm == g@,
                a == alphas@,
                a.len() == gm.dim(),
                n == gm.node_count(),
                src < n,
                tree_inv(gm, a, src as int, costs@, preds@, ranks@, settled@, count as int),
                order_inv(costs@, settled@),
                relaxed_inv(gm, a, costs@, settled@, -1),
                count == count_true(settled@, n as int),
                count <= n,
                heap.inv(),
                queue_inv(heap@, costs@, settled@),
            decreases n - count, heap@.len(),
        {
            let ghost q0 = heap@;
            let (d, u) = heap.pop();
            if settled[u] || d > costs[u] {
                proof {
                    lemma_queue_skip(q0, costs@, settled@, d, u);
                }
            } else {
                proof {
                    lemma_queue_pick(q0, costs@, settled@, d, u);
                    lemma_count_true_bound(settled@, u as int, n as int);
                    lemma_count_true_set(settled@, u as int, n as int);
                }
                let ghost before = settled@;
                let ghost ranks_before = ranks@;
                settled.set(u, true);
                ranks.set(u, count);
                proof {
                    lemma_settle(gm, a, src as int, costs@, preds@, ranks_before, before, count as int, u as int);
                    lemma_queue_settle(q0, costs@, before, d, u);
                }
                count = count + 1;
                relax_out_edges(g, alphas, u, &mut costs, &mut preds, &ranks, &settled, &mut heap, Ghost(src as int), Ghost(count as int));
            }
        }
        proof {
            broadcast use vstd::multiset::group_multiset_axioms;

            assert forall|v: int| 0 <= v < n && !settled@[v] implies #[trigger] costs@[v] == INFINITY by {
                if costs@[v] < INFINITY {
                    assert(heap@.count((costs@[v], v as usize)) > 0);
                }
            }
        }
        proof {
            lemma_search_done(gm, a, src as int, costs@, preds@, ranks@, settled@, count as int);
        }
        self.costs = costs;
        self.preds = preds;
        self.ranks = ranks;
        self.source = src;
        self.weights = Ghost(alphas@);
    }

    /// Settles every node reachable from `src`, after checking the query: an unknown
    /// source, or a weight count other than the metric count, is an error and leaves
    /// the state as it was.
    pub fn compute_shortest_path(&mut self, g: &Graph, alphas: &Vec<u32>, src: usize) -> (r: Result<(), QueryError>)
        requires
            g.wf(),
        ensures
            match r {
                Ok(()) => src < g@.node_count() && alphas@.len() == g@.dim() && final(self).ready_for(g@, alphas@, src as int),
                Err(QueryError::UnknownNode(v)) => v == src && src >= g@.node_count() && *final(self) == *old(self),
                Err(QueryError::WeightCount(k)) => src < g@.node_count() && k == alphas@.len() && k != g@.dim() && *final(self) == *old(self),
            },
    {
        if src >= g.node_count() {
            return Err(QueryError::UnknownNode(src));
        }
        if alphas.len() != g.dim() {
            return Err(QueryError::WeightCount(alphas.len()));
        }
        self.search(g, alphas, src);
        Ok(())
    }

    /// Cost of a best path from the last search's source to `v`, if any path costs
    /// less than `INFINITY`.
    pub fn get_distance(&self, g: &Graph, alphas: &Vec<u32>, src: usize, v: usize) -> (r: Option<u128>)
        requires
            g.wf(),
            alphas@.len() == g@.dim(),
            self.ready_for(g@, alphas@, src as int),
            v < g@.node_count(),
        ensures
            r == if self.label(v as int) < INFINITY { Some(self.label(v as int) as u128) } else { None::<u128> },
            match r {
                Some(d) => d < INFINITY && costs_at_least(g@, alphas@, src as int, v as int, d as int) && exists|p: Seq<usize>|
                    is_path(g@, p, src as int, v as int) && path_cost(g@, alphas@, p) == d,
                None => costs_at_least(g@, alphas@, src as int, v as int, INFINITY as int) && (costs_fit(g@) ==> !reachable(
                    g@,
                    src as int,
                    v as int,
                )),
            },
    {
        proof {
            self.lemma_labels_are_bounds(g@, alphas@, src as int, v as int);
            self.lemma_unreached(g@, alphas@, src as int, v as int);
        }
        let d = self.costs[v];
        if d < INFINITY {
            proof {
                let p = lemma_tree_path(g@, alphas@, src as int, self.costs@, self.preds@, self.ranks@, v as int);
            }
            Some(d)
        } else {
            None
        }
    }

    proof fn lemma_unreached(&self, g: GraphModel, alphas: Seq<u32>, s: int, v: int)
        requires
            g.wf(),
            alphas.len() == g.dim(),
            self.ready_for(g, alphas, s),
            0 <= v < g.node_count(),
        ensures
            self.label(v) >= INFINITY && costs_fit(g) ==> !reachable(g, s, v),
    {
        if self.label(v) >= INFINITY && costs_fit(g) && reachable(g, s, v) {
            let q = choose|q: Seq<usize>| #[trigger] is_path(g, q, s, v);
            lemma_reachable_finite(g, alphas, s, self.costs@, self.preds@, self.ranks@, q, v);
        }
    }

    proof fn lemma_labels_are_bounds(&self, g: GraphModel, alphas: Seq<u32>, s: int, v: int)
        requires
            g.wf(),
            alphas.len() == g.dim(),
            self.ready_for(g, alphas, s),
            0 <= v < g.node_count(),
        ensures
            costs_at_least(g, alphas, s, v, self.label(v)),
    {
        assert forall|q: Seq<usize>| #[trigger] is_path(g, q, s, v) implies path_cost(g, alphas, q) >= self.costs@[v] by {
            if path_cost(g, alphas, q) < INFINITY {
                lemma_labels_bound_paths(g, alphas, s, self.costs@, self.preds@, self.ranks@, q, v);
            }
        }
    }

    /// The lowest-index tight in-edge of `cur` from a node one hop closer.
    fn canonical_edge(&self, g: &Graph, alphas: &Vec<u32>, h: &Vec<usize>, hw: &Vec<usize>, src: usize, cur: usize) -> (e: usize)
        requires
            g.wf(),
            alphas@.len() == g@.dim(),
            self.ready_for(g@, alphas@, src as int),
            hops_fix(g@, alphas@, src as int, self.costs@, h@),
            hops_witnessed(g@, alphas@, src as int, self.costs@, h@, hw@),
            cur < g@.node_count(),
            cur != src,
            self.costs@[cur as int] < INFINITY,
        ensures
            e < g@.edge_count(),
            g@.dst[e as int] == cur,
            min_cand(g@, alphas@, self.costs@, h@, e as int),
    {
        let ghost gm = g@;
        let ghost a = alphas@;
        let ghost d = self.costs@;
        proof {
            lemma_hops_finite(gm, a, src as int, d, self.preds@, self.ranks@, h@, cur as int);
            assert(self.ranks@[cur as int] < gm.node_count());
            let w = hw@[cur as int] as int;
            assert(h@[gm.dst[w] as int] <= h@[gm.src[w] as int] + 1);
            assert(cand(gm, a, d, h@, cur as int, w));
        }
        match min_cand_into(g, alphas, &self.costs, h, cur) {
            Some(e) => e,
            None => {
                proof {
                    assert(!cand(gm, a, d, h@, cur as int, hw@[cur as int] as int));
                }
                0
            },
        }
    }

    /// The canonical best path from the last search's source to `dst` (see
    /// `canonical`): walked back from `dst`, each step taking the lowest-index tight
    /// in-edge from a node one hop closer. Requires `dst` to be reached.
    #[verifier::spinoff_prover]
    #[verifier::rlimit(80)]
    pub fn get_path(&self, g: &Graph, alphas: &Vec<u32>, src: usize, dst: usize) -> (r: Path)
        requires
            g.wf(),
            alphas@.len() == g@.dim(),
            self.ready_for(g@, alphas@, src as int),
            dst < g@.node_count(),
            self.label(dst as int) < INFINITY,
        ensures
            r.src == src,
            r.dst == dst,
            is_path(g@, r.edges@, src as int, dst as int),
            r.cost == path_cost(g@, alphas@, r.edges@),
            r.cost == self.label(dst as int),
            is_best_path(g@, alphas@, r.edges@, src as int, dst as int),
            canonical(g@, alphas@, src as int, dst as int, r.edges@),
            visits_distinct(g@, r.edges@, src as int),
            src == dst ==> r.edges@.len() == 0 && r.cost == 0,
    {
        proof {
            self.lemma_labels_are_bounds(g@, alphas@, src as int, dst as int);
        }
        if src == dst {
            let edges: Vec<usize> = Vec::new();
            assert(is_path(g@, edges@, src as int, dst as int));
            assert(visits_distinct(g@, edges@, src as int));
            return Path { src, dst, edges, cost: 0 };
        }
        let ghost gm = g@;
        let ghost a = alphas@;
        let ghost d = self.costs@;
        let (h, hw) = compute_hops(g, alphas, &self.costs, src);
        let mut rev: Vec<usize> = Vec::new();
        let ghost mut suffix: Seq<usize> = Seq::empty();
        let mut cur = dst;
        while cur != src
            invariant
                g.wf(),
                gm == g@,
                a == alphas@,
                a.len() == gm.dim(),
                d == self.costs@,
                self.ready_for(gm, a, src as int),
                hops_fix(gm, a, src as int, d, h@),
                hops_witnessed(gm, a, src as int, d, h@, hw@),
                cur < gm.node_count(),
                d[cur as int] < INFINITY,
                is_path(gm, suffix, cur as int, dst as int),
                forall|i: int| 0 <= i < suffix.len() ==> #[trigger] min_cand(gm, a, d, h@, suffix[i] as int),
                rev@.len() == suffix.len(),
                forall|i: int| 0 <= i < suffix.len() ==> #[trigger] rev@[i] == suffix[suffix.len() - 1 - i],
                ranks_increase(gm, suffix, cur as int, h@),
            decreases h@[cur as int],
        {
            let e = self.canonical_edge(g, alphas, &h, &hw, src, cur);
            let prev = g.src_idx(e);
            proof {
                lemma_walk_step(gm, a, d, h@, e, suffix, cur as int, dst as int);
            }
            let ghost old_rev = rev@;
            let ghost old_suffix = suffix;
            rev.push(e);
            proof {
                suffix = seq![e] + suffix;
                assert forall|i: int| 0 <= i < suffix.len() implies #[trigger] rev@[i] == suffix[suffix.len() - 1 - i] by {
                    if i < old_suffix.len() {
                        assert(rev@[i] == old_rev[i]);
                        assert(suffix[suffix.len() - 1 - i] == old_suffix[old_suffix.len() - 1 - i]);
                    }
                }
            }
            cur = prev;
        }
        let mut edges: Vec<usize> = Vec::with_capacity(rev.len());
        let mut k: usize = rev.len();
        while k > 0
            invariant
                k <= rev@.len(),
                rev@.len() == suffix.len(),
                forall|i: int| 0 <= i < suffix.len() ==> #[trigger] rev@[i] == suffix[suffix.len() - 1 - i],
                edges@.len() == rev@.len() - k,
                forall|i: int| 0 <= i < edges@.len() ==> #[trigger] edges@[i] == suffix[i],
            decreases k,
        {
            k = k - 1;
            edges.push(rev[k]);
        }
        assert(edges@ =~= suffix);
        proof {
            lemma_walk_canonical(gm, a, src as int, d, self.preds@, self.ranks@, h@, suffix, dst as int);
            lemma_ranks_distinct(gm, suffix, src as int, h@);
            lemma_fewest(gm, a, src as int, d, self.preds@, self.ranks@, h@, suffix, dst as int);
        }
        Path { src, dst, edges, cost: self.costs[dst] }
    }

    /// A best path from `src` to `dst` under `alphas`, or `None` when every path costs
    /// at least `INFINITY` (in particular, when `dst` is unreachable).
    pub fn compute_best_path(&mut self, g: &Graph, alphas: &Vec<u32>, src: usize, dst: usize) -> (r: Option<Path>)
        requires
            g.wf(),
            alphas@.len() == g@.dim(),
            src < g@.node_count(),
            dst < g@.node_count(),
        ensures
            match r {
                Some(p) => {
                    &&& p.src == src
                    &&& p.dst == dst
                    &&& is_best_path(g@, alphas@, p.edges@, src as int, dst as int)
                    &&& visits_distinct(g@, p.edges@, src as int)
                    &&& canonical(g@, alphas@, src as int, dst as int, p.edges@)
                    &&& p.cost == path_cost(g@, alphas@, p.edges@)
                    &&& p.cost < INFINITY
                    &&& src == dst ==> p.edges@.len() == 0 && p.cost == 0
                },
                None => costs_at_least(g@, alphas@, src as int, dst as int, INFINITY as int) && src != dst && (costs_fit(g@)
                    ==> !reachable(g@, src as int, dst as int)),
            },
    {
        self.search(g, alphas, src);
        proof {
            self.lemma_labels_are_bounds(g@, alphas@, src as int, dst as int);
            self.lemma_unreached(g@, alphas@, src as int, dst as int);
        }
        if self.costs[dst] < INFINITY {
            Some(self.get_path(g, alphas, src, dst))
        } else {
            None
        }
    }
}

impl Dijkstra {
    /// A best path from `src` to `dst` under `alphas`, after checking the query: an
    /// unknown source (checked first) or destination, or a weight count other than the
    /// metric count, is an error; an unreachable destination is `Ok(None)`.
    pub fn query(&mut self, g: &Graph, alphas: &Vec<u32>, src: usize, dst: usize) -> (r: Result<Option<Path>, QueryError>)
        requires
            g.wf(),
        ensures
            match r {
                Err(QueryError::UnknownNode(v)) => v >= g@.node_count() && (v == src || (v == dst && src < g@.node_count())),
                Err(QueryError::WeightCount(k)) => src < g@.node_count() && dst < g@.node_count() && k == alphas@.len()
                    && k != g@.dim(),
                Ok(Some(p)) => {
                    &&& src < g@.node_count()
                    &&& dst < g@.node_count()
                    &&& alphas@.len() == g@.dim()
                    &&& p.src == src
                    &&& p.dst == dst
                    &&& is_best_path(g@, alphas@, p.edges@, src as int, dst as int)
                    &&& canonical(g@, alphas@, src as int, dst as int, p.edges@)
                    &&& visits_distinct(g@, p.edges@, src as int)
                    &&& p.cost == path_cost(g@, alphas@, p.edges@)
                    &&& p.cost < INFINITY
                    &&& src == dst ==> p.edges@.len() == 0 && p.cost == 0
                },
                Ok(None) => {
                    &&& src < g@.node_count()
                    &&& dst < g@.node_count()
                    &&& alphas@.len() == g@.dim()
                    &&& src != dst
                    &&& costs_at_least(g@, alphas@, src as int, dst as int, INFINITY as int)
                    &&& costs_fit(g@) ==> !reachable(g@, src as int, dst as int)
                },
            },
    {
        if src >= g.node_count() {
            return Err(QueryError::UnknownNode(src));
        }
        if dst >= g.node_count() {
            return Err(QueryError::UnknownNode(dst));
        }
        if alphas.len() != g.dim() {
            return Err(QueryError::WeightCount(alphas.len()));
        }
        Ok(self.compute_best_path(g, alphas, src, dst))
    }
}

proof fn lemma_count_true_zero(s: Seq<bool>, k: int)
    requires
        0 <= k <= s.len(),
        forall|i: int| 0 <= i < s.len() ==> !s[i],
    ensures
        count_true(s, k) == 0,
    decreases k,
{
    if k > 0 {
        lemma_count_true_zero(s, k - 1);
    }
}

} // verus!
