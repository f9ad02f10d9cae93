//! Paths as sequences of edge indices, and their scalar costs.

use crate::graph::GraphModel;
use crate::metrics::weighted;
use vstd::prelude::*;

verus! {

/// Scalar cost of edge `e` under the weights `alphas`.
pub open spec fn edge_cost(g: GraphModel, alphas: Seq<u32>, e: int) -> int {
    weighted(alphas, g.metrics[e])
}

/// `p` is a sequence of edges of `g` leading from node `s` to node `t`.
pub open spec fn is_path(g: GraphModel, p: Seq<usize>, s: int, t: int) -> bool {
    &&& forall|i: int| 0 <= i < p.len() ==> #[trigger] p[i] < g.edge_count()
    &&& if p.len() == 0 {
        s == t
    } else {
        g.src[p[0] as int] == s && g.dst[p.last() as int] == t
    }
    &&& forall|i: int| 0 <= i < p.len() - 1 ==> g.dst[#[trigger] p[i] as int] == g.src[p[i + 1] as int]
}

/// Sum of the scalar costs of the edges of `p`.
pub open spec fn path_cost(g: GraphModel, alphas: Seq<u32>, p: Seq<usize>) -> int
    decreases p.len(),
{
    if p.len() == 0 {
        0
    } else {
        path_cost(g, alphas, p.drop_last()) + edge_cost(g, alphas, p.last() as int)
    }
}

/// `p` is a path from `s` to `t` that no other path from `s` to `t` undercuts.
pub open spec fn is_best_path(g: GraphModel, alphas: Seq<u32>, p: Seq<usize>, s: int, t: int) -> bool {
    &&& is_path(g, p, s, t)
    &&& forall|q: Seq<usize>| #[trigger] is_path(g, q, s, t) ==> path_cost(g, alphas, p) <= path_cost(g, alphas, q)
}

/// Every path from `s` to `t` costs at least `bound`.
pub open spec fn costs_at_least(g: GraphModel, alphas: Seq<u32>, s: int, t: int, bound: int) -> bool {
    forall|q: Seq<usize>| #[trigger] is_path(g, q, s, t) ==> path_cost(g, alphas, q) >= bound
}

/// A path followed by one more edge.
pub proof fn lemma_path_push(g: GraphModel, p: Seq<usize>, e: usize, s: int, t: int)
    requires
        is_path(g, p, s, t),
        e < g.edge_count(),
        g.src[e as int] == t,
    ensures
        is_path(g, p.push(e), s, g.dst[e as int] as int),
{
    let q = p.push(e);
    assert forall|i: int| 0 <= i < q.len() - 1 implies g.dst[#[trigger] q[i] as int] == g.src[q[i + 1] as int] by {
        if i < p.len() - 1 {
            assert(q[i] == p[i] && q[i + 1] == p[i + 1]);
        }
    }
}

/// An edge followed by a path.
pub proof fn lemma_path_prepend(g: GraphModel, e: usize, p: Seq<usize>, t: int)
    requires
        is_path(g, p, g.dst[e as int] as int, t),
        e < g.edge_count(),
    ensures
        is_path(g, seq![e] + p, g.src[e as int] as int, t),
{
    let q = seq![e] + p;
    assert forall|i: int| 0 <= i < q.len() - 1 implies g.dst[#[trigger] q[i] as int] == g.src[q[i + 1] as int] by {
        if i > 0 {
            assert(q[i] == p[i - 1] && q[i + 1] == p[i]);
        }
    }
    assert forall|i: int| 0 <= i < q.len() implies #[trigger] q[i] < g.edge_count() by {
        if i > 0 {
            assert(q[i] == p[i - 1]);
        }
    }
}

} // verus!
