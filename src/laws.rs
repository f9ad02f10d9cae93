//! Laws that tie the graph store and the kernel together.

use crate::graph::GraphModel;
use crate::metrics::{within, Combine};
use crate::paths::{is_best_path, is_path, path_cost};
use crate::view::lemma_grouped_view_counts;
use vstd::prelude::*;

verus! {

/// The forward and the backward view of a finalized graph enumerate the same
/// multiset of edges: each edge exactly once.
pub proof fn lemma_views_enumerate_same_edges(g: GraphModel)
    requires
        g.wf(),
    ensures
        g.fwd_edges.to_multiset() == g.bwd_edges.to_multiset(),
        forall|e: usize| #[trigger] g.fwd_edges.to_multiset().count(e) == if e < g.edge_count() { 1nat } else { 0nat },
{
    assert forall|e: usize| #[trigger] g.fwd_edges.to_multiset().count(e) == g.bwd_edges.to_multiset().count(e)
        && g.fwd_edges.to_multiset().count(e) == if e < g.edge_count() { 1nat } else { 0nat } by {
        lemma_grouped_view_counts(g.fwd_edges, g.fwd_offsets, g.src, g.node_count(), e);
        lemma_grouped_view_counts(g.bwd_edges, g.bwd_offsets, g.dst, g.node_count(), e);
    }
    assert(g.fwd_edges.to_multiset() =~= g.bwd_edges.to_multiset());
}

/// A shortcut carries, for every additive metric, the sum of its children's values
/// up to the graph's tolerance.
pub proof fn lemma_shortcut_sums(g: GraphModel, e: int, m: int)
    requires
        g.wf(),
        0 <= e < g.edge_count(),
        g.shortcuts[e] is Some,
        0 <= m < g.dim(),
        g.combine[m] == Combine::Sum,
    ensures
        within(
            g.metrics[e][m] as int,
            g.metrics[g.shortcuts[e].unwrap().0 as int][m] + g.metrics[g.shortcuts[e].unwrap().1 as int][m],
            g.tolerance as int,
        ),
{
    assert(g.shortcut_ok(e, g.shortcuts[e].unwrap().0 as int, g.shortcuts[e].unwrap().1 as int));
}

/// `beta` is a convex combination of `a1` and `a2`: `(w1 + w2) * beta == w1 * a1 + w2 * a2`.
pub open spec fn is_convex_combination(beta: Seq<u32>, a1: Seq<u32>, a2: Seq<u32>, w1: nat, w2: nat) -> bool {
    &&& w1 + w2 > 0
    &&& beta.len() == a1.len()
    &&& beta.len() == a2.len()
    &&& forall|m: int| 0 <= m < beta.len() ==> (w1 + w2) * #[trigger] beta[m] == w1 * a1[m] + w2 * a2[m]
}

/// Pareto-consistency: if `p1` is best under `a1` and `p2` is best under `a2`, no best
/// path `q` under a convex combination of the two is strictly cheaper than `p1` under
/// `a1` and strictly cheaper than `p2` under `a2`.
pub proof fn lemma_pareto_consistent(
    g: GraphModel,
    a1: Seq<u32>,
    a2: Seq<u32>,
    beta: Seq<u32>,
    w1: nat,
    w2: nat,
    s: int,
    t: int,
    p1: Seq<usize>,
    p2: Seq<usize>,
    q: Seq<usize>,
)
    requires
        is_best_path(g, a1, p1, s, t),
        is_best_path(g, a2, p2, s, t),
        is_convex_combination(beta, a1, a2, w1, w2),
        is_best_path(g, beta, q, s, t),
    ensures
        !(path_cost(g, a1, q) < path_cost(g, a1, p1) && path_cost(g, a2, q) < path_cost(g, a2, p2)),
{
    assert(is_path(g, q, s, t));
}

} // verus!
