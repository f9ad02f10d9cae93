//! What the balancing loop writes after an iteration: the new metric of every
//! physical edge, in forward-view order.

use crate::graph::{Graph, GraphModel};
use vstd::prelude::*;

verus! {

/// Metric `m` of the non-shortcut edges among the first `k` positions of the forward view.
pub open spec fn fwd_rows(g: GraphModel, m: int, k: int) -> Seq<u32>
    decreases k,
{
    if k <= 0 {
        Seq::empty()
    } else {
        let e = g.fwd_edges[k - 1] as int;
        if g.is_shortcut(e) {
            fwd_rows(g, m, k - 1)
        } else {
            fwd_rows(g, m, k - 1).push(g.metrics[e][m])
        }
    }
}

/// Entries of `column` for the non-shortcut edges among the first `k` positions of
/// the forward view.
pub open spec fn column_rows_of(g: GraphModel, column: Seq<u32>, k: int) -> Seq<u32>
    decreases k,
{
    if k <= 0 {
        Seq::empty()
    } else {
        let e = g.fwd_edges[k - 1] as int;
        if g.is_shortcut(e) {
            column_rows_of(g, column, k - 1)
        } else {
            column_rows_of(g, column, k - 1).push(column[e])
        }
    }
}

/// Produces the rows of the new-metrics file.
pub struct Writer {}

impl Writer {
    pub fn new() -> (r: Writer) {
        Writer {}
    }

    /// The entries of `column` (one per edge) for every non-shortcut edge, in
    /// forward-view order: the rows of the new-metrics file.
    pub fn column_rows(&self, g: &Graph, column: &Vec<u32>) -> (r: Vec<u32>)
        requires
            g.wf(),
            column@.len() == g@.edge_count(),
        ensures
            r@ == column_rows_of(g@, column@, g@.edge_count()),
    {
        let n = g.edge_count();
        let mut out: Vec<u32> = Vec::new();
        let mut j: usize = 0;
        while j < n
            invariant
                g.wf(),
                j <= n,
                n == g@.edge_count(),
                column@.len() == n,
                out@ == column_rows_of(g@, column@, j as int),
            decreases n - j,
        {
            let e = g.fwd_edge(j);
            if !g.is_shortcut(e) {
                out.push(column[e]);
            }
            j = j + 1;
        }
        out
    }

    /// Metric `m` of every non-shortcut edge, in forward-view order: one row each.
    pub fn rows(&self, g: &Graph, m: usize) -> (r: Vec<u32>)
        requires
            g.wf(),
            m < g@.dim(),
        ensures
            r@ == fwd_rows(g@, m as int, g@.edge_count()),
    {
        let n = g.edge_count();
        let mut out: Vec<u32> = Vec::new();
        let mut j: usize = 0;
        while j < n
            invariant
                g.wf(),
                j <= n,
                n == g@.edge_count(),
                m < g@.dim(),
                out@ == fwd_rows(g@, m as int, j as int),
            decreases n - j,
        {
            let e = g.fwd_edge(j);
            if !g.is_shortcut(e) {
                out.push(g.metric(e, m));
            }
            j = j + 1;
        }
        out
    }
}

} // verus!
