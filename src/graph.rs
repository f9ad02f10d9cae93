//! The finalized routing graph: nodes in dense index order, edges with their
//! metric vectors and shortcut children, and the forward and backward views.

use crate::metrics::{combined, within, Combine, METRIC_CAPACITY};
use crate::view::{grouped_view, sorted_within};
use std::collections::HashMap;
use vstd::prelude::*;

verus! {

broadcast use vstd::std_specs::hash::group_hash_axioms;

/// What a finalized graph holds, as mathematical sequences.
pub ghost struct GraphModel {
    /// External id of each node, by index.
    pub node_ids: Seq<u64>,
    /// Contraction-hierarchy level of each node, by index.
    pub levels: Seq<u64>,
    /// Source node index of each edge.
    pub src: Seq<usize>,
    /// Destination node index of each edge.
    pub dst: Seq<usize>,
    /// Metric vector of each edge.
    pub metrics: Seq<Seq<u32>>,
    /// Children of each edge that is a shortcut.
    pub shortcuts: Seq<Option<(usize, usize)>>,
    /// Combining rule of each metric.
    pub combine: Seq<Combine>,
    /// Absolute tolerance of the shortcut rule.
    pub tolerance: u32,
    /// Forward view: every edge once, grouped by source node (ascending index, so
    /// higher levels first), edges of one source by destination index.
    pub fwd_edges: Seq<usize>,
    /// Out-edges of node `v` are `fwd_edges[fwd_offsets[v] .. fwd_offsets[v + 1]]`.
    pub fwd_offsets: Seq<usize>,
    /// Backward view: every edge once, grouped by destination node, edges of one
    /// destination by source index.
    pub bwd_edges: Seq<usize>,
    /// In-edges of node `v` are `bwd_edges[bwd_offsets[v] .. bwd_offsets[v + 1]]`.
    pub bwd_offsets: Seq<usize>,
}

/// Node `(la, ia)` comes before node `(lb, ib)`: higher level first, then lower id.
pub open spec fn node_before(la: u64, ia: u64, lb: u64, ib: u64) -> bool {
    la > lb || (la == lb && ia < ib)
}

impl GraphModel {
    pub open spec fn node_count(self) -> int {
        self.node_ids.len() as int
    }

    pub open spec fn edge_count(self) -> int {
        self.src.len() as int
    }

    pub open spec fn dim(self) -> int {
        self.combine.len() as int
    }

    /// Edge `e` is a shortcut of `a` then `b`, and carries their combined metrics.
    pub open spec fn shortcut_ok(self, e: int, a: int, b: int) -> bool {
        &&& 0 <= a < e
        &&& 0 <= b < e
        &&& self.src[a] == self.src[e]
        &&& self.dst[a] == self.src[b]
        &&& self.dst[b] == self.dst[e]
        &&& forall|m: int|
            0 <= m < self.dim() ==> within(
                #[trigger] self.metrics[e][m] as int,
                combined(self.combine[m], self.metrics[a][m] as int, self.metrics[b][m] as int),
                self.tolerance as int,
            )
    }

    pub open spec fn is_shortcut(self, e: int) -> bool {
        self.shortcuts[e] is Some
    }

    /// Indices in range, metric counts, node order, consistent shortcuts, and both views.
    pub open spec fn wf(self) -> bool {
        let n = self.node_count();
        let m = self.edge_count();
        &&& n < usize::MAX
        &&& self.levels.len() == n
        &&& self.dst.len() == m
        &&& self.metrics.len() == m
        &&& self.shortcuts.len() == m
        &&& self.dim() <= METRIC_CAPACITY
        &&& forall|e: int| 0 <= e < m ==> #[trigger] self.src[e] < n && self.dst[e] < n
        &&& forall|e: int| 0 <= e < m ==> (#[trigger] self.metrics[e]).len() == self.dim()
        &&& forall|i: int, j: int| 0 <= i < j < n ==> #[trigger] self.node_ids[i] != #[trigger] self.node_ids[j]
        &&& forall|i: int, j: int|
            0 <= i < j < n ==> node_before(
                self.levels[i],
                #[trigger] self.node_ids[i],
                self.levels[j],
                #[trigger] self.node_ids[j],
            )
        &&& forall|e: int|
            0 <= e < m && (#[trigger] self.shortcuts[e]) is Some ==> self.shortcut_ok(
                e,
                self.shortcuts[e].unwrap().0 as int,
                self.shortcuts[e].unwrap().1 as int,
            )
        &&& grouped_view(self.fwd_edges, self.fwd_offsets, self.src, n)
        &&& grouped_view(self.bwd_edges, self.bwd_offsets, self.dst, n)
        &&& self.views_sorted()
    }

    /// A node's out-edges are ordered by destination index, its in-edges by source
    /// index.
    pub open spec fn views_sorted(self) -> bool {
        &&& sorted_within(self.fwd_edges, self.src, self.dst)
        &&& sorted_within(self.bwd_edges, self.dst, self.src)
    }
}

/// A finalized graph. It is immutable: every query borrows it.
pub struct Graph {
    pub(crate) node_ids: Vec<u64>,
    pub(crate) levels: Vec<u64>,
    pub(crate) index_of: HashMap<u64, usize>,
    pub(crate) src: Vec<usize>,
    pub(crate) dst: Vec<usize>,
    pub(crate) metrics: Vec<Vec<u32>>,
    pub(crate) shortcuts: Vec<Option<(usize, usize)>>,
    pub(crate) combine: Vec<Combine>,
    pub(crate) tolerance: u32,
    pub(crate) fwd_edges: Vec<usize>,
    pub(crate) fwd_offsets: Vec<usize>,
    pub(crate) bwd_edges: Vec<usize>,
    pub(crate) bwd_offsets: Vec<usize>,
}

impl View for Graph {
    type V = GraphModel;

    closed spec fn view(&self) -> GraphModel {
        GraphModel {
            node_ids: self.node_ids@,
            levels: self.levels@,
            src: self.src@,
            dst: self.dst@,
            metrics: self.metrics@.map_values(|v: Vec<u32>| v@),
            shortcuts: self.shortcuts@,
            combine: self.combine@,
            tolerance: self.tolerance,
            fwd_edges: self.fwd_edges@,
            fwd_offsets: self.fwd_offsets@,
            bwd_edges: self.bwd_edges@,
            bwd_offsets: self.bwd_offsets@,
        }
    }
}

impl Graph {
    /// Puts the parts of a graph together.
    pub(crate) fn from_parts(
        node_ids: Vec<u64>,
        levels: Vec<u64>,
        index_of: HashMap<u64, usize>,
        src: Vec<usize>,
        dst: Vec<usize>,
        metrics: Vec<Vec<u32>>,
        shortcuts: Vec<Option<(usize, usize)>>,
        combine: Vec<Combine>,
        tolerance: u32,
        fwd: (Vec<usize>, Vec<usize>),
        bwd: (Vec<usize>, Vec<usize>),
    ) -> (g: Graph)
        requires
            metrics.len() == src.len(),
        ensures
            g@ == (GraphModel {
                node_ids: node_ids@,
                levels: levels@,
                src: src@,
                dst: dst@,
                metrics: metrics@.map_values(|v: Vec<u32>| v@),
                shortcuts: shortcuts@,
                combine: combine@,
                tolerance,
                fwd_edges: fwd.0@,
                fwd_offsets: fwd.1@,
                bwd_edges: bwd.0@,
                bwd_offsets: bwd.1@,
            }),
            g@.wf() && metrics@.len() == src@.len()
                && (forall|id: u64| #[trigger]
                index_of@.contains_key(id) <==> exists|i: int|
                    0 <= i < node_ids@.len() && node_ids@[i] == id)
                && (forall|id: u64| #[trigger]
                index_of@.contains_key(id) ==> index_of@[id] < node_ids@.len()
                    && node_ids@[index_of@[id] as int] == id) ==> g.wf(),
    {
        Graph {
            node_ids,
            levels,
            index_of,
            src,
            dst,
            metrics,
            shortcuts,
            combine,
            tolerance,
            fwd_edges: fwd.0,
            fwd_offsets: fwd.1,
            bwd_edges: bwd.0,
            bwd_offsets: bwd.1,
        }
    }

    /// The graph is well formed, and its id lookup agrees with its nodes.
    pub open spec fn wf(&self) -> bool {
        self@.wf() && self.lookup_ok()
    }

    /// The id lookup agrees with the nodes.
    pub closed spec fn lookup_ok(&self) -> bool {
        &&& self.metrics@.len() == self.src@.len()
        &&& forall|id: u64| #[trigger]
            self.index_of@.contains_key(id) <==> exists|i: int|
                0 <= i < self.node_ids@.len() && self.node_ids@[i] == id
        &&& forall|id: u64| #[trigger]
            self.index_of@.contains_key(id) ==> self.index_of@[id] < self.node_ids@.len()
                && self.node_ids@[self.index_of@[id] as int] == id
    }

    pub fn node_count(&self) -> (r: usize)
        ensures
            r == self@.node_count(),
    {
        self.node_ids.len()
    }

    pub fn edge_count(&self) -> (r: usize)
        ensures
            r == self@.edge_count(),
    {
        self.src.len()
    }

    /// Number of metrics of each edge.
    pub fn dim(&self) -> (r: usize)
        ensures
            r == self@.dim(),
    {
        self.combine.len()
    }

    pub fn node_id(&self, idx: usize) -> (r: u64)
        requires
            idx < self@.node_count(),
        ensures
            r == self@.node_ids[idx as int],
    {
        self.node_ids[idx]
    }

    pub fn level(&self, idx: usize) -> (r: u64)
        requires
            self.wf(),
            idx < self@.node_count(),
        ensures
            r == self@.levels[idx as int],
    {
        self.levels[idx]
    }

    /// Index of the node with external id `id`, if there is one.
    pub fn idx_of(&self, id: u64) -> (r: Option<usize>)
        requires
            self.wf(),
        ensures
            match r {
                Some(i) => i < self@.node_count() && self@.node_ids[i as int] == id,
                None => forall|i: int| 0 <= i < self@.node_count() ==> self@.node_ids[i] != id,
            },
    {
        match self.index_of.get(&id) {
            Some(i) => Some(*i),
            None => {
                proof {
                    assert forall|i: int| 0 <= i < self@.node_count() implies self@.node_ids[i] != id by {
                        if self@.node_ids[i] == id {
                            assert(self.index_of@.contains_key(id));
                        }
                    }
                }
                None
            },
        }
    }

    pub fn src_idx(&self, e: usize) -> (r: usize)
        requires
            e < self@.edge_count(),
        ensures
            r == self@.src[e as int],
    {
        self.src[e]
    }

    pub fn dst_idx(&self, e: usize) -> (r: usize)
        requires
            self.wf(),
            e < self@.edge_count(),
        ensures
            r == self@.dst[e as int],
    {
        self.dst[e]
    }

    /// The metric vector of edge `e`.
    pub fn metrics_of(&self, e: usize) -> (r: &Vec<u32>)
        requires
            self.wf(),
            e < self@.edge_count(),
        ensures
            r@ == self@.metrics[e as int],
    {
        &self.metrics[e]
    }

    /// Metric `m` of edge `e`.
    pub fn metric(&self, e: usize, m: usize) -> (r: u32)
        requires
            self.wf(),
            e < self@.edge_count(),
            m < self@.dim(),
        ensures
            r == self@.metrics[e as int][m as int],
    {
        let row = &self.metrics[e];
        assert(row@ == self@.metrics[e as int]);
        row[m]
    }

    /// The two children of edge `e` if it is a shortcut.
    pub fn shortcut(&self, e: usize) -> (r: Option<(usize, usize)>)
        requires
            self.wf(),
            e < self@.edge_count(),
        ensures
            r == self@.shortcuts[e as int],
    {
        self.shortcuts[e]
    }

    pub fn is_shortcut(&self, e: usize) -> (r: bool)
        requires
            self.wf(),
            e < self@.edge_count(),
        ensures
            r == self@.is_shortcut(e as int),
    {
        self.shortcuts[e].is_some()
    }

    pub fn combine(&self, m: usize) -> (r: Combine)
        requires
            m < self@.dim(),
        ensures
            r == self@.combine[m as int],
    {
        self.combine[m]
    }

    pub fn tolerance(&self) -> (r: u32)
        ensures
            r == self@.tolerance,
    {
        self.tolerance
    }

    /// Start of the out-edges of node `v` (or the total, for `v == node_count`) in the
    /// forward view.
    pub fn fwd_offset(&self, v: usize) -> (r: usize)
        requires
            self.wf(),
            v <= self@.node_count(),
        ensures
            r == self@.fwd_offsets[v as int],
    {
        self.fwd_offsets[v]
    }

    /// The edge at position `j` of the forward view.
    pub fn fwd_edge(&self, j: usize) -> (r: usize)
        requires
            self.wf(),
            j < self@.edge_count(),
        ensures
            r == self@.fwd_edges[j as int],
    {
        self.fwd_edges[j]
    }

    /// Start of the in-edges of node `v` (or the total, for `v == node_count`) in the
    /// backward view.
    pub fn bwd_offset(&self, v: usize) -> (r: usize)
        requires
            self.wf(),
            v <= self@.node_count(),
        ensures
            r == self@.bwd_offsets[v as int],
    {
        self.bwd_offsets[v]
    }

    /// The edge at position `j` of the backward view.
    pub fn bwd_edge(&self, j: usize) -> (r: usize)
        requires
            self.wf(),
            j < self@.edge_count(),
        ensures
            r == self@.bwd_edges[j as int],
    {
        self.bwd_edges[j]
    }
}

} // verus!
