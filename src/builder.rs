//! Collecting node and edge records, and finalizing them into a [`Graph`].

use crate::graph::{node_before, Graph, GraphModel};
use crate::metrics::{approx_eq, combine_values, combined, within, Combine, METRIC_CAPACITY};
use crate::view::{group_by_key, grouped_view, sort_groups, sorted_within, lemma_counted_twice_repeats, lemma_repeated_counts_twice};
use std::collections::HashMap;
use vstd::prelude::*;
use vstd::seq_lib::group_to_multiset_ensures;

verus! {

broadcast use vstd::std_specs::hash::group_hash_axioms;

/// Why a set of records does not make a graph.
#[derive(Clone, Copy, Debug, PartialEq, Eq, Structural)]
pub enum BuildError {
    /// Two node records carry this external id.
    DuplicateNodeId(u64),
    /// An edge names this external id, which no node carries.
    UnknownNode(u64),
    /// The edge at this index has another number of metrics than configured.
    MetricCount(usize),
    /// The edge at this index is a shortcut whose children do not replace it.
    BadShortcut(usize),
}

/// An arithmetic combination of two metrics.
#[derive(Clone, Copy, Debug, PartialEq, Eq, Structural)]
pub enum MetricOp {
    Add,
    Sub,
    Mul,
    Div,
}

/// A metric computed at build time from the others of the same edge.
#[derive(Clone, Copy, Debug, PartialEq, Eq, Structural)]
pub enum Generation {
    /// `to = from`.
    Copy { from: usize, to: usize },
    /// `to = from * numer / denom`, rounding down: a change of unit.
    Convert { from: usize, to: usize, numer: u32, denom: u32 },
    /// `result = a op b`.
    Calc { op: MetricOp, a: usize, b: usize, result: usize },
}

/// The metric index that `rule` writes.
pub open spec fn target(rule: Generation) -> int {
    match rule {
        Generation::Copy { to, .. } => to as int,
        Generation::Convert { to, .. } => to as int,
        Generation::Calc { result, .. } => result as int,
    }
}

/// The metric indices that `rule` reads and writes are below `dim`.
pub open spec fn rule_fits(rule: Generation, dim: int) -> bool {
    match rule {
        Generation::Copy { from, to } => from < dim && to < dim,
        Generation::Convert { from, to, .. } => from < dim && to < dim,
        Generation::Calc { a, b, result, .. } => a < dim && b < dim && result < dim,
    }
}

/// The value `rule` gives for an edge with metrics `m`, when it is defined and fits
/// in 32 bits.
pub open spec fn generated(rule: Generation, m: Seq<u32>) -> Option<u32> {
    match rule {
        Generation::Copy { from, .. } => Some(m[from as int]),
        Generation::Convert { from, numer, denom, .. } => if denom == 0 || m[from as int] * numer / denom as int > u32::MAX {
            None
        } else {
            Some((m[from as int] * numer / denom as int) as u32)
        },
        Generation::Calc { op, a, b, .. } => {
            let x = m[a as int] as int;
            let y = m[b as int] as int;
            match op {
                MetricOp::Add => if x + y > u32::MAX { None } else { Some((x + y) as u32) },
                MetricOp::Sub => if x < y { None } else { Some((x - y) as u32) },
                MetricOp::Mul => if x * y > u32::MAX { None } else { Some((x * y) as u32) },
                MetricOp::Div => if y == 0 { None } else { Some((x / y) as u32) },
            }
        },
    }
}

fn generate_value(rule: Generation, m: &Vec<u32>) -> (r: Option<u32>)
    requires
        rule_fits(rule, m@.len() as int),
    ensures
        r == generated(rule, m@),
{
    match rule {
        Generation::Copy { from, .. } => Some(m[from]),
        Generation::Convert { from, numer, denom, .. } => {
            if denom == 0 {
                return None;
            }
            let mf = m[from] as u64;
            let nu = numer as u64;
            proof {
                assert(mf * nu <= u64::MAX) by (nonlinear_arith)
                    requires mf <= u32::MAX, nu <= u32::MAX;
            }
            let v = mf * nu;
            let q = v / (denom as u64);
            if q > u32::MAX as u64 {
                None
            } else {
                Some(q as u32)
            }
        },
        Generation::Calc { op, a, b, .. } => {
            let x = m[a] as u64;
            let y = m[b] as u64;
            match op {
                MetricOp::Add => if x + y > u32::MAX as u64 { None } else { Some((x + y) as u32) },
                MetricOp::Sub => if x < y { None } else { Some((x - y) as u32) },
                MetricOp::Mul => {
                    proof {
                        assert(x * y <= u64::MAX) by (nonlinear_arith)
                            requires x <= u32::MAX, y <= u32::MAX;
                    }
                    if x * y > u32::MAX as u64 { None } else { Some((x * y) as u32) }
                },
                MetricOp::Div => if y == 0 { None } else { Some((x / y) as u32) },
            }
        },
    }
}

/// What a builder has collected.
pub ghost struct BuilderModel {
    pub combine: Seq<Combine>,
    pub tolerance: u32,
    pub node_ids: Seq<u64>,
    pub levels: Seq<u64>,
    pub src_ids: Seq<u64>,
    pub dst_ids: Seq<u64>,
    pub metrics: Seq<Seq<u32>>,
    pub shortcuts: Seq<Option<(usize, usize)>>,
}

impl BuilderModel {
    /// Some node record carries `id` with level `level`.
    pub open spec fn has_node(self, id: u64, level: u64) -> bool {
        exists|k: int| 0 <= k < self.node_ids.len() && self.node_ids[k] == id && self.levels[k] == level
    }

    /// Two node records carry the same id.
    pub open spec fn has_duplicate_id(self) -> bool {
        exists|i: int, j: int|
            0 <= i < j < self.node_ids.len() && self.node_ids[i] == self.node_ids[j]
    }

    /// Some node record carries `id`.
    pub open spec fn knows(self, id: u64) -> bool {
        exists|i: int| 0 <= i < self.node_ids.len() && self.node_ids[i] == id
    }

    /// Every edge names known nodes.
    pub open spec fn endpoints_known(self) -> bool {
        forall|e: int|
            0 <= e < self.src_ids.len() ==> self.knows(#[trigger] self.src_ids[e]) && self.knows(
                self.dst_ids[e],
            )
    }

    /// Every edge has one value per configured metric.
    pub open spec fn metric_counts_ok(self) -> bool {
        forall|e: int| 0 <= e < self.src_ids.len() ==> (#[trigger] self.metrics[e]).len() == self.combine.len()
    }

    /// Edge `e` replaces edge `a` followed by edge `b`.
    pub open spec fn shortcut_record_ok(self, e: int, a: int, b: int) -> bool {
        &&& 0 <= a < e
        &&& 0 <= b < e
        &&& self.src_ids[a] == self.src_ids[e]
        &&& self.dst_ids[a] == self.src_ids[b]
        &&& self.dst_ids[b] == self.dst_ids[e]
        &&& forall|m: int|
            0 <= m < self.combine.len() ==> within(
                #[trigger] self.metrics[e][m] as int,
                combined(self.combine[m], self.metrics[a][m] as int, self.metrics[b][m] as int),
                self.tolerance as int,
            )
    }

    /// Every shortcut record is consistent.
    pub open spec fn shortcuts_ok(self) -> bool {
        forall|e: int|
            0 <= e < self.src_ids.len() && (#[trigger] self.shortcuts[e]) is Some
                ==> self.shortcut_record_ok(
                e,
                self.shortcuts[e].unwrap().0 as int,
                self.shortcuts[e].unwrap().1 as int,
            )
    }

    /// The records make a graph: no check of `finalize` fails.
    pub open spec fn builds(self) -> bool {
        &&& !self.has_duplicate_id()
        &&& self.endpoints_known()
        &&& self.metric_counts_ok()
        &&& self.shortcuts_ok()
    }

    /// `finalize` refuses the records with `e`: the first failing check, in the order
    /// duplicate ids, endpoints, metric counts, shortcuts.
    pub open spec fn refuses(self, e: BuildError) -> bool {
        match e {
            BuildError::DuplicateNodeId(id) => exists|i: int, j: int|
                0 <= i < j < self.node_ids.len() && self.node_ids[i] == id && self.node_ids[j] == id,
            BuildError::UnknownNode(id) => {
                &&& !self.has_duplicate_id()
                &&& !self.endpoints_known()
                &&& !self.knows(id)
            },
            BuildError::MetricCount(e) => {
                &&& !self.has_duplicate_id()
                &&& self.endpoints_known()
                &&& e < self.src_ids.len()
                &&& self.metrics[e as int].len() != self.combine.len()
            },
            BuildError::BadShortcut(e) => {
                &&& !self.has_duplicate_id()
                &&& self.endpoints_known()
                &&& self.metric_counts_ok()
                &&& e < self.src_ids.len()
                &&& self.shortcuts[e as int] is Some
                &&& !self.shortcuts_ok()
            },
        }
    }

    /// The graph `g` holds exactly these records, nodes renumbered.
    pub open spec fn finalizes_to(self, g: GraphModel) -> bool {
        &&& g.node_count() == self.node_ids.len()
        &&& forall|i: int| 0 <= i < g.node_count() ==> self.has_node(#[trigger] g.node_ids[i], g.levels[i])
        &&& forall|k: int|
            0 <= k < self.node_ids.len() ==> lists_node(g.node_ids, g.levels, #[trigger] self.node_ids[k], self.levels[k])
        &&& g.edge_count() == self.src_ids.len()
        &&& forall|e: int|
            0 <= e < g.edge_count() ==> g.node_ids[#[trigger] g.src[e] as int] == self.src_ids[e]
                && g.node_ids[g.dst[e] as int] == self.dst_ids[e]
        &&& g.metrics == self.metrics
        &&& g.shortcuts == self.shortcuts
        &&& g.combine == self.combine
        &&& g.tolerance == self.tolerance
    }
}

/// Collects node and edge records; edges name nodes by external id.
pub struct GraphBuilder {
    combine: Vec<Combine>,
    tolerance: u32,
    node_ids: Vec<u64>,
    levels: Vec<u64>,
    src_ids: Vec<u64>,
    dst_ids: Vec<u64>,
    metrics: Vec<Vec<u32>>,
    shortcuts: Vec<Option<(usize, usize)>>,
}

impl View for GraphBuilder {
    type V = BuilderModel;

    closed spec fn view(&self) -> BuilderModel {
        BuilderModel {
            combine: self.combine@,
            tolerance: self.tolerance,
            node_ids: self.node_ids@,
            levels: self.levels@,
            src_ids: self.src_ids@,
            dst_ids: self.dst_ids@,
            metrics: self.metrics@.map_values(|v: Vec<u32>| v@),
            shortcuts: self.shortcuts@,
        }
    }
}

/// `a` is not after `b` in the lexicographic order of pairs.
pub open spec fn pair_le(a: (u64, u64), b: (u64, u64)) -> bool {
    a.0 < b.0 || (a.0 == b.0 && a.1 <= b.1)
}

/// Relies on `slice::sort_unstable`: the result is a permutation of the input, in
/// the lexicographic order that std gives to tuples.
#[verifier::external_body]
fn sort_pairs(v: &mut Vec<(u64, u64)>)
    ensures
        final(v)@.to_multiset() == old(v)@.to_multiset(),
        forall|i: int, j: int| 0 <= i < j < final(v)@.len() ==> pair_le(final(v)@[i], final(v)@[j]),
{
    v.sort_unstable();
}

/// Reordering pairs keeps their second components pairwise distinct.
proof fn lemma_permuted_ids_distinct(s: Seq<(u64, u64)>, r: Seq<(u64, u64)>, i: int, j: int)
    requires
        r.to_multiset() == s.to_multiset(),
        forall|a: int, b: int| 0 <= a < b < s.len() ==> s[a].1 != s[b].1,
        0 <= i < r.len(),
        0 <= j < r.len(),
        i != j,
    ensures
        r[i].1 != r[j].1,
{
    broadcast use group_to_multiset_ensures;

    if r[i].1 == r[j].1 {
        if r[i] == r[j] {
            lemma_repeated_counts_twice(r, i, j);
            let (p, q) = lemma_counted_twice_repeats(s, r[i]);
            if p < q {
                assert(s[p].1 == s[q].1);
            } else {
                assert(s[q].1 == s[p].1);
            }
        } else {
            assert(r.contains(r[i]));
            assert(r.contains(r[j]));
            assert(r.to_multiset().count(r[i]) > 0);
            assert(r.to_multiset().count(r[j]) > 0);
            assert(s.contains(r[i]));
            assert(s.contains(r[j]));
            let p = choose|p: int| 0 <= p < s.len() && s[p] == r[i];
            let q = choose|q: int| 0 <= q < s.len() && s[q] == r[j];
            if p < q {
                assert(s[p].1 == s[q].1);
            } else {
                assert(s[q].1 == s[p].1);
            }
        }
    }
}

impl GraphBuilder {
    /// An empty builder for edges with one metric per entry of `combine`.
    pub fn new(combine: Vec<Combine>, tolerance: u32) -> (r: GraphBuilder)
        requires
            combine.len() <= METRIC_CAPACITY,
        ensures
            r@.combine == combine@,
            r@.tolerance == tolerance,
            r@.node_ids.len() == 0,
            r@.levels.len() == 0,
            r@.src_ids.len() == 0,
            r.inv(),
    {
        GraphBuilder {
            combine,
            tolerance,
            node_ids: Vec::new(),
            levels: Vec::new(),
            src_ids: Vec::new(),
            dst_ids: Vec::new(),
            metrics: Vec::new(),
            shortcuts: Vec::new(),
        }
    }

    /// The record vectors have matching lengths.
    pub open spec fn inv(&self) -> bool {
        &&& self@.levels.len() == self@.node_ids.len()
        &&& self@.dst_ids.len() == self@.src_ids.len()
        &&& self@.metrics.len() == self@.src_ids.len()
        &&& self@.shortcuts.len() == self@.src_ids.len()
        &&& self@.combine.len() <= METRIC_CAPACITY
    }

    /// Number of node records.
    pub fn node_count(&self) -> (r: usize)
        requires
            self.inv(),
        ensures
            r == self@.node_ids.len(),
    {
        self.node_ids.len()
    }

    /// Number of edge records.
    pub fn edge_count(&self) -> (r: usize)
        requires
            self.inv(),
        ensures
            r == self@.src_ids.len(),
    {
        self.src_ids.len()
    }

    /// Adds a node record.
    pub fn add_node(&mut self, id: u64, level: u64)
        requires
            old(self).inv(),
        ensures
            final(self).inv(),
            final(self)@ == (BuilderModel {
                node_ids: old(self)@.node_ids.push(id),
                levels: old(self)@.levels.push(level),
                ..old(self)@
            }),
    {
        self.node_ids.push(id);
        self.levels.push(level);
        proof {
            assert(self.metrics@.map_values(|v: Vec<u32>| v@) =~= old(self)@.metrics);
        }
    }

    /// Adds an edge record; `shortcut` names the two edges it replaces, by index.
    pub fn add_edge(
        &mut self,
        src_id: u64,
        dst_id: u64,
        metrics: Vec<u32>,
        shortcut: Option<(usize, usize)>,
    )
        requires
            old(self).inv(),
        ensures
            final(self).inv(),
            final(self)@ == (BuilderModel {
                src_ids: old(self)@.src_ids.push(src_id),
                dst_ids: old(self)@.dst_ids.push(dst_id),
                metrics: old(self)@.metrics.push(metrics@),
                shortcuts: old(self)@.shortcuts.push(shortcut),
                ..old(self)@
            }),
    {
        self.src_ids.push(src_id);
        self.dst_ids.push(dst_id);
        self.metrics.push(metrics);
        self.shortcuts.push(shortcut);
        proof {
            assert(self.metrics@.map_values(|v: Vec<u32>| v@) =~= old(self)@.metrics.push(metrics@));
        }
    }

    /// Computes a metric of every edge by `rule`. When the value is undefined or too
    /// large for some edge, returns the first such edge and changes nothing.
    pub fn generate(&mut self, rule: Generation) -> (r: Result<(), usize>)
        requires
            old(self).inv(),
            old(self)@.metric_counts_ok(),
            rule_fits(rule, old(self)@.combine.len() as int),
        ensures
            final(self).inv(),
            match r {
                Ok(()) => {
                    &&& forall|e: int| 0 <= e < old(self)@.src_ids.len() ==> #[trigger] generated(rule, old(self)@.metrics[e]) is Some
                    &&& final(self)@ == (BuilderModel {
                        metrics: Seq::new(
                            old(self)@.metrics.len(),
                            |e: int| old(self)@.metrics[e].update(target(rule), generated(rule, old(self)@.metrics[e]).unwrap()),
                        ),
                        ..old(self)@
                    })
                },
                Err(e) => {
                    &&& e < old(self)@.src_ids.len()
                    &&& generated(rule, old(self)@.metrics[e as int]) is None
                    &&& forall|x: int| 0 <= x < e ==> #[trigger] generated(rule, old(self)@.metrics[x]) is Some
                    &&& final(self)@ == old(self)@
                },
            },
    {
        let ghost start = self@;
        let n = self.metrics.len();
        let mut e: usize = 0;
        while e < n
            invariant
                e <= n,
                n == start.src_ids.len(),
                self@ == start,
                self.inv(),
                start.metric_counts_ok(),
                rule_fits(rule, start.combine.len() as int),
                forall|x: int| 0 <= x < e ==> #[trigger] generated(rule, start.metrics[x]) is Some,
            decreases n - e,
        {
            assert(self.metrics@[e as int]@ == start.metrics[e as int]);
            if generate_value(rule, &self.metrics[e]).is_none() {
                return Err(e);
            }
            e = e + 1;
        }
        let mut e: usize = 0;
        while e < n
            invariant
                e <= n,
                n == start.src_ids.len(),
                self.inv(),
                self@.metrics.len() == n,
                self@ == (BuilderModel { metrics: self@.metrics, ..start }),
                self.metrics@.len() == n,
                start.metric_counts_ok(),
                rule_fits(rule, start.combine.len() as int),
                forall|x: int| 0 <= x < n ==> #[trigger] generated(rule, start.metrics[x]) is Some,
                forall|x: int| 0 <= x < e ==> #[trigger] self@.metrics[x] == start.metrics[x].update(target(rule), generated(rule, start.metrics[x]).unwrap()),
                forall|x: int| e <= x < n ==> #[trigger] self@.metrics[x] == start.metrics[x],
            decreases n - e,
        {
            assert(self@.metrics[e as int] == start.metrics[e as int]);
            assert(self.metrics@[e as int]@ == self@.metrics[e as int]);
            let v = generate_value(rule, &self.metrics[e]).unwrap();
            let t = match rule {
                Generation::Copy { to, .. } => to,
                Generation::Convert { to, .. } => to,
                Generation::Calc { result, .. } => result,
            };
            let ghost old_row = start.metrics[e as int];
            let src_row = &self.metrics[e];
            assert(src_row@ == old_row);
            let mut row: Vec<u32> = Vec::with_capacity(src_row.len());
            let mut k: usize = 0;
            while k < src_row.len()
                invariant
                    k <= old_row.len(),
                    src_row@ == old_row,
                    row@ == Seq::new(k as nat, |i: int| if i == t { v } else { old_row[i] }),
                decreases src_row@.len() - k,
            {
                let x = if k == t { v } else { src_row[k] };
                row.push(x);
                k = k + 1;
                assert(row@ =~= Seq::new(k as nat, |i: int| if i == t { v } else { old_row[i] }));
            }
            proof {
                assert(t as int == target(rule));
                assert(0 <= t < old_row.len());
                assert(row@ =~= old_row.update(t as int, v));
            }
            let ghost before = self@;
            self.metrics.set(e, row);
            proof {
                assert(self@.metrics =~= before.metrics.update(e as int, old_row.update(t as int, v)));
            }
            e = e + 1;
        }
        proof {
            assert(self@.metrics =~= Seq::new(
                start.metrics.len(),
                |e: int| start.metrics[e].update(target(rule), generated(rule, start.metrics[e]).unwrap()),
            ));
        }
        Ok(())
    }

    /// First node id that occurs twice, if any.
    fn find_duplicate(&self) -> (r: Option<u64>)
        requires
            self.inv(),
        ensures
            match r {
                Some(id) => exists|i: int, j: int|
                    0 <= i < j < self@.node_ids.len() && self@.node_ids[i] == id && self@.node_ids[j] == id,
                None => !self@.has_duplicate_id(),
            },
    {
        let mut seen: HashMap<u64, usize> = HashMap::new();
        let mut k: usize = 0;
        while k < self.node_ids.len()
            invariant
                k <= self.node_ids@.len(),
                forall|id: u64| #[trigger] seen@.contains_key(id) ==> seen@[id] < k && self.node_ids@[seen@[id] as int] == id,
                forall|i: int| 0 <= i < k ==> #[trigger] seen@.contains_key(self.node_ids@[i]),
                forall|i: int, j: int| 0 <= i < j < k ==> self.node_ids@[i] != self.node_ids@[j],
            decreases self.node_ids.len() - k,
        {
            let id = self.node_ids[k];
            match seen.get(&id) {
                Some(i) => {
                    let i = *i;
                    assert(0 <= i < k && self@.node_ids[i as int] == id && self@.node_ids[k as int] == id);
                    return Some(id);
                },
                None => {
                    proof {
                        assert forall|i: int| 0 <= i < k implies self.node_ids@[i] != id by {
                            assert(seen@.contains_key(self.node_ids@[i]));
                        }
                    }
                    seen.insert(id, k);
                },
            }
            k = k + 1;
        }
        None
    }
}

/// Every pair of `s` stands somewhere in a reordering `r` of it.
proof fn lemma_found_after_reorder(s: Seq<(u64, u64)>, r: Seq<(u64, u64)>, k: int) -> (t: int)
    requires
        r.to_multiset() == s.to_multiset(),
        0 <= k < s.len(),
    ensures
        0 <= t < r.len(),
        r[t] == s[k],
{
    broadcast use group_to_multiset_ensures;

    assert(s.contains(s[k]));
    assert(s.to_multiset().count(s[k]) > 0);
    assert(r.contains(s[k]));
    choose|t: int| 0 <= t < r.len() && r[t] == s[k]
}

impl GraphBuilder {
    /// Edge `e`'s shortcut record, with children `a` and `b`, is consistent.
    fn shortcut_record_holds(&self, e: usize, a: usize, b: usize) -> (r: bool)
        requires
            self.inv(),
            self@.metric_counts_ok(),
            e < self@.src_ids.len(),
        ensures
            r == self@.shortcut_record_ok(e as int, a as int, b as int),
    {
        if !(a < e && b < e) {
            return false;
        }
        if self.src_ids[a] != self.src_ids[e] || self.dst_ids[a] != self.src_ids[b]
            || self.dst_ids[b] != self.dst_ids[e] {
            return false;
        }
        let me = &self.metrics[e];
        let ma = &self.metrics[a];
        let mb = &self.metrics[b];
        assert(me@ == self@.metrics[e as int]);
        assert(ma@ == self@.metrics[a as int]);
        assert(mb@ == self@.metrics[b as int]);
        let mut m: usize = 0;
        while m < self.combine.len()
            invariant
                m <= self.combine@.len(),
                self.inv(),
                self@.metric_counts_ok(),
                e < self@.src_ids.len(),
                a < e,
                b < e,
                me@ == self@.metrics[e as int],
                ma@ == self@.metrics[a as int],
                mb@ == self@.metrics[b as int],
                forall|t: int|
                    0 <= t < m ==> within(
                        #[trigger] self@.metrics[e as int][t] as int,
                        combined(self@.combine[t], self@.metrics[a as int][t] as int, self@.metrics[b as int][t] as int),
                        self@.tolerance as int,
                    ),
            decreases self.combine.len() - m,
        {
            let want = combine_values(self.combine[m], ma[m], mb[m]);
            if !approx_eq(me[m] as u64, want, self.tolerance as u64) {
                return false;
            }
            m = m + 1;
        }
        true
    }

    /// Node ids and levels in dense index order, and the lookup from id to index.
    #[verifier::spinoff_prover]
    #[verifier::rlimit(40)]
    fn renumber_nodes(&self) -> (r: (Vec<u64>, Vec<u64>, HashMap<u64, usize>))
        requires
            self.inv(),
            !self@.has_duplicate_id(),
        ensures
            nodes_renumbered(self@, r.0@, r.1@),
            forall|id: u64| #[trigger] r.2@.contains_key(id) <==> exists|t: int| 0 <= t < r.0@.len() && r.0@[t] == id,
            forall|id: u64| #[trigger] r.2@.contains_key(id) ==> r.2@[id] < r.0@.len() && r.0@[r.2@[id] as int] == id,
            forall|id: u64| #[trigger] r.2@.contains_key(id) <==> self@.knows(id),
    {
        let ghost b = self@;
        let n = self.node_ids.len();
        // sort keys: level descending, then id ascending
        let mut keys: Vec<(u64, u64)> = Vec::with_capacity(n);
        let mut k: usize = 0;
        while k < n
            invariant
                k <= n,
                n == b.node_ids.len(),
                b == self@,
                self.inv(),
                keys@.len() == k,
                forall|t: int| 0 <= t < k ==> #[trigger] keys@[t] == ((u64::MAX - b.levels[t]) as u64, b.node_ids[t]),
            decreases n - k,
        {
            keys.push((u64::MAX - self.levels[k], self.node_ids[k]));
            k = k + 1;
        }
        let ghost unsorted = keys@;
        assert forall|a: int, c: int| 0 <= a < c < unsorted.len() implies unsorted[a].1 != unsorted[c].1 by {
            assert(unsorted[a].1 == b.node_ids[a]);
            assert(unsorted[c].1 == b.node_ids[c]);
        }
        sort_pairs(&mut keys);
        let ghost sorted = keys@;
        proof {
            vstd::seq_lib::to_multiset_len(sorted);
            vstd::seq_lib::to_multiset_len(unsorted);
        }
        let mut node_ids: Vec<u64> = Vec::with_capacity(n);
        let mut levels: Vec<u64> = Vec::with_capacity(n);
        let mut index_of: HashMap<u64, usize> = HashMap::new();
        let mut i: usize = 0;
        while i < n
            invariant
                i <= n,
                n == b.node_ids.len(),
                b == self@,
                self.inv(),
                unsorted.len() == n,
                forall|t: int| 0 <= t < n ==> #[trigger] unsorted[t] == ((u64::MAX - b.levels[t]) as u64, b.node_ids[t]),
                forall|a: int, c: int| 0 <= a < c < n ==> pair_le(sorted[a], sorted[c]),
                sorted == keys@,
                sorted.len() == n,
                sorted.to_multiset() == unsorted.to_multiset(),
                forall|a: int, c: int| 0 <= a < c < unsorted.len() ==> unsorted[a].1 != unsorted[c].1,
                node_ids@.len() == i,
                levels@.len() == i,
                forall|t: int| 0 <= t < i ==> #[trigger] node_ids@[t] == sorted[t].1 && levels@[t] == (u64::MAX - sorted[t].0) as u64,
                forall|id: u64| #[trigger] index_of@.contains_key(id) <==> exists|t: int| 0 <= t < i && node_ids@[t] == id,
                forall|id: u64| #[trigger] index_of@.contains_key(id) ==> index_of@[id] < i && node_ids@[index_of@[id] as int] == id,
            decreases n - i,
        {
            let (key, id) = keys[i];
            proof {
                assert forall|t: int| 0 <= t < i implies node_ids@[t] != id by {
                    lemma_permuted_ids_distinct(unsorted, sorted, t, i as int);
                }
            }
            let ghost old_map = index_of@;
            let ghost old_ids = node_ids@;
            node_ids.push(id);
            levels.push(u64::MAX - key);
            index_of.insert(id, i);
            proof {
                assert(index_of@ == old_map.insert(id, i));
                assert forall|x: u64| #[trigger] index_of@.contains_key(x) <==> exists|t: int| 0 <= t < i + 1 && node_ids@[t] == x by {
                    if x == id {
                        assert(node_ids@[i as int] == x);
                    } else {
                        if old_map.contains_key(x) {
                            let t = choose|t: int| 0 <= t < i && old_ids[t] == x;
                            assert(node_ids@[t] == x);
                        }
                        if exists|t: int| 0 <= t < i + 1 && node_ids@[t] == x {
                            let t = choose|t: int| 0 <= t < i + 1 && node_ids@[t] == x;
                            assert(old_ids[t] == x);
                            assert(old_map.contains_key(x));
                        }
                    }
                }
            }
            i = i + 1;
        }
        proof {
            lemma_renumbered(b, unsorted, sorted, node_ids@, levels@);
        }
        assert(forall|id: u64| #[trigger] index_of@.contains_key(id) <==> exists|t: int| 0 <= t < node_ids@.len() && node_ids@[t] == id);
        (node_ids, levels, index_of)
    }

    /// Index of each edge's source and destination, or the first id that is unknown.
    fn map_endpoints(&self, node_ids: &Vec<u64>, index_of: &HashMap<u64, usize>) -> (r: Result<(Vec<usize>, Vec<usize>), u64>)
        requires
            self.inv(),
            node_ids@.len() == self@.node_ids.len(),
            forall|id: u64| #[trigger] index_of@.contains_key(id) <==> self@.knows(id),
            forall|id: u64| #[trigger] index_of@.contains_key(id) <==> exists|t: int| 0 <= t < node_ids@.len() && node_ids@[t] == id,
            forall|id: u64| #[trigger] index_of@.contains_key(id) ==> index_of@[id] < node_ids@.len() && node_ids@[index_of@[id] as int] == id,
        ensures
            match r {
                Ok((src, dst)) => {
                    &&& self@.endpoints_known()
                    &&& src@.len() == self@.src_ids.len()
                    &&& dst@.len() == self@.src_ids.len()
                    &&& forall|t: int| 0 <= t < src@.len() ==> #[trigger] src@[t] < node_ids@.len() && node_ids@[src@[t] as int] == self@.src_ids[t]
                    &&& forall|t: int| 0 <= t < dst@.len() ==> #[trigger] dst@[t] < node_ids@.len() && node_ids@[dst@[t] as int] == self@.dst_ids[t]
                },
                Err(id) => !self@.endpoints_known() && !self@.knows(id),
            },
    {
        let ghost b = self@;
        let n = node_ids.len();
        let m = self.src_ids.len();
        let mut src: Vec<usize> = Vec::with_capacity(m);
        let mut dst: Vec<usize> = Vec::with_capacity(m);
        let mut e: usize = 0;
        while e < m
            invariant
                e <= m,
                m == b.src_ids.len(),
                b == self@,
                self.inv(),
                n == node_ids@.len(),
                n == b.node_ids.len(),
                forall|id: u64| #[trigger] index_of@.contains_key(id) <==> b.knows(id),
                forall|id: u64| #[trigger] index_of@.contains_key(id) ==> index_of@[id] < n && node_ids@[index_of@[id] as int] == id,
                src@.len() == e,
                dst@.len() == e,
                forall|t: int| 0 <= t < e ==> #[trigger] src@[t] < n && node_ids@[src@[t] as int] == b.src_ids[t],
                forall|t: int| 0 <= t < e ==> #[trigger] dst@[t] < n && node_ids@[dst@[t] as int] == b.dst_ids[t],
                forall|t: int| 0 <= t < e ==> b.knows(#[trigger] b.src_ids[t]) && b.knows(b.dst_ids[t]),
            decreases m - e,
        {
            let s_id = self.src_ids[e];
            match index_of.get(&s_id) {
                Some(x) => {
                    src.push(*x);
                },
                None => {
                    proof {
                        assert(!b.knows(b.src_ids[e as int]));
                    }
                    return Err(s_id);
                },
            }
            let d_id = self.dst_ids[e];
            match index_of.get(&d_id) {
                Some(x) => {
                    dst.push(*x);
                },
                None => {
                    proof {
                        assert(!b.knows(b.dst_ids[e as int]));
                    }
                    return Err(d_id);
                },
            }
            proof {
                assert(b.knows(b.src_ids[e as int]));
                assert(b.knows(b.dst_ids[e as int]));
                assert forall|t: int| 0 <= t < e + 1 implies b.knows(#[trigger] b.src_ids[t]) && b.knows(b.dst_ids[t]) by {
                }
            }
            e = e + 1;
        }
        Ok((src, dst))
    }

    /// First edge whose metric count differs from the configured one, if any.
    fn find_metric_count_error(&self) -> (r: Option<usize>)
        requires
            self.inv(),
        ensures
            match r {
                Some(e) => e < self@.src_ids.len() && self@.metrics[e as int].len() != self@.combine.len(),
                None => self@.metric_counts_ok(),
            },
    {
        let dim = self.combine.len();
        let mut e: usize = 0;
        while e < self.metrics.len()
            invariant
                e <= self@.src_ids.len(),
                self.inv(),
                dim == self@.combine.len(),
                forall|t: int| 0 <= t < e ==> (#[trigger] self@.metrics[t]).len() == dim,
            decreases self.metrics.len() - e,
        {
            assert(self.metrics@[e as int]@ == self@.metrics[e as int]);
            if self.metrics[e].len() != dim {
                return Some(e);
            }
            e = e + 1;
        }
        None
    }

    /// First shortcut whose record is inconsistent, if any.
    fn find_shortcut_error(&self) -> (r: Option<usize>)
        requires
            self.inv(),
            self@.metric_counts_ok(),
        ensures
            match r {
                Some(e) => e < self@.src_ids.len() && self@.shortcuts[e as int] is Some && !self@.shortcuts_ok(),
                None => self@.shortcuts_ok(),
            },
    {
        let ghost b = self@;
        let m = self.src_ids.len();
        let mut e: usize = 0;
        while e < m
            invariant
                e <= m,
                m == b.src_ids.len(),
                b == self@,
                self.inv(),
                b.metric_counts_ok(),
                forall|t: int|
                    0 <= t < e && (#[trigger] b.shortcuts[t]) is Some ==> b.shortcut_record_ok(
                        t,
                        b.shortcuts[t].unwrap().0 as int,
                        b.shortcuts[t].unwrap().1 as int,
                    ),
            decreases m - e,
        {
            if let Some((x, y)) = self.shortcuts[e] {
                if !self.shortcut_record_holds(e, x, y) {
                    assert(b.shortcuts[e as int] == Some((x, y)));
                    return Some(e);
                }
            }
            e = e + 1;
        }
        None
    }

    /// Builds the graph: rejects duplicate node ids, unknown endpoints, wrong metric
    /// counts and inconsistent shortcuts (checked in this order), numbers the nodes by
    /// level descending then id ascending, and builds both views.
    #[verifier::spinoff_prover]
    #[verifier::rlimit(100)]
    pub fn finalize(self) -> (r: Result<Graph, BuildError>)
        requires
            self.inv(),
            self@.node_ids.len() < usize::MAX,
        ensures
            match r {
                Err(e) => self@.refuses(e),
                Ok(g) => self@.builds() && g.wf() && self@.finalizes_to(g@),
            },
    {
        let ghost b = self@;
        if let Some(id) = self.find_duplicate() {
            return Err(BuildError::DuplicateNodeId(id));
        }
        let n = self.node_ids.len();
        let (node_ids, levels, index_of) = self.renumber_nodes();
        let (src, dst) = match self.map_endpoints(&node_ids, &index_of) {
            Ok(p) => p,
            Err(id) => {
                return Err(BuildError::UnknownNode(id));
            },
        };
        if let Some(e) = self.find_metric_count_error() {
            return Err(BuildError::MetricCount(e));
        }
        if let Some(e) = self.find_shortcut_error() {
            return Err(BuildError::BadShortcut(e));
        }
        let (mut fwd_edges, fwd_offsets) = group_by_key(&src, n);
        sort_groups(&mut fwd_edges, &fwd_offsets, Ghost(src@), &dst, n);
        let (mut bwd_edges, bwd_offsets) = group_by_key(&dst, n);
        sort_groups(&mut bwd_edges, &bwd_offsets, Ghost(dst@), &src, n);
        let fwd = (fwd_edges, fwd_offsets);
        let bwd = (bwd_edges, bwd_offsets);
        let GraphBuilder { combine, tolerance, metrics, shortcuts, .. } = self;
        let g = Graph::from_parts(
            node_ids,
            levels,
            index_of,
            src,
            dst,
            metrics,
            shortcuts,
            combine,
            tolerance,
            fwd,
            bwd,
        );
        proof {
            lemma_finalized(b, g@);
        }
        Ok(g)
    }
}

/// The nodes read off the sorted keys are the builder's node records.
proof fn lemma_renumbered(b: BuilderModel, unsorted: Seq<(u64, u64)>, sorted: Seq<(u64, u64)>, ids: Seq<u64>, lv: Seq<u64>)
    requires
        b.levels.len() == b.node_ids.len(),
        unsorted.len() == b.node_ids.len(),
        sorted.len() == b.node_ids.len(),
        ids.len() == b.node_ids.len(),
        lv.len() == b.node_ids.len(),
        sorted.to_multiset() == unsorted.to_multiset(),
        forall|t: int| 0 <= t < unsorted.len() ==> #[trigger] unsorted[t] == ((u64::MAX - b.levels[t]) as u64, b.node_ids[t]),
        forall|a: int, c: int| 0 <= a < c < unsorted.len() ==> unsorted[a].1 != unsorted[c].1,
        forall|a: int, c: int| 0 <= a < c < sorted.len() ==> pair_le(sorted[a], sorted[c]),
        forall|t: int| 0 <= t < ids.len() ==> #[trigger] ids[t] == sorted[t].1 && lv[t] == (u64::MAX - sorted[t].0) as u64,
    ensures
        nodes_renumbered(b, ids, lv),
        forall|id: u64| (exists|t: int| 0 <= t < ids.len() && ids[t] == id) <==> #[trigger] b.knows(id),
{
    let n = ids.len();
    assert forall|a: int, c: int| 0 <= a < c < ids.len() implies node_before(
        lv[a], #[trigger] ids[a], lv[c], #[trigger] ids[c]) by {
        lemma_permuted_ids_distinct(unsorted, sorted, a, c);
        assert(pair_le(sorted[a], sorted[c]));
    }
    assert forall|a: int, c: int| 0 <= a < c < ids.len() implies #[trigger] ids[a] != #[trigger] ids[c] by {
        lemma_permuted_ids_distinct(unsorted, sorted, a, c);
    }
    assert forall|k: int| 0 <= k < b.node_ids.len() implies lists_node(ids, lv, #[trigger] b.node_ids[k], b.levels[k]) by {
        let t = lemma_found_after_reorder(unsorted, sorted, k);
        assert(ids[t] == b.node_ids[k]);
        assert(lv[t] == b.levels[k]);
    }
    assert forall|i: int| 0 <= i < ids.len() implies b.has_node(#[trigger] ids[i], lv[i]) by {
        let k = lemma_found_after_reorder(sorted, unsorted, i);
        assert(b.node_ids[k] == ids[i]);
        assert(b.levels[k] == lv[i]);
    }
    assert forall|id: u64| (exists|t: int| 0 <= t < ids.len() && ids[t] == id) <==> #[trigger] b.knows(id) by {
        if exists|t: int| 0 <= t < ids.len() && ids[t] == id {
            let t = choose|t: int| 0 <= t < ids.len() && ids[t] == id;
            let k = lemma_found_after_reorder(sorted, unsorted, t);
            assert(b.node_ids[k] == id);
        }
        if b.knows(id) {
            let k = choose|k: int| 0 <= k < b.node_ids.len() && b.node_ids[k] == id;
            let t = lemma_found_after_reorder(unsorted, sorted, k);
            assert(ids[t] == id);
        }
    }
}

/// A graph assembled from consistent records is well formed and holds them.
proof fn lemma_finalized(b: BuilderModel, gm: GraphModel)
    requires
        b.levels.len() == b.node_ids.len(),
        b.dst_ids.len() == b.src_ids.len(),
        b.metrics.len() == b.src_ids.len(),
        b.shortcuts.len() == b.src_ids.len(),
        b.combine.len() <= METRIC_CAPACITY,
        b.node_ids.len() < usize::MAX,
        b.metric_counts_ok(),
        b.shortcuts_ok(),
        nodes_renumbered(b, gm.node_ids, gm.levels),
        gm.src.len() == b.src_ids.len(),
        gm.dst.len() == b.src_ids.len(),
        forall|t: int| 0 <= t < gm.src.len() ==> #[trigger] gm.src[t] < gm.node_ids.len() && gm.node_ids[gm.src[t] as int] == b.src_ids[t],
        forall|t: int| 0 <= t < gm.dst.len() ==> #[trigger] gm.dst[t] < gm.node_ids.len() && gm.node_ids[gm.dst[t] as int] == b.dst_ids[t],
        gm.metrics == b.metrics,
        gm.shortcuts == b.shortcuts,
        gm.combine == b.combine,
        gm.tolerance == b.tolerance,
        grouped_view(gm.fwd_edges, gm.fwd_offsets, gm.src, gm.node_count()),
        grouped_view(gm.bwd_edges, gm.bwd_offsets, gm.dst, gm.node_count()),
        sorted_within(gm.fwd_edges, gm.src, gm.dst),
        sorted_within(gm.bwd_edges, gm.dst, gm.src),
    ensures
        gm.wf(),
        b.finalizes_to(gm),
{
    let ids = gm.node_ids;
    let n = gm.node_count();
    assert forall|p: int, q: int| 0 <= p < n && 0 <= q < n && ids[p] == ids[q] implies p == q by {
        if p < q {
            assert(ids[p] != ids[q]);
        } else if q < p {
            assert(ids[q] != ids[p]);
        }
    }
    assert forall|x: int| 0 <= x < gm.edge_count() && (#[trigger] gm.shortcuts[x]) is Some implies gm.shortcut_ok(
        x, gm.shortcuts[x].unwrap().0 as int, gm.shortcuts[x].unwrap().1 as int) by {
        let a = gm.shortcuts[x].unwrap().0 as int;
        let c = gm.shortcuts[x].unwrap().1 as int;
        assert(b.shortcut_record_ok(x, a, c));
        assert(gm.src[a] == gm.src[x]);
        assert(gm.dst[a] == gm.src[c]);
        assert(gm.dst[c] == gm.dst[x]);
    }
    assert forall|e: int| 0 <= e < gm.edge_count() implies (#[trigger] gm.metrics[e]).len() == gm.dim() by {
        assert(b.metrics[e].len() == b.combine.len());
    }
}

/// `ids` and `levels` list the node records of `b`, each once, higher levels first
/// and lower ids first within a level.
pub open spec fn nodes_renumbered(b: BuilderModel, ids: Seq<u64>, levels: Seq<u64>) -> bool {
    &&& ids.len() == b.node_ids.len()
    &&& levels.len() == b.node_ids.len()
    &&& forall|i: int, j: int|
        0 <= i < j < ids.len() ==> node_before(levels[i], #[trigger] ids[i], levels[j], #[trigger] ids[j])
    &&& forall|i: int, j: int| 0 <= i < j < ids.len() ==> #[trigger] ids[i] != #[trigger] ids[j]
    &&& forall|i: int| 0 <= i < ids.len() ==> b.has_node(#[trigger] ids[i], levels[i])
    &&& forall|k: int| 0 <= k < b.node_ids.len() ==> lists_node(ids, levels, #[trigger] b.node_ids[k], b.levels[k])
}

/// Some index of `ids` holds `id` with level `level`.
pub open spec fn lists_node(ids: Seq<u64>, levels: Seq<u64>, id: u64, level: u64) -> bool {
    exists|i: int| 0 <= i < ids.len() && ids[i] == id && levels[i] == level
}

} // verus!
