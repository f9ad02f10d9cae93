//! Workload accounting of the balancing loop: per-edge counters of how many
//! chosen routes use each physical edge, and the rule that turns them into the
//! new metric column.

use crate::dijkstra::Dijkstra;
use crate::explorating::{routable, ConvexHullExplorator};
use crate::flatten::{flat_path, flatten, is_flat, lemma_flat_path};
use crate::graph::{Graph, GraphModel};
use crate::paths::{is_best_path, is_path, path_cost};
use crate::parsing::RoutePair;
use vstd::prelude::*;

verus! {

/// Sum of the entries of `s`.
pub open spec fn seq_sum(s: Seq<u64>) -> int
    decreases s.len(),
{
    if s.len() == 0 {
        0
    } else {
        seq_sum(s.drop_last()) + s.last()
    }
}

/// Number of times `e` occurs in `p`.
pub open spec fn occurrences(p: Seq<usize>, e: int) -> nat
    decreases p.len(),
{
    if p.len() == 0 {
        0
    } else {
        occurrences(p.drop_last(), e) + if p.last() == e { 1nat } else { 0nat }
    }
}

/// Total number of edges of the chosen paths.
pub open spec fn chosen_length(paths: Seq<Seq<usize>>, picks: Seq<usize>) -> int
    decreases picks.len(),
{
    if picks.len() == 0 {
        0
    } else {
        chosen_length(paths, picks.drop_last()) + paths[picks.last() as int].len()
    }
}

/// The edge sequences of a list of paths.
pub open spec fn path_views(paths: Seq<Vec<usize>>) -> Seq<Seq<usize>> {
    paths.map_values(|p: Vec<usize>| p@)
}

/// How often edge `e` occurs in the picked paths, counting repeats.
pub open spec fn picked_occurrences(paths: Seq<Seq<usize>>, picks: Seq<usize>, e: int) -> nat
    decreases picks.len(),
{
    if picks.len() == 0 {
        0
    } else {
        picked_occurrences(paths, picks.drop_last(), e) + occurrences(paths[picks.last() as int], e)
    }
}

proof fn lemma_chosen_length_prefix(paths: Seq<Seq<usize>>, picks: Seq<usize>, k: int)
    requires
        0 <= k <= picks.len(),
    ensures
        chosen_length(paths, picks.subrange(0, k)) <= chosen_length(paths, picks),
        chosen_length(paths, picks.subrange(0, k)) >= 0,
    decreases picks.len() - k,
{
    if k < picks.len() {
        lemma_chosen_length_prefix(paths, picks, k + 1);
        let sub = picks.subrange(0, k + 1);
        assert(sub.drop_last() =~= picks.subrange(0, k));
    } else {
        assert(picks.subrange(0, k) =~= picks);
    }
    lemma_chosen_length_nonneg(paths, picks.subrange(0, k));
}

proof fn lemma_chosen_length_nonneg(paths: Seq<Seq<usize>>, picks: Seq<usize>)
    ensures
        chosen_length(paths, picks) >= 0,
    decreases picks.len(),
{
    if picks.len() > 0 {
        lemma_chosen_length_nonneg(paths, picks.drop_last());
    }
}

proof fn lemma_sum_update(s: Seq<u64>, i: int, v: u64)
    requires
        0 <= i < s.len(),
    ensures
        seq_sum(s.update(i, v)) == seq_sum(s) - s[i] + v,
    decreases s.len(),
{
    if i < s.len() - 1 {
        lemma_sum_update(s.drop_last(), i, v);
        assert(s.update(i, v).drop_last() =~= s.drop_last().update(i, v));
    } else {
        assert(s.update(i, v).drop_last() =~= s.drop_last());
    }
}

proof fn lemma_entry_below_sum(s: Seq<u64>, i: int)
    requires
        0 <= i < s.len(),
    ensures
        s[i] <= seq_sum(s),
    decreases s.len(),
{
    lemma_sum_nonneg(s.drop_last());
    if i < s.len() - 1 {
        lemma_entry_below_sum(s.drop_last(), i);
    }
}

proof fn lemma_sum_nonneg(s: Seq<u64>)
    ensures
        seq_sum(s) >= 0,
    decreases s.len(),
{
    if s.len() > 0 {
        lemma_sum_nonneg(s.drop_last());
    }
}

proof fn lemma_sum_zero(s: Seq<u64>)
    requires
        forall|i: int| 0 <= i < s.len() ==> s[i] == 0,
    ensures
        seq_sum(s) == 0,
    decreases s.len(),
{
    if s.len() > 0 {
        lemma_sum_zero(s.drop_last());
    }
}

/// Per-edge workload counters together with their total.
pub struct Workloads {
    counts: Vec<u64>,
    total: u64,
}

impl View for Workloads {
    type V = Seq<u64>;

    closed spec fn view(&self) -> Seq<u64> {
        self.counts@
    }
}

impl Workloads {
    /// The stored total is the sum of the counters.
    pub closed spec fn inv(&self) -> bool {
        self.total == seq_sum(self.counts@)
    }

    /// `n` counters at zero.
    pub fn new(n: usize) -> (r: Workloads)
        ensures
            r.inv(),
            r@.len() == n,
            forall|e: int| 0 <= e < n ==> r@[e] == 0,
    {
        let mut counts: Vec<u64> = Vec::with_capacity(n);
        let mut i: usize = 0;
        while i < n
            invariant
                i <= n,
                counts@.len() == i,
                forall|e: int| 0 <= e < i ==> counts@[e] == 0,
            decreases n - i,
        {
            counts.push(0);
            i = i + 1;
        }
        proof {
            lemma_sum_zero(counts@);
        }
        Workloads { counts, total: 0 }
    }

    pub fn len(&self) -> (r: usize)
        ensures
            r == self@.len(),
    {
        self.counts.len()
    }

    /// Counter of edge `e`.
    pub fn get(&self, e: usize) -> (r: u64)
        requires
            e < self@.len(),
        ensures
            r == self@[e as int],
    {
        self.counts[e]
    }

    /// Sum of all counters.
    pub fn total(&self) -> (r: u64)
        requires
            self.inv(),
        ensures
            r == seq_sum(self@),
    {
        self.total
    }

    /// Adds `count` to the counter of every edge of `path`, once per occurrence.
    /// Returns false, and changes nothing, when the total would exceed `u64::MAX`.
    pub fn add_path(&mut self, path: &Vec<usize>, count: u64) -> (ok: bool)
        requires
            old(self).inv(),
            forall|i: int| 0 <= i < path@.len() ==> #[trigger] path@[i] < old(self)@.len(),
        ensures
            final(self).inv(),
            final(self)@.len() == old(self)@.len(),
            ok == (seq_sum(old(self)@) + count * path@.len() <= u64::MAX),
            ok ==> seq_sum(final(self)@) == seq_sum(old(self)@) + count * path@.len(),
            ok ==> forall|e: int| 0 <= e < old(self)@.len() ==> #[trigger] final(self)@[e] == old(self)@[e] + count * occurrences(path@, e),
            !ok ==> final(self)@ == old(self)@,
    {
        let len = path.len() as u64;
        let room = u64::MAX - self.total;
        if len > 0 && count > room / len {
            proof {
                let q = (room / len) as int;
                assert(count * len > room) by (nonlinear_arith)
                    requires len > 0, count > q, q == room as int / len as int;
            }
            return false;
        }
        proof {
            if len > 0 {
                let q = (room / len) as int;
                assert(count * len <= room) by (nonlinear_arith)
                    requires len > 0, count <= q, q == room as int / len as int;
            }
        }
        let ghost start = self.counts@;
        let mut i: usize = 0;
        while i < path.len()
            invariant
                i <= path@.len(),
                len == path@.len(),
                self.counts@.len() == start.len(),
                forall|k: int| 0 <= k < path@.len() ==> #[trigger] path@[k] < start.len(),
                seq_sum(start) + count * len <= u64::MAX,
                self.total == seq_sum(self.counts@),
                seq_sum(self.counts@) == seq_sum(start) + count * i,
                forall|e: int| 0 <= e < start.len() ==> #[trigger] self.counts@[e] == start[e] + count * occurrences(path@.subrange(0, i as int), e),
            decreases path.len() - i,
        {
            let e = path[i];
            proof {
                lemma_entry_below_sum(self.counts@, e as int);
                assert(count * i + count <= count * len) by (nonlinear_arith)
                    requires i < len;
                lemma_sum_update(self.counts@, e as int, (self.counts@[e as int] + count) as u64);
            }
            let v = self.counts[e] + count;
            self.counts.set(e, v);
            self.total = self.total + count;
            proof {
                let sub = path@.subrange(0, i as int + 1);
                assert(sub.drop_last() =~= path@.subrange(0, i as int));
                assert forall|x: int| 0 <= x < start.len() implies #[trigger] self.counts@[x] == start[x] + count * occurrences(sub, x) by {
                    assert(count * occurrences(sub, x) == count * occurrences(path@.subrange(0, i as int), x) + if x == e { count as int } else { 0 }) by (nonlinear_arith)
                        requires occurrences(sub, x) == occurrences(path@.subrange(0, i as int), x) + if x == e { 1nat } else { 0nat };
                }
                assert(count * i + count == count * (i + 1)) by (nonlinear_arith);
            }
            i = i + 1;
        }
        assert(path@.subrange(0, path@.len() as int) =~= path@);
        true
    }

    /// Adds each picked path once (one route unit per pick), all or nothing: returns
    /// false, and changes nothing, when the total would exceed `u64::MAX`.
    pub fn add_route(&mut self, paths: &Vec<Vec<usize>>, picks: &Vec<usize>) -> (ok: bool)
        requires
            old(self).inv(),
            forall|k: int| 0 <= k < picks@.len() ==> #[trigger] picks@[k] < paths@.len(),
            forall|j: int, i: int| 0 <= j < paths@.len() && 0 <= i < paths@[j]@.len() ==> #[trigger] paths@[j]@[i] < old(self)@.len(),
        ensures
            final(self).inv(),
            final(self)@.len() == old(self)@.len(),
            ok == (seq_sum(old(self)@) + chosen_length(paths@.map_values(|p: Vec<usize>| p@), picks@) <= u64::MAX),
            ok ==> seq_sum(final(self)@) == seq_sum(old(self)@) + chosen_length(paths@.map_values(|p: Vec<usize>| p@), picks@),
            ok ==> forall|e: int| 0 <= e < old(self)@.len() ==> #[trigger] final(self)@[e] == old(self)@[e]
                + picked_occurrences(paths@.map_values(|p: Vec<usize>| p@), picks@, e),
            !ok ==> final(self)@ == old(self)@,
    {
        let ghost views = paths@.map_values(|p: Vec<usize>| p@);
        let ghost start = self@;
        let room = u64::MAX - self.total;
        // the total length first
        let mut need: u64 = 0;
        let mut k: usize = 0;
        while k < picks.len()
            invariant
                k <= picks@.len(),
                views == paths@.map_values(|p: Vec<usize>| p@),
                forall|k: int| 0 <= k < picks@.len() ==> #[trigger] picks@[k] < paths@.len(),
                need == chosen_length(views, picks@.subrange(0, k as int)),
                need <= room,
                self.inv(),
                self@ == start,
                self.total == seq_sum(start),
                room == u64::MAX - self.total,
            decreases picks.len() - k,
        {
            let len = paths[picks[k]].len() as u64;
            proof {
                let sub = picks@.subrange(0, k as int + 1);
                assert(sub.drop_last() =~= picks@.subrange(0, k as int));
                assert(views[picks@[k as int] as int].len() == len);
            }
            if len > room - need {
                proof {
                    lemma_chosen_length_prefix(views, picks@, k as int + 1);
                    assert(self.total == seq_sum(start));
                }
                return false;
            }
            need = need + len;
            k = k + 1;
        }
        assert(picks@.subrange(0, picks@.len() as int) =~= picks@);
        // then the counters
        let mut k: usize = 0;
        while k < picks.len()
            invariant
                k <= picks@.len(),
                self.inv(),
                self@.len() == start.len(),
                views == paths@.map_values(|p: Vec<usize>| p@),
                forall|k: int| 0 <= k < picks@.len() ==> #[trigger] picks@[k] < paths@.len(),
                forall|j: int, i: int| 0 <= j < paths@.len() && 0 <= i < paths@[j]@.len() ==> #[trigger] paths@[j]@[i] < start.len(),
                seq_sum(start) + chosen_length(views, picks@) <= u64::MAX,
                seq_sum(self@) == seq_sum(start) + chosen_length(views, picks@.subrange(0, k as int)),
                forall|e: int| 0 <= e < start.len() ==> #[trigger] self@[e] == start[e] + picked_occurrences(views, picks@.subrange(0, k as int), e),
            decreases picks.len() - k,
        {
            let p = &paths[picks[k]];
            let ghost before = self@;
            proof {
                let sub = picks@.subrange(0, k as int + 1);
                assert(sub.drop_last() =~= picks@.subrange(0, k as int));
                assert(views[picks@[k as int] as int] == p@);
                lemma_chosen_length_prefix(views, picks@, k as int + 1);
            }
            let ok = self.add_path(p, 1);
            assert(ok);
            proof {
                let sub = picks@.subrange(0, k as int + 1);
                assert forall|e: int| 0 <= e < start.len() implies #[trigger] self@[e] == start[e] + picked_occurrences(views, sub, e) by {
                    assert(self@[e] == before[e] + 1 * occurrences(p@, e));
                }
            }
            k = k + 1;
        }
        assert(picks@.subrange(0, picks@.len() as int) =~= picks@);
        true
    }

    /// Adds the counters of another worker, entry by entry. Returns false, and changes
    /// nothing, when the lengths differ or the total would exceed `u64::MAX`.
    pub fn merge(&mut self, other: &Workloads) -> (ok: bool)
        requires
            old(self).inv(),
            other.inv(),
        ensures
            final(self).inv(),
            ok == (old(self)@.len() == other@.len() && seq_sum(old(self)@) + seq_sum(other@) <= u64::MAX),
            ok ==> final(self)@.len() == old(self)@.len(),
            ok ==> forall|e: int| 0 <= e < old(self)@.len() ==> #[trigger] final(self)@[e] == old(self)@[e] + other@[e],
            ok ==> seq_sum(final(self)@) == seq_sum(old(self)@) + seq_sum(other@),
            !ok ==> final(self)@ == old(self)@,
    {
        if self.counts.len() != other.counts.len() || self.total > u64::MAX - other.total {
            return false;
        }
        let ghost start = self.counts@;
        let mut e: usize = 0;
        while e < self.counts.len()
            invariant
                e <= start.len(),
                self.counts@.len() == start.len(),
                other.counts@.len() == start.len(),
                other.total == seq_sum(other.counts@),
                seq_sum(start) + seq_sum(other.counts@) <= u64::MAX,
                self.total == seq_sum(self.counts@),
                seq_sum(self.counts@) == seq_sum(start) + seq_sum(other.counts@.subrange(0, e as int)),
                forall|x: int| 0 <= x < e ==> #[trigger] self.counts@[x] == start[x] + other.counts@[x],
                forall|x: int| e <= x < start.len() ==> #[trigger] self.counts@[x] == start[x],
            decreases start.len() - e,
        {
            proof {
                let sub = other.counts@.subrange(0, e as int + 1);
                assert(sub.drop_last() =~= other.counts@.subrange(0, e as int));
                lemma_prefix_sum_bound(other.counts@, e as int + 1);
                lemma_sum_nonneg(other.counts@.subrange(0, e as int));
                lemma_entry_below_sum(self.counts@, e as int);
                lemma_sum_update(self.counts@, e as int, (self.counts@[e as int] + other.counts@[e as int]) as u64);
            }
            let v = self.counts[e] + other.counts[e];
            self.counts.set(e, v);
            self.total = self.total + other.counts[e];
            e = e + 1;
        }
        assert(other.counts@.subrange(0, start.len() as int) =~= other.counts@);
        true
    }
}

proof fn lemma_prefix_sum_bound(s: Seq<u64>, k: int)
    requires
        0 <= k <= s.len(),
    ensures
        seq_sum(s.subrange(0, k)) <= seq_sum(s),
    decreases s.len() - k,
{
    if k < s.len() {
        lemma_prefix_sum_bound(s, k + 1);
        let sub = s.subrange(0, k + 1);
        assert(sub.drop_last() =~= s.subrange(0, k));
    } else {
        assert(s.subrange(0, k) =~= s);
    }
}

#[verifier::external_type_specification]
#[verifier::external_body]
pub struct ExLcg64Xsh32(rand_pcg::Lcg64Xsh32);

/// Relies on rand's `Rng::gen_range(low, high)`, which returns a value in
/// `[low, high)` and panics when `low >= high`.
#[verifier::external_body]
fn random_below(rng: &mut rand_pcg::Lcg64Xsh32, n: usize) -> (r: usize)
    requires
        n > 0,
    ensures
        r < n,
{
    rand::Rng::gen_range(rng, 0, n)
}

/// `count` indices below `n`, drawn uniformly with replacement.
pub fn sample_picks(rng: &mut rand_pcg::Lcg64Xsh32, n: usize, count: usize) -> (r: Vec<usize>)
    requires
        n > 0,
    ensures
        r@.len() == count,
        forall|k: int| 0 <= k < count ==> #[trigger] r@[k] < n,
{
    let mut picks: Vec<usize> = Vec::with_capacity(count);
    let mut k: usize = 0;
    while k < count
        invariant
            k <= count,
            n > 0,
            picks@.len() == k,
            forall|i: int| 0 <= i < k ==> #[trigger] picks@[i] < n,
        decreases count - k,
    {
        let x = random_below(rng, n);
        picks.push(x);
        k = k + 1;
    }
    picks
}

/// One route-pair of the balancing loop: `count` of the found (flattened) paths are
/// drawn with replacement and each adds one unit of workload to its edges. Nothing
/// happens, successfully, when no path was found. Returns false, and changes
/// nothing, when the total would overflow.
pub fn balance_route(
    workloads: &mut Workloads,
    found: &Vec<Vec<usize>>,
    count: usize,
    rng: &mut rand_pcg::Lcg64Xsh32,
) -> (ok: bool)
    requires
        old(workloads).inv(),
        forall|j: int, i: int| 0 <= j < found@.len() && 0 <= i < found@[j]@.len() ==> #[trigger] found@[j]@[i] < old(workloads)@.len(),
    ensures
        final(workloads).inv(),
        final(workloads)@.len() == old(workloads)@.len(),
        found@.len() == 0 ==> ok && final(workloads)@ == old(workloads)@,
        found@.len() > 0 ==> exists|picks: Seq<usize>| #[trigger] route_drawn(old(workloads)@, final(workloads)@, path_views(found@), picks, count as int, ok),
{
    if found.len() == 0 {
        return true;
    }
    let picks = sample_picks(rng, found.len(), count);
    let ok = workloads.add_route(found, &picks);
    proof {
        assert(route_drawn(old(workloads)@, workloads@, path_views(found@), picks@, count as int, ok));
    }
    ok
}

/// `picks` are `count` draws among `paths`; `ok` says whether their units fit in the
/// counters; if so each edge gained one per occurrence in the picked paths, else
/// nothing changed.
pub open spec fn route_drawn(before: Seq<u64>, after: Seq<u64>, paths: Seq<Seq<usize>>, picks: Seq<usize>, count: int, ok: bool) -> bool {
    &&& picks.len() == count
    &&& forall|k: int| 0 <= k < count ==> #[trigger] picks[k] < paths.len()
    &&& ok == (seq_sum(before) + chosen_length(paths, picks) <= u64::MAX)
    &&& ok ==> seq_sum(after) == seq_sum(before) + chosen_length(paths, picks)
    &&& ok ==> forall|e: int| 0 <= e < before.len() ==> #[trigger] after[e] == before[e] + picked_occurrences(paths, picks, e)
    &&& !ok ==> after == before
}

/// Total number of edges of the paths.
pub open spec fn total_length(paths: Seq<Seq<usize>>) -> int
    decreases paths.len(),
{
    if paths.len() == 0 {
        0
    } else {
        total_length(paths.drop_last()) + paths.last().len()
    }
}

/// How often edge `e` occurs in the paths, counting repeats.
pub open spec fn total_occurrences(paths: Seq<Seq<usize>>, e: int) -> nat
    decreases paths.len(),
{
    if paths.len() == 0 {
        0
    } else {
        total_occurrences(paths.drop_last(), e) + occurrences(paths.last(), e)
    }
}

/// Why an iteration's route-pairs could not be balanced.
#[derive(Clone, Copy, Debug, PartialEq, Eq, Structural)]
pub enum BalanceError {
    /// A route-pair names this external id, which no node carries.
    UnknownNode(u64),
    /// A drawn path would take the workload total beyond `u64::MAX`.
    Overflow,
}

fn copy_path(v: &Vec<usize>) -> (r: Vec<usize>)
    ensures
        r@ == v@,
{
    let mut r: Vec<usize> = Vec::with_capacity(v.len());
    let mut i: usize = 0;
    while i < v.len()
        invariant
            i <= v@.len(),
            r@ == v@.subrange(0, i as int),
        decreases v.len() - i,
    {
        r.push(v[i]);
        i = i + 1;
        assert(r@ =~= v@.subrange(0, i as int));
    }
    assert(v@.subrange(0, v@.len() as int) =~= v@);
    r
}

/// Number of physical (non-shortcut) edges among the first `e` edges: for a physical
/// edge, its index among the workload counters.
pub open spec fn phys_before(g: GraphModel, e: int) -> nat
    decreases e,
{
    if e <= 0 {
        0
    } else {
        phys_before(g, e - 1) + if g.is_shortcut(e - 1) { 0nat } else { 1nat }
    }
}

/// Number of physical edges: the length of a workload counter vector.
pub open spec fn phys_count(g: GraphModel) -> nat {
    phys_before(g, g.edge_count())
}

proof fn lemma_phys_mono(g: GraphModel, a: int, b: int)
    requires
        0 <= a <= b,
    ensures
        phys_before(g, a) <= phys_before(g, b),
    decreases b - a,
{
    if a < b {
        lemma_phys_mono(g, a, b - 1);
    }
}

proof fn lemma_phys_le(g: GraphModel, e: int)
    requires
        0 <= e,
    ensures
        phys_before(g, e) <= e,
    decreases e,
{
    if e > 0 {
        lemma_phys_le(g, e - 1);
    }
}

/// Physical edges get distinct counter indices, below the counter count.
proof fn lemma_phys_strict(g: GraphModel, a: int, b: int)
    requires
        0 <= a < b,
        !g.is_shortcut(a),
    ensures
        phys_before(g, a) < phys_before(g, b),
{
    lemma_phys_mono(g, a + 1, b);
}

/// Counter index of every edge.
pub fn physical_indices(g: &Graph) -> (r: Vec<usize>)
    requires
        g.wf(),
    ensures
        r@.len() == g@.edge_count(),
        forall|e: int| 0 <= e < g@.edge_count() ==> #[trigger] r@[e] == phys_before(g@, e),
{
    let n = g.edge_count();
    let mut r: Vec<usize> = Vec::with_capacity(n);
    let mut count: usize = 0;
    let mut e: usize = 0;
    while e < n
        invariant
            g.wf(),
            n == g@.edge_count(),
            e <= n,
            count == phys_before(g@, e as int),
            count <= e,
            r@.len() == e,
            forall|x: int| 0 <= x < e ==> #[trigger] r@[x] == phys_before(g@, x),
        decreases n - e,
    {
        r.push(count);
        if !g.is_shortcut(e) {
            count = count + 1;
        }
        e = e + 1;
    }
    r
}

/// Number of physical edges.
pub fn physical_count(g: &Graph) -> (r: usize)
    requires
        g.wf(),
    ensures
        r == phys_count(g@),
{
    let n = g.edge_count();
    let mut count: usize = 0;
    let mut e: usize = 0;
    while e < n
        invariant
            g.wf(),
            n == g@.edge_count(),
            e <= n,
            count == phys_before(g@, e as int),
            count <= e,
        decreases n - e,
    {
        if !g.is_shortcut(e) {
            count = count + 1;
        }
        e = e + 1;
    }
    count
}

/// A path's edges as counter indices.
pub open spec fn counter_path(g: GraphModel, p: Seq<usize>) -> Seq<usize> {
    p.map_values(|x: usize| phys_before(g, x as int) as usize)
}

fn to_counter_path(pid: &Vec<usize>, p: &Vec<usize>, g: Ghost<GraphModel>) -> (r: Vec<usize>)
    requires
        forall|i: int| 0 <= i < p@.len() ==> #[trigger] p@[i] < pid@.len(),
        forall|e: int| 0 <= e < pid@.len() ==> #[trigger] pid@[e] == phys_before(g@, e),
    ensures
        r@ == counter_path(g@, p@),
{
    let mut r: Vec<usize> = Vec::with_capacity(p.len());
    let mut i: usize = 0;
    while i < p.len()
        invariant
            i <= p@.len(),
            forall|i: int| 0 <= i < p@.len() ==> #[trigger] p@[i] < pid@.len(),
            forall|e: int| 0 <= e < pid@.len() ==> #[trigger] pid@[e] == phys_before(g@, e),
            r@ == counter_path(g@, p@.subrange(0, i as int)),
        decreases p.len() - i,
    {
        r.push(pid[p[i]]);
        i = i + 1;
        assert(r@ =~= counter_path(g@, p@.subrange(0, i as int)));
    }
    assert(p@.subrange(0, p@.len() as int) =~= p@);
    r
}

/// On a physical path, counting a physical edge by counter index counts the edge.
proof fn lemma_counter_occurrences(g: GraphModel, p: Seq<usize>, e: int)
    requires
        is_flat(g, p),
        forall|i: int| 0 <= i < p.len() ==> #[trigger] p[i] < g.edge_count(),
        0 <= e < g.edge_count(),
        !g.is_shortcut(e),
    ensures
        occurrences(counter_path(g, p), phys_before(g, e) as int) == occurrences(p, e),
    decreases p.len(),
{
    if p.len() > 0 {
        let q = p.drop_last();
        assert(is_flat(g, q)) by {
            assert forall|i: int| 0 <= i < q.len() implies !g.is_shortcut(#[trigger] q[i] as int) by {
                assert(q[i] == p[i]);
            }
        }
        assert forall|i: int| 0 <= i < q.len() implies #[trigger] q[i] < g.edge_count() by {
            assert(q[i] == p[i]);
        }
        lemma_counter_occurrences(g, q, e);
        assert(counter_path(g, p).drop_last() =~= counter_path(g, q));
        let x = p.last() as int;
        lemma_phys_le(g, x);
        lemma_phys_le(g, e);
        assert(counter_path(g, p).last() == phys_before(g, x) as usize);
        assert(!g.is_shortcut(p[p.len() - 1] as int));
        if x < e {
            lemma_phys_strict(g, x, e);
        } else if x > e {
            lemma_phys_strict(g, e, x);
        }
    }
}

/// Some node carries the external id `id`.
pub open spec fn knows_id(g: GraphModel, id: u64) -> bool {
    exists|i: int| 0 <= i < g.node_count() && g.node_ids[i] == id
}

/// The node carrying the external id `id`.
pub open spec fn node_of(g: GraphModel, id: u64) -> int {
    choose|i: int| 0 <= i < g.node_count() && g.node_ids[i] == id
}

proof fn lemma_node_of(g: GraphModel, id: u64, i: int)
    requires
        g.wf(),
        0 <= i < g.node_count(),
        g.node_ids[i] == id,
    ensures
        node_of(g, id) == i,
{
    let k = node_of(g, id);
    if k != i {
        if k < i {
            assert(g.node_ids[k] != g.node_ids[i]);
        } else {
            assert(g.node_ids[i] != g.node_ids[k]);
        }
    }
}

/// The first id, in input order, that a route-pair names and no node carries.
pub open spec fn first_unknown(g: GraphModel, pairs: Seq<RoutePair>) -> Option<u64>
    decreases pairs.len(),
{
    if pairs.len() == 0 {
        None
    } else if !knows_id(g, pairs[0].src_id) {
        Some(pairs[0].src_id)
    } else if !knows_id(g, pairs[0].dst_id) {
        Some(pairs[0].dst_id)
    } else {
        first_unknown(g, pairs.drop_first())
    }
}

/// `p` is the physical path of a best route from `s` to `t` under some weights.
pub open spec fn drawn_route(g: GraphModel, s: int, t: int, p: Seq<usize>) -> bool {
    &&& is_flat(g, p)
    &&& is_path(g, p, s, t)
    &&& exists|a: Seq<u32>, q: Seq<usize>| a.len() == g.dim() && #[trigger] is_best_path(g, a, q, s, t) && flat_path(g, q) == p
}

/// The draws of one route-pair: `count` routes when the explorator has routes for
/// it (some weighted metric reaches the destination), none otherwise.
pub open spec fn pair_draws(g: GraphModel, alphas: Seq<u32>, pair: RoutePair, ds: Seq<Seq<usize>>) -> bool {
    let s = node_of(g, pair.src_id);
    let t = node_of(g, pair.dst_id);
    &&& ds.len() == if routable(g, alphas, s, t) { pair.count as int } else { 0 }
    &&& forall|k: int| 0 <= k < ds.len() ==> drawn_route(g, s, t, #[trigger] ds[k])
}

/// The drawn paths of each pair.
pub open spec fn draws_view(c: Seq<Vec<Vec<usize>>>) -> Seq<Seq<Seq<usize>>> {
    c.map_values(|v: Vec<Vec<usize>>| path_views(v@))
}

/// Total length of all drawn paths.
pub open spec fn all_length(d: Seq<Seq<Seq<usize>>>) -> int
    decreases d.len(),
{
    if d.len() == 0 {
        0
    } else {
        all_length(d.drop_last()) + total_length(d.last())
    }
}

/// How often edge `e` occurs in all drawn paths.
pub open spec fn all_occurrences(d: Seq<Seq<Seq<usize>>>, e: int) -> nat
    decreases d.len(),
{
    if d.len() == 0 {
        0
    } else {
        all_occurrences(d.drop_last(), e) + total_occurrences(d.last(), e)
    }
}

/// If every drawn path of a pair has `len` edges, the pair adds its number of draws
/// times `len` to the total.
pub proof fn lemma_uniform_draws(ds: Seq<Seq<usize>>, len: int)
    requires
        forall|k: int| 0 <= k < ds.len() ==> (#[trigger] ds[k]).len() == len,
    ensures
        total_length(ds) == ds.len() * len,
    decreases ds.len(),
{
    if ds.len() > 0 {
        let q = ds.drop_last();
        assert forall|k: int| 0 <= k < q.len() implies (#[trigger] q[k]).len() == len by {
            assert(q[k] == ds[k]);
        }
        lemma_uniform_draws(q, len);
        assert(ds.len() * len == (ds.len() - 1) * len + len) by (nonlinear_arith);
    }
}

/// `count` draws among the routes `found` of one pair, added to `acc` by counter
/// index; `None` when the counters would overflow.
fn draw_units(
    g: &Graph,
    pid: &Vec<usize>,
    found: &Vec<Vec<usize>>,
    count: u64,
    rng: &mut rand_pcg::Lcg64Xsh32,
    acc: &mut Workloads,
    s: Ghost<int>,
    t: Ghost<int>,
) -> (r: Option<Vec<Vec<usize>>>)
    requires
        g.wf(),
        pid@.len() == g@.edge_count(),
        forall|e: int| 0 <= e < pid@.len() ==> #[trigger] pid@[e] == phys_before(g@, e),
        old(acc).inv(),
        old(acc)@.len() == phys_count(g@),
        found@.len() > 0,
        forall|i: int| 0 <= i < found@.len() ==> drawn_route(g@, s@, t@, #[trigger] found@[i]@),
    ensures
        final(acc).inv(),
        final(acc)@.len() == old(acc)@.len(),
        match r {
            Some(ds) => {
                &&& ds@.len() == count
                &&& forall|k: int| 0 <= k < ds@.len() ==> drawn_route(g@, s@, t@, #[trigger] ds@[k]@)
                &&& seq_sum(final(acc)@) == seq_sum(old(acc)@) + total_length(path_views(ds@))
                &&& forall|e: int|
                    0 <= e < g@.edge_count() && !g@.is_shortcut(e) ==> #[trigger] final(acc)@[phys_before(g@, e) as int] == old(acc)@[phys_before(g@, e) as int]
                        + total_occurrences(path_views(ds@), e)
            },
            None => true,
        },
{
    let ghost start = acc@;
    let mut ds: Vec<Vec<usize>> = Vec::new();
    let mut u: u64 = 0;
    while u < count
        invariant
            g.wf(),
            pid@.len() == g@.edge_count(),
            forall|e: int| 0 <= e < pid@.len() ==> #[trigger] pid@[e] == phys_before(g@, e),
            acc.inv(),
            acc@.len() == start.len(),
            start == old(acc)@,
            start.len() == phys_count(g@),
            found@.len() > 0,
            forall|i: int| 0 <= i < found@.len() ==> drawn_route(g@, s@, t@, #[trigger] found@[i]@),
            u <= count,
            ds@.len() == u,
            forall|k: int| 0 <= k < ds@.len() ==> drawn_route(g@, s@, t@, #[trigger] ds@[k]@),
            seq_sum(acc@) == seq_sum(start) + total_length(path_views(ds@)),
            forall|e: int|
                0 <= e < g@.edge_count() && !g@.is_shortcut(e) ==> #[trigger] acc@[phys_before(g@, e) as int] == start[phys_before(g@, e) as int]
                    + total_occurrences(path_views(ds@), e),
        decreases count - u,
    {
        let x = random_below(rng, found.len());
        let p = &found[x];
        assert(drawn_route(g@, s@, t@, found@[x as int]@));
        proof {
            assert forall|i: int| 0 <= i < p@.len() implies #[trigger] p@[i] < pid@.len() by {
            }
        }
        let cp = to_counter_path(pid, p, Ghost(g@));
        proof {
            assert forall|i: int| 0 <= i < cp@.len() implies #[trigger] cp@[i] < acc@.len() by {
                assert(cp@[i] == phys_before(g@, p@[i] as int) as usize);
                assert(!g@.is_shortcut(p@[i] as int));
                lemma_phys_strict(g@, p@[i] as int, g@.edge_count());
            }
        }
        let ghost before = acc@;
        let ghost old_views = path_views(ds@);
        if !acc.add_path(&cp, 1) {
            return None;
        }
        let c = copy_path(p);
        ds.push(c);
        proof {
            assert(path_views(ds@) =~= old_views.push(p@));
            assert(path_views(ds@).drop_last() =~= old_views);
            assert forall|e: int|
                0 <= e < g@.edge_count() && !g@.is_shortcut(e) implies #[trigger] acc@[phys_before(g@, e) as int] == start[phys_before(g@, e) as int]
                    + total_occurrences(path_views(ds@), e) by {
                lemma_phys_strict(g@, e, g@.edge_count());
                lemma_counter_occurrences(g@, p@, e);
                assert(acc@[phys_before(g@, e) as int] == before[phys_before(g@, e) as int] + 1 * occurrences(cp@, phys_before(g@, e) as int));
            }
            assert forall|k: int| 0 <= k < ds@.len() implies drawn_route(g@, s@, t@, #[trigger] ds@[k]@) by {
                if k < ds@.len() - 1 {
                    assert(path_views(ds@)[k] == old_views[k]);
                }
            }
        }
        u = u + 1;
    }
    Some(ds)
}

/// One iteration of the balancing loop. First every route-pair is checked, in
/// input order, for unknown node ids. Then each pair, in order, is explored; when
/// the explorator finds routes, `count` of their physical paths are drawn with
/// replacement, each adding one unit of workload to its physical edges. Counters are
/// indexed by physical edge (see `phys_before`). On any error the counters are left
/// as they were. Returns the drawn paths of each pair.
pub fn balance_routes(
    g: &Graph,
    pairs: &Vec<RoutePair>,
    alphas: &Vec<u32>,
    dijkstra: &mut Dijkstra,
    explorator: &mut ConvexHullExplorator,
    rng: &mut rand_pcg::Lcg64Xsh32,
    workloads: &mut Workloads,
) -> (r: Result<Vec<Vec<Vec<usize>>>, BalanceError>)
    requires
        g.wf(),
        alphas@.len() == g@.dim(),
        old(workloads).inv(),
        old(workloads)@.len() == phys_count(g@),
    ensures
        final(workloads).inv(),
        final(workloads)@.len() == old(workloads)@.len(),
        match r {
            Err(BalanceError::UnknownNode(id)) => first_unknown(g@, pairs@) == Some(id) && final(workloads)@ == old(workloads)@,
            Err(BalanceError::Overflow) => first_unknown(g@, pairs@) is None && final(workloads)@ == old(workloads)@,
            Ok(chosen) => {
                &&& first_unknown(g@, pairs@) is None
                &&& chosen@.len() == pairs@.len()
                &&& forall|j: int| 0 <= j < pairs@.len() ==> pair_draws(g@, alphas@, #[trigger] pairs@[j], path_views(chosen@[j]@))
                &&& seq_sum(final(workloads)@) == seq_sum(old(workloads)@) + all_length(draws_view(chosen@))
                &&& forall|e: int|
                    0 <= e < g@.edge_count() && !g@.is_shortcut(e) ==> #[trigger] final(workloads)@[phys_before(g@, e) as int]
                        == old(workloads)@[phys_before(g@, e) as int] + all_occurrences(draws_view(chosen@), e)
            },
        },
{
    // unknown ids, in input order
    assert(pairs@.subrange(0, pairs@.len() as int) =~= pairs@);
    let mut j: usize = 0;
    while j < pairs.len()
        invariant
            g.wf(),
            j <= pairs@.len(),
            first_unknown(g@, pairs@) == first_unknown(g@, pairs@.subrange(j as int, pairs@.len() as int)),
            forall|jj: int| 0 <= jj < j ==> knows_id(g@, #[trigger] pairs@[jj].src_id) && knows_id(g@, pairs@[jj].dst_id),
            workloads.inv(),
            workloads@ == old(workloads)@,
        decreases pairs.len() - j,
    {
        let ghost rest = pairs@.subrange(j as int, pairs@.len() as int);
        assert(rest[0] == pairs@[j as int]);
        assert(rest.drop_first() =~= pairs@.subrange(j as int + 1, pairs@.len() as int));
        let si = g.idx_of(pairs[j].src_id);
        if si.is_none() {
            return Err(BalanceError::UnknownNode(pairs[j].src_id));
        }
        let ti = g.idx_of(pairs[j].dst_id);
        if ti.is_none() {
            return Err(BalanceError::UnknownNode(pairs[j].dst_id));
        }
        proof {
            let a = si.unwrap() as int;
            let b = ti.unwrap() as int;
            assert(g@.node_ids[a] == pairs@[j as int].src_id);
            assert(g@.node_ids[b] == pairs@[j as int].dst_id);
            assert(knows_id(g@, pairs@[j as int].src_id));
            assert(knows_id(g@, pairs@[j as int].dst_id));
            assert forall|jj: int| 0 <= jj < j + 1 implies knows_id(g@, #[trigger] pairs@[jj].src_id) && knows_id(g@, pairs@[jj].dst_id) by {
            }
        }
        j = j + 1;
    }
    assert(pairs@.subrange(pairs@.len() as int, pairs@.len() as int).len() == 0);
    let pid = physical_indices(g);
    let mut acc = Workloads::new(workloads.len());
    proof {
        lemma_sum_zero_seq(acc@);
        assert forall|e: int|
            0 <= e < g@.edge_count() && !g@.is_shortcut(e) implies #[trigger] acc@[phys_before(g@, e) as int] == all_occurrences(
            draws_view(Seq::<Vec<Vec<usize>>>::empty()), e) by {
            lemma_phys_strict(g@, e, g@.edge_count());
        }
        assert(draws_view(Seq::<Vec<Vec<usize>>>::empty()) =~= Seq::<Seq<Seq<usize>>>::empty());
    }
    let mut chosen: Vec<Vec<Vec<usize>>> = Vec::new();
    let mut j: usize = 0;
    while j < pairs.len()
        invariant
            g.wf(),
            alphas@.len() == g@.dim(),
            j <= pairs@.len(),
            pid@.len() == g@.edge_count(),
            forall|e: int| 0 <= e < pid@.len() ==> #[trigger] pid@[e] == phys_before(g@, e),
            forall|jj: int| 0 <= jj < pairs@.len() ==> knows_id(g@, #[trigger] pairs@[jj].src_id) && knows_id(g@, pairs@[jj].dst_id),
            acc.inv(),
            acc@.len() == phys_count(g@),
            chosen@.len() == j,
            forall|jj: int| 0 <= jj < j ==> pair_draws(g@, alphas@, #[trigger] pairs@[jj], path_views(chosen@[jj]@)),
            seq_sum(acc@) == all_length(draws_view(chosen@)),
            forall|e: int|
                0 <= e < g@.edge_count() && !g@.is_shortcut(e) ==> #[trigger] acc@[phys_before(g@, e) as int] == all_occurrences(draws_view(chosen@), e),
            workloads@ == old(workloads)@,
            workloads.inv(),
            first_unknown(g@, pairs@) is None,
        decreases pairs.len() - j,
    {
        let pair = &pairs[j];
        let s = g.idx_of(pair.src_id).unwrap();
        let t = g.idx_of(pair.dst_id).unwrap();
        proof {
            lemma_node_of(g@, pair.src_id, s as int);
            lemma_node_of(g@, pair.dst_id, t as int);
        }
        let routes = explorator.fully_explorate(s, t, dijkstra, g, alphas);
        let mut found: Vec<Vec<usize>> = Vec::new();
        let mut k: usize = 0;
        while k < routes.len()
            invariant
                g.wf(),
                k <= routes@.len(),
                s < g@.node_count(),
                t < g@.node_count(),
                found@.len() == k,
                forall|i: int|
                    0 <= i < routes@.len() ==> exists|a: Seq<u32>|
                        a.len() == g@.dim() && is_best_path(g@, a, #[trigger] routes@[i].edges@, s as int, t as int)
                            && routes@[i].cost == path_cost(g@, a, routes@[i].edges@),
                forall|i: int| 0 <= i < found@.len() ==> drawn_route(g@, s as int, t as int, #[trigger] found@[i]@),
            decreases routes.len() - k,
        {
            let ghost a = choose|a: Seq<u32>|
                a.len() == g@.dim() && is_best_path(g@, a, #[trigger] routes@[k as int].edges@, s as int, t as int)
                    && routes@[k as int].cost == path_cost(g@, a, routes@[k as int].edges@);
            proof {
                lemma_flat_path(g@, routes@[k as int].edges@, s as int, t as int);
            }
            let f = flatten(g, &routes[k].edges);
            proof {
                assert(is_best_path(g@, a, routes@[k as int].edges@, s as int, t as int) && flat_path(g@, routes@[k as int].edges@) == f@);
                assert(drawn_route(g@, s as int, t as int, f@));
            }
            found.push(f);
            proof {
                assert forall|i: int| 0 <= i < found@.len() implies drawn_route(g@, s as int, t as int, #[trigger] found@[i]@) by {
                }
            }
            k = k + 1;
        }
        let ghost before = acc@;
        let ghost prev = draws_view(chosen@);
        let ds: Vec<Vec<usize>> = if found.len() > 0 {
            match draw_units(g, &pid, &found, pair.count, rng, &mut acc, Ghost(s as int), Ghost(t as int)) {
                Some(ds) => ds,
                None => {
                    return Err(BalanceError::Overflow);
                },
            }
        } else {
            Vec::new()
        };
        proof {
            if found@.len() == 0 {
                assert(path_views(ds@) =~= Seq::<Seq<usize>>::empty());
                assert(acc@ == before);
            }
        }
        chosen.push(ds);
        proof {
            assert(draws_view(chosen@) =~= prev.push(path_views(ds@)));
            assert(draws_view(chosen@).drop_last() =~= prev);
            assert(pair_draws(g@, alphas@, pairs@[j as int], path_views(chosen@[j as int]@)));
            assert forall|jj: int| 0 <= jj < j + 1 implies pair_draws(g@, alphas@, #[trigger] pairs@[jj], path_views(chosen@[jj]@)) by {
                if jj < j {
                    assert(draws_view(chosen@)[jj] == prev[jj]);
                }
            }
        }
        j = j + 1;
    }
    let ghost w0 = workloads@;
    if !workloads.merge(&acc) {
        return Err(BalanceError::Overflow);
    }
    proof {
        assert forall|e: int|
            0 <= e < g@.edge_count() && !g@.is_shortcut(e) implies #[trigger] workloads@[phys_before(g@, e) as int]
                == w0[phys_before(g@, e) as int] + all_occurrences(draws_view(chosen@), e) by {
            lemma_phys_strict(g@, e, g@.edge_count());
            assert(workloads@[phys_before(g@, e) as int] == w0[phys_before(g@, e) as int] + acc@[phys_before(g@, e) as int]);
        }
    }
    Ok(chosen)
}

/// Units of workload an iteration owes: for each pair that has routes, its count
/// times `lens[j]`, the length of its drawn paths.
pub open spec fn owed_units(g: GraphModel, alphas: Seq<u32>, pairs: Seq<RoutePair>, lens: Seq<int>) -> int
    decreases pairs.len(),
{
    if pairs.len() == 0 {
        0
    } else {
        let j = pairs.len() - 1;
        let s = node_of(g, pairs[j].src_id);
        let t = node_of(g, pairs[j].dst_id);
        owed_units(g, alphas, pairs.drop_last(), lens.drop_last()) + if routable(g, alphas, s, t) {
            pairs[j].count * lens[j]
        } else {
            0
        }
    }
}

/// Workload law of one iteration: when every drawn path of pair `j` has `lens[j]`
/// edges, the counters grow in total by the sum over the pairs with routes of
/// `count * lens[j]`.
pub proof fn lemma_iteration_workload(
    g: GraphModel,
    alphas: Seq<u32>,
    pairs: Seq<RoutePair>,
    d: Seq<Seq<Seq<usize>>>,
    lens: Seq<int>,
)
    requires
        d.len() == pairs.len(),
        lens.len() == pairs.len(),
        forall|j: int| 0 <= j < pairs.len() ==> pair_draws(g, alphas, #[trigger] pairs[j], d[j]),
        forall|j: int, k: int| 0 <= j < d.len() && 0 <= k < d[j].len() ==> (#[trigger] d[j][k]).len() == lens[j],
    ensures
        all_length(d) == owed_units(g, alphas, pairs, lens),
    decreases pairs.len(),
{
    if pairs.len() > 0 {
        let j = pairs.len() - 1;
        let dp = d.drop_last();
        let pp = pairs.drop_last();
        let lp = lens.drop_last();
        assert forall|i: int| 0 <= i < pp.len() implies pair_draws(g, alphas, #[trigger] pp[i], dp[i]) by {
            assert(pp[i] == pairs[i] && dp[i] == d[i]);
        }
        assert forall|i: int, k: int| 0 <= i < dp.len() && 0 <= k < dp[i].len() implies (#[trigger] dp[i][k]).len() == lp[i] by {
            assert(dp[i] == d[i] && lp[i] == lens[i]);
        }
        lemma_iteration_workload(g, alphas, pp, dp, lp);
        assert(pair_draws(g, alphas, pairs[j], d[j]));
        assert forall|k: int| 0 <= k < d[j].len() implies (#[trigger] d[j][k]).len() == lens[j] by {
        }
        lemma_uniform_draws(d[j], lens[j]);
    }
}

proof fn lemma_sum_zero_seq(s: Seq<u64>)
    requires
        forall|i: int| 0 <= i < s.len() ==> s[i] == 0,
    ensures
        seq_sum(s) == 0,
{
    lemma_sum_zero(s);
}

/// A column indexed by physical edge spread over all edges: a physical edge takes its
/// counter's value, a shortcut 0 (see `with_shortcut_sums`).
pub fn edge_column(g: &Graph, phys: &Vec<u32>) -> (r: Vec<u32>)
    requires
        g.wf(),
        phys@.len() == phys_count(g@),
    ensures
        r@.len() == g@.edge_count(),
        forall|e: int| 0 <= e < r@.len() ==> #[trigger] r@[e] == if g@.is_shortcut(e) { 0 } else { phys@[phys_before(g@, e) as int] },
{
    let n = g.edge_count();
    let mut r: Vec<u32> = Vec::with_capacity(n);
    let mut count: usize = 0;
    let mut e: usize = 0;
    while e < n
        invariant
            g.wf(),
            n == g@.edge_count(),
            phys@.len() == phys_count(g@),
            e <= n,
            count == phys_before(g@, e as int),
            count <= e,
            r@.len() == e,
            forall|x: int| 0 <= x < e ==> #[trigger] r@[x] == if g@.is_shortcut(x) { 0 } else { phys@[phys_before(g@, x) as int] },
        decreases n - e,
    {
        if g.is_shortcut(e) {
            r.push(0);
        } else {
            proof {
                lemma_phys_strict(g@, e as int, n as int);
            }
            r.push(phys[count]);
            count = count + 1;
        }
        e = e + 1;
    }
    r
}

/// The new metric column made consistent with the shortcuts: a physical edge keeps
/// its value; a shortcut gets the sum of its children's values (saturated at
/// `u32::MAX`), children first since they have lower indices.
pub fn with_shortcut_sums(g: &Graph, column: &Vec<u32>) -> (r: Vec<u32>)
    requires
        g.wf(),
        column@.len() == g@.edge_count(),
    ensures
        r@.len() == column@.len(),
        forall|e: int| 0 <= e < r@.len() && !g@.is_shortcut(e) ==> #[trigger] r@[e] == column@[e],
        forall|e: int| 0 <= e < r@.len() && g@.is_shortcut(e) ==> #[trigger] r@[e] == saturated_sum(
            r@[g@.shortcuts[e].unwrap().0 as int],
            r@[g@.shortcuts[e].unwrap().1 as int],
        ),
{
    let n = g.edge_count();
    let mut out: Vec<u32> = Vec::with_capacity(n);
    let mut e: usize = 0;
    while e < n
        invariant
            g.wf(),
            n == g@.edge_count(),
            column@.len() == n,
            e <= n,
            out@.len() == e,
            forall|x: int| 0 <= x < e && !g@.is_shortcut(x) ==> #[trigger] out@[x] == column@[x],
            forall|x: int| 0 <= x < e && g@.is_shortcut(x) ==> #[trigger] out@[x] == saturated_sum(
                out@[g@.shortcuts[x].unwrap().0 as int],
                out@[g@.shortcuts[x].unwrap().1 as int],
            ),
        decreases n - e,
    {
        match g.shortcut(e) {
            Some((a, b)) => {
                assert(g@.shortcut_ok(e as int, a as int, b as int));
                let x = out[a] as u64 + out[b] as u64;
                let v = if x > u32::MAX as u64 { u32::MAX } else { x as u32 };
                out.push(v);
            },
            None => {
                out.push(column[e]);
            },
        }
        e = e + 1;
    }
    out
}

/// `a + b`, or `u32::MAX` when that is larger.
pub open spec fn saturated_sum(a: u32, b: u32) -> u32 {
    if a + b > u32::MAX { u32::MAX } else { (a + b) as u32 }
}

/// How the workload counters become the new metric column.
#[derive(Clone, Copy, Debug, PartialEq, Eq, Structural)]
pub enum UpdateRule {
    /// The counter itself, saturated at `u32::MAX`.
    Absolute,
    /// The counter, capped at the given capacity.
    Capped(u32),
}

/// New metric value for a counter under `rule`.
pub open spec fn updated_value(rule: UpdateRule, count: u64) -> u32 {
    match rule {
        UpdateRule::Absolute => if count >= u32::MAX { u32::MAX } else { count as u32 },
        UpdateRule::Capped(cap) => if count >= cap { cap } else { count as u32 },
    }
}

/// The new metric column: `rule` applied to every counter.
pub fn new_metric_column(workloads: &Workloads, rule: UpdateRule) -> (r: Vec<u32>)
    ensures
        r@.len() == workloads@.len(),
        forall|e: int| 0 <= e < r@.len() ==> #[trigger] r@[e] == updated_value(rule, workloads@[e]),
{
    let n = workloads.len();
    let mut out: Vec<u32> = Vec::with_capacity(n);
    let mut e: usize = 0;
    while e < n
        invariant
            e <= n,
            n == workloads@.len(),
            out@.len() == e,
            forall|x: int| 0 <= x < e ==> #[trigger] out@[x] == updated_value(rule, workloads@[x]),
        decreases n - e,
    {
        let c = workloads.get(e);
        let v = match rule {
            UpdateRule::Absolute => if c >= u32::MAX as u64 { u32::MAX } else { c as u32 },
            UpdateRule::Capped(cap) => if c >= cap as u64 { cap } else { c as u32 },
        };
        out.push(v);
        e = e + 1;
    }
    out
}

} // verus!
