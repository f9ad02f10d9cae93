//! Exploration of alternative routes: best paths under several weight vectors,
//! starting from the metric axes that the configuration weights.

use crate::dijkstra::{Dijkstra, Path, INFINITY};
use crate::flatten::{flat_path, flatten};
use crate::graph::{Graph, GraphModel};
use crate::paths::{costs_at_least, is_best_path, is_path, path_cost};
use vstd::prelude::*;

verus! {

/// Whether two edge sequences are equal.
pub fn same_edges(a: &Vec<usize>, b: &Vec<usize>) -> (r: bool)
    ensures
        r == (a@ == b@),
{
    if a.len() != b.len() {
        return false;
    }
    let mut i: usize = 0;
    while i < a.len()
        invariant
            i <= a@.len(),
            a@.len() == b@.len(),
            forall|k: int| 0 <= k < i ==> a@[k] == b@[k],
        decreases a.len() - i,
    {
        if a[i] != b[i] {
            return false;
        }
        i = i + 1;
    }
    assert(a@ =~= b@);
    true
}

/// The weight vector that selects metric `m` alone.
pub open spec fn axis(dim: int, m: int) -> Seq<u32> {
    Seq::new(dim as nat, |i: int| if i == m { 1u32 } else { 0u32 })
}

fn axis_alphas(dim: usize, m: usize) -> (r: Vec<u32>)
    ensures
        r@ == axis(dim as int, m as int),
{
    let mut r: Vec<u32> = Vec::with_capacity(dim);
    let mut i: usize = 0;
    while i < dim
        invariant
            i <= dim,
            r@.len() == i,
            forall|k: int| 0 <= k < i ==> r@[k] == if k == m { 1u32 } else { 0u32 },
        decreases dim - i,
    {
        r.push(if i == m { 1 } else { 0 });
        i = i + 1;
    }
    assert(r@ =~= axis(dim as int, m as int));
    r
}

/// Sum of metric `m` over the edges of `p`.
pub open spec fn metric_sum(g: GraphModel, p: Seq<usize>, m: int) -> int
    decreases p.len(),
{
    if p.len() == 0 {
        0
    } else {
        metric_sum(g, p.drop_last(), m) + g.metrics[p.last() as int][m]
    }
}

proof fn lemma_metric_sum_bound(g: GraphModel, p: Seq<usize>, m: int)
    requires
        g.wf(),
        0 <= m < g.dim(),
        forall|i: int| 0 <= i < p.len() ==> #[trigger] p[i] < g.edge_count(),
    ensures
        0 <= metric_sum(g, p, m) <= p.len() * 0xFFFF_FFFF,
    decreases p.len(),
{
    if p.len() > 0 {
        lemma_metric_sum_bound(g, p.drop_last(), m);
    }
}

/// The cost vector of a path: the sum of each metric over its edges.
pub fn path_metrics(g: &Graph, edges: &Vec<usize>) -> (r: Vec<u128>)
    requires
        g.wf(),
        forall|i: int| 0 <= i < edges@.len() ==> #[trigger] edges@[i] < g@.edge_count(),
    ensures
        r@.len() == g@.dim(),
        forall|m: int| 0 <= m < g@.dim() ==> #[trigger] r@[m] == metric_sum(g@, edges@, m),
{
    let dim = g.dim();
    let mut r: Vec<u128> = Vec::with_capacity(dim);
    let mut m: usize = 0;
    while m < dim
        invariant
            g.wf(),
            dim == g@.dim(),
            m <= dim,
            forall|i: int| 0 <= i < edges@.len() ==> #[trigger] edges@[i] < g@.edge_count(),
            r@.len() == m,
            forall|k: int| 0 <= k < m ==> #[trigger] r@[k] == metric_sum(g@, edges@, k),
        decreases dim - m,
    {
        let mut sum: u128 = 0;
        let mut i: usize = 0;
        while i < edges.len()
            invariant
                g.wf(),
                m < g@.dim(),
                i <= edges@.len(),
                forall|i: int| 0 <= i < edges@.len() ==> #[trigger] edges@[i] < g@.edge_count(),
                sum == metric_sum(g@, edges@.subrange(0, i as int), m as int),
            decreases edges.len() - i,
        {
            proof {
                let sub = edges@.subrange(0, i as int + 1);
                assert(sub.drop_last() =~= edges@.subrange(0, i as int));
                lemma_metric_sum_bound(g@, edges@.subrange(0, i as int), m as int);
                assert(i * 0xFFFF_FFFFu128 <= 0xFFFF_FFFF_FFFF_FFFF * 0xFFFF_FFFFu128) by (nonlinear_arith)
                    requires i <= 0xFFFF_FFFF_FFFF_FFFFu64;
            }
            sum = sum + g.metric(edges[i], m) as u128;
            i = i + 1;
        }
        assert(edges@.subrange(0, edges@.len() as int) =~= edges@);
        r.push(sum);
        m = m + 1;
    }
    r
}

/// A direction proportional to `(a, b)` as far as halving both keeps it, with both
/// components fitting in 32 bits.
fn direction(a: u128, b: u128) -> (r: (u32, u32)) {
    let mut x = a;
    let mut y = b;
    while x > 0xFFFF_FFFF || y > 0xFFFF_FFFF
        decreases x + y,
    {
        x = x / 2;
        y = y / 2;
    }
    (x as u32, y as u32)
}

/// Largest number of paths an exploration adds after the axis queries.
pub const EXPLORATION_LIMIT: usize = 64;

/// Every path of `found` is best from `s` to `t` under some weights, and no two of
/// them flatten to the same edges.
pub open spec fn explored_ok(g: GraphModel, s: int, t: int, found: Seq<Path>, flats: Seq<Seq<usize>>) -> bool {
    &&& flats.len() == found.len()
    &&& forall|k: int| 0 <= k < flats.len() ==> #[trigger] flats[k] == flat_path(g, found[k].edges@)
    &&& forall|k: int|
        0 <= k < found.len() ==> exists|a: Seq<u32>|
            a.len() == g.dim() && is_best_path(g, a, #[trigger] found[k].edges@, s, t) && found[k].cost
                == path_cost(g, a, found[k].edges@)
    &&& forall|k: int, l: int|
        0 <= k < l < found.len() ==> flat_path(g, #[trigger] found[k].edges@) != flat_path(g, #[trigger] found[l].edges@)
}

/// Some path of `found` flattens to the same edges as a best path under `a`.
pub open spec fn covered(g: GraphModel, found: Seq<Path>, a: Seq<u32>, s: int, t: int) -> bool {
    exists|k: int, p: Seq<usize>|
        0 <= k < found.len() && #[trigger] is_best_path(g, a, p, s, t) && flat_path(g, #[trigger] found[k].edges@)
            == flat_path(g, p)
}

/// Every metric weighted in `alphas` whose destination can be reached is covered.
pub open spec fn axes_covered(g: GraphModel, found: Seq<Path>, alphas: Seq<u32>, s: int, t: int, upto: int) -> bool {
    forall|q: int|
        0 <= q < upto && alphas[q] > 0 && !costs_at_least(g, axis(g.dim(), q), s, t, INFINITY as int) ==> #[trigger] covered(
            g,
            found,
            axis(g.dim(), q),
            s,
            t,
        )
}

proof fn lemma_covered_grows(g: GraphModel, old_found: Seq<Path>, found: Seq<Path>, alphas: Seq<u32>, s: int, t: int, upto: int)
    requires
        axes_covered(g, old_found, alphas, s, t, upto),
        old_found.len() <= found.len(),
        forall|k: int| 0 <= k < old_found.len() ==> #[trigger] found[k] == old_found[k],
    ensures
        axes_covered(g, found, alphas, s, t, upto),
{
    assert forall|q: int|
        0 <= q < upto && alphas[q] > 0 && !costs_at_least(g, axis(g.dim(), q), s, t, INFINITY as int) implies #[trigger] covered(
        g, found, axis(g.dim(), q), s, t) by {
        assert(covered(g, old_found, axis(g.dim(), q), s, t));
        let (k, p) = choose|k: int, p: Seq<usize>|
            0 <= k < old_found.len() && #[trigger] is_best_path(g, axis(g.dim(), q), p, s, t) && flat_path(g, #[trigger] old_found[k].edges@)
                == flat_path(g, p);
        assert(found[k] == old_found[k]);
    }
}

/// Some metric weighted in `alphas` has, on its own, a path from `s` to `t` of cost
/// below `INFINITY`.
pub open spec fn routable(g: GraphModel, alphas: Seq<u32>, s: int, t: int) -> bool {
    exists|q: int|
        0 <= q < g.dim() && alphas[q] > 0 && !#[trigger] costs_at_least(g, axis(g.dim(), q), s, t, INFINITY as int)
}

/// Explores routes between two nodes.
pub struct ConvexHullExplorator {}

impl ConvexHullExplorator {
    pub fn new() -> (r: ConvexHullExplorator) {
        ConvexHullExplorator {}
    }

    /// Queries the kernel under `a`; keeps the best path found if its flattened edges
    /// are new. Returns whether a path was added.
    fn query(
        dijkstra: &mut Dijkstra,
        g: &Graph,
        a: &Vec<u32>,
        src: usize,
        dst: usize,
        found: &mut Vec<Path>,
        flats: &mut Vec<Vec<usize>>,
        costs: &mut Vec<Vec<u128>>,
    ) -> (added: bool)
        requires
            g.wf(),
            a@.len() == g@.dim(),
            src < g@.node_count(),
            dst < g@.node_count(),
            explored_ok(g@, src as int, dst as int, old(found)@, old(flats)@.map_values(|f: Vec<usize>| f@)),
            old(costs)@.len() == old(found)@.len(),
            forall|k: int| 0 <= k < old(costs)@.len() ==> (#[trigger] old(costs)@[k])@.len() == g@.dim(),
        ensures
            explored_ok(g@, src as int, dst as int, final(found)@, final(flats)@.map_values(|f: Vec<usize>| f@)),
            final(costs)@.len() == final(found)@.len(),
            forall|k: int| 0 <= k < final(costs)@.len() ==> (#[trigger] final(costs)@[k])@.len() == g@.dim(),
            final(found)@.len() == old(found)@.len() + if added { 1int } else { 0int },
            forall|k: int| 0 <= k < old(found)@.len() ==> #[trigger] final(found)@[k] == old(found)@[k],
            covered(g@, final(found)@, a@, src as int, dst as int) || costs_at_least(g@, a@, src as int, dst as int, INFINITY as int),
            added ==> !costs_at_least(g@, a@, src as int, dst as int, INFINITY as int),
    {
        let p = match dijkstra.compute_best_path(g, a, src, dst) {
            Some(p) => p,
            None => {
                return false;
            },
        };
        let flat = flatten(g, &p.edges);
        let mut k: usize = 0;
        while k < flats.len()
            invariant
                k <= flats@.len(),
                forall|j: int| 0 <= j < k ==> (#[trigger] flats@[j])@ != flat@,
                found@ == old(found)@,
                flats@ == old(flats)@,
                costs@ == old(costs)@,
                explored_ok(g@, src as int, dst as int, found@, flats@.map_values(|f: Vec<usize>| f@)),
                costs@.len() == found@.len(),
                forall|k: int| 0 <= k < costs@.len() ==> (#[trigger] costs@[k])@.len() == g@.dim(),
                is_best_path(g@, a@, p.edges@, src as int, dst as int),
                flat@ == flat_path(g@, p.edges@),
            decreases flats.len() - k,
        {
            if same_edges(&flats[k], &flat) {
                proof {
                    assert(flats@.map_values(|f: Vec<usize>| f@)[k as int] == flat_path(g@, found@[k as int].edges@));
                    assert(is_best_path(g@, a@, p.edges@, src as int, dst as int));
                    assert(flat_path(g@, found@[k as int].edges@) == flat_path(g@, p.edges@));
                }
                return false;
            }
            k = k + 1;
        }
        let metrics = path_metrics(g, &p.edges);
        let ghost old_found = found@;
        let ghost old_flats = flats@.map_values(|f: Vec<usize>| f@);
        let ghost aw = a@;
        let ghost pe = p.edges@;
        found.push(p);
        flats.push(flat);
        costs.push(metrics);
        proof {
            let fl = flats@.map_values(|f: Vec<usize>| f@);
            let last = found@.len() - 1;
            assert(found@[last].edges@ == pe);
            assert(is_best_path(g@, aw, found@[last].edges@, src as int, dst as int));
            assert(flat_path(g@, found@[last].edges@) == flat_path(g@, pe));
            assert(is_path(g@, pe, src as int, dst as int));
            assert(path_cost(g@, aw, pe) < INFINITY);
            assert forall|k: int|
                0 <= k < found@.len() implies exists|a: Seq<u32>|
                    a.len() == g@.dim() && is_best_path(g@, a, #[trigger] found@[k].edges@, src as int, dst as int)
                        && found@[k].cost == path_cost(g@, a, found@[k].edges@) by {
                if k < last {
                    assert(found@[k] == old_found[k]);
                } else {
                    assert(aw.len() == g@.dim() && is_best_path(g@, aw, found@[k].edges@, src as int, dst as int)
                        && found@[k].cost == path_cost(g@, aw, found@[k].edges@));
                }
            }
            assert forall|k: int| 0 <= k < fl.len() implies #[trigger] fl[k] == flat_path(g@, found@[k].edges@) by {
                if k < last {
                    assert(fl[k] == old_flats[k]);
                    assert(found@[k] == old_found[k]);
                }
            }
            assert forall|k: int, l: int|
                0 <= k < l < found@.len() implies flat_path(g@, #[trigger] found@[k].edges@) != flat_path(g@, #[trigger] found@[l].edges@) by {
                assert(found@[k] == old_found[k]);
                if l < last {
                    assert(found@[l] == old_found[l]);
                } else {
                    assert(old_flats[k] != flat@);
                }
            }
        }
        true
    }

    /// Routes from `src` to `dst` whose cost vectors span the lower convex hull of
    /// the routes found. First, one query per metric whose weight in `alphas` is
    /// positive, with that metric alone. Then, for every two routes found and every
    /// two weighted metrics on which the routes trade off, one query with the weights
    /// normal to the segment between their cost vectors (a front facet); a route that
    /// is new is kept and forms new facets with both routes. Routes whose flattened
    /// edges repeat are kept once. At most `EXPLORATION_LIMIT` routes are added after
    /// the axis queries. No route is returned when `dst` cannot be reached.
    pub fn fully_explorate(
        &mut self,
        src: usize,
        dst: usize,
        dijkstra: &mut Dijkstra,
        g: &Graph,
        alphas: &Vec<u32>,
    ) -> (r: Vec<Path>)
        requires
            g.wf(),
            alphas@.len() == g@.dim(),
            src < g@.node_count(),
            dst < g@.node_count(),
        ensures
            forall|k: int|
                0 <= k < r@.len() ==> exists|a: Seq<u32>|
                    a.len() == g@.dim() && is_best_path(g@, a, #[trigger] r@[k].edges@, src as int, dst as int)
                        && r@[k].cost == path_cost(g@, a, r@[k].edges@),
            forall|k: int, l: int|
                0 <= k < l < r@.len() ==> flat_path(g@, #[trigger] r@[k].edges@) != flat_path(g@, #[trigger] r@[l].edges@),
            axes_covered(g@, r@, alphas@, src as int, dst as int, g@.dim()),
            r@.len() > 0 <==> routable(g@, alphas@, src as int, dst as int),
    {
        let dim = g.dim();
        let mut found: Vec<Path> = Vec::new();
        let mut flats: Vec<Vec<usize>> = Vec::new();
        let mut costs: Vec<Vec<u128>> = Vec::new();
        proof {
            assert(flats@.map_values(|f: Vec<usize>| f@) =~= Seq::<Seq<usize>>::empty());
        }
        // one query per weighted axis
        let mut q: usize = 0;
        while q < dim
            invariant
                g.wf(),
                dim == g@.dim(),
                alphas@.len() == dim,
                src < g@.node_count(),
                dst < g@.node_count(),
                q <= dim,
                explored_ok(g@, src as int, dst as int, found@, flats@.map_values(|f: Vec<usize>| f@)),
                costs@.len() == found@.len(),
                forall|k: int| 0 <= k < costs@.len() ==> (#[trigger] costs@[k])@.len() == dim,
                axes_covered(g@, found@, alphas@, src as int, dst as int, q as int),
                found@.len() > 0 ==> routable(g@, alphas@, src as int, dst as int),
            decreases dim - q,
        {
            if alphas[q] > 0 {
                let a = axis_alphas(dim, q);
                let ghost before = found@;
                let added = Self::query(dijkstra, g, &a, src, dst, &mut found, &mut flats, &mut costs);
                proof {
                    lemma_covered_grows(g@, before, found@, alphas@, src as int, dst as int, q as int);
                    assert(a@ == axis(g@.dim(), q as int));
                    if added {
                        assert(!costs_at_least(g@, axis(g@.dim(), q as int), src as int, dst as int, INFINITY as int));
                    }
                }
            }
            q = q + 1;
        }
        // front facets between the routes found
        let mut work: Vec<(usize, usize)> = Vec::new();
        let mut k: usize = 0;
        while k < found.len()
            invariant
                k <= found@.len(),
                forall|w: int| 0 <= w < work@.len() ==> (#[trigger] work@[w]).0 < found@.len() && work@[w].1 < found@.len(),
                work@.len() > 0 ==> found@.len() > 0,
            decreases found.len() - k,
        {
            let mut l: usize = k + 1;
            while l < found.len()
                invariant
                    k < found@.len(),
                    k + 1 <= l <= found@.len(),
                    forall|w: int| 0 <= w < work@.len() ==> (#[trigger] work@[w]).0 < found@.len() && work@[w].1 < found@.len(),
                    work@.len() > 0 ==> found@.len() > 0,
                decreases found.len() - l,
            {
                work.push((k, l));
                l = l + 1;
            }
            k = k + 1;
        }
        let mut budget: usize = EXPLORATION_LIMIT;
        while work.len() > 0
            invariant
                g.wf(),
                dim == g@.dim(),
                alphas@.len() == dim,
                src < g@.node_count(),
                dst < g@.node_count(),
                explored_ok(g@, src as int, dst as int, found@, flats@.map_values(|f: Vec<usize>| f@)),
                costs@.len() == found@.len(),
                forall|k: int| 0 <= k < costs@.len() ==> (#[trigger] costs@[k])@.len() == dim,
                forall|w: int| 0 <= w < work@.len() ==> (#[trigger] work@[w]).0 < found@.len() && work@[w].1 < found@.len(),
                axes_covered(g@, found@, alphas@, src as int, dst as int, dim as int),
                found@.len() > 0 ==> routable(g@, alphas@, src as int, dst as int),
                work@.len() > 0 ==> found@.len() > 0,
            decreases budget, work@.len(),
        {
            let (k, l) = work.pop().unwrap();
            let mut added = false;
            let ghost len0 = found@.len();
            let mut i: usize = 0;
            while i < dim && !added && budget > 0
                invariant
                    g.wf(),
                    dim == g@.dim(),
                    alphas@.len() == dim,
                    src < g@.node_count(),
                    dst < g@.node_count(),
                    k < found@.len(),
                    l < found@.len(),
                    explored_ok(g@, src as int, dst as int, found@, flats@.map_values(|f: Vec<usize>| f@)),
                    costs@.len() == found@.len(),
                    forall|k: int| 0 <= k < costs@.len() ==> (#[trigger] costs@[k])@.len() == dim,
                    found@.len() == len0 + if added { 1int } else { 0int },
                    added ==> budget > 0,
                    forall|w: int| 0 <= w < work@.len() ==> (#[trigger] work@[w]).0 < found@.len() && work@[w].1 < found@.len(),
                    axes_covered(g@, found@, alphas@, src as int, dst as int, dim as int),
                    found@.len() > 0,
                    routable(g@, alphas@, src as int, dst as int),
                decreases dim - i,
            {
                let mut j: usize = i + 1;
                while j < dim && !added
                    invariant
                        g.wf(),
                        dim == g@.dim(),
                        alphas@.len() == dim,
                        src < g@.node_count(),
                        dst < g@.node_count(),
                        i < dim,
                        k < found@.len(),
                        l < found@.len(),
                        explored_ok(g@, src as int, dst as int, found@, flats@.map_values(|f: Vec<usize>| f@)),
                        costs@.len() == found@.len(),
                        forall|k: int| 0 <= k < costs@.len() ==> (#[trigger] costs@[k])@.len() == dim,
                        found@.len() == len0 + if added { 1int } else { 0int },
                        budget > 0,
                        forall|w: int| 0 <= w < work@.len() ==> (#[trigger] work@[w]).0 < found@.len() && work@[w].1 < found@.len(),
                        axes_covered(g@, found@, alphas@, src as int, dst as int, dim as int),
                        found@.len() > 0,
                        routable(g@, alphas@, src as int, dst as int),
                    decreases dim - j,
                {
                    if alphas[i] > 0 && alphas[j] > 0 {
                        let (ki, kj) = (costs[k][i], costs[k][j]);
                        let (li, lj) = (costs[l][i], costs[l][j]);
                        let front = (ki < li && kj > lj) || (li < ki && lj > kj);
                        if front {
                            let di = if kj > lj { kj - lj } else { lj - kj };
                            let dj = if ki > li { ki - li } else { li - ki };
                            let (wi, wj) = direction(di, dj);
                            let mut a = axis_alphas(dim, i);
                            a.set(i, wi);
                            a.set(j, wj);
                            let ghost before = found@;
                            added = Self::query(dijkstra, g, &a, src, dst, &mut found, &mut flats, &mut costs);
                            proof {
                                lemma_covered_grows(g@, before, found@, alphas@, src as int, dst as int, dim as int);
                            }
                        }
                    }
                    j = j + 1;
                }
                i = i + 1;
            }
            if added {
                let n = found.len() - 1;
                work.push((n, k));
                work.push((n, l));
                budget = budget - 1;
            }
        }
        proof {
            if exists|q: int| 0 <= q < g@.dim() && alphas@[q] > 0 && !costs_at_least(g@, axis(g@.dim(), q), src as int, dst as int, INFINITY as int) {
                let q = choose|q: int| 0 <= q < g@.dim() && alphas@[q] > 0 && !costs_at_least(g@, axis(g@.dim(), q), src as int, dst as int, INFINITY as int);
                assert(covered(g@, found@, axis(g@.dim(), q), src as int, dst as int));
            }
            if routable(g@, alphas@, src as int, dst as int) {
                let q = choose|q: int|
                    0 <= q < g@.dim() && alphas@[q] > 0 && !#[trigger] costs_at_least(g@, axis(g@.dim(), q), src as int, dst as int, INFINITY as int);
                assert(covered(g@, found@, axis(g@.dim(), q), src as int, dst as int));
            }
        }
        found
    }
}

} // verus!
