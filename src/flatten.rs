//! Unfolding shortcuts: a path over shortcut edges becomes the path over the
//! physical edges that the shortcuts stand for.

use crate::graph::{Graph, GraphModel};
use crate::paths::is_path;
use vstd::prelude::*;

verus! {

/// The physical edges that edge `e` stands for, in order.
pub open spec fn unfold(g: GraphModel, e: int) -> Seq<usize>
    decreases e,
{
    if 0 <= e < g.edge_count() && g.shortcuts[e] is Some && 0 <= g.shortcuts[e].unwrap().0 < e && 0
        <= g.shortcuts[e].unwrap().1 < e {
        unfold(g, g.shortcuts[e].unwrap().0 as int) + unfold(g, g.shortcuts[e].unwrap().1 as int)
    } else {
        seq![e as usize]
    }
}

/// The physical edges of the path `p`, in order.
pub open spec fn flat_path(g: GraphModel, p: Seq<usize>) -> Seq<usize>
    decreases p.len(),
{
    if p.len() == 0 {
        Seq::empty()
    } else {
        flat_path(g, p.drop_last()) + unfold(g, p.last() as int)
    }
}

/// No edge of `p` is a shortcut.
pub open spec fn is_flat(g: GraphModel, p: Seq<usize>) -> bool {
    forall|i: int| 0 <= i < p.len() ==> !g.is_shortcut(#[trigger] p[i] as int)
}

/// Unfolding an edge of a well-formed graph gives physical edges only, and a path
/// between the same endpoints.
pub proof fn lemma_unfold_flat(g: GraphModel, e: int)
    requires
        g.wf(),
        0 <= e < g.edge_count(),
    ensures
        is_flat(g, unfold(g, e)),
        is_path(g, unfold(g, e), g.src[e] as int, g.dst[e] as int),
        unfold(g, e).len() >= 1,
    decreases e,
{
    if g.shortcuts[e] is Some {
        let a = g.shortcuts[e].unwrap().0 as int;
        let b = g.shortcuts[e].unwrap().1 as int;
        assert(g.shortcut_ok(e, a, b));
        lemma_unfold_flat(g, a);
        lemma_unfold_flat(g, b);
        let ua = unfold(g, a);
        let ub = unfold(g, b);
        assert(unfold(g, e) == ua + ub);
        assert forall|i: int| 0 <= i < (ua + ub).len() implies !g.is_shortcut(#[trigger] (ua + ub)[i] as int) by {
            if i < ua.len() {
                assert((ua + ub)[i] == ua[i]);
            } else {
                assert((ua + ub)[i] == ub[i - ua.len()]);
            }
        }
        lemma_concat_path(g, ua, ub, g.src[e] as int, g.dst[a] as int, g.dst[e] as int);
    } else {
        assert(unfold(g, e) == seq![e as usize]);
    }
}

/// Two paths joined at a node make a path.
pub proof fn lemma_concat_path(g: GraphModel, p: Seq<usize>, q: Seq<usize>, s: int, m: int, t: int)
    requires
        is_path(g, p, s, m),
        is_path(g, q, m, t),
    ensures
        is_path(g, p + q, s, t),
{
    let r = p + q;
    assert forall|i: int| 0 <= i < r.len() implies #[trigger] r[i] < g.edge_count() by {
        if i < p.len() {
            assert(r[i] == p[i]);
        } else {
            assert(r[i] == q[i - p.len()]);
        }
    }
    assert forall|i: int| 0 <= i < r.len() - 1 implies g.dst[#[trigger] r[i] as int] == g.src[r[i + 1] as int] by {
        if i < p.len() - 1 {
            assert(r[i] == p[i] && r[i + 1] == p[i + 1]);
        } else if i == p.len() - 1 {
            assert(r[i] == p.last() && r[i + 1] == q[0]);
        } else {
            assert(r[i] == q[i - p.len()] && r[i + 1] == q[i + 1 - p.len()]);
        }
    }
    if p.len() > 0 && q.len() > 0 {
        assert(r[0] == p[0]);
        assert(r.last() == q.last());
    } else if p.len() == 0 {
        assert(r =~= q);
    } else {
        assert(r =~= p);
    }
}

/// Flattening a path yields physical edges forming a path between the same nodes.
pub proof fn lemma_flat_path(g: GraphModel, p: Seq<usize>, s: int, t: int)
    requires
        g.wf(),
        is_path(g, p, s, t),
    ensures
        is_flat(g, flat_path(g, p)),
        is_path(g, flat_path(g, p), s, t),
    decreases p.len(),
{
    if p.len() > 0 {
        let q = p.drop_last();
        let e = p.last() as int;
        let m = g.src[e] as int;
        assert(is_path(g, q, s, m)) by {
            if q.len() > 0 {
                assert(g.dst[p[q.len() - 1] as int] == g.src[p[q.len() as int] as int]);
            }
            assert forall|i: int| 0 <= i < q.len() - 1 implies g.dst[#[trigger] q[i] as int] == g.src[q[i + 1] as int] by {
                assert(q[i] == p[i] && q[i + 1] == p[i + 1]);
            }
            assert forall|i: int| 0 <= i < q.len() implies #[trigger] q[i] < g.edge_count() by {
                assert(q[i] == p[i]);
            }
        }
        lemma_flat_path(g, q, s, m);
        lemma_unfold_flat(g, e);
        let fq = flat_path(g, q);
        let ue = unfold(g, e);
        lemma_concat_path(g, fq, ue, s, m, t);
        assert forall|i: int| 0 <= i < (fq + ue).len() implies !g.is_shortcut(#[trigger] (fq + ue)[i] as int) by {
            if i < fq.len() {
                assert((fq + ue)[i] == fq[i]);
            } else {
                assert((fq + ue)[i] == ue[i - fq.len()]);
            }
        }
    }
}

/// Flattening a path without shortcuts returns it unchanged.
pub proof fn lemma_flat_path_of_flat(g: GraphModel, p: Seq<usize>)
    requires
        is_flat(g, p),
    ensures
        flat_path(g, p) == p,
    decreases p.len(),
{
    if p.len() > 0 {
        let q = p.drop_last();
        assert(is_flat(g, q)) by {
            assert forall|i: int| 0 <= i < q.len() implies !g.is_shortcut(#[trigger] q[i] as int) by {
                assert(q[i] == p[i]);
            }
        }
        lemma_flat_path_of_flat(g, q);
        assert(!g.is_shortcut(p[p.len() - 1] as int));
        assert(unfold(g, p.last() as int) == seq![p.last()]);
        assert(q.push(p.last()) =~= p);
    }
}

/// Flattening is idempotent: flattening a flattened path changes nothing.
pub proof fn lemma_flatten_idempotent(g: GraphModel, p: Seq<usize>, s: int, t: int)
    requires
        g.wf(),
        is_path(g, p, s, t),
    ensures
        flat_path(g, flat_path(g, p)) == flat_path(g, p),
{
    lemma_flat_path(g, p, s, t);
    lemma_flat_path_of_flat(g, flat_path(g, p));
}

/// Appends the physical edges of edge `e` to `out`.
fn unfold_into(g: &Graph, e: usize, out: &mut Vec<usize>)
    requires
        g.wf(),
        e < g@.edge_count(),
    ensures
        final(out)@ == old(out)@ + unfold(g@, e as int),
    decreases e,
{
    match g.shortcut(e) {
        Some((a, b)) => {
            assert(g@.shortcut_ok(e as int, a as int, b as int));
            unfold_into(g, a, out);
            unfold_into(g, b, out);
            assert(final(out)@ =~= old(out)@ + unfold(g@, e as int));
        },
        None => {
            out.push(e);
        },
    }
}

/// The physical edges of a path: every shortcut is replaced, recursively, by its two
/// children, in order; other edges are kept.
pub fn flatten(g: &Graph, edges: &Vec<usize>) -> (r: Vec<usize>)
    requires
        g.wf(),
        forall|i: int| 0 <= i < edges@.len() ==> #[trigger] edges@[i] < g@.edge_count(),
    ensures
        r@ == flat_path(g@, edges@),
{
    let mut out: Vec<usize> = Vec::new();
    let mut i: usize = 0;
    while i < edges.len()
        invariant
            g.wf(),
            i <= edges@.len(),
            forall|i: int| 0 <= i < edges@.len() ==> #[trigger] edges@[i] < g@.edge_count(),
            out@ == flat_path(g@, edges@.subrange(0, i as int)),
        decreases edges.len() - i,
    {
        proof {
            let p = edges@.subrange(0, i as int + 1);
            assert(p.drop_last() =~= edges@.subrange(0, i as int));
            assert(p.last() == edges@[i as int]);
        }
        unfold_into(g, edges[i], &mut out);
        i = i + 1;
    }
    assert(edges@.subrange(0, edges@.len() as int) =~= edges@);
    out
}

} // verus!
