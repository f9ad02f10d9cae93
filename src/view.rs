//! Compressed adjacency views: a permutation of the edge indices grouped by a
//! per-edge key (source or destination node), together with an offset array
//! such that the edges of key `v` live at positions `offsets[v] .. offsets[v + 1]`.

use vstd::prelude::*;
use vstd::seq_lib::group_to_multiset_ensures;

verus! {

/// Number of entries among the first `k` of `keys` that equal `v`.
pub open spec fn count_key(keys: Seq<usize>, v: int, k: int) -> nat
    decreases k,
{
    if k <= 0 {
        0
    } else {
        count_key(keys, v, k - 1) + if keys[k - 1] == v { 1nat } else { 0nat }
    }
}

/// Number of entries among the first `k` of `keys` that are smaller than `v`.
pub open spec fn count_below(keys: Seq<usize>, v: int, k: int) -> nat
    decreases v,
{
    if v <= 0 {
        0
    } else {
        count_below(keys, v - 1, k) + count_key(keys, v - 1, k)
    }
}

/// Where the counting placement puts entry `e`: after every entry with a smaller
/// key, and after the earlier entries with the same key.
pub open spec fn slot(keys: Seq<usize>, e: int) -> int {
    (count_below(keys, keys[e] as int, keys.len() as int) + count_key(keys, keys[e] as int, e)) as int
}

/// `view` lists every index of `keys` exactly once, grouped by key `0 .. n` in the
/// ranges given by `offsets`.
pub open spec fn grouped_view(view: Seq<usize>, offsets: Seq<usize>, keys: Seq<usize>, n: int) -> bool {
    &&& offsets.len() == n + 1
    &&& offsets[0] == 0
    &&& offsets[n] == keys.len()
    &&& forall|v: int| 0 <= v < n ==> offsets[v] <= #[trigger] offsets[v + 1]
    &&& view.len() == keys.len()
    &&& forall|e: int| 0 <= e < keys.len() ==> #[trigger] keys[e] < n
    &&& forall|j: int| 0 <= j < view.len() ==> #[trigger] view[j] < keys.len()
    &&& forall|v: int, j: int|
        #![trigger offsets[v], view[j]]
        0 <= v < n && offsets[v] <= j < offsets[v + 1] ==> keys[view[j] as int] == v
    &&& forall|e: int|
        #![trigger keys[e]]
        0 <= e < keys.len() ==> exists|j: int|
            offsets[keys[e] as int] <= j < offsets[keys[e] + 1] && #[trigger] view[j] == e
    &&& view.no_duplicates()
}

proof fn lemma_count_key_step(keys: Seq<usize>, v: int, e: int, k: int)
    requires
        0 <= e < k <= keys.len(),
        keys[e] == v,
    ensures
        count_key(keys, v, e) < count_key(keys, v, k),
    decreases k,
{
    if k > e + 1 {
        lemma_count_key_step(keys, v, e, k - 1);
    }
}

proof fn lemma_count_key_mono(keys: Seq<usize>, v: int, a: int, b: int)
    requires
        0 <= a <= b <= keys.len(),
    ensures
        count_key(keys, v, a) <= count_key(keys, v, b),
        count_key(keys, v, b) <= b,
    decreases b,
{
    if b > a {
        lemma_count_key_mono(keys, v, a, b - 1);
    } else if b > 0 {
        lemma_count_key_mono(keys, v, 0, b - 1);
    }
}

proof fn lemma_count_below_step(keys: Seq<usize>, v: int, k: int)
    requires
        0 <= v,
        0 <= k < keys.len(),
    ensures
        count_below(keys, v, k + 1) == count_below(keys, v, k) + if keys[k] < v { 1int } else { 0int },
    decreases v,
{
    if v > 0 {
        lemma_count_below_step(keys, v - 1, k);
    }
}

proof fn lemma_count_below_total(keys: Seq<usize>, n: int, k: int)
    requires
        0 <= n,
        0 <= k <= keys.len(),
        forall|i: int| 0 <= i < keys.len() ==> keys[i] < n,
    ensures
        count_below(keys, n, k) == k,
    decreases k,
{
    if k > 0 {
        lemma_count_below_total(keys, n, k - 1);
        lemma_count_below_step(keys, n, k - 1);
    } else {
        lemma_count_below_zero(keys, n);
    }
}

proof fn lemma_count_below_zero(keys: Seq<usize>, v: int)
    ensures
        count_below(keys, v, 0) == 0,
    decreases v,
{
    if v > 0 {
        lemma_count_below_zero(keys, v - 1);
    }
}

proof fn lemma_count_below_mono(keys: Seq<usize>, a: int, b: int, k: int)
    requires
        a <= b,
    ensures
        count_below(keys, a, k) <= count_below(keys, b, k),
    decreases b - a,
{
    if b > a && b > 0 {
        lemma_count_below_mono(keys, a, b - 1, k);
    }
}

/// The `c`-th entry with key `v` among the first `k` entries exists.
proof fn lemma_occurrence(keys: Seq<usize>, v: int, c: int, k: int) -> (e: int)
    requires
        0 <= k <= keys.len(),
        0 <= c < count_key(keys, v, k),
    ensures
        0 <= e < k,
        keys[e] == v,
        count_key(keys, v, e) == c,
    decreases k,
{
    if c < count_key(keys, v, k - 1) {
        lemma_occurrence(keys, v, c, k - 1)
    } else {
        k - 1
    }
}

proof fn lemma_slot_bounds(keys: Seq<usize>, n: int, e: int)
    requires
        0 <= e < keys.len(),
        forall|i: int| 0 <= i < keys.len() ==> keys[i] < n,
    ensures
        count_below(keys, keys[e] as int, keys.len() as int) <= slot(keys, e),
        slot(keys, e) < count_below(keys, keys[e] + 1, keys.len() as int),
        count_below(keys, keys[e] + 1, keys.len() as int) <= keys.len(),
{
    let len = keys.len() as int;
    lemma_count_key_step(keys, keys[e] as int, e, len);
    lemma_count_below_mono(keys, keys[e] + 1, n, len);
    lemma_count_below_total(keys, n, len);
}

/// A vector of `n` copies of `x`.
pub fn filled(n: usize, x: usize) -> (r: Vec<usize>)
    ensures
        r@.len() == n,
        forall|i: int| 0 <= i < n ==> r@[i] == x,
{
    let mut r: Vec<usize> = Vec::with_capacity(n);
    let mut i: usize = 0;
    while i < n
        invariant
            i <= n,
            r@.len() == i,
            forall|j: int| 0 <= j < i ==> r@[j] == x,
        decreases n - i,
    {
        r.push(x);
        i = i + 1;
    }
    r
}

/// Groups the indices `0 .. keys.len()` by key with a counting placement; within a
/// group the indices keep their increasing order.
pub fn group_by_key(keys: &Vec<usize>, n: usize) -> (r: (Vec<usize>, Vec<usize>))
    requires
        n < usize::MAX,
        forall|i: int| 0 <= i < keys.len() ==> keys@[i] < n,
    ensures
        grouped_view(r.0@, r.1@, keys@, n as int),
{
    let ghost ks = keys@;
    let ghost len = keys.len() as int;
    // count the entries of each key
    let mut counts = filled(n, 0);
    let mut i: usize = 0;
    while i < keys.len()
        invariant
            i <= keys.len(),
            ks == keys@,
            len == keys.len(),
            counts@.len() == n,
            forall|i: int| 0 <= i < keys.len() ==> keys@[i] < n,
            forall|v: int| 0 <= v < n ==> counts@[v] == count_key(ks, v, i as int),
        decreases keys.len() - i,
    {
        let k = keys[i];
        proof {
            lemma_count_key_mono(ks, k as int, i as int, i as int);
        }
        counts.set(k, counts[k] + 1);
        i = i + 1;
    }
    // prefix sums
    let mut offsets: Vec<usize> = Vec::with_capacity(n + 1);
    offsets.push(0);
    let mut total: usize = 0;
    let mut v: usize = 0;
    proof {
        lemma_count_below_total(ks, n as int, len);
    }
    while v < n
        invariant
            v <= n,
            ks == keys@,
            len == keys.len(),
            counts@.len() == n,
            forall|i: int| 0 <= i < keys.len() ==> keys@[i] < n,
            forall|v: int| 0 <= v < n ==> counts@[v] == count_key(ks, v, len),
            count_below(ks, n as int, len) == len,
            offsets@.len() == v + 1,
            total == count_below(ks, v as int, len),
            forall|w: int| 0 <= w <= v ==> offsets@[w] == count_below(ks, w, len),
        decreases n - v,
    {
        proof {
            lemma_count_below_mono(ks, v as int + 1, n as int, len);
        }
        total = total + counts[v];
        offsets.push(total);
        v = v + 1;
    }
    // placement
    let mut next = filled(n, 0);
    let mut w: usize = 0;
    while w < n
        invariant
            w <= n,
            next@.len() == n,
            offsets@.len() == n + 1,
            forall|u: int| 0 <= u < w ==> next@[u] == offsets@[u],
        decreases n - w,
    {
        next.set(w, offsets[w]);
        w = w + 1;
    }
    let mut view = filled(keys.len(), 0);
    let mut i: usize = 0;
    while i < keys.len()
        invariant
            i <= keys.len(),
            ks == keys@,
            len == keys.len(),
            forall|i: int| 0 <= i < keys.len() ==> keys@[i] < n,
            count_below(ks, n as int, len) == len,
            offsets@.len() == n + 1,
            forall|w: int| 0 <= w <= n ==> offsets@[w] == count_below(ks, w, len),
            next@.len() == n,
            forall|u: int| 0 <= u < n ==> next@[u] == count_below(ks, u, len) + count_key(ks, u, i as int),
            view@.len() == len,
            forall|e: int| 0 <= e < i ==> view@[slot(ks, e)] == e,
        decreases keys.len() - i,
    {
        let k = keys[i];
        proof {
            lemma_slot_bounds(ks, n as int, i as int);
            assert forall|e: int| 0 <= e < i implies slot(ks, e) != slot(ks, i as int) by {
                lemma_slot_bounds(ks, n as int, e);
                if ks[e] == k {
                    lemma_count_key_step(ks, k as int, e, i as int);
                } else if ks[e] < k {
                    lemma_count_below_mono(ks, ks[e] + 1, k as int, len);
                } else {
                    lemma_count_below_mono(ks, k + 1, ks[e] as int, len);
                }
            }
        }
        let p = next[k];
        let ghost before = view@;
        view.set(p, i);
        next.set(k, p + 1);
        proof {
            assert forall|e: int| 0 <= e < i + 1 implies view@[slot(ks, e)] == e by {
                lemma_slot_bounds(ks, n as int, e);
                if e < i {
                    assert(before[slot(ks, e)] == e);
                }
            }
        }
        i = i + 1;
    }
    proof {
        let vw = view@;
        let off = offsets@;
        // every position holds the entry placed there
        assert forall|j: int| 0 <= j < len implies #[trigger] vw[j] < len && slot(ks, vw[j] as int) == j by {
            let u = lemma_bucket_of(off, n as int, j);
            lemma_count_below_step_key(ks, u, len);
            let e = lemma_occurrence(ks, u, j - off[u], len);
            assert(slot(ks, e) == j);
        }
        assert forall|v: int, j: int|
            #![trigger off[v], vw[j]]
            0 <= v < n && off[v] <= j < off[v + 1] implies ks[vw[j] as int] == v by {
            let e = lemma_occurrence(ks, v, j - off[v], len);
            lemma_count_below_step_key(ks, v, len);
            assert(slot(ks, e) == j);
        }
        assert forall|e: int| #![trigger ks[e]] 0 <= e < len implies exists|j: int|
            off[ks[e] as int] <= j < off[ks[e] + 1] && #[trigger] vw[j] == e by {
            lemma_slot_bounds(ks, n as int, e);
            lemma_count_below_step_key(ks, ks[e] as int, len);
            assert(vw[slot(ks, e)] == e);
        }
        assert forall|a: int, b: int| 0 <= a < vw.len() && 0 <= b < vw.len() && a != b implies vw[a] != vw[b] by {
            if vw[a] == vw[b] {
                assert(slot(ks, vw[a] as int) == a);
                assert(slot(ks, vw[b] as int) == b);
            }
        }
        assert forall|v: int| 0 <= v < n implies off[v] <= #[trigger] off[v + 1] by {
            lemma_count_below_mono(ks, v, v + 1, len);
        }
        lemma_count_below_zero_key(ks, len);
    }
    (view, offsets)
}

proof fn lemma_count_below_step_key(keys: Seq<usize>, v: int, k: int)
    requires
        0 <= v,
    ensures
        count_below(keys, v + 1, k) == count_below(keys, v, k) + count_key(keys, v, k),
{
}

proof fn lemma_count_below_zero_key(keys: Seq<usize>, k: int)
    ensures
        count_below(keys, 0, k) == 0,
{
}

/// An element at two positions is counted at least twice.
pub proof fn lemma_repeated_counts_twice<A>(s: Seq<A>, i: int, j: int)
    requires
        0 <= i < s.len(),
        0 <= j < s.len(),
        i != j,
        s[i] == s[j],
    ensures
        s.to_multiset().count(s[i]) >= 2,
{
    broadcast use group_to_multiset_ensures;

    broadcast use vstd::multiset::group_multiset_axioms;

    let t = s.remove(i);
    assert(t.len() == s.len() - 1);
    let k = if j < i { j } else { j - 1 };
    assert(t[k] == s[i]);
    assert(t.contains(s[i]));
    assert(t.to_multiset().count(s[i]) > 0);
}

/// An element counted at least twice stands at two positions.
pub proof fn lemma_counted_twice_repeats<A>(s: Seq<A>, x: A) -> (r: (int, int))
    requires
        s.to_multiset().count(x) >= 2,
    ensures
        0 <= r.0 < s.len(),
        0 <= r.1 < s.len(),
        r.0 != r.1,
        s[r.0] == x,
        s[r.1] == x,
{
    broadcast use group_to_multiset_ensures;
    broadcast use vstd::multiset::group_multiset_axioms;

    assert(s.contains(x));
    let p = choose|p: int| 0 <= p < s.len() && s[p] == x;
    let t = s.remove(p);
    assert(t.to_multiset().count(x) >= 1);
    assert(t.contains(x));
    let q = choose|q: int| 0 <= q < t.len() && t[q] == x;
    if q < p {
        (p, q)
    } else {
        (p, q + 1)
    }
}


/// A grouped view lists each index below `keys.len()` exactly once.
pub proof fn lemma_grouped_view_counts(view: Seq<usize>, offsets: Seq<usize>, keys: Seq<usize>, n: int, x: usize)
    requires
        grouped_view(view, offsets, keys, n),
    ensures
        view.to_multiset().count(x) == if x < keys.len() { 1nat } else { 0nat },
{
    broadcast use group_to_multiset_ensures;

    if view.to_multiset().count(x) >= 2 {
        let (p, q) = lemma_counted_twice_repeats(view, x);
        assert(view[p] == view[q]);
    }
    if x < keys.len() {
        assert(keys[x as int] == keys[x as int]);
        let j = choose|j: int| offsets[keys[x as int] as int] <= j < offsets[keys[x as int] + 1] && view[j] == x;
        lemma_offset_bounded(offsets, n, keys[x as int] + 1);
        assert(view.contains(x));
    } else {
        assert(!view.contains(x));
    }
}

/// Offsets never exceed the total.
pub proof fn lemma_offset_bounded(offsets: Seq<usize>, n: int, v: int)
    requires
        0 <= v <= n,
        offsets.len() == n + 1,
        forall|w: int| 0 <= w < n ==> offsets[w] <= #[trigger] offsets[w + 1],
    ensures
        offsets[v] <= offsets[n],
    decreases n - v,
{
    if v < n {
        lemma_offset_bounded(offsets, n, v + 1);
        assert(offsets[v] <= offsets[v + 1]);
    }
}

/// A position below `offsets[n]` lies in the range of some key.
pub proof fn lemma_bucket_of(offsets: Seq<usize>, n: int, j: int) -> (v: int)
    requires
        0 <= n,
        offsets.len() == n + 1,
        offsets[0] == 0,
        forall|v: int| 0 <= v < n ==> offsets[v] <= #[trigger] offsets[v + 1],
        0 <= j < offsets[n],
    ensures
        0 <= v < n,
        offsets[v] <= j < offsets[v + 1],
    decreases n,
{
    if j >= offsets[n - 1] {
        n - 1
    } else {
        lemma_bucket_of(offsets.subrange(0, n), n - 1, j)
    }
}


/// Within each group of `view`, the entries are ordered by the secondary key `sec`.
pub open spec fn sorted_within(view: Seq<usize>, keys: Seq<usize>, sec: Seq<usize>) -> bool {
    forall|j1: int, j2: int|
        0 <= j1 < j2 < view.len() && keys[view[j1] as int] == keys[view[j2] as int] ==> sec[#[trigger] view[j1] as int]
            <= sec[#[trigger] view[j2] as int]
}

/// Positions `lo .. hi` of `view` are ordered by `sec`.
pub open spec fn range_sorted(view: Seq<usize>, sec: Seq<usize>, lo: int, hi: int) -> bool {
    forall|a: int, b: int| lo <= a < b < hi ==> sec[#[trigger] view[a] as int] <= sec[#[trigger] view[b] as int]
}

/// `grouped_view`, behind a name that is unfolded only where needed.
#[verifier::opaque]
pub open spec fn grouped(view: Seq<usize>, offsets: Seq<usize>, keys: Seq<usize>, n: int) -> bool {
    grouped_view(view, offsets, keys, n)
}

proof fn lemma_swap_buckets(view: Seq<usize>, offsets: Seq<usize>, keys: Seq<usize>, n: int, v: int, i: int, j: int)
    requires
        grouped_view(view, offsets, keys, n),
        0 <= v < n,
        offsets[v] <= i < offsets[v + 1],
        offsets[v] <= j < offsets[v + 1],
    ensures
        forall|u: int, k: int|
            #![trigger offsets[u], view.update(i, view[j]).update(j, view[i])[k]]
            0 <= u < n && offsets[u] <= k < offsets[u + 1] ==> keys[view.update(i, view[j]).update(j, view[i])[k] as int] == u,
{
    lemma_offset_bounded(offsets, n, v + 1);
    let w = view.update(i, view[j]).update(j, view[i]);
    assert(keys[view[i] as int] == v);
    assert(keys[view[j] as int] == v);
    assert forall|u: int, k: int|
        #![trigger offsets[u], w[k]]
        0 <= u < n && offsets[u] <= k < offsets[u + 1] implies keys[w[k] as int] == u by {
        lemma_offset_bounded(offsets, n, u + 1);
        if k == i || k == j {
            let x = lemma_bucket_of(offsets, n, k);
            assert(keys[view[k] as int] == x);
            assert(keys[view[k] as int] == v);
            if u < v {
                lemma_offsets_mono(offsets, n, u + 1, v);
            } else if u > v {
                lemma_offsets_mono(offsets, n, v + 1, u);
            }
        } else {
            assert(w[k] == view[k]);
            assert(keys[view[k] as int] == u);
        }
    }
}

proof fn lemma_swap_covers(view: Seq<usize>, offsets: Seq<usize>, keys: Seq<usize>, n: int, v: int, i: int, j: int)
    requires
        grouped_view(view, offsets, keys, n),
        0 <= v < n,
        offsets[v] <= i < offsets[v + 1],
        offsets[v] <= j < offsets[v + 1],
    ensures
        forall|e: int| #![trigger keys[e]] 0 <= e < keys.len() ==> exists|k: int|
            offsets[keys[e] as int] <= k < offsets[keys[e] + 1] && #[trigger] view.update(i, view[j]).update(j, view[i])[k] == e,
{
    lemma_offset_bounded(offsets, n, v + 1);
    let w = view.update(i, view[j]).update(j, view[i]);
    assert forall|e: int| #![trigger keys[e]] 0 <= e < keys.len() implies exists|k: int|
        offsets[keys[e] as int] <= k < offsets[keys[e] + 1] && #[trigger] w[k] == e by {
        let k = choose|k: int| offsets[keys[e] as int] <= k < offsets[keys[e] + 1] && #[trigger] view[k] == e;
        lemma_offset_bounded(offsets, n, keys[e] + 1);
        if k == i {
            assert(keys[view[i] as int] == v);
            assert(w[j] == e);
        } else if k == j {
            assert(keys[view[j] as int] == v);
            assert(w[i] == e);
        } else {
            assert(w[k] == e);
        }
    }
}

/// Swapping two positions of one group keeps a grouped view.
#[verifier::spinoff_prover]
#[verifier::rlimit(60)]
proof fn lemma_swap_in_group(view: Seq<usize>, offsets: Seq<usize>, keys: Seq<usize>, n: int, v: int, i: int, j: int)
    requires
        grouped(view, offsets, keys, n),
        0 <= v < n,
        offsets[v] <= i < offsets[v + 1],
        offsets[v] <= j < offsets[v + 1],
    ensures
        grouped(view.update(i, view[j]).update(j, view[i]), offsets, keys, n),
{
    reveal(grouped);
    let w = view.update(i, view[j]).update(j, view[i]);
    lemma_offset_bounded(offsets, n, v + 1);
    lemma_swap_buckets(view, offsets, keys, n, v, i, j);
    lemma_swap_covers(view, offsets, keys, n, v, i, j);
    assert forall|a: int, b: int| 0 <= a < w.len() && 0 <= b < w.len() && a != b implies w[a] != w[b] by {
        let pa = if a == i { j } else if a == j { i } else { a };
        let pb = if b == i { j } else if b == j { i } else { b };
        assert(w[a] == view[pa]);
        assert(w[b] == view[pb]);
    }
    assert forall|k: int| 0 <= k < w.len() implies #[trigger] w[k] < keys.len() by {
        let pk = if k == i { j } else if k == j { i } else { k };
        assert(w[k] == view[pk]);
    }
}

proof fn lemma_offsets_mono(offsets: Seq<usize>, n: int, a: int, b: int)
    requires
        0 <= a <= b <= n,
        offsets.len() == n + 1,
        forall|w: int| 0 <= w < n ==> offsets[w] <= #[trigger] offsets[w + 1],
    ensures
        offsets[a] <= offsets[b],
    decreases b - a,
{
    if a < b {
        lemma_offsets_mono(offsets, n, a + 1, b);
        assert(offsets[a] <= offsets[a + 1]);
    }
}

/// Sorted groups make a view sorted within its groups.
proof fn lemma_groups_sorted(view: Seq<usize>, offsets: Seq<usize>, keys: Seq<usize>, sec: Seq<usize>, n: int)
    requires
        0 <= n,
        grouped_view(view, offsets, keys, n),
        forall|v: int| 0 <= v < n ==> #[trigger] range_sorted(view, sec, offsets[v] as int, offsets[v + 1] as int),
    ensures
        sorted_within(view, keys, sec),
{
    assert forall|j1: int, j2: int|
        0 <= j1 < j2 < view.len() && keys[view[j1] as int] == keys[view[j2] as int] implies sec[#[trigger] view[j1] as int]
            <= sec[#[trigger] view[j2] as int] by {
        let v1 = lemma_bucket_of(offsets, n, j1);
        let v2 = lemma_bucket_of(offsets, n, j2);
        assert(keys[view[j1] as int] == v1);
        assert(keys[view[j2] as int] == v2);
        assert(range_sorted(view, sec, offsets[v1] as int, offsets[v1 + 1] as int));
    }
}

/// Sorts every group of a grouped view by the secondary key `sec`, in place.
pub fn sort_groups(view: &mut Vec<usize>, offsets: &Vec<usize>, keys: Ghost<Seq<usize>>, sec: &Vec<usize>, n: usize)
    requires
        grouped_view(old(view)@, offsets@, keys@, n as int),
        sec@.len() == keys@.len(),
    ensures
        grouped_view(final(view)@, offsets@, keys@, n as int),
        sorted_within(final(view)@, keys@, sec@),
{
    proof {
        reveal(grouped);
        lemma_offset_bounded(offsets@, n as int, n as int);
    }
    let ghost len = view@.len();
    let mut v: usize = 0;
    while v < n
        invariant
            v <= n,
            grouped(view@, offsets@, keys@, n as int),
            view@.len() == len,
            offsets@.len() == n + 1,
            offsets@[n as int] == len,
            forall|w: int| 0 <= w < n ==> offsets@[w] <= #[trigger] offsets@[w + 1],
            forall|a: int| 0 <= a < view@.len() ==> #[trigger] view@[a] < keys@.len(),
            sec@.len() == keys@.len(),
            forall|u: int| 0 <= u < v ==> #[trigger] range_sorted(view@, sec@, offsets@[u] as int, offsets@[u + 1] as int),
        decreases n - v,
    {
        let lo = offsets[v];
        let hi = offsets[v + 1];
        proof {
            lemma_offset_bounded(offsets@, n as int, v as int + 1);
        }
        let ghost others = view@;
        let mut k: usize = lo;
        while k < hi
            invariant
                v < n,
                lo == offsets@[v as int],
                hi == offsets@[v + 1],
                lo <= k <= hi,
                hi <= view@.len(),
                grouped(view@, offsets@, keys@, n as int),
                view@.len() == len,
                forall|a: int| 0 <= a < view@.len() ==> #[trigger] view@[a] < keys@.len(),
                sec@.len() == keys@.len(),
                range_sorted(view@, sec@, lo as int, k as int),
                forall|p: int| 0 <= p < view@.len() && !(lo <= p < hi) ==> view@[p] == others[p],
                forall|u: int| 0 <= u < v ==> #[trigger] range_sorted(others, sec@, offsets@[u] as int, offsets@[u + 1] as int),
            decreases hi - k,
        {
            let mut j = k;
            while j > lo && sec[view[j - 1]] > sec[view[j]]
                invariant
                    v < n,
                    lo == offsets@[v as int],
                    hi == offsets@[v + 1],
                    lo <= j <= k < hi,
                    hi <= view@.len(),
                    view@.len() == len,
                    grouped(view@, offsets@, keys@, n as int),
                    sec@.len() == keys@.len(),
                    forall|a: int| 0 <= a < view@.len() ==> #[trigger] view@[a] < keys@.len(),
                    range_sorted(view@, sec@, lo as int, j as int),
                    range_sorted(view@, sec@, j as int + 1, k as int + 1),
                    forall|a: int, b: int| lo <= a < j && j + 1 <= b <= k ==> sec@[#[trigger] view@[a] as int] <= sec@[#[trigger] view@[b] as int],
                    forall|b: int| j < b <= k ==> sec@[view@[j as int] as int] <= sec@[#[trigger] view@[b] as int],
                    forall|p: int| 0 <= p < view@.len() && !(lo <= p < hi) ==> view@[p] == others[p],
                decreases j - lo,
            {
                let x = view[j - 1];
                let y = view[j];
                let ghost before = view@;
                proof {
                    lemma_swap_in_group(view@, offsets@, keys@, n as int, v as int, j as int - 1, j as int);
                }
                view.set(j - 1, y);
                view.set(j, x);
                proof {
                    assert(view@ =~= before.update(j as int - 1, before[j as int]).update(j as int, before[j as int - 1]));
                    assert forall|a: int, b: int| lo <= a < b < j - 1 implies sec@[#[trigger] view@[a] as int] <= sec@[#[trigger] view@[b] as int] by {
                        assert(view@[a] == before[a] && view@[b] == before[b]);
                    }
                    assert forall|a: int, b: int| j <= a < b < k + 1 implies sec@[#[trigger] view@[a] as int] <= sec@[#[trigger] view@[b] as int] by {
                        if a == j {
                            assert(view@[a] == before[j - 1]);
                            if b > j + 1 {
                                assert(view@[b] == before[b]);
                            }
                        } else {
                            assert(view@[a] == before[a] && view@[b] == before[b]);
                        }
                    }
                }
                j = j - 1;
            }
            k = k + 1;
        }
        proof {
            assert forall|u: int| 0 <= u < v + 1 implies #[trigger] range_sorted(view@, sec@, offsets@[u] as int, offsets@[u + 1] as int) by {
                if u < v {
                    assert(range_sorted(others, sec@, offsets@[u] as int, offsets@[u + 1] as int));
                    lemma_offsets_mono(offsets@, n as int, u + 1, v as int);
                    assert forall|a: int, b: int| offsets@[u] <= a < b < offsets@[u + 1] implies sec@[#[trigger] view@[a] as int] <= sec@[#[trigger] view@[b] as int] by {
                        assert(view@[a] == others[a]);
                        assert(view@[b] == others[b]);
                    }
                }
            }
        }
        v = v + 1;
    }
    proof {
        reveal(grouped);
        lemma_groups_sorted(view@, offsets@, keys@, sec@, n as int);
    }
}

} // verus!
