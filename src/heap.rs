//! A binary min-heap of `(cost, node)` entries, ordered by cost and then by node
//! index, as the kernel's priority queue.

use vstd::multiset::Multiset;
use vstd::prelude::*;
use vstd::seq_lib::group_to_multiset_ensures;

verus! {

/// Entry `a` comes no later than entry `b`: lower cost first, then lower node index.
pub open spec fn entry_le(a: (u128, usize), b: (u128, usize)) -> bool {
    a.0 < b.0 || (a.0 == b.0 && a.1 <= b.1)
}

pub open spec fn parent(i: int) -> int {
    (i - 1) / 2
}

/// Every entry but the root is no earlier than its parent.
pub open spec fn heap_ordered(s: Seq<(u128, usize)>) -> bool {
    forall|i: int| 0 < i < s.len() ==> entry_le(s[parent(i)], #[trigger] s[i])
}

/// Heap order everywhere except between `k` and its parent; and `k`'s parent is no
/// later than `k`'s children.
pub open spec fn ordered_except_up(s: Seq<(u128, usize)>, k: int) -> bool {
    &&& forall|i: int| 0 < i < s.len() && i != k ==> entry_le(s[parent(i)], #[trigger] s[i])
    &&& forall|i: int|
        0 < i < s.len() && parent(i) == k && k > 0 ==> entry_le(s[parent(k)], #[trigger] s[i])
}

/// Heap order everywhere except between `k` and its children; and `k`'s parent is no
/// later than `k`'s children.
pub open spec fn ordered_except_down(s: Seq<(u128, usize)>, k: int) -> bool {
    &&& forall|i: int| 0 < i < s.len() && parent(i) != k ==> entry_le(s[parent(i)], #[trigger] s[i])
    &&& forall|i: int|
        0 < i < s.len() && parent(i) == k && k > 0 ==> entry_le(s[parent(k)], #[trigger] s[i])
}

proof fn lemma_root_is_min(s: Seq<(u128, usize)>, i: int)
    requires
        heap_ordered(s),
        0 <= i < s.len(),
    ensures
        entry_le(s[0], s[i]),
    decreases i,
{
    if i > 0 {
        lemma_root_is_min(s, parent(i));
    }
}

proof fn lemma_swap_multiset(s: Seq<(u128, usize)>, i: int, j: int)
    requires
        0 <= i < s.len(),
        0 <= j < s.len(),
    ensures
        s.update(i, s[j]).update(j, s[i]).to_multiset() == s.to_multiset(),
{
    broadcast use group_to_multiset_ensures;
    broadcast use vstd::multiset::group_multiset_axioms;

    let t = s.update(i, s[j]);
    assert(t.to_multiset() == s.to_multiset().insert(s[j]).remove(s[i]));
    assert(t[j] == if i == j { s[j] } else { s[j] });
    assert(t.update(j, s[i]).to_multiset() == t.to_multiset().insert(s[i]).remove(t[j]));
    assert(t.update(j, s[i]).to_multiset() =~= s.to_multiset());
}

/// A priority queue of `(cost, node)` entries.
pub struct MinHeap {
    items: Vec<(u128, usize)>,
}

impl View for MinHeap {
    type V = Multiset<(u128, usize)>;

    closed spec fn view(&self) -> Multiset<(u128, usize)> {
        self.items@.to_multiset()
    }
}

impl MinHeap {
    pub closed spec fn inv(&self) -> bool {
        heap_ordered(self.items@)
    }

    pub fn new() -> (r: MinHeap)
        ensures
            r.inv(),
            r@ == Multiset::<(u128, usize)>::empty(),
    {
        let r = MinHeap { items: Vec::new() };
        proof {
            broadcast use group_to_multiset_ensures;
            assert(r.items@.to_multiset().len() == 0);
            assert(r.items@.to_multiset() =~= Multiset::empty());
        }
        r
    }

    pub fn len(&self) -> (r: usize)
        ensures
            r == self@.len(),
    {
        proof {
            broadcast use group_to_multiset_ensures;
        }
        self.items.len()
    }

    pub fn push(&mut self, x: (u128, usize))
        requires
            old(self).inv(),
        ensures
            final(self).inv(),
            final(self)@ == old(self)@.insert(x),
    {
        proof {
            broadcast use group_to_multiset_ensures;
        }
        self.items.push(x);
        let mut k = self.items.len() - 1;
        while k > 0
            invariant
                0 <= k < self.items@.len(),
                ordered_except_up(self.items@, k as int),
                self.items@.to_multiset() == old(self)@.insert(x),
            decreases k,
        {
            let p = (k - 1) / 2;
            let a = self.items[p];
            let b = self.items[k];
            if (a.0 < b.0) || (a.0 == b.0 && a.1 <= b.1) {
                assert(heap_ordered(self.items@));
                return;
            }
            proof {
                lemma_swap_multiset(self.items@, p as int, k as int);
            }
            let ghost before = self.items@;
            self.items.set(p, b);
            self.items.set(k, a);
            proof {
                let s = self.items@;
                assert(s =~= before.update(p as int, before[k as int]).update(k as int, before[p as int]));
                assert forall|i: int| 0 < i < s.len() && i != p implies entry_le(s[parent(i)], #[trigger] s[i]) by {
                    {
                        if i == k {
                        } else if parent(i) == k {
                            assert(entry_le(before[parent(i)], before[i]));
                        } else if parent(i) == p {
                            assert(entry_le(before[p as int], before[i]));
                        } else {
                            assert(entry_le(before[parent(i)], before[i]));
                        }
                    }
                }
                assert forall|i: int| 0 < i < s.len() && parent(i) == p && p > 0 implies entry_le(s[parent(p as int)], #[trigger] s[i]) by {
                    {
                        assert(entry_le(before[parent(p as int)], before[p as int]));
                        if i != k {
                            assert(entry_le(before[p as int], before[i]));
                        }
                    }
                }
            }
            k = p;
        }
    }

    /// Removes and returns an earliest entry.
    pub fn pop(&mut self) -> (r: (u128, usize))
        requires
            old(self).inv(),
            old(self)@.len() > 0,
        ensures
            final(self).inv(),
            old(self)@.count(r) > 0,
            final(self)@ == old(self)@.remove(r),
            forall|y: (u128, usize)| old(self)@.count(y) > 0 ==> entry_le(r, y),
    {
        proof {
            broadcast use group_to_multiset_ensures;
        }
        let ghost s0 = self.items@;
        let top = self.items[0];
        proof {
            assert forall|y: (u128, usize)| s0.to_multiset().count(y) > 0 implies entry_le(top, y) by {
                assert(s0.contains(y));
                let i = choose|i: int| 0 <= i < s0.len() && s0[i] == y;
                lemma_root_is_min(s0, i);
            }
            assert(s0.contains(top));
        }
        let last = self.items.len() - 1;
        proof {
            lemma_swap_multiset(s0, 0, last as int);
        }
        let b = self.items[last];
        self.items.set(0, b);
        self.items.set(last, top);
        let ghost swapped = self.items@;
        assert(swapped =~= s0.update(0, s0[last as int]).update(last as int, s0[0]));
        let removed = self.items.pop().unwrap();
        proof {
            assert(self.items@ =~= swapped.drop_last());
            assert(swapped =~= self.items@.push(top));
            assert(swapped.to_multiset() == self.items@.to_multiset().insert(top));
            assert(self.items@.to_multiset() =~= s0.to_multiset().remove(top));
        }
        let n = self.items.len();
        let mut k: usize = 0;
        proof {
            let s = self.items@;
            assert forall|i: int| 0 < i < s.len() && parent(i) != 0 implies entry_le(s[parent(i)], #[trigger] s[i]) by {
                assert(s[i] == s0[i]);
                assert(s[parent(i)] == s0[parent(i)]);
            }
        }
        let mut stop = false;
        while !stop
            invariant
                n == self.items@.len(),
                k <= n,
                k < n || n == 0 || stop,
                !stop ==> ordered_except_down(self.items@, k as int),
                stop ==> heap_ordered(self.items@),
                self.items@.to_multiset() == s0.to_multiset().remove(top),
            decreases n - k + if stop { 0int } else { 1int },
        {
            if n < 2 || k > (n - 2) / 2 {
                proof {
                    let s = self.items@;
                    assert forall|i: int| 0 < i < s.len() implies entry_le(s[parent(i)], #[trigger] s[i]) by {
                        if parent(i) == k {
                            assert(i >= 2 * k + 1);
                        }
                    }
                }
                stop = true;
            } else {
                let l = 2 * k + 1;
                let r = 2 * k + 2;
                let mut c = l;
                if r < n {
                    let x = self.items[l];
                    let y = self.items[r];
                    if (y.0 < x.0) || (y.0 == x.0 && y.1 < x.1) {
                        c = r;
                    }
                }
                let a = self.items[k];
                let b = self.items[c];
                if (a.0 < b.0) || (a.0 == b.0 && a.1 <= b.1) {
                    proof {
                        let s = self.items@;
                        assert(parent(l as int) == k && parent(r as int) == k);
                        assert forall|i: int| 0 < i < s.len() implies entry_le(s[parent(i)], #[trigger] s[i]) by {
                            if parent(i) == k {
                                assert(i == l || i == r);
                            }
                        }
                    }
                    stop = true;
                } else {
                    proof {
                        lemma_swap_multiset(self.items@, k as int, c as int);
                    }
                    let ghost before = self.items@;
                    self.items.set(k, b);
                    self.items.set(c, a);
                    proof {
                        let s = self.items@;
                        assert(s =~= before.update(k as int, before[c as int]).update(c as int, before[k as int]));
                        assert(parent(l as int) == k && parent(r as int) == k);
                        assert forall|i: int| 0 < i < s.len() && parent(i) != c implies entry_le(s[parent(i)], #[trigger] s[i]) by {
                            if i == c {
                            } else if parent(i) == k {
                                assert(i == l || i == r);
                                assert(entry_le(before[c as int], before[i]));
                            } else if i == k {
                                assert(entry_le(before[parent(k as int)], before[c as int]));
                            } else {
                                assert(entry_le(before[parent(i)], before[i]));
                            }
                        }
                        assert forall|i: int| 0 < i < s.len() && parent(i) == c && c > 0 implies entry_le(s[parent(c as int)], #[trigger] s[i]) by {
                            assert(entry_le(before[c as int], before[i]));
                        }
                    }
                    k = c;
                }
            }
        }
        top
    }
}

} // verus!
