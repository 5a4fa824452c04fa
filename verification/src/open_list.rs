//! The open list of the path search: a binary min-heap of `(key, cell)` entries,
//! seen from outside as the multiset of its entries.
use vstd::multiset::Multiset;
use vstd::prelude::*;

verus! {

broadcast use {vstd::multiset::group_multiset_axioms, vstd::seq_lib::group_to_multiset_ensures};

/// An entry of the open list: its key and its cell.
pub type Entry = (u128, (i32, i32));

/// The index of the parent of the heap slot `i`.
pub open spec fn parent(i: int) -> int {
    (i - 1) / 2
}

/// Every entry but the first has a key no smaller than its parent's.
pub open spec fn heap_ok(s: Seq<Entry>) -> bool {
    forall|i: int| 0 < i < s.len() ==> s[parent(i)].0 <= #[trigger] s[i].0
}

/// A min-heap of entries ordered by key.
pub struct OpenList {
    entries: Vec<Entry>,
}

impl View for OpenList {
    type V = Multiset<Entry>;

    closed spec fn view(&self) -> Multiset<Entry> {
        self.entries@.to_multiset()
    }
}

/// The first slot of a heap holds a smallest key.
proof fn lemma_root_min(s: Seq<Entry>, k: int)
    requires
        heap_ok(s),
        0 <= k < s.len(),
    ensures
        s[0].0 <= s[k].0,
    decreases k,
{
    if k > 0 {
        lemma_root_min(s, parent(k));
    }
}

/// Swapping two slots keeps the multiset of entries.
proof fn lemma_swap_multiset(s: Seq<Entry>, i: int, j: int)
    requires
        0 <= i < s.len(),
        0 <= j < s.len(),
    ensures
        s.update(i, s[j]).update(j, s[i]).to_multiset() == s.to_multiset(),
{
    let t = s.update(i, s[j]);
    vstd::seq_lib::to_multiset_update(s, i, s[j]);
    vstd::seq_lib::to_multiset_update(t, j, s[i]);
    assert(s.to_multiset().contains(s[i]));
    assert(s.to_multiset().contains(s[j]));
    assert(t.update(j, s[i]).to_multiset() =~= s.to_multiset());
}

impl OpenList {
    pub closed spec fn wf(&self) -> bool {
        heap_ok(self.entries@)
    }

    pub fn new() -> (r: Self)
        ensures
            r.wf(),
            r@ == Multiset::<Entry>::empty(),
    {
        let r = OpenList { entries: Vec::new() };
        assert(r.entries@.to_multiset() =~= Multiset::<Entry>::empty());
        r
    }

    pub fn len(&self) -> (n: usize)
        ensures
            n == self@.len(),
    {
        self.entries.len()
    }

    /// Adds an entry.
    pub fn push(&mut self, e: Entry)
        requires
            old(self).wf(),
        ensures
            final(self).wf(),
            final(self)@ == old(self)@.insert(e),
    {
        let ghost m = self.entries@.to_multiset().insert(e);
        self.entries.push(e);
        let mut i: usize = self.entries.len() - 1;
        while i > 0
            invariant_except_break
                i > 0 ==> forall|c: int|
                    0 < c < self.entries@.len() && parent(c) == i ==> self.entries@[parent(i as int)].0
                        <= #[trigger] self.entries@[c].0,
            invariant
                0 <= i < self.entries@.len(),
                self.entries@.to_multiset() == m,
                forall|j: int|
                    0 < j < self.entries@.len() && j != i ==> self.entries@[parent(j)].0
                        <= #[trigger] self.entries@[j].0,
            ensures
                heap_ok(self.entries@),
                self.entries@.to_multiset() == m,
            decreases i,
        {
            let p = (i - 1) / 2;
            if self.entries[p].0 <= self.entries[i].0 {
                break;
            }
            let ghost s = self.entries@;
            let a = self.entries[i];
            let b = self.entries[p];
            self.entries.set(i, b);
            self.entries.set(p, a);
            proof {
                assert(self.entries@ == s.update(i as int, s[p as int]).update(p as int, s[i as int]));
                lemma_swap_multiset(s, i as int, p as int);
                assert forall|c: int|
                    0 < c < self.entries@.len() && c != p implies self.entries@[parent(c)].0
                    <= #[trigger] self.entries@[c].0 by {
                    if parent(c) == p {
                        if c != i {
                            assert(s[parent(c)].0 <= s[c].0);
                        }
                    } else if parent(c) == i {
                        assert(s[c].0 >= s[parent(i as int)].0);
                    } else if c == i {
                    } else {
                        assert(s[parent(c)].0 <= s[c].0);
                    }
                }
                if p > 0 {
                    assert forall|c: int|
                        0 < c < self.entries@.len() && parent(c) == p implies self.entries@[parent(p as int)].0
                        <= #[trigger] self.entries@[c].0 by {
                        assert(s[parent(p as int)].0 <= s[p as int].0);
                        if c != i {
                            assert(s[parent(c)].0 <= s[c].0);
                        }
                    }
                }
            }
            i = p;
        }
    }

    /// Takes out an entry with the smallest key.
    pub fn pop_min(&mut self) -> (e: Entry)
        requires
            old(self).wf(),
            old(self)@.len() > 0,
        ensures
            final(self).wf(),
            old(self)@.contains(e),
            final(self)@ == old(self)@.remove(e),
            forall|x: Entry| #[trigger] old(self)@.contains(x) ==> e.0 <= x.0,
    {
        let ghost s0 = self.entries@;
        let top = self.entries[0];
        proof {
            assert forall|x: Entry| #[trigger] s0.to_multiset().contains(x) implies top.0 <= x.0 by {
                let k = choose|k: int| 0 <= k < s0.len() && s0[k] == x;
                lemma_root_min(s0, k);
            }
            assert(s0.contains(s0[0]));
        }
        let n = self.entries.len();
        let last = match self.entries.pop() {
            Some(x) => x,
            None => top,
        };
        proof {
            assert(s0.remove(n - 1) =~= self.entries@);
        }
        if n == 1 {
            return top;
        }
        let ghost m = s0.to_multiset().remove(top);
        proof {
            let s1 = self.entries@;
            vstd::seq_lib::to_multiset_update(s1, 0, last);
            assert(s0[n - 1] == last);
            assert(s1.to_multiset().insert(last).remove(s1[0]) =~= m);
        }
        self.entries.set(0, last);
        let len = self.entries.len();
        let mut i: usize = 0;
        loop
            invariant
                len == self.entries@.len(),
                0 <= i < len,
                self.entries@.to_multiset() == m,
                forall|j: int|
                    0 < j < len && parent(j) != i ==> self.entries@[parent(j)].0 <= #[trigger] self.entries@[j].0,
                i > 0 ==> forall|c: int|
                    0 < c < len && parent(c) == i ==> self.entries@[parent(i as int)].0
                        <= #[trigger] self.entries@[c].0,
            ensures
                heap_ok(self.entries@),
                self.entries@.to_multiset() == m,
            decreases len - i,
        {
            if i >= len / 2 {
                break;
            }
            let l = 2 * i + 1;
            let r = l + 1;
            let c = if r < len && self.entries[r].0 < self.entries[l].0 {
                r
            } else {
                l
            };
            if self.entries[i].0 <= self.entries[c].0 {
                proof {
                    assert(parent(l as int) == i);
                    assert(parent(r as int) == i);
                }
                break;
            }
            let ghost s = self.entries@;
            let a = self.entries[i];
            let b = self.entries[c];
            self.entries.set(i, b);
            self.entries.set(c, a);
            proof {
                assert(parent(l as int) == i);
                assert(parent(r as int) == i);
                assert(self.entries@ == s.update(i as int, s[c as int]).update(c as int, s[i as int]));
                lemma_swap_multiset(s, i as int, c as int);
                assert forall|j: int|
                    0 < j < len && parent(j) != c implies self.entries@[parent(j)].0
                    <= #[trigger] self.entries@[j].0 by {
                    if parent(j) == i {
                        assert(j == l || j == r);
                    } else if j == i {
                        assert(s[parent(i as int)].0 <= s[c as int].0);
                    } else if j == c {
                    } else {
                        assert(s[parent(j)].0 <= s[j].0);
                    }
                }
                assert forall|k: int|
                    0 < k < len && parent(k) == c implies self.entries@[parent(c as int)].0
                    <= #[trigger] self.entries@[k].0 by {
                    assert(parent(c as int) == i);
                    assert(s[parent(k)].0 <= s[k].0);
                }
            }
            i = c;
        }
        top
    }
}

} // verus!
