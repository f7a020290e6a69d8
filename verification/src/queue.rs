//! The priority queue of candidate merges.

use crate::prim::Prim;
use crate::scalar::Scalar;
use vstd::multiset::Multiset;
use vstd::prelude::*;
use vstd::seq_lib::{to_multiset_build, to_multiset_contains, to_multiset_len, to_multiset_remove, to_multiset_update};

verus! {

/// A priced merge of primitives `a` and `b`. The versions say which state of
/// the two primitives was priced; the shape fitted for the price is kept, so
/// that it need not be fitted again.
#[derive(Clone, Copy, Debug)]
pub struct PqEntry {
    pub cost: Scalar,
    pub a: u32,
    pub b: u32,
    pub va: u64,
    pub vb: u64,
    pub prim: Prim,
    pub volume: Scalar,
    pub weighted_volume: Scalar,
}

/// Candidate merges, cheapest first: a binary heap in a vector.
pub struct MergeQueue {
    heap: Vec<PqEntry>,
}

impl View for MergeQueue {
    type V = Multiset<PqEntry>;

    closed spec fn view(&self) -> Multiset<PqEntry> {
        self.heap@.to_multiset()
    }
}

/// No entry costs less than its parent; `hole` may cost less than its own.
spec fn heap_but_below(s: Seq<PqEntry>, hole: int) -> bool {
    forall|i: int|
        0 < i < s.len() && i != hole ==> s[(i - 1) / 2].cost.spec_key() <= (#[trigger] s[i]).cost.spec_key()
}

/// No entry costs less than its parent, except below `hole`; what is below
/// `hole` does not cost less than the parent of `hole`.
spec fn heap_but_above(s: Seq<PqEntry>, hole: int) -> bool {
    &&& forall|i: int|
        0 < i < s.len() && (i - 1) / 2 != hole ==> s[(i - 1) / 2].cost.spec_key() <= (
        #[trigger] s[i]).cost.spec_key()
    &&& forall|i: int|
        0 < i < s.len() && (i - 1) / 2 == hole && hole > 0 ==> s[(hole - 1) / 2].cost.spec_key() <= (
        #[trigger] s[i]).cost.spec_key()
}

/// What is below `hole` does not cost less than the parent of `hole`.
spec fn bridges(s: Seq<PqEntry>, hole: int) -> bool {
    hole > 0 ==> forall|i: int|
        0 < i < s.len() && (i - 1) / 2 == hole ==> s[(hole - 1) / 2].cost.spec_key() <= (
        #[trigger] s[i]).cost.spec_key()
}

proof fn lemma_root_is_least(s: Seq<PqEntry>, i: int)
    requires
        heap_but_below(s, -1),
        0 <= i < s.len(),
    ensures
        s[0].cost.spec_key() <= s[i].cost.spec_key(),
    decreases i,
{
    if i > 0 {
        lemma_root_is_least(s, (i - 1) / 2);
    }
}

proof fn lemma_swap_multiset(s: Seq<PqEntry>, i: int, j: int)
    requires
        0 <= i < s.len(),
        0 <= j < s.len(),
    ensures
        s.update(i, s[j]).update(j, s[i]).to_multiset() == s.to_multiset(),
{
    let t = s.update(i, s[j]);
    to_multiset_update(s, i, s[j]);
    to_multiset_update(t, j, s[i]);
    to_multiset_contains(s, s[i]);
    to_multiset_contains(s, s[j]);
    if i == j {
        assert(t.update(j, s[i]) =~= s);
    } else {
        assert(t[j] == s[j]);
        assert(s.to_multiset().insert(s[j]).remove(s[i]).insert(s[i]).remove(s[j]) =~= s.to_multiset());
    }
}

impl MergeQueue {
    pub closed spec fn wf(&self) -> bool {
        heap_but_below(self.heap@, -1)
    }

    pub fn new() -> (q: Self)
        ensures
            q.wf(),
            q@ == Multiset::<PqEntry>::empty(),
    {
        let q = MergeQueue { heap: Vec::new() };
        proof {
            to_multiset_len(q.heap@);
            assert(q@.len() == 0);
            assert(q@ =~= Multiset::empty());
        }
        q
    }

    pub fn len(&self) -> (n: usize)
        ensures
            n == self@.len(),
    {
        proof {
            to_multiset_len(self.heap@);
        }
        self.heap.len()
    }

    /// Adds an entry.
    pub fn push(&mut self, e: PqEntry)
        requires
            old(self).wf(),
        ensures
            final(self).wf(),
            final(self)@ == old(self)@.insert(e),
    {
        proof {
            to_multiset_build(self.heap@, e);
        }
        self.heap.push(e);
        let mut hole: usize = self.heap.len() - 1;
        assert(bridges(self.heap@, hole as int));
        while hole > 0 && self.heap[hole].cost.key() < self.heap[(hole - 1) / 2].cost.key()
            invariant
                hole < self.heap@.len(),
                heap_but_below(self.heap@, hole as int),
                bridges(self.heap@, hole as int),
                self@ == old(self)@.insert(e),
            decreases hole,
        {
            let up: usize = (hole - 1) / 2;
            let ghost before = self.heap@;
            self.swap(hole, up);
            proof {
                let s = self.heap@;
                assert forall|i: int| 0 < i < s.len() && i != up implies s[(i - 1) / 2].cost.spec_key() <= (
                #[trigger] s[i]).cost.spec_key() by {
                    let p = (i - 1) / 2;
                    if i == hole {
                    } else if p == hole {
                        assert(before[i] == s[i]);
                        assert(s[p] == before[up as int]);
                    } else if p == up {
                        assert(s[i] == before[i]);
                        assert(before[up as int].cost.spec_key() <= before[i].cost.spec_key());
                    } else {
                        assert(s[i] == before[i]);
                    }
                }
                assert(bridges(s, up as int)) by {
                    if up > 0 {
                        let g = (up - 1) / 2;
                        assert(before[g].cost.spec_key() <= before[up as int].cost.spec_key());
                        assert forall|i: int| 0 < i < s.len() && (i - 1) / 2 == up implies s[g].cost.spec_key()
                            <= (#[trigger] s[i]).cost.spec_key() by {
                            if i != hole {
                                assert(s[i] == before[i]);
                                assert(before[up as int].cost.spec_key() <= before[i].cost.spec_key());
                            }
                        }
                    }
                }
            }
            hole = up;
        }
        proof {
            let s = self.heap@;
            assert forall|i: int| 0 < i < s.len() implies s[(i - 1) / 2].cost.spec_key() <= (
            #[trigger] s[i]).cost.spec_key() by {}
        }
    }

    /// Takes out an entry of least cost; `None` when there is none.
    pub fn pop(&mut self) -> (res: Option<PqEntry>)
        requires
            old(self).wf(),
        ensures
            final(self).wf(),
            match res {
                None => old(self)@.len() == 0 && final(self)@ == old(self)@,
                Some(e) => {
                    &&& old(self)@.contains(e)
                    &&& final(self)@ == old(self)@.remove(e)
                    &&& forall|o: PqEntry| #[trigger]
                        old(self)@.contains(o) ==> e.cost.spec_key() <= o.cost.spec_key()
                },
            },
    {
        let n: usize = self.heap.len();
        proof {
            to_multiset_len(self.heap@);
        }
        if n == 0 {
            return None;
        }
        let ghost first = self.heap@;
        let top: PqEntry = self.heap[0];
        proof {
            assert forall|o: PqEntry| #[trigger] first.to_multiset().contains(o) implies top.cost.spec_key()
                <= o.cost.spec_key() by {
                to_multiset_contains(first, o);
                let i = choose|i: int| 0 <= i < first.len() && first[i] == o;
                lemma_root_is_least(first, i);
            }
            to_multiset_contains(first, top);
            assert(first.contains(top));
        }
        self.swap(0, n - 1);
        let ghost swapped = self.heap@;
        self.heap.pop();
        proof {
            to_multiset_remove(swapped, n - 1);
            assert(swapped.remove(n - 1) =~= self.heap@);
            assert(swapped[n - 1] == top);
            assert(heap_but_above(self.heap@, 0)) by {
                let s = self.heap@;
                assert forall|i: int| 0 < i < s.len() && (i - 1) / 2 != 0 implies s[(i - 1) / 2].cost.spec_key()
                    <= (#[trigger] s[i]).cost.spec_key() by {
                    assert(s[i] == first[i]);
                }
            }
        }
        let m: usize = n - 1;
        let mut hole: usize = 0;
        while hole < m / 2
            invariant
                m == self.heap@.len(),
                heap_but_above(self.heap@, hole as int),
                self@ == old(self)@.remove(top),
            ensures
                heap_but_below(self.heap@, -1),
                self@ == old(self)@.remove(top),
            decreases m - hole,
        {
            let left: usize = 2 * hole + 1;
            let right: usize = left + 1;
            let mut child: usize = left;
            if right < m && self.heap[right].cost.key() < self.heap[left].cost.key() {
                child = right;
            }
            let ghost before = self.heap@;
            if self.heap[hole].cost.key() <= self.heap[child].cost.key() {
                proof {
                    assert forall|i: int| 0 < i < before.len() implies before[(i - 1) / 2].cost.spec_key()
                        <= (#[trigger] before[i]).cost.spec_key() by {
                        if (i - 1) / 2 == hole {
                            assert(i == left || i == right);
                        }
                    }
                }
                break;
            }
            self.swap(hole, child);
            proof {
                let s = self.heap@;
                assert((child - 1) / 2 == hole);
                assert forall|i: int| 0 < i < s.len() && (i - 1) / 2 != child implies s[(i - 1) / 2].cost.spec_key()
                    <= (#[trigger] s[i]).cost.spec_key() by {
                    let p = (i - 1) / 2;
                    if i == child {
                    } else if p == hole {
                        assert(i == left || i == right);
                        assert(s[i] == before[i]);
                    } else if i == hole {
                        assert(before[child as int].cost.spec_key() >= before[p].cost.spec_key());
                    } else {
                        assert(s[i] == before[i]);
                    }
                }
                assert forall|i: int| 0 < i < s.len() && (i - 1) / 2 == child implies s[hole as int].cost.spec_key()
                    <= (#[trigger] s[i]).cost.spec_key() by {
                    assert(s[i] == before[i]);
                    assert(before[child as int].cost.spec_key() <= before[i].cost.spec_key());
                }
            }
            hole = child;
        }
        Some(top)
    }

    fn swap(&mut self, i: usize, j: usize)
        requires
            i < old(self).heap@.len(),
            j < old(self).heap@.len(),
        ensures
            final(self).heap@ == old(self).heap@.update(i as int, old(self).heap@[j as int]).update(
                j as int,
                old(self).heap@[i as int],
            ),
            final(self)@ == old(self)@,
    {
        proof {
            lemma_swap_multiset(self.heap@, i as int, j as int);
        }
        let (x, y): (PqEntry, PqEntry) = (self.heap[i], self.heap[j]);
        self.heap.set(i, y);
        self.heap.set(j, x);
    }
}

} // verus!
