//! A binary min-heap of counted entries, for keeping the highest counts of
//! a long sequence in bounded memory.

use crate::types::StorageKey;
use vstd::prelude::*;
use vstd::seq_lib::{
    to_multiset_build, to_multiset_contains, to_multiset_remove, to_multiset_update,
};

verus! {

/// A key with the number of times that its prefix occurred.
#[derive(Clone, Copy, Debug)]
pub struct Counted {
    pub key: StorageKey,
    pub count: u32,
}

/// The place above `i` in the heap.
pub open spec fn parent(i: int) -> int {
    (i - 1) / 2
}

/// No entry counts less than the entry above it.
pub open spec fn is_min_heap(h: Seq<Counted>) -> bool {
    forall|i: int| 1 <= i < h.len() ==> h[parent(i)].count <= (#[trigger] h[i]).count
}

/// The heap order holds but for the entry at `at`, which may count less
/// than the entry above it.
spec fn heap_but_above(h: Seq<Counted>, at: int) -> bool {
    &&& forall|i: int|
        1 <= i < h.len() && i != at ==> h[parent(i)].count <= (#[trigger] h[i]).count
    &&& forall|i: int|
        1 <= i < h.len() && parent(i) == at && at >= 1 ==> h[parent(at)].count <= (
        #[trigger] h[i]).count
}

/// The heap order holds but for the entry at `at`, which may count more
/// than the entries below it.
spec fn heap_but_below(h: Seq<Counted>, at: int) -> bool {
    &&& forall|i: int|
        1 <= i < h.len() && parent(i) != at ==> h[parent(i)].count <= (#[trigger] h[i]).count
    &&& forall|i: int|
        1 <= i < h.len() && parent(i) == at && at >= 1 ==> h[parent(at)].count <= (
        #[trigger] h[i]).count
}

/// No entry of a heap counts less than its first.
pub proof fn lemma_root_is_least(h: Seq<Counted>, i: int)
    requires
        is_min_heap(h),
        0 <= i < h.len(),
    ensures
        h[0].count <= h[i].count,
    decreases i,
{
    if i > 0 {
        lemma_root_is_least(h, parent(i));
        assert(h[parent(i)].count <= h[i].count);
    }
}

/// Exchanging two entries leaves the entries as a whole as they were.
proof fn lemma_swap_keeps_entries(h: Seq<Counted>, a: int, b: int)
    requires
        0 <= a < h.len(),
        0 <= b < h.len(),
    ensures
        h.update(a, h[b]).update(b, h[a]).to_multiset() == h.to_multiset(),
{
    broadcast use vstd::multiset::group_multiset_axioms;

    let once = h.update(a, h[b]);
    to_multiset_update(h, a, h[b]);
    to_multiset_update(once, b, h[a]);
    to_multiset_contains(h, h[a]);
    to_multiset_contains(h, h[b]);
    assert(h.contains(h[a]) && h.contains(h[b]));
    assert(once[b] == if a == b {
        h[b]
    } else {
        h[b]
    });
    assert(once.update(b, h[a]).to_multiset() =~= h.to_multiset());
}

/// Exchanges the entries at `a` and `b`.
fn swap(h: &mut Vec<Counted>, a: usize, b: usize)
    requires
        a < old(h)@.len(),
        b < old(h)@.len(),
    ensures
        final(h)@ == old(h)@.update(a as int, old(h)@[b as int]).update(
            b as int,
            old(h)@[a as int],
        ),
        final(h)@.len() == old(h)@.len(),
        final(h)@.to_multiset() == old(h)@.to_multiset(),
{
    proof {
        lemma_swap_keeps_entries(h@, a as int, b as int);
    }
    let x = h[a];
    let y = h[b];
    h.set(a, y);
    h.set(b, x);
}

/// Moves the entry at `start` up until the heap order holds.
fn sift_up(h: &mut Vec<Counted>, start: usize)
    requires
        start < old(h)@.len(),
        heap_but_above(old(h)@, start as int),
    ensures
        is_min_heap(final(h)@),
        final(h)@.len() == old(h)@.len(),
        final(h)@.to_multiset() == old(h)@.to_multiset(),
{
    let mut at = start;
    while at > 0 && h[(at - 1) / 2].count > h[at].count
        invariant
            at < h@.len(),
            h@.len() == old(h)@.len(),
            h@.to_multiset() == old(h)@.to_multiset(),
            heap_but_above(h@, at as int),
        decreases at,
    {
        let above = (at - 1) / 2;
        let ghost before = h@;
        swap(h, at, above);
        proof {
            let after = h@;
            assert forall|i: int| 1 <= i < after.len() && i != above implies after[parent(
                i,
            )].count <= (#[trigger] after[i]).count by {
                if i == at {
                } else if parent(i) == above {
                    assert(before[parent(i)].count <= before[i].count);
                } else if parent(i) == at {
                    assert(before[parent(at as int)].count <= before[i].count);
                } else {
                    assert(before[parent(i)].count <= before[i].count);
                }
            }
            assert forall|i: int|
                1 <= i < after.len() && parent(i) == above && above >= 1 implies after[parent(
                above as int,
            )].count <= (#[trigger] after[i]).count by {
                assert(before[parent(above as int)].count <= before[above as int].count);
                if i != at {
                    assert(before[parent(i)].count <= before[i].count);
                }
            }
        }
        at = above;
    }
}

/// Moves the entry at `start` down until the heap order holds.
fn sift_down(h: &mut Vec<Counted>, start: usize)
    requires
        start < old(h)@.len(),
        heap_but_below(old(h)@, start as int),
    ensures
        is_min_heap(final(h)@),
        final(h)@.len() == old(h)@.len(),
        final(h)@.to_multiset() == old(h)@.to_multiset(),
{
    let len = h.len();
    let mut at = start;
    loop
        invariant
            len == h@.len(),
            at < len,
            h@.len() == old(h)@.len(),
            h@.to_multiset() == old(h)@.to_multiset(),
            heap_but_below(h@, at as int),
        ensures
            is_min_heap(h@),
            h@.len() == old(h)@.len(),
            h@.to_multiset() == old(h)@.to_multiset(),
        decreases len - at,
    {
        if len < 2 || at > (len - 2) / 2 {
            proof {
                assert forall|i: int| 1 <= i < h@.len() implies h@[parent(i)].count <= (
                #[trigger] h@[i]).count by {
                    assert(parent(i) != at);
                }
            }
            break;
        }
        let left = 2 * at + 1;
        let right = left + 1;
        let mut least = at;
        if h[left].count < h[least].count {
            least = left;
        }
        if right < len && h[right].count < h[least].count {
            least = right;
        }
        if least == at {
            proof {
                assert forall|i: int| 1 <= i < h@.len() implies h@[parent(i)].count <= (
                #[trigger] h@[i]).count by {
                    if parent(i) == at {
                        assert(i == left || i == right);
                    }
                }
            }
            break;
        }
        let ghost before = h@;
        swap(h, at, least);
        proof {
            let after = h@;
            assert forall|i: int| 1 <= i < after.len() && parent(i) != least implies after[parent(
                i,
            )].count <= (#[trigger] after[i]).count by {
                if i == least {
                } else if parent(i) == at {
                    assert(i == left || i == right);
                } else if i == at {
                    assert(before[parent(at as int)].count <= before[least as int].count);
                } else {
                    assert(before[parent(i)].count <= before[i].count);
                }
            }
            assert forall|i: int|
                1 <= i < after.len() && parent(i) == least && least >= 1 implies after[parent(
                least as int,
            )].count <= (#[trigger] after[i]).count by {
                assert(before[parent(i)].count <= before[i].count);
            }
        }
        at = least;
    }
}

/// Puts `e` into the heap.
fn push(h: &mut Vec<Counted>, e: Counted)
    requires
        is_min_heap(old(h)@),
    ensures
        is_min_heap(final(h)@),
        final(h)@.len() == old(h)@.len() + 1,
        final(h)@.to_multiset() == old(h)@.to_multiset().insert(e),
{
    proof {
        to_multiset_build(h@, e);
    }
    h.push(e);
    let last = h.len() - 1;
    proof {
        assert forall|i: int| 1 <= i < h@.len() && i != last implies h@[parent(i)].count <= (
        #[trigger] h@[i]).count by {
            assert(h@[i] == old(h)@[i]);
            assert(h@[parent(i)] == old(h)@[parent(i)]);
            assert(old(h)@[parent(i)].count <= old(h)@[i].count);
        }
    }
    sift_up(h, last);
}

/// Puts `e` in the place of the first entry of the heap, which counts
/// least.
fn replace_least(h: &mut Vec<Counted>, e: Counted)
    requires
        old(h)@.len() > 0,
        is_min_heap(old(h)@),
    ensures
        is_min_heap(final(h)@),
        final(h)@.len() == old(h)@.len(),
        final(h)@.to_multiset() == old(h)@.to_multiset().insert(e).remove(old(h)@[0]),
{
    proof {
        to_multiset_update(h@, 0, e);
    }
    h.set(0, e);
    proof {
        assert forall|i: int| 1 <= i < h@.len() && parent(i) != 0 implies h@[parent(i)].count <= (
        #[trigger] h@[i]).count by {
            assert(h@[i] == old(h)@[i]);
            assert(h@[parent(i)] == old(h)@[parent(i)]);
            assert(old(h)@[parent(i)].count <= old(h)@[i].count);
        }
    }
    sift_down(h, 0);
}

/// Takes the first entry, which counts least, out of the heap.
fn pop_least(h: &mut Vec<Counted>) -> (e: Counted)
    requires
        old(h)@.len() > 0,
        is_min_heap(old(h)@),
    ensures
        e == old(h)@[0],
        is_min_heap(final(h)@),
        final(h)@.len() == old(h)@.len() - 1,
        final(h)@.to_multiset() == old(h)@.to_multiset().remove(e),
{
    let last = h.len() - 1;
    swap(h, 0, last);
    let ghost swapped = h@;
    let e = h.pop().unwrap();
    proof {
        assert(h@ == swapped.remove(last as int));
        to_multiset_remove(swapped, last as int);
        assert(swapped[last as int] == old(h)@[0]);
    }
    if h.len() > 0 {
        proof {
            assert forall|i: int| 1 <= i < h@.len() && parent(i) != 0 implies h@[parent(i)].count
                <= (#[trigger] h@[i]).count by {
                assert(h@[i] == old(h)@[i]);
                assert(h@[parent(i)] == old(h)@[parent(i)]);
                assert(old(h)@[parent(i)].count <= old(h)@[i].count);
            }
        }
        sift_down(h, 0);
    }
    e
}

/// A min-heap of counted entries: the entry that counts least is at hand.
pub struct MinHeap {
    entries: Vec<Counted>,
}

impl MinHeap {
    /// The entries in the order in which the heap holds them; the first
    /// counts least.
    pub closed spec fn items(&self) -> Seq<Counted> {
        self.entries@
    }

    /// The entries are in heap order.
    pub closed spec fn wf(&self) -> bool {
        is_min_heap(self.entries@)
    }

    /// No entry of the heap counts less than its first.
    pub proof fn lemma_first_is_least(&self, i: int)
        requires
            self.wf(),
            0 <= i < self.items().len(),
        ensures
            self.items()[0].count <= self.items()[i].count,
    {
        lemma_root_is_least(self.entries@, i);
    }

    /// A heap without entries.
    pub fn new() -> (r: MinHeap)
        ensures
            r.wf(),
            r.items().len() == 0,
    {
        MinHeap { entries: Vec::new() }
    }

    /// The number of entries.
    pub fn len(&self) -> (r: usize)
        ensures
            r == self.items().len(),
    {
        self.entries.len()
    }

    /// The entry that counts least, if there is any.
    pub fn least(&self) -> (r: Option<Counted>)
        ensures
            match r {
                Some(e) => self.items().len() > 0 && e == self.items()[0],
                None => self.items().len() == 0,
            },
    {
        if self.entries.len() > 0 {
            Some(self.entries[0])
        } else {
            None
        }
    }

    /// Puts `e` into the heap.
    pub fn push(&mut self, e: Counted)
        requires
            old(self).wf(),
        ensures
            final(self).wf(),
            final(self).items().len() == old(self).items().len() + 1,
            final(self).items().to_multiset() == old(self).items().to_multiset().insert(e),
    {
        push(&mut self.entries, e);
    }

    /// Puts `e` in the place of the entry that counts least.
    pub fn replace_least(&mut self, e: Counted)
        requires
            old(self).wf(),
            old(self).items().len() > 0,
        ensures
            final(self).wf(),
            final(self).items().len() == old(self).items().len(),
            final(self).items().to_multiset() == old(self).items().to_multiset().insert(e).remove(
                old(self).items()[0],
            ),
    {
        replace_least(&mut self.entries, e);
    }

    /// Takes the entry that counts least out of the heap; nothing where the
    /// heap is empty.
    pub fn pop_least(&mut self) -> (r: Option<Counted>)
        requires
            old(self).wf(),
        ensures
            final(self).wf(),
            match r {
                Some(e) => {
                    &&& old(self).items().len() > 0
                    &&& e == old(self).items()[0]
                    &&& final(self).items().len() == old(self).items().len() - 1
                    &&& final(self).items().to_multiset() == old(self).items().to_multiset().remove(
                        e,
                    )
                },
                None => old(self).items().len() == 0 && final(self).items().len() == 0,
            },
    {
        if self.entries.len() > 0 {
            Some(pop_least(&mut self.entries))
        } else {
            None
        }
    }
}

} // verus!
