//! Allocation of indices in a large buffer, with the free indices kept in
//! order so that the lowest free index is handed out first and the buffer's
//! head can come down again.

use vstd::prelude::*;
use crate::slots::{
    all_below, holds_index, lemma_distinct_below_len, lemma_give_back, lemma_reuse_returned,
    lemma_use_fresh, slots_in_use,
};

verus! {

/// Every entry is greater than each entry after it.
pub open spec fn strictly_descending(s: Seq<usize>) -> bool {
    forall|a: int, b: int| 0 <= a < b < s.len() ==> s[a] > s[b]
}

/// An allocator of indices into a buffer of `SIZE` entries.
pub trait BufferAllocator<const SIZE: usize> {
    /// The allocator's internal consistency.
    spec fn wf(&self) -> bool;

    /// The indices that are handed out and not yet given back.
    spec fn allocated(&self) -> Set<usize>;

    /// How many indices are handed out.
    spec fn in_use(&self) -> nat;

    /// The index that the next `insert` hands out.
    spec fn next_index(&self) -> usize;

    /// Hands out the lowest free index.
    fn insert(&mut self) -> (i: usize)
        requires
            old(self).wf(),
            old(self).in_use() < SIZE,
        ensures
            final(self).wf(),
            i == old(self).next_index(),
            i < SIZE,
            !old(self).allocated().contains(i),
            forall|j: usize| j < i ==> old(self).allocated().contains(j),
            final(self).allocated() == old(self).allocated().insert(i),
            final(self).in_use() == old(self).in_use() + 1,
    ;

    /// Returns an index to the allocator.
    fn remove(&mut self, index: usize)
        requires
            old(self).wf(),
            old(self).allocated().contains(index),
        ensures
            final(self).wf(),
            final(self).allocated() == old(self).allocated().remove(index),
            final(self).in_use() == old(self).in_use() - 1,
    ;
}

/// An allocator that keeps the returned indices in descending order, hands
/// out the lowest of them first, and lowers the buffer's head when the index
/// just below it comes back.
pub struct StackBufferAllocator<const SIZE: usize> {
    buffer_head: usize,
    returned_indices: Vec<usize>,
}

/// The number of entries of `v` that are greater than `index`, which is the
/// place of `index` in the descending order of `v`.
fn place_in_order(v: &Vec<usize>, index: usize) -> (idx: usize)
    requires
        strictly_descending(v@),
    ensures
        idx <= v@.len(),
        forall|k: int| 0 <= k < idx ==> v@[k] > index,
        forall|k: int| idx <= k < v@.len() ==> v@[k] <= index,
{
    let mut low: usize = 0;
    let mut high: usize = v.len();
    while low < high
        invariant
            low <= high <= v@.len(),
            strictly_descending(v@),
            forall|k: int| 0 <= k < low ==> v@[k] > index,
            forall|k: int| high <= k < v@.len() ==> v@[k] <= index,
        decreases high - low,
    {
        let mid: usize = low + (high - low) / 2;
        if v[mid] > index {
            assert forall|k: int| 0 <= k < mid + 1 implies v@[k] > index by {
                if k < mid {
                    assert(v@[k] > v@[mid as int]);
                }
            }
            low = mid + 1;
        } else {
            assert forall|k: int| mid <= k < v@.len() implies v@[k] <= index by {
                if k > mid {
                    assert(v@[mid as int] > v@[k]);
                }
            }
            high = mid;
        }
    }
    low
}

/// With the head one lower and the returned index just below the old head
/// forgotten, the same indices are in use.
proof fn lemma_lower_head(head: usize, returned: Seq<usize>)
    requires
        returned.len() > 0,
        returned[0] == head - 1,
        strictly_descending(returned),
        all_below(returned, head as int),
    ensures
        strictly_descending(returned.drop_first()),
        all_below(returned.drop_first(), head - 1),
        slots_in_use((head - 1) as usize, returned.drop_first()) =~= slots_in_use(head, returned),
{
    let rest = returned.drop_first();
    let lower = (head - 1) as usize;
    assert forall|k: int| 0 <= k < rest.len() implies #[trigger] rest[k] == returned[k + 1] by {}
    assert forall|k: int| 0 <= k < rest.len() implies (#[trigger] rest[k]) < head - 1 by {
        assert(returned[0] > returned[k + 1]);
    }
    assert forall|j: usize| slots_in_use(lower, rest).contains(j) == slots_in_use(
        head,
        returned,
    ).contains(j) by {
        if returned.contains(j) {
            let k = choose|k: int| 0 <= k < returned.len() && returned[k] == j;
            if k > 0 {
                assert(rest[k - 1] == j);
            }
        }
        if rest.contains(j) {
            let k = choose|k: int| 0 <= k < rest.len() && rest[k] == j;
            assert(returned[k + 1] == j);
        }
        if j == lower {
            assert(returned[0] == j);
        }
    }
}

/// Entries in strictly descending order are pairwise distinct.
proof fn lemma_descending_distinct(s: Seq<usize>)
    requires
        strictly_descending(s),
    ensures
        s.no_duplicates(),
{
    assert forall|a: int, b: int| 0 <= a < s.len() && 0 <= b < s.len() && a != b implies s[a]
        != s[b] by {
        if a < b {
            assert(s[a] > s[b]);
        } else {
            assert(s[b] > s[a]);
        }
    }
}

impl<const SIZE: usize> StackBufferAllocator<SIZE> {
    /// The returned indices, in descending order.
    pub closed spec fn returned(&self) -> Seq<usize> {
        self.returned_indices@
    }

    /// One more than the highest index that is in use or among the returned.
    pub closed spec fn head(&self) -> usize {
        self.buffer_head
    }

    /// Creates an allocator with every index free.
    pub fn new() -> (allocator: Self)
        ensures
            allocator.wf(),
            allocator.returned() == Seq::<usize>::empty(),
            allocator.head() == 0,
            allocator.allocated() == Set::<usize>::empty(),
            allocator.in_use() == 0,
            allocator.next_index() == 0,
    {
        let allocator = StackBufferAllocator { buffer_head: 0, returned_indices: Vec::new() };
        proof {
            assert(allocator.allocated() =~= Set::<usize>::empty());
        }
        allocator
    }

    /// Whether every one of the `SIZE` indices is in use.
    pub fn is_full(&self) -> (full: bool)
        requires
            self.wf(),
        ensures
            full == (self.in_use() == SIZE),
            self.in_use() <= SIZE,
    {
        proof {
            lemma_descending_distinct(self.returned_indices@);
            lemma_distinct_below_len(self.returned_indices@, self.buffer_head as int);
        }
        self.returned_indices.len() == 0 && self.buffer_head == SIZE
    }

    /// Whether `index` is handed out and not yet given back.
    pub fn is_allocated(&self, index: usize) -> (found: bool)
        requires
            self.wf(),
        ensures
            found == self.allocated().contains(index),
    {
        index < self.buffer_head && !holds_index(&self.returned_indices, index)
    }

    /// Shrinks the bookkeeping where that changes nothing for the caller.
    pub fn compact(&mut self)
        requires
            old(self).wf(),
        ensures
            final(self).wf(),
            final(self).allocated() == old(self).allocated(),
            final(self).in_use() == old(self).in_use(),
            final(self).next_index() == old(self).next_index(),
            old(self).head_is_free() ==> final(self).head() == old(self).head() - 1
                && final(self).returned() == old(self).returned().drop_first(),
            !old(self).head_is_free() ==> final(self).head() == old(self).head()
                && final(self).returned() == old(self).returned(),
    {
        self.reduce_head();
    }

    /// Whether the index just below the head is among the returned ones, so
    /// that the head can come down by one.
    pub closed spec fn head_is_free(&self) -> bool {
        self.returned_indices@.len() > 0 && self.returned_indices@[0] == self.buffer_head - 1
    }

    /// Lowers the head by one if the index just below it is free, and forgets
    /// that index.
    pub fn reduce_head(&mut self)
        requires
            old(self).wf(),
        ensures
            final(self).wf(),
            final(self).allocated() == old(self).allocated(),
            final(self).in_use() == old(self).in_use(),
            final(self).next_index() == old(self).next_index(),
            old(self).head_is_free() ==> final(self).head() == old(self).head() - 1
                && final(self).returned() == old(self).returned().drop_first(),
            !old(self).head_is_free() ==> final(self).head() == old(self).head()
                && final(self).returned() == old(self).returned(),
    {
        let ghost returned = self.returned_indices@;
        let ghost head = self.buffer_head;
        let mut partition_point: Option<usize> = None;
        let mut i: usize = self.returned_indices.len();
        while i > 0
            invariant
                i <= returned.len(),
                self.returned_indices@ == returned,
                strictly_descending(returned),
                all_below(returned, head as int),
                partition_point is None ==> self.buffer_head == head,
                partition_point is None ==> forall|k: int|
                    i <= k < returned.len() ==> returned[k] != head - 1,
                partition_point is Some ==> i == 0 && partition_point == Some(0usize)
                    && self.buffer_head == head - 1 && returned.len() > 0 && returned[0] == head
                    - 1,
            decreases i,
        {
            i -= 1;
            assert(returned[i as int] < head);
            if self.returned_indices[i] == (self.buffer_head - 1) {
                proof {
                    if i > 0 {
                        assert(returned[0] > returned[i as int]);
                        assert(returned[0] < head);
                    }
                }
                partition_point = Some(i);
                self.buffer_head -= 1;
            }
        }
        if let Some(i) = partition_point {
            // the head has come down already; the index it now names leaves the free indices
            assert(self.buffer_head == self.returned_indices@[i as int]);
            self.returned_indices.remove(i);
            proof {
                lemma_lower_head(head, returned);
                assert(self.returned_indices@ =~= returned.drop_first());
                if returned.len() > 1 {
                    assert(returned.drop_first().last() == returned.last());
                }
            }
        }
    }
}

impl<const SIZE: usize> BufferAllocator<SIZE> for StackBufferAllocator<SIZE> {
    closed spec fn wf(&self) -> bool {
        &&& self.buffer_head <= SIZE
        &&& strictly_descending(self.returned_indices@)
        &&& all_below(self.returned_indices@, self.buffer_head as int)
    }

    closed spec fn allocated(&self) -> Set<usize> {
        slots_in_use(self.buffer_head, self.returned_indices@)
    }

    closed spec fn in_use(&self) -> nat {
        (self.buffer_head - self.returned_indices@.len()) as nat
    }

    closed spec fn next_index(&self) -> usize {
        if self.returned_indices@.len() > 0 {
            self.returned_indices@.last()
        } else {
            self.buffer_head
        }
    }

    fn insert(&mut self) -> (i: usize)
        ensures
            i == if old(self).returned().len() > 0 {
                old(self).returned().last()
            } else {
                old(self).head()
            },
            final(self).returned() == if old(self).returned().len() > 0 {
                old(self).returned().drop_last()
            } else {
                old(self).returned()
            },
            final(self).head() == if old(self).returned().len() > 0 {
                old(self).head()
            } else {
                (old(self).head() + 1) as usize
            },
    {
        proof {
            lemma_descending_distinct(self.returned_indices@);
            lemma_distinct_below_len(self.returned_indices@, self.buffer_head as int);
        }
        let ghost before = self.returned_indices@;
        match self.returned_indices.pop() {
            Some(i) => {
                proof {
                    lemma_reuse_returned(self.buffer_head, before, before.len() - 1);
                    assert(self.returned_indices@ =~= before.remove(before.len() - 1));
                    assert forall|j: usize| j < i implies slots_in_use(
                        self.buffer_head,
                        before,
                    ).contains(j) by {
                        if before.contains(j) {
                            let k = choose|k: int| 0 <= k < before.len() && before[k] == j;
                            if k < before.len() - 1 {
                                assert(before[k] > before[before.len() - 1]);
                            }
                        }
                    }
                }
                i
            },
            None => {
                proof {
                    lemma_use_fresh(self.buffer_head, before);
                }
                let i = self.buffer_head;
                self.buffer_head += 1;
                i
            },
        }
    }

    fn remove(&mut self, index: usize)
        ensures
            final(self).next_index() == if index < old(self).next_index() {
                index
            } else {
                old(self).next_index()
            },
    {
        let ghost before = self.returned_indices@;
        let ghost head = self.buffer_head;
        proof {
            lemma_descending_distinct(before);
            lemma_distinct_below_len(before, head as int);
        }
        // the place that keeps the returned indices in descending order
        let idx = place_in_order(&self.returned_indices, index);
        proof {
            lemma_give_back(head, before, idx as int, index);
        }
        if index == (self.buffer_head - 1) {
            proof {
                // everything returned is below the index, so it would come first
                assert(idx == 0) by {
                    if idx > 0 {
                        assert(before[0] > index);
                    }
                }
                let more = before.insert(0, index);
                assert forall|a: int, b: int| 0 <= a < b < more.len() implies more[a] > more[b] by {
                    if a > 0 {
                        assert(more[a] == before[a - 1]);
                        assert(more[b] == before[b - 1]);
                    } else {
                        assert(more[b] == before[b - 1]);
                        assert(before[b - 1] <= index);
                        assert(before.contains(before[b - 1]));
                    }
                }
                lemma_lower_head(head, more);
                assert(more.drop_first() =~= before);
            }
            self.buffer_head -= 1;
        } else {
            self.returned_indices.insert(idx, index);
            proof {
                let more = before.insert(idx as int, index);
                assert(self.returned_indices@ =~= more);
                assert forall|a: int, b: int| 0 <= a < b < more.len() implies more[a] > more[b] by {
                    let at = |k: int| if k < idx { before[k] } else { before[k - 1] };
                    if a != idx {
                        assert(more[a] == at(a));
                    }
                    if b != idx {
                        assert(more[b] == at(b));
                    }
                    if b == idx {
                        assert(before[a] > index);
                    } else if a == idx {
                        assert(before[b - 1] <= index);
                        assert(before.contains(before[b - 1]));
                    }
                }
                if idx == before.len() {
                    assert(more.last() == index);
                } else {
                    assert(more.last() == before.last());
                    assert(before.last() <= index);
                    assert(before.contains(before.last()));
                }
            }
        }
        self.compact();
    }
}

} // verus!
