//! Allocation of indices in a large buffer that was reserved once.

use vstd::prelude::*;
use crate::slots::{
    all_below, holds_index, lemma_distinct_below_len, lemma_give_back, lemma_reuse_returned,
    lemma_use_fresh, slots_in_use,
};

verus! {

/// An allocator of indices into a buffer of `SIZE` entries.
pub trait BufferAllocator<const SIZE: usize> {
    /// The allocator's internal consistency.
    spec fn wf(&self) -> bool;

    /// The indices that are handed out and not yet given back.
    spec fn allocated(&self) -> Set<usize>;

    /// How many indices are handed out.
    spec fn in_use(&self) -> nat;

    /// The index that the next `insert` hands out.
    spec fn next_index(&self) -> usize;

    /// Hands out the next free index.
    fn insert(&mut self) -> (i: usize)
        requires
            old(self).wf(),
            old(self).in_use() < SIZE,
        ensures
            final(self).wf(),
            i == old(self).next_index(),
            i < SIZE,
            !old(self).allocated().contains(i),
            final(self).allocated() == old(self).allocated().insert(i),
            final(self).in_use() == old(self).in_use() + 1,
    ;

    /// Returns an index to the allocator.
    fn remove(&mut self, index: usize)
        requires
            old(self).wf(),
            old(self).allocated().contains(index),
        ensures
            final(self).wf(),
            final(self).allocated() == old(self).allocated().remove(index),
            final(self).in_use() == old(self).in_use() - 1,
            final(self).next_index() == index,
    ;
}

/// An allocator that tracks the free indices with a stack: the index
/// returned last is handed out first, and the buffer's head moves up only
/// when no returned index is left.
pub struct StackBufferAllocator<const SIZE: usize> {
    buffer_head: usize,
    returned_indices: Vec<usize>,
}

impl<const SIZE: usize> StackBufferAllocator<SIZE> {
    /// The stack of returned indices, the most recently returned last.
    pub closed spec fn returned(&self) -> Seq<usize> {
        self.returned_indices@
    }

    /// One more than the highest index ever handed out.
    pub closed spec fn head(&self) -> usize {
        self.buffer_head
    }

    /// Creates an allocator with every index free.
    pub fn new() -> (allocator: Self)
        ensures
            allocator.wf(),
            allocator.returned() == Seq::<usize>::empty(),
            allocator.head() == 0,
            allocator.allocated() == Set::<usize>::empty(),
            allocator.in_use() == 0,
            allocator.next_index() == 0,
    {
        let allocator = StackBufferAllocator { buffer_head: 0, returned_indices: Vec::new() };
        proof {
            assert(allocator.allocated() =~= Set::<usize>::empty());
        }
        allocator
    }

    /// Whether every one of the `SIZE` indices is in use.
    pub fn is_full(&self) -> (full: bool)
        requires
            self.wf(),
        ensures
            full == (self.in_use() == SIZE),
            self.in_use() <= SIZE,
    {
        proof {
            lemma_distinct_below_len(self.returned_indices@, self.buffer_head as int);
        }
        self.returned_indices.len() == 0 && self.buffer_head == SIZE
    }

    /// Whether `index` is handed out and not yet given back.
    pub fn is_allocated(&self, index: usize) -> (found: bool)
        requires
            self.wf(),
        ensures
            found == self.allocated().contains(index),
    {
        index < self.buffer_head && !holds_index(&self.returned_indices, index)
    }
}

impl<const SIZE: usize> BufferAllocator<SIZE> for StackBufferAllocator<SIZE> {
    closed spec fn wf(&self) -> bool {
        &&& self.buffer_head <= SIZE
        &&& self.returned_indices@.no_duplicates()
        &&& all_below(self.returned_indices@, self.buffer_head as int)
    }

    closed spec fn allocated(&self) -> Set<usize> {
        slots_in_use(self.buffer_head, self.returned_indices@)
    }

    closed spec fn in_use(&self) -> nat {
        (self.buffer_head - self.returned_indices@.len()) as nat
    }

    closed spec fn next_index(&self) -> usize {
        if self.returned_indices@.len() > 0 {
            self.returned_indices@.last()
        } else {
            self.buffer_head
        }
    }

    fn insert(&mut self) -> (i: usize)
        ensures
            i == if old(self).returned().len() > 0 {
                old(self).returned().last()
            } else {
                old(self).head()
            },
            final(self).returned() == if old(self).returned().len() > 0 {
                old(self).returned().drop_last()
            } else {
                old(self).returned()
            },
            final(self).head() == if old(self).returned().len() > 0 {
                old(self).head()
            } else {
                (old(self).head() + 1) as usize
            },
    {
        proof {
            lemma_distinct_below_len(self.returned_indices@, self.buffer_head as int);
        }
        let ghost before = self.returned_indices@;
        match self.returned_indices.pop() {
            Some(i) => {
                proof {
                    lemma_reuse_returned(self.buffer_head, before, before.len() - 1);
                    assert(self.returned_indices@ =~= before.remove(before.len() - 1));
                }
                i
            },
            None => {
                proof {
                    lemma_use_fresh(self.buffer_head, before);
                }
                let i = self.buffer_head;
                self.buffer_head += 1;
                i
            },
        }
    }

    fn remove(&mut self, index: usize)
        ensures
            final(self).returned() == old(self).returned().push(index),
            final(self).head() == old(self).head(),
    {
        let ghost before = self.returned_indices@;
        self.returned_indices.push(index);
        proof {
            lemma_give_back(self.buffer_head, before, before.len() as int, index);
            assert(self.returned_indices@ =~= before.insert(before.len() as int, index));
        }
    }
}

} // verus!
