//! A fixed-size pool of slot indices: it hands out indices, never memory.

use vstd::prelude::*;
use crate::slots::{
    all_below, holds_index, lemma_distinct_below_len, lemma_give_back, lemma_reuse_returned,
    lemma_use_fresh, slots_in_use,
};

verus! {

/// An allocator of slot indices over an arena of `SIZE` slots.
pub trait PoolAllocator<const SIZE: usize> {
    /// The allocator's internal consistency.
    spec fn wf(&self) -> bool;

    /// The indices that are handed out and not yet given back.
    spec fn allocated(&self) -> Set<usize>;

    /// How many indices are handed out.
    spec fn in_use(&self) -> nat;

    /// The index that the next `insert` hands out.
    spec fn next_index(&self) -> usize;

    /// Hands out an index that is not in use.
    fn insert(&mut self) -> (i: usize)
        requires
            old(self).wf(),
            old(self).in_use() < SIZE,
        ensures
            final(self).wf(),
            i == old(self).next_index(),
            i < SIZE,
            !old(self).allocated().contains(i),
            final(self).allocated() == old(self).allocated().insert(i),
            final(self).in_use() == old(self).in_use() + 1,
    ;

    /// Takes an index back, so that it can be handed out again.
    fn remove(&mut self, i: usize)
        requires
            old(self).wf(),
            old(self).allocated().contains(i),
        ensures
            final(self).wf(),
            final(self).allocated() == old(self).allocated().remove(i),
            final(self).in_use() == old(self).in_use() - 1,
            final(self).next_index() == i,
    ;
}

/// A pool that keeps the returned indices on a stack and hands those out first;
/// when none is left it hands out the next index that was never used.
pub struct StackPoolAllocator<const S: usize> {
    returned_indices: Vec<usize>,
    pool_end: usize,
}

impl<const S: usize> StackPoolAllocator<S> {
    /// The stack of returned indices, the most recently returned last.
    pub closed spec fn returned(&self) -> Seq<usize> {
        self.returned_indices@
    }

    /// The number of indices that were ever handed out fresh.
    pub closed spec fn end(&self) -> usize {
        self.pool_end
    }

    /// Creates a pool with every slot unused.
    pub fn new() -> (pool: Self)
        ensures
            pool.wf(),
            pool.returned() == Seq::<usize>::empty(),
            pool.end() == 0,
            pool.allocated() == Set::<usize>::empty(),
            pool.in_use() == 0,
            pool.next_index() == 0,
    {
        let pool = StackPoolAllocator { returned_indices: Vec::new(), pool_end: 0 };
        proof {
            assert(pool.allocated() =~= Set::<usize>::empty());
        }
        pool
    }

    /// Whether every one of the `S` slots is in use.
    pub fn is_full(&self) -> (full: bool)
        requires
            self.wf(),
        ensures
            full == (self.in_use() == S),
            self.in_use() <= S,
    {
        proof {
            lemma_distinct_below_len(self.returned_indices@, self.pool_end as int);
        }
        self.returned_indices.len() == 0 && self.pool_end == S
    }

    /// Whether `i` is handed out and not yet given back.
    pub fn is_allocated(&self, i: usize) -> (found: bool)
        requires
            self.wf(),
        ensures
            found == self.allocated().contains(i),
    {
        i < self.pool_end && !holds_index(&self.returned_indices, i)
    }
}

impl<const S: usize> PoolAllocator<S> for StackPoolAllocator<S> {
    closed spec fn wf(&self) -> bool {
        &&& self.pool_end <= S
        &&& self.returned_indices@.no_duplicates()
        &&& all_below(self.returned_indices@, self.pool_end as int)
    }

    closed spec fn allocated(&self) -> Set<usize> {
        slots_in_use(self.pool_end, self.returned_indices@)
    }

    closed spec fn in_use(&self) -> nat {
        (self.pool_end - self.returned_indices@.len()) as nat
    }

    closed spec fn next_index(&self) -> usize {
        if self.returned_indices@.len() > 0 {
            self.returned_indices@.last()
        } else {
            self.pool_end
        }
    }

    fn insert(&mut self) -> (i: usize)
        ensures
            i == if old(self).returned().len() > 0 {
                old(self).returned().last()
            } else {
                old(self).end()
            },
            final(self).returned() == if old(self).returned().len() > 0 {
                old(self).returned().drop_last()
            } else {
                old(self).returned()
            },
            final(self).end() == if old(self).returned().len() > 0 {
                old(self).end()
            } else {
                (old(self).end() + 1) as usize
            },
    {
        proof {
            lemma_distinct_below_len(self.returned_indices@, self.pool_end as int);
        }
        let ghost before = self.returned_indices@;
        match self.returned_indices.pop() {
            Some(i) => {
                proof {
                    lemma_reuse_returned(self.pool_end, before, before.len() - 1);
                    assert(self.returned_indices@ =~= before.remove(before.len() - 1));
                }
                i
            },
            None => {
                proof {
                    lemma_use_fresh(self.pool_end, before);
                }
                self.pool_end += 1;
                self.pool_end - 1
            },
        }
    }

    fn remove(&mut self, i: usize)
        ensures
            final(self).returned() == old(self).returned().push(i),
            final(self).end() == old(self).end(),
    {
        let ghost before = self.returned_indices@;
        self.returned_indices.push(i);
        proof {
            lemma_give_back(self.pool_end, before, before.len() as int, i);
            assert(self.returned_indices@ =~= before.insert(before.len() as int, i));
        }
    }
}

} // verus!
