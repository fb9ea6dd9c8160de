//! A sequenced job/result pipeline.
//!
//! Producers submit jobs and each job is tagged with a monotonically
//! increasing sequence number. Workers take jobs in FIFO order, may finish
//! them in any order, and commit each result under its job's sequence
//! number. Consumers retrieve results strictly in sequence order, so
//! results come out in exactly the order the jobs went in, no matter in
//! which order the workers finished them.
//!
//! The crate root holds the FIFO hand-off queue used as a building block;
//! the [`jobqueue`] module holds the sequencing layer on top of it.

use vstd::prelude::*;

pub mod jobqueue;

verus! {

/// A FIFO queue handing elements from producers to consumers.
///
/// Elements come out in exactly the order they were pushed. A consumer
/// must not ask for an element while none is queued: `pop` demands a
/// non-empty queue, since a wait for an element that no caller can still
/// supply would never end.
pub struct BlockingQueue<T> {
    items: Vec<T>,
}

impl<T> View for BlockingQueue<T> {
    type V = Seq<T>;

    closed spec fn view(&self) -> Seq<T> {
        self.items@
    }
}

impl<T> BlockingQueue<T> {
    /// Creates an empty queue.
    pub fn new() -> (q: Self)
        ensures
            q@ == Seq::<T>::empty(),
    {
        BlockingQueue { items: Vec::new() }
    }

    /// Enqueues `e` behind every element pushed before it.
    pub fn push(&mut self, e: T)
        ensures
            final(self)@ == old(self)@.push(e),
    {
        self.items.push(e);
    }

    /// Removes and returns the oldest element still queued.
    pub fn pop(&mut self) -> (e: T)
        requires
            old(self)@.len() > 0,
        ensures
            e == old(self)@[0],
            final(self)@ == old(self)@.remove(0),
    {
        self.items.remove(0)
    }

    /// The number of elements currently queued.
    pub fn len(&self) -> (n: usize)
        ensures
            n == self@.len(),
    {
        self.items.len()
    }
}

} // verus!
