//! The sequencing layer: jobs go in tagged with sequence numbers, results
//! come out in exactly that sequence, whatever order workers finish in.

use vstd::prelude::*;
use std::collections::HashMap;
use crate::BlockingQueue;

verus! {

broadcast use vstd::std_specs::hash::group_hash_axioms;

/// The capability a worker receives when it takes a job: the payload
/// together with the sequence number under which the eventual result
/// must be filed. Committing consumes the handle, so each sequence
/// number receives at most one result.
pub struct JobHandler<J> {
    /// The job payload to process.
    pub job: J,
    index: usize,
}

impl<J> JobHandler<J> {
    /// The sequence number this handle commits its result under.
    pub closed spec fn seq_no(&self) -> usize {
        self.index
    }

    /// The payload carried by this handle; equals the `job` field.
    pub closed spec fn payload(&self) -> J {
        self.job
    }

    /// Files `result` in the queue's result table under this handle's
    /// sequence number and consumes the handle, so no second result can
    /// ever be filed under the same number. Consumers waiting on other
    /// sequence numbers are unaffected: the table changes at this one key
    /// alone.
    pub fn commit<R>(self, q: &mut StableJobResultQueue<J, R>, result: R)
        requires
            old(q).wf(),
            old(q).valid_handle(self),
        ensures
            final(q).wf(),
            final(q).committed() == old(q).committed().insert(self.seq_no(), result),
            final(q).table() == old(q).table().insert(self.seq_no(), result),
            final(q).pushed() == old(q).pushed(),
            final(q).consumed() == old(q).consumed(),
            final(q).pending() == old(q).pending(),
            final(q).submitted() == old(q).submitted(),
            final(q).delivered() == old(q).delivered(),
            forall|h2: JobHandler<J>|
                old(q).valid_handle(h2) && h2.seq_no() != self.seq_no()
                    ==> final(q).valid_handle(h2),
    {
        let ghost pre = *old(q);
        q.committed = Ghost(q.committed@.insert(self.index, result));
        q.result_table.insert(self.index, result);
        proof {
            let post = *q;
            let k = self.seq_no();
            // an uncommitted number cannot have been consumed yet
            assert(!pre.committed().contains_key(k));
            assert(k > pre.consumed());
            assert forall|k2: usize|
                #[trigger] post.committed().contains_key(k2) implies 1 <= k2
                <= post.pushed() by {
                if k2 != k {
                    assert(pre.committed().contains_key(k2));
                }
            }
            assert forall|k2: usize|
                1 <= k2 <= post.consumed() implies #[trigger] post.committed().contains_key(
                k2) by {
                assert(pre.committed().contains_key(k2));
            }
            assert forall|k2: usize|
                (#[trigger] post.table().contains_key(k2) <==> (post.committed().contains_key(k2)
                    && k2 > post.consumed())) by {
                if k2 != k {
                    assert(pre.table().contains_key(k2) <==> (pre.committed().contains_key(k2)
                        && k2 > pre.consumed()));
                }
            }
            assert forall|k2: usize|
                #[trigger] post.table().contains_key(k2) implies post.table()[k2]
                == post.committed()[k2] by {
                if k2 != k {
                    assert(pre.table().contains_key(k2));
                    assert(pre.table()[k2] == pre.committed()[k2]);
                }
            }
            assert forall|i: int|
                0 <= i < post.delivered().len() implies #[trigger] post.delivered()[i]
                == post.committed()[(i + 1) as usize] by {
                assert(pre.delivered()[i] == pre.committed()[(i + 1) as usize]);
                assert(pre.committed().contains_key((i + 1) as usize));
            }
            assert forall|i: int| 0 <= i < post.pending().len() implies {
                let e = #[trigger] post.pending()[i];
                &&& post.consumed() < e.0 <= post.pushed()
                &&& !post.committed().contains_key(e.0)
                &&& e.1 == post.submitted()[e.0 - 1]
            } by {
                let e = pre.pending()[i];
                assert(pre.consumed() < e.0 <= pre.pushed());
                assert(!pre.committed().contains_key(e.0));
                assert(e.0 != k);
            }
            assert forall|i: int, j2: int|
                0 <= i < j2 < post.pending().len() implies (#[trigger] post.pending()[i]).0 < (
            #[trigger] post.pending()[j2]).0 by {
                assert((pre.pending()[i]).0 < (pre.pending()[j2]).0);
            }
        }
    }
}

/// The ordering engine: a FIFO queue of tagged jobs, a table of committed
/// results keyed by sequence number, and two counters. The push counter
/// assigns the next sequence number (1-based, strictly increasing, no
/// reuse); the pop counter assigns each result consumer the next expected
/// sequence number, so results are delivered in exactly submission order.
pub struct StableJobResultQueue<J, R> {
    job_queue: BlockingQueue<(usize, J)>,
    result_table: HashMap<usize, R>,
    counter_push: usize,
    counter_pop: usize,
    submitted: Ghost<Seq<J>>,
    committed: Ghost<Map<usize, R>>,
    delivered: Ghost<Seq<R>>,
}

impl<J, R> StableJobResultQueue<J, R> {
    /// How many jobs have been submitted; also the highest sequence
    /// number assigned so far.
    pub closed spec fn pushed(&self) -> int {
        self.counter_push as int
    }

    /// How many results have been consumed; also the highest sequence
    /// number whose result has been delivered.
    pub closed spec fn consumed(&self) -> int {
        self.counter_pop as int
    }

    /// The jobs waiting to be taken by a worker, oldest first, each
    /// tagged with its sequence number.
    pub closed spec fn pending(&self) -> Seq<(usize, J)> {
        self.job_queue@
    }

    /// The committed results not yet consumed, keyed by sequence number.
    pub closed spec fn table(&self) -> Map<usize, R> {
        self.result_table@
    }

    /// Every job payload ever submitted, in submission order; the job
    /// with sequence number `k` is `submitted()[k - 1]`.
    pub closed spec fn submitted(&self) -> Seq<J> {
        self.submitted@
    }

    /// Every result ever committed, keyed by sequence number. Unlike
    /// `table()`, consuming a result does not remove it here.
    pub closed spec fn committed(&self) -> Map<usize, R> {
        self.committed@
    }

    /// The results handed out so far, in delivery order.
    pub closed spec fn delivered(&self) -> Seq<R> {
        self.delivered@
    }

    /// Well-formedness: the invariant every operation preserves.
    pub open spec fn wf(&self) -> bool {
        &&& 0 <= self.consumed() <= self.pushed()
        &&& self.submitted().len() == self.pushed()
        // pending jobs sit in submission order: tags strictly increase
        &&& forall|i: int, j: int|
            0 <= i < j < self.pending().len()
                ==> (#[trigger] self.pending()[i]).0 < (#[trigger] self.pending()[j]).0
        // a pending job's tag is an assigned number, not yet consumed nor
        // committed, and its payload is the one submitted under that tag
        &&& forall|i: int|
            0 <= i < self.pending().len() ==> {
                let e = #[trigger] self.pending()[i];
                &&& self.consumed() < e.0 <= self.pushed()
                &&& !self.committed().contains_key(e.0)
                &&& e.1 == self.submitted()[e.0 - 1]
            }
        // only assigned sequence numbers ever receive a result
        &&& forall|k: usize| #[trigger] self.committed().contains_key(k) ==> 1 <= k <= self.pushed()
        // every consumed sequence number had a result committed
        &&& forall|k: usize| 1 <= k <= self.consumed() ==> #[trigger] self.committed().contains_key(k)
        // the table holds exactly the committed, not-yet-consumed results;
        // a consumed entry never reappears
        &&& forall|k: usize|
            #[trigger] self.table().contains_key(k)
                <==> (self.committed().contains_key(k) && k > self.consumed())
        &&& forall|k: usize|
            #[trigger] self.table().contains_key(k) ==> self.table()[k] == self.committed()[k]
        // results have been delivered in exactly sequence order
        &&& self.delivered().len() == self.consumed()
        &&& forall|i: int|
            0 <= i < self.delivered().len()
                ==> #[trigger] self.delivered()[i] == self.committed()[(i + 1) as usize]
    }

    /// The sequence number the next result consumer waits for.
    pub open spec fn next_expected(&self) -> usize
        recommends
            self.consumed() < usize::MAX,
    {
        (self.consumed() + 1) as usize
    }

    /// The handle was issued for an assigned sequence number whose job is
    /// no longer pending and whose result is not yet committed, and it
    /// carries the payload submitted under that number.
    pub open spec fn valid_handle(&self, h: JobHandler<J>) -> bool {
        &&& 1 <= h.seq_no() <= self.pushed()
        &&& !self.committed().contains_key(h.seq_no())
        &&& forall|i: int|
            0 <= i < self.pending().len() ==> (#[trigger] self.pending()[i]).0 != h.seq_no()
        &&& h.payload() == self.submitted()[h.seq_no() - 1]
    }

    /// Creates an empty queue: nothing submitted, nothing committed,
    /// nothing consumed.
    pub fn new() -> (q: Self)
        ensures
            q.wf(),
            q.pushed() == 0,
            q.consumed() == 0,
            q.pending() == Seq::<(usize, J)>::empty(),
            q.submitted() == Seq::<J>::empty(),
            q.committed() == Map::<usize, R>::empty(),
            q.table() == Map::<usize, R>::empty(),
            q.delivered() == Seq::<R>::empty(),
    {
        StableJobResultQueue {
            job_queue: BlockingQueue::new(),
            result_table: HashMap::new(),
            counter_push: 0,
            counter_pop: 0,
            submitted: Ghost(Seq::empty()),
            committed: Ghost(Map::empty()),
            delivered: Ghost(Seq::empty()),
        }
    }

    /// The parts of well-formedness that do not mention the pending jobs
    /// carry over unchanged from `pre` to `post` when the result table,
    /// the commit history, the delivery history and the pop counter are
    /// unchanged and the push counter has not shrunk.
    proof fn lemma_stable_parts(pre: Self, post: Self)
        requires
            pre.wf(),
            post.committed() == pre.committed(),
            post.table() == pre.table(),
            post.delivered() == pre.delivered(),
            post.consumed() == pre.consumed(),
            pre.pushed() <= post.pushed(),
        ensures
            forall|k: usize|
                #[trigger] post.committed().contains_key(k) ==> 1 <= k <= post.pushed(),
            forall|k: usize|
                1 <= k <= post.consumed() ==> #[trigger] post.committed().contains_key(k),
            forall|k: usize|
                #[trigger] post.table().contains_key(k) <==> (post.committed().contains_key(k)
                    && k > post.consumed()),
            forall|k: usize|
                #[trigger] post.table().contains_key(k) ==> post.table()[k]
                    == post.committed()[k],
            post.delivered().len() == post.consumed(),
            forall|i: int|
                0 <= i < post.delivered().len() ==> #[trigger] post.delivered()[i]
                    == post.committed()[(i + 1) as usize],
    {
        assert forall|k: usize|
            #[trigger] post.committed().contains_key(k) implies 1 <= k <= post.pushed() by {
            assert(pre.committed().contains_key(k));
        }
        assert forall|k: usize|
            1 <= k <= post.consumed() implies #[trigger] post.committed().contains_key(k) by {
            assert(pre.committed().contains_key(k));
        }
        assert forall|k: usize|
            (#[trigger] post.table().contains_key(k) <==> (post.committed().contains_key(k)
                && k > post.consumed())) by {
            assert(pre.table().contains_key(k) <==> (pre.committed().contains_key(k) && k
                > pre.consumed()));
        }
        assert forall|k: usize|
            #[trigger] post.table().contains_key(k) implies post.table()[k]
            == post.committed()[k] by {
            assert(pre.table().contains_key(k));
            assert(pre.table()[k] == pre.committed()[k]);
        }
        assert forall|i: int|
            0 <= i < post.delivered().len() implies #[trigger] post.delivered()[i]
            == post.committed()[(i + 1) as usize] by {
            assert(pre.delivered()[i] == pre.committed()[(i + 1) as usize]);
        }
    }

    /// Submits a job: assigns it the next sequence number — one past the
    /// number of jobs submitted before it, so N submissions from an empty
    /// queue use exactly the numbers 1 through N, no duplicate, no gap —
    /// and enqueues it behind every job submitted earlier.
    pub fn push_job(&mut self, j: J)
        requires
            old(self).wf(),
            old(self).pushed() < usize::MAX,
        ensures
            final(self).wf(),
            final(self).pushed() == old(self).pushed() + 1,
            final(self).submitted() == old(self).submitted().push(j),
            final(self).pending() == old(self).pending().push(
                (((old(self).pushed() + 1) as usize), j),
            ),
            final(self).consumed() == old(self).consumed(),
            final(self).committed() == old(self).committed(),
            final(self).table() == old(self).table(),
            final(self).delivered() == old(self).delivered(),
            forall|h: JobHandler<J>|
                old(self).valid_handle(h) ==> final(self).valid_handle(h),
    {
        let ghost pre = *old(self);
        self.counter_push = self.counter_push + 1;
        self.submitted = Ghost(self.submitted@.push(j));
        self.job_queue.push((self.counter_push, j));
        proof {
            let post = *self;
            assert forall|i: int, j2: int|
                0 <= i < j2 < post.pending().len() implies (#[trigger] post.pending()[i]).0 < (
            #[trigger] post.pending()[j2]).0 by {
                if j2 < pre.pending().len() {
                    assert((pre.pending()[i]).0 < (pre.pending()[j2]).0);
                } else {
                    assert(post.pending()[i] == pre.pending()[i]);
                    assert(pre.consumed() < (pre.pending()[i]).0 <= pre.pushed());
                }
            }
            assert forall|i: int| 0 <= i < post.pending().len() implies {
                let e = #[trigger] post.pending()[i];
                &&& post.consumed() < e.0 <= post.pushed()
                &&& !post.committed().contains_key(e.0)
                &&& e.1 == post.submitted()[e.0 - 1]
            } by {
                if i < pre.pending().len() {
                    assert(post.pending()[i] == pre.pending()[i]);
                    let e = pre.pending()[i];
                    assert(pre.consumed() < e.0 <= pre.pushed());
                    assert(post.submitted()[e.0 - 1] == pre.submitted()[e.0 - 1]);
                } else {
                    assert(!pre.committed().contains_key(((pre.pushed() + 1) as usize)));
                }
            }
            assert forall|h: JobHandler<J>|
                pre.valid_handle(h) implies post.valid_handle(h) by {
                assert forall|i: int|
                    0 <= i < post.pending().len() implies (#[trigger] post.pending()[i]).0
                    != h.seq_no() by {
                    if i < pre.pending().len() {
                        assert(post.pending()[i] == pre.pending()[i]);
                        assert((pre.pending()[i]).0 != h.seq_no());
                    } else {
                        assert((post.pending()[i]).0 == pre.pushed() + 1);
                    }
                }
                assert(post.submitted()[h.seq_no() - 1] == pre.submitted()[h.seq_no() - 1]);
            }
            Self::lemma_stable_parts(pre, post);
        }
    }

    /// Takes the oldest job still waiting and returns the handle a worker
    /// uses to commit its result: the payload paired with the sequence
    /// number the job was submitted under. Demands a waiting job, since a
    /// wait for a job that no caller can still submit would never end.
    pub fn pop_jobhandler(&mut self) -> (h: JobHandler<J>)
        requires
            old(self).wf(),
            old(self).pending().len() > 0,
        ensures
            final(self).wf(),
            h.seq_no() == old(self).pending()[0].0,
            h.payload() == old(self).pending()[0].1,
            final(self).pending() == old(self).pending().remove(0),
            final(self).pushed() == old(self).pushed(),
            final(self).consumed() == old(self).consumed(),
            final(self).submitted() == old(self).submitted(),
            final(self).committed() == old(self).committed(),
            final(self).table() == old(self).table(),
            final(self).delivered() == old(self).delivered(),
            final(self).valid_handle(h),
            forall|h2: JobHandler<J>|
                old(self).valid_handle(h2) ==> final(self).valid_handle(h2),
    {
        let ghost pre = *old(self);
        let (identifier, job) = self.job_queue.pop();
        let h = JobHandler { job, index: identifier };
        proof {
            let post = *self;
            assert forall|i: int|
                0 <= i < post.pending().len() implies post.pending()[i] == pre.pending()[
            i + 1] by {}
            assert forall|i: int, j2: int|
                0 <= i < j2 < post.pending().len() implies (#[trigger] post.pending()[i]).0 < (
            #[trigger] post.pending()[j2]).0 by {
                assert((pre.pending()[i + 1]).0 < (pre.pending()[j2 + 1]).0);
            }
            assert forall|i: int| 0 <= i < post.pending().len() implies {
                let e = #[trigger] post.pending()[i];
                &&& post.consumed() < e.0 <= post.pushed()
                &&& !post.committed().contains_key(e.0)
                &&& e.1 == post.submitted()[e.0 - 1]
            } by {
                let e = pre.pending()[i + 1];
                assert(pre.consumed() < e.0 <= pre.pushed());
            }
            assert forall|i: int|
                0 <= i < post.pending().len() implies (#[trigger] post.pending()[i]).0
                != h.seq_no() by {
                assert((pre.pending()[0]).0 < (pre.pending()[i + 1]).0);
            }
            assert(pre.consumed() < (pre.pending()[0]).0 <= pre.pushed());
            assert forall|h2: JobHandler<J>|
                pre.valid_handle(h2) implies post.valid_handle(h2) by {
                assert forall|i: int|
                    0 <= i < post.pending().len() implies (#[trigger] post.pending()[i]).0
                    != h2.seq_no() by {
                    assert((pre.pending()[i + 1]).0 != h2.seq_no());
                }
            }
            Self::lemma_stable_parts(pre, post);
        }
        h
    }

    /// Delivers the next result in sequence order. The Nth call returns
    /// the result committed for sequence number N — the result of the Nth
    /// job submitted — however late or early its worker committed it, and
    /// removes that entry from the table for good. The call demands that
    /// the matching commit has happened: it is satisfied by the commit
    /// for exactly the next expected sequence number and by no other, and
    /// a wait for a result that no handle can still supply would never
    /// end.
    pub fn pop_result(&mut self) -> (r: R)
        requires
            old(self).wf(),
            old(self).consumed() < old(self).pushed(),
            old(self).committed().contains_key(old(self).next_expected()),
        ensures
            final(self).wf(),
            final(self).consumed() == old(self).consumed() + 1,
            r == old(self).committed()[old(self).next_expected()],
            final(self).delivered() == old(self).delivered().push(r),
            final(self).table() == old(self).table().remove(old(self).next_expected()),
            final(self).pushed() == old(self).pushed(),
            final(self).pending() == old(self).pending(),
            final(self).submitted() == old(self).submitted(),
            final(self).committed() == old(self).committed(),
            forall|h2: JobHandler<J>|
                old(self).valid_handle(h2) ==> final(self).valid_handle(h2),
    {
        let ghost pre = *old(self);
        self.counter_pop = self.counter_pop + 1;
        let ghost k = pre.next_expected();
        proof {
            assert(pre.table().contains_key(k));
        }
        let r = self.result_table.remove(&self.counter_pop).unwrap();
        self.delivered = Ghost(self.delivered@.push(r));
        proof {
            let post = *self;
            assert(post.table() == pre.table().remove(k));
            assert(r == pre.table()[k]);
            assert(r == pre.committed()[k]);
            assert forall|k2: usize|
                #[trigger] post.committed().contains_key(k2) implies 1 <= k2
                <= post.pushed() by {
                assert(pre.committed().contains_key(k2));
            }
            assert forall|k2: usize|
                1 <= k2 <= post.consumed() implies #[trigger] post.committed().contains_key(
                k2) by {
                if k2 != k {
                    assert(pre.committed().contains_key(k2));
                }
            }
            assert forall|k2: usize|
                (#[trigger] post.table().contains_key(k2) <==> (post.committed().contains_key(k2)
                    && k2 > post.consumed())) by {
                assert(pre.table().contains_key(k2) <==> (pre.committed().contains_key(k2) && k2
                    > pre.consumed()));
            }
            assert forall|k2: usize|
                #[trigger] post.table().contains_key(k2) implies post.table()[k2]
                == post.committed()[k2] by {
                assert(pre.table().contains_key(k2));
                assert(pre.table()[k2] == pre.committed()[k2]);
            }
            assert forall|i: int|
                0 <= i < post.delivered().len() implies #[trigger] post.delivered()[i]
                == post.committed()[(i + 1) as usize] by {
                if i < pre.delivered().len() {
                    assert(pre.delivered()[i] == pre.committed()[(i + 1) as usize]);
                }
            }
            assert forall|i: int, j2: int|
                0 <= i < j2 < post.pending().len() implies (#[trigger] post.pending()[i]).0 < (
            #[trigger] post.pending()[j2]).0 by {
                assert((pre.pending()[i]).0 < (pre.pending()[j2]).0);
            }
            assert forall|i: int| 0 <= i < post.pending().len() implies {
                let e = #[trigger] post.pending()[i];
                &&& post.consumed() < e.0 <= post.pushed()
                &&& !post.committed().contains_key(e.0)
                &&& e.1 == post.submitted()[e.0 - 1]
            } by {
                let e = pre.pending()[i];
                assert(pre.consumed() < e.0 <= pre.pushed());
                assert(!pre.committed().contains_key(e.0));
                assert(e.0 != k);
            }
            assert forall|h2: JobHandler<J>|
                pre.valid_handle(h2) implies post.valid_handle(h2) by {
                assert forall|i: int|
                    0 <= i < post.pending().len() implies (#[trigger] post.pending()[i]).0
                    != h2.seq_no() by {
                    assert((pre.pending()[i]).0 != h2.seq_no());
                }
            }
        }
        r
    }

    /// How many jobs have been submitted so far.
    pub fn job_count(&self) -> (n: usize)
        ensures
            n == self.pushed(),
    {
        self.counter_push
    }

    /// How many results have been consumed so far.
    pub fn result_count(&self) -> (n: usize)
        ensures
            n == self.consumed(),
    {
        self.counter_pop
    }

    /// Whether a job is waiting to be taken by a worker. Callers use this
    /// to meet `pop_jobhandler`'s demand before taking a job.
    pub fn has_pending_job(&self) -> (b: bool)
        ensures
            b == (self.pending().len() > 0),
    {
        self.job_queue.len() > 0
    }

    /// Whether the result for the next expected sequence number has been
    /// committed, so that `pop_result` would deliver it at once. Callers
    /// use this to meet `pop_result`'s demand before asking for a result.
    pub fn has_next_result(&self) -> (b: bool)
        requires
            self.wf(),
        ensures
            b == (self.consumed() < self.pushed() && self.committed().contains_key(
                self.next_expected(),
            )),
    {
        if self.counter_pop < self.counter_push {
            let b = self.result_table.contains_key(&(self.counter_pop + 1));
            proof {
                assert(b == self.table().contains_key(self.next_expected()));
                assert(self.table().contains_key(self.next_expected()) <==> (
                self.committed().contains_key(self.next_expected()) && self.next_expected()
                    > self.consumed()));
            }
            b
        } else {
            false
        }
    }

    /// Law: sequence numbers are assigned without duplicate or gap. After
    /// N submissions the numbers in play are drawn from exactly 1..=N: no
    /// two waiting jobs share a number, no waiting job and no committed
    /// result carries a number outside that range, and `push_job`'s
    /// contract hands out N + 1 next.
    pub proof fn lemma_sequence_assignment(&self)
        requires
            self.wf(),
        ensures
            forall|i: int, j: int|
                0 <= i < j < self.pending().len() ==> (#[trigger] self.pending()[i]).0 != (
                #[trigger] self.pending()[j]).0,
            forall|i: int|
                0 <= i < self.pending().len() ==> 1 <= (#[trigger] self.pending()[i]).0
                    <= self.pushed(),
            forall|k: usize| #[trigger] self.committed().contains_key(k) ==> 1 <= k <= self.pushed(),
    {
    }

    /// Law: results are delivered in exactly submission order. However the
    /// commits were interleaved, the i-th result delivered (counting from
    /// zero) is the one committed for sequence number i + 1 — the result
    /// of the (i + 1)-th job submitted.
    pub proof fn lemma_result_ordering(&self)
        requires
            self.wf(),
        ensures
            self.delivered().len() == self.consumed(),
            forall|i: int|
                0 <= i < self.delivered().len() ==> #[trigger] self.delivered()[i]
                    == self.committed()[(i + 1) as usize],
    {
    }

    /// Law: a consumed position is settled for good. Once sequence number
    /// k has been consumed, its result stays on record, it never
    /// reappears in the table, and the result delivered at position k was
    /// exactly the one committed under k.
    pub proof fn lemma_consumed_position_settled(&self, k: usize)
        requires
            self.wf(),
            1 <= k <= self.consumed(),
        ensures
            self.committed().contains_key(k),
            !self.table().contains_key(k),
            self.delivered()[k - 1] == self.committed()[k],
    {
    }

    /// Law: no cross-talk. A commit under sequence number k — taking the
    /// commit record from `pre` to `post` — neither supplies nor changes
    /// the result recorded under any other number m: whether m's result
    /// exists, and what it is, stay exactly as before.
    pub proof fn lemma_no_cross_talk(pre: Self, post: Self, k: usize, res: R, m: usize)
        requires
            post.committed() == pre.committed().insert(k, res),
            m != k,
        ensures
            post.committed().contains_key(m) == pre.committed().contains_key(m),
            pre.committed().contains_key(m) ==> post.committed()[m] == pre.committed()[m],
    {
    }
}

} // verus!
