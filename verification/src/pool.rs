//! The worker pool: a fixed number of workers sharing one FIFO job queue.
//! Jobs are submitted at the back and taken from the front, so connections
//! are handed out in arrival order; shutdown enqueues exactly one
//! terminate token per worker, once, however often it is asked.

use vstd::prelude::*;
use crate::worker::{worker_after, lemma_terminate_stops_worker, WorkerMessage};

verus! {

/// How many terminate tokens a queue holds.
pub open spec fn count_terminates(q: Seq<WorkerMessage>) -> nat
    decreases q.len(),
{
    if q.len() == 0 {
        0
    } else {
        count_terminates(q.drop_last()) + (if q.last() is Terminate {
            1nat
        } else {
            0nat
        })
    }
}

/// Popping the front of a queue removes at most one terminate token.
proof fn lemma_count_terminates_skip(q: Seq<WorkerMessage>)
    requires
        q.len() > 0,
    ensures
        count_terminates(q) == count_terminates(q.skip(1)) + (if q[0] is Terminate {
            1nat
        } else {
            0nat
        }),
    decreases q.len(),
{
    if q.len() == 1 {
        assert(q.skip(1) =~= Seq::<WorkerMessage>::empty());
        assert(q.drop_last() =~= Seq::<WorkerMessage>::empty());
        assert(q.last() == q[0]);
    } else {
        lemma_count_terminates_skip(q.drop_last());
        assert(q.drop_last()[0] == q[0]);
        assert(q.skip(1).drop_last() =~= q.drop_last().skip(1));
        assert(q.skip(1).last() == q.last());
    }
}

/// The pool's queue and lifecycle, as the workers and the acceptor see it.
/// The number of workers is fixed at construction and never changes.
pub struct Pool {
    /// How many workers were created with the pool.
    pub worker_count: usize,
    /// The shared FIFO job queue, front first.
    pub queue: Vec<WorkerMessage>,
    /// Whether shutdown has run.
    pub shut_down: bool,
}

impl Pool {
    /// The pool's standing invariant: terminate tokens enter the queue
    /// only through shutdown.
    pub open spec fn wf(self) -> bool {
        !self.shut_down ==> count_terminates(self.queue@) == 0
    }

    /// Creates a pool of exactly `worker_count` workers and an empty
    /// queue.
    pub fn new(worker_count: usize) -> (p: Pool)
        requires
            worker_count >= 1,
        ensures
            p.wf(),
            p.worker_count == worker_count,
            p.queue@ =~= Seq::<WorkerMessage>::empty(),
            !p.shut_down,
    {
        Pool { worker_count, queue: Vec::new(), shut_down: false }
    }

    /// Enqueues one job.  Submission never rejects and never drops a job:
    /// the queue is unbounded, and a connection that finds every worker
    /// busy simply waits its turn.
    pub fn submit(&mut self)
        requires
            old(self).wf(),
            !old(self).shut_down,
        ensures
            final(self).wf(),
            final(self).queue@ == old(self).queue@.push(WorkerMessage::NewJob),
            final(self).worker_count == old(self).worker_count,
            final(self).shut_down == old(self).shut_down,
    {
        self.queue.push(WorkerMessage::NewJob);
        proof {
            assert(self.queue@.drop_last() =~= old(self).queue@);
        }
    }

    /// Hands out the message at the front of the queue, if any: jobs leave
    /// the queue exactly once each, in the order they were submitted.
    pub fn take_next(&mut self) -> (r: Option<WorkerMessage>)
        requires
            old(self).wf(),
        ensures
            final(self).wf(),
            final(self).worker_count == old(self).worker_count,
            final(self).shut_down == old(self).shut_down,
            old(self).queue@.len() == 0 ==> r is None && final(self).queue@
                == old(self).queue@,
            old(self).queue@.len() > 0 ==> r == Some(old(self).queue@[0])
                && final(self).queue@ == old(self).queue@.skip(1),
    {
        if self.queue.len() == 0 {
            None
        } else {
            let m = self.queue.remove(0);
            proof {
                lemma_count_terminates_skip(old(self).queue@);
            }
            Some(m)
        }
    }

    /// Runs the shutdown protocol once, idempotently: the first call
    /// enqueues exactly one terminate token per worker, behind every job
    /// already queued; later calls change nothing.
    pub fn shutdown(&mut self)
        requires
            old(self).wf(),
        ensures
            final(self).wf(),
            final(self).shut_down,
            final(self).worker_count == old(self).worker_count,
            !old(self).shut_down ==> ({
                &&& final(self).queue@.len() == old(self).queue@.len()
                    + old(self).worker_count
                &&& forall|i: int|
                    0 <= i < old(self).queue@.len() ==> #[trigger] final(self).queue@[i]
                        == old(self).queue@[i]
                &&& forall|i: int|
                    old(self).queue@.len() <= i < final(self).queue@.len()
                        ==> #[trigger] final(self).queue@[i] is Terminate
                &&& count_terminates(final(self).queue@) == old(self).worker_count
            }),
            old(self).shut_down ==> *final(self) == *old(self),
    {
        if self.shut_down {
            return ;
        }
        let n = self.worker_count;
        let base = self.queue.len();
        let mut k: usize = 0;
        while k < n
            invariant
                k <= n,
                self.worker_count == old(self).worker_count,
                n == old(self).worker_count,
                base == old(self).queue@.len(),
                !self.shut_down,
                self.queue@.len() == base + k,
                forall|i: int|
                    0 <= i < base ==> #[trigger] self.queue@[i] == old(self).queue@[i],
                forall|i: int|
                    base <= i < self.queue@.len() ==> #[trigger] self.queue@[i] is Terminate,
                count_terminates(self.queue@) == k,
            decreases n - k,
        {
            let ghost before = self.queue@;
            self.queue.push(WorkerMessage::Terminate);
            k += 1;
            proof {
                assert(self.queue@.drop_last() =~= before);
            }
        }
        self.shut_down = true;
    }
}

/// No worker survives shutdown: deliver each queued message to exactly one
/// worker, and every worker whose share includes a terminate token — as
/// shutdown provides for each of them — ends terminated.
pub proof fn lemma_shutdown_stops_all_workers(deliveries: Seq<Seq<WorkerMessage>>)
    requires
        forall|i: int|
            0 <= i < deliveries.len() ==> #[trigger] deliveries[i].contains(
                WorkerMessage::Terminate,
            ),
    ensures
        forall|i: int|
            0 <= i < deliveries.len() ==> #[trigger] worker_after(deliveries[i])
                is Terminated,
{
    assert forall|i: int| 0 <= i < deliveries.len() implies #[trigger] worker_after(
        deliveries[i],
    ) is Terminated by {
        lemma_terminate_stops_worker(deliveries[i]);
    }
}

} // verus!
