use vstd::prelude::*;
use vstd::multiset::Multiset;

verus! {

broadcast use vstd::multiset::group_multiset_axioms, vstd::seq_lib::group_to_multiset_ensures;

/// The phase a worker is in, as observable by the orchestrator.
#[derive(Clone, Copy, Debug, PartialEq, Eq, Structural)]
pub enum WorkerState {
    /// Waiting to claim the next job from the shared queue.
    Idle,
    /// Executing the job with the given identifier, exclusively.
    Running(u64),
    /// The worker's loop has exited; this state is terminal.
    Terminated,
}

/// One execution unit of the pool: an identifier (diagnostic only) and the
/// phase of its claim-and-run loop.
#[derive(Clone, Copy, Debug, PartialEq, Eq, Structural)]
pub struct Worker {
    pub id: usize,
    pub state: WorkerState,
}

/// The job a worker currently runs, as a multiset (empty unless running).
pub open spec fn job_of(w: Worker) -> Multiset<u64> {
    match w.state {
        WorkerState::Running(j) => Multiset::empty().insert(j),
        _ => Multiset::empty(),
    }
}

/// All jobs currently being executed, over the whole worker set.
pub open spec fn running_jobs(ws: Seq<Worker>) -> Multiset<u64>
    decreases ws.len(),
{
    if ws.len() == 0 {
        Multiset::empty()
    } else {
        running_jobs(ws.drop_last()).add(job_of(ws.last()))
    }
}

/// Every worker's loop has exited.
pub open spec fn all_terminated(ws: Seq<Worker>) -> bool {
    forall|i: int| 0 <= i < ws.len() ==> (#[trigger] ws[i]).state is Terminated
}

/// The orchestrator's state: the worker set, the queue of pending job
/// identifiers (front at index 0), whether the sending side of the queue is
/// still open, and the record of finished jobs. The ghost fields keep the
/// full history: every job ever submitted, in submission order; every job
/// handed to a worker, in dequeue order; and every job whose execution
/// failed and took its worker down.
pub struct ThreadPool {
    workers: Vec<Worker>,
    pending: Vec<u64>,
    sender_open: bool,
    completed: Vec<u64>,
    submitted: Ghost<Seq<u64>>,
    started: Ghost<Seq<u64>>,
    failed: Ghost<Seq<u64>>,
}

impl ThreadPool {
    /// The worker set, in construction order.
    pub closed spec fn workers_view(self) -> Seq<Worker> {
        self.workers@
    }

    /// Pending jobs, oldest first.
    pub closed spec fn pending_view(self) -> Seq<u64> {
        self.pending@
    }

    /// Whether jobs can still be submitted.
    pub closed spec fn sender_open(self) -> bool {
        self.sender_open
    }

    /// Jobs that ran to completion, in completion order.
    pub closed spec fn completed_view(self) -> Seq<u64> {
        self.completed@
    }

    /// Every job ever submitted, in submission order.
    pub closed spec fn submitted_view(self) -> Seq<u64> {
        self.submitted@
    }

    /// Every job handed to a worker, in dequeue order.
    pub closed spec fn started_view(self) -> Seq<u64> {
        self.started@
    }

    /// Jobs whose execution failed, terminating their worker.
    pub closed spec fn failed_view(self) -> Seq<u64> {
        self.failed@
    }

    /// The pool's invariant. The two accounting clauses carry the pool's
    /// guarantees: the submission history is exactly the dequeue history
    /// followed by the still-pending queue (so dequeueing is FIFO and loses
    /// and duplicates nothing), and every dequeued job is right now either
    /// completed, failed, or running on exactly one worker.
    pub open spec fn wf(self) -> bool {
        &&& self.workers_view().len() >= 1
        &&& forall|i: int|
            0 <= i < self.workers_view().len() ==> (#[trigger] self.workers_view()[i]).id == i
        &&& self.submitted_view() == self.started_view() + self.pending_view()
        &&& self.started_view().to_multiset() == self.completed_view().to_multiset().add(
            self.failed_view().to_multiset(),
        ).add(running_jobs(self.workers_view()))
    }

    /// Creates a pool of exactly `size` idle workers with an empty queue.
    /// A pool of zero workers could never make progress, so `size >= 1` is
    /// a precondition; unverified callers must check it and treat a zero as
    /// a fatal configuration error.
    pub fn new(size: usize) -> (pool: ThreadPool)
        requires
            size >= 1,
        ensures
            pool.wf(),
            pool.workers_view().len() == size,
            forall|i: int|
                0 <= i < size ==> (#[trigger] pool.workers_view()[i]).state is Idle,
            pool.pending_view() == Seq::<u64>::empty(),
            pool.sender_open(),
            pool.completed_view() == Seq::<u64>::empty(),
            pool.submitted_view() == Seq::<u64>::empty(),
            pool.started_view() == Seq::<u64>::empty(),
            pool.failed_view() == Seq::<u64>::empty(),
    {
        let mut workers: Vec<Worker> = Vec::with_capacity(size);
        let mut id: usize = 0;
        while id < size
            invariant
                id <= size,
                workers@.len() == id,
                forall|i: int|
                    0 <= i < id ==> (#[trigger] workers@[i]) == (Worker {
                        id: i as usize,
                        state: WorkerState::Idle,
                    }),
            decreases size - id,
        {
            workers.push(Worker { id, state: WorkerState::Idle });
            id = id + 1;
        }
        let pool = ThreadPool {
            workers,
            pending: Vec::new(),
            sender_open: true,
            completed: Vec::new(),
            submitted: Ghost(Seq::empty()),
            started: Ghost(Seq::empty()),
            failed: Ghost(Seq::empty()),
        };
        proof {
            lemma_no_running_no_jobs(pool.workers_view());
            lemma_empty_seq_to_multiset();
            assert(pool.started_view().to_multiset() =~= pool.completed_view().to_multiset().add(
                pool.failed_view().to_multiset(),
            ).add(running_jobs(pool.workers_view())));
        }
        pool
    }

    /// Submits a job: enqueues it at the tail of the queue. Never blocks and
    /// never fails while the sending side is open; once the sender has been
    /// closed, submission is out of contract, so unverified callers must
    /// check `is_sender_open` first and treat a violation as fatal misuse.
    pub fn execute(&mut self, job: u64)
        requires
            old(self).wf(),
            old(self).sender_open(),
        ensures
            final(self).wf(),
            final(self).pending_view() == old(self).pending_view().push(job),
            final(self).submitted_view() == old(self).submitted_view().push(job),
            final(self).workers_view() == old(self).workers_view(),
            final(self).sender_open(),
            final(self).completed_view() == old(self).completed_view(),
            final(self).started_view() == old(self).started_view(),
            final(self).failed_view() == old(self).failed_view(),
    {
        self.pending.push(job);
        proof {
            self.submitted@ = self.submitted@.push(job);
            assert(final(self).submitted_view() =~= final(self).started_view()
                + final(self).pending_view());
        }
    }

    /// Closes the sending side of the queue: the first, irreversible step of
    /// teardown. No further submission is possible; once the queue drains,
    /// each idle worker's next receive observes the disconnect and the
    /// worker terminates.
    pub fn close_sender(&mut self)
        requires
            old(self).wf(),
        ensures
            final(self).wf(),
            !final(self).sender_open(),
            final(self).pending_view() == old(self).pending_view(),
            final(self).workers_view() == old(self).workers_view(),
            final(self).completed_view() == old(self).completed_view(),
            final(self).submitted_view() == old(self).submitted_view(),
            final(self).started_view() == old(self).started_view(),
            final(self).failed_view() == old(self).failed_view(),
    {
        self.sender_open = false;
    }

    /// An idle worker claims the next job. Delivery is FIFO: the job handed
    /// out is the head of the pending queue, and it is moved out of the
    /// queue, never to be delivered again. The worker runs it exclusively
    /// until `worker_finish` or `worker_fail`.
    pub fn worker_dequeue(&mut self, w: usize) -> (job: u64)
        requires
            old(self).wf(),
            w < old(self).workers_view().len(),
            old(self).workers_view()[w as int].state is Idle,
            old(self).pending_view().len() > 0,
        ensures
            final(self).wf(),
            job == old(self).pending_view()[0],
            final(self).pending_view() == old(self).pending_view().drop_first(),
            final(self).workers_view() == old(self).workers_view().update(
                w as int,
                Worker { id: w, state: WorkerState::Running(job) },
            ),
            final(self).started_view() == old(self).started_view().push(job),
            final(self).submitted_view() == old(self).submitted_view(),
            final(self).completed_view() == old(self).completed_view(),
            final(self).failed_view() == old(self).failed_view(),
            final(self).sender_open() == old(self).sender_open(),
    {
        let job = self.pending.remove(0);
        let claimed = Worker { id: w, state: WorkerState::Running(job) };
        self.workers[w] = claimed;
        proof {
            self.started@ = self.started@.push(job);
            let ows = old(self).workers_view();
            let nws = self.workers@;
            assert(self.pending@ =~= old(self).pending_view().drop_first());
            assert(self.submitted@ =~= self.started@ + self.pending@);
            lemma_running_jobs_update(ows, w as int, claimed);
            let lhs = self.started@.to_multiset();
            let rhs = self.completed@.to_multiset().add(self.failed@.to_multiset()).add(
                running_jobs(nws),
            );
            assert forall|e: u64| lhs.count(e) == rhs.count(e) by {
                assert(running_jobs(nws).count(e) + job_of(ows[w as int]).count(e)
                    == running_jobs(ows).count(e) + job_of(claimed).count(e));
                assert(old(self).started_view().push(job).to_multiset()
                    == old(self).started_view().to_multiset().insert(job));
            }
            assert(lhs =~= rhs);
        }
        job
    }

    /// A running worker finishes its job successfully: the job is recorded
    /// as completed and the worker returns to claiming jobs. Returns the
    /// identifier of the job that finished.
    pub fn worker_finish(&mut self, w: usize) -> (job: u64)
        requires
            old(self).wf(),
            w < old(self).workers_view().len(),
            old(self).workers_view()[w as int].state is Running,
        ensures
            final(self).wf(),
            old(self).workers_view()[w as int].state == WorkerState::Running(job),
            final(self).workers_view() == old(self).workers_view().update(
                w as int,
                Worker { id: w, state: WorkerState::Idle },
            ),
            final(self).completed_view() == old(self).completed_view().push(job),
            final(self).pending_view() == old(self).pending_view(),
            final(self).submitted_view() == old(self).submitted_view(),
            final(self).started_view() == old(self).started_view(),
            final(self).failed_view() == old(self).failed_view(),
            final(self).sender_open() == old(self).sender_open(),
    {
        let job: u64 = match self.workers[w].state {
            WorkerState::Running(j) => j,
            _ => 0,
        };
        let rested = Worker { id: w, state: WorkerState::Idle };
        self.workers[w] = rested;
        self.completed.push(job);
        proof {
            let ows = old(self).workers_view();
            let nws = self.workers@;
            lemma_running_jobs_update(ows, w as int, rested);
            let lhs = self.started@.to_multiset();
            let rhs = self.completed@.to_multiset().add(self.failed@.to_multiset()).add(
                running_jobs(nws),
            );
            assert forall|e: u64| lhs.count(e) == rhs.count(e) by {
                assert(running_jobs(nws).count(e) + job_of(ows[w as int]).count(e)
                    == running_jobs(ows).count(e) + job_of(rested).count(e));
                assert(old(self).completed_view().push(job).to_multiset()
                    == old(self).completed_view().to_multiset().insert(job));
            }
            assert(lhs =~= rhs);
        }
        job
    }

    /// A running worker's job fails irrecoverably: the failure is not
    /// caught, so exactly that worker terminates and processes no further
    /// jobs. Every other worker, the pending queue and the sender are
    /// untouched, so the remaining workers continue to serve the queue; the
    /// pool's capacity silently shrinks by one. Returns the identifier of
    /// the job that failed.
    pub fn worker_fail(&mut self, w: usize) -> (job: u64)
        requires
            old(self).wf(),
            w < old(self).workers_view().len(),
            old(self).workers_view()[w as int].state is Running,
        ensures
            final(self).wf(),
            old(self).workers_view()[w as int].state == WorkerState::Running(job),
            final(self).workers_view() == old(self).workers_view().update(
                w as int,
                Worker { id: w, state: WorkerState::Terminated },
            ),
            forall|i: int|
                0 <= i < old(self).workers_view().len() && i != w
                    ==> final(self).workers_view()[i] == old(self).workers_view()[i],
            final(self).failed_view() == old(self).failed_view().push(job),
            final(self).pending_view() == old(self).pending_view(),
            final(self).submitted_view() == old(self).submitted_view(),
            final(self).started_view() == old(self).started_view(),
            final(self).completed_view() == old(self).completed_view(),
            final(self).sender_open() == old(self).sender_open(),
    {
        let job: u64 = match self.workers[w].state {
            WorkerState::Running(j) => j,
            _ => 0,
        };
        let stopped = Worker { id: w, state: WorkerState::Terminated };
        self.workers[w] = stopped;
        proof {
            self.failed@ = self.failed@.push(job);
            let ows = old(self).workers_view();
            let nws = self.workers@;
            lemma_running_jobs_update(ows, w as int, stopped);
            let lhs = self.started@.to_multiset();
            let rhs = self.completed@.to_multiset().add(self.failed@.to_multiset()).add(
                running_jobs(nws),
            );
            assert forall|e: u64| lhs.count(e) == rhs.count(e) by {
                assert(running_jobs(nws).count(e) + job_of(ows[w as int]).count(e)
                    == running_jobs(ows).count(e) + job_of(stopped).count(e));
                assert(old(self).failed_view().push(job).to_multiset()
                    == old(self).failed_view().to_multiset().insert(job));
            }
            assert(lhs =~= rhs);
        }
        job
    }

    /// An idle worker observes the disconnect signal — the sender is closed
    /// and the queue has drained — and terminates cleanly. This is the only
    /// way a worker terminates other than a job failure, so no pending job
    /// is ever abandoned by a healthy worker.
    pub fn worker_disconnect(&mut self, w: usize)
        requires
            old(self).wf(),
            w < old(self).workers_view().len(),
            old(self).workers_view()[w as int].state is Idle,
            !old(self).sender_open(),
            old(self).pending_view().len() == 0,
        ensures
            final(self).wf(),
            final(self).workers_view() == old(self).workers_view().update(
                w as int,
                Worker { id: w, state: WorkerState::Terminated },
            ),
            final(self).pending_view() == old(self).pending_view(),
            final(self).submitted_view() == old(self).submitted_view(),
            final(self).started_view() == old(self).started_view(),
            final(self).completed_view() == old(self).completed_view(),
            final(self).failed_view() == old(self).failed_view(),
            !final(self).sender_open(),
    {
        let stopped = Worker { id: w, state: WorkerState::Terminated };
        self.workers[w] = stopped;
        proof {
            let ows = old(self).workers_view();
            let nws = self.workers@;
            lemma_running_jobs_update(ows, w as int, stopped);
            assert forall|e: u64| running_jobs(nws).count(e) == running_jobs(ows).count(e) by {
                assert(running_jobs(nws).count(e) + job_of(ows[w as int]).count(e)
                    == running_jobs(ows).count(e) + job_of(stopped).count(e));
            }
            assert(running_jobs(nws) =~= running_jobs(ows));
        }
    }

    /// How many workers the pool was constructed with.
    pub fn worker_count(&self) -> (n: usize)
        ensures
            n == self.workers_view().len(),
    {
        self.workers.len()
    }

    /// The state of one worker.
    pub fn worker_state(&self, w: usize) -> (s: WorkerState)
        requires
            w < self.workers_view().len(),
        ensures
            s == self.workers_view()[w as int].state,
    {
        self.workers[w].state
    }

    /// How many jobs are waiting in the queue.
    pub fn pending_count(&self) -> (n: usize)
        ensures
            n == self.pending_view().len(),
    {
        self.pending.len()
    }

    /// Whether jobs can still be submitted.
    pub fn is_sender_open(&self) -> (open: bool)
        ensures
            open == self.sender_open(),
    {
        self.sender_open
    }

    /// The jobs that ran to completion, in completion order.
    pub fn completed_jobs(&self) -> (jobs: &Vec<u64>)
        ensures
            jobs@ == self.completed_view(),
    {
        &self.completed
    }

    /// Whether every worker has terminated — the condition under which a
    /// teardown's join of the workers returns.
    pub fn all_workers_terminated(&self) -> (done: bool)
        ensures
            done == all_terminated(self.workers_view()),
    {
        let mut w: usize = 0;
        while w < self.workers.len()
            invariant
                w <= self.workers@.len(),
                forall|i: int| 0 <= i < w ==> (#[trigger] self.workers@[i]).state is Terminated,
            decreases self.workers@.len() - w,
        {
            if !matches!(self.workers[w].state, WorkerState::Terminated) {
                return false;
            }
            w = w + 1;
        }
        true
    }
}

/// Jobs are dequeued in submission order: the history of jobs handed to
/// workers is always a prefix of the history of submitted jobs, even though
/// completion order across workers may differ.
pub proof fn lemma_dequeue_follows_submission_order(pool: ThreadPool)
    requires
        pool.wf(),
    ensures
        pool.started_view() == pool.submitted_view().subrange(
            0,
            pool.started_view().len() as int,
        ),
{
    assert(pool.started_view() =~= pool.submitted_view().subrange(
        0,
        pool.started_view().len() as int,
    ));
}

/// Once the queue has drained, the jobs handed to workers are exactly the
/// jobs submitted, in submission order: every submitted job was claimed by
/// some worker exactly once, none was lost, none was run twice, and nothing
/// ran that was never submitted.
pub proof fn lemma_drained_queue_ran_every_job_once(pool: ThreadPool)
    requires
        pool.wf(),
        pool.pending_view().len() == 0,
    ensures
        pool.started_view() == pool.submitted_view(),
{
    assert(pool.started_view() =~= pool.started_view() + pool.pending_view());
}

/// After teardown — every worker has terminated — no job is still in
/// flight: each job that was ever handed to a worker has either completed
/// or failed, so a completed teardown left no worker running.
pub proof fn lemma_teardown_leaves_nothing_in_flight(pool: ThreadPool)
    requires
        pool.wf(),
        all_terminated(pool.workers_view()),
    ensures
        running_jobs(pool.workers_view()) == Multiset::<u64>::empty(),
        pool.started_view().to_multiset() == pool.completed_view().to_multiset().add(
            pool.failed_view().to_multiset(),
        ),
{
    lemma_no_running_no_jobs(pool.workers_view());
    assert(pool.started_view().to_multiset() =~= pool.completed_view().to_multiset().add(
        pool.failed_view().to_multiset(),
    ));
}

/// After a complete teardown — the queue drained and every worker
/// terminated — the full account balances: the submitted jobs are exactly
/// the completed jobs together with the failed ones, each counted once.
pub proof fn lemma_teardown_accounts_for_every_job(pool: ThreadPool)
    requires
        pool.wf(),
        pool.pending_view().len() == 0,
        all_terminated(pool.workers_view()),
    ensures
        pool.submitted_view().to_multiset() == pool.completed_view().to_multiset().add(
            pool.failed_view().to_multiset(),
        ),
{
    lemma_drained_queue_ran_every_job_once(pool);
    lemma_teardown_leaves_nothing_in_flight(pool);
}

/// Replacing one worker exchanges exactly that worker's contribution to the
/// multiset of running jobs, counted job by job.
pub proof fn lemma_running_jobs_update(ws: Seq<Worker>, i: int, w2: Worker)
    requires
        0 <= i < ws.len(),
    ensures
        forall|e: u64|
            #[trigger] running_jobs(ws.update(i, w2)).count(e) + job_of(ws[i]).count(e)
                == running_jobs(ws).count(e) + job_of(w2).count(e),
    decreases ws.len(),
{
    let ws2 = ws.update(i, w2);
    if i == ws.len() - 1 {
        assert(ws2.drop_last() =~= ws.drop_last());
        assert(ws2.last() == w2);
        assert(ws[i] == ws.last());
        assert forall|e: u64|
            #[trigger] running_jobs(ws2).count(e) + job_of(ws[i]).count(e)
                == running_jobs(ws).count(e) + job_of(w2).count(e) by {
            assert(running_jobs(ws2) == running_jobs(ws2.drop_last()).add(job_of(w2)));
            assert(running_jobs(ws) == running_jobs(ws.drop_last()).add(job_of(ws.last())));
        }
    } else {
        assert(ws2.drop_last() =~= ws.drop_last().update(i, w2));
        assert(ws2.last() == ws.last());
        lemma_running_jobs_update(ws.drop_last(), i, w2);
        assert(ws.drop_last()[i] == ws[i]);
        assert forall|e: u64|
            #[trigger] running_jobs(ws2).count(e) + job_of(ws[i]).count(e)
                == running_jobs(ws).count(e) + job_of(w2).count(e) by {
            assert(running_jobs(ws2) == running_jobs(ws2.drop_last()).add(job_of(ws.last())));
            assert(running_jobs(ws) == running_jobs(ws.drop_last()).add(job_of(ws.last())));
            assert(running_jobs(ws.drop_last().update(i, w2)).count(e)
                + job_of(ws.drop_last()[i]).count(e)
                == running_jobs(ws.drop_last()).count(e) + job_of(w2).count(e));
        }
    }
}

/// If no worker is running a job, the multiset of running jobs is empty.
pub proof fn lemma_no_running_no_jobs(ws: Seq<Worker>)
    requires
        forall|i: int| 0 <= i < ws.len() ==> !((#[trigger] ws[i]).state is Running),
    ensures
        running_jobs(ws) == Multiset::<u64>::empty(),
    decreases ws.len(),
{
    if ws.len() > 0 {
        lemma_no_running_no_jobs(ws.drop_last());
        assert(ws[ws.len() - 1] == ws.last());
        assert(job_of(ws.last()) == Multiset::<u64>::empty());
        assert(running_jobs(ws) =~= Multiset::<u64>::empty());
    }
}

/// The empty sequence of jobs holds no jobs.
proof fn lemma_empty_seq_to_multiset()
    ensures
        Seq::<u64>::empty().to_multiset() == Multiset::<u64>::empty(),
{
    Seq::<u64>::empty().to_multiset_ensures();
    vstd::multiset::lemma_multiset_empty_len(Seq::<u64>::empty().to_multiset());
}

} // verus!
