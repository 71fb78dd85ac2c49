//! The worker pool: how many workers it has, what each worker has been sent,
//! and the state every worker is in.
//!
//! The pool is a model of scheduling. It records which job goes to which
//! worker and in what order; a job is a value of the caller's choosing, and
//! running it is the caller's business. A program that wants real threads
//! gives each worker a thread of its own and lets that thread follow
//! [`Worker::receive`] and [`Worker::finish`].

use std::collections::VecDeque;
use vstd::prelude::*;

verus! {

/// The number of workers a pool gets: the desired number, cut down to the
/// hardware parallelism where it exceeds it.
pub open spec fn clamped_threads(desired_size: nat, available: nat) -> nat {
    if desired_size <= available {
        desired_size
    } else {
        available
    }
}

/// Returns the number of threads to use, based on the desired size and the
/// number of threads that the machine offers.
pub fn number_of_threads_to_use(desired_size: usize, available: usize) -> (threads: usize)
    requires
        desired_size > 0,
        available > 0,
    ensures
        threads == clamped_threads(desired_size as nat, available as nat),
        threads >= 1,
        desired_size > available ==> threads == available,
        desired_size <= available ==> threads == desired_size,
{
    if available < desired_size {
        available
    } else {
        desired_size
    }
}

/// What a worker is sent.
pub enum Message<J> {
    Terminate,
    NewJob(J),
}

/// Thread signal for when it is idle
#[derive(Clone, Copy, Debug, PartialEq, Eq)]
pub struct IdleState {
    pub id: usize,
}

/// Where a worker stands.
#[derive(Clone, Copy, Debug, PartialEq, Eq)]
pub enum WorkerState {
    /// Parked, waiting for its next message.
    Idle,
    /// Running a job.
    Busy,
    /// Told to stop; it takes no further message.
    Terminated,
}

impl WorkerState {
    /// The moves a worker can make: it takes a job, it ends a job, or it is
    /// told to stop while parked.
    pub open spec fn steps_to(self, next: WorkerState) -> bool {
        match (self, next) {
            (WorkerState::Idle, WorkerState::Busy) => true,
            (WorkerState::Busy, WorkerState::Idle) => true,
            (WorkerState::Idle, WorkerState::Terminated) => true,
            _ => false,
        }
    }
}

/// A worker that has terminated stays so: from `Terminated` no move leads
/// anywhere, and it is the one state of which this holds.
pub proof fn lemma_terminated_is_final(state: WorkerState)
    ensures
        state is Terminated <==> forall|next: WorkerState| !state.steps_to(next),
{
    if !(state is Terminated) {
        if state is Idle {
            assert(state.steps_to(WorkerState::Busy));
        } else {
            assert(state.steps_to(WorkerState::Idle));
        }
    }
}

/// The jobs that a worker runs when it is sent `messages`: those that come
/// before the first `Terminate`.
pub open spec fn jobs_before_terminate<J>(messages: Seq<Message<J>>) -> Seq<J>
    decreases messages.len(),
{
    if messages.len() == 0 {
        Seq::empty()
    } else {
        match messages[0] {
            Message::Terminate => Seq::empty(),
            Message::NewJob(job) => seq![job] + jobs_before_terminate(messages.drop_first()),
        }
    }
}

/// The messages that a worker leaves unread: those behind the first
/// `Terminate`.
pub open spec fn unread_after_terminate<J>(messages: Seq<Message<J>>) -> Seq<Message<J>>
    decreases messages.len(),
{
    if messages.len() == 0 {
        Seq::empty()
    } else {
        match messages[0] {
            Message::Terminate => messages.drop_first(),
            Message::NewJob(_) => unread_after_terminate(messages.drop_first()),
        }
    }
}

/// Whether `messages` holds a `Terminate`.
pub open spec fn tells_to_terminate<J>(messages: Seq<Message<J>>) -> bool {
    exists|t: int| 0 <= t < messages.len() && #[trigger] messages[t] is Terminate
}

/// One worker of a pool.
pub struct Worker {
    id: usize,
    state: WorkerState,
}

impl Worker {
    /// The worker's number in its pool.
    pub closed spec fn id(&self) -> usize {
        self.id
    }

    /// The state the worker is in.
    pub closed spec fn state(&self) -> WorkerState {
        self.state
    }

    /// A worker that has just started: it is parked, and says so.
    pub fn new(id: usize) -> (started: (Worker, IdleState))
        ensures
            started.0.id() == id,
            started.0.state() is Idle,
            started.1.id == id,
    {
        (Worker { id, state: WorkerState::Idle }, IdleState { id })
    }

    /// The worker's number in its pool.
    pub fn number(&self) -> (id: usize)
        ensures
            id == self.id(),
    {
        self.id
    }

    /// The state the worker is in.
    pub fn current_state(&self) -> (state: WorkerState)
        ensures
            state == self.state(),
    {
        self.state
    }

    /// A parked worker takes its next message. A job makes it busy and is
    /// handed back to be run; `Terminate` stops it for good.
    pub fn receive<J>(&mut self, message: Message<J>) -> (job: Option<J>)
        requires
            old(self).state() is Idle,
        ensures
            final(self).id() == old(self).id(),
            old(self).state().steps_to(final(self).state()),
            match message {
                Message::NewJob(sent) => job == Some(sent) && final(self).state() is Busy,
                Message::Terminate => job is None && final(self).state() is Terminated,
            },
    {
        match message {
            Message::NewJob(sent) => {
                self.state = WorkerState::Busy;
                Some(sent)
            },
            Message::Terminate => {
                self.state = WorkerState::Terminated;
                None
            },
        }
    }

    /// A busy worker has run its job: it parks again, and says so.
    pub fn finish(&mut self) -> (signal: IdleState)
        requires
            old(self).state() is Busy,
        ensures
            final(self).id() == old(self).id(),
            final(self).state() is Idle,
            old(self).state().steps_to(final(self).state()),
            signal.id == old(self).id(),
    {
        self.state = WorkerState::Idle;
        IdleState { id: self.id }
    }

    /// The worker's loop on what it has been sent: it takes message after
    /// message, runs each job and says that it is idle again, until it is
    /// told to terminate or nothing is left to take. The jobs come back in
    /// the order in which they were run.
    pub fn run<J>(
        &mut self,
        inbox: &mut VecDeque<Message<J>>,
        signals: &mut VecDeque<IdleState>,
    ) -> (ran: Vec<J>)
        requires
            old(self).state() is Idle,
        ensures
            final(self).id() == old(self).id(),
            ran@ == jobs_before_terminate(old(inbox)@),
            final(inbox)@ == unread_after_terminate(old(inbox)@),
            tells_to_terminate(old(inbox)@) ==> final(self).state() is Terminated,
            !tells_to_terminate(old(inbox)@) ==> final(self).state() is Idle,
            final(signals)@ == old(signals)@ + Seq::new(
                ran@.len(),
                |t: int| IdleState { id: old(self).id() },
            ),
    {
        let ghost all = inbox@;
        let ghost id = self.id();
        let ghost earlier = signals@;
        let mut ran: Vec<J> = Vec::new();
        let mut running = true;
        while running
            invariant
                self.id() == id,
                ran@.len() <= all.len(),
                forall|t: int| 0 <= t < ran@.len() ==> all[t] == Message::NewJob(ran@[t]),
                running ==> self.state() is Idle && inbox@ == all.skip(ran@.len() as int),
                !running ==> {
                    ||| ran@.len() < all.len() && all[ran@.len() as int] is Terminate
                        && self.state() is Terminated && inbox@ == all.skip(ran@.len() as int + 1)
                    ||| ran@.len() == all.len() && self.state() is Idle && inbox@.len() == 0
                },
                signals@ == earlier + Seq::new(ran@.len(), |t: int| IdleState { id }),
            decreases inbox@.len() + (if running { 1nat } else { 0nat }),
        {
            match inbox.pop_front() {
                None => {
                    running = false;
                },
                Some(message) => {
                    match self.receive(message) {
                        Some(job) => {
                            ran.push(job);
                            let signal = self.finish();
                            signals.push_back(signal);
                        },
                        None => {
                            running = false;
                        },
                    }
                },
            }
        }
        proof {
            lemma_jobs_before_terminate(all, ran@);
        }
        ran
    }
}

/// Where the first jobs of `messages` are `jobs`, and what follows them is a
/// `Terminate` or nothing, a worker runs exactly `jobs`.
pub proof fn lemma_jobs_before_terminate<J>(messages: Seq<Message<J>>, jobs: Seq<J>)
    requires
        jobs.len() <= messages.len(),
        forall|t: int| 0 <= t < jobs.len() ==> messages[t] == Message::NewJob(jobs[t]),
        jobs.len() == messages.len() || messages[jobs.len() as int] is Terminate,
    ensures
        jobs_before_terminate(messages) == jobs,
        unread_after_terminate(messages) == if jobs.len() == messages.len() {
            Seq::<Message<J>>::empty()
        } else {
            messages.skip(jobs.len() as int + 1)
        },
        tells_to_terminate(messages) <==> jobs.len() < messages.len(),
    decreases jobs.len(),
{
    if jobs.len() == 0 {
        if messages.len() > 0 {
            assert(messages[0] is Terminate);
            assert(messages.skip(1) == messages.drop_first());
        }
    } else {
        let rest = messages.drop_first();
        let fewer = jobs.drop_first();
        assert(messages[0] == Message::NewJob(jobs[0]));
        assert forall|t: int| 0 <= t < fewer.len() implies rest[t] == Message::NewJob(
            fewer[t],
        ) by {
            assert(rest[t] == messages[t + 1]);
        }
        lemma_jobs_before_terminate(rest, fewer);
        assert(seq![jobs[0]] + fewer == jobs);
        if jobs.len() < messages.len() {
            assert(rest.skip(fewer.len() as int + 1) == messages.skip(jobs.len() as int + 1));
            assert(messages[jobs.len() as int] is Terminate);
        }
        if tells_to_terminate(rest) {
            let t = choose|t: int| 0 <= t < rest.len() && #[trigger] rest[t] is Terminate;
            assert(messages[t + 1] is Terminate);
        }
        if tells_to_terminate(messages) {
            let t = choose|t: int| 0 <= t < messages.len() && #[trigger] messages[t] is Terminate;
            assert(rest[t - 1] is Terminate);
        }
    }
}

/// Jobs dealt out to `workers` workers in turn: the first job to the first
/// worker, the next to the next, and after the last worker the first again.
/// For each worker its jobs, in the order in which it gets them.
pub open spec fn dealt<J>(jobs: Seq<J>, workers: nat) -> Seq<Seq<J>>
    decreases jobs.len(),
{
    if jobs.len() == 0 {
        Seq::new(workers, |id: int| Seq::<J>::empty())
    } else {
        let before = dealt(jobs.drop_last(), workers);
        let id = (jobs.len() - 1) % (workers as int);
        before.update(id, before[id].push(jobs.last()))
    }
}

/// Dealing out jobs loses none and makes none up: every job is with some
/// worker, and every worker's job is one of the jobs.
pub proof fn lemma_dealt<J>(jobs: Seq<J>, workers: nat)
    requires
        workers > 0,
    ensures
        dealt(jobs, workers).len() == workers,
        forall|n: int|
            0 <= n < jobs.len() ==> exists|id: int, t: int|
                0 <= id < workers && 0 <= t < dealt(jobs, workers)[id].len() && #[trigger] dealt(
                    jobs,
                    workers,
                )[id][t] == #[trigger] jobs[n],
        forall|id: int, t: int|
            0 <= id < workers && 0 <= t < dealt(jobs, workers)[id].len() ==> exists|n: int|
                0 <= n < jobs.len() && #[trigger] jobs[n] == #[trigger] dealt(jobs, workers)[id][t],
    decreases jobs.len(),
{
    if jobs.len() > 0 {
        let earlier = jobs.drop_last();
        let before = dealt(earlier, workers);
        let after = dealt(jobs, workers);
        let last = jobs.len() - 1;
        let to = last % (workers as int);
        lemma_dealt(earlier, workers);
        vstd::arithmetic::div_mod::lemma_mod_pos_bound(last, workers as int);
        assert forall|n: int| 0 <= n < jobs.len() implies exists|id: int, t: int|
            0 <= id < workers && 0 <= t < after[id].len() && #[trigger] after[id][t]
                == #[trigger] jobs[n] by {
            if n == last {
                assert(after[to][before[to].len() as int] == jobs[n]);
            } else {
                assert(earlier[n] == jobs[n]);
                let (id, t) = choose|id: int, t: int|
                    0 <= id < workers && 0 <= t < before[id].len() && #[trigger] before[id][t]
                        == #[trigger] earlier[n];
                assert(after[id][t] == jobs[n]);
            }
        }
        assert forall|id: int, t: int|
            0 <= id < workers && 0 <= t < after[id].len() implies exists|n: int|
            0 <= n < jobs.len() && #[trigger] jobs[n] == #[trigger] after[id][t] by {
            if id == to && t == before[to].len() {
                assert(jobs[last] == after[id][t]);
            } else {
                assert(after[id][t] == before[id][t]);
                let n = choose|n: int|
                    0 <= n < earlier.len() && #[trigger] earlier[n] == #[trigger] before[id][t];
                assert(jobs[n] == after[id][t]);
            }
        }
    }
}

/// The jobs in `messages`, one for each message.
pub open spec fn sent_jobs<J>(messages: Seq<Message<J>>) -> Seq<J> {
    Seq::new(messages.len(), |t: int| messages[t]->NewJob_0)
}

/// A ThreadPool that manages a variable number of workers.
/// The number of workers however cannot exceed the number of threads that
/// the machine offers.
///
/// # Note
/// When you are done with the thread pool, you must call
/// `ThreadPool::terminate`. This sends every worker home and hands back
/// what each of them has run.
pub struct ThreadPool<J> {
    /// The workers, by their numbers.
    workers: Vec<Worker>,
    /// What each worker has been sent and has not taken yet.
    senders: Vec<VecDeque<Message<J>>>,
    /// The idle signals that nobody has received yet, oldest first.
    state_receiver: VecDeque<IdleState>,
    /// The jobs that each worker has run, in the order in which it ran them.
    completed: Vec<Vec<J>>,
}

impl<J> View for ThreadPool<J> {
    type V = Seq<Seq<J>>;

    /// For each worker, the jobs it has been given, in the order in which it
    /// was given them: those it has run, then those it has yet to start.
    open spec fn view(&self) -> Seq<Seq<J>> {
        Seq::new(self.count(), |id: int| self.done(id) + self.pending(id))
    }
}

impl<J> ThreadPool<J> {
    /// The number of workers.
    pub closed spec fn count(&self) -> nat {
        self.workers@.len()
    }

    /// The jobs that worker `id` has run.
    pub closed spec fn done(&self, id: int) -> Seq<J> {
        self.completed@[id]@
    }

    /// The jobs that worker `id` has been sent and has not started.
    pub closed spec fn pending(&self, id: int) -> Seq<J> {
        sent_jobs(self.senders@[id]@)
    }

    /// The idle signals that nobody has received yet, oldest first.
    pub closed spec fn idle_signals(&self) -> Seq<IdleState> {
        self.state_receiver@
    }

    /// The pool is in order: it has a worker, every worker is parked and
    /// bears its own number, and nobody has been told to terminate.
    pub closed spec fn wf(&self) -> bool {
        &&& self.workers@.len() >= 1
        &&& self.senders@.len() == self.workers@.len()
        &&& self.completed@.len() == self.workers@.len()
        &&& forall|id: int|
            0 <= id < self.workers@.len() ==> (#[trigger] self.workers@[id]).id() == id
                && self.workers@[id].state() is Idle
        &&& forall|id: int, t: int|
            0 <= id < self.senders@.len() && 0 <= t < self.senders@[id]@.len()
                ==> #[trigger] self.senders@[id]@[t] is NewJob
    }

    /// Whether worker `id` of `self` and of `other` have run the same jobs
    /// and have the same jobs waiting.
    pub open spec fn same_worker(&self, other: &Self, id: int) -> bool {
        self.done(id) == other.done(id) && self.pending(id) == other.pending(id)
    }

    /// Create a new ThreadPool.
    ///
    /// `size` is the number of workers asked for, `available` the number of
    /// threads that the machine offers. The pool gets the smaller of the two.
    /// Every worker starts parked and says so once.
    pub fn new(size: usize, available: usize) -> (pool: ThreadPool<J>)
        requires
            size > 0,
            available > 0,
        ensures
            pool.wf(),
            pool.count() == clamped_threads(size as nat, available as nat),
            size > available ==> pool.count() == available,
            forall|id: int|
                0 <= id < pool.count() ==> pool.done(id).len() == 0 && pool.pending(id).len() == 0,
            pool.idle_signals() == Seq::new(pool.count(), |id: int| IdleState { id: id as usize }),
    {
        let size = number_of_threads_to_use(size, available);
        let mut senders: Vec<VecDeque<Message<J>>> = Vec::with_capacity(size);
        let mut state_receiver: VecDeque<IdleState> = VecDeque::new();
        let mut workers: Vec<Worker> = Vec::with_capacity(size);
        let mut completed: Vec<Vec<J>> = Vec::with_capacity(size);
        for id in 0..size
            invariant
                workers@.len() == id,
                senders@.len() == id,
                completed@.len() == id,
                forall|w: int|
                    0 <= w < id ==> (#[trigger] workers@[w]).id() == w
                        && workers@[w].state() is Idle,
                forall|w: int| 0 <= w < id ==> (#[trigger] senders@[w])@.len() == 0,
                forall|w: int| 0 <= w < id ==> (#[trigger] completed@[w])@.len() == 0,
                state_receiver@ == Seq::new(id as nat, |w: int| IdleState { id: w as usize }),
        {
            let (worker, idle) = Worker::new(id);
            state_receiver.push_back(idle);
            workers.push(worker);
            senders.push(VecDeque::new());
            completed.push(Vec::new());
        }
        ThreadPool { workers, senders, state_receiver, completed }
    }

    /// The number of workers.
    pub fn size(&self) -> (workers: usize)
        ensures
            workers == self.count(),
    {
        self.workers.len()
    }

    /// Hand a job to a worker.
    /// The job is put at the end of what worker `id` has been sent; nothing
    /// is started by this.
    pub fn execute(&mut self, job: J, id: usize)
        requires
            old(self).wf(),
            id < old(self).count(),
        ensures
            final(self).wf(),
            final(self).count() == old(self).count(),
            final(self).idle_signals() == old(self).idle_signals(),
            final(self).done(id as int) == old(self).done(id as int),
            final(self).pending(id as int) == old(self).pending(id as int).push(job),
            forall|other: int|
                0 <= other < old(self).count() && other != id ==> final(self).same_worker(
                    old(self),
                    other,
                ),
            final(self)@ == old(self)@.update(id as int, old(self)@[id as int].push(job)),
    {
        let ghost before = self.senders@[id as int]@;
        self.senders[id].push_back(Message::NewJob(job));
        proof {
            assert(sent_jobs(self.senders@[id as int]@) == sent_jobs(before).push(job));
            assert forall|w: int| 0 <= w < self.count() implies #[trigger] self@[w] == old(
                self,
            )@.update(id as int, old(self)@[id as int].push(job))[w] by {
                if w == id {
                    assert(self.done(w) + self.pending(w) == (old(self).done(w) + old(
                        self,
                    ).pending(w)).push(job));
                }
            }
        }
    }

    /// Waits for a worker to say that it is idle, and takes the signal.
    ///
    /// The oldest signal that nobody has taken yet is handed out. Where none
    /// is waiting, the workers get on: the first of them that has a job
    /// waiting runs it to the end, and its signal is handed out. `None`
    /// comes back where no signal is waiting and no worker has a job: there
    /// a wait would never end.
    pub fn recv_idle(&mut self) -> (signal: Option<IdleState>)
        requires
            old(self).wf(),
        ensures
            final(self).wf(),
            final(self).count() == old(self).count(),
            final(self)@ == old(self)@,
            match signal {
                Some(idle) => if old(self).idle_signals().len() > 0 {
                    &&& idle == old(self).idle_signals()[0]
                    &&& final(self).idle_signals() == old(self).idle_signals().drop_first()
                    &&& forall|id: int|
                        0 <= id < old(self).count() ==> final(self).same_worker(old(self), id)
                } else {
                    &&& idle.id < old(self).count()
                    &&& old(self).pending(idle.id as int).len() > 0
                    &&& forall|id: int| 0 <= id < idle.id ==> old(self).pending(id).len() == 0
                    &&& final(self).pending(idle.id as int) == old(self).pending(
                        idle.id as int,
                    ).drop_first()
                    &&& final(self).done(idle.id as int) == old(self).done(idle.id as int).push(
                        old(self).pending(idle.id as int)[0],
                    )
                    &&& forall|id: int|
                        0 <= id < old(self).count() && id != idle.id ==> final(self).same_worker(
                            old(self),
                            id,
                        )
                    &&& final(self).idle_signals().len() == 0
                },
                None => {
                    &&& old(self).idle_signals().len() == 0
                    &&& final(self).idle_signals().len() == 0
                    &&& forall|id: int|
                        0 <= id < old(self).count() ==> old(self).pending(id).len() == 0
                            && final(self).same_worker(old(self), id)
                },
            },
    {
        match self.state_receiver.pop_front() {
            Some(idle) => {
                assert(self@ =~= old(self)@);
                return Some(idle);
            },
            None => {},
        }
        let workers_len = self.workers.len();
        let mut id: usize = 0;
        while id < workers_len
            invariant
                self.wf(),
                workers_len == self.workers@.len(),
                id <= workers_len,
                self.workers == old(self).workers,
                self.senders == old(self).senders,
                self.completed == old(self).completed,
                self.state_receiver@ == old(self).state_receiver@,
                self.state_receiver@.len() == 0,
                forall|w: int| 0 <= w < id ==> old(self).pending(w).len() == 0,
            decreases workers_len - id,
        {
            let ghost waiting = self.senders@[id as int]@;
            let ghost ran = self.completed@[id as int]@;
            if self.senders[id].len() > 0 {
                if let Some(message) = self.senders[id].pop_front() {
                    if let Some(job) = self.workers[id].receive(message) {
                        self.completed[id].push(job);
                        let idle = self.workers[id].finish();
                        proof {
                            assert(waiting[0] is NewJob);
                            assert(self.senders@[id as int]@ == waiting.subrange(
                                1,
                                waiting.len() as int,
                            ));
                            assert(self.pending(id as int) == old(self).pending(
                                id as int,
                            ).drop_first());
                            assert(self.done(id as int) == old(self).done(id as int).push(
                                old(self).pending(id as int)[0],
                            ));
                            assert(ran.push(job) + sent_jobs(waiting).drop_first() == ran
                                + sent_jobs(waiting));
                            assert forall|w: int| 0 <= w < old(self).count() && w
                                != id implies self.same_worker(old(self), w) by {
                                assert(self.senders@[w] == old(self).senders@[w]);
                                assert(self.completed@[w] == old(self).completed@[w]);
                            }
                            assert(self@ =~= old(self)@);
                            assert(self.wf());
                        }
                        return Some(idle);
                    }
                }
            }
            id += 1;
        }
        proof {
            assert(self@ =~= old(self)@);
        }
        None
    }

    /// Terminate the thread pool.
    /// Every worker is sent `Terminate` and then left to take what it has
    /// been sent, to the end. What comes back holds, for each worker, the
    /// jobs it has run, in the order in which it ran them: all it was given.
    pub fn terminate(pool: ThreadPool<J>) -> (ran: Vec<Vec<J>>)
        requires
            pool.wf(),
        ensures
            ran@.len() == pool.count(),
            forall|id: int| 0 <= id < ran@.len() ==> (#[trigger] ran@[id])@ == pool@[id],
    {
        let mut pool = pool;
        let ghost given = pool@;
        let workers_len = pool.workers.len();
        for i in 0..workers_len
            invariant
                workers_len == pool.workers@.len(),
                pool.senders@.len() == workers_len,
                pool.completed@.len() == workers_len,
                given.len() == workers_len,
                forall|id: int|
                    i <= id < workers_len ==> (#[trigger] pool.workers@[id]).state() is Idle,
                forall|id: int|
                    i <= id < workers_len ==> given[id] == (#[trigger] pool.completed@[id])@
                        + sent_jobs(pool.senders@[id]@),
                forall|id: int, t: int|
                    i <= id < workers_len && 0 <= t < pool.senders@[id]@.len()
                        ==> #[trigger] pool.senders@[id]@[t] is NewJob,
                forall|id: int| 0 <= id < i ==> (#[trigger] pool.completed@[id])@ == given[id],
        {
            let ghost waiting = pool.senders@[i as int]@;
            pool.senders[i].push_back(Message::Terminate);
            let mut ran_now = pool.workers[i].run(&mut pool.senders[i], &mut pool.state_receiver);
            proof {
                lemma_jobs_before_terminate(waiting.push(Message::Terminate), sent_jobs(waiting));
            }
            pool.completed[i].append(&mut ran_now);
        }
        pool.completed
    }
}

} // verus!
