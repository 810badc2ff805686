//! The pool as a state machine over mathematical values.
//!
//! A pool is described by the tasks submitted so far, how many of them have
//! been handed out, whether the submitting end is still open, and what each
//! worker holds. Every operation of the pool is one transition of the
//! machine, and `PoolView::inv` is the invariant that all of them keep.

use vstd::prelude::*;
use crate::worker::{
    count_in, lemma_count_in_update, lemma_count_in_zero, WorkerState, WorkerView,
};

verus! {

/// What a worker that asks the queue for work is told to do.
#[derive(Debug, PartialEq, Eq)]
pub enum Step<T> {
    /// Execute the task, then ask again.
    Run(T),
    /// Nothing is queued, but more may come: block until woken, then ask
    /// again.
    Wait,
    /// Nothing is queued and nothing will come: leave the loop.
    Exit,
}

/// One thing that can happen to a pool.
pub enum Event<T> {
    /// A caller submits a task.
    Submit(T),
    /// The worker with the given id asks the queue for work.
    Receive(int),
    /// The worker with the given id has run its task to the end.
    Complete(int),
    /// The submitting end of the queue is closed.
    Close,
    /// The thread of the worker with the given id has been waited for.
    Join(int),
}

/// What a pool is, seen from a contract.
pub struct PoolView<T> {
    /// The submitting end of the queue has not been closed.
    pub open: bool,
    /// Every task ever submitted, in the order of submission. The position of
    /// a task in the sequence is its ticket.
    pub submitted: Seq<T>,
    /// How many of the submitted tasks have been handed to a worker. They are
    /// handed out in order, so these are the tasks with tickets below `taken`.
    pub taken: nat,
    /// The workers, by id.
    pub workers: Seq<WorkerView>,
}

impl<T> PoolView<T> {
    /// A pool that has just been built with `size` workers.
    pub open spec fn fresh(size: nat) -> Self {
        PoolView {
            open: true,
            submitted: Seq::empty(),
            taken: 0,
            workers: Seq::new(size, |i: int| WorkerView::fresh(i as nat)),
        }
    }

    /// The tasks that wait in the queue, oldest first.
    pub open spec fn pending(self) -> Seq<T> {
        self.submitted.skip(self.taken as int)
    }

    /// `w` is the id of a worker of the pool.
    pub open spec fn has(self, w: int) -> bool {
        0 <= w < self.workers.len()
    }

    /// Worker `w` was handed the task with the given ticket.
    pub open spec fn holds(self, w: int, ticket: nat) -> bool {
        self.has(w) && self.workers[w].log.contains(ticket)
    }

    /// Some worker was handed the task with the given ticket.
    pub open spec fn delivered(self, ticket: nat) -> bool {
        exists|w: int| #[trigger] self.holds(w, ticket)
    }

    /// Some worker was handed the task with the given ticket and has run it
    /// to its end.
    pub open spec fn completed(self, ticket: nat) -> bool {
        exists|w: int| self.has(w) && #[trigger] self.workers[w].finished(ticket)
    }

    /// Some worker will come to ask the queue for work without being woken.
    pub open spec fn attended(self) -> bool {
        exists|w: int| self.has(w) && #[trigger] self.workers[w].active()
    }

    /// The number of workers that are about to ask the queue for work.
    pub open spec fn ready(self) -> nat {
        count_in(self.workers, WorkerState::Ready)
    }

    /// The number of workers that are blocked on the empty queue.
    pub open spec fn waiting(self) -> nat {
        count_in(self.workers, WorkerState::Waiting)
    }

    /// No worker sleeps over work: where a worker waits, each queued task
    /// has a ready worker coming for it.
    pub open spec fn conserving(self) -> bool {
        self.waiting() == 0 || self.submitted.len() - self.taken <= self.ready()
    }

    /// Worker `w` waits, and no worker with a smaller id does.
    pub open spec fn first_waiting(self, w: int) -> bool {
        &&& self.has(w)
        &&& self.workers[w].state is Waiting
        &&& forall|v: int| 0 <= v < w ==> (#[trigger] self.workers[v]).state !is Waiting
    }

    /// The worker that the next submission wakes: the waiting worker with the
    /// smallest id, if any worker waits.
    pub open spec fn wakes(self) -> Option<int> {
        if exists|w: int| self.first_waiting(w) {
            Some(choose|w: int| self.first_waiting(w))
        } else {
            None
        }
    }

    /// Every worker's thread has been waited for.
    pub open spec fn all_joined(self) -> bool {
        forall|w: int| self.has(w) ==> (#[trigger] self.workers[w]).state is Joined
    }

    /// Worker `w` has not been waited for, and every worker with a smaller id
    /// has been.
    pub open spec fn first_unjoined(self, w: int) -> bool {
        &&& self.has(w)
        &&& self.workers[w].state !is Joined
        &&& forall|v: int| 0 <= v < w ==> (#[trigger] self.workers[v]).state is Joined
    }

    /// The pool has been torn down: the queue is closed and every worker's
    /// thread has been waited for.
    pub open spec fn terminated(self) -> bool {
        !self.open && self.all_joined()
    }

    /// What the invariant says of the workers' logs: tasks leave the queue in
    /// the order of their tickets, each log is in that order too, and every
    /// ticket that has left the queue stands in the log of exactly one
    /// worker.
    pub open spec fn logs_inv(self) -> bool {
        &&& self.taken <= self.submitted.len()
        &&& forall|w: int| self.has(w) ==> (#[trigger] self.workers[w]).ordered()
        &&& forall|w: int| self.has(w) ==> (#[trigger] self.workers[w]).below(self.taken)
        &&& forall|ticket: nat| ticket < self.taken ==> #[trigger] self.delivered(ticket)
        &&& forall|v: int, w: int, ticket: nat|
            #[trigger] self.holds(v, ticket) && #[trigger] self.holds(w, ticket) ==> v == w
    }

    /// What the invariant says of the workers' states.
    pub open spec fn states_inv(self) -> bool {
        &&& self.workers.len() >= 1
        &&& forall|w: int| self.has(w) ==> (#[trigger] self.workers[w]).id == w
        &&& forall|w: int|
            self.has(w) && (#[trigger] self.workers[w]).state is Busy ==> self.workers[w].log.len()
                > 0
        &&& forall|w: int|
            self.has(w) && (#[trigger] self.workers[w]).state is Waiting ==> self.open
        &&& forall|w: int|
            self.has(w) && !(#[trigger] self.workers[w]).live() ==> !self.open && self.taken
                == self.submitted.len()
        &&& forall|v: int, w: int|
            0 <= v < w < self.workers.len() && (#[trigger] self.workers[w]).state is Joined
                ==> (#[trigger] self.workers[v]).state is Joined
        &&& self.taken < self.submitted.len() ==> self.attended()
        &&& self.conserving()
    }

    /// The invariant of the pool.
    pub open spec fn inv(self) -> bool {
        self.logs_inv() && self.states_inv()
    }

    /// The pool after `task` was submitted: the task is the last in the
    /// queue, and the first waiting worker, if there is one, has been woken.
    pub open spec fn submit(self, task: T) -> Self {
        PoolView {
            submitted: self.submitted.push(task),
            workers: match self.wakes() {
                Some(w) => self.workers.update(w, self.workers[w].woken()),
                None => self.workers,
            },
            ..self
        }
    }

    /// What a worker that asks for work is told: to run the oldest queued
    /// task if there is one; else to wait while the queue is open, and to
    /// leave once it is closed.
    pub open spec fn offer(self) -> Step<T> {
        if self.taken < self.submitted.len() {
            Step::Run(self.submitted[self.taken as int])
        } else if self.open {
            Step::Wait
        } else {
            Step::Exit
        }
    }

    /// The pool after worker `w` asked for work and was told `self.offer()`.
    pub open spec fn receive(self, w: int) -> Self {
        if self.taken < self.submitted.len() {
            PoolView {
                taken: self.taken + 1,
                workers: self.workers.update(w, self.workers[w].start(self.taken)),
                ..self
            }
        } else if self.open {
            PoolView {
                workers: self.workers.update(w, self.workers[w].moved(WorkerState::Waiting)),
                ..self
            }
        } else {
            PoolView {
                workers: self.workers.update(w, self.workers[w].moved(WorkerState::Exited)),
                ..self
            }
        }
    }

    /// The pool after worker `w` ran its task to the end.
    pub open spec fn complete(self, w: int) -> Self {
        PoolView {
            workers: self.workers.update(w, self.workers[w].moved(WorkerState::Ready)),
            ..self
        }
    }

    /// The pool after the submitting end of its queue was closed: what is
    /// queued stays queued, and every waiting worker has been woken.
    pub open spec fn close(self) -> Self {
        PoolView {
            open: false,
            workers: Seq::new(self.workers.len(), |w: int| self.workers[w].woken()),
            ..self
        }
    }

    /// The pool after the thread of worker `w` was waited for.
    pub open spec fn join(self, w: int) -> Self {
        PoolView {
            workers: self.workers.update(w, self.workers[w].moved(WorkerState::Joined)),
            ..self
        }
    }

    /// Worker `w` may ask for work: its loop is running, it holds no task and
    /// it is not blocked.
    pub open spec fn can_receive(self, w: int) -> bool {
        self.has(w) && self.workers[w].state is Ready
    }

    /// Worker `w` may report the end of a task: it is executing one.
    pub open spec fn can_complete(self, w: int) -> bool {
        self.has(w) && self.workers[w].state is Busy
    }

    /// The thread of worker `w` may be waited for: the queue is closed, the
    /// worker has left its loop, and every worker with a smaller id has been
    /// waited for already.
    pub open spec fn can_join(self, w: int) -> bool {
        &&& !self.open
        &&& self.workers[w].state is Exited
        &&& self.first_unjoined(w)
    }

    /// The event can happen in the state.
    pub open spec fn enabled(self, event: Event<T>) -> bool {
        match event {
            Event::Submit(_) => self.open,
            Event::Receive(w) => self.can_receive(w),
            Event::Complete(w) => self.can_complete(w),
            Event::Close => self.open,
            Event::Join(w) => self.can_join(w),
        }
    }

    /// The pool after the event.
    pub open spec fn step(self, event: Event<T>) -> Self {
        match event {
            Event::Submit(task) => self.submit(task),
            Event::Receive(w) => self.receive(w),
            Event::Complete(w) => self.complete(w),
            Event::Close => self.close(),
            Event::Join(w) => self.join(w),
        }
    }

    /// The pool after the events, taken in order.
    pub open spec fn run(self, events: Seq<Event<T>>) -> Self
        decreases events.len(),
    {
        if events.len() == 0 {
            self
        } else {
            self.run(events.drop_last()).step(events.last())
        }
    }

    /// Each of the events can happen in the state that the events before it
    /// lead to.
    pub open spec fn admits(self, events: Seq<Event<T>>) -> bool
        decreases events.len(),
    {
        events.len() == 0 || (self.admits(events.drop_last()) && self.run(
            events.drop_last(),
        ).enabled(events.last()))
    }

    /// At most one worker is the first that waits.
    pub proof fn lemma_first_waiting_unique(self, v: int, w: int)
        requires
            self.first_waiting(v),
            self.first_waiting(w),
        ensures
            v == w,
    {
        if v < w {
            assert(self.workers[v].state !is Waiting);
        } else if w < v {
            assert(self.workers[w].state !is Waiting);
        }
    }

    /// If one of the first `n` workers waits, there is a first worker that
    /// waits.
    pub proof fn lemma_first_waiting_exists(self, n: int) -> (w: int)
        requires
            0 <= n <= self.workers.len(),
            exists|v: int| 0 <= v < n && (#[trigger] self.workers[v]).state is Waiting,
        ensures
            self.first_waiting(w),
            self.wakes() == Some(w),
        decreases n,
    {
        let w = if exists|v: int| 0 <= v < n - 1 && (#[trigger] self.workers[v]).state is Waiting {
            self.lemma_first_waiting_exists(n - 1)
        } else {
            let v = choose|v: int| 0 <= v < n && (#[trigger] self.workers[v]).state is Waiting;
            assert(v == n - 1);
            v
        };
        self.lemma_first_waiting_unique(w, choose|w: int| self.first_waiting(w));
        w
    }

    /// A pool that has handed out as many tasks as this one, to workers with
    /// the same logs, keeps what the invariant says of the logs.
    proof fn lemma_same_logs(self, next: Self)
        requires
            self.logs_inv(),
            next.taken == self.taken,
            next.taken <= next.submitted.len(),
            next.workers.len() == self.workers.len(),
            forall|w: int| self.has(w) ==> (#[trigger] next.workers[w]).log == self.workers[w].log,
        ensures
            next.logs_inv(),
    {
        assert forall|w: int| next.has(w) implies (#[trigger] next.workers[w]).ordered() by {
            assert(self.workers[w].ordered());
        }
        assert forall|w: int| next.has(w) implies (#[trigger] next.workers[w]).below(
            next.taken,
        ) by {
            assert(self.workers[w].below(self.taken));
        }
        assert forall|ticket: nat| ticket < next.taken implies #[trigger] next.delivered(
            ticket,
        ) by {
            assert(self.delivered(ticket));
            let w = choose|w: int| self.holds(w, ticket);
            assert(next.holds(w, ticket));
        }
        assert forall|v: int, w: int, ticket: nat| #[trigger]
            next.holds(v, ticket) && #[trigger] next.holds(w, ticket) implies v == w by {
            assert(self.holds(v, ticket) && self.holds(w, ticket));
        }
    }

    /// When worker `w` takes the next ticket, a ticket that some worker holds
    /// afterwards is either the new one, held by `w`, or was held by the same
    /// worker before.
    proof fn lemma_held_before(self, w: int, v: int, ticket: nat)
        requires
            self.inv(),
            self.can_receive(w),
            self.taken < self.submitted.len(),
            self.receive(w).holds(v, ticket),
        ensures
            ticket == self.taken ==> v == w,
            ticket != self.taken ==> self.holds(v, ticket),
    {
        let next = self.receive(w);
        let i = choose|i: int|
            0 <= i < next.workers[v].log.len() && next.workers[v].log[i] == ticket;
        assert(self.workers[v].below(self.taken));
        if v == w {
            if i < self.workers[w].log.len() {
                assert(self.workers[w].log[i] == ticket);
            }
        } else {
            assert(self.workers[v].log[i] == ticket);
        }
    }

    /// A freshly built pool is valid.
    pub proof fn lemma_fresh_inv(size: nat)
        requires
            size >= 1,
        ensures
            Self::fresh(size).inv(),
    {
        lemma_count_in_zero(Self::fresh(size).workers, WorkerState::Waiting);
    }

    /// A submission keeps the invariant.
    pub proof fn lemma_submit_inv(self, task: T)
        requires
            self.inv(),
            self.open,
        ensures
            self.submit(task).inv(),
    {
        let next = self.submit(task);
        self.lemma_same_logs(next);
        lemma_count_in_zero(self.workers, WorkerState::Waiting);
        match self.wakes() {
            Some(w) => {
                assert(self.first_waiting(w));
                assert(next.workers[w].active());
                lemma_count_in_update(self.workers, WorkerState::Waiting, w, next.workers[w]);
                lemma_count_in_update(self.workers, WorkerState::Ready, w, next.workers[w]);
            },
            None => {
                assert(self.has(0));
                assert(self.workers[0].live());
                if self.workers[0].state is Waiting {
                    assert(self.first_waiting(0));
                }
                assert(next.workers[0].active());
                assert forall|w: int| self.has(w) implies (#[trigger] self.workers[w]).state
                    != WorkerState::Waiting by {
                    if self.workers[w].state is Waiting {
                        self.lemma_first_waiting_exists(w + 1);
                    }
                }
            },
        }
    }

    /// A worker's request for work keeps the invariant.
    pub proof fn lemma_receive_inv(self, w: int)
        requires
            self.inv(),
            self.can_receive(w),
        ensures
            self.receive(w).inv(),
    {
        let next = self.receive(w);
        if self.taken < self.submitted.len() {
            let old_log = self.workers[w].log;
            let new_log = next.workers[w].log;
            assert(self.workers[w].below(self.taken));
            assert(self.workers[w].ordered());
            assert(next.workers[w].ordered());
            assert forall|v: int| next.has(v) implies (#[trigger] next.workers[v]).below(
                next.taken,
            ) by {
                assert(self.workers[v].below(self.taken));
            }
            assert forall|v: int| next.has(v) implies (#[trigger] next.workers[v]).ordered() by {
                assert(self.workers[v].ordered());
            }
            assert forall|ticket: nat| ticket < next.taken implies #[trigger] next.delivered(
                ticket,
            ) by {
                if ticket == self.taken {
                    assert(new_log[old_log.len() as int] == ticket);
                    assert(next.holds(w, ticket));
                } else {
                    assert(self.delivered(ticket));
                    let v = choose|v: int| self.holds(v, ticket);
                    let i = choose|i: int|
                        0 <= i < self.workers[v].log.len() && self.workers[v].log[i] == ticket;
                    assert(next.workers[v].log[i] == ticket);
                    assert(next.holds(v, ticket));
                }
            }
            assert forall|u: int, v: int, ticket: nat| #[trigger]
                next.holds(u, ticket) && #[trigger] next.holds(v, ticket) implies u == v by {
                self.lemma_held_before(w, u, ticket);
                self.lemma_held_before(w, v, ticket);
                if ticket != self.taken {
                    assert(self.holds(u, ticket) && self.holds(v, ticket));
                }
            }
            assert(next.workers[w].active());
        } else {
            self.lemma_same_logs(next);
        }
        lemma_count_in_update(self.workers, WorkerState::Waiting, w, next.workers[w]);
        lemma_count_in_update(self.workers, WorkerState::Ready, w, next.workers[w]);
    }

    /// The end of a task keeps the invariant.
    pub proof fn lemma_complete_inv(self, w: int)
        requires
            self.inv(),
            self.can_complete(w),
        ensures
            self.complete(w).inv(),
    {
        let next = self.complete(w);
        self.lemma_same_logs(next);
        assert(next.workers[w].active());
        lemma_count_in_update(self.workers, WorkerState::Waiting, w, next.workers[w]);
        lemma_count_in_update(self.workers, WorkerState::Ready, w, next.workers[w]);
    }

    /// Closing the queue keeps the invariant.
    pub proof fn lemma_close_inv(self)
        requires
            self.inv(),
        ensures
            self.close().inv(),
    {
        let next = self.close();
        self.lemma_same_logs(next);
        if self.taken < self.submitted.len() {
            let w = choose|w: int| self.has(w) && #[trigger] self.workers[w].active();
            assert(next.workers[w].active());
        }
        lemma_count_in_zero(next.workers, WorkerState::Waiting);
    }

    /// Waiting for a thread keeps the invariant.
    pub proof fn lemma_join_inv(self, w: int)
        requires
            self.inv(),
            self.can_join(w),
        ensures
            self.join(w).inv(),
    {
        let next = self.join(w);
        self.lemma_same_logs(next);
        lemma_count_in_update(self.workers, WorkerState::Waiting, w, next.workers[w]);
        lemma_count_in_update(self.workers, WorkerState::Ready, w, next.workers[w]);
        if self.taken < self.submitted.len() {
            let v = choose|v: int| self.has(v) && #[trigger] self.workers[v].active();
            assert(next.workers[v].active());
        }
    }

    /// Every event that can happen keeps the invariant.
    pub proof fn lemma_step_inv(self, event: Event<T>)
        requires
            self.inv(),
            self.enabled(event),
        ensures
            self.step(event).inv(),
    {
        match event {
            Event::Submit(task) => self.lemma_submit_inv(task),
            Event::Receive(w) => self.lemma_receive_inv(w),
            Event::Complete(w) => self.lemma_complete_inv(w),
            Event::Close => self.lemma_close_inv(),
            Event::Join(w) => self.lemma_join_inv(w),
        }
    }
}

} // verus!
