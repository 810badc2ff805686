//! One worker of the pool: its identity, the state of its thread, and the
//! record of what it has been handed.

use vstd::prelude::*;

verus! {

/// The state of a worker's thread.
///
/// While its loop runs, a thread moves among `Ready`, `Waiting` and `Busy`.
/// From `Ready` it may move on to `Exited`, and from there to `Joined`; it
/// never comes back from either.
#[derive(Clone, Copy, Debug, PartialEq, Eq, Structural)]
pub enum WorkerState {
    /// The loop is running and the worker is about to ask the queue for work.
    Ready,
    /// The loop is running and the worker is blocked on the empty queue until
    /// it is woken.
    Waiting,
    /// The loop is running and the worker is executing a task.
    Busy,
    /// The loop has ended; nobody has waited for the thread yet.
    Exited,
    /// The thread has ended and has been waited for.
    Joined,
}

/// What a worker is, seen from a contract.
///
/// Every task that is submitted to a pool gets a ticket: its position in the
/// order of submission, counted from zero. A worker's log lists the tickets of
/// the tasks that were handed to it, oldest first.
pub struct WorkerView {
    pub id: nat,
    pub state: WorkerState,
    pub log: Seq<nat>,
}

impl WorkerView {
    /// A worker whose loop has just started.
    pub open spec fn fresh(id: nat) -> WorkerView {
        WorkerView { id, state: WorkerState::Ready, log: Seq::empty() }
    }

    /// The loop of the worker is still running.
    pub open spec fn live(self) -> bool {
        self.state is Ready || self.state is Waiting || self.state is Busy
    }

    /// The loop of the worker is running and will come to ask the queue for
    /// work without being woken.
    pub open spec fn active(self) -> bool {
        self.state is Ready || self.state is Busy
    }

    /// The tickets in the log grow strictly from each entry to the next.
    pub open spec fn ordered(self) -> bool {
        forall|i: int, j: int| 0 <= i < j < self.log.len() ==> self.log[i] < self.log[j]
    }

    /// Every ticket in the log is smaller than `bound`.
    pub open spec fn below(self, bound: nat) -> bool {
        forall|i: int| 0 <= i < self.log.len() ==> self.log[i] < bound
    }

    /// The worker was handed the task with the given ticket and has run it to
    /// its end.
    pub open spec fn finished(self, ticket: nat) -> bool {
        exists|j: int|
            0 <= j < self.log.len() && self.log[j] == ticket && (self.state is Busy ==> j + 1
                < self.log.len())
    }

    /// The worker after it was handed the task with the given ticket.
    pub open spec fn start(self, ticket: nat) -> WorkerView {
        WorkerView { state: WorkerState::Busy, log: self.log.push(ticket), ..self }
    }

    /// The worker in the given state, with its log as it was.
    pub open spec fn moved(self, state: WorkerState) -> WorkerView {
        WorkerView { state, ..self }
    }

    /// The worker after a wake-up call: ready if it was waiting, else as it
    /// was.
    pub open spec fn woken(self) -> WorkerView {
        if self.state is Waiting {
            self.moved(WorkerState::Ready)
        } else {
            self
        }
    }
}

/// The number of workers that are in the given state.
pub open spec fn count_in(workers: Seq<WorkerView>, state: WorkerState) -> nat
    decreases workers.len(),
{
    if workers.len() == 0 {
        0
    } else {
        count_in(workers.drop_last(), state) + if workers.last().state == state {
            1nat
        } else {
            0nat
        }
    }
}

/// Replacing one worker changes the count by the difference between the two.
pub proof fn lemma_count_in_update(
    workers: Seq<WorkerView>,
    state: WorkerState,
    w: int,
    worker: WorkerView,
)
    requires
        0 <= w < workers.len(),
    ensures
        count_in(workers.update(w, worker), state) + if workers[w].state == state {
            1nat
        } else {
            0nat
        } == count_in(workers, state) + if worker.state == state {
            1nat
        } else {
            0nat
        },
    decreases workers.len(),
{
    let updated = workers.update(w, worker);
    if w == workers.len() - 1 {
        assert(updated.drop_last() =~= workers.drop_last());
    } else {
        lemma_count_in_update(workers.drop_last(), state, w, worker);
        assert(updated.drop_last() =~= workers.drop_last().update(w, worker));
    }
}

/// The count is zero exactly when no worker is in the state.
pub proof fn lemma_count_in_zero(workers: Seq<WorkerView>, state: WorkerState)
    ensures
        count_in(workers, state) == 0 <==> forall|w: int|
            0 <= w < workers.len() ==> (#[trigger] workers[w]).state != state,
    decreases workers.len(),
{
    if workers.len() > 0 {
        let front = workers.drop_last();
        lemma_count_in_zero(front, state);
        if count_in(workers, state) == 0 {
            assert forall|w: int| 0 <= w < workers.len() implies (#[trigger] workers[w]).state
                != state by {
                if w < front.len() {
                    assert(front[w].state != state);
                }
            }
        }
        if forall|w: int| 0 <= w < workers.len() ==> (#[trigger] workers[w]).state != state {
            assert forall|w: int| 0 <= w < front.len() implies (#[trigger] front[w]).state
                != state by {
                assert(workers[w].state != state);
            }
            assert(workers.last().state != state);
        }
    }
}

/// One worker of a pool.
pub struct Worker {
    /// The worker's number in its pool.
    id: usize,
    /// The state of the worker's thread.
    state: WorkerState,
    /// The tickets of the tasks that the worker was handed, oldest first.
    log: Ghost<Seq<nat>>,
}

impl View for Worker {
    type V = WorkerView;

    closed spec fn view(&self) -> WorkerView {
        WorkerView { id: self.id as nat, state: self.state, log: self.log@ }
    }
}

impl Worker {
    /// A worker whose loop has just started: ready, with nothing received.
    pub fn new(id: usize) -> (worker: Worker)
        ensures
            worker@ == WorkerView::fresh(id as nat),
    {
        Worker { id, state: WorkerState::Ready, log: Ghost(Seq::empty()) }
    }

    /// The worker's number in its pool.
    pub fn id(&self) -> (id: usize)
        ensures
            id == self@.id,
    {
        self.id
    }

    /// The state of the worker's thread.
    pub fn state(&self) -> (state: WorkerState)
        ensures
            state == self@.state,
    {
        self.state
    }

    /// Whether the worker's loop is still running.
    pub fn is_live(&self) -> (live: bool)
        ensures
            live == self@.live(),
    {
        match self.state {
            WorkerState::Ready | WorkerState::Waiting | WorkerState::Busy => true,
            WorkerState::Exited | WorkerState::Joined => false,
        }
    }

    /// Hands the worker the task with the given ticket.
    pub(crate) fn start(&mut self, Ghost(ticket): Ghost<nat>)
        ensures
            final(self)@ == old(self)@.start(ticket),
    {
        self.state = WorkerState::Busy;
        self.log = Ghost(self.log@.push(ticket));
    }

    /// Moves the worker's thread to the given state.
    pub(crate) fn move_to(&mut self, state: WorkerState)
        ensures
            final(self)@ == old(self)@.moved(state),
    {
        self.state = state;
    }

    /// Wakes the worker if it waits.
    pub(crate) fn wake(&mut self)
        ensures
            final(self)@ == old(self)@.woken(),
    {
        match self.state {
            WorkerState::Waiting => {
                self.state = WorkerState::Ready;
            },
            _ => {},
        }
    }
}

} // verus!
