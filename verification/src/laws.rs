//! What holds of every pool, whatever is submitted and however the workers
//! are scheduled.

use vstd::prelude::*;
use crate::model::{Event, PoolView};
use crate::worker::{lemma_count_in_zero, WorkerState};

verus! {

/// Every state that a freshly built pool can reach is valid: starting with
/// `size >= 1` workers, any sequence of events in which each event can happen
/// when its turn comes leads to a state that satisfies the invariant.
pub proof fn lemma_reachable_is_valid<T>(size: nat, events: Seq<Event<T>>)
    requires
        size >= 1,
        PoolView::<T>::fresh(size).admits(events),
    ensures
        PoolView::<T>::fresh(size).run(events).inv(),
    decreases events.len(),
{
    if events.len() == 0 {
        PoolView::<T>::lemma_fresh_inv(size);
    } else {
        lemma_reachable_is_valid(size, events.drop_last());
        PoolView::<T>::fresh(size).run(events.drop_last()).lemma_step_inv(events.last());
    }
}

/// A freshly built pool has exactly `size` workers, numbered from zero, and
/// the loop of each is running.
pub proof fn lemma_fresh_workers_live<T>(size: nat)
    ensures
        PoolView::<T>::fresh(size).workers.len() == size,
        PoolView::<T>::fresh(size).open,
        forall|w: int|
            0 <= w < size ==> (#[trigger] PoolView::<T>::fresh(size).workers[w]).live()
                && PoolView::<T>::fresh(size).workers[w].id == w,
{
}

/// Delivery happens exactly once: a task that has left the queue stands in
/// the log of one worker, at one position, and nowhere else.
pub proof fn lemma_delivered_exactly_once<T>(pool: PoolView<T>, ticket: nat) -> (at: (int, int))
    requires
        pool.inv(),
        ticket < pool.taken,
    ensures
        pool.has(at.0),
        0 <= at.1 < pool.workers[at.0].log.len(),
        pool.workers[at.0].log[at.1] == ticket,
        forall|w: int, j: int|
            pool.has(w) && 0 <= j < pool.workers[w].log.len() && pool.workers[w].log[j] == ticket
                ==> w == at.0 && j == at.1,
{
    assert(pool.delivered(ticket));
    let w0 = choose|w: int| pool.holds(w, ticket);
    let j0 = choose|j: int|
        0 <= j < pool.workers[w0].log.len() && pool.workers[w0].log[j] == ticket;
    assert forall|w: int, j: int|
        pool.has(w) && 0 <= j < pool.workers[w].log.len() && pool.workers[w].log[j]
            == ticket implies w == w0 && j == j0 by {
        assert(pool.holds(w, ticket));
        assert(pool.workers[w0].ordered());
    }
    (w0, j0)
}

/// No task is handed out twice: two entries of the workers' logs that name
/// the same ticket are the same entry.
pub proof fn lemma_no_duplicate_delivery<T>(pool: PoolView<T>, v: int, i: int, w: int, j: int)
    requires
        pool.inv(),
        pool.has(v),
        pool.has(w),
        0 <= i < pool.workers[v].log.len(),
        0 <= j < pool.workers[w].log.len(),
        pool.workers[v].log[i] == pool.workers[w].log[j],
    ensures
        v == w,
        i == j,
{
    let ticket = pool.workers[v].log[i];
    assert(pool.holds(v, ticket));
    assert(pool.holds(w, ticket));
    assert(pool.workers[v].ordered());
}

/// No task is lost: at every moment a submitted task either waits in the
/// queue, at the place that its ticket gives it, or has been handed to a
/// worker.
pub proof fn lemma_nothing_lost<T>(pool: PoolView<T>, ticket: nat)
    requires
        pool.inv(),
        ticket < pool.submitted.len(),
    ensures
        ticket >= pool.taken ==> pool.pending()[ticket - pool.taken] == pool.submitted[
            ticket as int
        ],
        pool.pending().len() == pool.submitted.len() - pool.taken,
        ticket < pool.taken <==> pool.delivered(ticket),
{
    if pool.delivered(ticket) {
        let w = choose|w: int| pool.holds(w, ticket);
        assert(pool.workers[w].below(pool.taken));
    }
}

/// A worker receives its tasks in the order of their submission: the tickets
/// in a worker's log grow from each entry to the next.
pub proof fn lemma_order_preserved<T>(pool: PoolView<T>, w: int, i: int, j: int)
    requires
        pool.inv(),
        pool.has(w),
        0 <= i < j < pool.workers[w].log.len(),
    ensures
        pool.workers[w].log[i] < pool.workers[w].log[j],
{
    assert(pool.workers[w].ordered());
}

/// Teardown drains the pool: once the queue is closed and every thread has
/// been waited for, nothing is queued, no worker holds a task, and every task
/// that was ever submitted has been run to its end.
pub proof fn lemma_terminated_is_drained<T>(pool: PoolView<T>)
    requires
        pool.inv(),
        pool.terminated(),
    ensures
        pool.taken == pool.submitted.len(),
        pool.pending().len() == 0,
        forall|w: int| pool.has(w) ==> !(#[trigger] pool.workers[w]).live(),
        forall|ticket: nat| ticket < pool.submitted.len() ==> #[trigger] pool.completed(ticket),
{
    assert(pool.has(0));
    assert(!pool.workers[0].live());
    assert forall|ticket: nat| ticket < pool.submitted.len() implies #[trigger] pool.completed(
        ticket,
    ) by {
        let at = lemma_delivered_exactly_once(pool, ticket);
        assert(pool.workers[at.0].finished(ticket));
    }
}

/// While the queue is open every worker's loop is running.
pub proof fn lemma_open_pool_all_live<T>(pool: PoolView<T>)
    requires
        pool.inv(),
        pool.open,
    ensures
        forall|w: int| pool.has(w) ==> (#[trigger] pool.workers[w]).live(),
{
}

/// Nothing goes back. Whatever event happens: a closed queue stays closed, a
/// loop that has ended stays ended, a thread that was waited for stays so,
/// the submitted tasks keep their tickets, the number of workers stays, and
/// each worker's log only grows at its end.
pub proof fn lemma_step_is_one_way<T>(pool: PoolView<T>, event: Event<T>)
    requires
        pool.inv(),
        pool.enabled(event),
    ensures
        !pool.open ==> !pool.step(event).open,
        pool.step(event).workers.len() == pool.workers.len(),
        pool.submitted.is_prefix_of(pool.step(event).submitted),
        !pool.open ==> pool.step(event).submitted == pool.submitted,
        pool.taken <= pool.step(event).taken,
        forall|w: int|
            pool.has(w) ==> {
                let before = #[trigger] pool.workers[w];
                let after = pool.step(event).workers[w];
                &&& after.id == before.id
                &&& before.log.is_prefix_of(after.log)
                &&& !before.live() ==> !after.live()
                &&& before.state is Joined ==> after.state is Joined
            },
{
}

/// No task is abandoned. Whatever happens, a worker that is executing a task
/// either goes on executing it or has run it to its end and is ready again;
/// and a worker leaves its loop only when it holds no task and has asked the
/// queue for work.
pub proof fn lemma_running_task_is_not_abandoned<T>(pool: PoolView<T>, event: Event<T>, w: int)
    requires
        pool.inv(),
        pool.enabled(event),
        pool.has(w),
    ensures
        pool.workers[w].state is Busy ==> {
            ||| pool.step(event).workers[w] == pool.workers[w]
            ||| event == Event::<T>::Complete(w) && pool.step(event).workers[w]
                == pool.workers[w].moved(WorkerState::Ready)
        },
        pool.workers[w].live() && !pool.step(event).workers[w].live() ==> {
            &&& pool.workers[w].state is Ready
            &&& event == Event::<T>::Receive(w)
            &&& pool.pending().len() == 0
            &&& !pool.open
        },
{
}

/// What has run stays run: a task that some worker has run to its end is
/// still in that worker's log, as a task run to its end, after any event.
pub proof fn lemma_completed_stays_completed<T>(pool: PoolView<T>, event: Event<T>, ticket: nat)
    requires
        pool.inv(),
        pool.enabled(event),
        pool.completed(ticket),
    ensures
        pool.step(event).completed(ticket),
{
    let next = pool.step(event);
    let w = choose|w: int| pool.has(w) && #[trigger] pool.workers[w].finished(ticket);
    let j = choose|j: int|
        0 <= j < pool.workers[w].log.len() && pool.workers[w].log[j] == ticket && (
        pool.workers[w].state is Busy ==> j + 1 < pool.workers[w].log.len());
    lemma_step_is_one_way(pool, event);
    assert(pool.workers[w].log.is_prefix_of(next.workers[w].log));
    assert(next.workers[w].log[j] == ticket);
    assert(next.workers[w].finished(ticket));
}

/// No worker sleeps over work: while some worker waits, the queued tasks are
/// no more than the workers that are awake and about to ask for one.
pub proof fn lemma_no_worker_sleeps_over_work<T>(pool: PoolView<T>, w: int)
    requires
        pool.inv(),
        pool.has(w),
        pool.workers[w].state is Waiting,
    ensures
        pool.pending().len() <= pool.ready(),
{
    lemma_count_in_zero(pool.workers, WorkerState::Waiting);
}

/// A submission wakes exactly one waiting worker: if any worker waits, one of
/// them becomes ready and every other worker stays as it was; if none waits,
/// every worker stays as it was.
pub proof fn lemma_submit_wakes_exactly_one<T>(pool: PoolView<T>, task: T)
    requires
        pool.inv(),
        pool.open,
    ensures
        match pool.wakes() {
            Some(w) => {
                &&& pool.has(w)
                &&& pool.workers[w].state is Waiting
                &&& pool.submit(task).workers[w].state is Ready
                &&& forall|v: int|
                    pool.has(v) && v != w ==> #[trigger] pool.submit(task).workers[v]
                        == pool.workers[v]
            },
            None => {
                &&& forall|v: int| pool.has(v) ==> (#[trigger] pool.workers[v]).state !is Waiting
                &&& pool.submit(task).workers == pool.workers
            },
        },
{
    match pool.wakes() {
        Some(w) => {
            assert(pool.first_waiting(w));
        },
        None => {
            assert forall|v: int| pool.has(v) implies (#[trigger] pool.workers[v]).state
                !is Waiting by {
                if pool.workers[v].state is Waiting {
                    let w = pool.lemma_first_waiting_exists(v + 1);
                }
            }
        },
    }
}

/// Every task runs exactly once. Build a pool of any size, let anything
/// happen to it that can happen, in any order; if the pool has been torn down
/// in the end, then each task that was ever submitted stands in the log of
/// one worker, at one position, and that worker has run it to its end.
pub proof fn lemma_teardown_runs_everything_once<T>(
    size: nat,
    events: Seq<Event<T>>,
    ticket: nat,
) -> (at: (int, int))
    requires
        size >= 1,
        PoolView::<T>::fresh(size).admits(events),
        PoolView::<T>::fresh(size).run(events).terminated(),
        ticket < PoolView::<T>::fresh(size).run(events).submitted.len(),
    ensures
        ({
            let pool = PoolView::<T>::fresh(size).run(events);
            &&& pool.has(at.0)
            &&& 0 <= at.1 < pool.workers[at.0].log.len()
            &&& pool.workers[at.0].log[at.1] == ticket
            &&& pool.workers[at.0].finished(ticket)
            &&& forall|w: int, j: int|
                pool.has(w) && 0 <= j < pool.workers[w].log.len() && pool.workers[w].log[j]
                    == ticket ==> w == at.0 && j == at.1
        }),
{
    let pool = PoolView::<T>::fresh(size).run(events);
    lemma_reachable_is_valid(size, events);
    lemma_terminated_is_drained(pool);
    let at = lemma_delivered_exactly_once(pool, ticket);
    assert(pool.workers[at.0].finished(ticket));
    at
}

} // verus!
