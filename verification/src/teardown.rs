//! Teardown ends: a closed pool is a known number of events away from being
//! torn down, some event can always happen until then, and each one brings
//! the end one event closer.

use vstd::prelude::*;
use crate::model::{Event, PoolView};
use crate::worker::{WorkerState, WorkerView};

verus! {

/// The number of events that one worker of a closed pool still takes part in:
/// one to learn that the queue is closed and drained, one more to be waited
/// for, and one before those to end the task that it is executing.
pub open spec fn worker_steps(worker: WorkerView) -> nat {
    match worker.state {
        WorkerState::Busy => 3,
        WorkerState::Ready | WorkerState::Waiting => 2,
        WorkerState::Exited => 1,
        WorkerState::Joined => 0,
    }
}

/// The sum of `worker_steps` over the workers.
pub open spec fn workers_steps(workers: Seq<WorkerView>) -> nat
    decreases workers.len(),
{
    if workers.len() == 0 {
        0
    } else {
        workers_steps(workers.drop_last()) + worker_steps(workers.last())
    }
}

/// The number of events between a closed pool and its end: two for each
/// queued task, which has to be received and completed, and those of the
/// workers.
pub open spec fn steps_left<T>(pool: PoolView<T>) -> nat {
    (2 * (pool.submitted.len() - pool.taken) + workers_steps(pool.workers)) as nat
}

/// Replacing one worker changes the sum by the difference between the two.
proof fn lemma_workers_steps_update(workers: Seq<WorkerView>, w: int, worker: WorkerView)
    requires
        0 <= w < workers.len(),
    ensures
        workers_steps(workers.update(w, worker)) + worker_steps(workers[w]) == workers_steps(
            workers,
        ) + worker_steps(worker),
    decreases workers.len(),
{
    let updated = workers.update(w, worker);
    if w == workers.len() - 1 {
        assert(updated.drop_last() =~= workers.drop_last());
    } else {
        lemma_workers_steps_update(workers.drop_last(), w, worker);
        assert(updated.drop_last() =~= workers.drop_last().update(w, worker));
    }
}

/// No worker counts for more than the sum.
proof fn lemma_workers_steps_bound(workers: Seq<WorkerView>, w: int)
    requires
        0 <= w < workers.len(),
    ensures
        worker_steps(workers[w]) <= workers_steps(workers),
    decreases workers.len(),
{
    if w < workers.len() - 1 {
        lemma_workers_steps_bound(workers.drop_last(), w);
    }
}

/// Workers that have all been waited for count for nothing.
proof fn lemma_workers_steps_joined(workers: Seq<WorkerView>)
    requires
        forall|w: int| 0 <= w < workers.len() ==> (#[trigger] workers[w]).state is Joined,
    ensures
        workers_steps(workers) == 0,
    decreases workers.len(),
{
    if workers.len() > 0 {
        lemma_workers_steps_joined(workers.drop_last());
    }
}

/// In a closed pool no worker waits, and no worker that asks for work is told
/// to wait.
pub proof fn lemma_closed_pool_never_waits<T>(pool: PoolView<T>)
    requires
        pool.inv(),
        !pool.open,
    ensures
        forall|w: int| pool.has(w) ==> (#[trigger] pool.workers[w]).state !is Waiting,
        pool.offer() !is Wait,
{
}

/// A queued task is never left alone: while a task waits in the queue, some
/// worker is executing a task or is about to ask for one, and will come to
/// take it without a further wake-up.
pub proof fn lemma_no_lost_wakeup<T>(pool: PoolView<T>)
    requires
        pool.inv(),
        pool.pending().len() > 0,
    ensures
        exists|w: int| pool.has(w) && #[trigger] pool.workers[w].active(),
{
    assert(pool.attended());
}

/// Teardown is never stuck: in a closed pool that is not torn down yet, the
/// worker that is to be waited for next can ask for work, or can end its
/// task, or can be waited for.
pub proof fn lemma_teardown_never_stuck<T>(pool: PoolView<T>) -> (w: int)
    requires
        pool.inv(),
        !pool.open,
        !pool.terminated(),
    ensures
        pool.first_unjoined(w),
        pool.can_receive(w) || pool.can_complete(w) || pool.can_join(w),
{
    lemma_closed_pool_never_waits(pool);
    lemma_first_unjoined_exists(pool, pool.workers.len() as int)
}

/// Among the first `n` workers, if one has not been waited for, there is a
/// first such worker.
proof fn lemma_first_unjoined_exists<T>(pool: PoolView<T>, n: int) -> (w: int)
    requires
        0 <= n <= pool.workers.len(),
        exists|v: int| 0 <= v < n && (#[trigger] pool.workers[v]).state !is Joined,
    ensures
        pool.first_unjoined(w),
    decreases n,
{
    if exists|v: int| 0 <= v < n - 1 && (#[trigger] pool.workers[v]).state !is Joined {
        lemma_first_unjoined_exists(pool, n - 1)
    } else {
        let v = choose|v: int| 0 <= v < n && (#[trigger] pool.workers[v]).state !is Joined;
        assert(v == n - 1);
        v
    }
}

/// Each event that happens to a closed pool brings the end of teardown one
/// event closer.
pub proof fn lemma_teardown_counts_down<T>(pool: PoolView<T>, event: Event<T>)
    requires
        pool.inv(),
        !pool.open,
        pool.enabled(event),
    ensures
        steps_left(pool.step(event)) + 1 == steps_left(pool),
{
    match event {
        Event::Receive(w) => {
            lemma_workers_steps_update(pool.workers, w, pool.step(event).workers[w]);
        },
        Event::Complete(w) => {
            lemma_workers_steps_update(pool.workers, w, pool.step(event).workers[w]);
        },
        Event::Join(w) => {
            lemma_workers_steps_update(pool.workers, w, pool.step(event).workers[w]);
        },
        _ => {},
    }
}

/// A closed pool is torn down exactly when no event is left.
pub proof fn lemma_terminated_when_nothing_left<T>(pool: PoolView<T>)
    requires
        pool.inv(),
        !pool.open,
    ensures
        pool.terminated() <==> steps_left(pool) == 0,
{
    if pool.terminated() {
        lemma_workers_steps_joined(pool.workers);
        assert(pool.has(0));
        assert(!pool.workers[0].live());
    }
    if steps_left(pool) == 0 {
        assert forall|w: int| pool.has(w) implies (#[trigger] pool.workers[w]).state is Joined by {
            lemma_workers_steps_bound(pool.workers, w);
        }
    }
}

} // verus!
