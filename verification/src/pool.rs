//! The pool itself: a fixed set of workers and the queue that feeds them.
//!
//! The pool decides; it does not run anything. Whoever owns the threads tells
//! it what happened (a task was submitted, a worker asks for work, a worker
//! finished, a thread was waited for) and does what it answers.

use vstd::prelude::*;
use std::collections::VecDeque;
use crate::model::{PoolView, Step};
use crate::worker::{Worker, WorkerState, WorkerView};

verus! {

/// A pool of a fixed number of workers that share one queue of tasks.
///
/// `T` is the type of a task. The pool stores tasks and hands them on; it
/// never looks into one.
pub struct ThreadPool<T> {
    /// The workers, by id.
    workers: Vec<Worker>,
    /// The tasks that no worker has been handed yet, oldest first.
    queue: VecDeque<T>,
    /// Whether the submitting end of the queue is open.
    open: bool,
    /// Every task ever submitted, in the order of submission.
    submitted: Ghost<Seq<T>>,
}

impl<T> View for ThreadPool<T> {
    type V = PoolView<T>;

    closed spec fn view(&self) -> PoolView<T> {
        PoolView {
            open: self.open,
            submitted: self.submitted@,
            taken: (self.submitted@.len() - self.queue@.len()) as nat,
            workers: Seq::new(self.workers@.len(), |i: int| self.workers@[i]@),
        }
    }
}

impl<T> ThreadPool<T> {
    /// The queue holds exactly the submitted tasks that no worker has been
    /// handed yet, oldest first.
    pub closed spec fn queue_ok(&self) -> bool {
        &&& self.queue@.len() <= self.submitted@.len()
        &&& self.queue@ == self.submitted@.skip(self.submitted@.len() - self.queue@.len())
    }

    /// The pool is valid.
    pub open spec fn wf(&self) -> bool {
        &&& self.queue_ok()
        &&& self@.inv()
    }

    /// Builds a pool of `size` workers, numbered from zero, all ready to ask
    /// for work, with an open and empty queue. A pool has at least one
    /// worker.
    pub fn new(size: usize) -> (pool: ThreadPool<T>)
        requires
            size > 0,
        ensures
            pool.wf(),
            pool@ == PoolView::<T>::fresh(size as nat),
            pool@.workers.len() == size,
            forall|w: int|
                0 <= w < size ==> #[trigger] pool@.workers[w] == WorkerView::fresh(w as nat),
    {
        let mut workers: Vec<Worker> = Vec::with_capacity(size);
        for i in 0..size
            invariant
                workers@.len() == i,
                forall|j: int|
                    0 <= j < i ==> (#[trigger] workers@[j])@ == WorkerView::fresh(j as nat),
        {
            workers.push(Worker::new(i));
        }
        let pool = ThreadPool {
            workers,
            queue: VecDeque::new(),
            open: true,
            submitted: Ghost(Seq::empty()),
        };
        proof {
            assert(pool@.workers =~= PoolView::<T>::fresh(size as nat).workers);
            assert(pool.queue@ =~= pool.submitted@.skip(0));
            PoolView::<T>::lemma_fresh_inv(size as nat);
        }
        pool
    }

    /// Submits `task`: appends it to the queue and wakes one waiting worker.
    ///
    /// Returns the id of the worker that was woken, the waiting worker with
    /// the smallest id, or `None` where no worker waits.
    pub fn execute(&mut self, task: T) -> (woken: Option<usize>)
        requires
            old(self).wf(),
            old(self)@.open,
        ensures
            final(self).wf(),
            final(self)@ == old(self)@.submit(task),
            match woken {
                Some(id) => old(self)@.wakes() == Some(id as int),
                None => old(self)@.wakes() is None,
            },
    {
        let ghost before = self@;
        proof {
            before.lemma_submit_inv(task);
        }
        let woken = self.first_waiting();
        proof {
            match woken {
                Some(id) => {
                    before.lemma_first_waiting_unique(id as int, before.wakes()->0);
                },
                None => {
                    assert forall|w: int| !before.first_waiting(w) by {
                        if before.has(w) {
                            assert(before.workers[w].state !is Waiting);
                        }
                    }
                },
            }
        }
        if let Some(id) = woken {
            self.workers[id].wake();
        }
        self.submitted = Ghost(self.submitted@.push(task));
        self.queue.push_back(task);
        proof {
            assert(self@.workers =~= before.submit(task).workers);
            assert(self.queue@ =~= self.submitted@.skip(
                self.submitted@.len() - self.queue@.len(),
            ));
        }
        woken
    }

    /// The waiting worker with the smallest id, if any worker waits.
    fn first_waiting(&self) -> (first: Option<usize>)
        ensures
            match first {
                Some(id) => self@.first_waiting(id as int),
                None => forall|w: int|
                    self@.has(w) ==> (#[trigger] self@.workers[w]).state !is Waiting,
            },
    {
        let mut i: usize = 0;
        while i < self.workers.len()
            invariant
                i <= self.workers@.len(),
                forall|v: int| 0 <= v < i ==> (#[trigger] self@.workers[v]).state !is Waiting,
            decreases self.workers@.len() - i,
        {
            match self.workers[i].state() {
                WorkerState::Waiting => {
                    return Some(i);
                },
                _ => {},
            }
            i += 1;
        }
        None
    }

    /// Worker `id` asks the queue for work.
    ///
    /// The oldest queued task, if there is one, leaves the queue and is
    /// handed to the worker, which is busy from then on. With nothing queued
    /// the worker is told to wait while the queue is open, and waits from
    /// then on; once the queue is closed the worker is told to leave, and its
    /// loop has ended.
    pub fn receive(&mut self, id: usize) -> (step: Step<T>)
        requires
            old(self).wf(),
            old(self)@.can_receive(id as int),
        ensures
            final(self).wf(),
            step == old(self)@.offer(),
            final(self)@ == old(self)@.receive(id as int),
    {
        let ghost before = self@;
        proof {
            before.lemma_receive_inv(id as int);
        }
        match self.queue.pop_front() {
            Some(task) => {
                self.workers[id].start(Ghost(before.taken));
                proof {
                    assert(self@.workers =~= before.receive(id as int).workers);
                    assert(self.queue@ =~= self.submitted@.skip(
                        self.submitted@.len() - self.queue@.len(),
                    ));
                }
                Step::Run(task)
            },
            None => {
                if self.open {
                    self.workers[id].move_to(WorkerState::Waiting);
                    proof {
                        assert(self@.workers =~= before.receive(id as int).workers);
                    }
                    Step::Wait
                } else {
                    self.workers[id].move_to(WorkerState::Exited);
                    proof {
                        assert(self@.workers =~= before.receive(id as int).workers);
                    }
                    Step::Exit
                }
            },
        }
    }

    /// Worker `id` has run its task to the end and is ready to ask for the
    /// next one.
    pub fn complete(&mut self, id: usize)
        requires
            old(self).wf(),
            old(self)@.can_complete(id as int),
        ensures
            final(self).wf(),
            final(self)@ == old(self)@.complete(id as int),
    {
        let ghost before = self@;
        proof {
            before.lemma_complete_inv(id as int);
        }
        self.workers[id].move_to(WorkerState::Ready);
        proof {
            assert(self@.workers =~= before.complete(id as int).workers);
        }
    }

    /// Closes the submitting end of the queue and wakes every waiting
    /// worker. What is queued stays queued.
    pub fn close(&mut self)
        requires
            old(self).wf(),
            old(self)@.open,
        ensures
            final(self).wf(),
            final(self)@ == old(self)@.close(),
    {
        let ghost before = self@;
        proof {
            before.lemma_close_inv();
        }
        self.open = false;
        let mut i: usize = 0;
        while i < self.workers.len()
            invariant
                i <= self.workers@.len(),
                self.workers@.len() == before.workers.len(),
                self.queue == old(self).queue,
                self.submitted == old(self).submitted,
                !self.open,
                forall|v: int|
                    0 <= v < i ==> (#[trigger] self.workers@[v])@ == before.workers[v].woken(),
                forall|v: int|
                    i <= v < self.workers@.len() ==> (#[trigger] self.workers@[v])@
                        == before.workers[v],
            decreases self.workers@.len() - i,
        {
            self.workers[i].wake();
            i += 1;
        }
        proof {
            assert(self@.workers =~= before.close().workers);
        }
    }

    /// The thread of worker `id` has been waited for.
    pub fn join(&mut self, id: usize)
        requires
            old(self).wf(),
            old(self)@.can_join(id as int),
        ensures
            final(self).wf(),
            final(self)@ == old(self)@.join(id as int),
    {
        let ghost before = self@;
        proof {
            before.lemma_join_inv(id as int);
        }
        self.workers[id].move_to(WorkerState::Joined);
        proof {
            assert(self@.workers =~= before.join(id as int).workers);
        }
    }

    /// The number of workers.
    pub fn size(&self) -> (size: usize)
        ensures
            size == self@.workers.len(),
    {
        self.workers.len()
    }

    /// Whether the submitting end of the queue is still open.
    pub fn is_open(&self) -> (open: bool)
        ensures
            open == self@.open,
    {
        self.open
    }

    /// The number of tasks that wait in the queue.
    pub fn pending(&self) -> (count: usize)
        requires
            self.wf(),
        ensures
            count == self@.pending().len(),
            count == self@.submitted.len() - self@.taken,
    {
        self.queue.len()
    }

    /// The worker with the given id, if the pool has one.
    pub fn worker(&self, id: usize) -> (worker: Option<&Worker>)
        ensures
            match worker {
                Some(worker) => self@.has(id as int) && worker@ == self@.workers[id as int],
                None => !self@.has(id as int),
            },
    {
        if id < self.workers.len() {
            Some(&self.workers[id])
        } else {
            None
        }
    }

    /// The worker whose thread is to be waited for next: the one with the
    /// smallest id among those not waited for yet. `None` when every thread
    /// has been waited for.
    pub fn next_to_join(&self) -> (next: Option<usize>)
        ensures
            match next {
                Some(id) => self@.first_unjoined(id as int),
                None => self@.all_joined(),
            },
    {
        let mut i: usize = 0;
        while i < self.workers.len()
            invariant
                i <= self.workers@.len(),
                forall|v: int| 0 <= v < i ==> (#[trigger] self@.workers[v]).state is Joined,
            decreases self.workers@.len() - i,
        {
            match self.workers[i].state() {
                WorkerState::Joined => {},
                _ => {
                    return Some(i);
                },
            }
            i += 1;
        }
        None
    }

    /// Whether the pool has been torn down: the queue is closed and every
    /// worker's thread has been waited for.
    pub fn is_terminated(&self) -> (terminated: bool)
        ensures
            terminated == self@.terminated(),
    {
        !self.open && self.next_to_join().is_none()
    }
}

} // verus!
