//! A fixed-size worker pool, as a verified state machine.
//!
//! A pool has a fixed number of workers and one queue of tasks. Callers
//! submit tasks; each worker asks the queue for a task, runs it, and asks
//! again; when the queue is closed the workers drain it and leave, and their
//! threads are waited for in the order of their ids.
//!
//! [`ThreadPool`] holds the state of such a pool and takes every decision in
//! it: which task a worker is handed, when a worker blocks and who wakes it,
//! when a worker leaves, which thread is waited for next. It starts no
//! thread and runs no task. The code that owns the threads reports what
//! happens, one event at a time, and acts on the answers.
//!
//! - [`worker`] holds one worker's record.
//! - [`model`] describes the pool over mathematical values: its state, its
//!   transitions and its invariant.
//! - [`pool`] is the executable pool; each of its operations is one
//!   transition of the model.
//! - [`laws`] proves what holds of every pool: each task is handed out
//!   exactly once, in the order of submission, and teardown drains the
//!   queue.
//! - [`teardown`] proves that teardown ends.

pub mod laws;
pub mod model;
pub mod pool;
pub mod teardown;
pub mod worker;

pub use model::{Event, PoolView, Step};
pub use pool::ThreadPool;
pub use worker::{Worker, WorkerState, WorkerView};
