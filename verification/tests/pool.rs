use std::cell::RefCell;
use std::rc::Rc;
use worker_pool::{Step, ThreadPool, Worker, WorkerState};

/// Lets the workers take turns, lowest id first, until every one of them has
/// left its loop. Each task that is handed out is run at once and reported as
/// completed. Returns, for each worker, what it ran, in order.
fn drain(pool: &mut ThreadPool<usize>) -> Vec<Vec<usize>> {
    let size = pool.size();
    let mut ran: Vec<Vec<usize>> = vec![Vec::new(); size];
    let mut live = size;
    while live > 0 {
        for id in 0..size {
            if pool.worker(id).unwrap().state() != WorkerState::Ready {
                continue;
            }
            match pool.receive(id) {
                Step::Run(task) => {
                    ran[id].push(task);
                    pool.complete(id);
                }
                Step::Wait => panic!("a closed queue told a worker to wait"),
                Step::Exit => live -= 1,
            }
        }
    }
    ran
}

/// Waits for every thread, in the order that the pool gives.
fn join_all<T>(pool: &mut ThreadPool<T>) -> Vec<usize> {
    let mut order = Vec::new();
    while let Some(id) = pool.next_to_join() {
        pool.join(id);
        order.push(id);
    }
    order
}

#[test]
fn thread_successful_one_thread() {
    let pool: ThreadPool<fn()> = ThreadPool::new(1);
    assert_eq!(pool.size(), 1);
}

#[test]
fn thread_successful_multiple_thread() {
    let pool: ThreadPool<fn()> = ThreadPool::new(4);
    assert_eq!(pool.size(), 4);
}

#[test]
fn thread_execute_correctly() {
    let mut pool = ThreadPool::new(4);
    pool.execute(|| {
        for number in 0..4 {
            println!("{number}!");
        }
    });
    assert_eq!(pool.pending(), 1);
    match pool.receive(0) {
        Step::Run(task) => task(),
        _ => panic!("the queued task was not handed out"),
    }
    pool.complete(0);
    assert_eq!(pool.pending(), 0);
    assert_eq!(pool.worker(0).unwrap().state(), WorkerState::Ready);
}

#[test]
fn new_worker_is_ready() {
    let worker = Worker::new(3);
    assert_eq!(worker.id(), 3);
    assert_eq!(worker.state(), WorkerState::Ready);
    assert!(worker.is_live());
}

#[test]
fn new_pool_has_numbered_live_workers() {
    for size in [1usize, 4, 16] {
        let pool: ThreadPool<usize> = ThreadPool::new(size);
        assert_eq!(pool.size(), size);
        assert!(pool.is_open());
        assert!(!pool.is_terminated());
        assert_eq!(pool.pending(), 0);
        assert_eq!(pool.next_to_join(), Some(0));
        for id in 0..size {
            let worker = pool.worker(id).unwrap();
            assert_eq!(worker.id(), id);
            assert_eq!(worker.state(), WorkerState::Ready);
            assert!(worker.is_live());
        }
        assert!(pool.worker(size).is_none());
    }
}

#[test]
fn every_task_runs_exactly_once() {
    let mut pool: ThreadPool<usize> = ThreadPool::new(3);
    let k = 50;
    for task in 0..k {
        pool.execute(task);
    }
    assert_eq!(pool.pending(), k);
    pool.close();
    let ran = drain(&mut pool);
    let mut count = vec![0usize; k];
    for log in &ran {
        for &task in log {
            count[task] += 1;
        }
    }
    assert_eq!(count, vec![1usize; k]);
    assert_eq!(pool.pending(), 0);
}

#[test]
fn tasks_are_spread_over_the_workers_in_turn() {
    let mut pool: ThreadPool<usize> = ThreadPool::new(3);
    for task in 0..7 {
        pool.execute(task);
    }
    pool.close();
    let ran = drain(&mut pool);
    assert_eq!(ran, vec![vec![0, 3, 6], vec![1, 4], vec![2, 5]]);
}

#[test]
fn teardown_drains_the_queue() {
    let mut pool: ThreadPool<usize> = ThreadPool::new(4);
    let k = 25;
    for task in 0..k {
        pool.execute(task);
    }
    pool.close();
    assert!(!pool.is_open());
    assert!(!pool.is_terminated());
    assert_eq!(pool.pending(), k);
    let ran = drain(&mut pool);
    assert!(!pool.is_terminated());
    for id in 0..4 {
        assert_eq!(pool.next_to_join(), Some(id));
        assert!(!pool.is_terminated());
        pool.join(id);
    }
    assert_eq!(pool.next_to_join(), None);
    assert!(pool.is_terminated());
    assert_eq!(ran.iter().map(|log| log.len()).sum::<usize>(), k);
    assert_eq!(pool.pending(), 0);
}

#[test]
fn no_task_is_lost_for_any_pool_size() {
    for size in [1usize, 4, 16] {
        let mut pool: ThreadPool<usize> = ThreadPool::new(size);
        for task in 0..1000 {
            pool.execute(task);
        }
        pool.close();
        let ran = drain(&mut pool);
        let mut seen = vec![false; 1000];
        let mut completions = 0;
        for log in &ran {
            for &task in log {
                assert!(!seen[task], "task {task} ran twice");
                seen[task] = true;
                completions += 1;
            }
        }
        assert_eq!(completions, 1000);
        assert!(seen.iter().all(|&ran| ran));
        assert_eq!(join_all(&mut pool), (0..size).collect::<Vec<usize>>());
        assert!(pool.is_terminated());
    }
}

#[test]
fn one_worker_runs_tasks_in_submission_order() {
    let log: Rc<RefCell<Vec<u32>>> = Rc::new(RefCell::new(Vec::new()));
    let mut pool: ThreadPool<Box<dyn FnOnce()>> = ThreadPool::new(4);
    for id in [1u32, 2, 3] {
        let log = Rc::clone(&log);
        pool.execute(Box::new(move || log.borrow_mut().push(id)));
    }
    for _ in 0..3 {
        match pool.receive(2) {
            Step::Run(task) => task(),
            _ => panic!("a queued task was not handed out"),
        }
        pool.complete(2);
    }
    assert_eq!(*log.borrow(), vec![1, 2, 3]);
    assert!(matches!(pool.receive(2), Step::Wait));
}

#[test]
fn each_worker_sees_its_tasks_in_submission_order() {
    let mut pool: ThreadPool<usize> = ThreadPool::new(5);
    for task in 0..200 {
        pool.execute(task);
    }
    pool.close();
    for log in drain(&mut pool) {
        assert!(log.windows(2).all(|pair| pair[0] < pair[1]));
    }
}

#[test]
fn idle_pool_teardown() {
    let mut pool: ThreadPool<usize> = ThreadPool::new(4);
    pool.close();
    for id in 0..4 {
        assert_eq!(pool.receive(id), Step::Exit);
        assert_eq!(pool.worker(id).unwrap().state(), WorkerState::Exited);
        assert!(!pool.worker(id).unwrap().is_live());
    }
    assert_eq!(join_all(&mut pool), vec![0, 1, 2, 3]);
    for id in 0..4 {
        assert_eq!(pool.worker(id).unwrap().state(), WorkerState::Joined);
    }
    assert!(pool.is_terminated());
}

#[test]
fn worker_waits_on_empty_open_queue() {
    let mut pool: ThreadPool<u8> = ThreadPool::new(2);
    assert_eq!(pool.receive(1), Step::Wait);
    assert_eq!(pool.worker(1).unwrap().state(), WorkerState::Waiting);
    assert_eq!(pool.worker(0).unwrap().state(), WorkerState::Ready);
    assert!(pool.worker(1).unwrap().is_live());
}

#[test]
fn submission_wakes_exactly_one_waiting_worker() {
    let mut pool: ThreadPool<u8> = ThreadPool::new(4);
    assert_eq!(pool.receive(3), Step::Wait);
    assert_eq!(pool.receive(1), Step::Wait);
    assert_eq!(pool.execute(10), Some(1));
    assert_eq!(pool.worker(1).unwrap().state(), WorkerState::Ready);
    assert_eq!(pool.worker(3).unwrap().state(), WorkerState::Waiting);
    assert_eq!(pool.execute(11), Some(3));
    assert_eq!(pool.worker(3).unwrap().state(), WorkerState::Ready);
    assert_eq!(pool.execute(12), None);
    assert_eq!(pool.pending(), 3);
    assert_eq!(pool.receive(1), Step::Run(10));
    assert_eq!(pool.receive(3), Step::Run(11));
    assert_eq!(pool.receive(0), Step::Run(12));
    assert_eq!(pool.worker(0).unwrap().state(), WorkerState::Busy);
    assert_eq!(pool.pending(), 0);
}

#[test]
fn submission_without_waiting_worker_wakes_nobody() {
    let mut pool: ThreadPool<u8> = ThreadPool::new(2);
    assert_eq!(pool.execute(1), None);
    assert_eq!(pool.receive(0), Step::Run(1));
    assert_eq!(pool.execute(2), None);
    assert_eq!(pool.worker(0).unwrap().state(), WorkerState::Busy);
    assert_eq!(pool.worker(1).unwrap().state(), WorkerState::Ready);
}

#[test]
fn close_wakes_every_waiting_worker() {
    let mut pool: ThreadPool<u8> = ThreadPool::new(3);
    assert_eq!(pool.receive(0), Step::Wait);
    assert_eq!(pool.receive(2), Step::Wait);
    pool.close();
    for id in 0..3 {
        assert_eq!(pool.worker(id).unwrap().state(), WorkerState::Ready);
        assert_eq!(pool.receive(id), Step::Exit);
    }
}

#[test]
fn closed_queue_still_hands_out_what_is_queued() {
    let mut pool: ThreadPool<&str> = ThreadPool::new(1);
    pool.execute("first");
    pool.execute("second");
    pool.close();
    assert_eq!(pool.pending(), 2);
    assert_eq!(pool.receive(0), Step::Run("first"));
    pool.complete(0);
    assert_eq!(pool.receive(0), Step::Run("second"));
    assert_eq!(pool.worker(0).unwrap().state(), WorkerState::Busy);
    assert_eq!(pool.next_to_join(), Some(0));
    pool.complete(0);
    assert_eq!(pool.receive(0), Step::Exit);
    pool.join(0);
    assert!(pool.is_terminated());
}

#[test]
fn busy_worker_finishes_its_task_before_it_leaves() {
    let mut pool: ThreadPool<u8> = ThreadPool::new(2);
    pool.execute(5);
    assert_eq!(pool.receive(1), Step::Run(5));
    pool.close();
    assert_eq!(pool.worker(1).unwrap().state(), WorkerState::Busy);
    assert_eq!(pool.receive(0), Step::Exit);
    pool.join(0);
    assert_eq!(pool.next_to_join(), Some(1));
    assert!(!pool.is_terminated());
    pool.complete(1);
    assert_eq!(pool.receive(1), Step::Exit);
    pool.join(1);
    assert!(pool.is_terminated());
}

#[test]
fn threads_are_waited_for_in_id_order() {
    let mut pool: ThreadPool<u8> = ThreadPool::new(3);
    pool.close();
    assert_eq!(pool.receive(2), Step::Exit);
    assert_eq!(pool.receive(1), Step::Exit);
    assert_eq!(pool.receive(0), Step::Exit);
    assert_eq!(pool.next_to_join(), Some(0));
    pool.join(0);
    assert_eq!(pool.next_to_join(), Some(1));
    pool.join(1);
    assert_eq!(pool.next_to_join(), Some(2));
    pool.join(2);
    assert_eq!(pool.next_to_join(), None);
}

#[test]
fn open_pool_is_not_terminated() {
    let mut pool: ThreadPool<u8> = ThreadPool::new(1);
    assert!(!pool.is_terminated());
    pool.execute(1);
    assert!(pool.is_open());
    pool.close();
    assert!(!pool.is_open());
    assert!(!pool.is_terminated());
}

#[test]
fn teardown_ends_after_the_counted_number_of_events() {
    let mut pool: ThreadPool<u8> = ThreadPool::new(2);
    pool.execute(1);
    pool.execute(2);
    pool.execute(3);
    assert_eq!(pool.receive(1), Step::Run(1));
    pool.close();
    // Two queued tasks, one busy worker and one ready worker: 2 * 2 + 3 + 2 events.
    let mut events = 0;
    loop {
        let Some(id) = pool.next_to_join() else {
            break;
        };
        match pool.worker(id).unwrap().state() {
            WorkerState::Ready => {
                pool.receive(id);
            }
            WorkerState::Busy => pool.complete(id),
            WorkerState::Exited => pool.join(id),
            state => panic!("worker {id} is stuck in state {state:?}"),
        }
        events += 1;
    }
    assert_eq!(events, 9);
    assert!(pool.is_terminated());
    assert_eq!(pool.pending(), 0);
}

#[test]
fn a_worker_waits_only_while_ready_workers_cover_the_queue() {
    let mut pool: ThreadPool<u8> = ThreadPool::new(3);
    assert_eq!(pool.receive(0), Step::Wait);
    assert_eq!(pool.receive(1), Step::Wait);
    assert_eq!(pool.receive(2), Step::Wait);
    for task in 0..5 {
        pool.execute(task);
        let waiting = (0..3)
            .filter(|&id| pool.worker(id).unwrap().state() == WorkerState::Waiting)
            .count();
        let ready = (0..3)
            .filter(|&id| pool.worker(id).unwrap().state() == WorkerState::Ready)
            .count();
        assert!(waiting == 0 || pool.pending() <= ready);
        assert_eq!(ready, (task as usize + 1).min(3));
    }
}
