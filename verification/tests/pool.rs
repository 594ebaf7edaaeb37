use rustserver::pool::{ThreadPool, WorkerState};

#[test]
fn new_creates_requested_workers() {
    let pool = ThreadPool::new(3);
    assert_eq!(pool.worker_count(), 3);
    for w in 0..3 {
        assert!(matches!(pool.worker_state(w), WorkerState::Idle));
    }
    assert!(pool.is_sender_open());
    assert_eq!(pool.pending_count(), 0);

    let single = ThreadPool::new(1);
    assert_eq!(single.worker_count(), 1);
}

#[test]
fn two_workers_four_jobs_each_recorded_once() {
    let mut pool = ThreadPool::new(2);
    for job in 0..4u64 {
        pool.execute(job);
    }
    assert_eq!(pool.pending_count(), 4);
    // interleave the two workers so completion order differs from submission order
    let a = pool.worker_dequeue(0);
    let b = pool.worker_dequeue(1);
    assert_eq!(pool.worker_finish(1), b);
    let c = pool.worker_dequeue(1);
    assert_eq!(pool.worker_finish(0), a);
    let d = pool.worker_dequeue(0);
    assert_eq!(pool.worker_finish(0), d);
    assert_eq!(pool.worker_finish(1), c);
    pool.close_sender();
    pool.worker_disconnect(0);
    pool.worker_disconnect(1);
    assert!(pool.all_workers_terminated());
    let mut done = pool.completed_jobs().clone();
    done.sort();
    assert_eq!(done, vec![0, 1, 2, 3]);
}

#[test]
fn back_to_back_jobs_dequeue_in_submission_order() {
    let mut pool = ThreadPool::new(2);
    pool.execute(7);
    pool.execute(8);
    assert_eq!(pool.worker_dequeue(1), 7);
    assert_eq!(pool.worker_dequeue(0), 8);
    // completion order may differ from dequeue order
    assert_eq!(pool.worker_finish(0), 8);
    assert_eq!(pool.worker_finish(1), 7);
    assert_eq!(pool.completed_jobs(), &vec![8, 7]);
}

#[test]
fn single_worker_runs_jobs_one_after_the_other() {
    let mut pool = ThreadPool::new(1);
    pool.execute(50);
    pool.execute(51);
    let first = pool.worker_dequeue(0);
    assert_eq!(first, 50);
    assert!(matches!(pool.worker_state(0), WorkerState::Running(j) if j == 50));
    // the second job stays queued until the only worker finishes the first
    assert_eq!(pool.pending_count(), 1);
    assert_eq!(pool.worker_finish(0), 50);
    assert_eq!(pool.worker_dequeue(0), 51);
    assert_eq!(pool.worker_finish(0), 51);
    assert_eq!(pool.completed_jobs(), &vec![50, 51]);
}

#[test]
fn teardown_with_no_jobs_completes_cleanly() {
    let mut pool = ThreadPool::new(2);
    pool.close_sender();
    assert!(!pool.is_sender_open());
    pool.worker_disconnect(0);
    pool.worker_disconnect(1);
    assert!(pool.all_workers_terminated());
    assert_eq!(pool.completed_jobs().len(), 0);
}

#[test]
fn failing_job_stops_only_its_worker() {
    let mut pool = ThreadPool::new(2);
    pool.execute(5);
    pool.execute(6);
    assert_eq!(pool.worker_dequeue(0), 5);
    assert_eq!(pool.worker_fail(0), 5);
    assert!(matches!(pool.worker_state(0), WorkerState::Terminated));
    // the other worker keeps serving the queue
    assert!(matches!(pool.worker_state(1), WorkerState::Idle));
    assert_eq!(pool.worker_dequeue(1), 6);
    assert_eq!(pool.worker_finish(1), 6);
    pool.close_sender();
    pool.worker_disconnect(1);
    assert!(pool.all_workers_terminated());
    assert_eq!(pool.completed_jobs(), &vec![6]);
}

#[test]
fn teardown_waits_for_in_flight_job() {
    let mut pool = ThreadPool::new(1);
    pool.execute(9);
    let job = pool.worker_dequeue(0);
    pool.close_sender();
    // the worker is still running its job, so the join cannot be over yet
    assert!(!pool.all_workers_terminated());
    assert_eq!(pool.worker_finish(0), job);
    pool.worker_disconnect(0);
    assert!(pool.all_workers_terminated());
    assert_eq!(pool.completed_jobs(), &vec![9]);
}
