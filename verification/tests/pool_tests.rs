use face_service::pool::Pool;
use face_service::worker::{worker_receive, WorkerMessage, WorkerState};

#[test]
fn jobs_come_out_in_submission_order() {
    let mut pool = Pool::new(3);
    pool.submit();
    pool.submit();
    assert_eq!(pool.take_next(), Some(WorkerMessage::NewJob));
    assert_eq!(pool.take_next(), Some(WorkerMessage::NewJob));
    assert_eq!(pool.take_next(), None);
}

#[test]
fn extra_jobs_wait_in_the_queue_instead_of_being_rejected() {
    // Four connections arrive at a pool of three workers: every submission
    // is accepted, and the fourth job waits at the back of the queue until
    // a worker comes back for it.
    let mut pool = Pool::new(3);
    for _ in 0..4 {
        pool.submit();
    }
    assert_eq!(pool.queue.len(), 4);
    for _ in 0..3 {
        assert_eq!(pool.take_next(), Some(WorkerMessage::NewJob));
    }
    assert_eq!(pool.take_next(), Some(WorkerMessage::NewJob));
}

#[test]
fn shutdown_enqueues_one_terminate_per_worker_after_the_jobs() {
    let mut pool = Pool::new(3);
    pool.submit();
    pool.shutdown();
    assert_eq!(
        pool.queue,
        vec![
            WorkerMessage::NewJob,
            WorkerMessage::Terminate,
            WorkerMessage::Terminate,
            WorkerMessage::Terminate,
        ]
    );
}

#[test]
fn shutdown_is_idempotent() {
    let mut pool = Pool::new(2);
    pool.shutdown();
    let after_first = pool.queue.clone();
    pool.shutdown();
    pool.shutdown();
    assert_eq!(pool.queue, after_first);
    assert_eq!(after_first, vec![WorkerMessage::Terminate, WorkerMessage::Terminate]);
}

#[test]
fn every_worker_sees_exactly_one_terminate_and_stops() {
    let worker_count = 3;
    let mut pool = Pool::new(worker_count);
    pool.submit();
    pool.submit();
    pool.shutdown();

    // Drain the queue as the workers would: each takes messages until its
    // terminate token, serving jobs in between.
    let mut stopped = 0;
    let mut served = 0;
    for _ in 0..worker_count {
        let mut state = WorkerState::Idle;
        loop {
            let msg = match pool.take_next() {
                Some(m) => m,
                None => break,
            };
            state = worker_receive(&state, &msg);
            match state {
                WorkerState::Terminated => break,
                WorkerState::Serving => {
                    served += 1;
                    state = WorkerState::Idle;
                }
                WorkerState::Idle => {}
            }
        }
        assert_eq!(state, WorkerState::Terminated);
        stopped += 1;
    }
    assert_eq!(stopped, worker_count);
    assert_eq!(served, 2);
    // Nothing is left for anyone: no terminate is missed or duplicated.
    assert_eq!(pool.take_next(), None);
}

#[test]
fn an_idle_worker_serves_a_job_and_dies_on_terminate() {
    assert_eq!(
        worker_receive(&WorkerState::Idle, &WorkerMessage::NewJob),
        WorkerState::Serving
    );
    assert_eq!(
        worker_receive(&WorkerState::Idle, &WorkerMessage::Terminate),
        WorkerState::Terminated
    );
}
