use matmul_bench::thread_pool::{
    number_of_threads_to_use, IdleState, Message, ThreadPool, Worker, WorkerState,
};
use std::collections::VecDeque;

#[test]
fn it_works() {
    let mut pool: ThreadPool<usize> = ThreadPool::new(4, 4);

    let mut i = 0;
    loop {
        if i == 4 {
            break;
        }
        let idle_thread = pool.recv_idle();
        match &idle_thread {
            Some(_) => {}
            None => {
                break;
            }
        };
        i += 1;
        let idle_thread = idle_thread.unwrap();
        let idle_thread_id = idle_thread.id;

        pool.execute(idle_thread_id, idle_thread_id)
    }
    assert_eq!(i, 4);

    let ran = ThreadPool::terminate(pool);
    let mut sent = 0;
    for (worker, jobs) in ran.iter().enumerate() {
        for thread_id in jobs {
            assert!(*thread_id < 4);
            assert_eq!(*thread_id, worker);
            sent += 1;
        }
    }
    assert_eq!(sent, 4);
}

#[test]
fn test_request_more_threads_than_available() {
    let available_threads = 6;
    let mut pool: ThreadPool<u8> = ThreadPool::new(available_threads + 1, available_threads);

    assert_eq!(pool.size(), available_threads);
    pool.recv_idle().unwrap();
    ThreadPool::terminate(pool);
}

#[test]
fn test_request_less_threads_than_available() {
    let available_threads = 6;
    let pool: ThreadPool<u8> = ThreadPool::new(available_threads - 1, available_threads);

    assert_eq!(pool.size(), available_threads - 1);
    ThreadPool::terminate(pool);
}

#[test]
fn the_number_of_threads_is_the_smaller_of_the_two() {
    assert_eq!(number_of_threads_to_use(1, 1), 1);
    assert_eq!(number_of_threads_to_use(1, 8), 1);
    assert_eq!(number_of_threads_to_use(8, 8), 8);
    assert_eq!(number_of_threads_to_use(9, 8), 8);
    assert_eq!(number_of_threads_to_use(usize::MAX, 3), 3);
    assert_eq!(number_of_threads_to_use(3, usize::MAX), 3);
}

#[test]
fn every_worker_says_once_that_it_has_started() {
    let mut pool: ThreadPool<u8> = ThreadPool::new(3, 8);
    assert_eq!(pool.recv_idle(), Some(IdleState { id: 0 }));
    assert_eq!(pool.recv_idle(), Some(IdleState { id: 1 }));
    assert_eq!(pool.recv_idle(), Some(IdleState { id: 2 }));
    assert_eq!(pool.recv_idle(), None);
}

#[test]
fn a_worker_runs_its_jobs_in_the_order_in_which_they_came() {
    let mut pool: ThreadPool<&str> = ThreadPool::new(2, 2);
    pool.execute("a", 1);
    pool.execute("b", 0);
    pool.execute("c", 1);
    pool.execute("d", 1);
    let ran = ThreadPool::terminate(pool);
    assert_eq!(ran, vec![vec!["b"], vec!["a", "c", "d"]]);
}

#[test]
fn a_pool_without_jobs_ends_with_nothing_run() {
    let pool: ThreadPool<u8> = ThreadPool::new(3, 3);
    assert_eq!(ThreadPool::terminate(pool), vec![Vec::<u8>::new(); 3]);
}

#[test]
fn whoever_waits_lets_the_first_worker_with_a_job_end_it() {
    let mut pool: ThreadPool<u8> = ThreadPool::new(3, 3);
    for _ in 0..3 {
        assert!(pool.recv_idle().is_some());
    }
    pool.execute(10, 2);
    pool.execute(11, 1);
    pool.execute(12, 2);
    assert_eq!(pool.recv_idle(), Some(IdleState { id: 1 }));
    assert_eq!(pool.recv_idle(), Some(IdleState { id: 2 }));
    pool.execute(13, 1);
    assert_eq!(pool.recv_idle(), Some(IdleState { id: 1 }));
    assert_eq!(pool.recv_idle(), Some(IdleState { id: 2 }));
    assert_eq!(pool.recv_idle(), None);
    assert_eq!(ThreadPool::terminate(pool), vec![vec![], vec![11, 13], vec![10, 12]]);
}

#[test]
fn a_worker_goes_from_idle_to_busy_and_back() {
    let (mut worker, started) = Worker::new(5);
    assert_eq!(started, IdleState { id: 5 });
    assert_eq!(worker.number(), 5);
    assert_eq!(worker.current_state(), WorkerState::Idle);
    assert_eq!(worker.receive(Message::NewJob(17)), Some(17));
    assert_eq!(worker.current_state(), WorkerState::Busy);
    assert_eq!(worker.finish(), IdleState { id: 5 });
    assert_eq!(worker.current_state(), WorkerState::Idle);
    assert_eq!(worker.receive(Message::<i32>::Terminate), None);
    assert_eq!(worker.current_state(), WorkerState::Terminated);
}

#[test]
fn a_worker_stops_at_terminate_and_leaves_the_rest_unread() {
    let (mut worker, _) = Worker::new(2);
    let mut inbox = VecDeque::new();
    inbox.push_back(Message::NewJob(1));
    inbox.push_back(Message::NewJob(2));
    inbox.push_back(Message::Terminate);
    inbox.push_back(Message::NewJob(3));
    let mut signals = VecDeque::new();
    let ran = worker.run(&mut inbox, &mut signals);
    assert_eq!(ran, vec![1, 2]);
    assert_eq!(worker.current_state(), WorkerState::Terminated);
    assert_eq!(inbox.len(), 1);
    assert!(matches!(inbox.pop_front(), Some(Message::NewJob(3))));
    assert_eq!(signals, VecDeque::from(vec![IdleState { id: 2 }, IdleState { id: 2 }]));
}

#[test]
fn a_worker_that_is_not_told_to_terminate_stays_idle() {
    let (mut worker, _) = Worker::new(0);
    let mut inbox = VecDeque::new();
    inbox.push_back(Message::NewJob('x'));
    let mut signals = VecDeque::new();
    assert_eq!(worker.run(&mut inbox, &mut signals), vec!['x']);
    assert_eq!(worker.current_state(), WorkerState::Idle);
    assert!(inbox.is_empty());
    assert_eq!(signals.len(), 1);
}
