use kvs::pool::next_action;
use kvs::{PoolBook, Received, WorkerAction};

#[test]
fn panicking_workers_are_replaced() {
    let mut book = PoolBook::new(4);
    for _ in 0..20 {
        assert!(book.worker_exited(true));
        assert_eq!(book.live(), 4);
    }
    assert_eq!(next_action(Received::Job), WorkerAction::RunJob);
}

#[test]
fn shutdown_lets_workers_go() {
    let mut book = PoolBook::new(4);
    assert_eq!(book.shutdown(), 4);
    assert!(book.worker_exited(true));
    assert_eq!(book.live(), 4);
    assert!(!book.worker_exited(false));
    assert_eq!(book.live(), 3);
    assert_eq!(next_action(Received::Terminate), WorkerAction::Exit);
    assert_eq!(next_action(Received::Closed), WorkerAction::Exit);
}

#[test]
fn clean_exit_is_not_replaced() {
    let mut book = PoolBook::new(2);
    assert!(!book.worker_exited(false));
    assert_eq!(book.live(), 1);
}

#[test]
fn panic_during_shutdown_is_replaced() {
    let mut book = PoolBook::new(1);
    book.shutdown();
    assert!(book.worker_exited(true));
    assert_eq!(book.live(), 1);
}
