use std::sync::Arc;
use toyexec::periodic::{Periodic, PeriodicContext};
use toyexec::task::{Async, Future, TokioPoll, ToyTask, ToyTaskToFuture, Wake, Waker};
use toyexec::task::to_future_result;
use toyexec::timer::{Registration, ToyTimer, Worker, WorkerAction};

/// Wakes by writing its name down.
struct Name(u64);

impl Wake<Vec<u64>> for Name {
    fn wake(&self, target: &mut Vec<u64>) {
        target.push(self.0);
    }
}

fn waker(name: u64) -> Waker<Name> {
    Waker::from(Arc::new(Name(name)))
}

fn enroll(worker: &mut Worker<Name>, at: u128, name: u64) {
    assert!(worker.free_time(at).is_some());
    worker.enroll(Registration { at, wake: waker(name) });
}

#[test]
fn clones_wake_the_same() {
    let mut woken = Vec::new();
    let w = waker(4);
    w.wake(&mut woken);
    w.clone().wake(&mut woken);
    assert_eq!(woken, vec![4, 4]);
}

#[test]
fn an_idle_worker_waits_for_a_registration() {
    let mut worker: Worker<Name> = Worker::new();
    let mut woken = Vec::new();
    assert_eq!(worker.work(100, &mut woken), WorkerAction::Recv);
    assert!(woken.is_empty());
}

#[test]
fn a_worker_waits_for_the_earliest() {
    let mut worker = Worker::new();
    let mut woken = Vec::new();
    enroll(&mut worker, 50, 1);
    enroll(&mut worker, 30, 2);
    enroll(&mut worker, 40, 3);
    assert_eq!(worker.work(10, &mut woken), WorkerAction::RecvTimeout(20));
    assert_eq!(worker.work(29, &mut woken), WorkerAction::RecvTimeout(1));
    assert_eq!(woken, Vec::<u64>::new());
    assert_eq!(worker.work(30, &mut woken), WorkerAction::Fired);
    assert_eq!(woken, vec![2]);
    assert_eq!(worker.work(30, &mut woken), WorkerAction::RecvTimeout(10));
}

#[test]
fn all_that_is_due_fires_in_order() {
    let mut worker = Worker::new();
    let mut woken = Vec::new();
    enroll(&mut worker, 50, 1);
    enroll(&mut worker, 30, 2);
    enroll(&mut worker, 40, 3);
    enroll(&mut worker, 90, 4);
    let mut turns = 0;
    while worker.work(50, &mut woken) == WorkerAction::Fired {
        turns += 1;
    }
    assert_eq!(turns, 3);
    assert_eq!(woken, vec![2, 3, 1]);
    assert_eq!(worker.work(50, &mut woken), WorkerAction::RecvTimeout(40));
}

#[test]
fn a_wakeup_in_the_way_is_put_off() {
    let mut worker = Worker::new();
    let mut woken = Vec::new();
    enroll(&mut worker, 10, 1);
    enroll(&mut worker, 12, 9);
    enroll(&mut worker, 10, 2);
    assert_eq!(worker.free_time(10), Some(20));
    assert_eq!(worker.free_time(12), Some(17));
    assert_eq!(worker.free_time(11), Some(11));
    enroll(&mut worker, 10, 3);
    // 3 at 10, 9 at 12, 2 at 15, 1 at 20
    assert_eq!(worker.work(9, &mut woken), WorkerAction::RecvTimeout(1));
    assert_eq!(worker.work(10, &mut woken), WorkerAction::Fired);
    assert_eq!(worker.work(10, &mut woken), WorkerAction::RecvTimeout(2));
    assert_eq!(worker.work(12, &mut woken), WorkerAction::Fired);
    assert_eq!(worker.work(12, &mut woken), WorkerAction::RecvTimeout(3));
    assert_eq!(worker.work(15, &mut woken), WorkerAction::Fired);
    assert_eq!(worker.work(15, &mut woken), WorkerAction::RecvTimeout(5));
    assert_eq!(worker.work(20, &mut woken), WorkerAction::Fired);
    assert_eq!(worker.work(20, &mut woken), WorkerAction::Recv);
    assert_eq!(woken, vec![3, 9, 2, 1]);
}

#[test]
fn an_earlier_registration_comes_first() {
    let mut worker = Worker::new();
    let mut woken = Vec::new();
    enroll(&mut worker, 80, 1);
    assert_eq!(worker.work(10, &mut woken), WorkerAction::RecvTimeout(70));
    enroll(&mut worker, 25, 2);
    assert_eq!(worker.work(10, &mut woken), WorkerAction::RecvTimeout(15));
    enroll(&mut worker, 25, 3);
    assert_eq!(worker.work(25, &mut woken), WorkerAction::Fired);
    assert_eq!(woken, vec![3]);
}

#[test]
fn every_registration_fires_once_and_never_early() {
    let mut worker = Worker::new();
    let mut registered: Vec<u128> = Vec::new();
    let mut fired: Vec<u64> = Vec::new();
    for now in 0..200u128 {
        // registrations come in until half of the time is over, many for the same time
        if now < 100 {
            for ahead in [0u128, 7, 7, 30] {
                let at = now / 10 * 10 + ahead;
                enroll(&mut worker, at, registered.len() as u64);
                registered.push(at);
            }
        }
        // one turn at a time, so that wakeups pile up
        let before = fired.len();
        let action = worker.work(now * 20, &mut fired);
        assert_eq!(action == WorkerAction::Fired, fired.len() == before + 1);
        for name in fired[before..].iter() {
            assert!(registered[*name as usize] <= now * 20);
        }
    }
    while worker.work(1_000_000, &mut fired) == WorkerAction::Fired {}
    assert_eq!(worker.work(1_000_000, &mut fired), WorkerAction::Recv);
    fired.sort();
    assert_eq!(fired, (0..registered.len() as u64).collect::<Vec<u64>>());
}

#[test]
fn all_fire_whatever_the_clock_reads_at_each_turn() {
    let mut worker = Worker::new();
    let mut woken = Vec::new();
    enroll(&mut worker, 50, 1);
    enroll(&mut worker, 30, 2);
    enroll(&mut worker, 50, 3);
    // 2 at 30, 3 at 50, 1 at 55: the clock reads 55 or later three times
    for now in [10u128, 90, 0, 55, 29, 60] {
        worker.work(now, &mut woken);
    }
    assert_eq!(woken, vec![2, 3, 1]);
    assert_eq!(worker.work(0, &mut woken), WorkerAction::Recv);
}

#[test]
fn the_end_of_time_has_no_room() {
    let mut worker = Worker::new();
    enroll(&mut worker, u128::MAX - 5, 1);
    enroll(&mut worker, u128::MAX - 5, 2);
    // 2 at MAX - 5, 1 at MAX
    assert_eq!(worker.free_time(u128::MAX), None);
    assert_eq!(worker.free_time(u128::MAX - 5), None);
    assert_eq!(worker.free_time(u128::MAX - 4), Some(u128::MAX - 4));
    assert_eq!(worker.free_time(u128::MAX - 15), Some(u128::MAX - 15));
}

#[test]
fn firing_wakes_what_is_registered() {
    let mut worker = Worker::new();
    let mut woken = Vec::new();
    enroll(&mut worker, 70, 1);
    enroll(&mut worker, 60, 2);
    worker.fire(70, &mut woken);
    assert_eq!(woken, vec![1]);
    assert_eq!(worker.work(0, &mut woken), WorkerAction::RecvTimeout(60));
}

#[test]
fn a_timer_hands_on_what_was_registered() {
    let mut timer = ToyTimer::new();
    timer.register(5, waker(1));
    timer.register(4, waker(2));
    let taken = timer.take();
    let mut woken = Vec::new();
    let times: Vec<u128> = taken.iter().map(|r| r.at).collect();
    for registration in taken.iter() {
        registration.wake.wake(&mut woken);
    }
    assert_eq!(times, vec![5, 4]);
    assert_eq!(woken, vec![1, 2]);
    assert!(timer.take().is_empty());
}

fn context(now: u128) -> PeriodicContext<Name> {
    PeriodicContext { now, timer: ToyTimer::new(), dings: Vec::new() }
}

/// Polls a task and gives the dings and the times that were registered.
fn poll_at(task: &mut Periodic, now: u128) -> (Vec<u64>, Vec<u128>) {
    let mut cx = context(now);
    assert!(task.in_range(now));
    assert_eq!(task.poll(&waker(1), &mut cx), Async::Pending);
    let times = cx.timer.take().iter().map(|r| r.at).collect();
    (cx.dings, times)
}

#[test]
fn a_periodic_task_dings_once_in_a_period() {
    let mut task = Periodic::new(3, 500, 1000);
    assert_eq!(poll_at(&mut task, 1000), (vec![], vec![1500]));
    assert_eq!(poll_at(&mut task, 1499), (vec![], vec![1500]));
    assert_eq!(poll_at(&mut task, 1500), (vec![3], vec![2000]));
    assert_eq!(poll_at(&mut task, 1500), (vec![], vec![2000]));
    // a late poll moves the next ding
    assert_eq!(poll_at(&mut task, 2600), (vec![3], vec![3100]));
    assert_eq!(poll_at(&mut task, 3000), (vec![], vec![3100]));
}

#[test]
fn a_periodic_task_registers_its_own_waker() {
    let mut task = Periodic::new(3, 500, 0);
    let mut cx = context(0);
    task.poll(&waker(8), &mut cx);
    let mut woken = Vec::new();
    for registration in cx.timer.take().iter() {
        registration.wake.wake(&mut woken);
    }
    assert_eq!(woken, vec![8]);
}

#[test]
fn a_ding_beyond_all_times_cannot_be_scheduled() {
    let task = Periodic::new(1, u128::MAX, 0);
    assert!(task.in_range(u128::MAX - 1));
    assert!(!task.in_range(u128::MAX));
}

/// Completes at the second poll.
struct Twice(u32);

impl ToyTask<Name> for Twice {
    type Context = Vec<u64>;

    fn poll(&mut self, waker: &Waker<Name>, context: &mut Vec<u64>) -> Async<()> {
        waker.wake(context);
        self.0 += 1;
        if self.0 < 2 {
            Async::Pending
        } else {
            Async::Ready(())
        }
    }
}

#[test]
fn a_task_is_a_future_that_cannot_fail() {
    let mut future = ToyTaskToFuture(Twice(0));
    let mut woken = Vec::new();
    assert_eq!(future.poll(&waker(6), &mut woken), TokioPoll::Pending);
    assert_eq!(future.poll(&waker(6), &mut woken), TokioPoll::Ready(Ok(())));
    assert_eq!(woken, vec![6, 6]);
    assert_eq!(to_future_result(Async::Ready(7)), TokioPoll::Ready(Ok(7)));
    assert_eq!(to_future_result(Async::<u8>::Pending), TokioPoll::Pending);
}
