use std::sync::Arc;
use toyexec::exec::{Pass, RunAction, RunEvent, TaskEntry, ToyExec, ToyWake};
use toyexec::periodic::{Periodic, PeriodicContext};
use toyexec::task::{Async, ToyTask, Waker};
use toyexec::timer::{ToyTimer, Worker, WorkerAction};

/// Runs one pass in which each task is polled by `poll`, and gives the numbers of the
/// tasks that were polled, in order of number.
fn one_pass<K>(
    exec: &mut ToyExec<K>,
    poll: &mut dyn FnMut(usize, &mut TaskEntry<K>, &mut ToyExec<K>) -> Async<()>,
) -> Vec<usize> {
    let mut pass = Pass::new();
    let mut polled = Vec::new();
    let mut action = exec.run(&mut pass, RunEvent::Resumed);
    while let RunAction::Poll { id, mut entry } = action {
        polled.push(id);
        let result = poll(id, &mut entry, exec);
        action = exec.run(&mut pass, RunEvent::Polled { id, entry, result });
    }
    polled.sort();
    polled
}

fn spawn<K>(exec: &mut ToyExec<K>, task: K) {
    assert!(exec.can_spawn());
    exec.spawn(task);
}

#[test]
#[allow(non_snake_case)]
fn testMain() {
    let mut exec = ToyExec::new();
    let mut worker: Worker<ToyWake> = Worker::new();
    for i in 1..11u64 {
        spawn(&mut exec, Periodic::new(i, i as u128 * 500, 0));
    }
    let mut dings = Vec::new();
    for turn in 0..11u128 {
        let now = turn * 500;
        while worker.work(now, &mut exec) == WorkerAction::Fired {}
        let mut cx = PeriodicContext { now, timer: ToyTimer::new(), dings: Vec::new() };
        let polled = one_pass(&mut exec, &mut |_, entry, _| {
            assert!(entry.task.in_range(now));
            entry.task.poll(&entry.wake, &mut cx)
        });
        assert_eq!(polled, (0..10).collect::<Vec<usize>>());
        for registration in cx.timer.take() {
            assert!(worker.free_time(registration.at).is_some());
            worker.enroll(registration);
        }
        dings.extend(cx.dings);
    }
    // between 0 and 5000 task i dings once in every i * 500
    for i in 1..11u64 {
        let count = dings.iter().filter(|d| **d == i).count() as u64;
        assert_eq!(count, 10 / i);
    }
}

#[test]
fn a_new_executor_parks() {
    let mut exec: ToyExec<u8> = ToyExec::new();
    assert!(!exec.take_unpark());
    let polled = one_pass(&mut exec, &mut |_, _, _| Async::Pending);
    assert!(polled.is_empty());
}

#[test]
fn a_spawned_task_is_ready_at_once() {
    let mut exec = ToyExec::new();
    spawn(&mut exec, 'a');
    assert!(exec.take_unpark());
    assert!(!exec.take_unpark());
    let mut seen = Vec::new();
    let polled = one_pass(&mut exec, &mut |_, entry, _| {
        seen.push(entry.task);
        Async::Ready(())
    });
    assert_eq!(polled, vec![0]);
    assert_eq!(seen, vec!['a']);
}

#[test]
fn numbers_are_handed_out_in_order() {
    let mut exec = ToyExec::new();
    for task in 0..5 {
        spawn(&mut exec, task);
    }
    let polled = one_pass(&mut exec, &mut |id, entry, _| {
        assert_eq!(id, entry.task);
        Async::Ready(())
    });
    assert_eq!(polled, vec![0, 1, 2, 3, 4]);
    // numbers of completed tasks are not used again
    spawn(&mut exec, 5);
    assert_eq!(one_pass(&mut exec, &mut |_, _, _| Async::Pending), vec![5]);
}

#[test]
fn a_pending_task_is_polled_in_the_next_pass() {
    let mut exec = ToyExec::new();
    spawn(&mut exec, 0);
    spawn(&mut exec, 1);
    let mut poll = |id: usize, entry: &mut TaskEntry<i32>, _: &mut ToyExec<i32>| {
        entry.task += 10;
        if id == 0 {
            Async::Pending
        } else {
            Async::Ready(())
        }
    };
    assert_eq!(one_pass(&mut exec, &mut poll), vec![0, 1]);
    let mut left = 0;
    assert_eq!(
        one_pass(&mut exec, &mut |_, entry, _| {
            left = entry.task;
            Async::Pending
        }),
        vec![0]
    );
    assert_eq!(left, 10);
}

#[test]
fn a_wakeup_of_a_completed_task_polls_nothing() {
    let mut exec = ToyExec::new();
    spawn(&mut exec, ());
    let mut handle: Option<Waker<ToyWake>> = None;
    one_pass(&mut exec, &mut |_, entry, _| {
        handle = Some(entry.wake.clone());
        Async::Ready(())
    });
    exec.take_unpark();
    handle.unwrap().wake(&mut exec);
    assert!(exec.take_unpark());
    assert!(one_pass(&mut exec, &mut |_, _, _| Async::Pending).is_empty());
}

#[test]
fn work_that_comes_in_during_a_pass_waits_for_the_next() {
    let mut exec = ToyExec::new();
    spawn(&mut exec, 0);
    exec.take_unpark();
    let polled = one_pass(&mut exec, &mut |_, _, exec| {
        spawn(exec, 1);
        Async::Ready(())
    });
    assert_eq!(polled, vec![0]);
    // the thread does not stay parked
    assert!(exec.take_unpark());
    assert_eq!(one_pass(&mut exec, &mut |_, _, _| Async::Ready(())), vec![1]);
}

#[test]
fn a_wakeup_calls_for_the_thread() {
    let mut exec = ToyExec::new();
    for task in 0..3 {
        spawn(&mut exec, task);
    }
    assert!(exec.take_unpark());
    let polled = one_pass(&mut exec, &mut |_, entry, exec| {
        assert!(!exec.take_unpark());
        entry.wake.wake(exec);
        assert!(exec.take_unpark());
        Async::Pending
    });
    assert_eq!(polled, vec![0, 1, 2]);
    // a pass that puts tasks back does not
    assert!(!exec.take_unpark());
    Waker::from(Arc::new(ToyWake { id: 2 })).wake(&mut exec);
    assert!(exec.take_unpark());
}
