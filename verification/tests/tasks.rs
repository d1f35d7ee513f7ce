use lilith::id_vec::{TaskId, ThreadId};
use lilith::sched::{DeferredAction, SchedReason, SchedStep, Scheduler, TimerQueue, WaitQueue};
use lilith::tasks::{task_spawn, Executor, SleepFuture, YieldFuture};

fn booted() -> (Scheduler, WaitQueue) {
    let mut s = Scheduler::new();
    assert_eq!(s.init_idle(), ThreadId(0));
    (s, WaitQueue::new())
}

#[test]
fn spawned_tasks_are_polled_in_order() {
    let mut e: Executor<&str> = Executor::new();
    let (mut s, mut w) = booted();
    let a = e.spawn("a", &mut w, &mut s);
    let b = e.spawn("b", &mut w, &mut s);
    assert_eq!((a, b), (TaskId(0), TaskId(1)));
    assert_eq!(e.take_ready(), Some((a, "a")));
    assert_eq!(e.take_ready(), Some((b, "b")));
    assert_eq!(e.take_ready(), None);
}

#[test]
fn pending_task_waits_for_a_wake() {
    let mut e: Executor<u32> = Executor::new();
    let (mut s, mut w) = booted();
    let a = e.spawn(1, &mut w, &mut s);
    let (id, f) = e.take_ready().unwrap();
    e.finish(id, false, f + 1);
    assert_eq!(e.take_ready(), None);
    assert!(e.wake(a, &mut w, &mut s));
    assert_eq!(e.take_ready(), Some((a, 2)));
}

#[test]
fn wake_while_polled_requeues_after_the_poll() {
    let mut e: Executor<u32> = Executor::new();
    let (mut s, mut w) = booted();
    let a = e.spawn(1, &mut w, &mut s);
    let (id, f) = e.take_ready().unwrap();
    assert!(!e.wake(a, &mut w, &mut s));
    e.finish(id, false, f);
    assert_eq!(e.take_ready(), Some((a, 1)));
}

#[test]
fn waking_a_ready_or_unknown_task_does_nothing() {
    let mut e: Executor<u32> = Executor::new();
    let (mut s, mut w) = booted();
    let a = e.spawn(1, &mut w, &mut s);
    assert!(!e.wake(a, &mut w, &mut s));
    assert!(!e.wake(TaskId(7), &mut w, &mut s));
    assert_eq!(e.take_ready(), Some((a, 1)));
    assert_eq!(e.take_ready(), None);
}

#[test]
fn finished_tasks_are_forgotten() {
    let mut e: Executor<u32> = Executor::new();
    let (mut s, mut w) = booted();
    let a = e.spawn(1, &mut w, &mut s);
    let (id, f) = e.take_ready().unwrap();
    e.finish(id, true, f);
    assert!(!e.wake(a, &mut w, &mut s));
    // the identifier is handed out again
    assert_eq!(e.spawn(5, &mut w, &mut s), a);
}

#[test]
fn task_spawn_queues_the_body() {
    let mut e: Executor<&str> = Executor::new();
    let (mut s, mut w) = booted();
    task_spawn(&mut e, "first", &mut w, &mut s);
    task_spawn(&mut e, "second", &mut w, &mut s);
    assert_eq!(e.take_ready(), Some((TaskId(0), "first")));
    assert_eq!(e.take_ready(), Some((TaskId(1), "second")));
}

#[test]
fn a_yield_is_pending_once() {
    let mut y = YieldFuture::NotYielded;
    assert!(!y.poll());
    assert_eq!(y, YieldFuture::Yielded);
    assert!(y.poll());
    assert!(y.poll());
}

#[test]
fn a_sleep_sets_a_timer_then_waits_for_its_tick() {
    let mut timers: TimerQueue<&str> = TimerQueue::new();
    // 25 ms are three ticks of just under 10 ms
    let mut s = SleepFuture::NotYet(25_000_000);
    assert!(!s.poll(100, &mut timers, "waker"));
    assert_eq!(s, SleepFuture::Yet(103));
    assert!(!s.poll(102, &mut timers, "unused"));
    assert!(s.poll(103, &mut timers, "unused"));
    assert!(s.poll(200, &mut timers, "unused"));
    timers.tick();
    timers.tick();
    assert_eq!(timers.pop_due(), None);
    timers.tick();
    assert_eq!(timers.pop_due(), Some("waker"));
    assert_eq!(timers.pop_due(), None);
}

#[test]
fn spawning_wakes_a_waiting_executor_thread() {
    let (mut s, mut w) = booted();
    let worker = s.spawn();
    s.step(ThreadId(0), SchedReason::Yielding);
    // the executor's thread finds nothing ready and waits; the idle thread runs
    assert_eq!(w.sleep_until(&mut s, worker, false), SchedStep::Switch { next: ThreadId(0), deferred: DeferredAction::Nothing });
    let mut e: Executor<u32> = Executor::new();
    e.spawn(7, &mut w, &mut s);
    // the worker was woken: it is the one the idle thread yields to, and nobody waits any more
    assert_eq!(w.wake_one(&mut s), None);
    assert_eq!(s.step(ThreadId(0), SchedReason::Yielding), SchedStep::Switch { next: worker, deferred: DeferredAction::Nothing });
}

#[test]
fn waking_a_paused_task_wakes_a_waiting_executor_thread() {
    let (mut s, mut w) = booted();
    let worker = s.spawn();
    let mut e: Executor<u32> = Executor::new();
    let a = e.spawn(1, &mut w, &mut s);
    let (id, f) = e.take_ready().unwrap();
    e.finish(id, false, f);
    s.step(ThreadId(0), SchedReason::Yielding);
    w.sleep_until(&mut s, worker, false);
    // waking an unknown task wakes nobody
    assert!(!e.wake(TaskId(9), &mut w, &mut s));
    assert!(e.wake(a, &mut w, &mut s));
    assert_eq!(w.wake_one(&mut s), None);
    assert_eq!(s.step(ThreadId(0), SchedReason::Yielding), SchedStep::Switch { next: worker, deferred: DeferredAction::Nothing });
}

#[test]
fn new_tasks_take_the_oldest_freed_identifier_first() {
    let mut e: Executor<u32> = Executor::new();
    let (mut s, mut w) = booted();
    let a = e.spawn(1, &mut w, &mut s);
    let b = e.spawn(2, &mut w, &mut s);
    let c = e.spawn(3, &mut w, &mut s);
    assert_eq!((a, b, c), (TaskId(0), TaskId(1), TaskId(2)));
    let (x, fx) = e.take_ready().unwrap();
    let (y, fy) = e.take_ready().unwrap();
    // b finishes before a
    e.finish(y, true, fy);
    e.finish(x, true, fx);
    assert_eq!(e.spawn(4, &mut w, &mut s), b);
    assert_eq!(e.spawn(5, &mut w, &mut s), a);
    assert_eq!(e.spawn(6, &mut w, &mut s), TaskId(3));
}
