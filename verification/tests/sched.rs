use lilith::id_vec::ThreadId;
use lilith::interrupts::{IrqContext, TrapFrame};
use lilith::sync::IrqState;
use lilith::sched::{
    run_later, thread_exit, timer_interrupt, thread_sleep, thread_spawn, thread_yield, ticks_for, DeferredAction,
    SchedReason, SchedStep, Scheduler, TimerQueue, WaitQueue, TICK_NS,
};

fn booted() -> Scheduler {
    let mut s = Scheduler::new();
    assert_eq!(s.init_idle(), ThreadId(0));
    s
}

#[test]
fn yielding_with_nobody_ready_stays() {
    let mut s = booted();
    assert_eq!(thread_yield(&mut s, ThreadId(0)), SchedStep::Stay);
}

#[test]
fn yielding_switches_to_the_front_of_the_queue_and_queues_the_current_thread() {
    let mut s = booted();
    let a = thread_spawn(&mut s);
    let b = thread_spawn(&mut s);
    assert_eq!((a, b), (ThreadId(1), ThreadId(2)));
    // the idle thread is not queued when it yields
    let step = thread_yield(&mut s, ThreadId(0));
    assert_eq!(step, SchedStep::Switch { next: a, deferred: DeferredAction::Nothing });
    // a yields: b runs and a goes to the back
    let step = thread_yield(&mut s, a);
    assert_eq!(step, SchedStep::Switch { next: b, deferred: DeferredAction::Nothing });
    let step = thread_yield(&mut s, b);
    assert_eq!(step, SchedStep::Switch { next: a, deferred: DeferredAction::Nothing });
}

#[test]
fn exiting_switches_to_the_idle_thread_which_cleans_up() {
    let mut s = booted();
    let a = thread_spawn(&mut s);
    assert_eq!(s.step(ThreadId(0), SchedReason::Yielding), SchedStep::Switch { next: a, deferred: DeferredAction::Nothing });
    let step = thread_exit(&mut s, a);
    assert_eq!(step, SchedStep::Switch { next: ThreadId(0), deferred: DeferredAction::Cleanup(a) });
    s.clean_up(a);
    // the freed identifier is handed out again
    assert_eq!(thread_spawn(&mut s), a);
}

#[test]
fn waiting_threads_run_again_once_woken() {
    let mut s = booted();
    let a = thread_spawn(&mut s);
    s.step(ThreadId(0), SchedReason::Yielding);
    let step = s.step(a, SchedReason::Waiting);
    assert_eq!(step, SchedStep::Switch { next: ThreadId(0), deferred: DeferredAction::Nothing });
    assert_eq!(s.step(ThreadId(0), SchedReason::Yielding), SchedStep::Stay);
    s.wake(a);
    assert_eq!(s.step(ThreadId(0), SchedReason::Yielding), SchedStep::Switch { next: a, deferred: DeferredAction::Nothing });
}

#[test]
fn ticks_round_up() {
    assert_eq!(TICK_NS, 9_999_312);
    assert_eq!(ticks_for(0), 0);
    assert_eq!(ticks_for(1), 1);
    assert_eq!(ticks_for(TICK_NS), 1);
    assert_eq!(ticks_for(TICK_NS + 1), 2);
    assert_eq!(ticks_for(100_000_000), 11);
}

#[test]
fn timer_queue_orders_by_due_time() {
    let mut q: TimerQueue<&str> = TimerQueue::new();
    q.insert(5, "five");
    q.insert(2, "two");
    q.insert(5, "five again");
    q.insert(0, "now");
    assert_eq!(q.pop_due(), Some("now"));
    assert_eq!(q.pop_due(), None);
    q.tick();
    assert_eq!(q.pop_due(), None);
    q.tick();
    assert_eq!(q.pop_due(), Some("two"));
    q.tick();
    q.tick();
    assert_eq!(q.pop_due(), None);
    q.tick();
    assert_eq!(q.pop_due(), Some("five"));
    assert_eq!(q.pop_due(), Some("five again"));
    assert_eq!(q.pop_due(), None);
}

#[test]
fn tick_does_not_pass_a_due_timer() {
    let mut q: TimerQueue<u32> = TimerQueue::new();
    q.insert(0, 1);
    q.insert(1, 2);
    q.tick();
    q.tick();
    assert_eq!(q.pop_due(), Some(1));
    assert_eq!(q.pop_due(), None);
    q.tick();
    assert_eq!(q.pop_due(), Some(2));
}

#[test]
fn run_later_returns_the_target_tick() {
    let mut q: TimerQueue<u32> = TimerQueue::new();
    assert_eq!(run_later(&mut q, 100, 25_000_000, 7), 103);
    q.tick();
    q.tick();
    assert_eq!(q.pop_due(), None);
    q.tick();
    assert_eq!(q.pop_due(), Some(7));
}

#[test]
fn sleeping_queues_a_wake_up_timer() {
    let mut s = booted();
    let a = thread_spawn(&mut s);
    let mut timers: TimerQueue<ThreadId> = TimerQueue::new();
    s.step(ThreadId(0), SchedReason::Yielding);
    let step = thread_sleep(&mut s, &mut timers, 0, a, 1);
    assert_eq!(step, SchedStep::Switch { next: ThreadId(0), deferred: DeferredAction::Nothing });
    timers.tick();
    let due = timers.pop_due().unwrap();
    assert_eq!(due, a);
    s.wake(due);
    assert_eq!(s.step(ThreadId(0), SchedReason::Yielding), SchedStep::Switch { next: a, deferred: DeferredAction::Nothing });
}

#[test]
fn sleep_until_with_the_condition_met_keeps_running() {
    let mut s = booted();
    let a = thread_spawn(&mut s);
    s.step(ThreadId(0), SchedReason::Yielding);
    let mut q = WaitQueue::new();
    assert_eq!(q.sleep_until(&mut s, a, true), SchedStep::Stay);
    assert_eq!(q.wake_one(&mut s), None);
}

#[test]
fn wake_one_wakes_the_longest_waiter() {
    let mut s = booted();
    let a = thread_spawn(&mut s);
    let b = thread_spawn(&mut s);
    let mut q = WaitQueue::new();
    s.step(ThreadId(0), SchedReason::Yielding);
    // a waits, b runs; b waits, the idle thread runs
    assert_eq!(q.sleep_until(&mut s, a, false), SchedStep::Switch { next: b, deferred: DeferredAction::Nothing });
    assert_eq!(q.sleep_until(&mut s, b, false), SchedStep::Switch { next: ThreadId(0), deferred: DeferredAction::Nothing });
    assert_eq!(s.step(ThreadId(0), SchedReason::Yielding), SchedStep::Stay);
    assert_eq!(q.wake_one(&mut s), Some(a));
    assert_eq!(s.step(ThreadId(0), SchedReason::Yielding), SchedStep::Switch { next: a, deferred: DeferredAction::Nothing });
    assert_eq!(q.wake_one(&mut s), Some(b));
    assert_eq!(q.wake_one(&mut s), None);
    assert_eq!(s.step(a, SchedReason::Yielding), SchedStep::Switch { next: b, deferred: DeferredAction::Nothing });
}

#[test]
fn wake_all_wakes_every_waiter_in_order() {
    let mut s = booted();
    let a = thread_spawn(&mut s);
    let b = thread_spawn(&mut s);
    let c = thread_spawn(&mut s);
    let mut q = WaitQueue::new();
    s.step(ThreadId(0), SchedReason::Yielding);
    q.sleep_until(&mut s, a, false);
    q.sleep_until(&mut s, b, false);
    q.sleep_until(&mut s, c, false);
    q.wake_all(&mut s);
    assert_eq!(q.wake_one(&mut s), None);
    assert_eq!(s.step(ThreadId(0), SchedReason::Yielding), SchedStep::Switch { next: a, deferred: DeferredAction::Nothing });
    assert_eq!(s.step(a, SchedReason::Yielding), SchedStep::Switch { next: b, deferred: DeferredAction::Nothing });
    assert_eq!(s.step(b, SchedReason::Yielding), SchedStep::Switch { next: c, deferred: DeferredAction::Nothing });
}

#[test]
fn timer_interrupt_counts_runs_what_is_due_and_asks_to_reschedule() {
    let mut irq = IrqState::new();
    let guard = irq.interrupt_guard();
    let ctx = IrqContext::new(TrapFrame::default(), guard);
    let mut ticks: u64 = 41;
    let mut q: TimerQueue<u32> = TimerQueue::new();
    q.insert(1, 10);
    q.insert(1, 11);
    q.insert(3, 12);
    let due = timer_interrupt(&ctx, &mut irq, &mut ticks, &mut q);
    assert_eq!(ticks, 42);
    assert_eq!(due, vec![10, 11]);
    assert!(timer_interrupt(&ctx, &mut irq, &mut ticks, &mut q).is_empty());
    assert_eq!(timer_interrupt(&ctx, &mut irq, &mut ticks, &mut q), vec![12]);
    assert_eq!(ticks, 44);
    let guard = ctx.into_interrupt_guard();
    assert!(irq.take_resched(&guard));
    assert!(irq.release(guard));
}

#[test]
fn timer_interrupt_tick_count_wraps() {
    let mut irq = IrqState::new();
    let guard = irq.interrupt_guard();
    let ctx = IrqContext::new(TrapFrame::default(), guard);
    let mut ticks: u64 = u64::MAX;
    let mut q: TimerQueue<u32> = TimerQueue::new();
    assert!(timer_interrupt(&ctx, &mut irq, &mut ticks, &mut q).is_empty());
    assert_eq!(ticks, 0);
}
