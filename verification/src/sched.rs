use std::collections::VecDeque;
use vstd::prelude::*;

use crate::id_vec::{IdSparseVec, SparseId, ThreadId};
use crate::interrupts::IrqContext;
use crate::sync::IrqState;

verus! {

/// What a kernel thread is doing.
#[derive(Clone, Copy, PartialEq, Eq, Debug, Structural)]
pub enum ThreadState {
    Running,
    Ready,
    Exiting,
    Waiting,
    Sleeping,
}

/// Why the running thread gives up the processor.
#[derive(Clone, Copy, PartialEq, Eq, Debug, Structural)]
pub enum SchedReason {
    Yielding,
    Exiting,
    Waiting,
    Sleeping,
}

/// Work left for the thread switched to: only the idle thread is ever given any.
#[derive(Clone, Copy, PartialEq, Eq, Debug, Structural)]
pub enum DeferredAction {
    Nothing,
    Cleanup(ThreadId),
}

/// What the scheduler decided: keep running the current thread, or switch to `next` and have
/// it carry out `deferred`.
#[derive(Clone, Copy, PartialEq, Eq, Debug, Structural)]
pub enum SchedStep {
    Stay,
    Switch { next: ThreadId, deferred: DeferredAction },
}

/// The bookkeeping the scheduler keeps for a thread.
#[derive(Clone, Copy, Debug)]
pub struct SchedThread {
    pub state: ThreadState,
}

/// The threads of the kernel and the queue of those ready to run. The idle thread is
/// `ThreadId(0)`: it runs when nothing else can.
pub struct Scheduler {
    threads: IdSparseVec<ThreadId, SchedThread>,
    ready: VecDeque<ThreadId>,
}

/// The state a thread is left in when it gives up the processor for `reason`.
pub open spec fn state_after(reason: SchedReason) -> ThreadState {
    match reason {
        SchedReason::Yielding => ThreadState::Ready,
        SchedReason::Exiting => ThreadState::Exiting,
        SchedReason::Waiting => ThreadState::Waiting,
        SchedReason::Sleeping => ThreadState::Sleeping,
    }
}

/// How the scheduler's threads and ready queue change, and what it decides, when running
/// thread `current` gives up the processor for `reason`.
pub open spec fn stepped(
    threads: Map<nat, SchedThread>,
    ready: Seq<ThreadId>,
    threads2: Map<nat, SchedThread>,
    ready2: Seq<ThreadId>,
    current: ThreadId,
    reason: SchedReason,
    r: SchedStep,
) -> bool {
    if reason == SchedReason::Yielding && ready.len() == 0 {
        &&& r == SchedStep::Stay
        &&& threads2 == threads
        &&& ready2 == ready
    } else {
        let popped = reason != SchedReason::Exiting && ready.len() > 0;
        let next = if popped { ready[0] } else { ThreadId(0) };
        let rest = if popped { ready.drop_first() } else { ready };
        &&& r == SchedStep::Switch {
            next,
            deferred: if reason == SchedReason::Exiting { DeferredAction::Cleanup(current) } else { DeferredAction::Nothing },
        }
        &&& next.0 != current.0
        &&& threads2 == threads.insert(current.id_index(), SchedThread { state: state_after(reason) })
            .insert(next.id_index(), SchedThread { state: ThreadState::Running })
        &&& ready2 == if reason == SchedReason::Yielding && current.0 != 0 {
            rest.push(current)
        } else {
            rest
        }
    }
}

/// Round robin: a thread other than the idle one that yields while others are ready hands the
/// processor to the front of the queue and goes to its back. The new queue is the old one
/// without its front, in the same order, followed by the yielding thread, so no ready thread
/// is passed over by one that became ready after it.
pub proof fn lemma_yield_round_robin(
    threads: Map<nat, SchedThread>,
    ready: Seq<ThreadId>,
    threads2: Map<nat, SchedThread>,
    ready2: Seq<ThreadId>,
    current: ThreadId,
    r: SchedStep,
)
    requires
        stepped(threads, ready, threads2, ready2, current, SchedReason::Yielding, r),
        ready.len() > 0,
        current.0 != 0,
    ensures
        r == (SchedStep::Switch { next: ready[0], deferred: DeferredAction::Nothing }),
        ready2.len() == ready.len(),
        forall|k: int| 0 <= k < ready.len() - 1 ==> #[trigger] ready2[k] == ready[k + 1],
        ready2[ready.len() - 1] == current,
        threads2[current.id_index()].state == ThreadState::Ready,
{
}

/// The queue across the other steps: waiting or sleeping, and the idle thread yielding, hand
/// the processor to the front of the queue (to the idle thread when the queue is empty) and
/// leave the rest of the queue in order; exiting hands it to the idle thread, which cleans the
/// exiting thread up, and leaves the queue as it was; yielding with nobody ready keeps running.
pub proof fn lemma_step_queue(
    threads: Map<nat, SchedThread>,
    ready: Seq<ThreadId>,
    threads2: Map<nat, SchedThread>,
    ready2: Seq<ThreadId>,
    current: ThreadId,
    reason: SchedReason,
    r: SchedStep,
)
    requires
        stepped(threads, ready, threads2, ready2, current, reason, r),
    ensures
        reason == SchedReason::Yielding && ready.len() == 0 ==> r == SchedStep::Stay && ready2 == ready && threads2 == threads,
        reason == SchedReason::Exiting ==> r == (SchedStep::Switch { next: ThreadId(0), deferred: DeferredAction::Cleanup(current) })
            && ready2 == ready && threads2[0].state == ThreadState::Running,
        (reason == SchedReason::Waiting || reason == SchedReason::Sleeping) && ready.len() > 0 ==> {
            &&& r == (SchedStep::Switch { next: ready[0], deferred: DeferredAction::Nothing })
            &&& ready2.len() == ready.len() - 1
            &&& forall|k: int| 0 <= k < ready2.len() ==> #[trigger] ready2[k] == ready[k + 1]
        },
        (reason == SchedReason::Waiting || reason == SchedReason::Sleeping) && ready.len() == 0 ==> r == (SchedStep::Switch {
            next: ThreadId(0),
            deferred: DeferredAction::Nothing,
        }) && ready2.len() == 0,
        reason == SchedReason::Yielding && ready.len() > 0 && current.0 == 0 ==> {
            &&& r == (SchedStep::Switch { next: ready[0], deferred: DeferredAction::Nothing })
            &&& ready2.len() == ready.len() - 1
            &&& forall|k: int| 0 <= k < ready2.len() ==> #[trigger] ready2[k] == ready[k + 1]
        },
{
}

impl Scheduler {
    pub closed spec fn threads_view(&self) -> Map<nat, SchedThread> {
        self.threads@
    }

    pub closed spec fn ready_view(&self) -> Seq<ThreadId> {
        self.ready@
    }

    /// Every queued thread exists, is ready, is not the idle thread and is queued once.
    pub closed spec fn wf(&self) -> bool {
        &&& self.threads.wf()
        &&& forall|k: int| 0 <= k < self.ready@.len() ==> {
            let id = #[trigger] self.ready@[k];
            &&& self.threads@.contains_key(id.id_index())
            &&& self.threads@[id.id_index()].state == ThreadState::Ready
            &&& id.0 != 0
        }
        &&& forall|j: int, k: int| 0 <= j < k < self.ready@.len() ==> (#[trigger] self.ready@[j]).0 != (#[trigger] self.ready@[k]).0
    }

    /// No thread was ever added.
    pub closed spec fn fresh(&self) -> bool {
        &&& self.threads@ == Map::<nat, SchedThread>::empty()
        &&& self.threads.slot_count() == 0
        &&& self.threads.free_ids().len() == 0
    }

    /// A scheduler with no threads.
    pub fn new() -> (s: Scheduler)
        ensures
            s.wf(),
            s.threads_view() == Map::<nat, SchedThread>::empty(),
            s.ready_view().len() == 0,
            s.fresh(),
    {
        Scheduler { threads: IdSparseVec::new(), ready: VecDeque::new() }
    }

    /// Records the thread already running at boot as the idle thread.
    pub fn init_idle(&mut self) -> (id: ThreadId)
        requires
            old(self).wf(),
            old(self).fresh(),
        ensures
            final(self).wf(),
            id == ThreadId(0),
            final(self).threads_view() == Map::<nat, SchedThread>::empty().insert(0, SchedThread { state: ThreadState::Running }),
            final(self).ready_view() == old(self).ready_view(),
    {
        let id = self.threads.insert(SchedThread { state: ThreadState::Running });
        proof {
            assert(old(self).ready@.len() == 0) by {
                if old(self).ready@.len() > 0 {
                    assert(old(self).threads@.contains_key(old(self).ready@[0].id_index()));
                }
            }
        }
        id
    }

    /// Adds a new thread, ready to run at the back of the queue; returns its identifier.
    pub fn spawn(&mut self) -> (id: ThreadId)
        requires
            old(self).wf(),
            old(self).threads_view().contains_key(0),
        ensures
            final(self).wf(),
            !old(self).threads_view().contains_key(id.id_index()),
            final(self).threads_view() == old(self).threads_view().insert(id.id_index(), SchedThread { state: ThreadState::Ready }),
            final(self).ready_view() == old(self).ready_view().push(id),
    {
        let id = self.threads.insert(SchedThread { state: ThreadState::Ready });
        self.ready.push_back(id);
        proof {
            assert(id.0 != 0);
            assert forall|k: int| 0 <= k < old(self).ready@.len() implies (#[trigger] old(self).ready@[k]).0 != id.0 by {
                assert(old(self).threads@.contains_key(old(self).ready@[k].id_index()));
            }
        }
        id
    }

    /// Forgets an exited thread.
    pub fn clean_up(&mut self, id: ThreadId)
        requires
            old(self).wf(),
            old(self).threads_view().contains_key(id.id_index()),
            old(self).threads_view()[id.id_index()].state == ThreadState::Exiting,
        ensures
            final(self).wf(),
            final(self).threads_view() == old(self).threads_view().remove(id.id_index()),
            final(self).ready_view() == old(self).ready_view(),
    {
        let _ = self.threads.remove(id);
        proof {
            assert forall|k: int| 0 <= k < self.ready@.len() implies self.threads@.contains_key((#[trigger] self.ready@[k]).id_index()) by {
                assert(old(self).threads@.contains_key(old(self).ready@[k].id_index()));
                assert(old(self).threads@[old(self).ready@[k].id_index()].state == ThreadState::Ready);
            }
        }
    }

    /// Makes a waiting or sleeping thread (not the idle one) ready, at the back of the queue.
    pub fn wake(&mut self, id: ThreadId)
        requires
            old(self).wf(),
            id.0 != 0,
            old(self).threads_view().contains_key(id.id_index()),
            old(self).threads_view()[id.id_index()].state == ThreadState::Waiting
                || old(self).threads_view()[id.id_index()].state == ThreadState::Sleeping,
        ensures
            final(self).wf(),
            final(self).threads_view() == old(self).threads_view().insert(id.id_index(), SchedThread { state: ThreadState::Ready }),
            final(self).ready_view() == old(self).ready_view().push(id),
    {
        match self.threads.get_mut(id) {
            Some(t) => {
                t.state = ThreadState::Ready;
            },
            None => {},
        }
        self.ready.push_back(id);
        proof {
            assert forall|k: int| 0 <= k < old(self).ready@.len() implies (#[trigger] old(self).ready@[k]).0 != id.0 by {
                assert(old(self).threads@[old(self).ready@[k].id_index()].state == ThreadState::Ready);
            }
            assert forall|k: int| 0 <= k < self.ready@.len() implies {
                let q = #[trigger] self.ready@[k];
                &&& self.threads@.contains_key(q.id_index())
                &&& self.threads@[q.id_index()].state == ThreadState::Ready
                &&& q.0 != 0
            } by {
                if k < old(self).ready@.len() {
                    assert(self.ready@[k] == old(self).ready@[k]);
                }
            }
        }
    }

    /// Decides what running thread `current` does on giving up the processor for `reason`:
    /// stay when yielding with nobody ready; else switch to the front of the ready queue (the
    /// idle thread when it is empty, and always when exiting), leaving `current` in the state
    /// `reason` calls for and, when yielding, at the back of the queue unless it is the idle
    /// thread. An exiting thread is cleaned up by the idle thread once the switch is done.
    pub fn step(&mut self, current: ThreadId, reason: SchedReason) -> (r: SchedStep)
        requires
            old(self).wf(),
            old(self).threads_view().contains_key(current.id_index()),
            old(self).threads_view()[current.id_index()].state == ThreadState::Running,
            reason == SchedReason::Exiting ==> current.0 != 0,
            reason == SchedReason::Exiting || (reason != SchedReason::Yielding && old(self).ready_view().len() == 0)
                ==> current.0 != 0 && old(self).threads_view().contains_key(0),
        ensures
            final(self).wf(),
            stepped(old(self).threads_view(), old(self).ready_view(), final(self).threads_view(), final(self).ready_view(), current, reason, r),
            reason == SchedReason::Yielding && current.0 != 0 && old(self).ready_view().len() > 0 ==> {
                &&& r == (SchedStep::Switch { next: old(self).ready_view()[0], deferred: DeferredAction::Nothing })
                &&& final(self).ready_view().len() == old(self).ready_view().len()
                &&& forall|k: int| 0 <= k < old(self).ready_view().len() - 1 ==> #[trigger] final(self).ready_view()[k]
                    == old(self).ready_view()[k + 1]
                &&& final(self).ready_view()[old(self).ready_view().len() - 1] == current
            },
    {
        if reason == SchedReason::Yielding && self.ready.len() == 0 {
            return SchedStep::Stay;
        }
        let ghost ready0 = self.ready@;
        let next = if reason == SchedReason::Exiting {
            ThreadId(0)
        } else {
            match self.ready.pop_front() {
                Some(id) => id,
                None => ThreadId(0),
            }
        };
        proof {
            if reason != SchedReason::Exiting && ready0.len() > 0 {
                assert(next == ready0[0]);
                assert(self.ready@ =~= ready0.drop_first());
            }
        }
        let ghost mid = self.threads@;
        match self.threads.get_mut_2(current, next) {
            Some((cur, nxt)) => {
                cur.state = match reason {
                    SchedReason::Yielding => ThreadState::Ready,
                    SchedReason::Exiting => ThreadState::Exiting,
                    SchedReason::Waiting => ThreadState::Waiting,
                    SchedReason::Sleeping => ThreadState::Sleeping,
                };
                nxt.state = ThreadState::Running;
            },
            None => {},
        }
        proof {
            assert(next.0 != current.0);
            assert(self.threads@ =~= mid.insert(current.id_index(), SchedThread { state: state_after(reason) })
                .insert(next.id_index(), SchedThread { state: ThreadState::Running }));
        }
        if reason == SchedReason::Yielding && current.0 != 0 {
            self.ready.push_back(current);
        }
        proof {
            let r1 = self.ready@;
            assert forall|k: int| 0 <= k < r1.len() implies {
                let q = #[trigger] r1[k];
                &&& self.threads@.contains_key(q.id_index())
                &&& self.threads@[q.id_index()].state == ThreadState::Ready
                &&& q.0 != 0
            } by {
                if reason != SchedReason::Exiting && ready0.len() > 0 {
                    if k < ready0.len() - 1 {
                        assert(r1[k] == ready0[k + 1]);
                        assert(ready0[0].0 != ready0[k + 1].0);
                    }
                } else if k < ready0.len() {
                    assert(r1[k] == ready0[k]);
                }
            }
            assert forall|j: int, k: int| 0 <= j < k < r1.len() implies (#[trigger] r1[j]).0 != (#[trigger] r1[k]).0 by {
                if reason != SchedReason::Exiting && ready0.len() > 0 {
                    if k < ready0.len() - 1 {
                        assert(r1[j] == ready0[j + 1] && r1[k] == ready0[k + 1]);
                    } else {
                        assert(r1[j] == ready0[j + 1]);
                        assert(mid[ready0[j + 1].id_index()].state == ThreadState::Ready);
                    }
                } else {
                    if k < ready0.len() {
                        assert(r1[j] == ready0[j] && r1[k] == ready0[k]);
                    } else {
                        assert(r1[j] == ready0[j]);
                        assert(mid[ready0[j].id_index()].state == ThreadState::Ready);
                    }
                }
            }
        }
        let deferred = if reason == SchedReason::Exiting { DeferredAction::Cleanup(current) } else { DeferredAction::Nothing };
        SchedStep::Switch { next, deferred }
    }
}

/// Threads waiting for a condition, woken in the order in which they began to wait.
pub struct WaitQueue {
    waiters: VecDeque<ThreadId>,
}

/// `q1` and `s1` are what waking one waiter of `q0` makes of `q0` and `s0`: with nobody
/// waiting nothing changes; otherwise the longest waiter leaves the queue and becomes ready
/// at the back of the scheduler's queue.
pub open spec fn woke_one(q0: WaitQueue, s0: Scheduler, q1: WaitQueue, s1: Scheduler) -> bool {
    &&& s1.wf()
    &&& q1.waiting_in(&s1)
    &&& q0.waiters_view().len() == 0 ==> s1 == s0 && q1.waiters_view() == q0.waiters_view()
    &&& q0.waiters_view().len() > 0 ==> {
        let id = q0.waiters_view()[0];
        &&& q1.waiters_view() == q0.waiters_view().drop_first()
        &&& s1.threads_view() == s0.threads_view().insert(id.id_index(), SchedThread { state: ThreadState::Ready })
        &&& s1.ready_view() == s0.ready_view().push(id)
    }
}

impl WaitQueue {
    pub closed spec fn waiters_view(&self) -> Seq<ThreadId> {
        self.waiters@
    }

    /// Every waiter is a thread of `s`, other than the idle thread, that is waiting, and no
    /// thread waits twice.
    pub open spec fn waiting_in(&self, s: &Scheduler) -> bool {
        &&& forall|k: int| 0 <= k < self.waiters_view().len() ==> {
            let id = #[trigger] self.waiters_view()[k];
            &&& s.threads_view().contains_key(id.id_index())
            &&& s.threads_view()[id.id_index()].state == ThreadState::Waiting
            &&& id.0 != 0
        }
        &&& forall|j: int, k: int|
            0 <= j < k < self.waiters_view().len() ==> (#[trigger] self.waiters_view()[j]).0 != (
            #[trigger] self.waiters_view()[k]).0
    }

    /// A queue with no waiters.
    pub fn new() -> (q: WaitQueue)
        ensures
            q.waiters_view() == Seq::<ThreadId>::empty(),
    {
        WaitQueue { waiters: VecDeque::new() }
    }

    /// What running thread `current` does once it has checked the condition it waits for:
    /// where it holds, it goes on running; else it joins the back of the queue and gives up the
    /// processor, to check again once woken. The idle thread never waits.
    pub fn sleep_until(&mut self, scheduler: &mut Scheduler, current: ThreadId, condition_holds: bool) -> (r: SchedStep)
        requires
            old(scheduler).wf(),
            old(scheduler).threads_view().contains_key(current.id_index()),
            old(scheduler).threads_view()[current.id_index()].state == ThreadState::Running,
            current.0 != 0,
            old(scheduler).ready_view().len() == 0 ==> old(scheduler).threads_view().contains_key(0),
        ensures
            final(scheduler).wf(),
            condition_holds ==> r == SchedStep::Stay && *final(scheduler) == *old(scheduler) && final(self).waiters_view()
                == old(self).waiters_view(),
            !condition_holds ==> final(self).waiters_view() == old(self).waiters_view().push(current) && stepped(
                old(scheduler).threads_view(),
                old(scheduler).ready_view(),
                final(scheduler).threads_view(),
                final(scheduler).ready_view(),
                current,
                SchedReason::Waiting,
                r,
            ),
            old(self).waiting_in(old(scheduler)) ==> final(self).waiting_in(final(scheduler)),
    {
        if condition_holds {
            return SchedStep::Stay;
        }
        let ghost w0 = self.waiters@;
        let ghost t0 = scheduler.threads_view();
        self.waiters.push_back(current);
        let r = scheduler.step(current, SchedReason::Waiting);
        proof {
            if old(self).waiting_in(old(scheduler)) {
                let t1 = scheduler.threads_view();
                let w1 = self.waiters@;
                let next = match r {
                    SchedStep::Switch { next, deferred: _ } => next,
                    SchedStep::Stay => current,
                };
                assert forall|k: int| 0 <= k < w0.len() implies (#[trigger] w0[k]).0 != current.0 && w0[k].0
                    != next.0 by {
                    assert(t0[w0[k].id_index()].state == ThreadState::Waiting);
                    if old(scheduler).ready_view().len() > 0 {
                        assert(old(scheduler).ready_view()[0] == next);
                    }
                }
                assert forall|k: int| 0 <= k < w1.len() implies {
                    let id = #[trigger] w1[k];
                    &&& t1.contains_key(id.id_index())
                    &&& t1[id.id_index()].state == ThreadState::Waiting
                    &&& id.0 != 0
                } by {
                    if k < w0.len() {
                        assert(w1[k] == w0[k]);
                    }
                }
                assert forall|j: int, k: int| 0 <= j < k < w1.len() implies (#[trigger] w1[j]).0 != (#[trigger] w1[k]).0 by {
                    assert(w1[j] == w0[j]);
                    if k < w0.len() {
                        assert(w1[k] == w0[k]);
                    }
                }
            }
        }
        r
    }

    /// Wakes the thread that has waited longest, if any, and returns it.
    pub fn wake_one(&mut self, scheduler: &mut Scheduler) -> (r: Option<ThreadId>)
        requires
            old(scheduler).wf(),
            old(self).waiting_in(old(scheduler)),
        ensures
            woke_one(*old(self), *old(scheduler), *final(self), *final(scheduler)),
            final(scheduler).wf(),
            final(self).waiting_in(final(scheduler)),
            old(self).waiters_view().len() == 0 ==> r is None && *final(scheduler) == *old(scheduler)
                && final(self).waiters_view() == old(self).waiters_view(),
            old(self).waiters_view().len() > 0 ==> {
                let id = old(self).waiters_view()[0];
                &&& r == Some(id)
                &&& final(self).waiters_view() == old(self).waiters_view().drop_first()
                &&& final(scheduler).threads_view() == old(scheduler).threads_view().insert(
                    id.id_index(),
                    SchedThread { state: ThreadState::Ready },
                )
                &&& final(scheduler).ready_view() == old(scheduler).ready_view().push(id)
            },
    {
        let ghost w0 = self.waiters@;
        match self.waiters.pop_front() {
            Some(id) => {
                proof {
                    assert(w0[0] == id);
                    assert(self.waiters@ =~= w0.drop_first());
                }
                scheduler.wake(id);
                proof {
                    let w1 = self.waiters@;
                    assert forall|k: int| 0 <= k < w1.len() implies {
                        let q = #[trigger] w1[k];
                        &&& scheduler.threads_view().contains_key(q.id_index())
                        &&& scheduler.threads_view()[q.id_index()].state == ThreadState::Waiting
                        &&& q.0 != 0
                    } by {
                        assert(w1[k] == w0[k + 1]);
                        assert(w0[0].0 != w0[k + 1].0);
                    }
                    assert forall|j: int, k: int| 0 <= j < k < w1.len() implies (#[trigger] w1[j]).0 != (#[trigger] w1[k]).0 by {
                        assert(w1[j] == w0[j + 1] && w1[k] == w0[k + 1]);
                    }
                }
                Some(id)
            },
            None => None,
        }
    }

    /// Wakes every waiter, in the order in which they began to wait.
    pub fn wake_all(&mut self, scheduler: &mut Scheduler)
        requires
            old(scheduler).wf(),
            old(self).waiting_in(old(scheduler)),
        ensures
            final(scheduler).wf(),
            final(self).waiters_view() == Seq::<ThreadId>::empty(),
            final(scheduler).ready_view() == old(scheduler).ready_view() + old(self).waiters_view(),
            final(scheduler).threads_view().dom() == old(scheduler).threads_view().dom(),
            forall|k: nat| #[trigger] old(scheduler).threads_view().contains_key(k) ==> final(scheduler).threads_view()[k]
                == if exists|j: int| 0 <= j < old(self).waiters_view().len() && (#[trigger] old(self).waiters_view()[j]).id_index() == k {
                SchedThread { state: ThreadState::Ready }
            } else {
                old(scheduler).threads_view()[k]
            },
    {
        let ghost w0 = self.waiters@;
        let ghost t0 = scheduler.threads_view();
        let ghost r0 = scheduler.ready_view();
        let ghost mut i: int = 0;
        loop
            invariant
                scheduler.wf(),
                0 <= i <= w0.len(),
                self.waiters@ == w0.skip(i),
                self.waiting_in(scheduler),
                scheduler.ready_view() == r0 + w0.take(i),
                scheduler.threads_view().dom() == t0.dom(),
                forall|j: int, k: int| 0 <= j < k < w0.len() ==> (#[trigger] w0[j]).0 != (#[trigger] w0[k]).0,
                forall|k: nat| #[trigger] t0.contains_key(k) ==> scheduler.threads_view()[k] == if exists|j: int|
                    0 <= j < i && (#[trigger] w0[j]).id_index() == k {
                    SchedThread { state: ThreadState::Ready }
                } else {
                    t0[k]
                },
            ensures
                self.waiters@.len() == 0,
                i == w0.len(),
                scheduler.wf(),
                scheduler.ready_view() == r0 + w0.take(i),
                scheduler.threads_view().dom() == t0.dom(),
                forall|k: nat| #[trigger] t0.contains_key(k) ==> scheduler.threads_view()[k] == if exists|j: int|
                    0 <= j < i && (#[trigger] w0[j]).id_index() == k {
                    SchedThread { state: ThreadState::Ready }
                } else {
                    t0[k]
                },
            decreases w0.len() - i,
        {
            let ghost before = self.waiters@;
            let ghost t1 = scheduler.threads_view();
            match self.waiters.pop_front() {
                Some(id) => {
                    proof {
                        assert(before[0] == id);
                        assert(w0[i] == id);
                        assert(self.waiters@ =~= w0.skip(i + 1));
                    }
                    scheduler.wake(id);
                    proof {
                        let w1 = self.waiters@;
                        assert forall|k: int| 0 <= k < w1.len() implies {
                            let q = #[trigger] w1[k];
                            &&& scheduler.threads_view().contains_key(q.id_index())
                            &&& scheduler.threads_view()[q.id_index()].state == ThreadState::Waiting
                            &&& q.0 != 0
                        } by {
                            assert(w1[k] == before[k + 1]);
                            assert(before[0].0 != before[k + 1].0);
                        }
                        assert forall|j: int, k: int| 0 <= j < k < w1.len() implies (#[trigger] w1[j]).0 != (
                        #[trigger] w1[k]).0 by {
                            assert(w1[j] == before[j + 1] && w1[k] == before[k + 1]);
                        }
                        assert(r0 + w0.take(i + 1) =~= (r0 + w0.take(i)).push(id));
                        assert(scheduler.threads_view().dom() =~= t0.dom());
                        assert forall|k: nat| #[trigger] t0.contains_key(k) implies scheduler.threads_view()[k] == if exists|j: int|
                            0 <= j < i + 1 && (#[trigger] w0[j]).id_index() == k {
                            SchedThread { state: ThreadState::Ready }
                        } else {
                            t0[k]
                        } by {
                            if k == id.id_index() {
                                assert(w0[i].id_index() == k);
                            } else {
                                if exists|j: int| 0 <= j < i + 1 && (#[trigger] w0[j]).id_index() == k {
                                    let j = choose|j: int| 0 <= j < i + 1 && (#[trigger] w0[j]).id_index() == k;
                                    assert(j < i);
                                }
                            }
                        }
                        i = i + 1;
                    }
                },
                None => {
                    proof {
                        assert(before.len() == 0);
                    }
                    break;
                },
            }
        }
        proof {
            assert(w0.take(i) =~= w0);
        }
    }
}

/// Nanoseconds per timer tick: the programmable interval timer runs at 1193182 Hz and is
/// divided down to ticks of about 100 Hz.
pub const TICK_NS: u64 = 9_999_312;

/// A pending timer: `delta` ticks after the timer before it, `payload` is due.
pub struct TimerEvent<T> {
    pub delta: u64,
    pub payload: T,
}

/// Timers ordered by when they are due, each stored as its distance from the one before.
pub struct TimerQueue<T> {
    timers: Vec<TimerEvent<T>>,
}

/// How many ticks from now timer `k` is due: the sum of the deltas up to it.
pub open spec fn due<T>(s: Seq<TimerEvent<T>>, k: int) -> int
    decreases k,
{
    if k < 0 || k >= s.len() {
        0
    } else if k == 0 {
        s[0].delta as int
    } else {
        due(s, k - 1) + s[k].delta
    }
}

proof fn lemma_due_monotone<T>(s: Seq<TimerEvent<T>>, j: int, k: int)
    requires
        0 <= j <= k < s.len(),
    ensures
        due(s, j) <= due(s, k),
    decreases k - j,
{
    if j < k {
        lemma_due_monotone(s, j, k - 1);
    }
}

/// Timers whose deltas agree from position `from` of `s` on, at `shift` positions further in
/// `t`, and whose sums agree before that, agree in when they are due.
proof fn lemma_due_shift<T>(s: Seq<TimerEvent<T>>, t: Seq<TimerEvent<T>>, from: int, shift: int, k: int)
    requires
        0 <= from <= k < s.len(),
        0 <= from + shift,
        k + shift < t.len(),
        (if from + shift == 0 { 0 } else { due(t, from + shift - 1) }) == (if from == 0 { 0 } else { due(s, from - 1) }),
        forall|i: int| from <= i <= k ==> #[trigger] t[i + shift].delta == s[i].delta,
    ensures
        due(t, k + shift) == due(s, k),
    decreases k - from,
{
    if k > from {
        lemma_due_shift(s, t, from, shift, k - 1);
    }
}

impl<T> TimerQueue<T> {
    /// The pending timers in order: when each is due and what it carries.
    pub closed spec fn events(&self) -> Seq<(int, T)> {
        Seq::new(self.timers@.len(), |k: int| (due(self.timers@, k), self.timers@[k].payload))
    }

    pub fn new() -> (q: TimerQueue<T>)
        ensures
            q.events() == Seq::<(int, T)>::empty(),
    {
        let q = TimerQueue { timers: Vec::new() };
        assert(q.events() =~= Seq::<(int, T)>::empty());
        q
    }

    /// Adds a timer due `ticks` ticks from now, after every timer due no later.
    pub fn insert(&mut self, ticks: u64, payload: T)
        ensures
            exists|k: int| {
                &&& 0 <= k <= old(self).events().len()
                &&& forall|j: int| 0 <= j < k ==> (#[trigger] old(self).events()[j]).0 <= ticks
                &&& k < old(self).events().len() ==> old(self).events()[k].0 > ticks
                &&& final(self).events() == old(self).events().insert(k, (ticks as int, payload))
            },
    {
        let ghost s = self.timers@;
        let n = self.timers.len();
        let mut rem = ticks;
        let mut i: usize = 0;
        while i < n
            invariant
                s == self.timers@,
                s == old(self).timers@,
                n == s.len(),
                0 <= i <= n,
                rem == ticks - (if i == 0 { 0 } else { due(s, i - 1) }),
                forall|j: int| 0 <= j < i ==> due(s, j) <= ticks,
            decreases n - i,
        {
            let d = self.timers[i].delta;
            if rem < d {
                let ghost before = self.timers@;
                self.timers[i].delta = d - rem;
                self.timers.insert(i, TimerEvent { delta: rem, payload });
                proof {
                    let t = self.timers@;
                    assert(t[i as int].delta == rem);
                    assert(t[i as int].payload == payload);
                    assert forall|j: int| 0 <= j < i implies #[trigger] t[j] == s[j] by {}
                    assert forall|j: int| i < j < t.len() implies #[trigger] t[j].payload == s[j - 1].payload by {}
                    assert forall|j: int| 0 <= j < i implies #[trigger] t[j].delta == s[j].delta by {}
                    assert forall|j: int| 0 <= j < i implies due(t, j) == due(s, j) by {
                        if i > 0 {
                            lemma_due_shift(s, t, 0, 0, j);
                        }
                    }
                    assert(due(t, i as int) == ticks) by {
                        if i > 0 {
                            assert(due(t, i - 1) == due(s, i - 1));
                        }
                    }
                    assert(due(t, i + 1) == due(s, i as int)) by {
                        assert(t[i + 1].delta == d - rem);
                        if i > 0 {
                            assert(due(t, i - 1) == due(s, i - 1));
                        }
                    }
                    assert forall|j: int| i < j < s.len() implies due(t, j + 1) == due(s, j) by {
                        assert forall|q: int| i + 1 <= q < s.len() implies #[trigger] t[q + 1].delta == s[q].delta by {}
                        lemma_due_shift(s, t, i + 1, 1, j);
                    }
                    assert(due(s, i as int) > ticks);
                    let e0 = old(self).events();
                    let e1 = self.events();
                    let ins = e0.insert(i as int, (ticks as int, payload));
                    assert(e1.len() == ins.len());
                    assert forall|j: int| 0 <= j < e1.len() implies e1[j] == ins[j] by {
                        assert(e1[j] == (due(t, j), t[j].payload));
                        if j < i {
                            assert(ins[j] == e0[j]);
                            assert(e0[j] == (due(s, j), s[j].payload));
                            assert(due(t, j) == due(s, j));
                        } else if j == i {
                            assert(ins[j] == (ticks as int, payload));
                        } else if j == i + 1 {
                            assert(ins[j] == e0[j - 1]);
                            assert(e0[j - 1] == (due(s, j - 1), s[j - 1].payload));
                            assert(due(t, j) == due(s, j - 1));
                        } else {
                            assert(ins[j] == e0[j - 1]);
                            assert(e0[j - 1] == (due(s, j - 1), s[j - 1].payload));
                            assert forall|q: int| i + 1 <= q <= j - 1 implies #[trigger] t[q + 1].delta == s[q].delta by {}
                            lemma_due_shift(s, t, i + 1, 1, j - 1);
                        }
                    }
                    assert(e1 =~= ins);
                }
                return;
            }
            rem = rem - d;
            proof {
                assert(due(s, i as int) == (if i == 0 { 0 } else { due(s, i - 1) }) + d);
            }
            i = i + 1;
        }
        self.timers.push(TimerEvent { delta: rem, payload });
        proof {
            let t = self.timers@;
            assert forall|j: int| 0 <= j < n implies due(t, j) == due(s, j) by {
                assert forall|q: int| 0 <= q < s.len() implies #[trigger] t[q].delta == s[q].delta by {}
                lemma_due_shift(s, t, 0, 0, j);
            }
            assert(due(t, n as int) == ticks);
            assert(self.events() =~= old(self).events().insert(n as int, (ticks as int, payload)));
        }
    }

    /// One tick passes: every timer comes one tick closer, unless the first one is already due.
    pub fn tick(&mut self)
        ensures
            if old(self).events().len() > 0 && old(self).events()[0].0 > 0 {
                final(self).events() == old(self).events().map_values(|e: (int, T)| (e.0 - 1, e.1))
            } else {
                final(self).events() == old(self).events()
            },
    {
        if self.timers.len() > 0 && self.timers[0].delta > 0 {
            let ghost s = self.timers@;
            let d = self.timers[0].delta;
            self.timers[0].delta = d - 1;
            proof {
                let t = self.timers@;
                assert forall|k: int| 0 <= k < t.len() implies due(t, k) == due(s, k) - 1 by {
                    lemma_due_tick(s, t, k);
                }
                assert(self.events() =~= old(self).events().map_values(|e: (int, T)| (e.0 - 1, e.1)));
            }
        }
    }

    /// Takes the first timer out if it is due.
    pub fn pop_due(&mut self) -> (r: Option<T>)
        ensures
            if old(self).events().len() > 0 && old(self).events()[0].0 == 0 {
                r == Some(old(self).events()[0].1) && final(self).events() == old(self).events().drop_first()
            } else {
                r.is_none() && final(self).events() == old(self).events()
            },
    {
        if self.timers.len() > 0 && self.timers[0].delta == 0 {
            let ghost s = self.timers@;
            let e = self.timers.remove(0);
            proof {
                let t = self.timers@;
                assert forall|k: int| 0 <= k < t.len() implies due(t, k) == due(s, k + 1) by {
                    assert forall|q: int| 1 <= q < s.len() implies #[trigger] t[q - 1].delta == s[q].delta by {
                        assert(t[q - 1] == s[q]);
                    }
                    lemma_due_shift(s, t, 1, -1, k + 1);
                }
                assert(self.events() =~= old(self).events().drop_first());
            }
            Some(e.payload)
        } else {
            None
        }
    }
}

proof fn lemma_due_tick<T>(s: Seq<TimerEvent<T>>, t: Seq<TimerEvent<T>>, k: int)
    requires
        s.len() == t.len(),
        s.len() > 0,
        t[0].delta == s[0].delta - 1,
        forall|i: int| 1 <= i < s.len() ==> #[trigger] t[i].delta == s[i].delta,
        0 <= k < s.len(),
    ensures
        due(t, k) == due(s, k) - 1,
    decreases k,
{
    if k > 0 {
        lemma_due_tick(s, t, k - 1);
    }
}

/// How many whole ticks cover `delay_ns` nanoseconds, rounding up.
pub open spec fn delay_ticks(delay_ns: u64) -> int {
    (delay_ns + TICK_NS - 1) / TICK_NS as int
}

/// How many whole ticks cover `delay_ns` nanoseconds, rounding up.
pub fn ticks_for(delay_ns: u64) -> (t: u64)
    ensures
        t == delay_ticks(delay_ns),
{
    let q = delay_ns / TICK_NS;
    if delay_ns % TICK_NS == 0 {
        q
    } else {
        q + 1
    }
}

/// Arranges for `payload` to fall due once `delay_ns` nanoseconds have passed, at tick `now`;
/// returns the tick it is due at.
pub fn run_later<T>(queue: &mut TimerQueue<T>, now: u64, delay_ns: u64, payload: T) -> (target: u64)
    requires
        now + delay_ticks(delay_ns) <= u64::MAX,
    ensures
        target == now + delay_ticks(delay_ns),
        exists|k: int| {
            &&& 0 <= k <= old(queue).events().len()
            &&& forall|j: int| 0 <= j < k ==> (#[trigger] old(queue).events()[j]).0 <= delay_ticks(delay_ns)
            &&& k < old(queue).events().len() ==> old(queue).events()[k].0 > delay_ticks(delay_ns)
            &&& final(queue).events() == old(queue).events().insert(k, (delay_ticks(delay_ns), payload))
        },
{
    let ticks = ticks_for(delay_ns);
    queue.insert(ticks, payload);
    now + ticks
}

/// The timers after one tick: each comes a tick closer, unless the first is already due.
pub open spec fn ticked<T>(events: Seq<(int, T)>) -> Seq<(int, T)> {
    if events.len() > 0 && events[0].0 > 0 {
        events.map_values(|e: (int, T)| (e.0 - 1, e.1))
    } else {
        events
    }
}

/// What the timer interrupt decides: the tick count goes up by one (wrapping around), every
/// timer comes a tick closer, those then due are taken out and returned in order, for the
/// caller to run, and a reschedule is asked for on the way out of the handler.
pub fn timer_interrupt<T>(ctx: &IrqContext, irq: &mut IrqState, ticks: &mut u64, timers: &mut TimerQueue<T>) -> (due: Vec<T>)
    ensures
        *final(ticks) == if *old(ticks) == u64::MAX { 0 } else { (*old(ticks) + 1) as u64 },
        final(irq).lock_count() == old(irq).lock_count(),
        final(irq).resched_pending(),
        ({
            let e = ticked(old(timers).events());
            let n = due@.len() as int;
            &&& n <= e.len()
            &&& forall|j: int| 0 <= j < n ==> (#[trigger] e[j]).0 == 0 && due@[j] == e[j].1
            &&& n < e.len() ==> e[n].0 != 0
            &&& final(timers).events() == e.skip(n)
        }),
{
    *ticks = if *ticks == u64::MAX { 0 } else { *ticks + 1 };
    timers.tick();
    let ghost e = timers.events();
    let mut due: Vec<T> = Vec::new();
    loop
        invariant
            due@.len() <= e.len(),
            forall|j: int| 0 <= j < due@.len() ==> (#[trigger] e[j]).0 == 0 && due@[j] == e[j].1,
            timers.events() == e.skip(due@.len() as int),
        ensures
            due@.len() <= e.len(),
            forall|j: int| 0 <= j < due@.len() ==> (#[trigger] e[j]).0 == 0 && due@[j] == e[j].1,
            due@.len() < e.len() ==> e[due@.len() as int].0 != 0,
            timers.events() == e.skip(due@.len() as int),
        decreases e.len() - due@.len(),
    {
        let ghost before = timers.events();
        match timers.pop_due() {
            Some(x) => {
                proof {
                    assert(before[0] == e[due@.len() as int]);
                    assert(before.drop_first() =~= e.skip(due@.len() + 1int));
                }
                due.push(x);
            },
            None => {
                proof {
                    if due@.len() < e.len() {
                        assert(before[0] == e[due@.len() as int]);
                    }
                }
                break;
            },
        }
    }
    ctx.need_resched(irq);
    due
}

/// Lets the next ready thread run, if any; `current` stays ready.
pub fn thread_yield(scheduler: &mut Scheduler, current: ThreadId) -> (r: SchedStep)
    requires
        old(scheduler).wf(),
        old(scheduler).threads_view().contains_key(current.id_index()),
        old(scheduler).threads_view()[current.id_index()].state == ThreadState::Running,
    ensures
        final(scheduler).wf(),
        stepped(old(scheduler).threads_view(), old(scheduler).ready_view(), final(scheduler).threads_view(),
            final(scheduler).ready_view(), current, SchedReason::Yielding, r),
{
    scheduler.step(current, SchedReason::Yielding)
}

/// Ends thread `current`: the idle thread takes over and cleans it up.
pub fn thread_exit(scheduler: &mut Scheduler, current: ThreadId) -> (r: SchedStep)
    requires
        old(scheduler).wf(),
        old(scheduler).threads_view().contains_key(current.id_index()),
        old(scheduler).threads_view()[current.id_index()].state == ThreadState::Running,
        current.0 != 0,
        old(scheduler).threads_view().contains_key(0),
    ensures
        final(scheduler).wf(),
        stepped(old(scheduler).threads_view(), old(scheduler).ready_view(), final(scheduler).threads_view(),
            final(scheduler).ready_view(), current, SchedReason::Exiting, r),
{
    scheduler.step(current, SchedReason::Exiting)
}

/// Adds a thread, ready to run.
pub fn thread_spawn(scheduler: &mut Scheduler) -> (id: ThreadId)
    requires
        old(scheduler).wf(),
        old(scheduler).threads_view().contains_key(0),
    ensures
        final(scheduler).wf(),
        !old(scheduler).threads_view().contains_key(id.id_index()),
        final(scheduler).threads_view() == old(scheduler).threads_view().insert(id.id_index(), SchedThread { state: ThreadState::Ready }),
        final(scheduler).ready_view() == old(scheduler).ready_view().push(id),
{
    scheduler.spawn()
}

/// Puts thread `current` to sleep for `delay_ns` nanoseconds from tick `now`: a timer that
/// wakes it is queued, and another thread runs meanwhile.
pub fn thread_sleep(
    scheduler: &mut Scheduler,
    timers: &mut TimerQueue<ThreadId>,
    now: u64,
    current: ThreadId,
    delay_ns: u64,
) -> (r: SchedStep)
    requires
        old(scheduler).wf(),
        old(scheduler).threads_view().contains_key(current.id_index()),
        old(scheduler).threads_view()[current.id_index()].state == ThreadState::Running,
        old(scheduler).ready_view().len() == 0 ==> current.0 != 0 && old(scheduler).threads_view().contains_key(0),
        now + delay_ticks(delay_ns) <= u64::MAX,
    ensures
        final(scheduler).wf(),
        stepped(old(scheduler).threads_view(), old(scheduler).ready_view(), final(scheduler).threads_view(),
            final(scheduler).ready_view(), current, SchedReason::Sleeping, r),
        exists|k: int| {
            &&& 0 <= k <= old(timers).events().len()
            &&& forall|j: int| 0 <= j < k ==> (#[trigger] old(timers).events()[j]).0 <= delay_ticks(delay_ns)
            &&& k < old(timers).events().len() ==> old(timers).events()[k].0 > delay_ticks(delay_ns)
            &&& final(timers).events() == old(timers).events().insert(k, (delay_ticks(delay_ns), current))
        },
{
    let _ = run_later(timers, now, delay_ns, current);
    scheduler.step(current, SchedReason::Sleeping)
}

/// The timers are due in order.
pub open spec fn due_in_order<T>(events: Seq<(int, T)>) -> bool {
    forall|i: int, j: int| 0 <= i <= j < events.len() ==> (#[trigger] events[i]).0 <= (#[trigger] events[j]).0
}

/// Putting a timer where `insert` puts it keeps the timers due in order.
pub proof fn lemma_insert_keeps_order<T>(events: Seq<(int, T)>, k: int, ticks: int, payload: T)
    requires
        due_in_order(events),
        0 <= k <= events.len(),
        forall|j: int| 0 <= j < k ==> (#[trigger] events[j]).0 <= ticks,
        k < events.len() ==> events[k].0 > ticks,
    ensures
        due_in_order(events.insert(k, (ticks, payload))),
{
    let t = events.insert(k, (ticks, payload));
    assert forall|i: int, j: int| 0 <= i <= j < t.len() implies (#[trigger] t[i]).0 <= (#[trigger] t[j]).0 by {
        if i < k && j < k {
            assert(t[i] == events[i] && t[j] == events[j]);
        } else if i < k && j == k {
            assert(t[i] == events[i]);
        } else if i < k {
            assert(t[i] == events[i] && t[j] == events[j - 1]);
        } else if i == k && j > k {
            assert(t[j] == events[j - 1]);
            assert(events[k].0 <= events[j - 1].0);
        } else if i > k {
            assert(t[i] == events[i - 1] && t[j] == events[j - 1]);
        }
    }
}

/// The timers of a queue are always due in order.
pub proof fn lemma_events_in_order<T>(q: &TimerQueue<T>)
    ensures
        due_in_order(q.events()),
{
    let e = q.events();
    assert forall|i: int, j: int| 0 <= i <= j < e.len() implies (#[trigger] e[i]).0 <= (#[trigger] e[j]).0 by {
        lemma_due_monotone(q.timers@, i, j);
    }
}

} // verus!
