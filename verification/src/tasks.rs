use std::collections::VecDeque;
use vstd::prelude::*;

use crate::id_vec::{IdSparseVec, SparseId, TaskId};
use crate::sched::{delay_ticks, run_later, woke_one, Scheduler, TimerQueue, WaitQueue};

verus! {

/// Where an asynchronous task stands; `F` is its suspended computation.
pub enum TaskState<F> {
    /// Being polled.
    Executing,
    /// Being polled, and woken meanwhile: it goes straight back to the ready queue.
    ExecutingAndAwoken,
    /// Waiting in the ready queue.
    Ready(F),
    /// Waiting to be woken.
    Paused(F),
}

/// An asynchronous task.
pub struct Task<F> {
    pub state: TaskState<F>,
}

/// The tasks of the kernel's executor and the queue of those ready to be polled.
pub struct Executor<F> {
    tasks: IdSparseVec<TaskId, Task<F>>,
    ready: VecDeque<TaskId>,
}

impl<F> Executor<F> {
    pub closed spec fn tasks_view(&self) -> Map<nat, Task<F>> {
        self.tasks@
    }

    pub closed spec fn ready_view(&self) -> Seq<TaskId> {
        self.ready@
    }

    /// The identifiers of finished tasks, oldest first: the next tasks get them, in this order.
    pub closed spec fn free_ids_view(&self) -> Seq<TaskId> {
        self.tasks.free_ids()
    }

    /// The number of identifiers ever handed out: a new one is this number once no freed one
    /// is left.
    pub closed spec fn id_count(&self) -> nat {
        self.tasks.slot_count()
    }

    /// The ready queue holds exactly the ready tasks, each once.
    pub closed spec fn wf(&self) -> bool {
        &&& self.tasks.wf()
        &&& forall|k: int| 0 <= k < self.ready@.len() ==> {
            let id = #[trigger] self.ready@[k];
            self.tasks@.contains_key(id.id_index()) && self.tasks@[id.id_index()].state is Ready
        }
        &&& forall|j: int, k: int| 0 <= j < k < self.ready@.len() ==> (#[trigger] self.ready@[j]).0 != (#[trigger] self.ready@[k]).0
        &&& forall|i: nat| #[trigger] self.tasks@.contains_key(i) && self.tasks@[i].state is Ready ==> exists|k: int|
            0 <= k < self.ready@.len() && (#[trigger] self.ready@[k]).id_index() == i
    }

    /// An executor without tasks.
    pub fn new() -> (e: Executor<F>)
        ensures
            e.wf(),
            e.tasks_view() == Map::<nat, Task<F>>::empty(),
            e.ready_view().len() == 0,
    {
        Executor { tasks: IdSparseVec::new(), ready: VecDeque::new() }
    }

    /// Adds a task that runs `f`, ready to be polled at the back of the queue, and wakes one
    /// thread of `wait`, the queue on which the executor's threads wait for work.
    pub fn spawn(&mut self, f: F, wait: &mut WaitQueue, scheduler: &mut Scheduler) -> (id: TaskId)
        requires
            old(self).wf(),
            old(scheduler).wf(),
            old(wait).waiting_in(old(scheduler)),
        ensures
            final(self).wf(),
            woke_one(*old(wait), *old(scheduler), *final(wait), *final(scheduler)),
            !old(self).tasks_view().contains_key(id.id_index()),
            final(self).tasks_view() == old(self).tasks_view().insert(id.id_index(), Task { state: TaskState::Ready(f) }),
            final(self).ready_view() == old(self).ready_view().push(id),
            old(self).free_ids_view().len() > 0 ==> id == old(self).free_ids_view()[0]
                && final(self).free_ids_view() == old(self).free_ids_view().drop_first()
                && final(self).id_count() == old(self).id_count(),
            old(self).free_ids_view().len() == 0 ==> id.id_index() == old(self).id_count()
                && final(self).free_ids_view() == old(self).free_ids_view()
                && final(self).id_count() == old(self).id_count() + 1,
    {
        let ghost f0 = f;
        let id = self.tasks.insert(Task { state: TaskState::Ready(f) });
        self.ready.push_back(id);
        proof {
            assert forall|k: int| 0 <= k < old(self).ready@.len() implies (#[trigger] old(self).ready@[k]).0 != id.0 by {
                assert(old(self).tasks@.contains_key(old(self).ready@[k].id_index()));
            }
            let r = self.ready@;
            assert forall|k: int| 0 <= k < r.len() implies {
                let q = #[trigger] r[k];
                self.tasks@.contains_key(q.id_index()) && self.tasks@[q.id_index()].state is Ready
            } by {
                if k < old(self).ready@.len() {
                    assert(r[k] == old(self).ready@[k]);
                }
            }
            assert forall|i: nat| #[trigger] self.tasks@.contains_key(i) && self.tasks@[i].state is Ready implies exists|k: int|
                0 <= k < r.len() && (#[trigger] r[k]).id_index() == i by {
                if i == id.id_index() {
                    assert(r[r.len() - 1] == id);
                } else {
                    let k = choose|k: int| 0 <= k < old(self).ready@.len() && (#[trigger] old(self).ready@[k]).id_index() == i;
                    assert(r[k] == old(self).ready@[k]);
                }
            }
        }
        wait.wake_one(scheduler);
        id
    }

    /// Wakes task `id`: a paused task becomes ready at the back of the queue (the result says
    /// so) and one thread of `wait` is woken to poll it; a task being polled is marked to be
    /// polled again; anything else is left alone.
    pub fn wake(&mut self, id: TaskId, wait: &mut WaitQueue, scheduler: &mut Scheduler) -> (queued: bool)
        requires
            old(self).wf(),
            old(scheduler).wf(),
            old(wait).waiting_in(old(scheduler)),
        ensures
            final(self).wf(),
            queued ==> woke_one(*old(wait), *old(scheduler), *final(wait), *final(scheduler)),
            !queued ==> *final(wait) == *old(wait) && *final(scheduler) == *old(scheduler),
            final(self).free_ids_view() == old(self).free_ids_view(),
            final(self).id_count() == old(self).id_count(),
            ({
                let k = id.id_index();
                let tasks = old(self).tasks_view();
                if !tasks.contains_key(k) {
                    !queued && final(self).tasks_view() == tasks && final(self).ready_view() == old(self).ready_view()
                } else {
                    match tasks[k].state {
                        TaskState::Paused(f) => queued && final(self).tasks_view() == tasks.insert(k, Task { state: TaskState::Ready(f) })
                            && final(self).ready_view() == old(self).ready_view().push(id),
                        TaskState::Executing => !queued && final(self).tasks_view() == tasks.insert(k, Task { state: TaskState::ExecutingAndAwoken })
                            && final(self).ready_view() == old(self).ready_view(),
                        _ => !queued && final(self).tasks_view() == tasks && final(self).ready_view() == old(self).ready_view(),
                    }
                }
            }),
    {
        let ghost t0 = self.tasks@;
        let task = match self.tasks.get_mut(id) {
            Some(task) => task,
            None => {
                return false;
            },
        };
        let mut state = TaskState::ExecutingAndAwoken;
        std::mem::swap(&mut task.state, &mut state);
        match state {
            TaskState::Executing | TaskState::ExecutingAndAwoken => {
                proof {
                    assert forall|k: int| 0 <= k < self.ready@.len() implies (#[trigger] self.ready@[k]).0 != id.0 by {
                        assert(t0[self.ready@[k].id_index()].state is Ready);
                    }
                    assert(self.tasks@ =~= t0.insert(id.id_index(), Task { state: TaskState::ExecutingAndAwoken }));
                    if t0[id.id_index()].state is ExecutingAndAwoken {
                        assert(self.tasks@ =~= t0);
                    }
                }
                false
            },
            TaskState::Paused(future) => {
                task.state = TaskState::Ready(future);
                self.ready.push_back(id);
                proof {
                    assert forall|k: int| 0 <= k < old(self).ready@.len() implies (#[trigger] old(self).ready@[k]).0 != id.0 by {
                        assert(t0[old(self).ready@[k].id_index()].state is Ready);
                    }
                    let r = self.ready@;
                    assert forall|k: int| 0 <= k < r.len() implies {
                        let q = #[trigger] r[k];
                        self.tasks@.contains_key(q.id_index()) && self.tasks@[q.id_index()].state is Ready
                    } by {
                        if k < old(self).ready@.len() {
                            assert(r[k] == old(self).ready@[k]);
                        }
                    }
                    assert forall|i: nat| #[trigger] self.tasks@.contains_key(i) && self.tasks@[i].state is Ready implies exists|k: int|
                        0 <= k < r.len() && (#[trigger] r[k]).id_index() == i by {
                        if i == id.id_index() {
                            assert(r[r.len() - 1] == id);
                        } else {
                            let k = choose|k: int| 0 <= k < old(self).ready@.len() && (#[trigger] old(self).ready@[k]).id_index() == i;
                            assert(r[k] == old(self).ready@[k]);
                        }
                    }
                }
                wait.wake_one(scheduler);
                true
            },
            TaskState::Ready(future) => {
                task.state = TaskState::Ready(future);
                proof {
                    assert(self.tasks@ =~= t0);
                }
                false
            },
        }
    }

    /// Takes the task at the front of the ready queue for polling: it is marked as being
    /// polled and its computation is handed out.
    pub fn take_ready(&mut self) -> (r: Option<(TaskId, F)>)
        requires
            old(self).wf(),
        ensures
            final(self).wf(),
            final(self).free_ids_view() == old(self).free_ids_view(),
            final(self).id_count() == old(self).id_count(),
            match r {
                Some((id, f)) => {
                    &&& old(self).ready_view().len() > 0
                    &&& id == old(self).ready_view()[0]
                    &&& old(self).tasks_view()[id.id_index()].state == TaskState::Ready(f)
                    &&& final(self).tasks_view() == old(self).tasks_view().insert(id.id_index(), Task { state: TaskState::Executing })
                    &&& final(self).ready_view() == old(self).ready_view().drop_first()
                },
                None => old(self).ready_view().len() == 0 && final(self).tasks_view() == old(self).tasks_view()
                    && final(self).ready_view() == old(self).ready_view(),
            },
    {
        let ghost t0 = self.tasks@;
        let ghost r0 = self.ready@;
        let id = match self.ready.pop_front() {
            Some(id) => id,
            None => {
                return None;
            },
        };
        proof {
            assert(id == r0[0]);
            assert(self.ready@ =~= r0.drop_first());
            assert(t0.contains_key(id.id_index()) && t0[id.id_index()].state is Ready);
        }
        let task = self.tasks.get_mut(id).unwrap();
        let mut state = TaskState::Executing;
        std::mem::swap(&mut task.state, &mut state);
        match state {
            TaskState::Ready(future) => {
                proof {
                    let r = self.ready@;
                    assert forall|k: int| 0 <= k < r.len() implies {
                        let q = #[trigger] r[k];
                        self.tasks@.contains_key(q.id_index()) && self.tasks@[q.id_index()].state is Ready
                    } by {
                        assert(r[k] == r0[k + 1]);
                        assert(r0[0].0 != r0[k + 1].0);
                    }
                    assert forall|j: int, k: int| 0 <= j < k < r.len() implies (#[trigger] r[j]).0 != (#[trigger] r[k]).0 by {
                        assert(r[j] == r0[j + 1] && r[k] == r0[k + 1]);
                    }
                    assert forall|i: nat| #[trigger] self.tasks@.contains_key(i) && self.tasks@[i].state is Ready implies exists|k: int|
                        0 <= k < r.len() && (#[trigger] r[k]).id_index() == i by {
                        let k = choose|k: int| 0 <= k < r0.len() && (#[trigger] r0[k]).id_index() == i;
                        assert(k != 0);
                        assert(r[k - 1] == r0[k]);
                    }
                }
                Some((id, future))
            },
            _ => {
                proof {
                    assert(false);
                }
                None
            },
        }
    }

    /// Records the outcome of polling task `id`: a finished task is forgotten; otherwise it
    /// keeps `future` and is paused, or goes back to the ready queue if it was woken meanwhile.
    pub fn finish(&mut self, id: TaskId, done: bool, future: F)
        requires
            old(self).wf(),
            old(self).tasks_view().contains_key(id.id_index()),
            old(self).tasks_view()[id.id_index()].state is Executing
                || old(self).tasks_view()[id.id_index()].state is ExecutingAndAwoken,
        ensures
            final(self).wf(),
            final(self).free_ids_view() == if done {
                old(self).free_ids_view().push(id)
            } else {
                old(self).free_ids_view()
            },
            final(self).id_count() == old(self).id_count(),
            ({
                let k = id.id_index();
                let tasks = old(self).tasks_view();
                if done {
                    final(self).tasks_view() == tasks.remove(k) && final(self).ready_view() == old(self).ready_view()
                } else if tasks[k].state is Executing {
                    final(self).tasks_view() == tasks.insert(k, Task { state: TaskState::Paused(future) })
                        && final(self).ready_view() == old(self).ready_view()
                } else {
                    final(self).tasks_view() == tasks.insert(k, Task { state: TaskState::Ready(future) })
                        && final(self).ready_view() == old(self).ready_view().push(id)
                }
            }),
    {
        let ghost t0 = self.tasks@;
        let ghost r0 = self.ready@;
        proof {
            assert forall|k: int| 0 <= k < r0.len() implies (#[trigger] r0[k]).0 != id.0 by {
                assert(t0[r0[k].id_index()].state is Ready);
            }
        }
        if done {
            let _ = self.tasks.remove(id);
            proof {
                assert forall|k: int| 0 <= k < r0.len() implies {
                    let q = #[trigger] r0[k];
                    self.tasks@.contains_key(q.id_index()) && self.tasks@[q.id_index()].state is Ready
                } by {
                    assert(t0[r0[k].id_index()].state is Ready);
                }
            }
            return;
        }
        let task = self.tasks.get_mut(id).unwrap();
        let again = match task.state {
            TaskState::Executing => false,
            _ => true,
        };
        if again {
            task.state = TaskState::Ready(future);
            self.ready.push_back(id);
            proof {
                let r = self.ready@;
                assert forall|k: int| 0 <= k < r.len() implies {
                    let q = #[trigger] r[k];
                    self.tasks@.contains_key(q.id_index()) && self.tasks@[q.id_index()].state is Ready
                } by {
                    if k < r0.len() {
                        assert(r[k] == r0[k]);
                    }
                }
                assert forall|i: nat| #[trigger] self.tasks@.contains_key(i) && self.tasks@[i].state is Ready implies exists|k: int|
                    0 <= k < r.len() && (#[trigger] r[k]).id_index() == i by {
                    if i == id.id_index() {
                        assert(r[r.len() - 1] == id);
                    } else {
                        let k = choose|k: int| 0 <= k < r0.len() && (#[trigger] r0[k]).id_index() == i;
                        assert(r[k] == r0[k]);
                    }
                }
            }
        } else {
            task.state = TaskState::Paused(future);
        }
    }
}


/// Spawns `body` as a new task of the kernel's executor `executor`, ready at the back of its
/// queue, and wakes one thread waiting on `wait` for work.
pub fn task_spawn<F>(executor: &mut Executor<F>, body: F, wait: &mut WaitQueue, scheduler: &mut Scheduler)
    requires
        old(executor).wf(),
        old(scheduler).wf(),
        old(wait).waiting_in(old(scheduler)),
    ensures
        final(executor).wf(),
        woke_one(*old(wait), *old(scheduler), *final(wait), *final(scheduler)),
        exists|id: TaskId|
            !old(executor).tasks_view().contains_key(id.id_index()) && final(executor).tasks_view() == old(
                executor,
            ).tasks_view().insert(id.id_index(), Task { state: TaskState::Ready(body) }) && final(executor).ready_view()
                == old(executor).ready_view().push(id),
{
    executor.spawn(body, wait, scheduler);
}
/// A task's yield: it gives way once, then goes on.
#[derive(Clone, Copy, Debug, PartialEq, Eq, Structural)]
pub enum YieldFuture {
    NotYielded,
    Yielded,
}

impl YieldFuture {
    /// One poll of a yield: the first is pending, and its caller wakes the task so that it
    /// is queued behind the other ready tasks; any later one is ready.
    pub fn poll(&mut self) -> (ready: bool)
        ensures
            *final(self) == YieldFuture::Yielded,
            ready == (*old(self) == YieldFuture::Yielded),
    {
        let ready = *self == YieldFuture::Yielded;
        *self = YieldFuture::Yielded;
        ready
    }
}

/// A task's sleep: not begun, for a delay in nanoseconds, or waiting for a tick.
#[derive(Clone, Copy, Debug, PartialEq, Eq, Structural)]
pub enum SleepFuture {
    NotYet(u64),
    Yet(u64),
}

impl SleepFuture {
    /// One poll of a sleep, at tick `now`: the first has `waker` fall due once the delay has
    /// passed, records the tick that is, and is pending; any later one is ready once that tick
    /// is reached.
    pub fn poll<T>(&mut self, now: u64, timers: &mut TimerQueue<T>, waker: T) -> (ready: bool)
        requires
            *old(self) matches SleepFuture::NotYet(d) ==> now + delay_ticks(d) <= u64::MAX,
        ensures
            match *old(self) {
                SleepFuture::NotYet(d) => {
                    &&& !ready
                    &&& *final(self) == SleepFuture::Yet((now + delay_ticks(d)) as u64)
                    &&& exists|k: int| {
                        &&& 0 <= k <= old(timers).events().len()
                        &&& forall|j: int| 0 <= j < k ==> (#[trigger] old(timers).events()[j]).0 <= delay_ticks(d)
                        &&& k < old(timers).events().len() ==> old(timers).events()[k].0 > delay_ticks(d)
                        &&& final(timers).events() == old(timers).events().insert(k, (delay_ticks(d), waker))
                    }
                },
                SleepFuture::Yet(target) => {
                    &&& ready == (now >= target)
                    &&& *final(self) == *old(self)
                    &&& final(timers).events() == old(timers).events()
                },
            },
    {
        match *self {
            SleepFuture::NotYet(delay_ns) => {
                let target = run_later(timers, now, delay_ns, waker);
                *self = SleepFuture::Yet(target);
                false
            },
            SleepFuture::Yet(target) => now >= target,
        }
    }
}
} // verus!
