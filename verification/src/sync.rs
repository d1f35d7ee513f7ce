use vstd::prelude::*;

verus! {

/// A reason for interrupts to stay disabled: while one is alive they are off.
pub struct InterruptGuard(());

/// The interrupt bookkeeping of a processor: how many reasons there are for interrupts to be
/// disabled, and whether an interrupt handler asked for a reschedule on its way out.
pub struct IrqState {
    lock_count: usize,
    need_resched: bool,
}

impl IrqState {
    /// How many interrupt guards are alive.
    pub closed spec fn lock_count(&self) -> nat {
        self.lock_count as nat
    }

    /// Whether a reschedule is pending.
    pub closed spec fn resched_pending(&self) -> bool {
        self.need_resched
    }

    /// No guard alive and no reschedule pending.
    pub fn new() -> (s: Self)
        ensures
            s.lock_count() == 0,
            !s.resched_pending(),
    {
        IrqState { lock_count: 0, need_resched: false }
    }

    /// Disables interrupts, or keeps them disabled, until the returned guard is released.
    pub fn interrupt_guard(&mut self) -> (g: InterruptGuard)
        requires
            old(self).lock_count() < usize::MAX,
        ensures
            final(self).lock_count() == old(self).lock_count() + 1,
            final(self).resched_pending() == old(self).resched_pending(),
    {
        self.lock_count = self.lock_count + 1;
        InterruptGuard(())
    }

    /// Whether releasing `guard` would enable interrupts again: whether it is the only guard
    /// alive.
    pub fn drop_would_reenable(&self, guard: &InterruptGuard) -> (r: bool)
        ensures
            r == (self.lock_count() == 1),
    {
        self.lock_count == 1
    }

    /// Releases `guard` and tells whether interrupts are to be enabled again: exactly when it
    /// was the only guard alive.
    pub fn release(&mut self, guard: InterruptGuard) -> (reenable: bool)
        requires
            old(self).lock_count() >= 1,
        ensures
            final(self).lock_count() == old(self).lock_count() - 1,
            reenable == (old(self).lock_count() == 1),
            final(self).resched_pending() == old(self).resched_pending(),
    {
        let reenable = self.lock_count == 1;
        self.lock_count = self.lock_count - 1;
        reenable
    }

    /// Releases `guard` without enabling interrupts, for a return from an interrupt that
    /// restores the interrupt flag itself.
    pub fn drop_without_disabling(&mut self, guard: InterruptGuard)
        requires
            old(self).lock_count() >= 1,
        ensures
            final(self).lock_count() == old(self).lock_count() - 1,
            final(self).resched_pending() == old(self).resched_pending(),
    {
        self.lock_count = self.lock_count - 1;
    }

    /// Asks for a reschedule when the interrupt handler returns.
    pub fn need_resched(&mut self)
        ensures
            final(self).lock_count() == old(self).lock_count(),
            final(self).resched_pending(),
    {
        self.need_resched = true;
    }

    /// On the way out of an interrupt handler that holds `guard`: whether to reschedule now.
    /// A pending reschedule is acted upon, and cleared, only when `guard` is the only guard
    /// alive; otherwise it stays pending.
    pub fn take_resched(&mut self, guard: &InterruptGuard) -> (r: bool)
        ensures
            final(self).lock_count() == old(self).lock_count(),
            r == (old(self).lock_count() == 1 && old(self).resched_pending()),
            final(self).resched_pending() == (old(self).resched_pending() && old(self).lock_count() != 1),
    {
        if self.drop_would_reenable(guard) {
            let r = self.need_resched;
            self.need_resched = false;
            r
        } else {
            false
        }
    }
}

/// A value that is set once while booting and only read afterwards.
pub struct BootInit<T> {
    inner: Option<T>,
}

impl<T> BootInit<T> {
    /// The value, once set.
    pub closed spec fn value(&self) -> Option<T> {
        self.inner
    }

    /// A cell whose value is not set yet.
    pub fn uninit() -> (c: Self)
        ensures
            c.value() is None,
    {
        BootInit { inner: None }
    }

    /// Sets the value.
    pub fn set(&mut self, value: T)
        ensures
            final(self).value() == Some(value),
    {
        self.inner = Some(value);
    }

    /// The value, which must be set.
    pub fn get(&self) -> (r: &T)
        requires
            self.value() is Some,
        ensures
            *r == self.value()->0,
    {
        self.inner.as_ref().unwrap()
    }
}

/// Taking a guard and releasing it leaves as many guards alive as before, and enables
/// interrupts again exactly when no other guard was alive.
pub proof fn lemma_guard_release(before: IrqState, taken: IrqState, released: IrqState, reenable: bool)
    requires
        taken.lock_count() == before.lock_count() + 1,
        released.lock_count() == taken.lock_count() - 1,
        reenable == (taken.lock_count() == 1),
    ensures
        released.lock_count() == before.lock_count(),
        reenable == (before.lock_count() == 0),
{
}

} // verus!
