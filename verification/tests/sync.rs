use lilith::sync::IrqState;

#[test]
fn only_the_outermost_guard_reenables_interrupts() {
    let mut irq = IrqState::new();
    let outer = irq.interrupt_guard();
    assert!(irq.drop_would_reenable(&outer));
    let inner = irq.interrupt_guard();
    assert!(!irq.drop_would_reenable(&inner));
    assert!(!irq.release(inner));
    assert!(irq.drop_would_reenable(&outer));
    assert!(irq.release(outer));
}

#[test]
fn a_pending_reschedule_waits_for_the_last_guard() {
    let mut irq = IrqState::new();
    let outer = irq.interrupt_guard();
    let inner = irq.interrupt_guard();
    irq.need_resched();
    // another guard is alive: the reschedule stays pending
    assert!(!irq.take_resched(&inner));
    assert!(!irq.release(inner));
    assert!(irq.take_resched(&outer));
    // taken once
    assert!(!irq.take_resched(&outer));
    irq.drop_without_disabling(outer);
}

#[test]
fn boot_init_holds_the_value_it_was_set_to() {
    let mut cell: lilith::sync::BootInit<u32> = lilith::sync::BootInit::uninit();
    cell.set(7);
    assert_eq!(*cell.get(), 7);
    cell.set(9);
    assert_eq!(*cell.get(), 9);
}
