use lilith::id_vec::ThreadId;
use lilith::interrupts::{
    handler_for, idt_entry, syscall_handler, IdtEntry, Interrupt, IrqContext, IrqHandler, ReservedVector, SyscallAction, TrapFrame,
    DOUBLE_FAULT_IST_INDEX, SYSCALL_SLEEP_NS,
};
use lilith::sync::IrqState;

#[test]
fn vector_numbers_of_exceptions() {
    assert_eq!(Interrupt::DivideError.as_u8(), 0);
    assert_eq!(Interrupt::PageFault.as_u8(), 14);
    assert_eq!(Interrupt::X87FloatingPoint.as_u8(), 16);
    assert_eq!(Interrupt::HvInjectionException.as_u8(), 28);
    assert_eq!(Interrupt::SecurityException.as_u8(), 30);
    assert_eq!(Interrupt::Irq(0).as_u8(), 32);
    assert_eq!(Interrupt::Irq(223).as_u8(), 255);
}

#[test]
fn try_from_decodes_vectors() {
    assert_eq!(Interrupt::try_from(14), Ok(Interrupt::PageFault));
    assert_eq!(Interrupt::try_from(8), Ok(Interrupt::DoubleFault));
    assert_eq!(Interrupt::try_from(32), Ok(Interrupt::Irq(0)));
    assert_eq!(Interrupt::try_from(255), Ok(Interrupt::Irq(223)));
}

#[test]
fn try_from_refuses_reserved_vectors() {
    for v in [15u8, 22, 23, 24, 25, 26, 27, 31] {
        assert_eq!(Interrupt::try_from(v), Err(ReservedVector(v)));
    }
}

#[test]
fn vectors_round_trip() {
    for v in 0..=255u8 {
        match Interrupt::try_from(v) {
            Ok(i) => assert_eq!(i.as_u8(), v),
            Err(ReservedVector(r)) => assert_eq!(r, v),
        }
    }
}

#[test]
fn error_code_vectors() {
    assert!(Interrupt::DoubleFault.has_error_code());
    assert!(Interrupt::PageFault.has_error_code());
    assert!(Interrupt::GeneralProtectionFault.has_error_code());
    assert!(Interrupt::SecurityException.has_error_code());
    assert!(!Interrupt::DivideError.has_error_code());
    assert!(!Interrupt::Breakpoint.has_error_code());
    assert!(!Interrupt::Irq(0).has_error_code());
}

#[test]
fn trap_frame_defaults_to_zero() {
    let t = TrapFrame::default();
    assert_eq!(t.rax, 0);
    assert_eq!(t.int_num, 0);
    assert_eq!(t.ss, 0);
}

#[test]
fn handlers_for_page_faults_and_the_timer() {
    assert_eq!(handler_for(14), Ok(IrqHandler::PageFault));
    assert_eq!(handler_for(32), Ok(IrqHandler::Timer));
    assert_eq!(handler_for(33), Err(Interrupt::Irq(1)));
    assert_eq!(handler_for(13), Err(Interrupt::GeneralProtectionFault));
    // vector numbers are taken modulo 256, as the entry code pushes them
    assert_eq!(handler_for(256 + 14), Ok(IrqHandler::PageFault));
}

#[test]
fn irq_context_keeps_the_trap_frame() {
    let mut irq = IrqState::new();
    let guard = irq.interrupt_guard();
    let mut frame = TrapFrame::default();
    frame.int_num = 14;
    frame.error_code = 2;
    frame.rip = 0x1234;
    let ctx = IrqContext::new(frame, guard);
    assert_eq!(ctx.trap_frame().error_code, 2);
    assert_eq!(ctx.trap_frame().rip, 0x1234);
    ctx.need_resched(&mut irq);
    let guard = ctx.into_interrupt_guard();
    assert!(irq.take_resched(&guard));
    assert!(irq.release(guard));
}

#[test]
fn descriptor_table_entries() {
    assert_eq!(idt_entry(0), Some(IdtEntry { vector: 0, pushes_zero_error_code: true, stack_index: None }));
    assert_eq!(
        idt_entry(8),
        Some(IdtEntry { vector: 8, pushes_zero_error_code: false, stack_index: Some(DOUBLE_FAULT_IST_INDEX) })
    );
    assert_eq!(idt_entry(9), None);
    assert_eq!(idt_entry(14), Some(IdtEntry { vector: 14, pushes_zero_error_code: false, stack_index: None }));
    assert_eq!(idt_entry(15), None);
    for v in 22..28 {
        assert_eq!(idt_entry(v), None);
    }
    assert_eq!(idt_entry(31), None);
    assert_eq!(idt_entry(32), Some(IdtEntry { vector: 32, pushes_zero_error_code: true, stack_index: None }));
    assert_eq!(idt_entry(255), Some(IdtEntry { vector: 255, pushes_zero_error_code: true, stack_index: None }));
    let with_code: Vec<u8> = (0..=255u8).filter(|&v| idt_entry(v).map_or(false, |e| !e.pushes_zero_error_code)).collect();
    assert_eq!(with_code, vec![8, 10, 11, 12, 13, 14, 17, 21, 29, 30]);
}

#[test]
fn system_calls_print_sleep_and_answer_the_thread() {
    let mut trap = TrapFrame::default();
    trap.rdi = 0;
    trap.rsi = 0x141;
    assert_eq!(syscall_handler(&mut trap, ThreadId(3)), SyscallAction::Print(b'A'));
    assert_eq!(trap.rax, 0);
    trap.rdi = 1;
    assert_eq!(syscall_handler(&mut trap, ThreadId(3)), SyscallAction::Sleep(SYSCALL_SLEEP_NS));
    assert_eq!(SYSCALL_SLEEP_NS, 100_000_000);
    trap.rdi = 2;
    assert_eq!(syscall_handler(&mut trap, ThreadId(3)), SyscallAction::Done);
    assert_eq!(trap.rax, 3);
    trap.rdi = 9;
    trap.rax = 7;
    assert_eq!(syscall_handler(&mut trap, ThreadId(3)), SyscallAction::Done);
    assert_eq!(trap.rax, 7);
}
