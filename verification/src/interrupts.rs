use vstd::prelude::*;

use crate::id_vec::ThreadId;
use crate::sync::{InterruptGuard, IrqState};

verus! {

/// An x86-64 interrupt vector.
#[derive(Debug, Clone, Copy, PartialEq, Eq, Hash, Structural)]
pub enum Interrupt {
    DivideError,
    Debug,
    NonMaskableInterrupt,
    Breakpoint,
    Overflow,
    BoundRangeExceeded,
    InvalidOpcode,
    DeviceNotAvailable,
    DoubleFault,
    CoprocessorSegmentOverrun,
    InvalidTss,
    SegmentNotPresent,
    StackSegmentFault,
    GeneralProtectionFault,
    PageFault,
    X87FloatingPoint,
    AlignmentCheck,
    MachineCheck,
    SimdFloatingPoint,
    Virtualization,
    CpProtectionException,
    HvInjectionException,
    VmmCommunicationException,
    SecurityException,
    /// A user-defined interrupt; 0 is vector 32.
    Irq(u8),
}

/// Whether the processor pushes an error code for interrupt `i`.
pub open spec fn pushes_error_code(i: Interrupt) -> bool {
    i is DoubleFault || i is InvalidTss || i is SegmentNotPresent || i is StackSegmentFault
        || i is GeneralProtectionFault || i is PageFault || i is AlignmentCheck || i is CpProtectionException
        || i is VmmCommunicationException || i is SecurityException
}

/// A vector number the architecture reserves.
#[derive(Debug, Clone, Copy, PartialEq, Eq, Structural)]
pub struct ReservedVector(pub u8);

/// The vectors the architecture reserves: 15, 22 to 27 and 31.
pub open spec fn reserved(v: u8) -> bool {
    v == 15 || (22 <= v && v <= 27) || v == 31
}

/// The vector number of an interrupt.
pub open spec fn vector_of(i: Interrupt) -> int {
    match i {
        Interrupt::DivideError => 0,
        Interrupt::Debug => 1,
        Interrupt::NonMaskableInterrupt => 2,
        Interrupt::Breakpoint => 3,
        Interrupt::Overflow => 4,
        Interrupt::BoundRangeExceeded => 5,
        Interrupt::InvalidOpcode => 6,
        Interrupt::DeviceNotAvailable => 7,
        Interrupt::DoubleFault => 8,
        Interrupt::CoprocessorSegmentOverrun => 9,
        Interrupt::InvalidTss => 10,
        Interrupt::SegmentNotPresent => 11,
        Interrupt::StackSegmentFault => 12,
        Interrupt::GeneralProtectionFault => 13,
        Interrupt::PageFault => 14,
        Interrupt::X87FloatingPoint => 16,
        Interrupt::AlignmentCheck => 17,
        Interrupt::MachineCheck => 18,
        Interrupt::SimdFloatingPoint => 19,
        Interrupt::Virtualization => 20,
        Interrupt::CpProtectionException => 21,
        Interrupt::HvInjectionException => 28,
        Interrupt::VmmCommunicationException => 29,
        Interrupt::SecurityException => 30,
        Interrupt::Irq(n) => n + 32,
    }
}

/// The interrupt of a vector number that is not reserved.
pub open spec fn interrupt_of(v: u8) -> Interrupt {
    if v == 0 {
        Interrupt::DivideError
    } else if v == 1 {
        Interrupt::Debug
    } else if v == 2 {
        Interrupt::NonMaskableInterrupt
    } else if v == 3 {
        Interrupt::Breakpoint
    } else if v == 4 {
        Interrupt::Overflow
    } else if v == 5 {
        Interrupt::BoundRangeExceeded
    } else if v == 6 {
        Interrupt::InvalidOpcode
    } else if v == 7 {
        Interrupt::DeviceNotAvailable
    } else if v == 8 {
        Interrupt::DoubleFault
    } else if v == 9 {
        Interrupt::CoprocessorSegmentOverrun
    } else if v == 10 {
        Interrupt::InvalidTss
    } else if v == 11 {
        Interrupt::SegmentNotPresent
    } else if v == 12 {
        Interrupt::StackSegmentFault
    } else if v == 13 {
        Interrupt::GeneralProtectionFault
    } else if v == 14 {
        Interrupt::PageFault
    } else if v == 16 {
        Interrupt::X87FloatingPoint
    } else if v == 17 {
        Interrupt::AlignmentCheck
    } else if v == 18 {
        Interrupt::MachineCheck
    } else if v == 19 {
        Interrupt::SimdFloatingPoint
    } else if v == 20 {
        Interrupt::Virtualization
    } else if v == 21 {
        Interrupt::CpProtectionException
    } else if v == 28 {
        Interrupt::HvInjectionException
    } else if v == 29 {
        Interrupt::VmmCommunicationException
    } else if v == 30 {
        Interrupt::SecurityException
    } else {
        Interrupt::Irq((v - 32) as u8)
    }
}

/// An interrupt that has a vector number: user-defined ones stop at vector 255.
pub open spec fn has_vector(i: Interrupt) -> bool {
    i matches Interrupt::Irq(n) ==> n <= 223
}

impl Interrupt {
    /// The vector number of the interrupt.
    pub fn as_u8(self) -> (r: u8)
        requires
            has_vector(self),
        ensures
            r == vector_of(self),
    {
        match self {
            Interrupt::DivideError => 0,
            Interrupt::Debug => 1,
            Interrupt::NonMaskableInterrupt => 2,
            Interrupt::Breakpoint => 3,
            Interrupt::Overflow => 4,
            Interrupt::BoundRangeExceeded => 5,
            Interrupt::InvalidOpcode => 6,
            Interrupt::DeviceNotAvailable => 7,
            Interrupt::DoubleFault => 8,
            Interrupt::CoprocessorSegmentOverrun => 9,
            Interrupt::InvalidTss => 10,
            Interrupt::SegmentNotPresent => 11,
            Interrupt::StackSegmentFault => 12,
            Interrupt::GeneralProtectionFault => 13,
            Interrupt::PageFault => 14,
            Interrupt::X87FloatingPoint => 16,
            Interrupt::AlignmentCheck => 17,
            Interrupt::MachineCheck => 18,
            Interrupt::SimdFloatingPoint => 19,
            Interrupt::Virtualization => 20,
            Interrupt::CpProtectionException => 21,
            Interrupt::HvInjectionException => 28,
            Interrupt::VmmCommunicationException => 29,
            Interrupt::SecurityException => 30,
            Interrupt::Irq(n) => n + 32,
        }
    }

    /// The processor pushes an error code for this vector.
    pub fn has_error_code(self) -> (r: bool)
        ensures
            r == pushes_error_code(self),
    {
        match self {
            Interrupt::DoubleFault | Interrupt::InvalidTss | Interrupt::SegmentNotPresent | Interrupt::StackSegmentFault
            | Interrupt::GeneralProtectionFault | Interrupt::PageFault | Interrupt::AlignmentCheck
            | Interrupt::CpProtectionException | Interrupt::VmmCommunicationException | Interrupt::SecurityException => true,
            _ => false,
        }
    }

    /// The interrupt of vector number `vector`, or the error for a reserved one.
    pub fn try_from(vector: u8) -> (r: Result<Interrupt, ReservedVector>)
        ensures
            r == if reserved(vector) {
                Err(ReservedVector(vector))
            } else {
                Ok(interrupt_of(vector))
            },
    {
        match vector {
            0 => Ok(Interrupt::DivideError),
            1 => Ok(Interrupt::Debug),
            2 => Ok(Interrupt::NonMaskableInterrupt),
            3 => Ok(Interrupt::Breakpoint),
            4 => Ok(Interrupt::Overflow),
            5 => Ok(Interrupt::BoundRangeExceeded),
            6 => Ok(Interrupt::InvalidOpcode),
            7 => Ok(Interrupt::DeviceNotAvailable),
            8 => Ok(Interrupt::DoubleFault),
            9 => Ok(Interrupt::CoprocessorSegmentOverrun),
            10 => Ok(Interrupt::InvalidTss),
            11 => Ok(Interrupt::SegmentNotPresent),
            12 => Ok(Interrupt::StackSegmentFault),
            13 => Ok(Interrupt::GeneralProtectionFault),
            14 => Ok(Interrupt::PageFault),
            15 | 22..=27 | 31 => Err(ReservedVector(vector)),
            16 => Ok(Interrupt::X87FloatingPoint),
            17 => Ok(Interrupt::AlignmentCheck),
            18 => Ok(Interrupt::MachineCheck),
            19 => Ok(Interrupt::SimdFloatingPoint),
            20 => Ok(Interrupt::Virtualization),
            21 => Ok(Interrupt::CpProtectionException),
            28 => Ok(Interrupt::HvInjectionException),
            29 => Ok(Interrupt::VmmCommunicationException),
            30 => Ok(Interrupt::SecurityException),
            32..=255 => Ok(Interrupt::Irq(vector - 32)),
        }
    }
}

/// Every vector that is not reserved names an interrupt whose vector number it is.
pub proof fn lemma_vector_round_trip(v: u8)
    requires
        !reserved(v),
    ensures
        has_vector(interrupt_of(v)),
        vector_of(interrupt_of(v)) == v,
{
}

/// Every interrupt is named by its own vector number, which is not reserved.
pub proof fn lemma_interrupt_round_trip(i: Interrupt)
    requires
        has_vector(i),
    ensures
        0 <= vector_of(i) <= 255,
        !reserved(vector_of(i) as u8),
        interrupt_of(vector_of(i) as u8) == i,
{
}

/// The registers an interrupt entry saves, in the order it pushes them.
#[derive(Debug, Default, Clone, Copy)]
pub struct TrapFrame {
    pub rax: u64,
    pub rbx: u64,
    pub rcx: u64,
    pub rdx: u64,
    pub rsi: u64,
    pub rdi: u64,
    pub rbp: u64,
    pub r8: u64,
    pub r9: u64,
    pub r10: u64,
    pub r11: u64,
    pub r12: u64,
    pub r13: u64,
    pub r14: u64,
    pub r15: u64,
    pub int_num: u64,
    pub error_code: u64,
    pub rip: u64,
    pub cs: u64,
    pub rflags: u64,
    pub rsp: u64,
    pub ss: u64,
}


/// How long the sleep system call sleeps, in nanoseconds.
pub const SYSCALL_SLEEP_NS: u64 = 100_000_000;

/// What a system call leaves to be done outside the saved registers.
#[derive(Debug, Clone, Copy, PartialEq, Eq, Structural)]
pub enum SyscallAction {
    /// Print this byte as a character on the console.
    Print(u8),
    /// Put the calling thread to sleep for this many nanoseconds.
    Sleep(u64),
    /// Nothing more: the call was answered in its registers, or is unknown.
    Done,
}

/// Carries out the system call saved in `trap`, made by thread `current`: its number is in
/// `rdi`. Call 0 prints the low byte of `rsi`, call 1 sleeps a tenth of a second, call 2
/// answers the caller's thread identifier in `rax`; any other number does nothing.
pub fn syscall_handler(trap: &mut TrapFrame, current: ThreadId) -> (r: SyscallAction)
    ensures
        old(trap).rdi == 0 ==> r == SyscallAction::Print((old(trap).rsi % 256) as u8) && *final(trap) == *old(trap),
        old(trap).rdi == 1 ==> r == SyscallAction::Sleep(SYSCALL_SLEEP_NS) && *final(trap) == *old(trap),
        old(trap).rdi == 2 ==> r == SyscallAction::Done && *final(trap) == (TrapFrame { rax: current.0 as u64, ..*old(trap) }),
        old(trap).rdi > 2 ==> r == SyscallAction::Done && *final(trap) == *old(trap),
{
    match trap.rdi {
        0 => SyscallAction::Print((trap.rsi % 256) as u8),
        1 => SyscallAction::Sleep(SYSCALL_SLEEP_NS),
        2 => {
            trap.rax = current.0 as u64;
            SyscallAction::Done
        },
        _ => SyscallAction::Done,
    }
}

/// What an interrupt handler gets: the registers the entry saved, and the guard that keeps
/// interrupts disabled while it runs.
pub struct IrqContext {
    trap_frame: TrapFrame,
    interrupt_guard: InterruptGuard,
}

impl IrqContext {
    /// The registers the entry saved.
    pub closed spec fn frame(&self) -> TrapFrame {
        self.trap_frame
    }

    /// The context of a handler for the interrupt whose entry saved `trap_frame`.
    pub fn new(trap_frame: TrapFrame, interrupt_guard: InterruptGuard) -> (r: Self)
        ensures
            r.frame() == trap_frame,
    {
        IrqContext { trap_frame, interrupt_guard }
    }

    /// The registers the entry saved.
    pub fn trap_frame(&self) -> (r: &TrapFrame)
        ensures
            *r == self.frame(),
    {
        &self.trap_frame
    }

    /// Asks for a reschedule when the handler returns.
    pub fn need_resched(&self, irq: &mut IrqState)
        ensures
            final(irq).lock_count() == old(irq).lock_count(),
            final(irq).resched_pending(),
    {
        irq.need_resched();
    }

    /// The guard the handler holds, for the way out.
    pub fn into_interrupt_guard(self) -> InterruptGuard {
        self.interrupt_guard
    }
}

/// The interrupts the kernel handles.
#[derive(Debug, Clone, Copy, PartialEq, Eq, Structural)]
pub enum IrqHandler {
    PageFault,
    Timer,
}

/// The handler for the interrupt with vector `int_num`: page faults and the timer, vector 32,
/// have one; any other interrupt is returned as unhandled.
pub fn handler_for(int_num: u64) -> (r: Result<IrqHandler, Interrupt>)
    requires
        !reserved(int_num as u8),
    ensures
        r == (match interrupt_of(int_num as u8) {
            Interrupt::PageFault => Ok::<IrqHandler, Interrupt>(IrqHandler::PageFault),
            Interrupt::Irq(0) => Ok::<IrqHandler, Interrupt>(IrqHandler::Timer),
            i => Err::<IrqHandler, Interrupt>(i),
        }),
{
    match Interrupt::try_from(int_num as u8) {
        Ok(Interrupt::PageFault) => Ok(IrqHandler::PageFault),
        Ok(Interrupt::Irq(0)) => Ok(IrqHandler::Timer),
        Ok(i) => Err(i),
        Err(_) => {
            proof {
                assert(false);
            }
            Err(Interrupt::DivideError)
        },
    }
}

/// The slot of the interrupt stack table that double faults switch to.
pub const DOUBLE_FAULT_IST_INDEX: u16 = 0;

/// How the descriptor-table entry of one vector is filled: its entry code pushes a zero in
/// place of the error code where the processor pushes none, and it may switch to a stack of
/// the interrupt stack table.
#[derive(Debug, Clone, Copy, PartialEq, Eq, Structural)]
pub struct IdtEntry {
    pub vector: u8,
    pub pushes_zero_error_code: bool,
    pub stack_index: Option<u16>,
}

/// The entry of the interrupt descriptor table for `vector`: none for the reserved vectors and
/// the unused coprocessor segment overrun, vector 9; double faults run on their own stack.
pub fn idt_entry(vector: u8) -> (r: Option<IdtEntry>)
    ensures
        r is None <==> (reserved(vector) || vector == 9),
        match r {
            Some(e) => {
                &&& e.vector == vector
                &&& e.pushes_zero_error_code == !pushes_error_code(interrupt_of(vector))
                &&& e.stack_index == (if vector == 8 { Some(DOUBLE_FAULT_IST_INDEX) } else { None::<u16> })
            },
            None => true,
        },
{
    match Interrupt::try_from(vector) {
        Err(_) => None,
        Ok(i) => {
            if vector == 9 {
                None
            } else {
                let stack_index = if vector == 8 { Some(DOUBLE_FAULT_IST_INDEX) } else { None };
                Some(IdtEntry { vector, pushes_zero_error_code: !i.has_error_code(), stack_index })
            }
        },
    }
}
} // verus!
