//! The interrupt-descriptor-table layout the kernel installs, as data.
//!
//! Every synchronous fault lands on the shared fault stack; the timer
//! trampoline gets a stack of its own, so a fault during preemption can
//! never clobber the frame being saved. The two legacy controller vectors
//! get inert handlers.
use vstd::prelude::*;

use crate::gdt::{DOUBLE_FAULT_IST_INDEX, INTERRUPT_STACK_INDEX};

verus! {

pub const PIC_1_OFFSET: u8 = 32;

pub const PIC_2_OFFSET: u8 = 40;

/// The interrupt vectors with handlers of their own beyond the faults.
#[derive(Debug, Clone, Copy, PartialEq, Eq, Structural)]
pub enum InterruptIndex {
    Timer,
}

impl InterruptIndex {
    pub fn as_u8(self) -> (r: u8)
        ensures
            r == PIC_1_OFFSET,
    {
        match self {
            InterruptIndex::Timer => PIC_1_OFFSET,
        }
    }
}

/// What a handler does when its vector fires.
#[derive(Debug, Clone, Copy, PartialEq, Eq, Structural)]
pub enum Handler {
    /// Panics with the captured stack frame.
    PanicWithFrame,
    /// Prints a diagnostic and halts the CPU.
    PrintAndHalt,
    /// Saves the interrupted context and switches processes.
    TimerTrampoline,
    /// Prints a marker and returns.
    Inert,
}

/// One installed descriptor: its vector, the interrupt stack it runs on,
/// and what it does.
#[derive(Debug, Clone, Copy, PartialEq, Eq, Structural)]
pub struct IdtEntry {
    pub vector: u8,
    pub ist_index: u16,
    pub handler: Handler,
}

/// Every entry runs on the fault stack, except the timer, which runs on
/// its own.
pub open spec fn idt_stacks_separated(entries: Seq<IdtEntry>) -> bool {
    forall|i: int|
        0 <= i < entries.len() ==> (#[trigger] entries[i]).ist_index == (if entries[i].vector
            == PIC_1_OFFSET {
            INTERRUPT_STACK_INDEX
        } else {
            DOUBLE_FAULT_IST_INDEX
        })
}

/// The table the kernel installs, entry for entry.
pub open spec fn idt_spec() -> Seq<IdtEntry> {
    seq![
        IdtEntry { vector: 0, ist_index: 0, handler: Handler::PanicWithFrame },
        IdtEntry { vector: 1, ist_index: 0, handler: Handler::PanicWithFrame },
        IdtEntry { vector: 2, ist_index: 0, handler: Handler::PanicWithFrame },
        IdtEntry { vector: 3, ist_index: 0, handler: Handler::PanicWithFrame },
        IdtEntry { vector: 4, ist_index: 0, handler: Handler::PanicWithFrame },
        IdtEntry { vector: 5, ist_index: 0, handler: Handler::PanicWithFrame },
        IdtEntry { vector: 6, ist_index: 0, handler: Handler::PrintAndHalt },
        IdtEntry { vector: 7, ist_index: 0, handler: Handler::PanicWithFrame },
        IdtEntry { vector: 8, ist_index: 0, handler: Handler::PanicWithFrame },
        IdtEntry { vector: 10, ist_index: 0, handler: Handler::PanicWithFrame },
        IdtEntry { vector: 11, ist_index: 0, handler: Handler::PanicWithFrame },
        IdtEntry { vector: 12, ist_index: 0, handler: Handler::PanicWithFrame },
        IdtEntry { vector: 13, ist_index: 0, handler: Handler::PanicWithFrame },
        IdtEntry { vector: 14, ist_index: 0, handler: Handler::PrintAndHalt },
        IdtEntry { vector: 32, ist_index: 1, handler: Handler::TimerTrampoline },
        IdtEntry { vector: 40, ist_index: 0, handler: Handler::Inert },
        IdtEntry { vector: 48, ist_index: 0, handler: Handler::Inert },
    ]
}

/// Builds the descriptor table: panicking handlers for the kernel-fatal
/// faults, print-and-halt for the user-mode faults, the timer trampoline
/// on vector 32 with its own stack, and inert handlers on the legacy
/// error and spurious vectors.
pub fn init_idt() -> (r: Vec<IdtEntry>)
    ensures
        r@ == idt_spec(),
        idt_stacks_separated(r@),
        exists|i: int|
            0 <= i < r@.len() && (#[trigger] r@[i]).vector == PIC_1_OFFSET && r@[i].handler
                == Handler::TimerTrampoline,
{
    let mut entries: Vec<IdtEntry> = Vec::new();
    // divide error, debug, non-maskable, breakpoint, overflow, bound range
    entries.push(IdtEntry { vector: 0, ist_index: 0, handler: Handler::PanicWithFrame });
    entries.push(IdtEntry { vector: 1, ist_index: 0, handler: Handler::PanicWithFrame });
    entries.push(IdtEntry { vector: 2, ist_index: 0, handler: Handler::PanicWithFrame });
    entries.push(IdtEntry { vector: 3, ist_index: 0, handler: Handler::PanicWithFrame });
    entries.push(IdtEntry { vector: 4, ist_index: 0, handler: Handler::PanicWithFrame });
    entries.push(IdtEntry { vector: 5, ist_index: 0, handler: Handler::PanicWithFrame });
    // invalid opcode prints and halts
    entries.push(IdtEntry { vector: 6, ist_index: 0, handler: Handler::PrintAndHalt });
    // device not available
    entries.push(IdtEntry { vector: 7, ist_index: 0, handler: Handler::PanicWithFrame });
    // double fault, invalid TSS, segment not present, stack segment,
    // general protection
    entries.push(IdtEntry { vector: 8, ist_index: 0, handler: Handler::PanicWithFrame });
    entries.push(IdtEntry { vector: 10, ist_index: 0, handler: Handler::PanicWithFrame });
    entries.push(IdtEntry { vector: 11, ist_index: 0, handler: Handler::PanicWithFrame });
    entries.push(IdtEntry { vector: 12, ist_index: 0, handler: Handler::PanicWithFrame });
    entries.push(IdtEntry { vector: 13, ist_index: 0, handler: Handler::PanicWithFrame });
    // page fault prints and halts
    entries.push(IdtEntry { vector: 14, ist_index: 0, handler: Handler::PrintAndHalt });
    // the timer trampoline on its own stack
    entries.push(IdtEntry { vector: 32, ist_index: 1, handler: Handler::TimerTrampoline });
    // legacy controller error and spurious vectors
    entries.push(IdtEntry { vector: 40, ist_index: 0, handler: Handler::Inert });
    entries.push(IdtEntry { vector: 48, ist_index: 0, handler: Handler::Inert });
    proof {
        assert(entries@ =~= idt_spec());
        assert(entries@[14].vector == PIC_1_OFFSET && entries@[14].handler
            == Handler::TimerTrampoline);
        assert forall|i: int| 0 <= i < entries@.len() implies (#[trigger] entries@[i]).ist_index
            == (if entries@[i].vector == PIC_1_OFFSET {
            INTERRUPT_STACK_INDEX
        } else {
            DOUBLE_FAULT_IST_INDEX
        }) by {
        }
    }
    entries
}

} // verus!
