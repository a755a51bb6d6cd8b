//! The descriptor-table layout: segment selectors and the two interrupt
//! stacks the task state segment publishes.
//!
//! The kernel appends kernel code, kernel data, user data, user code and
//! the TSS descriptor in that order; a selector is its table index shifted
//! left by three, with the requested privilege level in the low two bits
//! (ring 3 for the user segments). Loading the tables into the CPU is the
//! harness's business.
use vstd::prelude::*;

verus! {

/// Interrupt-stack-table slot shared by all fault handlers.
pub const DOUBLE_FAULT_IST_INDEX: u16 = 0;

/// Interrupt-stack-table slot reserved for the timer.
pub const INTERRUPT_STACK_INDEX: u16 = 1;

/// Bytes in each interrupt stack arena.
pub const IST_STACK_SIZE: u64 = 20480;

/// The selectors of the five descriptors the kernel installs.
#[derive(Clone, Copy, Debug, PartialEq, Eq, Structural)]
pub struct Selectors {
    pub code_selector: u16,
    pub data_selector: u16,
    pub user_code_selector: u16,
    pub user_data_selector: u16,
    pub tss_selector: u16,
}

/// The selector values the kernel's table layout produces.
pub open spec fn init_spec() -> Selectors {
    Selectors {
        code_selector: 0x08,
        data_selector: 0x10,
        user_data_selector: 0x1b,
        user_code_selector: 0x23,
        tss_selector: 0x28,
    }
}

/// Builds the descriptor table and returns its selectors: kernel code and
/// data at ring 0, user data and code at ring 3, then the TSS.
pub fn init() -> (r: Selectors)
    ensures
        r == init_spec(),
        r.code_selector == 0x08,
        r.data_selector == 0x10,
        r.user_data_selector == 0x1b,
        r.user_code_selector == 0x23,
        r.tss_selector == 0x28,
        r.user_code_selector == r.user_data_selector + 8,
        r.data_selector == r.code_selector + 8,
{
    Selectors {
        code_selector: 1u16 * 8,
        data_selector: 2u16 * 8,
        user_data_selector: 3u16 * 8 + 3,
        user_code_selector: 4u16 * 8 + 3,
        tss_selector: 5u16 * 8,
    }
}

/// The interrupt stacks grow down from the top of their arenas: given the
/// two arena bases, returns the stack tops published in the TSS, fault
/// stack first.
pub fn tss_stack_tops(fault_stack_base: u64, timer_stack_base: u64) -> (r: (u64, u64))
    requires
        fault_stack_base + IST_STACK_SIZE <= u64::MAX,
        timer_stack_base + IST_STACK_SIZE <= u64::MAX,
    ensures
        r.0 == fault_stack_base + IST_STACK_SIZE,
        r.1 == timer_stack_base + IST_STACK_SIZE,
{
    (fault_stack_base + IST_STACK_SIZE, timer_stack_base + IST_STACK_SIZE)
}

} // verus!
