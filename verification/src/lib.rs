//! A machine-level model of the core of a small x86_64 kernel.
//!
//! The model simulates the pieces of the machine that the kernel's logic
//! depends on — physical memory seen through the kernel's physical window,
//! the boot memory map, four-level page tables stored inside that memory,
//! the local APIC timer registers, descriptor tables and the fast-syscall
//! machine registers — as plain data, and verifies the kernel's algorithms
//! over that model: the physical page-frame allocator, the page-table
//! walker and mapper, the virtual kernel heap, the executable loader, the
//! preemptive round-robin scheduler and the syscall dispatch path.
//!
//! Hardware register access, the interrupt trampolines written in assembly
//! and the framebuffer rasteriser are the unverifiable rim around this
//! library; a host harness drives the model instead.
use vstd::prelude::*;

pub mod allocator;
pub mod apic;
pub mod elf;
pub mod framebuffer;
pub mod gdt;
pub mod interrupts;
pub mod kernel;
pub mod machine;
pub mod mem;
pub mod paging;
pub mod process;
pub mod scheduling;
pub mod syscall;

verus! {

/// Size in bytes of a physical frame and of a virtual page.
pub const PAGE_SIZE: u64 = 4096;

/// Entries per page table.
pub const TABLE_ENTRIES: u64 = 512;

/// The kernel-start boundary: mappings at or above this virtual address are
/// shared between all address spaces.
pub const KERNEL_START: u64 = 0xFFFF_8000_0000_0000;

/// Largest physical-memory size the model accepts; keeps every physical
/// address inside the 52 address bits a page-table entry can carry.
pub const MAX_PHYS_SIZE: u64 = 0x10_0000_0000_0000;

} // verus!
