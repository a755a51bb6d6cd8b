//! Register-level model of the local APIC timer.
//!
//! The hardware block is a memory-mapped register file; the model keeps
//! the registers the driver touches as plain words, written and read
//! through the same offsets the driver uses. Issuing the write to the
//! real device is the harness's business.
use vstd::prelude::*;

verus! {

pub const LVT_TIMER: usize = 0x320;
pub const TICR: usize = 0x380;
pub const SIVR: usize = 0x0F0;
pub const EOI: usize = 0x0B0;

/// The timer vector the kernel programs.
pub const TIMER_VECTOR: u32 = 32;

/// Local APIC timer modes.
#[derive(Debug, Copy, Clone, PartialEq, Eq, Structural)]
pub enum TimerMode {
    /// Timer only fires once.
    OneShot,
    /// Timer fires periodically.
    Periodic,
    /// Timer fires at an absolute time.
    TscDeadline,
}

impl TimerMode {
    /// The two-bit encoding of the mode in the timer register.
    pub fn as_u32(self) -> (r: u32)
        ensures
            r == (match self {
                TimerMode::OneShot => 0u32,
                TimerMode::Periodic => 1u32,
                TimerMode::TscDeadline => 2u32,
            }),
    {
        match self {
            TimerMode::OneShot => 0,
            TimerMode::Periodic => 1,
            TimerMode::TscDeadline => 2,
        }
    }
}

/// The registers the driver reads and writes.
#[derive(Clone, Copy, Debug, PartialEq, Eq, Structural)]
pub struct APIC {
    pub lvt_timer: u32,
    pub ticr: u32,
    pub sivr: u32,
    pub eoi: u32,
}

impl APIC {
    pub fn new() -> (r: APIC)
        ensures
            r.lvt_timer == 0 && r.ticr == 0 && r.sivr == 0 && r.eoi == 0,
    {
        APIC { lvt_timer: 0, ticr: 0, sivr: 0, eoi: 0 }
    }

    /// The register word at `offset`.
    pub open spec fn register_spec(self, offset: usize) -> u32 {
        if offset == LVT_TIMER {
            self.lvt_timer
        } else if offset == TICR {
            self.ticr
        } else if offset == SIVR {
            self.sivr
        } else {
            self.eoi
        }
    }

    pub fn write_register(&mut self, offset: usize, value: u32)
        requires
            offset == LVT_TIMER || offset == TICR || offset == SIVR || offset == EOI,
        ensures
            final(self).register_spec(offset) == value,
            final(self).lvt_timer == (if offset == LVT_TIMER {
                value
            } else {
                old(self).lvt_timer
            }),
            final(self).ticr == (if offset == TICR {
                value
            } else {
                old(self).ticr
            }),
            final(self).sivr == (if offset == SIVR {
                value
            } else {
                old(self).sivr
            }),
            final(self).eoi == (if offset == EOI {
                value
            } else {
                old(self).eoi
            }),
    {
        if offset == LVT_TIMER {
            self.lvt_timer = value;
        } else if offset == TICR {
            self.ticr = value;
        } else if offset == SIVR {
            self.sivr = value;
        } else {
            self.eoi = value;
        }
    }

    pub fn read_register(&self, offset: usize) -> (r: u32)
        requires
            offset == LVT_TIMER || offset == TICR || offset == SIVR || offset == EOI,
        ensures
            r == self.register_spec(offset),
    {
        if offset == LVT_TIMER {
            self.lvt_timer
        } else if offset == TICR {
            self.ticr
        } else if offset == SIVR {
            self.sivr
        } else {
            self.eoi
        }
    }
}

/// Clears the mask bit of the timer interrupt.
pub fn enable_timer_interrupts(apic: &mut APIC)
    ensures
        final(apic).lvt_timer == old(apic).lvt_timer & !(1u32 << 16),
        final(apic).ticr == old(apic).ticr,
        final(apic).sivr == old(apic).sivr,
        final(apic).eoi == old(apic).eoi,
{
    let v = apic.read_register(LVT_TIMER);
    apic.write_register(LVT_TIMER, v & !(1u32 << 16));
}

/// Sets the mask bit of the timer interrupt.
pub fn disable_timer_interrupts(apic: &mut APIC)
    ensures
        final(apic).lvt_timer == old(apic).lvt_timer | (1u32 << 16),
        final(apic).ticr == old(apic).ticr,
        final(apic).sivr == old(apic).sivr,
        final(apic).eoi == old(apic).eoi,
{
    let v = apic.read_register(LVT_TIMER);
    apic.write_register(LVT_TIMER, v | (1u32 << 16));
}

/// Signals end-of-interrupt by writing zero to the EOI register; must
/// happen before the switch back to user mode completes.
pub fn end_of_interrupt(apic: &mut APIC)
    ensures
        final(apic).eoi == 0,
        final(apic).lvt_timer == old(apic).lvt_timer,
        final(apic).ticr == old(apic).ticr,
        final(apic).sivr == old(apic).sivr,
{
    apic.write_register(EOI, 0);
}

/// Programs the periodic timer on vector 32 with the fixed initial count.
pub fn initialize(apic: &mut APIC)
    ensures
        final(apic).lvt_timer == TIMER_VECTOR | (1u32 << 17),
        final(apic).ticr == 10_000_000,
        final(apic).sivr == old(apic).sivr,
        final(apic).eoi == old(apic).eoi,
{
    let mode = TimerMode::Periodic;
    apic.write_register(LVT_TIMER, TIMER_VECTOR | (mode.as_u32() << 17));
    apic.write_register(TICR, 10_000_000);
    proof {
        assert(1u32 << 17 == 0x20000) by (bit_vector);
        assert(TIMER_VECTOR | (1u32 << 17) == TIMER_VECTOR | 0x20000u32) by (bit_vector);
    }
}

} // verus!
