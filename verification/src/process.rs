//! Processes, tasks and per-core scheduler state.
use vstd::prelude::*;

use std::collections::VecDeque;

verus! {

/// The register file the kernel saves and restores for a process: the
/// caller-saved general-purpose registers together with the stack pointer,
/// instruction pointer and flags of the interrupted user code.
#[derive(Clone, Copy, Debug, PartialEq, Eq, Structural)]
pub struct Context {
    pub rax: u64,
    pub rdi: u64,
    pub rsi: u64,
    pub rdx: u64,
    pub rcx: u64,
    pub r8: u64,
    pub r9: u64,
    pub r10: u64,
    pub r11: u64,
    pub rsp: u64,
    pub rip: u64,
    pub eflags: u64,
}

impl Context {
    /// All registers zero.
    pub open spec fn zeroed_spec() -> Context {
        Context {
            rax: 0,
            rdi: 0,
            rsi: 0,
            rdx: 0,
            rcx: 0,
            r8: 0,
            r9: 0,
            r10: 0,
            r11: 0,
            rsp: 0,
            rip: 0,
            eflags: 0,
        }
    }

    pub fn zeroed() -> (r: Context)
        ensures
            r == Context::zeroed_spec(),
    {
        Context {
            rax: 0,
            rdi: 0,
            rsi: 0,
            rdx: 0,
            rcx: 0,
            r8: 0,
            r9: 0,
            r10: 0,
            r11: 0,
            rsp: 0,
            rip: 0,
            eflags: 0,
        }
    }
}

/// A scheduler handle: the process's cumulative elapsed cycles and its
/// process index.
#[derive(Clone, Copy, Debug, PartialEq, Eq, Structural)]
pub struct Task(pub u64, pub usize);

/// A user process: its index, the fast-return discriminator, its elapsed
/// cycles, its address space and its saved registers.
#[derive(Clone, Copy, Debug, PartialEq, Eq, Structural)]
pub struct Process {
    pub pid: usize,
    /// True when the last kernel entry was the syscall path, so the fast
    /// return instruction would suffice.
    pub fast_entry: bool,
    /// Clock cycles the process has used.
    pub elapsed: u64,
    /// Physical base of the process's top-level page table.
    pub cr3: u64,
    /// The saved registers.
    pub state: Context,
}

impl Task {
    /// The scheduler handle for a process.
    pub fn from_process(process: &Process) -> (r: Task)
        ensures
            r.0 == process.elapsed,
            r.1 == process.pid,
    {
        Task(process.elapsed, process.pid)
    }
}

/// Storage for variables for each core: the cycle counter at the start of
/// the running quantum, the running process, and the ready queue.
pub struct Core {
    pub thread_started: u64,
    pub current_thread: usize,
    pub queue: VecDeque<Task>,
}

impl Core {
    /// A core that has not scheduled anything yet; the running-process
    /// index holds the largest value as the "none yet" sentinel.
    pub fn new() -> (r: Core)
        ensures
            r.thread_started == 0,
            r.current_thread == usize::MAX,
            r.queue@ == Seq::<Task>::empty(),
    {
        let queue: VecDeque<Task> = VecDeque::new();
        proof {
            assert(queue@ =~= Seq::<Task>::empty());
        }
        Core { thread_started: 0, current_thread: usize::MAX, queue }
    }
}

} // verus!
