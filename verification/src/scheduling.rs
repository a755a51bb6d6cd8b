//! The preemptive scheduler: context save, requeue, switch, and the
//! round-robin rotation law.
use vstd::prelude::*;

use crate::apic::end_of_interrupt;
use crate::kernel::Kernel;
use crate::process::{Context, Core, Process, Task};

verus! {

/// The synthetic interrupt-return frame the slow resume path builds:
/// user data segment and user code segment at ring 3, interrupts enabled,
/// and the resumed process's stack, instruction pointer, registers and
/// address space.
#[derive(Clone, Copy, Debug, PartialEq, Eq, Structural)]
pub struct ResumeFrame {
    pub ss: u64,
    pub rsp: u64,
    pub rflags: u64,
    pub cs: u64,
    pub rip: u64,
    pub context: Context,
    pub cr3: u64,
}

/// Builds the frame the interrupt-return instruction consumes to enter
/// user mode: the segment words match the user selectors of the
/// descriptor table, flags carry only the interrupt-enable bit, and every
/// register comes word-for-word from the saved context.
pub fn switch_to_userspace_slow(context: &Context, cr3: u64) -> (r: ResumeFrame)
    ensures
        r.ss == 3 * 8 + 3,
        r.cs == 4 * 8 + 3,
        r.ss == crate::gdt::init_spec().user_data_selector as u64,
        r.cs == crate::gdt::init_spec().user_code_selector as u64,
        r.rflags == 0x202,
        r.rsp == context.rsp,
        r.rip == context.rip,
        r.context == *context,
        r.cr3 == cr3,
{
    ResumeFrame {
        ss: 3 * 8 + 3,
        rsp: context.rsp,
        rflags: 0x202,
        cs: 4 * 8 + 3,
        rip: context.rip,
        context: *context,
        cr3,
    }
}

/// The index of the running process, whose saved context the timer
/// trampoline fills; the kernel address space is made active first, as
/// the process table lives in kernel mappings.
#[verifier::spinoff_prover]
#[verifier::rlimit(100)]
pub fn current_context_address(kernel: &mut Kernel) -> (r: usize)
    requires
        old(kernel).wf(),
        old(kernel).core.current_thread < old(kernel).processes@.len(),
    ensures
        kernel_unchanged_but_active(*old(kernel), *final(kernel)),
        final(kernel).machine.active_table == final(kernel).machine.kernel_table,
        r == old(kernel).core.current_thread,
        final(kernel).wf(),
{
    kernel.machine.activate_kernel_table();
    kernel.core.current_thread
}

/// Everything except the address-space register is as it was.
pub open spec fn kernel_unchanged_but_active(pre: Kernel, post: Kernel) -> bool {
    &&& post.machine.mem@ == pre.machine.mem@
    &&& post.machine.alloc.blocks@ == pre.machine.alloc.blocks@
    &&& post.machine.kernel_table == pre.machine.kernel_table
    &&& post.machine.tables@ == pre.machine.tables@
    &&& post.machine.data_frames@ == pre.machine.data_frames@
    &&& post.machine.alloc.limit == pre.machine.alloc.limit
    &&& post.processes@ == pre.processes@
    &&& post.core.queue@ == pre.core.queue@
    &&& post.core.current_thread == pre.core.current_thread
    &&& post.core.thread_started == pre.core.thread_started
    &&& post.output@ == pre.output@
}

/// Marks the running process as preempted rather than mid-syscall, adds
/// the cycles of the ending quantum to its total, and puts it at the back
/// of the ready queue.
pub fn requeue_active_process(kernel: &mut Kernel, now: u64)
    requires
        old(kernel).wf(),
        old(kernel).core.current_thread < old(kernel).processes@.len(),
        old(kernel).core.thread_started <= now,
        old(kernel).processes@[old(kernel).core.current_thread as int].elapsed + (now - old(
            kernel,
        ).core.thread_started) <= u64::MAX,
    ensures
        final(kernel).wf(),
        ({
            let cur = old(kernel).core.current_thread as int;
            let spent = now - old(kernel).core.thread_started;
            let p = old(kernel).processes@[cur];
            &&& final(kernel).processes@ == old(kernel).processes@.update(
                cur,
                (Process { fast_entry: false, elapsed: (p.elapsed + spent) as u64, ..p }),
            )
            &&& final(kernel).core.queue@ == old(kernel).core.queue@.push(
                Task((p.elapsed + spent) as u64, old(kernel).core.current_thread),
            )
            &&& final(kernel).core.current_thread == old(kernel).core.current_thread
            &&& final(kernel).core.thread_started == old(kernel).core.thread_started
            &&& final(kernel).machine == old(kernel).machine
            &&& final(kernel).output == old(kernel).output
        }),
{
    let cur = kernel.core.current_thread;
    let spent = now - kernel.core.thread_started;
    let mut p = kernel.processes[cur];
    p.fast_entry = false;
    p.elapsed = p.elapsed + spent;
    kernel.processes.set(cur, p);
    let task = Task::from_process(&kernel.processes[cur]);
    kernel.core.queue.push_back(task);
}

/// The queue discipline: the task at the front runs next.
pub fn pick_next(core: &mut Core) -> (r: usize)
    requires
        old(core).queue@.len() > 0,
    ensures
        r == old(core).queue@[0].1,
        final(core).queue@ == old(core).queue@.subrange(1, old(core).queue@.len() as int),
        final(core).current_thread == old(core).current_thread,
        final(core).thread_started == old(core).thread_started,
{
    match core.queue.pop_front() {
        Some(task) => task.1,
        None => 0,
    }
}

/// Pops the next task, records it as running, starts its quantum at
/// `now`, signals end-of-interrupt, and builds the resume frame from its
/// saved context and address space.
pub fn switch_process(kernel: &mut Kernel, now: u64) -> (r: ResumeFrame)
    requires
        old(kernel).wf(),
        old(kernel).core.queue@.len() > 0,
    ensures
        final(kernel).wf(),
        ({
            let next = old(kernel).core.queue@[0].1 as int;
            &&& final(kernel).core.current_thread == old(kernel).core.queue@[0].1
            &&& final(kernel).core.queue@ == old(kernel).core.queue@.subrange(
                1,
                old(kernel).core.queue@.len() as int,
            )
            &&& final(kernel).core.thread_started == now
            &&& final(kernel).processes@ == old(kernel).processes@
            &&& final(kernel).apic.eoi == 0
            &&& r.context == old(kernel).processes@[next].state
            &&& r.cr3 == old(kernel).processes@[next].cr3
            &&& r.rip == old(kernel).processes@[next].state.rip
            &&& r.rsp == old(kernel).processes@[next].state.rsp
            &&& r.rflags == 0x202
            &&& final(kernel).machine == old(kernel).machine
            &&& final(kernel).output == old(kernel).output
        }),
{
    let next = pick_next(&mut kernel.core);
    kernel.core.current_thread = next;
    kernel.core.thread_started = now;
    end_of_interrupt(&mut kernel.apic);
    let p = kernel.processes[next];
    switch_to_userspace_slow(&p.state, p.cr3)
}

/// The order processes will run in: the running one, then the queue.
pub open spec fn sched_order(k: Kernel) -> Seq<usize> {
    seq![k.core.current_thread] + Seq::new(k.core.queue@.len(), |i: int| k.core.queue@[i].1)
}

/// The whole timer path: the interrupted user context is saved into the
/// running process's record, the process is requeued with its elapsed
/// time accounted, the front of the queue becomes current with its
/// quantum starting at `now`, end-of-interrupt is signalled, and the
/// frame restoring the next process word-for-word is returned. The
/// processes not involved keep their records untouched, and the schedule
/// rotates by exactly one position.
#[verifier::rlimit(100)]
pub fn timer_interrupt_handler(kernel: &mut Kernel, cpu: Context, now: u64) -> (r: ResumeFrame)
    requires
        old(kernel).wf(),
        old(kernel).core.current_thread < old(kernel).processes@.len(),
        old(kernel).core.thread_started <= now,
        old(kernel).processes@[old(kernel).core.current_thread as int].elapsed + (now - old(
            kernel,
        ).core.thread_started) <= u64::MAX,
    ensures
        final(kernel).wf(),
        ({
            let cur = old(kernel).core.current_thread as int;
            let spent = now - old(kernel).core.thread_started;
            let saved = (old(kernel).processes@[cur].elapsed + spent) as u64;
            let q2 = old(kernel).core.queue@.push(
                Task(saved, old(kernel).core.current_thread),
            );
            let next = q2[0].1 as int;
            // the interrupted registers are saved exactly
            &&& final(kernel).processes@[cur].state == cpu
            &&& final(kernel).processes@[cur].elapsed == saved
            &&& !final(kernel).processes@[cur].fast_entry
            // no other process record moves
            &&& final(kernel).processes@.len() == old(kernel).processes@.len()
            &&& (forall|i: int|
                0 <= i < old(kernel).processes@.len() && i != cur
                    ==> final(kernel).processes@[i] == old(kernel).processes@[i])
            // the front of the queue runs next, from `now`
            &&& final(kernel).core.current_thread == q2[0].1
            &&& final(kernel).core.queue@ == q2.subrange(1, q2.len() as int)
            &&& final(kernel).core.thread_started == now
            &&& final(kernel).apic.eoi == 0
            // the resumed process's saved registers are restored exactly
            &&& r.context == final(kernel).processes@[next].state
            &&& r.cr3 == final(kernel).processes@[next].cr3
            &&& r.rip == final(kernel).processes@[next].state.rip
            &&& r.rsp == final(kernel).processes@[next].state.rsp
            // the schedule is a rotation
            &&& sched_order(*final(kernel)) =~= sched_order(*old(kernel)).subrange(
                1,
                sched_order(*old(kernel)).len() as int,
            ).push(sched_order(*old(kernel))[0])
        }),
{
    let index = current_context_address(kernel);
    let mut p = kernel.processes[index];
    p.state = cpu;
    kernel.processes.set(index, p);
    requeue_active_process(kernel, now);
    switch_process(kernel, now)
}

/// One rotation of the schedule.
pub open spec fn rotate1(s: Seq<usize>) -> Seq<usize> {
    s.subrange(1, s.len() as int).push(s[0])
}

/// `n` rotations of the schedule.
pub open spec fn rotaten(s: Seq<usize>, n: nat) -> Seq<usize>
    decreases n,
{
    if n == 0 {
        s
    } else {
        rotate1(rotaten(s, (n - 1) as nat))
    }
}

/// Round-robin fairness: after `n` ticks of a schedule that nobody joins
/// or leaves, the process at position `n` modulo the schedule's length is
/// the one running; over any window as long as the schedule, every
/// position runs exactly once.
pub proof fn lemma_round_robin(s: Seq<usize>, n: nat)
    requires
        0 < s.len(),
    ensures
        rotaten(s, n).len() == s.len(),
        forall|i: int| 0 <= i < s.len() ==> #[trigger] rotaten(s, n)[i] == s[(n + i) % (
        s.len() as int)],
    decreases n,
{
    let len = s.len() as int;
    if n == 0 {
        assert forall|i: int| 0 <= i < len implies #[trigger] rotaten(s, 0)[i] == s[(0 + i)
            % len] by {
            assert((0 + i) % len == i) by {
                vstd::arithmetic::div_mod::lemma_small_mod(i as nat, len as nat);
            }
        }
    } else {
        lemma_round_robin(s, (n - 1) as nat);
        let t = rotaten(s, (n - 1) as nat);
        assert forall|i: int| 0 <= i < len implies #[trigger] rotaten(s, n)[i] == s[(n + i)
            % len] by {
            assert(rotaten(s, n) == rotate1(t));
            if i < len - 1 {
                assert(rotate1(t)[i] == t[i + 1]);
                assert(t[i + 1] == s[(n - 1 + (i + 1)) % len]);
            } else {
                assert(rotate1(t)[i] == t[0]);
                assert(t[0] == s[(n - 1) % len]);
                assert((n + len - 1) % len == (n - 1) % len) by {
                    vstd::arithmetic::div_mod::lemma_mod_multiples_vanish(
                        1,
                        (n - 1) as int,
                        len,
                    );
                }
            }
        }
    }
}

} // verus!
