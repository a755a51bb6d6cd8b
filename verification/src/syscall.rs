//! The syscall surface: code 0 exits, code 1 writes bytes from the
//! caller's address space to the framebuffer; any other code is a kernel
//! panic and is excluded here by precondition.
use vstd::prelude::*;

use crate::kernel::Kernel;
use crate::paging::user_byte;
use crate::process::Context;

verus! {

/// The decimal digits of `n`, most significant first.
pub open spec fn dec_digits(n: nat) -> Seq<u8>
    decreases n,
{
    if n < 10 {
        seq![(48 + n) as u8]
    } else {
        dec_digits(n / 10).push((48 + n % 10) as u8)
    }
}

/// Renders `n` in decimal.
pub fn u64_to_decimal(n: u64) -> (r: Vec<u8>)
    ensures
        r@ == dec_digits(n as nat),
    decreases n,
{
    if n < 10 {
        let mut v: Vec<u8> = Vec::new();
        v.push(48 + n as u8);
        proof {
            assert(v@ =~= dec_digits(n as nat));
        }
        v
    } else {
        let mut v = u64_to_decimal(n / 10);
        v.push(48 + (n % 10) as u8);
        v
    }
}

/// The bytes of "Process exited with code: ".
pub open spec fn exit_prefix() -> Seq<u8> {
    seq![
        80u8,
        114u8,
        111u8,
        99u8,
        101u8,
        115u8,
        115u8,
        32u8,
        101u8,
        120u8,
        105u8,
        116u8,
        101u8,
        100u8,
        32u8,
        119u8,
        105u8,
        116u8,
        104u8,
        32u8,
        99u8,
        111u8,
        100u8,
        101u8,
        58u8,
        32u8,
    ]
}

/// The full exit diagnostic: the prefix, the code in decimal, then
/// "!" and a line break.
pub open spec fn exit_message(code: u64) -> Seq<u8> {
    exit_prefix() + dec_digits(code as nat) + seq![33u8, 10u8]
}

/// The `len` bytes at `ptr` in the address space rooted at `root`; a
/// byte whose page is unmapped reads as zero here, where the hardware
/// access would fault and halt.
pub open spec fn user_bytes(mem: Seq<u8>, memlen: int, root: int, ptr: u64, len: u64) -> Seq<u8> {
    Seq::new(
        len as nat,
        |i: int|
            match user_byte(mem, memlen, root, (ptr + i) as u64) {
                Some(b) => b,
                None => 0u8,
            },
    )
}

/// Appends the exit prefix to the output.
fn push_exit_prefix(out: &mut Vec<u8>)
    ensures
        final(out)@ == old(out)@ + exit_prefix(),
{
    out.push(80);
    out.push(114);
    out.push(111);
    out.push(99);
    out.push(101);
    out.push(115);
    out.push(115);
    out.push(32);
    out.push(101);
    out.push(120);
    out.push(105);
    out.push(116);
    out.push(101);
    out.push(100);
    out.push(32);
    out.push(119);
    out.push(105);
    out.push(116);
    out.push(104);
    out.push(32);
    out.push(99);
    out.push(111);
    out.push(100);
    out.push(101);
    out.push(58);
    out.push(32);
    proof {
        assert(final(out)@ =~= old(out)@ + exit_prefix());
    }
}

/// Handles one syscall with the C-convention arguments the trampoline
/// hands over. Code 0 prints the exit diagnostic and asks the caller to
/// halt the CPU — the process table is untouched, so no other process is
/// affected. Code 1 delivers exactly `r2` bytes read from `r1` in the
/// active address space to the framebuffer output; an unmapped byte is
/// delivered as zero, where the hardware access would fault and halt.
#[verifier::rlimit(100)]
pub fn system_call_handler(
    kernel: &mut Kernel,
    r1: u64,
    r2: u64,
    r3: u64,
    r4: u64,
    r5: u64,
    r6: u64,
    code: u64,
) -> (halt: bool)
    requires
        old(kernel).wf(),
        code == 0 || code == 1,
        code == 1 ==> r1 + r2 <= u64::MAX,
    ensures
        final(kernel).wf(),
        final(kernel).machine == old(kernel).machine,
        final(kernel).processes == old(kernel).processes,
        final(kernel).core.queue@ == old(kernel).core.queue@,
        final(kernel).core.current_thread == old(kernel).core.current_thread,
        code == 0 ==> halt && final(kernel).output@ == old(kernel).output@ + exit_message(r1),
        code == 1 ==> !halt && final(kernel).output@ == old(kernel).output@ + user_bytes(
            old(kernel).machine.mem@,
            old(kernel).machine.len(),
            old(kernel).machine.active_table as int,
            r1,
            r2,
        ),
{
    if code == 0 {
        push_exit_prefix(&mut kernel.output);
        let mut digits = u64_to_decimal(r1);
        kernel.output.append(&mut digits);
        kernel.output.push(33);
        kernel.output.push(10);
        proof {
            assert(kernel.output@ =~= old(kernel).output@ + exit_message(r1));
        }
        true
    } else {
        let root = kernel.machine.active_table;
        let mut i: u64 = 0;
        while i < r2
            invariant
                kernel.machine == old(kernel).machine,
                kernel.processes == old(kernel).processes,
                kernel.core.queue@ == old(kernel).core.queue@,
                kernel.core.current_thread == old(kernel).core.current_thread,
                kernel.core.thread_started == old(kernel).core.thread_started,
                old(kernel).wf(),
                kernel.wf(),
                root == old(kernel).machine.active_table,
                i <= r2,
                r1 + r2 <= u64::MAX,
                kernel.output@ == old(kernel).output@ + user_bytes(
                    old(kernel).machine.mem@,
                    old(kernel).machine.len(),
                    old(kernel).machine.active_table as int,
                    r1,
                    i,
                ),
            decreases r2 - i,
        {
            let b = match kernel.machine.read_user_byte(root, r1 + i) {
                Some(b) => b,
                None => 0,
            };
            kernel.output.push(b);
            proof {
                assert(kernel.output@ =~= old(kernel).output@ + user_bytes(
                    old(kernel).machine.mem@,
                    old(kernel).machine.len(),
                    old(kernel).machine.active_table as int,
                    r1,
                    (i + 1) as u64,
                ));
            }
            i = i + 1;
        }
        proof {
            assert(kernel.output@ =~= old(kernel).output@ + user_bytes(
                old(kernel).machine.mem@,
                old(kernel).machine.len(),
                old(kernel).machine.active_table as int,
                r1,
                r2,
            ));
        }
        false
    }
}

/// The whole fast-syscall round trip as the user code observes it: the
/// hardware clobbers `rcx` with the return address and `r11` with the
/// saved flags, the trampoline moves the fourth argument into place,
/// preserves `rax` and `rcx` across the handler, and the fast return
/// lands on the instruction after the syscall with every other register
/// untouched.
pub fn dispatch_system_call(kernel: &mut Kernel, cpu: Context) -> (r: (Context, bool))
    requires
        old(kernel).wf(),
        cpu.rax == 0 || cpu.rax == 1,
        cpu.rax == 1 ==> cpu.rdi + cpu.rsi <= u64::MAX,
    ensures
        final(kernel).wf(),
        final(kernel).machine == old(kernel).machine,
        final(kernel).processes == old(kernel).processes,
        final(kernel).core.queue@ == old(kernel).core.queue@,
        r.0 == (Context { rcx: cpu.rip, r11: cpu.eflags, ..cpu }),
        r.0.rip == cpu.rip,
        cpu.rax == 0 ==> r.1 && final(kernel).output@ == old(kernel).output@ + exit_message(
            cpu.rdi,
        ),
        cpu.rax == 1 ==> !r.1 && final(kernel).output@ == old(kernel).output@ + user_bytes(
            old(kernel).machine.mem@,
            old(kernel).machine.len(),
            old(kernel).machine.active_table as int,
            cpu.rdi,
            cpu.rsi,
        ),
{
    let halt = system_call_handler(
        kernel,
        cpu.rdi,
        cpu.rsi,
        cpu.rdx,
        cpu.r10,
        cpu.r8,
        cpu.r9,
        cpu.rax,
    );
    let after = Context { rcx: cpu.rip, r11: cpu.eflags, ..cpu };
    (after, halt)
}

} // verus!
