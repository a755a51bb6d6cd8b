//! The whole kernel state and its boot-time initialization.
use vstd::prelude::*;

use crate::allocator::{initialize as allocator_initialize, MemoryRegion};
use crate::apic::APIC;
use crate::elf::{load_error, load_program, segs_sane, u64_at, ELFError};
use crate::framebuffer::Writer;
use crate::gdt::Selectors;
use crate::interrupts::{idt_stacks_separated, IdtEntry};
use crate::machine::Machine;
use crate::mem::PhysMem;
use crate::process::{Context, Core, Process, Task};

verus! {

/// What the boot handoff delivers, as plain values.
pub struct BootInfo {
    /// The constant the physical window adds to a physical address.
    pub physical_memory_offset: u64,
    pub kernel_image_offset: u64,
    /// Framebuffer geometry.
    pub fb_width: usize,
    pub fb_height: usize,
    pub fb_stride: usize,
    /// The boot memory map.
    pub memory_regions: Vec<MemoryRegion>,
    /// Bytes of simulated physical memory.
    pub physical_size: u64,
}

/// The model-specific machine registers the fast-syscall path programs.
#[derive(Clone, Copy, Debug, PartialEq, Eq, Structural)]
pub struct SyscallMsrs {
    pub star: u64,
    pub lstar: u64,
    pub sfmask: u64,
    pub efer_sce: bool,
}

/// Programs the fast-syscall registers: segment bases for the ring
/// transitions, the entry address, and an interrupt-masking flags mask.
pub fn initialize_usermode(selectors: &Selectors, entry: u64) -> (r: SyscallMsrs)
    requires
        selectors.user_code_selector == selectors.user_data_selector + 8,
        selectors.data_selector == selectors.code_selector + 8,
        selectors.user_data_selector >= 8,
    ensures
        r.star == (((selectors.user_data_selector - 8) as u64) << 48) | ((
        selectors.code_selector as u64) << 32),
        r.lstar == entry,
        r.sfmask == 0x200,
        r.efer_sce,
{
    SyscallMsrs {
        star: (((selectors.user_data_selector - 8) as u64) << 48) | ((
        selectors.code_selector as u64) << 32),
        lstar: entry,
        sfmask: 0x200,
        efer_sce: true,
    }
}

/// The machine, the process table, the per-core scheduler state, and the
/// modelled devices.
pub struct Kernel {
    pub machine: Machine,
    pub processes: Vec<Process>,
    pub core: Core,
    /// Bytes delivered to the framebuffer writer.
    pub output: Vec<u8>,
    pub apic: APIC,
    pub selectors: Selectors,
    pub msrs: SyscallMsrs,
    pub writer: Writer,
    pub idt: Vec<IdtEntry>,
    pub physical_memory_offset: u64,
    pub kernel_image_offset: u64,
}

impl Kernel {
    /// The process table is dense and every queued task names a process.
    pub open spec fn wf(self) -> bool {
        &&& self.machine.wf()
        &&& forall|i: int|
            0 <= i < self.processes@.len() ==> (#[trigger] self.processes@[i]).pid == i
        &&& forall|i: int|
            0 <= i < self.core.queue@.len() ==> (#[trigger] self.core.queue@[i]).1
                < self.processes@.len()
        &&& (self.core.current_thread == usize::MAX || self.core.current_thread
            < self.processes@.len())
    }

    /// The address-space register's current value.
    pub fn get_active_page_table(&self) -> (r: u64)
        ensures
            r == self.machine.active_table,
    {
        self.machine.active_table
    }
}

/// Builds the machine: simulated physical memory, the free list from the
/// boot memory map, and a fresh empty kernel top-level table.
#[verifier::spinoff_prover]
#[verifier::rlimit(100)]
pub fn boot_machine(boot: &BootInfo) -> (r: Result<Machine, crate::paging::AllocError>)
    requires
        boot.physical_size <= crate::MAX_PHYS_SIZE,
        boot.physical_size <= usize::MAX,
        forall|i: int|
            0 <= i < boot.memory_regions@.len() && (#[trigger] boot.memory_regions@[i]).usable
                ==> {
                &&& boot.memory_regions@[i].start % 4096 == 0
                &&& 0 < boot.memory_regions@[i].start
                &&& boot.memory_regions@[i].start <= boot.memory_regions@[i].end
                &&& boot.memory_regions@[i].end <= boot.physical_size
            },
        forall|i: int, j: int|
            0 <= i < j < boot.memory_regions@.len() && (#[trigger] boot.memory_regions@[i]).usable
                && (#[trigger] boot.memory_regions@[j]).usable ==> boot.memory_regions@[i].end
                <= boot.memory_regions@[j].start,
    ensures
        r matches Ok(m) ==> m.wf() && m.active_table == m.kernel_table && m.mem@.len()
            == boot.physical_size && m.data_frames@ == Set::<int>::empty(),
        r matches Ok(m) ==> ({
            let rb = crate::allocator::region_blocks(boot.memory_regions@);
            &&& rb.len() > 0
            &&& m.kernel_table == rb[0].start + (rb[0].size - 1) * 4096
            &&& m.alloc.limit == boot.physical_size
            &&& m.alloc.blocks@ == (if rb[0].size == 1 {
                rb.remove(0)
            } else {
                rb.update(
                    0,
                    (crate::allocator::FreeBlock {
                        start: rb[0].start,
                        size: (rb[0].size - 1) as u64,
                    }),
                )
            })
        }),
        (exists|i: int|
            0 <= i < boot.memory_regions@.len() && (#[trigger] boot.memory_regions@[i]).usable
                && (boot.memory_regions@[i].end - boot.memory_regions@[i].start) / 4096 >= 1)
            ==> r is Ok,
{
    let mut mem = PhysMem::new(boot.physical_size);
    let mut alloc = allocator_initialize(&boot.memory_regions, boot.physical_size);
    // carve the kernel's top-level table from the high end of the first
    // free block by hand: the machine is not assembled yet
    if alloc.blocks.len() == 0 {
        proof {
            if exists|i: int|
                0 <= i < boot.memory_regions@.len() && (#[trigger] boot.memory_regions@[i]).usable
                    && (boot.memory_regions@[i].end - boot.memory_regions@[i].start) / 4096 >= 1 {
                let i = choose|i: int|
                    0 <= i < boot.memory_regions@.len() && (
                    #[trigger] boot.memory_regions@[i]).usable && (boot.memory_regions@[i].end
                        - boot.memory_regions@[i].start) / 4096 >= 1;
                let reg = boot.memory_regions@[i];
                assert(crate::allocator::region_frames(reg).contains(reg.start as int)) by {
                    assert((reg.end - reg.start) / 4096 * 4096 >= 4096) by (nonlinear_arith)
                        requires
                            (reg.end - reg.start) / 4096 >= 1,
                    ;
                }
                assert(crate::allocator::is_free(alloc.blocks@, reg.start as int));
            }
        }
        return Err(crate::paging::AllocError);
    }
    let ghost preblocks = alloc.blocks@;
    let b = alloc.blocks[0];
    let root = b.start + (b.size - 1) * 4096;
    proof {
        assert(b.start + b.size * 4096 <= alloc.limit);
        assert((b.size - 1) * 4096 <= b.size * 4096) by (nonlinear_arith)
            requires
                b.size >= 1,
        ;
    }
    if b.size == 1 {
        alloc.blocks.remove(0);
    } else {
        alloc.blocks.set(0, crate::allocator::FreeBlock { start: b.start, size: b.size - 1 });
    }
    proof {
        crate::allocator::lemma_carve(
            preblocks,
            alloc.blocks@,
            alloc.limit as int,
            0,
            1,
            root as int,
        );
    }
    mem.zero_range(root, 4096);
    let ghost empty_tables: Seq<Set<int>> = seq![
        Set::empty(),
        Set::empty(),
        Set::empty(),
        Set::empty(),
    ];
    let machine = Machine {
        mem,
        alloc,
        kernel_table: root,
        active_table: root,
        tables: Ghost(empty_tables.update(0, Set::empty().insert(root as int))),
        data_frames: Ghost(Set::empty()),
    };
    proof {
        let fin = machine;
        let ri = root as int;
        assert forall|l: int, t: int|
            0 <= l < 4 && #[trigger] fin.tables@[l].contains(t) implies t == ri && l == 0 by {
        }
        assert(!fin.free(ri));
        assert forall|l: int, t: int, i: int|
            0 <= l < 3 && #[trigger] fin.tables@[l].contains(t) && 0 <= i < 512 && crate::paging::is_present(
                #[trigger] crate::paging::entry_at(fin.mem@, t, i),
            ) implies fin.tables@[l + 1].contains(
            crate::paging::entry_addr(crate::paging::entry_at(fin.mem@, t, i)) as int,
        ) by {
            assert(crate::paging::entry_at(fin.mem@, ri, i) == crate::mem::le8(
                0,
                0,
                0,
                0,
                0,
                0,
                0,
                0,
            ) as u64);
            assert(!crate::paging::is_present(0u64)) by (bit_vector);
        }
        assert(fin.wf());
    }
    Ok(machine)
}

impl Process {
    /// Appends a process with the given entry point, stack top and address
    /// space to the table and the ready queue.
    pub fn launch(kernel: &mut Kernel, entry: u64, sp: u64, cr3: u64)
        requires
            old(kernel).wf(),
            old(kernel).processes@.len() < usize::MAX,
        ensures
            final(kernel).wf(),
            final(kernel).processes@ == old(kernel).processes@.push(
                Process {
                    pid: old(kernel).processes@.len() as usize,
                    fast_entry: true,
                    elapsed: 0,
                    cr3,
                    state: Context { rsp: sp, rip: entry, ..Context::zeroed_spec() },
                },
            ),
            final(kernel).core.queue@ == old(kernel).core.queue@.push(
                Task(0, old(kernel).processes@.len() as usize),
            ),
            final(kernel).core.current_thread == old(kernel).core.current_thread,
            final(kernel).core.thread_started == old(kernel).core.thread_started,
            final(kernel).machine == old(kernel).machine,
            final(kernel).output == old(kernel).output,
    {
        let pid = kernel.processes.len();
        let mut state = Context::zeroed();
        state.rsp = sp;
        state.rip = entry;
        let process = Process { pid, fast_entry: true, elapsed: 0, cr3, state };
        kernel.processes.push(process);
        kernel.core.queue.push_back(Task(0, pid));
    }

    /// Clones the kernel address space, loads the executable into the
    /// clone, maps two user stack pages below `stack_start + 2 pages`, and
    /// enqueues the new process.
    #[verifier::spinoff_prover]
    #[verifier::rlimit(100)]
    pub fn load(kernel: &mut Kernel, elf: &Vec<u8>, stack_start: u64) -> (r: Result<
        (),
        ELFError,
    >)
        requires
            old(kernel).wf(),
            old(kernel).processes@.len() < usize::MAX,
            load_error(elf@) is None ==> segs_sane(elf@),
            stack_start % 4096 == 0,
            stack_start + 2 * 4096 <= 0x100_0000_0000,
        ensures
            final(kernel).wf(),
            r is Ok ==> {
                let p = final(kernel).processes@.last();
                &&& final(kernel).processes@.len() == old(kernel).processes@.len() + 1
                &&& p.state.rip == u64_at(elf@, 24)
                &&& p.state.rsp == stack_start + 2 * 4096
                &&& final(kernel).core.queue@ == old(kernel).core.queue@.push(
                    Task(0, old(kernel).processes@.len() as usize),
                )
                // the process owns a fresh address space holding the image
                &&& final(kernel).machine.tables@[0].contains(p.cr3 as int)
                &&& !old(kernel).machine.tables@[0].contains(p.cr3 as int)
                &&& crate::elf::loaded(elf@, final(kernel).machine, p.cr3 as int)
                // two zeroed, writable, user-accessible stack pages
                &&& (forall|i: int|
                    0 <= i < 2 ==> #[trigger] crate::paging::walk_ok(
                        final(kernel).machine.mem@,
                        final(kernel).machine.len(),
                        p.cr3 as int,
                        (stack_start + i * 4096) as u64,
                    ) && crate::paging::leaf_entry(
                        final(kernel).machine.mem@,
                        p.cr3 as int,
                        (stack_start + i * 4096) as u64,
                    ) & 0b110 == 0b110)
                &&& (forall|i: int, off: int|
                    0 <= i < 2 && 0 <= off < 4096 ==> #[trigger] crate::paging::user_byte(
                        final(kernel).machine.mem@,
                        final(kernel).machine.len(),
                        p.cr3 as int,
                        (stack_start + i * 4096 + off) as u64,
                    ) == Some(0u8))
                // the kernel address space is active again
                &&& final(kernel).machine.active_table == final(kernel).machine.kernel_table
            },
            r matches Err(e) ==> (load_error(elf@) == Some(e) || e == ELFError::OutOfMemory || e
                == ELFError::Overlap),
            r == Err::<(), ELFError>(ELFError::OutOfMemory) ==> !crate::allocator::has_fit(
                final(kernel).machine.alloc.blocks@,
                2,
            ) || (exists|j: int|
                0 <= j < crate::elf::u16_at(elf@, 56) && #[trigger] crate::elf::seg_active(
                    elf@,
                    j,
                ) && !crate::allocator::has_fit(
                    final(kernel).machine.alloc.blocks@,
                    crate::elf::seg_page_count(elf@, j),
                )),
            r == Err::<(), ELFError>(ELFError::Overlap) ==> exists|r2: int, va2: u64|
                final(kernel).machine.tables@[0].contains(r2) && #[trigger] crate::paging::walk_ok(
                    final(kernel).machine.mem@,
                    final(kernel).machine.len(),
                    r2,
                    va2,
                ),
    {
        let ghost k0 = *kernel;
        let table = match kernel.machine.new_copy() {
            Ok(t) => t,
            Err(_) => {
                proof {
                    // the free list was empty
                    if crate::allocator::has_fit(kernel.machine.alloc.blocks@, 2) {
                        let j = choose|j: int|
                            0 <= j < kernel.machine.alloc.blocks@.len()
                                && #[trigger] kernel.machine.alloc.blocks@[j].size >= 2;
                        assert(kernel.machine.alloc.blocks@[j].size >= 1);
                        assert(crate::allocator::has_fit(kernel.machine.alloc.blocks@, 1));
                    }
                }
                return Err(ELFError::OutOfMemory);
            },
        };
        kernel.machine.activate(table);
        let address = match load_program(&mut kernel.machine, elf, table) {
            Ok(a) => a,
            Err(e) => {
                proof {
                    if e == ELFError::Overlap {
                        let (j, p) = choose|j: int, p: int|
                            0 <= j < crate::elf::u16_at(elf@, 56) && crate::elf::seg_active(
                                elf@,
                                j,
                            ) && 0 <= p < crate::elf::seg_page_count(elf@, j)
                                && #[trigger] crate::paging::walk_ok(
                                kernel.machine.mem@,
                                kernel.machine.len(),
                                table as int,
                                (crate::elf::seg_page_start(elf@, j) + p * 4096) as u64,
                            );
                        assert(kernel.machine.tables@[0].contains(table as int)
                            && crate::paging::walk_ok(
                            kernel.machine.mem@,
                            kernel.machine.len(),
                            table as int,
                            (crate::elf::seg_page_start(elf@, j) + p * 4096) as u64,
                        ));
                    }
                }
                return Err(e);
            },
        };
        let ghost ml = *kernel;
        // two user stack pages
        let stack = kernel.machine.allocate_data_pages(2);
        if stack == 0 {
            return Err(ELFError::OutOfMemory);
        }
        let ghost m2 = *kernel;
        proof {
            assert forall|j: int|
                0 <= j < crate::elf::u16_at(elf@, 56) && #[trigger] crate::elf::seg_active(
                    elf@,
                    j,
                ) implies crate::elf::seg_loaded(elf@, m2.machine, table as int, j) by {
                crate::elf::lemma_seg_loaded_preserved(
                    ml.machine,
                    m2.machine,
                    elf@,
                    table as int,
                    j,
                );
            }
        }
        let fall = crate::paging::Flags::all();
        proof {
            assert(0b110u64 & crate::paging::ENTRY_ADDR_MASK == 0 && 0b110u64 & 1 == 0)
                by (bit_vector);
        }
        match kernel.machine.map_span(table, stack_start, 2, stack, fall) {
            Ok(_) => {},
            Err(e) => {
                proof {
                    if e == ELFError::Overlap {
                        let p = choose|p: int|
                            0 <= p < 2 && #[trigger] crate::paging::walk_ok(
                                kernel.machine.mem@,
                                m2.machine.len(),
                                table as int,
                                (stack_start + p * 4096) as u64,
                            );
                        assert(kernel.machine.tables@[0].contains(table as int)
                            && crate::paging::walk_ok(
                            kernel.machine.mem@,
                            kernel.machine.len(),
                            table as int,
                            (stack_start + p * 4096) as u64,
                        ));
                    }
                }
                return Err(e);
            },
        }
        let ghost m3 = *kernel;
        proof {
            // the image survives the stack mapping; the stacks are ready
            assert forall|j: int|
                0 <= j < crate::elf::u16_at(elf@, 56) && #[trigger] crate::elf::seg_active(
                    elf@,
                    j,
                ) implies crate::elf::seg_loaded(elf@, m3.machine, table as int, j) by {
                crate::elf::lemma_seg_loaded_preserved(
                    m2.machine,
                    m3.machine,
                    elf@,
                    table as int,
                    j,
                );
            }
            assert forall|a: int|
                stack <= a < stack + 2 * 4096 implies #[trigger] m3.machine.mem@[a] == 0u8 by {
                if m3.machine.mem@[a] != m2.machine.mem@[a] {
                    reveal(crate::machine::data_pages_untouched);
                    crate::machine::lemma_frame_base(a);
                    crate::machine::lemma_frame_base_le(stack as int, a);
                    assert(m2.machine.data_frames@.contains(crate::machine::frame_base(a)));
                }
            }
            crate::paging::lemma_span_ready(
                m3.machine,
                table as int,
                stack_start,
                2,
                stack as int,
                0b110,
            );
        }
        kernel.machine.activate_kernel_table();
        Process::launch(kernel, address, stack_start + 2 * 4096, table);
        Ok(())
    }
}

/// Wires the kernel together from the boot handoff: writer, descriptor
/// tables, machine, timer and fast-syscall registers.
pub fn initialize(boot: BootInfo, syscall_entry: u64) -> (r: Result<
    Kernel,
    crate::paging::AllocError,
>)
    requires
        boot.physical_size <= crate::MAX_PHYS_SIZE,
        boot.physical_size <= usize::MAX,
        forall|i: int|
            0 <= i < boot.memory_regions@.len() && (#[trigger] boot.memory_regions@[i]).usable
                ==> {
                &&& boot.memory_regions@[i].start % 4096 == 0
                &&& 0 < boot.memory_regions@[i].start
                &&& boot.memory_regions@[i].start <= boot.memory_regions@[i].end
                &&& boot.memory_regions@[i].end <= boot.physical_size
            },
        forall|i: int, j: int|
            0 <= i < j < boot.memory_regions@.len() && (#[trigger] boot.memory_regions@[i]).usable
                && (#[trigger] boot.memory_regions@[j]).usable ==> boot.memory_regions@[i].end
                <= boot.memory_regions@[j].start,
    ensures
        (exists|i: int|
            0 <= i < boot.memory_regions@.len() && (#[trigger] boot.memory_regions@[i]).usable
                && (boot.memory_regions@[i].end - boot.memory_regions@[i].start) / 4096 >= 1)
            ==> r is Ok,
        r matches Ok(k) ==> ({
            let rb = crate::allocator::region_blocks(boot.memory_regions@);
            &&& rb.len() > 0
            &&& k.machine.kernel_table == rb[0].start + (rb[0].size - 1) * 4096
            &&& k.machine.alloc.limit == boot.physical_size
            &&& k.machine.mem@.len() == boot.physical_size
            &&& k.machine.alloc.blocks@ == (if rb[0].size == 1 {
                rb.remove(0)
            } else {
                rb.update(
                    0,
                    (crate::allocator::FreeBlock {
                        start: rb[0].start,
                        size: (rb[0].size - 1) as u64,
                    }),
                )
            })
            &&& k.machine.active_table == k.machine.kernel_table
        }),
        r matches Ok(k) ==> {
            &&& k.wf()
            &&& k.processes@.len() == 0
            &&& k.core.queue@.len() == 0
            &&& k.apic.lvt_timer == crate::apic::TIMER_VECTOR | (1u32 << 17)
            &&& k.apic.ticr == 10_000_000
            &&& k.selectors == crate::gdt::init_spec()
            &&& k.msrs.lstar == syscall_entry
            &&& idt_stacks_separated(k.idt@)
            &&& k.output@.len() == 0
        },
{
    let writer = crate::framebuffer::initialize(boot.fb_width, boot.fb_height, boot.fb_stride);
    let selectors = crate::gdt::init();
    let idt = crate::interrupts::init_idt();
    let machine = match boot_machine(&boot) {
        Ok(m) => m,
        Err(e) => {
            return Err(e);
        },
    };
    let mut apic = APIC::new();
    crate::apic::initialize(&mut apic);
    let msrs = initialize_usermode(&selectors, syscall_entry);
    let kernel = Kernel {
        machine,
        processes: Vec::new(),
        core: Core::new(),
        output: Vec::new(),
        apic,
        selectors,
        msrs,
        writer,
        idt,
        physical_memory_offset: boot.physical_memory_offset,
        kernel_image_offset: boot.kernel_image_offset,
    };
    Ok(kernel)
}

} // verus!
