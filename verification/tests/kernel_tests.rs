use kernelcore::allocator::MemoryRegion;
use kernelcore::elf::{load_program, parse_header, ELFError};
use kernelcore::kernel::{boot_machine, initialize, BootInfo, Kernel};
use kernelcore::machine::Machine;
use kernelcore::paging::{Flags, VirtualAllocator};
use kernelcore::process::{Context, Process};
use kernelcore::scheduling::{switch_process, switch_to_userspace_slow, timer_interrupt_handler};
use kernelcore::syscall::{dispatch_system_call, u64_to_decimal};

fn two_region_boot() -> BootInfo {
    // 64 usable frames at 0x10000, 128 usable frames at 0x100000
    BootInfo {
        physical_memory_offset: 0,
        kernel_image_offset: 0,
        fb_width: 640,
        fb_height: 480,
        fb_stride: 640,
        memory_regions: vec![
            MemoryRegion { start: 0x10000, end: 0x10000 + 64 * 4096, usable: true },
            MemoryRegion { start: 0x50000, end: 0x51000, usable: false },
            MemoryRegion { start: 0x100000, end: 0x100000 + 128 * 4096, usable: true },
        ],
        physical_size: 0x400000,
    }
}

fn boot() -> Machine {
    boot_machine(&two_region_boot()).unwrap()
}

fn boot_kernel() -> Kernel {
    initialize(two_region_boot(), 0xdead0000).unwrap()
}

fn in_usable(addr: u64) -> bool {
    (0x10000..0x10000 + 64 * 4096).contains(&addr) || (0x100000..0x100000 + 128 * 4096).contains(&addr)
}

/// A minimal little-endian 64-bit executable with one LOAD segment.
fn tiny_elf(entry: u64, vaddr: u64, filesz: usize, memsz: u64, fill: u8) -> Vec<u8> {
    let mut b = vec![0u8; 64 + 56 + filesz];
    b[0..4].copy_from_slice(&0x464c457fu32.to_le_bytes());
    b[16..18].copy_from_slice(&2u16.to_le_bytes()); // executable
    b[18..20].copy_from_slice(&0x3eu16.to_le_bytes()); // x86_64
    b[24..32].copy_from_slice(&entry.to_le_bytes());
    b[32..40].copy_from_slice(&64u64.to_le_bytes()); // program header offset
    b[54..56].copy_from_slice(&56u16.to_le_bytes()); // phentsize
    b[56..58].copy_from_slice(&1u16.to_le_bytes()); // phnum
    let ph = 64;
    b[ph..ph + 4].copy_from_slice(&1u32.to_le_bytes()); // LOAD
    b[ph + 8..ph + 16].copy_from_slice(&(120u64).to_le_bytes()); // file offset
    b[ph + 16..ph + 24].copy_from_slice(&vaddr.to_le_bytes());
    b[ph + 32..ph + 40].copy_from_slice(&(filesz as u64).to_le_bytes());
    b[ph + 40..ph + 48].copy_from_slice(&memsz.to_le_bytes());
    for i in 0..filesz {
        b[120 + i] = fill;
    }
    b
}

#[test]
fn ten_single_pages_are_distinct_aligned_usable_and_zero() {
    let mut m = boot();
    let mut got: Vec<u64> = Vec::new();
    for _ in 0..10 {
        let a = m.allocate_page(1);
        assert_ne!(a, 0);
        assert_eq!(a % 4096, 0);
        assert!(in_usable(a));
        for off in 0..4096 {
            assert_eq!(m.mem.read_byte(a + off), 0);
        }
        got.push(a);
    }
    for i in 0..10 {
        for j in 0..10 {
            if i != j {
                assert_ne!(got[i], got[j]);
            }
        }
    }
}

#[test]
fn oversized_allocation_fails_with_zero() {
    let mut m = boot();
    assert_eq!(m.allocate_page(200), 0);
    // and the largest block still serves a fitting request
    assert_ne!(m.allocate_page(127), 0);
}

#[test]
fn free_page_returns_frames_to_the_list() {
    let mut m = boot();
    let a = m.allocate_page(4);
    assert_ne!(a, 0);
    let before = m.allocate_page(200);
    assert_eq!(before, 0);
    m.free_page(a, 4);
    // the run came back as a node of its own, not merged into a neighbour
    assert!(m
        .alloc
        .blocks
        .iter()
        .any(|blk| blk.start == a && blk.size == 4));
    let b = m.allocate_page(4);
    assert_ne!(b, 0);
}

#[test]
fn create_mapping_walks_to_the_exact_leaf() {
    let mut m = boot();
    let root = m.new_copy().unwrap();
    assert_eq!(m.translate_page(root, 0x4000), None);
    m.create_mapping(root, 0x4000, 0x7000, Flags::write()).unwrap();
    assert_eq!(m.translate_page(root, 0x4000), Some(0x7000));
    // a neighbouring page stays unmapped
    assert_eq!(m.translate_page(root, 0x5000), None);
}

#[test]
fn clone_shares_high_half_and_isolates_entry_zero() {
    let mut m = boot();
    // a high-half kernel mapping made before the clone
    let high = 0xFFFF_8000_0000_0000u64;
    let kt = m.kernel_table;
    m.create_mapping(kt, high, 0x7000, Flags::write()).unwrap();
    let child = m.new_copy().unwrap();
    // shared: the clone sees the kernel mapping
    assert_eq!(m.translate_page(child, high), Some(0x7000));
    // isolated: a low mapping in the child does not appear in the parent
    m.create_mapping(child, 0x4000, 0x9000, Flags::all()).unwrap();
    assert_eq!(m.translate_page(child, 0x4000), Some(0x9000));
    assert_eq!(m.translate_page(kt, 0x4000), None);
    // and a kernel mapping made after the clone is visible in both
    m.create_mapping(kt, high + 0x1000, 0xA000, Flags::write()).unwrap();
    assert_eq!(m.translate_page(child, high + 0x1000), Some(0xA000));
}

#[test]
fn loader_rejects_bad_images_in_order() {
    let mut m = boot();
    let root = m.new_copy().unwrap();
    assert_eq!(load_program(&mut m, &vec![0u8; 10], root), Err(ELFError::Missing));
    let mut bad_magic = tiny_elf(0x400000, 0x400000, 4, 64, b'A');
    bad_magic[0] = 0;
    assert_eq!(load_program(&mut m, &bad_magic, root), Err(ELFError::WrongMagic));
    let mut bad_machine = tiny_elf(0x400000, 0x400000, 4, 64, b'A');
    bad_machine[18] = 0xf3;
    assert_eq!(load_program(&mut m, &bad_machine, root), Err(ELFError::WrongMachine));
    let mut bad_type = tiny_elf(0x400000, 0x400000, 4, 64, b'A');
    bad_type[16] = 1;
    assert_eq!(load_program(&mut m, &bad_type, root), Err(ELFError::WrongType));
}

#[test]
fn parse_header_reads_the_fields() {
    let image = tiny_elf(0x401000, 0x400000, 4, 64, b'A');
    let h = parse_header(&image).unwrap();
    assert_eq!(h.magic, 0x464c457f);
    assert_eq!(h.machine, 0x3e);
    assert_eq!(h.obj_type, 2);
    assert_eq!(h.entry_addr, 0x401000);
    assert_eq!(h.phnum, 1);
    assert_eq!(h.phentsize, 56);
}

#[test]
fn loaded_segment_reads_file_bytes_then_zeros() {
    let mut m = boot();
    let root = m.new_copy().unwrap();
    let image = tiny_elf(0x400000, 0x400000, 100, 4096, b'A');
    let entry = load_program(&mut m, &image, root).unwrap();
    assert_eq!(entry, 0x400000);
    for k in 0..100u64 {
        assert_eq!(m.read_user_byte(root, 0x400000 + k), Some(b'A'));
    }
    for k in 100..4096u64 {
        assert_eq!(m.read_user_byte(root, 0x400000 + k), Some(0));
    }
    // the loader restored the kernel address space
    assert_eq!(m.active_table, m.kernel_table);
}

#[test]
fn reparsing_the_same_image_gives_identical_contents() {
    let mut m = boot();
    let image = tiny_elf(0x400000, 0x400000, 60, 200, b'B');
    let r1 = m.new_copy().unwrap();
    load_program(&mut m, &image, r1).unwrap();
    let r2 = m.new_copy().unwrap();
    load_program(&mut m, &image, r2).unwrap();
    for k in 0..200u64 {
        assert_eq!(m.read_user_byte(r1, 0x400000 + k), m.read_user_byte(r2, 0x400000 + k));
    }
}

#[test]
fn thousand_ticks_schedule_two_processes_fairly() {
    let mut k = boot_kernel();
    let image = tiny_elf(0x400000, 0x400000, 16, 16, 0x90);
    Process::load(&mut k, &image, 0x1000_0000).unwrap();
    Process::load(&mut k, &image, 0x1000_0000).unwrap();
    assert_eq!(k.processes.len(), 2);
    let mut now = 100u64;
    let first = switch_process(&mut k, now);
    assert_eq!(first.rflags, 0x202);
    let mut counts = [0u32; 2];
    for _ in 0..1000 {
        now += 17;
        let cpu = Context::zeroed();
        let _frame = timer_interrupt_handler(&mut k, cpu, now);
        counts[k.core.current_thread] += 1;
    }
    assert!(counts[0] >= 400 && counts[0] <= 600);
    assert!(counts[1] >= 400 && counts[1] <= 600);
    assert_eq!(counts[0] + counts[1], 1000);
}

#[test]
fn preempted_context_is_restored_on_resume() {
    let mut k = boot_kernel();
    let image = tiny_elf(0x400000, 0x400000, 16, 16, 0x90);
    Process::load(&mut k, &image, 0x1000_0000).unwrap();
    Process::load(&mut k, &image, 0x1000_0000).unwrap();
    switch_process(&mut k, 1);
    let mut cpu_a = Context::zeroed();
    cpu_a.rax = 11;
    cpu_a.rdi = 22;
    cpu_a.r11 = 33;
    cpu_a.rsp = 0x1000_1ff8;
    cpu_a.rip = 0x400010;
    cpu_a.eflags = 0x202;
    // preempt the first process with these registers, run the second,
    // then resume the first
    timer_interrupt_handler(&mut k, cpu_a, 2);
    let frame = timer_interrupt_handler(&mut k, Context::zeroed(), 3);
    assert_eq!(frame.context, cpu_a);
    assert_eq!(frame.rip, 0x400010);
    assert_eq!(frame.rsp, 0x1000_1ff8);
}

#[test]
fn write_syscall_delivers_the_bytes_and_preserves_registers() {
    let mut k = boot_kernel();
    let image = tiny_elf(0x400000, 0x400000, 2, 2, 0);
    let mut image = image;
    image[120] = b'h';
    image[121] = b'i';
    Process::load(&mut k, &image, 0x1000_0000).unwrap();
    let root = k.processes[0].cr3;
    k.machine.activate(root);
    let mut cpu = Context::zeroed();
    cpu.rax = 1;
    cpu.rdi = 0x400000;
    cpu.rsi = 2;
    cpu.rdx = 77;
    cpu.rsp = 0x123;
    cpu.rip = 0x400123;
    cpu.eflags = 0x202;
    let (after, halt) = dispatch_system_call(&mut k, cpu);
    assert!(!halt);
    assert_eq!(&k.output[..], b"hi");
    // rcx and r11 are clobbered by the fast-syscall path
    assert_eq!(after.rcx, 0x400123);
    assert_eq!(after.r11, 0x202);
    // everything else is preserved
    assert_eq!(after.rax, 1);
    assert_eq!(after.rdx, 77);
    assert_eq!(after.rsp, 0x123);
    assert_eq!(after.rip, 0x400123);
}

#[test]
fn exit_syscall_halts_without_touching_other_processes() {
    let mut k = boot_kernel();
    let image = tiny_elf(0x400000, 0x400000, 4, 4, 0x90);
    Process::load(&mut k, &image, 0x1000_0000).unwrap();
    Process::load(&mut k, &image, 0x1000_0000).unwrap();
    let before = k.processes.clone();
    let mut cpu = Context::zeroed();
    cpu.rax = 0;
    cpu.rdi = 7;
    let (_, halt) = dispatch_system_call(&mut k, cpu);
    assert!(halt);
    assert_eq!(&k.output[..], b"Process exited with code: 7!\n");
    assert_eq!(k.processes, before);
}

#[test]
fn decimal_rendering_is_exact() {
    assert_eq!(&u64_to_decimal(0)[..], b"0");
    assert_eq!(&u64_to_decimal(7)[..], b"7");
    assert_eq!(&u64_to_decimal(1234)[..], b"1234");
    assert_eq!(&u64_to_decimal(18446744073709551615)[..], b"18446744073709551615");
}

#[test]
fn virtual_heap_hands_out_high_half_pages() {
    let mut m = boot();
    let va = VirtualAllocator::allocate_zeroed(&mut m, 4096, 8).unwrap();
    assert!(va >= 0xFFFF_8000_0000_0000);
    assert_eq!(va % 4096, 0);
    let pa = m.translate_page(m.kernel_table, va).unwrap();
    for off in 0..4096 {
        assert_eq!(m.mem.read_byte(pa + off), 0);
    }
    // over-aligned requests are rejected
    assert!(VirtualAllocator::allocate_zeroed(&mut m, 4096, 8192).is_err());
}

#[test]
fn timer_registers_and_selectors_are_programmed() {
    let k = boot_kernel();
    assert_eq!(k.apic.lvt_timer, 32 | (1 << 17));
    assert_eq!(k.apic.ticr, 10_000_000);
    assert_eq!(k.selectors.code_selector, 0x08);
    assert_eq!(k.selectors.user_data_selector, 0x1b);
    assert_eq!(k.selectors.user_code_selector, 0x23);
    assert_eq!(k.msrs.sfmask, 0x200);
    assert_eq!(k.msrs.lstar, 0xdead0000);
    for e in &k.idt {
        if e.vector == 32 {
            assert_eq!(e.ist_index, 1);
        } else {
            assert_eq!(e.ist_index, 0);
        }
    }
}

#[test]
fn apic_mask_bit_toggles() {
    let mut apic = kernelcore::apic::APIC::new();
    kernelcore::apic::initialize(&mut apic);
    kernelcore::apic::disable_timer_interrupts(&mut apic);
    assert_eq!(apic.lvt_timer & (1 << 16), 1 << 16);
    kernelcore::apic::enable_timer_interrupts(&mut apic);
    assert_eq!(apic.lvt_timer & (1 << 16), 0);
    kernelcore::apic::end_of_interrupt(&mut apic);
    assert_eq!(apic.eoi, 0);
}

#[test]
fn resume_frame_carries_user_segments_and_flags() {
    let mut ctx = Context::zeroed();
    ctx.rsp = 0x8000;
    ctx.rip = 0x400000;
    let f = switch_to_userspace_slow(&ctx, 0x2000);
    assert_eq!(f.ss, 0x1b);
    assert_eq!(f.cs, 0x23);
    assert_eq!(f.rflags, 0x202);
    assert_eq!(f.rsp, 0x8000);
    assert_eq!(f.rip, 0x400000);
    assert_eq!(f.cr3, 0x2000);
}

#[test]
fn writer_reset_returns_the_cursor() {
    let mut w = kernelcore::framebuffer::Writer::new(640, 480, 640);
    w.cursor = 17;
    w.line = 3;
    w.reset();
    assert_eq!(w.cursor, 0);
    assert_eq!(w.line, 3);
}

#[test]
fn virtual_heap_grows_into_consecutive_zeroed_pages() {
    let mut m = boot();
    let va = VirtualAllocator::allocate_zeroed(&mut m, 4096, 8).unwrap();
    // the heap takes the first absent high-half slot
    assert_eq!(va, 0xFFFF_8000_0000_0000);
    let len = VirtualAllocator::grow_zeroed(&mut m, va, 1, 3, 8).unwrap();
    assert_eq!(len, 3 * 4096);
    for page in 1..3u64 {
        let pa = m.translate_page(m.kernel_table, va + page * 4096).unwrap();
        for off in 0..4096 {
            assert_eq!(m.mem.read_byte(pa + off), 0);
        }
    }
    // over-aligned growth is rejected, growth by nothing succeeds
    assert!(VirtualAllocator::grow_zeroed(&mut m, va, 3, 4, 8192).is_err());
    assert_eq!(VirtualAllocator::grow_zeroed(&mut m, va, 3, 3, 8).unwrap(), 3 * 4096);
}

#[test]
fn set_recursively_widens_flags_without_moving_mappings() {
    let mut m = boot();
    let child = m.new_copy().unwrap();
    m.create_mapping(child, 0x4000, 0x7000, Flags::write()).unwrap();
    let before = m.read_entry(child, 0);
    assert_eq!(before & 0b100, 0);
    m.set_recursively(child, Flags::user());
    // the mapping is where it was, every entry on the walk gained the bit
    assert_eq!(m.translate_page(child, 0x4000), Some(0x7000));
    let after = m.read_entry(child, 0);
    assert_eq!(after & 0b100, 0b100);
    assert_eq!(after & !0b100, before);
    // walk down by hand: all four levels carry the bit now
    let mask = 0x000F_FFFF_FFFF_F000u64;
    let t1 = after & mask;
    let e1 = m.read_entry(t1, 0);
    assert_eq!(e1 & 0b100, 0b100);
    let t2 = e1 & mask;
    let e2 = m.read_entry(t2, 0);
    assert_eq!(e2 & 0b100, 0b100);
    let t3 = e2 & mask;
    let e3 = m.read_entry(t3, 4); // 0x4000 selects leaf slot 4
    assert_eq!(e3 & 0b100, 0b100);
    assert_eq!(e3 & mask, 0x7000);
}

#[test]
fn segment_validator_accepts_sane_and_rejects_overflowing_images() {
    let good = tiny_elf(0x400000, 0x400000, 64, 64, b'C');
    assert!(kernelcore::elf::segments_sane(&good));
    // a file range past the end of the buffer
    let mut oversize = tiny_elf(0x400000, 0x400000, 4, 64, b'C');
    oversize[64 + 32..64 + 40].copy_from_slice(&(1u64 << 32).to_le_bytes());
    assert!(!kernelcore::elf::segments_sane(&oversize));
    // a span reaching outside the low canonical half
    let mut high = tiny_elf(0x400000, 0x400000, 4, 64, b'C');
    high[64 + 16..64 + 24].copy_from_slice(&(1u64 << 45).to_le_bytes());
    assert!(!kernelcore::elf::segments_sane(&high));
}
