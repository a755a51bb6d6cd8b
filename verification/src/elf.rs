//! The executable loader: validates a little-endian 64-bit executable
//! image and installs its LOAD segments into a target address space.
//!
//! The header is checked for length, magic, machine and object type; each
//! program header of type LOAD with a non-zero memory size has its
//! page-aligned span backed by fresh zeroed frames, mapped writable and
//! user-accessible, and its file bytes copied in; the bytes between the
//! file size and the memory size stay zero. An exhausted allocator and an
//! already-mapped page, fatal conditions on hardware, are surfaced as
//! errors of their own.
use vstd::prelude::*;

use crate::allocator::free_count;
use crate::machine::{
    data_pages_untouched, frame_base, free_shrunk, preserves_layout, Machine,
};
use crate::mem::le8;
use crate::paging::{
    entry_addr, is_present, leaf_entry, run_backed, span_pages_mapped, translate, user_byte,
    walk_ok, walks_preserved, Flags,
};

verus! {

/// Why the loader rejected an image or gave up installing it.
#[derive(Debug, Clone, Copy, PartialEq, Eq, Structural)]
pub enum ELFError {
    /// The buffer ends before the header or the program-header table does.
    Missing,
    /// The four magic bytes are wrong.
    WrongMagic,
    /// The machine field is not the x86_64 value.
    WrongMachine,
    /// The object type is not "executable".
    WrongType,
    /// The free list could not back a segment or its page tables.
    OutOfMemory,
    /// A page of a segment was already mapped in the target space.
    Overlap,
}

/// The executable header, as laid out at the start of the image.
#[derive(Clone, Copy, Debug, PartialEq, Eq)]
pub struct Header {
    pub magic: u32,
    pub bitsize: u8,
    pub endian: u8,
    pub ident_abi_version: u8,
    pub target_platform: u8,
    pub abi_version: u8,
    pub obj_type: u16,
    pub machine: u16,
    pub version: u32,
    pub entry_addr: u64,
    pub program_header_offset: u64,
    pub shoff: u64,
    pub flags: u32,
    pub ehsize: u16,
    pub phentsize: u16,
    pub phnum: u16,
    pub shentsize: u16,
    pub shnum: u16,
    pub shstrndx: u16,
}

/// One program-header entry.
#[derive(Clone, Copy, Debug, PartialEq, Eq)]
pub struct ProgramHeader {
    pub seg_type: u32,
    pub flags: u32,
    pub off: u64,
    pub vaddr: u64,
    pub paddr: u64,
    pub filesz: u64,
    pub memsz: u64,
    pub align: u64,
}

pub const ELF_MAGIC: u32 = 0x464c457f;
pub const MACHINE_X86_64: u16 = 0x3e;
pub const TYPE_EXECUTABLE: u16 = 2;
pub const SEG_TYPE_LOAD: u32 = 1;

/// Two little-endian bytes.
pub open spec fn le2(b0: u8, b1: u8) -> int {
    b0 + 0x100 * b1
}

/// Four little-endian bytes.
pub open spec fn le4(b0: u8, b1: u8, b2: u8, b3: u8) -> int {
    b0 + 0x100 * b1 + 0x1_0000 * b2 + 0x100_0000 * b3
}

pub open spec fn u16_at(s: Seq<u8>, o: int) -> u16 {
    le2(s[o], s[o + 1]) as u16
}

pub open spec fn u32_at(s: Seq<u8>, o: int) -> u32 {
    le4(s[o], s[o + 1], s[o + 2], s[o + 3]) as u32
}

pub open spec fn u64_at(s: Seq<u8>, o: int) -> u64 {
    le8(s[o], s[o + 1], s[o + 2], s[o + 3], s[o + 4], s[o + 5], s[o + 6], s[o + 7]) as u64
}

/// The header the image starts with.
pub open spec fn header_spec(s: Seq<u8>) -> Header {
    Header {
        magic: u32_at(s, 0),
        bitsize: s[4],
        endian: s[5],
        ident_abi_version: s[6],
        target_platform: s[7],
        abi_version: s[8],
        obj_type: u16_at(s, 16),
        machine: u16_at(s, 18),
        version: u32_at(s, 20),
        entry_addr: u64_at(s, 24),
        program_header_offset: u64_at(s, 32),
        shoff: u64_at(s, 40),
        flags: u32_at(s, 48),
        ehsize: u16_at(s, 52),
        phentsize: u16_at(s, 54),
        phnum: u16_at(s, 56),
        shentsize: u16_at(s, 58),
        shnum: u16_at(s, 60),
        shstrndx: u16_at(s, 62),
    }
}

/// Base offset of program header `j`.
pub open spec fn ph_base(s: Seq<u8>, j: int) -> int {
    u64_at(s, 32) + j * u16_at(s, 54)
}

/// Program header `j` of the image.
pub open spec fn ph_spec(s: Seq<u8>, j: int) -> ProgramHeader {
    let b = ph_base(s, j);
    ProgramHeader {
        seg_type: u32_at(s, b),
        flags: u32_at(s, b + 4),
        off: u64_at(s, b + 8),
        vaddr: u64_at(s, b + 16),
        paddr: u64_at(s, b + 24),
        filesz: u64_at(s, b + 32),
        memsz: u64_at(s, b + 40),
        align: u64_at(s, b + 48),
    }
}

/// Segment `j` is of type LOAD and occupies memory.
pub open spec fn seg_active(s: Seq<u8>, j: int) -> bool {
    ph_spec(s, j).seg_type == SEG_TYPE_LOAD && ph_spec(s, j).memsz > 0
}

/// First byte of the page-aligned span of segment `j`.
pub open spec fn seg_page_start(s: Seq<u8>, j: int) -> int {
    (ph_spec(s, j).vaddr / 4096) * 4096
}

/// Pages in the page-aligned span of segment `j`.
pub open spec fn seg_page_count(s: Seq<u8>, j: int) -> int {
    (ph_spec(s, j).vaddr - seg_page_start(s, j) + ph_spec(s, j).memsz + 4095) / 4096
}

/// The program-header table lies inside the buffer and its entries carry
/// at least the fields read here.
pub open spec fn table_ok(s: Seq<u8>) -> bool {
    u16_at(s, 56) == 0 || (u16_at(s, 54) >= 56 && u64_at(s, 32) + u16_at(s, 56) * u16_at(s, 54)
        <= s.len())
}

/// The validation error the image deserves, in the order the checks run.
pub open spec fn load_error(s: Seq<u8>) -> Option<ELFError> {
    if s.len() < 64 {
        Some(ELFError::Missing)
    } else if u32_at(s, 0) != ELF_MAGIC {
        Some(ELFError::WrongMagic)
    } else if u16_at(s, 18) != MACHINE_X86_64 {
        Some(ELFError::WrongMachine)
    } else if u16_at(s, 16) != TYPE_EXECUTABLE {
        Some(ELFError::WrongType)
    } else if !table_ok(s) {
        Some(ELFError::Missing)
    } else {
        None
    }
}

/// Every active segment's numbers stay inside the buffer, the low
/// canonical half, and the machine's arithmetic.
pub open spec fn segs_sane(s: Seq<u8>) -> bool {
    forall|j: int|
        0 <= j < u16_at(s, 56) && #[trigger] seg_active(s, j) ==> {
            &&& ph_spec(s, j).off + ph_spec(s, j).filesz <= s.len()
            &&& ph_spec(s, j).filesz <= ph_spec(s, j).memsz
            &&& ph_spec(s, j).vaddr + ph_spec(s, j).memsz < 0x80_0000_0000
        }
}

/// The physical base of the contiguous run backing segment `j`: the
/// frame its first page maps to.
pub open spec fn seg_phys(s: Seq<u8>, m: Machine, root: int, j: int) -> int {
    entry_addr(leaf_entry(m.mem@, root, (seg_page_start(s, j)) as u64)) as int
}

/// Segment `j` stands installed in the space rooted at `root`: its span
/// is mapped writable and user-accessible onto one contiguous run of
/// data frames, its file bytes read back exactly, and the rest of its
/// memory reads zero.
pub open spec fn seg_loaded(s: Seq<u8>, m: Machine, root: int, j: int) -> bool {
    let ph = ph_spec(s, j);
    let start = seg_page_start(s, j);
    let count = seg_page_count(s, j);
    &&& (forall|p: int|
        0 <= p < count ==> #[trigger] entry_addr(
            leaf_entry(m.mem@, root, (start + p * 4096) as u64),
        ) == (seg_phys(s, m, root, j) + p * 4096) as u64)
    &&& (forall|p: int|
        0 <= p < count ==> {
            &&& #[trigger] walk_ok(m.mem@, m.len(), root, (start + p * 4096) as u64)
            &&& is_present(leaf_entry(m.mem@, root, (start + p * 4096) as u64))
            &&& leaf_entry(m.mem@, root, (start + p * 4096) as u64) & 0b110 == 0b110
            &&& m.data_frames@.contains(
                entry_addr(leaf_entry(m.mem@, root, (start + p * 4096) as u64)) as int,
            )
        })
    &&& (forall|k: int|
        0 <= k < ph.memsz ==> #[trigger] user_byte(
            m.mem@,
            m.len(),
            root,
            (ph.vaddr + k) as u64,
        ) == Some(
            if k < ph.filesz {
                s[ph.off + k]
            } else {
                0u8
            },
        ))
}

/// Every active segment of the image is installed.
pub open spec fn loaded(s: Seq<u8>, m: Machine, root: int) -> bool {
    forall|j: int| 0 <= j < u16_at(s, 56) && #[trigger] seg_active(s, j) ==> seg_loaded(
        s,
        m,
        root,
        j,
    )
}

/// A whole number of pages covers at least what the ceiling division saw.
proof fn lemma_ceil_pages(x: int, d: int)
    requires
        0 <= x,
        d == (x + 4095) / 4096,
    ensures
        x <= d * 4096,
        d >= 0,
{
    assert(x <= ((x + 4095) / 4096) * 4096) by (nonlinear_arith)
        requires
            0 <= x,
    ;
    assert(d >= 0);
}

/// A byte of a page names its page and its offset.
proof fn lemma_page_of(va: int)
    requires
        0 <= va,
    ensures
        (va / 4096) * 4096 <= va < (va / 4096) * 4096 + 4096,
        va == (va / 4096) * 4096 + va % 4096,
{
    assert(va == 4096 * (va / 4096) + va % 4096);
}

/// Reads a 16-bit little-endian value at `o`.
fn read_u16_at(buffer: &Vec<u8>, o: usize) -> (r: u16)
    requires
        o + 2 <= buffer@.len(),
    ensures
        r == u16_at(buffer@, o as int),
{
    let blen = buffer.len();
    buffer[o] as u16 + 0x100 * (buffer[o + 1] as u16)
}

/// Reads a 32-bit little-endian value at `o`.
fn read_u32_at(buffer: &Vec<u8>, o: usize) -> (r: u32)
    requires
        o + 4 <= buffer@.len(),
    ensures
        r == u32_at(buffer@, o as int),
{
    let blen = buffer.len();
    buffer[o] as u32 + 0x100 * (buffer[o + 1] as u32) + 0x1_0000 * (buffer[o + 2] as u32)
        + 0x100_0000 * (buffer[o + 3] as u32)
}

/// Reads a 64-bit little-endian value at `o`.
fn read_u64_at(buffer: &Vec<u8>, o: usize) -> (r: u64)
    requires
        o + 8 <= buffer@.len(),
    ensures
        r == u64_at(buffer@, o as int),
{
    let blen = buffer.len();
    buffer[o] as u64 + 0x100 * (buffer[o + 1] as u64) + 0x1_0000 * (buffer[o + 2] as u64)
        + 0x100_0000 * (buffer[o + 3] as u64) + 0x1_0000_0000 * (buffer[o + 4] as u64)
        + 0x100_0000_0000 * (buffer[o + 5] as u64) + 0x1_0000_0000_0000 * (buffer[o + 6] as u64)
        + 0x100_0000_0000_0000 * (buffer[o + 7] as u64)
}

/// Parses and validates the header at the start of the image.
pub fn parse_header(buffer: &Vec<u8>) -> (r: Result<Header, ELFError>)
    ensures
        match r {
            Ok(h) => buffer@.len() >= 64 && h == header_spec(buffer@) && h.magic == ELF_MAGIC
                && h.machine == MACHINE_X86_64 && h.obj_type == TYPE_EXECUTABLE,
            Err(e) => load_error(buffer@) == Some(e) || (e == ELFError::Missing && buffer@.len()
                < 64),
        },
        r is Err <==> (buffer@.len() < 64 || u32_at(buffer@, 0) != ELF_MAGIC || u16_at(buffer@, 18)
            != MACHINE_X86_64 || u16_at(buffer@, 16) != TYPE_EXECUTABLE),
{
    if buffer.len() < 64 {
        return Err(ELFError::Missing);
    }
    let magic = read_u32_at(buffer, 0);
    if magic != 0x464c457f {
        return Err(ELFError::WrongMagic);
    }
    let machine = read_u16_at(buffer, 18);
    if machine != 0x3e {
        return Err(ELFError::WrongMachine);
    }
    let obj_type = read_u16_at(buffer, 16);
    if obj_type != 2 {
        return Err(ELFError::WrongType);
    }
    Ok(
        Header {
            magic,
            bitsize: buffer[4],
            endian: buffer[5],
            ident_abi_version: buffer[6],
            target_platform: buffer[7],
            abi_version: buffer[8],
            obj_type,
            machine,
            version: read_u32_at(buffer, 20),
            entry_addr: read_u64_at(buffer, 24),
            program_header_offset: read_u64_at(buffer, 32),
            shoff: read_u64_at(buffer, 40),
            flags: read_u32_at(buffer, 48),
            ehsize: read_u16_at(buffer, 52),
            phentsize: read_u16_at(buffer, 54),
            phnum: read_u16_at(buffer, 56),
            shentsize: read_u16_at(buffer, 58),
            shnum: read_u16_at(buffer, 60),
            shstrndx: read_u16_at(buffer, 62),
        },
    )
}

/// A segment already installed stays installed across an operation that
/// preserves walks and old data pages.
#[verifier::rlimit(100)]
pub(crate) proof fn lemma_seg_loaded_preserved(pre: Machine, post: Machine, s: Seq<u8>, root: int, j: int)
    requires
        pre.wf(),
        post.mem@.len() == pre.mem@.len(),
        walks_preserved(pre, post),
        data_pages_untouched(pre, post),
        pre.tables@[0].contains(root),
        pre.data_frames@.subset_of(post.data_frames@),
        seg_loaded(s, pre, root, j),
        segs_sane(s),
        0 <= j < u16_at(s, 56),
        seg_active(s, j),
    ensures
        seg_loaded(s, post, root, j),
{
    reveal(walks_preserved);
    reveal(data_pages_untouched);
    let ph = ph_spec(s, j);
    let start = seg_page_start(s, j);
    let count = seg_page_count(s, j);
    let physw = seg_phys(s, pre, root, j);
    assert(seg_phys(s, post, root, j) == physw) by {
        lemma_ceil_pages(ph.vaddr - start + ph.memsz, count);
        assert(walk_ok(pre.mem@, pre.len(), root, (start + 0 * 4096) as u64));
        assert(leaf_entry(post.mem@, root, (start + 0 * 4096) as u64) == leaf_entry(
            pre.mem@,
            root,
            (start + 0 * 4096) as u64,
        ));
        assert((start + 0 * 4096) as u64 == start as u64);
    }
    assert forall|p: int| 0 <= p < count implies #[trigger] entry_addr(
        leaf_entry(post.mem@, root, (start + p * 4096) as u64),
    ) == (physw + p * 4096) as u64 by {
        lemma_ceil_pages(ph.vaddr - start + ph.memsz, count);
        assert(walk_ok(pre.mem@, pre.len(), root, (start + p * 4096) as u64));
    }
    assert forall|p: int| 0 <= p < count implies {
        &&& #[trigger] walk_ok(post.mem@, post.len(), root, (start + p * 4096) as u64)
        &&& is_present(leaf_entry(post.mem@, root, (start + p * 4096) as u64))
        &&& leaf_entry(post.mem@, root, (start + p * 4096) as u64) & 0b110 == 0b110
        &&& post.data_frames@.contains(
            entry_addr(leaf_entry(post.mem@, root, (start + p * 4096) as u64)) as int,
        )
    } by {
        lemma_ceil_pages(ph.vaddr - start + ph.memsz, count);
        assert(walk_ok(pre.mem@, pre.len(), root, (start + p * 4096) as u64));
    }
    assert forall|k: int| 0 <= k < ph.memsz implies #[trigger] user_byte(
        post.mem@,
        post.len(),
        root,
        (ph.vaddr + k) as u64,
    ) == Some(
        if k < ph.filesz {
            s[ph.off + k]
        } else {
            0u8
        },
    ) by {
        lemma_seg_loaded_byte(pre, post, s, root, j, k);
    }
}


/// One byte of an already installed segment survives an operation that
/// preserves walks and old data pages.
#[verifier::spinoff_prover]
#[verifier::rlimit(100)]
proof fn lemma_seg_loaded_byte(pre: Machine, post: Machine, s: Seq<u8>, root: int, j: int, k: int)
    requires
        pre.wf(),
        post.mem@.len() == pre.mem@.len(),
        walks_preserved(pre, post),
        data_pages_untouched(pre, post),
        pre.tables@[0].contains(root),
        pre.data_frames@.subset_of(post.data_frames@),
        forall|p: int|
            0 <= p < seg_page_count(s, j) ==> #[trigger] walk_ok(
                pre.mem@,
                pre.len(),
                root,
                (seg_page_start(s, j) + p * 4096) as u64,
            ) && pre.data_frames@.contains(
                entry_addr(
                    leaf_entry(pre.mem@, root, (seg_page_start(s, j) + p * 4096) as u64),
                ) as int,
            ),
        forall|k2: int|
            0 <= k2 < ph_spec(s, j).memsz ==> #[trigger] user_byte(
                pre.mem@,
                pre.len(),
                root,
                (ph_spec(s, j).vaddr + k2) as u64,
            ) == Some(
                if k2 < ph_spec(s, j).filesz {
                    s[ph_spec(s, j).off + k2]
                } else {
                    0u8
                },
            ),
        segs_sane(s),
        0 <= j < u16_at(s, 56),
        seg_active(s, j),
        0 <= k < ph_spec(s, j).memsz,
    ensures
        user_byte(post.mem@, post.len(), root, (ph_spec(s, j).vaddr + k) as u64) == Some(
            if k < ph_spec(s, j).filesz {
                s[ph_spec(s, j).off + k]
            } else {
                0u8
            },
        ),
{
    reveal(walks_preserved);
    reveal(data_pages_untouched);
    let ph = ph_spec(s, j);
    let start = seg_page_start(s, j);
    let count = seg_page_count(s, j);
    {
        let va = (ph.vaddr + k) as u64;
        lemma_page_of(va as int);
        let page = ((va / 4096) * 4096) as u64;
        let q = (page - start) / 4096;
        lemma_ceil_pages(ph.vaddr - start + ph.memsz, count);
        assert(start <= page) by {
            assert(start == 4096 * (start / 4096) && start / 4096 == start as int / 4096);
            crate::machine::lemma_frame_base_le(start, va as int);
        }
        assert(page == start + q * 4096 && 0 <= q < count) by {
            assert(page == 4096 * (page as int / 4096));
            assert(page - start == 4096 * ((page - start) / 4096)) by (nonlinear_arith)
                requires
                    page as int % 4096 == 0 && start % 4096 == 0 && start <= page,
            ;
            assert(page <= va < start + count * 4096);
            assert(q < count) by {
                if q >= count {
                    assert(page >= start + count * 4096) by (nonlinear_arith)
                        requires
                            page == start + q * 4096 && q >= count,
                    ;
                }
            }
        }
        assert(walk_ok(pre.mem@, pre.len(), root, page));
        assert(walk_ok(post.mem@, pre.len(), root, page) && leaf_entry(post.mem@, root, page)
            == leaf_entry(pre.mem@, root, page));
        let pa = entry_addr(leaf_entry(pre.mem@, root, page)) as int;
        assert(pre.data_frames@.contains(pa));
        assert(crate::machine::frame_in_mem(pa, pre.len()));
        let off = va as int % 4096;
        assert(pa + off < pre.len());
        assert(post.mem@[pa + off] == pre.mem@[pa + off]) by {
            if post.mem@[pa + off] != pre.mem@[pa + off] {
                crate::paging::lemma_frame_base_of(pa, pa + off);
            }
        }
        assert(user_byte(pre.mem@, pre.len(), root, va) == Some(pre.mem@[pa + off]));
        assert(user_byte(post.mem@, post.len(), root, va) == Some(post.mem@[pa + off]));
    }
}

impl Machine {
    /// Copies `n` bytes of `src` starting at `src_off` onto physical
    /// memory at `pa`, which must lie inside data pages.
    fn copy_into_data(&mut self, pa: u64, src: &Vec<u8>, src_off: usize, n: usize)
        requires
            old(self).wf(),
            pa + n <= old(self).len(),
            src_off + n <= src@.len(),
            forall|a: int|
                pa <= a < pa + n ==> old(self).data_frames@.contains(
                    #[trigger] frame_base(a),
                ),
        ensures
            final(self).wf(),
            preserves_layout(*old(self), *final(self)),
            final(self).alloc == old(self).alloc,
            final(self).tables@ == old(self).tables@,
            final(self).data_frames@ == old(self).data_frames@,
            final(self).active_table == old(self).active_table,
            walks_preserved(*old(self), *final(self)),
            forall|a: int|
                0 <= a < old(self).len() ==> final(self).mem@[a] == (if pa <= a < pa + n {
                    src@[src_off + (a - pa)]
                } else {
                    old(self).mem@[a]
                }),
    {
        let ghost m0 = *self;
        let srcn = src.len();
        let mut k: usize = 0;
        while k < n
            invariant
                m0 == *old(self),
                k <= n,
                m0.wf(),
                pa + n <= m0.len(),
                src_off + n <= src@.len(),
                src@.len() <= usize::MAX,
                self.mem@.len() == m0.mem@.len(),
                self.alloc == m0.alloc,
                self.tables@ == m0.tables@,
                self.data_frames@ == m0.data_frames@,
                self.kernel_table == m0.kernel_table,
                self.active_table == m0.active_table,
                forall|a: int|
                    0 <= a < m0.len() ==> self.mem@[a] == (if pa <= a < pa + k {
                        src@[src_off + (a - pa)]
                    } else {
                        m0.mem@[a]
                    }),
            decreases n - k,
        {
            self.mem.write_byte(pa + k as u64, src[src_off + k]);
            k = k + 1;
        }
        proof {
            let fin = *self;
            assert forall|a: int|
                0 <= a < m0.mem@.len() && m0.mem@[a] != #[trigger] fin.mem@[a] implies exists|
                f: int,
            |
                #[trigger] crate::machine::frame_in_mem(f, m0.len()) && f <= a < f + 4096
                    && !m0.any_table(f) by {
                assert(pa <= a < pa + n);
                crate::machine::lemma_frame_base(a);
                let f = frame_base(a);
                assert(m0.data_frames@.contains(f));
                assert(crate::machine::frame_in_mem(f, m0.len()) && f <= a < f + 4096
                    && !m0.any_table(f));
            }
            crate::machine::lemma_all_tables_preserved(m0, fin);
            assert(fin.wf());
            crate::paging::lemma_walks_preserved_data_change(m0, fin);
            assert(walks_preserved(m0, fin)) by {
                reveal(walks_preserved);
            }
        }
    }

    /// Maps `count` consecutive pages from `start` onto the run at
    /// `phys`, writable and user-accessible.
    #[verifier::rlimit(100)]
    pub(crate) fn map_span(&mut self, root: u64, start: u64, count: u64, phys: u64, flags: Flags) -> (r: Result<
        (),
        ELFError,
    >)
        requires
            old(self).wf(),
            old(self).tables@[0].contains(root as int),
            flags.wf(),
            start % 4096 == 0,
            start + count * 4096 <= u64::MAX,
            phys % 4096 == 0,
            0 < phys,
            phys + count * 4096 <= old(self).len(),
            forall|f: int|
                phys <= f < phys + count * 4096 && f % 4096 == 0 ==> old(
                    self,
                ).data_frames@.contains(f),
        ensures
            final(self).wf(),
            preserves_layout(*old(self), *final(self)),
            final(self).tables@[0] == old(self).tables@[0],
            final(self).data_frames@ == old(self).data_frames@,
            final(self).active_table == old(self).active_table,
            walks_preserved(*old(self), *final(self)),
            data_pages_untouched(*old(self), *final(self)),
            free_shrunk(*old(self), *final(self)),
            r is Ok ==> span_pages_mapped(
                *final(self),
                root as int,
                start as int,
                count as int,
                phys as int,
                flags.0,
            ),
            r is Err ==> r == Err::<(), ELFError>(ELFError::OutOfMemory) || r == Err::<
                (),
                ELFError,
            >(ELFError::Overlap),
            r == Err::<(), ELFError>(ELFError::Overlap) ==> exists|p: int|
                0 <= p < count && #[trigger] walk_ok(
                    final(self).mem@,
                    old(self).len(),
                    root as int,
                    (start + p * 4096) as u64,
                ),
            r == Err::<(), ELFError>(ELFError::OutOfMemory) ==> final(self).alloc.blocks@.len()
                == 0,
    {
        let ghost m0 = *self;
        proof {
            assert(walks_preserved(m0, m0)) by {
                reveal(walks_preserved);
            }
            assert(data_pages_untouched(m0, m0)) by {
                reveal(data_pages_untouched);
            }
            assert(free_shrunk(m0, m0)) by {
                reveal(free_shrunk);
            }
        }
        let mut p: u64 = 0;
        while p < count
            invariant
                m0 == *old(self),
                0 <= p <= count,
                m0.wf(),
                self.wf(),
                preserves_layout(m0, *self),
                self.tables@[0] == m0.tables@[0],
                self.data_frames@ == m0.data_frames@,
                self.active_table == m0.active_table,
                m0.tables@[0].contains(root as int),
                start % 4096 == 0,
                start + count * 4096 <= u64::MAX,
                phys % 4096 == 0,
                0 < phys,
                phys + count * 4096 <= m0.len(),
                walks_preserved(m0, *self),
                data_pages_untouched(m0, *self),
                free_shrunk(m0, *self),
                flags.wf(),
                forall|q: int|
                    0 <= q < p ==> #[trigger] walk_ok(
                        self.mem@,
                        m0.len(),
                        root as int,
                        (start + q * 4096) as u64,
                    ) && leaf_entry(self.mem@, root as int, (start + q * 4096) as u64) == ((phys
                        + q * 4096) as u64 | flags.0 | 1),
            decreases count - p,
        {
            let ghost before = *self;
            let va = start + p * 4096;
            let pa = phys + p * 4096;
            proof {
                assert(va % 4096 == 0 && pa % 4096 == 0) by (nonlinear_arith)
                    requires
                        start % 4096 == 0 && phys % 4096 == 0 && p >= 0 && va == start + p * 4096
                            && pa == phys + p * 4096,
                ;
                assert(p * 4096 < count * 4096) by (nonlinear_arith)
                    requires
                        0 <= p < count,
                ;
            }
            match self.translate_page(root, va) {
                Some(_) => {
                    proof {
                        let pi = p as int;
                        assert(walk_ok(self.mem@, m0.len(), root as int, va));
                        assert(0 <= pi && pi < count && walk_ok(
                            self.mem@,
                            m0.len(),
                            root as int,
                            (start + pi * 4096) as u64,
                        ));
                    }
                    return Err(ELFError::Overlap);
                },
                None => {
                },
            }
            let r = self.create_mapping(root, va, pa, flags);
            match r {
                Ok(_) => {},
                Err(_) => {
                    proof {
                        crate::paging::lemma_walks_preserved_trans(m0, before, *self);
                        crate::machine::lemma_data_pages_untouched_trans(m0, before, *self);
                        crate::machine::lemma_free_shrunk_trans(m0, before, *self);
                    }
                    return Err(ELFError::OutOfMemory);
                },
            }
            proof {
                crate::paging::lemma_walks_preserved_trans(m0, before, *self);
                crate::machine::lemma_data_pages_untouched_trans(m0, before, *self);
                crate::machine::lemma_free_shrunk_trans(m0, before, *self);
                assert forall|q: int|
                    0 <= q < p + 1 implies #[trigger] walk_ok(
                    self.mem@,
                    m0.len(),
                    root as int,
                    (start + q * 4096) as u64,
                ) && leaf_entry(self.mem@, root as int, (start + q * 4096) as u64) == ((phys + q
                    * 4096) as u64 | flags.0 | 1) by {
                    if q < p {
                        reveal(walks_preserved);
                        assert(walk_ok(
                            before.mem@,
                            before.len(),
                            root as int,
                            (start + q * 4096) as u64,
                        ));
                    }
                }
            }
            p = p + 1;
        }
        proof {
            assert(span_pages_mapped(
                *self,
                root as int,
                start as int,
                count as int,
                phys as int,
                flags.0,
            )) by {
                reveal(span_pages_mapped);
            }
        }
        Ok(())
    }
}

/// Pages mapped onto the run read as present, writable, user-accessible
/// data pages.
#[verifier::spinoff_prover]
#[verifier::rlimit(100)]
proof fn lemma_seg_install_pages_direct(s: Seq<u8>, m3: Machine, root: int, j: int, phys: int)
    requires
        0 <= j < u16_at(s, 56),
        seg_active(s, j),
        ph_spec(s, j).vaddr + ph_spec(s, j).memsz < 0x80_0000_0000,
        phys % 4096 == 0,
        0 < phys,
        m3.mem@.len() <= crate::MAX_PHYS_SIZE,
        phys + seg_page_count(s, j) * 4096 <= m3.len(),
        forall|p: int|
            0 <= p < seg_page_count(s, j) ==> #[trigger] walk_ok(
                m3.mem@,
                m3.len(),
                root,
                (seg_page_start(s, j) + p * 4096) as u64,
            ) && leaf_entry(m3.mem@, root, (seg_page_start(s, j) + p * 4096) as u64) == ((phys + p
                * 4096) as u64 | 0b110 | 1),
        forall|f: int|
            phys <= f < phys + seg_page_count(s, j) * 4096 && f % 4096 == 0
                ==> m3.data_frames@.contains(f),
    ensures
        forall|p: int|
            0 <= p < seg_page_count(s, j) ==> #[trigger] walk_ok(
                m3.mem@,
                m3.len(),
                root,
                (seg_page_start(s, j) + p * 4096) as u64,
            ),
        forall|p: int|
            0 <= p < seg_page_count(s, j) ==> {
                &&& is_present(
                    #[trigger] leaf_entry(m3.mem@, root, (seg_page_start(s, j) + p * 4096) as u64),
                )
                &&& leaf_entry(m3.mem@, root, (seg_page_start(s, j) + p * 4096) as u64) & 0b110
                    == 0b110
                &&& m3.data_frames@.contains(
                    entry_addr(
                        leaf_entry(m3.mem@, root, (seg_page_start(s, j) + p * 4096) as u64),
                    ) as int,
                )
                &&& entry_addr(leaf_entry(m3.mem@, root, (seg_page_start(s, j) + p * 4096) as u64))
                    == (phys + p * 4096) as u64
            },
{
    let start = seg_page_start(s, j);
    let count = seg_page_count(s, j);
    assert(0b110u64 & crate::paging::ENTRY_ADDR_MASK == 0 && 0b110u64 & 1 == 0) by (bit_vector);
    assert forall|p: int| 0 <= p < count implies {
        &&& is_present(#[trigger] leaf_entry(m3.mem@, root, (start + p * 4096) as u64))
        &&& leaf_entry(m3.mem@, root, (start + p * 4096) as u64) & 0b110 == 0b110
        &&& m3.data_frames@.contains(
            entry_addr(leaf_entry(m3.mem@, root, (start + p * 4096) as u64)) as int,
        )
        &&& entry_addr(leaf_entry(m3.mem@, root, (start + p * 4096) as u64)) == (phys + p
            * 4096) as u64
    } by {
        assert(walk_ok(m3.mem@, m3.len(), root, (seg_page_start(s, j) + p * 4096) as u64)
            && leaf_entry(m3.mem@, root, (seg_page_start(s, j) + p * 4096) as u64) == ((phys + p
            * 4096) as u64 | 0b110 | 1));
        let pap = (phys + p * 4096) as u64;
        assert(pap % 4096 == 0 && p * 4096 + 4096 <= count * 4096) by (nonlinear_arith)
            requires
                phys % 4096 == 0 && 0 <= p < count && pap == phys + p * 4096,
        ;
        crate::paging::lemma_entry_new(pap, 0b110);
        assert((pap | 0b110 | 1) & 0b110 == 0b110) by (bit_vector);
        assert(m3.data_frames@.contains(pap as int));
    }
}

/// Every byte of the mapped span reads through to the backing run.
#[verifier::spinoff_prover]
#[verifier::rlimit(100)]
proof fn lemma_span_reads_one(s: Seq<u8>, m3: Machine, root: int, j: int, phys: int, p: int, o: int)
    requires
        seg_active(s, j),
        ph_spec(s, j).vaddr + ph_spec(s, j).memsz < 0x80_0000_0000,
        phys % 4096 == 0,
        0 < phys,
        m3.mem@.len() <= crate::MAX_PHYS_SIZE,
        phys + seg_page_count(s, j) * 4096 <= m3.len(),
        walk_ok(m3.mem@, m3.len(), root, (seg_page_start(s, j) + p * 4096) as u64),
        entry_addr(leaf_entry(m3.mem@, root, (seg_page_start(s, j) + p * 4096) as u64)) == (phys
            + p * 4096) as u64,
        0 <= p < seg_page_count(s, j),
        0 <= o < 4096,
    ensures
        user_byte(m3.mem@, m3.len(), root, (seg_page_start(s, j) + p * 4096 + o) as u64) == Some(
            m3.mem@[phys + p * 4096 + o],
        ),
{
    let start = seg_page_start(s, j);
    let count = seg_page_count(s, j);
    lemma_page_of(ph_spec(s, j).vaddr as int);
    lemma_ceil_pages(ph_spec(s, j).vaddr - start + ph_spec(s, j).memsz, count);
    assert(p * 4096 + 4096 <= count * 4096) by (nonlinear_arith)
        requires
            0 <= p < count,
    ;
    let va = (start + p * 4096 + o) as u64;
    let page = (start + p * 4096) as u64;
    assert(page % 4096 == 0) by (nonlinear_arith)
        requires
            start % 4096 == 0 && 0 <= p && page == start + p * 4096,
    ;
    assert((va as int / 4096) * 4096 == page && va as int % 4096 == o) by {
        lemma_page_of(va as int);
        crate::paging::lemma_frame_base_of(page as int, va as int);
        assert(crate::machine::frame_base(va as int) == 4096 * (va as int / 4096));
    }
    assert(phys + p * 4096 + o < m3.len());
    assert(translate(m3.mem@, m3.len(), root, page) == Some((phys + p * 4096) as u64));
    assert(((va / 4096) * 4096) as u64 == page);
    assert((va % 4096) as int == o);
    assert(user_byte(m3.mem@, m3.len(), root, va) == Some(m3.mem@[phys + p * 4096 + o]));
}

/// With the span's pages mapped onto the run and the run holding the
/// segment image, every byte of the segment reads back: file bytes
/// exactly, the rest zero.
#[verifier::spinoff_prover]
#[verifier::rlimit(100)]
proof fn lemma_seg_install_bytes(s: Seq<u8>, m3: Machine, root: int, j: int, phys: int)
    requires
        0 <= j < u16_at(s, 56),
        seg_active(s, j),
        ph_spec(s, j).off + ph_spec(s, j).filesz <= s.len(),
        ph_spec(s, j).filesz <= ph_spec(s, j).memsz,
        ph_spec(s, j).vaddr + ph_spec(s, j).memsz < 0x80_0000_0000,
        phys % 4096 == 0,
        0 < phys,
        m3.mem@.len() <= crate::MAX_PHYS_SIZE,
        phys + seg_page_count(s, j) * 4096 <= m3.len(),
        forall|p: int, o: int|
            0 <= p < seg_page_count(s, j) && 0 <= o < 4096 ==> #[trigger] user_byte(
                m3.mem@,
                m3.len(),
                root,
                (seg_page_start(s, j) + p * 4096 + o) as u64,
            ) == Some(m3.mem@[phys + p * 4096 + o]),
        forall|a: int|
            phys <= a < phys + seg_page_count(s, j) * 4096 ==> #[trigger] m3.mem@[a] == (if phys
                + (ph_spec(s, j).vaddr - seg_page_start(s, j)) <= a < phys + (ph_spec(s, j).vaddr
                - seg_page_start(s, j)) + ph_spec(s, j).filesz {
                s[ph_spec(s, j).off + (a - (phys + (ph_spec(s, j).vaddr - seg_page_start(s, j))))]
            } else {
                0u8
            }),
    ensures
        forall|k: int|
            0 <= k < ph_spec(s, j).memsz ==> #[trigger] user_byte(
                m3.mem@,
                m3.len(),
                root,
                (ph_spec(s, j).vaddr + k) as u64,
            ) == Some(
                if k < ph_spec(s, j).filesz {
                    s[ph_spec(s, j).off + k]
                } else {
                    0u8
                },
            ),
{
    assert forall|k: int| 0 <= k < ph_spec(s, j).memsz implies #[trigger] user_byte(
        m3.mem@,
        m3.len(),
        root,
        (ph_spec(s, j).vaddr + k) as u64,
    ) == Some(
        if k < ph_spec(s, j).filesz {
            s[ph_spec(s, j).off + k]
        } else {
            0u8
        },
    ) by {
        lemma_seg_one_byte(s, m3, root, j, phys, k);
    }
}

/// One byte of an installed segment reads back correctly.
#[verifier::spinoff_prover]
#[verifier::rlimit(100)]
proof fn lemma_seg_one_byte(s: Seq<u8>, m3: Machine, root: int, j: int, phys: int, k: int)
    requires
        0 <= j < u16_at(s, 56),
        seg_active(s, j),
        ph_spec(s, j).off + ph_spec(s, j).filesz <= s.len(),
        ph_spec(s, j).filesz <= ph_spec(s, j).memsz,
        ph_spec(s, j).vaddr + ph_spec(s, j).memsz < 0x80_0000_0000,
        phys % 4096 == 0,
        0 < phys,
        m3.mem@.len() <= crate::MAX_PHYS_SIZE,
        phys + seg_page_count(s, j) * 4096 <= m3.len(),
        forall|p: int, o: int|
            0 <= p < seg_page_count(s, j) && 0 <= o < 4096 ==> #[trigger] user_byte(
                m3.mem@,
                m3.len(),
                root,
                (seg_page_start(s, j) + p * 4096 + o) as u64,
            ) == Some(m3.mem@[phys + p * 4096 + o]),
        forall|a: int|
            phys <= a < phys + seg_page_count(s, j) * 4096 ==> #[trigger] m3.mem@[a] == (if phys
                + (ph_spec(s, j).vaddr - seg_page_start(s, j)) <= a < phys + (ph_spec(s, j).vaddr
                - seg_page_start(s, j)) + ph_spec(s, j).filesz {
                s[ph_spec(s, j).off + (a - (phys + (ph_spec(s, j).vaddr - seg_page_start(s, j))))]
            } else {
                0u8
            }),
        0 <= k < ph_spec(s, j).memsz,
    ensures
        user_byte(m3.mem@, m3.len(), root, (ph_spec(s, j).vaddr + k) as u64) == Some(
            if k < ph_spec(s, j).filesz {
                s[ph_spec(s, j).off + k]
            } else {
                0u8
            },
        ),
{
    let ph = ph_spec(s, j);
    let start = seg_page_start(s, j);
    let count = seg_page_count(s, j);
    let pa0 = phys + (ph.vaddr - start);
    lemma_page_of(ph.vaddr as int);
    lemma_ceil_pages(ph.vaddr - start + ph.memsz, count);
    let va = (ph.vaddr + k) as u64;
    lemma_page_of(va as int);
    let page = ((va / 4096) * 4096) as u64;
    assert(start <= page) by {
        crate::machine::lemma_frame_base_le(start, va as int);
        assert(crate::machine::frame_base(va as int) == page);
    }
    let q = (page - start) / 4096;
    assert(page == start + q * 4096 && 0 <= q < count) by {
        assert(page == 4096 * (page as int / 4096));
        assert(page - start == 4096 * ((page - start) / 4096)) by (nonlinear_arith)
            requires
                page as int % 4096 == 0 && start % 4096 == 0 && start <= page,
        ;
        assert(page <= va < start + count * 4096);
        if q >= count {
            assert(page >= start + count * 4096) by (nonlinear_arith)
                requires
                    page == start + q * 4096 && q >= count,
            ;
        }
    }
    let paq = phys + q * 4096;
    assert(q * 4096 + 4096 <= count * 4096) by (nonlinear_arith)
        requires
            0 <= q < count,
    ;
    let off_in = va as int % 4096;
    let byte_addr = paq + off_in;
    assert(byte_addr == phys + (ph.vaddr - start) + k);
    assert(user_byte(m3.mem@, m3.len(), root, (start + q * 4096 + off_in) as u64) == Some(
        m3.mem@[phys + q * 4096 + off_in],
    ));
    assert(va == (start + q * 4096 + off_in) as u64);
    assert(phys <= byte_addr < phys + count * 4096);
    if k < ph.filesz {
        assert(pa0 <= byte_addr < pa0 + ph.filesz);
        assert(m3.mem@[byte_addr] == s[ph.off + k]);
    } else {
        assert(!(pa0 <= byte_addr < pa0 + ph.filesz));
        assert(m3.mem@[byte_addr] == 0u8);
    }
}

impl Machine {
    /// Backs, maps and fills one LOAD segment.
    #[verifier::spinoff_prover]
    #[verifier::rlimit(100)]
    fn back_and_map(&mut self, buffer: &Vec<u8>, root: u64, base: usize, j: Ghost<int>) -> (r: Result<
        u64,
        ELFError,
    >)
        requires
            old(self).wf(),
            old(self).tables@[0].contains(root as int),
            0 <= j@ < u16_at(buffer@, 56),
            base == ph_base(buffer@, j@),
            base + 56 <= buffer@.len(),
            buffer@.len() <= usize::MAX,
            seg_active(buffer@, j@),
            ph_spec(buffer@, j@).vaddr + ph_spec(buffer@, j@).memsz < 0x80_0000_0000,
        ensures
            final(self).wf(),
            final(self).kernel_table == old(self).kernel_table,
            final(self).active_table == old(self).active_table,
            final(self).mem@.len() == old(self).mem@.len(),
            final(self).alloc.limit == old(self).alloc.limit,
            final(self).tables@[0] == old(self).tables@[0],
            old(self).data_frames@.subset_of(final(self).data_frames@),
            walks_preserved(*old(self), *final(self)),
            data_pages_untouched(*old(self), *final(self)),
            free_shrunk(*old(self), *final(self)),
            r matches Ok(phys) ==> {
                let s = buffer@;
                let count = seg_page_count(s, j@);
                &&& phys % 4096 == 0
                &&& 0 < phys
                &&& phys + count * 4096 <= old(self).len()
                &&& span_pages_mapped(
                    *final(self),
                    root as int,
                    seg_page_start(s, j@),
                    count,
                    phys as int,
                    0b110,
                )
                &&& run_backed(*old(self), *final(self), phys as int, count)
            },
            r is Err ==> r == Err::<u64, ELFError>(ELFError::OutOfMemory) || r == Err::<
                u64,
                ELFError,
            >(ELFError::Overlap),
            r == Err::<u64, ELFError>(ELFError::Overlap) ==> exists|p: int|
                0 <= p < seg_page_count(buffer@, j@) && #[trigger] walk_ok(
                    final(self).mem@,
                    old(self).len(),
                    root as int,
                    (seg_page_start(buffer@, j@) + p * 4096) as u64,
                ),
            r == Err::<u64, ELFError>(ELFError::OutOfMemory) ==> !crate::allocator::has_fit(
                final(self).alloc.blocks@,
                seg_page_count(buffer@, j@),
            ),
    {
        let ghost mj = *self;
        let ghost s = buffer@;
        let vaddr = read_u64_at(buffer, base + 16);
        let memsz = read_u64_at(buffer, base + 40);
        let page_start = (vaddr / 4096) * 4096;
        let page_count = (vaddr - page_start + memsz + 4095) / 4096;
        proof {
            assert(vaddr == ph_spec(s, j@).vaddr && memsz == ph_spec(s, j@).memsz);
            assert(page_start == seg_page_start(s, j@) && page_count == seg_page_count(s, j@));
            lemma_page_of(vaddr as int);
            lemma_ceil_pages(vaddr - page_start + memsz, page_count as int);
            assert(page_count >= 1);
        }
        let phys = self.allocate_data_pages(page_count);
        if phys == 0 {
            proof {
                assert(walks_preserved(mj, mj)) by {
                    reveal(walks_preserved);
                }
                assert(data_pages_untouched(mj, mj)) by {
                    reveal(data_pages_untouched);
                }
                assert(free_shrunk(mj, mj)) by {
                    reveal(free_shrunk);
                }
                crate::paging::lemma_confinement_congruence(mj, mj, *self);
            }
            return Err(ELFError::OutOfMemory);
        }
        let ghost m1 = *self;
        let fall = Flags::all();
        proof {
            assert(0b110u64 & crate::paging::ENTRY_ADDR_MASK == 0 && 0b110u64 & 1 == 0)
                by (bit_vector);
        }
        let rspan = self.map_span(root, page_start, page_count, phys, fall);
        let ghost m2 = *self;
        proof {
            crate::paging::lemma_walks_preserved_trans(mj, m1, m2);
            crate::machine::lemma_data_pages_untouched_trans(mj, m1, m2);
            crate::machine::lemma_free_shrunk_trans(mj, m1, m2);
        }
        match rspan {
            Ok(_) => {},
            Err(e) => {
                return Err(e);
            },
        }
        proof {
            // the run is still zero after the span mapping, and still data
            assert(run_backed(mj, m2, phys as int, page_count as int)) by {
                reveal(run_backed);
                crate::machine::lemma_zero_run_preserved(
                    m1,
                    m2,
                    phys as int,
                    phys + page_count * 4096,
                );
                assert forall|f: int|
                    phys <= f < phys + page_count * 4096 && f % 4096
                        == 0 implies m2.data_frames@.contains(f) && !mj.data_frames@.contains(
                    f,
                ) by {
                    assert(m1.data_frames@.contains(f));
                }
            }
        }
        Ok(phys)
    }

    /// Backs, maps and fills one LOAD segment.
    #[verifier::spinoff_prover]
    #[verifier::rlimit(100)]
    fn install_segment(&mut self, buffer: &Vec<u8>, root: u64, base: usize, j: Ghost<int>) -> (r: Result<
        (),
        ELFError,
    >)
        requires
            old(self).wf(),
            old(self).tables@[0].contains(root as int),
            0 <= j@ < u16_at(buffer@, 56),
            base == ph_base(buffer@, j@),
            base + 56 <= buffer@.len(),
            buffer@.len() <= usize::MAX,
            seg_active(buffer@, j@),
            ph_spec(buffer@, j@).off + ph_spec(buffer@, j@).filesz <= buffer@.len(),
            ph_spec(buffer@, j@).filesz <= ph_spec(buffer@, j@).memsz,
            ph_spec(buffer@, j@).vaddr + ph_spec(buffer@, j@).memsz < 0x80_0000_0000,
        ensures
            final(self).wf(),
            final(self).kernel_table == old(self).kernel_table,
            final(self).active_table == old(self).active_table,
            final(self).mem@.len() == old(self).mem@.len(),
            final(self).alloc.limit == old(self).alloc.limit,
            final(self).tables@[0] == old(self).tables@[0],
            old(self).data_frames@.subset_of(final(self).data_frames@),
            walks_preserved(*old(self), *final(self)),
            data_pages_untouched(*old(self), *final(self)),
            free_shrunk(*old(self), *final(self)),
            r is Ok ==> seg_loaded(buffer@, *final(self), root as int, j@),
            r is Err ==> r == Err::<(), ELFError>(ELFError::OutOfMemory) || r == Err::<
                (),
                ELFError,
            >(ELFError::Overlap),
            r == Err::<(), ELFError>(ELFError::Overlap) ==> exists|p: int|
                0 <= p < seg_page_count(buffer@, j@) && #[trigger] walk_ok(
                    final(self).mem@,
                    old(self).len(),
                    root as int,
                    (seg_page_start(buffer@, j@) + p * 4096) as u64,
                ),
            r == Err::<(), ELFError>(ELFError::OutOfMemory) ==> !crate::allocator::has_fit(
                final(self).alloc.blocks@,
                seg_page_count(buffer@, j@),
            ),
    {
        let ghost mj = *self;
        let ghost s = buffer@;
        let off = read_u64_at(buffer, base + 8);
        let vaddr = read_u64_at(buffer, base + 16);
        let filesz = read_u64_at(buffer, base + 32);
        let page_start = (vaddr / 4096) * 4096;
        proof {
            assert(off == ph_spec(s, j@).off && vaddr == ph_spec(s, j@).vaddr && filesz == ph_spec(
                s,
                j@,
            ).filesz);
            assert(page_start == seg_page_start(s, j@));
        }
        let r1 = self.back_and_map(buffer, root, base, j);
        let phys = match r1 {
            Ok(p) => p,
            Err(e) => {
                return Err(e);
            },
        };
        let ghost m2 = *self;
        let ghost count = seg_page_count(s, j@);
        let page_count = {
            let memsz = read_u64_at(buffer, base + 40);
            proof {
                lemma_page_of(vaddr as int);
                lemma_ceil_pages(vaddr - page_start + memsz, count);
            }
            (vaddr - page_start + memsz + 4095) / 4096
        };
        let r2 = self.fill_segment(
            buffer,
            root,
            j,
            Ghost(mj),
            phys,
            vaddr,
            page_start,
            page_count,
            off,
            filesz,
        );
        let ghost m3 = *self;
        proof {
            assert forall|f: int|
                phys <= f < phys + count * 4096 && f % 4096 == 0 implies !mj.data_frames@.contains(
                f,
            ) by {
                reveal(run_backed);
                assert(m2.data_frames@.contains(f) && !mj.data_frames@.contains(f));
            }
            crate::machine::lemma_untouched_extend(mj, m2, m3, phys as int, phys + count * 4096);
            crate::paging::lemma_walks_preserved_trans(mj, m2, m3);
            assert(free_shrunk(mj, m3)) by {
                reveal(free_shrunk);
                assert(m3.alloc.blocks@ == m2.alloc.blocks@);
                assert forall|f: int| #[trigger] m3.free(f) implies mj.free(f) by {
                    assert(m3.free(f) == m2.free(f));
                }
            }
        }
        Ok(())
    }

    /// Copies the file bytes of segment `j` onto the freshly mapped,
    /// zeroed run and concludes that the whole segment reads back.
    #[verifier::spinoff_prover]
    #[verifier::rlimit(100)]
    fn fill_segment(
        &mut self,
        buffer: &Vec<u8>,
        root: u64,
        j: Ghost<int>,
        pre: Ghost<Machine>,
        phys: u64,
        vaddr: u64,
        page_start: u64,
        page_count: u64,
        off: u64,
        filesz: u64,
    ) -> (r: ())
        requires
            old(self).wf(),
            old(self).tables@[0].contains(root as int),
            0 <= j@ < u16_at(buffer@, 56),
            seg_active(buffer@, j@),
            buffer@.len() <= usize::MAX,
            ph_spec(buffer@, j@).off + ph_spec(buffer@, j@).filesz <= buffer@.len(),
            ph_spec(buffer@, j@).filesz <= ph_spec(buffer@, j@).memsz,
            ph_spec(buffer@, j@).vaddr + ph_spec(buffer@, j@).memsz < 0x80_0000_0000,
            off == ph_spec(buffer@, j@).off,
            vaddr == ph_spec(buffer@, j@).vaddr,
            filesz == ph_spec(buffer@, j@).filesz,
            page_start == seg_page_start(buffer@, j@),
            page_count == seg_page_count(buffer@, j@),
            phys % 4096 == 0,
            0 < phys,
            phys + page_count * 4096 <= old(self).len(),
            span_pages_mapped(
                *old(self),
                root as int,
                page_start as int,
                page_count as int,
                phys as int,
                0b110,
            ),
            run_backed(pre@, *old(self), phys as int, page_count as int),
        ensures
            final(self).wf(),
            final(self).kernel_table == old(self).kernel_table,
            final(self).active_table == old(self).active_table,
            final(self).mem@.len() == old(self).mem@.len(),
            final(self).alloc == old(self).alloc,
            final(self).tables@ == old(self).tables@,
            final(self).data_frames@ == old(self).data_frames@,
            walks_preserved(*old(self), *final(self)),
            forall|a: int|
                0 <= a < old(self).len() && final(self).mem@[a] != old(self).mem@[a] ==> phys
                    <= a < phys + page_count * 4096,
            seg_loaded(buffer@, *final(self), root as int, j@),
    {
        let ghost m2 = *old(self);
        let ghost s = buffer@;
        proof {
            lemma_page_of(vaddr as int);
            lemma_ceil_pages(vaddr - page_start + ph_spec(s, j@).memsz, page_count as int);
            reveal(span_pages_mapped);
            reveal(run_backed);
        }
        let pa0 = phys + (vaddr - page_start);
        proof {
            assert(filesz <= ph_spec(s, j@).memsz && vaddr - page_start + ph_spec(s, j@).memsz
                <= page_count * 4096);
            assert forall|a: int| pa0 <= a < pa0 + filesz implies m2.data_frames@.contains(
                #[trigger] crate::machine::frame_base(a),
            ) by {
                crate::machine::lemma_frame_base(a);
                crate::machine::lemma_frame_base_le(phys as int, a);
                let f = crate::machine::frame_base(a);
                assert(phys <= f < phys + page_count * 4096 && f % 4096 == 0);
            }
        }
        let nsz = filesz as usize;
        self.copy_into_data(pa0, buffer, off as usize, nsz);
        proof {
            let m3 = *self;
            assert(seg_loaded(s, m3, root as int, j@)) by {
                assert forall|p: int|
                    0 <= p < page_count implies #[trigger] walk_ok(
                    m3.mem@,
                    m3.len(),
                    root as int,
                    (page_start + p * 4096) as u64,
                ) && leaf_entry(m3.mem@, root as int, (page_start + p * 4096) as u64) == ((phys + p
                    * 4096) as u64 | 0b110 | 1) by {
                    reveal(walks_preserved);
                    assert(walk_ok(
                        m2.mem@,
                        m2.len(),
                        root as int,
                        (page_start + p * 4096) as u64,
                    ));
                }
                lemma_seg_install_pages_direct(s, m3, root as int, j@, phys as int);
                assert(seg_phys(s, m3, root as int, j@) == phys as int) by {
                    assert(entry_addr(
                        leaf_entry(
                            m3.mem@,
                            root as int,
                            (seg_page_start(s, j@) + 0 * 4096) as u64,
                        ),
                    ) == ((phys as int) + 0 * 4096) as u64);
                }
                assert(forall|p: int|
                    0 <= p < seg_page_count(s, j@) ==> #[trigger] entry_addr(
                        leaf_entry(m3.mem@, root as int, (seg_page_start(s, j@) + p * 4096) as u64),
                    ) == (seg_phys(s, m3, root as int, j@) + p * 4096) as u64);
                assert forall|p: int, o: int|
                    0 <= p < seg_page_count(s, j@) && 0 <= o < 4096 implies #[trigger] user_byte(
                    m3.mem@,
                    m3.len(),
                    root as int,
                    (seg_page_start(s, j@) + p * 4096 + o) as u64,
                ) == Some(m3.mem@[phys + p * 4096 + o]) by {
                    lemma_span_reads_one(s, m3, root as int, j@, phys as int, p, o);
                }
                assert forall|a: int|
                    phys <= a < phys + page_count * 4096 implies #[trigger] m3.mem@[a] == (if pa0
                        <= a < pa0 + filesz {
                        s[off + (a - pa0)]
                    } else {
                        0u8
                    }) by {
                    if !(pa0 <= a < pa0 + filesz) {
                        assert(m3.mem@[a] == m2.mem@[a]);
                    }
                }
                lemma_seg_install_bytes(s, m3, root as int, j@, phys as int);
            }
        }
    }
}


/// Installs every LOAD segment of `buffer` into the address space rooted
/// at `root` and returns the image's entry address. On success the kernel
/// address space is active again, as the boot path expects.
#[verifier::spinoff_prover]
#[verifier::rlimit(100)]
pub fn load_program(machine: &mut Machine, buffer: &Vec<u8>, root: u64) -> (r: Result<
    u64,
    ELFError,
>)
    requires
        old(machine).wf(),
        old(machine).tables@[0].contains(root as int),
        load_error(buffer@) is None ==> segs_sane(buffer@),
    ensures
        final(machine).wf(),
        final(machine).kernel_table == old(machine).kernel_table,
        final(machine).mem@.len() == old(machine).mem@.len(),
        final(machine).alloc.limit == old(machine).alloc.limit,
        final(machine).tables@[0] == old(machine).tables@[0],
        old(machine).data_frames@.subset_of(final(machine).data_frames@),
        walks_preserved(*old(machine), *final(machine)),
        data_pages_untouched(*old(machine), *final(machine)),
        free_shrunk(*old(machine), *final(machine)),
        match load_error(buffer@) {
            Some(e) => r == Err::<u64, ELFError>(e),
            None => r is Ok || r == Err::<u64, ELFError>(ELFError::OutOfMemory) || r == Err::<
                u64,
                ELFError,
            >(ELFError::Overlap),
        },
        load_error(buffer@) is Some ==> crate::machine::unchanged_machine(
            *old(machine),
            *final(machine),
        ),
        r == Err::<u64, ELFError>(ELFError::Overlap) ==> exists|j: int, p: int|
            0 <= j < u16_at(buffer@, 56) && seg_active(buffer@, j) && 0 <= p < seg_page_count(
                buffer@,
                j,
            ) && #[trigger] walk_ok(
                final(machine).mem@,
                old(machine).len(),
                root as int,
                (seg_page_start(buffer@, j) + p * 4096) as u64,
            ),
        r == Err::<u64, ELFError>(ELFError::OutOfMemory) ==> exists|j: int|
            0 <= j < u16_at(buffer@, 56) && #[trigger] seg_active(buffer@, j)
                && !crate::allocator::has_fit(
                final(machine).alloc.blocks@,
                seg_page_count(buffer@, j),
            ),
        r is Err ==> final(machine).active_table == old(machine).active_table,
        r is Ok ==> final(machine).active_table == old(machine).kernel_table,
        r matches Ok(entry) ==> entry == u64_at(buffer@, 24) && loaded(
            buffer@,
            *final(machine),
            root as int,
        ),
{
    let ghost m0 = *machine;
    let ghost s = buffer@;
    proof {
        assert(walks_preserved(m0, m0)) by {
            reveal(walks_preserved);
        }
        assert(data_pages_untouched(m0, m0)) by {
            reveal(data_pages_untouched);
        }
        assert(free_shrunk(m0, m0)) by {
            reveal(free_shrunk);
        }
    }
    let header = match parse_header(buffer) {
        Ok(h) => h,
        Err(e) => {
            return Err(e);
        },
    };
    let n = buffer.len();
    if header.phnum > 0 {
        if header.phentsize < 56 {
            return Err(ELFError::Missing);
        }
        proof {
            assert((header.phnum as u64) * (header.phentsize as u64) <= 0xffff * 0xffff)
                by (nonlinear_arith)
                requires
                    header.phnum <= 0xffff && header.phentsize <= 0xffff,
            ;
        }
        let table_bytes = (header.phnum as u64) * (header.phentsize as u64);
        if header.program_header_offset > n as u64 || table_bytes > n as u64
            - header.program_header_offset {
            return Err(ELFError::Missing);
        }
    }
    proof {
        assert(load_error(s) is None);
    }
    let phnum = header.phnum as usize;
    let mut j: usize = 0;
    while j < phnum
        invariant
            m0 == *old(machine),
            j <= phnum,
            machine.wf(),
            m0.wf(),
            machine.kernel_table == m0.kernel_table,
            machine.active_table == m0.active_table,
            machine.mem@.len() == m0.mem@.len(),
            machine.alloc.limit == m0.alloc.limit,
            machine.tables@[0] == m0.tables@[0],
            m0.data_frames@.subset_of(machine.data_frames@),
            walks_preserved(m0, *machine),
            data_pages_untouched(m0, *machine),
            free_shrunk(m0, *machine),
            m0.tables@[0].contains(root as int),
            s == buffer@,
            load_error(s) is None,
            segs_sane(s),
            phnum == u16_at(s, 56),
            header == header_spec(s),
            buffer@.len() <= usize::MAX,
            n == buffer@.len(),
            forall|jj: int|
                0 <= jj < j && #[trigger] seg_active(s, jj) ==> seg_loaded(
                    s,
                    *machine,
                    root as int,
                    jj,
                ),
        decreases phnum - j,
    {
        let ghost mj = *machine;
        proof {
            assert((j as u64) * (header.phentsize as u64) + 56 <= (header.phnum as u64) * (
            header.phentsize as u64)) by (nonlinear_arith)
                requires
                    0 <= j < header.phnum && header.phentsize >= 56,
            ;
            assert((header.phnum as u64) * (header.phentsize as u64) <= 0xffff * 0xffff)
                by (nonlinear_arith)
                requires
                    header.phnum <= 0xffff && header.phentsize <= 0xffff,
            ;
        }
        let base64 = header.program_header_offset + (j as u64) * (header.phentsize as u64);
        proof {
            assert(base64 + 56 <= n);
            assert(base64 == ph_base(s, j as int));
        }
        let base = base64 as usize;
        let seg_type = read_u32_at(buffer, base);
        let memsz = read_u64_at(buffer, base + 40);
        if seg_type == 1 && memsz > 0 {
            proof {
                assert(seg_active(s, j as int));
            }
            let r = machine.install_segment(buffer, root, base, Ghost(j as int));
            let ghost mend = *machine;
            proof {
                crate::paging::lemma_walks_preserved_trans(m0, mj, mend);
                crate::machine::lemma_data_pages_untouched_trans(m0, mj, mend);
                crate::machine::lemma_free_shrunk_trans(m0, mj, mend);
                assert forall|jj: int|
                    0 <= jj < j && #[trigger] seg_active(s, jj) implies seg_loaded(
                    s,
                    mend,
                    root as int,
                    jj,
                ) by {
                    lemma_seg_loaded_preserved(mj, mend, s, root as int, jj);
                }
            }
            match r {
                Ok(_) => {},
                Err(e) => {
                    return Err(e);
                },
            }
        }
        j = j + 1;
    }
    let ghost mend = *machine;
    machine.activate_kernel_table();
    proof {
        crate::paging::lemma_confinement_congruence(m0, mend, *machine);
        assert forall|jj: int|
            0 <= jj < phnum && #[trigger] seg_active(s, jj) implies seg_loaded(
            s,
            *machine,
            root as int,
            jj,
        ) by {
            assert(seg_loaded(s, mend, root as int, jj));
            assert(machine.mem@ == mend.mem@ && machine.data_frames@ == mend.data_frames@);
        }
    }
    Ok(header.entry_addr)
}




/// Checks the segment numbers of a validated image: an executable mirror
/// of the sanity condition the loader's contract assumes, for callers
/// that receive images from outside.
#[verifier::spinoff_prover]
#[verifier::rlimit(100)]
pub fn segments_sane(buffer: &Vec<u8>) -> (r: bool)
    ensures
        load_error(buffer@) is None ==> r == segs_sane(buffer@),
{
    let header = match parse_header(buffer) {
        Ok(h) => h,
        Err(_) => {
            return false;
        },
    };
    let n = buffer.len();
    if header.phnum > 0 {
        if header.phentsize < 56 {
            return false;
        }
        proof {
            assert((header.phnum as u64) * (header.phentsize as u64) <= 0xffff * 0xffff)
                by (nonlinear_arith)
                requires
                    header.phnum <= 0xffff && header.phentsize <= 0xffff,
            ;
        }
        let table_bytes = (header.phnum as u64) * (header.phentsize as u64);
        if header.program_header_offset > n as u64 || table_bytes > n as u64
            - header.program_header_offset {
            return false;
        }
    }
    let ghost s = buffer@;
    proof {
        assert(load_error(s) is None);
    }
    let phnum = header.phnum as usize;
    let mut j: usize = 0;
    while j < phnum
        invariant
            j <= phnum,
            s == buffer@,
            load_error(s) is None,
            phnum == u16_at(s, 56),
            header == header_spec(s),
            buffer@.len() <= usize::MAX,
            n == buffer@.len(),
            forall|jj: int|
                0 <= jj < j && #[trigger] seg_active(s, jj) ==> {
                    &&& ph_spec(s, jj).off + ph_spec(s, jj).filesz <= s.len()
                    &&& ph_spec(s, jj).filesz <= ph_spec(s, jj).memsz
                    &&& ph_spec(s, jj).vaddr + ph_spec(s, jj).memsz < 0x80_0000_0000
                },
        decreases phnum - j,
    {
        proof {
            assert((j as u64) * (header.phentsize as u64) + 56 <= (header.phnum as u64) * (
            header.phentsize as u64)) by (nonlinear_arith)
                requires
                    0 <= j < header.phnum && header.phentsize >= 56,
            ;
            assert((header.phnum as u64) * (header.phentsize as u64) <= 0xffff * 0xffff)
                by (nonlinear_arith)
                requires
                    header.phnum <= 0xffff && header.phentsize <= 0xffff,
            ;
        }
        let base64 = header.program_header_offset + (j as u64) * (header.phentsize as u64);
        proof {
            assert(base64 + 56 <= n);
            assert(base64 == ph_base(s, j as int));
        }
        let base = base64 as usize;
        let seg_type = read_u32_at(buffer, base);
        let memsz = read_u64_at(buffer, base + 40);
        if seg_type == 1 && memsz > 0 {
            let off = read_u64_at(buffer, base + 8);
            let vaddr = read_u64_at(buffer, base + 16);
            let filesz = read_u64_at(buffer, base + 32);
            proof {
                assert(seg_active(s, j as int));
                assert(off == ph_spec(s, j as int).off && vaddr == ph_spec(s, j as int).vaddr
                    && filesz == ph_spec(s, j as int).filesz && memsz == ph_spec(
                    s,
                    j as int,
                ).memsz);
            }
            if filesz > n as u64 || off > n as u64 - filesz {
                return false;
            }
            if filesz > memsz {
                return false;
            }
            if vaddr >= 0x80_0000_0000 || memsz >= 0x80_0000_0000 || vaddr + memsz
                >= 0x80_0000_0000 {
                return false;
            }
        }
        j = j + 1;
    }
    true
}

/// Loader idempotence on re-parse: installing the same image into two
/// address spaces, wherever the frames came from, gives segments that
/// read back byte-for-byte identically — both equal the same function of
/// the image.
pub proof fn lemma_load_deterministic(
    s: Seq<u8>,
    m1: Machine,
    root1: int,
    m2: Machine,
    root2: int,
)
    requires
        loaded(s, m1, root1),
        loaded(s, m2, root2),
    ensures
        forall|j: int, k: int|
            0 <= j < u16_at(s, 56) && seg_active(s, j) && 0 <= k < ph_spec(s, j).memsz
                ==> #[trigger] user_byte(m1.mem@, m1.len(), root1, (ph_spec(s, j).vaddr + k) as u64)
                == user_byte(m2.mem@, m2.len(), root2, (ph_spec(s, j).vaddr + k) as u64),
{
    assert forall|j: int, k: int|
        0 <= j < u16_at(s, 56) && seg_active(s, j) && 0 <= k < ph_spec(
            s,
            j,
        ).memsz implies #[trigger] user_byte(
        m1.mem@,
        m1.len(),
        root1,
        (ph_spec(s, j).vaddr + k) as u64,
    ) == user_byte(m2.mem@, m2.len(), root2, (ph_spec(s, j).vaddr + k) as u64) by {
        assert(seg_loaded(s, m1, root1, j) && seg_loaded(s, m2, root2, j));
        assert(user_byte(m1.mem@, m1.len(), root1, (ph_spec(s, j).vaddr + k) as u64) == Some(
            if k < ph_spec(s, j).filesz {
                s[ph_spec(s, j).off + k]
            } else {
                0u8
            },
        ));
        assert(user_byte(m2.mem@, m2.len(), root2, (ph_spec(s, j).vaddr + k) as u64) == Some(
            if k < ph_spec(s, j).filesz {
                s[ph_spec(s, j).off + k]
            } else {
                0u8
            },
        ));
    }
}

} // verus!
