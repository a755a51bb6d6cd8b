//! Four-level page tables stored inside the simulated physical memory, and
//! the virtual kernel heap built on top of them.
//!
//! A table is 512 entries of eight little-endian bytes at a 4096-aligned
//! physical base. An entry carries present (bit 0), writable (bit 1),
//! user-accessible (bit 2) and no-execute (bit 63) flags and the physical
//! frame base in bits 12..=51.
use vstd::prelude::*;

use crate::machine::{
    frame_in_mem, lemma_changes_confined_to_frames, unchanged_machine, Machine,
};
use crate::allocator::{free_count, has_fit};
use crate::mem::word_at;

verus! {

/// Bits 12..=51 of an entry: the physical frame base it references.
pub const ENTRY_ADDR_MASK: u64 = 0x000F_FFFF_FFFF_F000;

/// Page-table entry flag bits, combined as a set.
#[derive(Clone, Copy, PartialEq, Eq, Structural)]
pub struct Flags(pub u64);

impl Flags {
    /// No flag bits.
    pub open spec fn none_spec() -> Flags {
        Flags(0)
    }

    pub fn none() -> (r: Flags)
        ensures
            r == Flags::none_spec(),
    {
        Flags(0)
    }

    /// Writable together with user-accessible.
    pub fn all() -> (r: Flags)
        ensures
            r.0 == 0b110,
    {
        Flags(0b110)
    }

    pub fn write() -> (r: Flags)
        ensures
            r.0 == 0b10,
    {
        Flags(0b10)
    }

    pub fn user() -> (r: Flags)
        ensures
            r.0 == 0b100,
    {
        Flags(0b100)
    }

    /// Flag words the mapper accepts: no overlap with the address bits and
    /// no present bit of their own.
    pub open spec fn wf(self) -> bool {
        self.0 & ENTRY_ADDR_MASK == 0 && self.0 & 1 == 0
    }
}

/// The entry stored at index `i` of the table based at `t`.
pub open spec fn entry_at(mem: Seq<u8>, t: int, i: int) -> u64 {
    word_at(mem, t + 8 * i)
}

pub open spec fn is_present(e: u64) -> bool {
    e & 1 == 1
}

pub open spec fn entry_addr(e: u64) -> u64 {
    e & ENTRY_ADDR_MASK
}

/// Bit 63 clear means the mapping may be executed.
pub open spec fn is_executable(e: u64) -> bool {
    (e >> 63) & 1 == 0
}

/// A 64-bit page-table entry.
#[derive(Clone, Copy, PartialEq, Eq, Structural)]
pub struct Entry(pub u64);

impl Entry {
    pub fn empty() -> (r: Entry)
        ensures
            r.0 == 0,
    {
        Entry(0)
    }

    /// An entry referencing the table or frame at `address`, with `flags`
    /// and the present bit set.
    pub fn new(address: u64, flags: Flags) -> (r: Entry)
        requires
            address % 4096 == 0,
            address < 0x10_0000_0000_0000,
            flags.wf(),
        ensures
            r.0 == address | flags.0 | 1,
            is_present(r.0),
            entry_addr(r.0) == address,
    {
        proof {
            lemma_entry_new(address, flags.0);
        }
        Entry(address | flags.0 | 1)
    }

    pub fn address(&self) -> (r: u64)
        ensures
            r == entry_addr(self.0),
    {
        self.0 & ENTRY_ADDR_MASK
    }

    pub fn is_present(&self) -> (r: bool)
        ensures
            r == is_present(self.0),
    {
        self.0 & 1 == 1
    }

    pub fn set_flags(&mut self, flags: Flags)
        ensures
            final(self).0 == old(self).0 | flags.0,
    {
        self.0 = self.0 | flags.0;
    }

    pub fn is_executable(&self) -> (r: bool)
        ensures
            r == is_executable(self.0),
    {
        (self.0 >> 63) & 1 == 0
    }
}

/// A fresh entry keeps its address and is present.
pub proof fn lemma_entry_new(address: u64, f: u64)
    requires
        address % 4096 == 0,
        address < 0x10_0000_0000_0000,
        f & ENTRY_ADDR_MASK == 0,
        f & 1 == 0,
    ensures
        entry_addr(address | f | 1) == address,
        is_present(address | f | 1),
{
    assert((address | f | 1) & ENTRY_ADDR_MASK == address && (address | f | 1) & 1 == 1)
        by (bit_vector)
        requires
            address % 4096 == 0,
            address < 0x10_0000_0000_0000,
            f & ENTRY_ADDR_MASK == 0,
            f & 1 == 0,
    ;
}

/// Or-ing well-formed flag bits into an entry changes neither the address
/// nor the present bit.
pub proof fn lemma_entry_or_flags(e: u64, f: u64)
    requires
        f & ENTRY_ADDR_MASK == 0,
        f & 1 == 0,
    ensures
        entry_addr(e | f) == entry_addr(e),
        is_present(e | f) == is_present(e),
{
    assert((e | f) & ENTRY_ADDR_MASK == e & ENTRY_ADDR_MASK && ((e | f) & 1 == 1) == (e & 1 == 1))
        by (bit_vector)
        requires
            f & ENTRY_ADDR_MASK == 0,
            f & 1 == 0,
    ;
}

/// The address field of any entry is aligned and fits the physical range.
pub proof fn lemma_entry_addr_range(e: u64)
    ensures
        entry_addr(e) % 4096 == 0,
        entry_addr(e) < 0x10_0000_0000_0000,
{
    assert((e & ENTRY_ADDR_MASK) % 4096 == 0 && (e & ENTRY_ADDR_MASK) < 0x10_0000_0000_0000)
        by (bit_vector);
}

/// The zero entry is absent.
pub proof fn lemma_zero_absent()
    ensures
        !is_present(0),
{
    assert(0u64 & 1 == 0) by (bit_vector);
}

/// The table index a virtual address selects at level `l` of the walk.
pub open spec fn level_index(va: u64, l: int) -> int {
    if l == 0 {
        ((va >> 39) & 0x1ff) as int
    } else if l == 1 {
        ((va >> 30) & 0x1ff) as int
    } else if l == 2 {
        ((va >> 21) & 0x1ff) as int
    } else {
        ((va >> 12) & 0x1ff) as int
    }
}

pub proof fn lemma_level_index_bound(va: u64)
    ensures
        forall|l: int| 0 <= #[trigger] level_index(va, l) < 512,
{
    assert((va >> 39) & 0x1ff < 512) by (bit_vector);
    assert((va >> 30) & 0x1ff < 512) by (bit_vector);
    assert((va >> 21) & 0x1ff < 512) by (bit_vector);
    assert((va >> 12) & 0x1ff < 512) by (bit_vector);
}

/// The four indices a virtual address selects, highest level first.
pub fn table_indies(address: u64) -> (r: [usize; 4])
    ensures
        forall|l: int| 0 <= l < 4 ==> r@[l] == level_index(address, l),
        forall|l: int| 0 <= l < 4 ==> r@[l] < 512,
{
    proof {
        lemma_level_index_bound(address);
    }
    let i0 = ((address >> 39) & 0x1ff) as usize;
    let i1 = ((address >> 30) & 0x1ff) as usize;
    let i2 = ((address >> 21) & 0x1ff) as usize;
    let i3 = ((address >> 12) & 0x1ff) as usize;
    let r = [i0, i1, i2, i3];
    proof {
        assert(r@ =~= seq![i0, i1, i2, i3]);
        assert(i0 == level_index(address, 0) && i0 < 512);
        assert(i1 == level_index(address, 1) && i1 < 512);
        assert(i2 == level_index(address, 2) && i2 < 512);
        assert(i3 == level_index(address, 3) && i3 < 512);
    }
    r
}

/// The entry the walk reads at level 0 (inside the top-level table).
pub open spec fn walk_e0(mem: Seq<u8>, root: int, va: u64) -> u64 {
    entry_at(mem, root, level_index(va, 0))
}

/// The level-1 table the walk enters.
pub open spec fn walk_t1(mem: Seq<u8>, root: int, va: u64) -> int {
    entry_addr(walk_e0(mem, root, va)) as int
}

pub open spec fn walk_e1(mem: Seq<u8>, root: int, va: u64) -> u64 {
    entry_at(mem, walk_t1(mem, root, va), level_index(va, 1))
}

pub open spec fn walk_t2(mem: Seq<u8>, root: int, va: u64) -> int {
    entry_addr(walk_e1(mem, root, va)) as int
}

pub open spec fn walk_e2(mem: Seq<u8>, root: int, va: u64) -> u64 {
    entry_at(mem, walk_t2(mem, root, va), level_index(va, 2))
}

pub open spec fn walk_t3(mem: Seq<u8>, root: int, va: u64) -> int {
    entry_addr(walk_e2(mem, root, va)) as int
}

/// The leaf entry of the walk.
pub open spec fn leaf_entry(mem: Seq<u8>, root: int, va: u64) -> u64 {
    entry_at(mem, walk_t3(mem, root, va), level_index(va, 3))
}

/// The walk from `root` reaches a present leaf for `va`, every table it
/// passes lying inside a memory of `len` bytes.
pub open spec fn walk_ok(mem: Seq<u8>, len: int, root: int, va: u64) -> bool {
    &&& frame_in_mem(root, len)
    &&& is_present(walk_e0(mem, root, va))
    &&& frame_in_mem(walk_t1(mem, root, va), len)
    &&& is_present(walk_e1(mem, root, va))
    &&& frame_in_mem(walk_t2(mem, root, va), len)
    &&& is_present(walk_e2(mem, root, va))
    &&& frame_in_mem(walk_t3(mem, root, va), len)
    &&& is_present(leaf_entry(mem, root, va))
}

/// The physical frame `va` translates to, when the walk reaches a present leaf.
pub open spec fn translate(mem: Seq<u8>, len: int, root: int, va: u64) -> Option<u64> {
    if walk_ok(mem, len, root, va) {
        Some(entry_addr(leaf_entry(mem, root, va)))
    } else {
        None
    }
}

/// Distinct slots of aligned tables occupy disjoint byte ranges.
pub proof fn lemma_slot_disjoint(t1: int, i1: int, t2: int, i2: int, a: int)
    requires
        t1 % 4096 == 0,
        t2 % 4096 == 0,
        0 <= t1,
        0 <= t2,
        0 <= i1 < 512,
        0 <= i2 < 512,
        t1 != t2 || i1 != i2,
        t1 + 8 * i1 <= a < t1 + 8 * i1 + 8,
    ensures
        !(t2 + 8 * i2 <= a < t2 + 8 * i2 + 8),
{
    if t1 == t2 {
    } else {
        crate::machine::lemma_frames_disjoint(t1, t2, a);
    }
}

/// An entry is unchanged when memory changes only inside one other slot.
pub proof fn lemma_entry_after_slot_write(m1: Seq<u8>, m2: Seq<u8>, wt: int, wi: int, t: int, i: int)
    requires
        m1.len() == m2.len(),
        wt % 4096 == 0,
        t % 4096 == 0,
        0 <= wt,
        0 <= t,
        0 <= wi < 512,
        0 <= i < 512,
        t != wt || i != wi,
        forall|a: int|
            0 <= a < m1.len() && !(wt + 8 * wi <= a < wt + 8 * wi + 8) ==> m2[a] == m1[a],
        t + 8 * i + 8 <= m1.len(),
    ensures
        entry_at(m2, t, i) == entry_at(m1, t, i),
{
    assert forall|a: int| t + 8 * i <= a < t + 8 * i + 8 implies m1[a] == m2[a] by {
        lemma_slot_disjoint(t, i, wt, wi, a);
    }
    crate::mem::lemma_word_at_frame(m1, m2, t + 8 * i);
}

/// Writing into a slot that held an absent entry leaves every present walk
/// exactly as it was: such a walk never reads the written slot.
pub proof fn lemma_walks_preserved_absent_write(m1: Seq<u8>, m2: Seq<u8>, wt: int, wi: int)
    requires
        m1.len() == m2.len(),
        wt % 4096 == 0,
        0 <= wt,
        0 <= wi < 512,
        !is_present(entry_at(m1, wt, wi)),
        forall|a: int|
            0 <= a < m1.len() && !(wt + 8 * wi <= a < wt + 8 * wi + 8) ==> m2[a] == m1[a],
    ensures
        forall|root: int, va: u64|
            #[trigger] walk_ok(m1, m1.len() as int, root, va) ==> walk_ok(
                m2,
                m1.len() as int,
                root,
                va,
            ) && leaf_entry(m2, root, va) == leaf_entry(m1, root, va),
{
    let len = m1.len() as int;
    assert forall|root: int, va: u64| #[trigger] walk_ok(m1, len, root, va) implies walk_ok(
        m2,
        len,
        root,
        va,
    ) && leaf_entry(m2, root, va) == leaf_entry(m1, root, va) by {
        lemma_level_index_bound(va);
        let i0 = level_index(va, 0);
        let i1 = level_index(va, 1);
        let i2 = level_index(va, 2);
        let i3 = level_index(va, 3);
        assert(entry_at(m2, root, i0) == entry_at(m1, root, i0)) by {
            lemma_entry_after_slot_write(m1, m2, wt, wi, root, i0);
        }
        let t1 = walk_t1(m1, root, va);
        assert(walk_t1(m2, root, va) == t1);
        assert(entry_at(m2, t1, i1) == entry_at(m1, t1, i1)) by {
            lemma_entry_after_slot_write(m1, m2, wt, wi, t1, i1);
        }
        let t2 = walk_t2(m1, root, va);
        assert(walk_t2(m2, root, va) == t2);
        assert(entry_at(m2, t2, i2) == entry_at(m1, t2, i2)) by {
            lemma_entry_after_slot_write(m1, m2, wt, wi, t2, i2);
        }
        let t3 = walk_t3(m1, root, va);
        assert(walk_t3(m2, root, va) == t3);
        assert(entry_at(m2, t3, i3) == entry_at(m1, t3, i3)) by {
            lemma_entry_after_slot_write(m1, m2, wt, wi, t3, i3);
        }
    }
}

/// Or-ing flag bits into one slot keeps every present walk present, with
/// the same leaf address; the leaf entry itself is at most flag-widened.
pub proof fn lemma_walks_preserved_or_flags(m1: Seq<u8>, m2: Seq<u8>, wt: int, wi: int, f: u64)
    requires
        m1.len() == m2.len(),
        wt % 4096 == 0,
        0 <= wt,
        0 <= wi < 512,
        f & ENTRY_ADDR_MASK == 0,
        f & 1 == 0,
        entry_at(m2, wt, wi) == entry_at(m1, wt, wi) | f,
        forall|a: int|
            0 <= a < m1.len() && !(wt + 8 * wi <= a < wt + 8 * wi + 8) ==> m2[a] == m1[a],
    ensures
        forall|root: int, va: u64|
            #[trigger] walk_ok(m1, m1.len() as int, root, va) ==> walk_ok(
                m2,
                m1.len() as int,
                root,
                va,
            ) && entry_addr(leaf_entry(m2, root, va)) == entry_addr(leaf_entry(m1, root, va)) && (
            leaf_entry(m2, root, va) == leaf_entry(m1, root, va) || leaf_entry(m2, root, va)
                == leaf_entry(m1, root, va) | f) && walk_t3(m2, root, va) == walk_t3(
                m1,
                root,
                va,
            ),
{
    let len = m1.len() as int;
    assert forall|root: int, va: u64| #[trigger] walk_ok(m1, len, root, va) implies walk_ok(
        m2,
        len,
        root,
        va,
    ) && entry_addr(leaf_entry(m2, root, va)) == entry_addr(leaf_entry(m1, root, va)) && (
    leaf_entry(m2, root, va) == leaf_entry(m1, root, va) || leaf_entry(m2, root, va) == leaf_entry(
        m1,
        root,
        va,
    ) | f) && walk_t3(m2, root, va) == walk_t3(m1, root, va) by {
        lemma_level_index_bound(va);
        lemma_entry_or_flags(entry_at(m1, wt, wi), f);
        let i0 = level_index(va, 0);
        let i1 = level_index(va, 1);
        let i2 = level_index(va, 2);
        let i3 = level_index(va, 3);
        assert(is_present(entry_at(m2, root, i0)) && entry_addr(entry_at(m2, root, i0))
            == entry_addr(entry_at(m1, root, i0))) by {
            if root != wt || i0 != wi {
                lemma_entry_after_slot_write(m1, m2, wt, wi, root, i0);
            }
        }
        let t1 = walk_t1(m1, root, va);
        assert(walk_t1(m2, root, va) == t1);
        assert(is_present(entry_at(m2, t1, i1)) && entry_addr(entry_at(m2, t1, i1)) == entry_addr(
            entry_at(m1, t1, i1),
        )) by {
            if t1 != wt || i1 != wi {
                lemma_entry_after_slot_write(m1, m2, wt, wi, t1, i1);
            }
        }
        let t2 = walk_t2(m1, root, va);
        assert(walk_t2(m2, root, va) == t2);
        assert(is_present(entry_at(m2, t2, i2)) && entry_addr(entry_at(m2, t2, i2)) == entry_addr(
            entry_at(m1, t2, i2),
        )) by {
            if t2 != wt || i2 != wi {
                lemma_entry_after_slot_write(m1, m2, wt, wi, t2, i2);
            }
        }
        let t3 = walk_t3(m1, root, va);
        assert(walk_t3(m2, root, va) == t3);
        assert(is_present(entry_at(m2, t3, i3)) && entry_addr(entry_at(m2, t3, i3)) == entry_addr(
            entry_at(m1, t3, i3),
        ) && (entry_at(m2, t3, i3) == entry_at(m1, t3, i3) || entry_at(m2, t3, i3) == entry_at(
            m1,
            t3,
            i3,
        ) | f)) by {
            if t3 != wt || i3 != wi {
                lemma_entry_after_slot_write(m1, m2, wt, wi, t3, i3);
            }
        }
    }
}

/// A walk that succeeds from a tracked root passes through tracked tables
/// only, one per level.
pub proof fn lemma_walk_tables_tracked(m: Machine, root: int, va: u64)
    requires
        m.wf(),
        m.tables@[0].contains(root),
        walk_ok(m.mem@, m.len(), root, va),
    ensures
        m.tables@[1].contains(walk_t1(m.mem@, root, va)),
        m.tables@[2].contains(walk_t2(m.mem@, root, va)),
        m.tables@[3].contains(walk_t3(m.mem@, root, va)),
{
    lemma_level_index_bound(va);
    assert(m.tables@[1].contains(walk_t1(m.mem@, root, va))) by {
        assert(is_present(entry_at(m.mem@, root, level_index(va, 0))));
    }
    assert(m.tables@[2].contains(walk_t2(m.mem@, root, va))) by {
        assert(is_present(entry_at(m.mem@, walk_t1(m.mem@, root, va), level_index(va, 1))));
    }
    assert(m.tables@[3].contains(walk_t3(m.mem@, root, va))) by {
        assert(is_present(entry_at(m.mem@, walk_t2(m.mem@, root, va), level_index(va, 2))));
    }
}

/// Memory changes confined to frames that serve as no table leave every
/// present walk from a tracked root untouched.
pub proof fn lemma_walks_preserved_data_change(pre: Machine, post: Machine)
    requires
        pre.wf(),
        post.tables@ == pre.tables@,
        post.mem@.len() == pre.mem@.len(),
        forall|a: int|
            0 <= a < pre.mem@.len() && pre.mem@[a] != #[trigger] post.mem@[a] ==> exists|f: int|
                #[trigger] frame_in_mem(f, pre.len()) && f <= a < f + 4096 && !pre.any_table(f),
    ensures
        forall|root: int, va: u64|
            pre.tables@[0].contains(root) && #[trigger] walk_ok(pre.mem@, pre.len(), root, va)
                ==> walk_ok(post.mem@, pre.len(), root, va) && leaf_entry(post.mem@, root, va)
                == leaf_entry(pre.mem@, root, va),
{
    crate::machine::lemma_all_tables_preserved(pre, post);
    assert forall|root: int, va: u64|
        pre.tables@[0].contains(root) && #[trigger] walk_ok(
            pre.mem@,
            pre.len(),
            root,
            va,
        ) implies walk_ok(post.mem@, pre.len(), root, va) && leaf_entry(post.mem@, root, va)
        == leaf_entry(pre.mem@, root, va) by {
        lemma_level_index_bound(va);
        lemma_walk_tables_tracked(pre, root, va);
        let t1 = walk_t1(pre.mem@, root, va);
        let t2 = walk_t2(pre.mem@, root, va);
        let t3 = walk_t3(pre.mem@, root, va);
        assert(entry_at(post.mem@, root, level_index(va, 0)) == entry_at(
            pre.mem@,
            root,
            level_index(va, 0),
        ));
        assert(walk_t1(post.mem@, root, va) == t1);
        assert(entry_at(post.mem@, t1, level_index(va, 1)) == entry_at(
            pre.mem@,
            t1,
            level_index(va, 1),
        ));
        assert(walk_t2(post.mem@, root, va) == t2);
        assert(entry_at(post.mem@, t2, level_index(va, 2)) == entry_at(
            pre.mem@,
            t2,
            level_index(va, 2),
        ));
        assert(walk_t3(post.mem@, root, va) == t3);
        assert(entry_at(post.mem@, t3, level_index(va, 3)) == entry_at(
            pre.mem@,
            t3,
            level_index(va, 3),
        ));
    }
}

impl Machine {
    /// Reads entry `i` of the table at physical base `t`.
    pub fn read_entry(&self, t: u64, i: usize) -> (r: u64)
        requires
            frame_in_mem(t as int, self.len()),
            i < 512,
        ensures
            r == entry_at(self.mem@, t as int, i as int),
    {
        self.mem.read_u64(t + 8 * (i as u64))
    }

    /// Writes entry `i` of the table at physical base `t`.
    pub fn write_entry(&mut self, t: u64, i: usize, v: u64)
        requires
            frame_in_mem(t as int, old(self).len()),
            i < 512,
        ensures
            final(self).mem@.len() == old(self).mem@.len(),
            final(self).alloc == old(self).alloc,
            final(self).kernel_table == old(self).kernel_table,
            final(self).active_table == old(self).active_table,
            final(self).tables@ == old(self).tables@,
            final(self).data_frames@ == old(self).data_frames@,
            forall|a: int|
                0 <= a < old(self).mem@.len() && !(t + 8 * i <= a < t + 8 * i + 8)
                    ==> final(self).mem@[a] == old(self).mem@[a],
            entry_at(final(self).mem@, t as int, i as int) == v,
    {
        self.mem.write_u64(t + 8 * (i as u64), v);
    }
}


/// A span of `count` pages from `start` maps page-for-page onto the run
/// at `phys`, each leaf carrying exactly the flag word `fl` and the
/// present bit.
#[verifier::opaque]
pub open spec fn span_pages_mapped(m: Machine, root: int, start: int, count: int, phys: int, fl: u64) -> bool {
    forall|p: int|
        0 <= p < count ==> #[trigger] walk_ok(m.mem@, m.len(), root, (start + p * 4096) as u64)
            && leaf_entry(m.mem@, root, (start + p * 4096) as u64) == ((phys + p * 4096) as u64
            | fl | 1)
}

/// A freshly backed run: `amount` zeroed data pages at `phys` that were
/// free — and so no data pages — before the call.
#[verifier::opaque]
pub open spec fn run_backed(pre: Machine, post: Machine, phys: int, amount: int) -> bool {
    &&& (forall|a: int| phys <= a < phys + amount * 4096 ==> #[trigger] post.mem@[a] == 0u8)
    &&& (forall|f: int|
        phys <= f < phys + amount * 4096 && f % 4096 == 0 ==> #[trigger] post.data_frames@.contains(
            f,
        ) && !pre.data_frames@.contains(f))
}

/// Every walk that reached a present leaf from a tracked top-level table
/// still does, with the identical leaf entry.
#[verifier::opaque]
pub open spec fn walks_preserved(pre: Machine, post: Machine) -> bool {
    forall|root: int, va: u64|
        pre.tables@[0].contains(root) && #[trigger] walk_ok(pre.mem@, pre.len(), root, va)
            ==> walk_ok(post.mem@, pre.len(), root, va) && leaf_entry(post.mem@, root, va)
            == leaf_entry(pre.mem@, root, va)
}

pub proof fn lemma_walks_preserved_trans(a: Machine, b: Machine, c: Machine)
    requires
        walks_preserved(a, b),
        walks_preserved(b, c),
        b.mem@.len() == a.mem@.len(),
        forall|t: int| a.tables@[0].contains(t) ==> b.tables@[0].contains(t),
    ensures
        walks_preserved(a, c),
{
    reveal(walks_preserved);
    assert forall|root: int, va: u64|
        a.tables@[0].contains(root) && #[trigger] walk_ok(a.mem@, a.len(), root, va) implies walk_ok(
        c.mem@,
        a.len(),
        root,
        va,
    ) && leaf_entry(c.mem@, root, va) == leaf_entry(a.mem@, root, va) by {
        assert(walk_ok(b.mem@, a.len(), root, va));
        assert(walk_ok(b.mem@, b.len(), root, va));
    }
}

/// Byte `a` lies inside the eight bytes of slot `i` of the table at `t`.
pub open spec fn in_slot(t: int, i: int, a: int) -> bool {
    t + 8 * i <= a < t + 8 * i + 8
}

/// A mapping operation writes only the four slots on the walk of `va`
/// under `root` and frames that were free before it ran.
#[verifier::opaque]
pub open spec fn mapping_writes_confined(m0: Machine, m: Machine, root: int, va: u64) -> bool {
    forall|a: int|
        0 <= a < m0.mem@.len() && #[trigger] m.mem@[a] != m0.mem@[a] ==> in_slot(
            root,
            level_index(va, 0),
            a,
        ) || in_slot(walk_t1(m.mem@, root, va), level_index(va, 1), a) || in_slot(
            walk_t2(m.mem@, root, va),
            level_index(va, 2),
            a,
        ) || in_slot(walk_t3(m.mem@, root, va), level_index(va, 3), a) || m0.free(
            crate::machine::frame_base(a),
        )
}

/// What one `get_or_create` step guarantees: the slot at (`table`,
/// `index`) now carries a present entry referencing the next-level table
/// `t`, which is tracked; everything else is confined as described.
pub open spec fn goc_ok(pre: Machine, post: Machine, table: int, level: int, index: int, fl: u64, t: int) -> bool {
    let olde = entry_at(pre.mem@, table, index);
    &&& post.wf()
    &&& crate::machine::preserves_layout(pre, post)
    &&& post.data_frames@ == pre.data_frames@
    &&& (forall|l: int| 0 <= l < 4 && l != level + 1 ==> post.tables@[l] == pre.tables@[l])
    &&& frame_in_mem(t, pre.len())
    &&& post.tables@[level + 1].contains(t)
    &&& is_present(entry_at(post.mem@, table, index))
    &&& entry_addr(entry_at(post.mem@, table, index)) == t
    &&& (is_present(olde) ==> {
        &&& t == entry_addr(olde) as int
        &&& entry_at(post.mem@, table, index) == olde | fl
        &&& post.alloc.blocks@ == pre.alloc.blocks@
        &&& post.tables@[level + 1] == pre.tables@[level + 1]
        &&& forall|a: int|
            0 <= a < pre.len() && !(table + 8 * index <= a < table + 8 * index + 8)
                ==> post.mem@[a] == pre.mem@[a]
    })
    &&& (!is_present(olde) ==> {
        &&& pre.free(t)
        &&& entry_at(post.mem@, table, index) == (t as u64) | fl | 1
        &&& (forall|f: int| #[trigger] post.free(f) <==> pre.free(f) && !(t <= f < t + 4096))
        &&& free_count(post.alloc.blocks@) == free_count(pre.alloc.blocks@) - 1
        &&& post.tables@[level + 1] == pre.tables@[level + 1].insert(t)
        &&& (forall|i: int| 0 <= i < 512 ==> #[trigger] entry_at(post.mem@, t, i) == 0)
        &&& forall|a: int|
            0 <= a < pre.len() && !(table + 8 * index <= a < table + 8 * index + 8) && !(t <= a < t
                + 4096) ==> post.mem@[a] == pre.mem@[a]
    })
    &&& walks_preserved(pre, post)
}

/// An allocation failure surfaced to the caller: the free list could not
/// supply the frames a page-table operation needed.
#[derive(Clone, Copy, PartialEq, Eq, Structural, Debug)]
pub struct AllocError;

impl Machine {
    /// The walk entry at `index` of the level-`level` table at `table`,
    /// after the call: present, pointing at the returned next-level table.
    /// When the entry was absent, a fresh zeroed table is allocated and
    /// installed with `flags` and the present bit; when it was present,
    /// `flags` is or-ed into it. Fails exactly when a fresh table is needed
    /// and the free list is empty; nothing changes then.
    ///
    /// Every present walk from any tracked top-level table survives with
    /// the same leaf entry.
    #[verifier::rlimit(60)]
    pub fn get_or_create(&mut self, table: u64, level: Ghost<int>, index: usize, flags: Flags) -> (r: Result<
        u64,
        AllocError,
    >)
        requires
            old(self).wf(),
            0 <= level@ <= 2,
            old(self).tables@[level@].contains(table as int),
            index < 512,
            flags.wf(),
        ensures
            r is Err ==> unchanged_machine(*old(self), *final(self)) && !is_present(
                entry_at(old(self).mem@, table as int, index as int),
            ) && old(self).alloc.blocks@.len() == 0,
            r matches Ok(t) ==> goc_ok(
                *old(self),
                *final(self),
                table as int,
                level@,
                index as int,
                flags.0,
                t as int,
            ),
    {
        let ghost pre = *self;
        let e = self.read_entry(table, index);
        if e & 1 == 1 {
            let newe = e | flags.0;
            self.write_entry(table, index, newe);
            let t = e & ENTRY_ADDR_MASK;
            proof {
                let fin = *self;
                let wt = table as int;
                let wi = index as int;
                lemma_entry_or_flags(e, flags.0);
                lemma_entry_addr_range(e);
                // the referenced table is tracked at the next level
                assert(pre.tables@[level@ + 1].contains(t as int));
                assert(frame_in_mem(t as int, pre.len()));
                // all other entries of all tables are untouched
                assert forall|t2: int, i2: int|
                    t2 % 4096 == 0 && 0 <= t2 && t2 + 4096 <= pre.len() && 0 <= i2 < 512 && (t2
                        != wt || i2 != wi) implies #[trigger] entry_at(fin.mem@, t2, i2)
                    == entry_at(pre.mem@, t2, i2) by {
                    lemma_entry_after_slot_write(pre.mem@, fin.mem@, wt, wi, t2, i2);
                }
                // well-formedness carries over
                assert forall|l: int, t2: int, i2: int|
                    0 <= l < 3 && #[trigger] fin.tables@[l].contains(t2) && 0 <= i2 < 512
                        && is_present(#[trigger] entry_at(fin.mem@, t2, i2)) implies
                    fin.tables@[l + 1].contains(entry_addr(entry_at(fin.mem@, t2, i2)) as int) by {
                    if t2 == wt && i2 == wi {
                    } else {
                        assert(entry_at(fin.mem@, t2, i2) == entry_at(pre.mem@, t2, i2));
                    }
                }
                assert(fin.wf());
                // present walks survive with the very same leaf entry
                reveal(walks_preserved);
                lemma_walks_preserved_or_flags(pre.mem@, fin.mem@, wt, wi, flags.0);
                assert forall|root: int, va: u64|
                    pre.tables@[0].contains(root) && #[trigger] walk_ok(
                        pre.mem@,
                        pre.len(),
                        root,
                        va,
                    ) implies walk_ok(fin.mem@, pre.len(), root, va) && leaf_entry(
                    fin.mem@,
                    root,
                    va,
                ) == leaf_entry(pre.mem@, root, va) by {
                    lemma_level_index_bound(va);
                    lemma_walk_tables_tracked(pre, root, va);
                    let t3 = walk_t3(pre.mem@, root, va);
                    assert(t3 != wt);
                    lemma_entry_after_slot_write(
                        pre.mem@,
                        fin.mem@,
                        wt,
                        wi,
                        t3,
                        level_index(va, 3),
                    );
                }
            }
            Ok(t)
        } else {
            let page = self.allocate_page(1);
            if page == 0 {
                proof {
                    if pre.alloc.blocks@.len() > 0 {
                        assert(pre.alloc.blocks@[0].size >= 1);
                        assert(has_fit(pre.alloc.blocks@, 1));
                    }
                }
                return Err(AllocError);
            }
            let ghost mid = *self;
            proof {
                // the fresh frame becomes a tracked next-level table
                self.tables = Ghost(
                    self.tables@.update(level@ + 1, self.tables@[level@ + 1].insert(page as int)),
                );
            }
            let ghost mid2 = *self;
            let newe = page | flags.0 | 1;
            proof {
                lemma_entry_new(page, flags.0);
            }
            self.write_entry(table, index, newe);
            proof {
                let fin = *self;
                let wt = table as int;
                let wi = index as int;
                let pg = page as int;
                // the fresh frame was free, so it is no table and no data frame
                assert(!pre.any_table(pg));
                assert(!pre.data_frames@.contains(pg));
                // memory: allocation zeroed [pg, pg + 4096); the entry write
                // touched one slot of `table`, which is not the fresh frame
                assert(wt != pg);
                // entries of the fresh table are zero
                assert forall|i: int| 0 <= i < 512 implies #[trigger] entry_at(fin.mem@, pg, i)
                    == 0 by {
                    assert forall|a: int| pg + 8 * i <= a < pg + 8 * i + 8 implies fin.mem@[a]
                        == 0u8 by {
                        lemma_slot_disjoint(pg, i, wt, wi, a);
                        assert(mid.mem@[a] == 0u8);
                    }
                    assert(entry_at(fin.mem@, pg, i) == crate::mem::le8(0, 0, 0, 0, 0, 0, 0, 0) as u64);
                }
                // every other table entry is untouched
                assert forall|t2: int, i2: int|
                    t2 % 4096 == 0 && 0 <= t2 && t2 + 4096 <= pre.len() && 0 <= i2 < 512 && (t2
                        != wt || i2 != wi) && !pre.free(t2) implies #[trigger] entry_at(
                    fin.mem@,
                    t2,
                    i2,
                ) == entry_at(pre.mem@, t2, i2) by {
                    lemma_entry_after_slot_write(mid.mem@, fin.mem@, wt, wi, t2, i2);
                    assert forall|a: int| t2 <= a < t2 + 4096 implies mid.mem@[a]
                        == pre.mem@[a] by {
                        if mid.mem@[a] != pre.mem@[a] {
                            crate::machine::lemma_frames_disjoint(t2, pg, a);
                            assert(pg <= a < pg + 4096);
                        }
                    }
                    crate::machine::lemma_table_entries_preserved(pre.mem@, mid.mem@, t2);
                }
                assert(!is_present(entry_at(mid2.mem@, wt, wi))) by {
                    assert(entry_at(mid.mem@, wt, wi) == entry_at(pre.mem@, wt, wi)) by {
                        assert forall|a: int| wt <= a < wt + 4096 implies mid.mem@[a]
                            == pre.mem@[a] by {
                            if mid.mem@[a] != pre.mem@[a] {
                                crate::machine::lemma_frames_disjoint(wt, pg, a);
                                assert(pg <= a < pg + 4096);
                            }
                        }
                        crate::machine::lemma_table_entries_preserved(pre.mem@, mid.mem@, wt);
                    }
                    assert(e & 1 != 1);
                }
                // well-formedness of the final state
                assert forall|l: int, t2: int|
                    0 <= l < 4 && #[trigger] fin.tables@[l].contains(t2) implies frame_in_mem(
                    t2,
                    fin.len(),
                ) && !fin.free(t2) && !fin.data_frames@.contains(t2) by {
                    if l == level@ + 1 && t2 == pg {
                        assert(!mid.free(pg));
                        assert(fin.alloc.blocks@ == mid.alloc.blocks@);
                    } else {
                        assert(pre.tables@[l].contains(t2));
                        assert(!pre.free(t2));
                    }
                }
                assert forall|l1: int, l2: int, t2: int|
                    0 <= l1 < 4 && 0 <= l2 < 4 && l1 != l2 && #[trigger] fin.tables@[l1].contains(
                        t2,
                    ) implies !(#[trigger] fin.tables@[l2].contains(t2)) by {
                    if t2 == pg {
                        assert(!pre.any_table(pg));
                        if l1 != level@ + 1 {
                            assert(pre.tables@[l1].contains(pg));
                            assert(pre.any_table(pg));
                        }
                        if l2 == level@ + 1 && fin.tables@[l2].contains(pg) {
                            assert(l1 != level@ + 1);
                            assert(pre.any_table(pg));
                        }
                    } else {
                        assert(pre.tables@[l1].contains(t2));
                        if fin.tables@[l2].contains(t2) {
                            assert(pre.tables@[l2].contains(t2));
                        }
                    }
                }
                assert forall|l: int, t2: int, i2: int|
                    0 <= l < 3 && #[trigger] fin.tables@[l].contains(t2) && 0 <= i2 < 512
                        && is_present(#[trigger] entry_at(fin.mem@, t2, i2)) implies
                    fin.tables@[l + 1].contains(entry_addr(entry_at(fin.mem@, t2, i2)) as int) by {
                    if t2 == pg {
                        assert(entry_at(fin.mem@, pg, i2) == 0);
                        assert(0u64 & 1 == 0) by (bit_vector);
                    } else if t2 == wt && i2 == wi {
                        assert(l == level@) by {
                            if l != level@ {
                                if pre.tables@[l].contains(wt) {
                                    assert(pre.tables@[level@].contains(wt));
                                }
                            }
                        }
                        assert(entry_addr(entry_at(fin.mem@, wt, wi)) == page);
                    } else {
                        assert(pre.tables@[l].contains(t2));
                        assert(!pre.free(t2));
                        assert(entry_at(fin.mem@, t2, i2) == entry_at(pre.mem@, t2, i2));
                        assert(pre.tables@[l + 1].contains(
                            entry_addr(entry_at(pre.mem@, t2, i2)) as int,
                        ));
                    }
                }
                assert(fin.wf());
                assert(fin.alloc.blocks@ == mid.alloc.blocks@);
                assert forall|f: int| #[trigger] fin.free(f) <==> (pre.free(f) && !(pg <= f < pg
                    + 4096)) by {
                    assert(fin.free(f) == mid.free(f));
                    assert(mid.free(f) <==> pre.free(f) && !(pg <= f < pg + 1 * 4096));
                }
                // walks: the allocation only touched a free frame, and the
                // final write filled a slot that was absent
                reveal(walks_preserved);
                lemma_changes_confined_to_frames(pre, mid, pg, pg + 4096);
                lemma_walks_preserved_data_change(pre, mid);
                lemma_walks_preserved_absent_write(mid.mem@, fin.mem@, wt, wi);
                assert forall|root: int, va: u64|
                    pre.tables@[0].contains(root) && #[trigger] walk_ok(
                        pre.mem@,
                        pre.len(),
                        root,
                        va,
                    ) implies walk_ok(fin.mem@, pre.len(), root, va) && leaf_entry(
                    fin.mem@,
                    root,
                    va,
                ) == leaf_entry(pre.mem@, root, va) by {
                    assert(walk_ok(mid.mem@, pre.len(), root, va) && leaf_entry(
                        mid.mem@,
                        root,
                        va,
                    ) == leaf_entry(pre.mem@, root, va));
                    assert(walk_ok(mid.mem@, mid.mem@.len() as int, root, va));
                }
            }
            Ok(page)
        }
    }
}

/// An entry outside both the written slot and the frame at `tr` is
/// unchanged by a step that touched only those.
pub proof fn lemma_entry_outside_step(m1: Seq<u8>, m2: Seq<u8>, wt: int, wi: int, tr: int, t: int, i: int)
    requires
        m1.len() == m2.len(),
        wt % 4096 == 0,
        tr % 4096 == 0,
        t % 4096 == 0,
        0 <= wt,
        0 <= tr,
        0 <= t,
        0 <= wi < 512,
        0 <= i < 512,
        t + 8 * i + 8 <= m1.len(),
        t != wt || i != wi,
        t != tr,
        forall|a: int|
            0 <= a < m1.len() && !(wt + 8 * wi <= a < wt + 8 * wi + 8) && !(tr <= a < tr + 4096)
                ==> m2[a] == m1[a],
    ensures
        entry_at(m2, t, i) == entry_at(m1, t, i),
{
    assert forall|a: int| t + 8 * i <= a < t + 8 * i + 8 implies m1[a] == m2[a] by {
        lemma_slot_disjoint(t, i, wt, wi, a);
        crate::machine::lemma_frames_disjoint(t, tr, a);
    }
    crate::mem::lemma_word_at_frame(m1, m2, t + 8 * i);
}

/// A byte of the aligned frame at `t` has `t` as its frame base.
pub proof fn lemma_frame_base_of(t: int, a: int)
    requires
        t % 4096 == 0,
        0 <= t <= a < t + 4096,
    ensures
        crate::machine::frame_base(a) == t,
{
    crate::machine::lemma_frame_base(a);
    if crate::machine::frame_base(a) != t {
        crate::machine::lemma_frames_disjoint(t, crate::machine::frame_base(a), a);
    }
}



/// The three confinement predicates depend only on the fields named here,
/// so they carry over to any state that agrees on them.
pub proof fn lemma_confinement_congruence(pre: Machine, a: Machine, b: Machine)
    requires
        walks_preserved(pre, a),
        crate::machine::data_pages_untouched(pre, a),
        crate::machine::free_shrunk(pre, a),
        b.mem@ == a.mem@,
        b.alloc.blocks@ == a.alloc.blocks@,
    ensures
        walks_preserved(pre, b),
        crate::machine::data_pages_untouched(pre, b),
        crate::machine::free_shrunk(pre, b),
{
    reveal(walks_preserved);
    reveal(crate::machine::data_pages_untouched);
    reveal(crate::machine::free_shrunk);
    assert forall|f: int| #[trigger] b.free(f) implies pre.free(f) by {
        assert(b.free(f) == a.free(f));
    }
}

/// One `get_or_create` step never touches a data page and only shrinks
/// the free set.
pub proof fn lemma_goc_step_confined(pre: Machine, post: Machine, table: int, level: int, index: int, fl: u64, t: int)
    requires
        pre.wf(),
        0 <= level <= 2,
        pre.tables@[level].contains(table),
        0 <= index < 512,
        goc_ok(pre, post, table, level, index, fl, t),
    ensures
        crate::machine::data_pages_untouched(pre, post),
        crate::machine::free_shrunk(pre, post),
{
    reveal(crate::machine::data_pages_untouched);
    reveal(crate::machine::free_shrunk);
    let olde = entry_at(pre.mem@, table, index);
    assert forall|a: int|
        0 <= a < pre.mem@.len() && post.mem@[a] != pre.mem@[a] implies !pre.data_frames@.contains(
        crate::machine::frame_base(a),
    ) by {
        if table + 8 * index <= a < table + 8 * index + 8 {
            lemma_frame_base_of(table, a);
        } else {
            assert(!is_present(olde));
            assert(t <= a < t + 4096);
            lemma_frame_base_of(t, a);
            assert(pre.free(t));
        }
    }
    assert forall|f: int| #[trigger] post.free(f) implies pre.free(f) by {
        if is_present(olde) {
            assert(post.alloc.blocks@ == pre.alloc.blocks@);
            assert(post.free(f) == pre.free(f));
        }
    }
}

/// Composes three interior `get_or_create` steps: the chain for `va` is
/// present, the leaf slot is still absent, every previously present walk
/// under a tracked root is intact, no data-page byte changed, and the free
/// set only shrank, by at most three frames.
#[verifier::rlimit(100)]
pub proof fn lemma_map_chain(
    m0: Machine,
    m1: Machine,
    m2: Machine,
    m3: Machine,
    root: int,
    va: u64,
    t1: int,
    t2: int,
    t3: int,
    fl: u64,
)
    requires
        m0.wf(),
        m0.tables@[0].contains(root),
        !walk_ok(m0.mem@, m0.len(), root, va),
        goc_ok(m0, m1, root, 0, level_index(va, 0), fl, t1),
        goc_ok(m1, m2, t1, 1, level_index(va, 1), fl, t2),
        goc_ok(m2, m3, t2, 2, level_index(va, 2), fl, t3),
    ensures
        walk_t1(m3.mem@, root, va) == t1 && is_present(walk_e0(m3.mem@, root, va)),
        walk_t2(m3.mem@, root, va) == t2 && is_present(walk_e1(m3.mem@, root, va)),
        walk_t3(m3.mem@, root, va) == t3 && is_present(walk_e2(m3.mem@, root, va)),
        fl & ENTRY_ADDR_MASK == 0 && fl & 1 == 0 ==> walk_e0(m3.mem@, root, va) & fl == fl
            && walk_e1(m3.mem@, root, va) & fl == fl && walk_e2(m3.mem@, root, va) & fl == fl,
        !is_present(leaf_entry(m3.mem@, root, va)),
        walks_preserved(m0, m3),
        crate::machine::data_pages_untouched(m0, m3),
        crate::machine::free_shrunk(m0, m3),
        free_count(m3.alloc.blocks@) >= free_count(m0.alloc.blocks@) - 3,
        forall|l: int, t: int|
            0 <= l < 4 && m0.tables@[l].contains(t) ==> m3.tables@[l].contains(t),
        forall|r2: int, i: int|
            m0.tables@[0].contains(r2) && r2 != root && 0 <= i < 512 ==> #[trigger] entry_at(
                m3.mem@,
                r2,
                i,
            ) == entry_at(m0.mem@, r2, i),
        mapping_writes_confined(m0, m3, root, va),
{
    lemma_level_index_bound(va);
    assert forall|r2: int, i: int|
        m0.tables@[0].contains(r2) && r2 != root && 0 <= i < 512 implies #[trigger] entry_at(
        m3.mem@,
        r2,
        i,
    ) == entry_at(m0.mem@, r2, i) by {
        assert(entry_at(m1.mem@, r2, i) == entry_at(m0.mem@, r2, i)) by {
            lemma_entry_outside_step(
                m0.mem@,
                m1.mem@,
                root,
                level_index(va, 0),
                t1,
                r2,
                i,
            );
        }
        assert(entry_at(m2.mem@, r2, i) == entry_at(m1.mem@, r2, i)) by {
            lemma_entry_outside_step(
                m1.mem@,
                m2.mem@,
                t1,
                level_index(va, 1),
                t2,
                r2,
                i,
            );
        }
        assert(entry_at(m3.mem@, r2, i) == entry_at(m2.mem@, r2, i)) by {
            lemma_entry_outside_step(
                m2.mem@,
                m3.mem@,
                t2,
                level_index(va, 2),
                t3,
                r2,
                i,
            );
        }
    }

            // the chain as the three steps left it
            assert(walk_t1(m2.mem@, root, va) == t1 && is_present(
                walk_e0(m2.mem@, root, va),
            )) by {
                lemma_entry_outside_step(
                    m1.mem@,
                    m2.mem@,
                    t1,
                    level_index(va, 1),
                    t2,
                    root,
                    level_index(va, 0),
                );
            }
            assert(walk_t1(m3.mem@, root, va) == t1 && is_present(
                walk_e0(m3.mem@, root, va),
            )) by {
                lemma_entry_outside_step(
                    m2.mem@,
                    m3.mem@,
                    t2,
                    level_index(va, 2),
                    t3,
                    root,
                    level_index(va, 0),
                );
            }
            assert(walk_t2(m3.mem@, root, va) == t2 && is_present(
                walk_e1(m3.mem@, root, va),
            )) by {
                lemma_entry_outside_step(
                    m2.mem@,
                    m3.mem@,
                    t2,
                    level_index(va, 2),
                    t3,
                    t1,
                    level_index(va, 1),
                );
            }
            assert(walk_t3(m3.mem@, root, va) == t3 && is_present(
                walk_e2(m3.mem@, root, va),
            ));
            // the leaf slot is still absent
            assert(!is_present(entry_at(m3.mem@, t3, level_index(va, 3)))) by {
                if !is_present(entry_at(m2.mem@, t2, level_index(va, 2))) {
                    // the level-3 table is fresh and zeroed
                    assert(entry_at(m3.mem@, t3, level_index(va, 3)) == 0);
                    assert(!is_present(0u64)) by (bit_vector);
                } else {
                    // every interior entry was already present: the walk in
                    // m0 reached this very leaf slot, and it was absent
                    assert(t3 == entry_addr(entry_at(m2.mem@, t2, level_index(va, 2))));
                    if !is_present(entry_at(m1.mem@, t1, level_index(va, 1))) {
                        // then the level-2 table was fresh and zeroed in m2
                        assert(entry_at(m2.mem@, t2, level_index(va, 2)) == 0);
                        assert(!is_present(0u64)) by (bit_vector);
                    } else {
                        assert(t2 == entry_addr(entry_at(m1.mem@, t1, level_index(va, 1))));
                        if !is_present(entry_at(m0.mem@, root, level_index(va, 0))) {
                            assert(entry_at(m1.mem@, t1, level_index(va, 1)) == 0);
                            assert(!is_present(0u64)) by (bit_vector);
                        } else {
                            // the whole interior chain existed in m0
                            assert(t1 == entry_addr(
                                entry_at(m0.mem@, root, level_index(va, 0)),
                            ));
                            assert(entry_at(m1.mem@, t1, level_index(va, 1)) == entry_at(
                                m0.mem@,
                                t1,
                                level_index(va, 1),
                            )) by {
                                lemma_entry_after_slot_write(
                                    m0.mem@,
                                    m1.mem@,
                                    root,
                                    level_index(va, 0),
                                    t1,
                                    level_index(va, 1),
                                );
                            }
                            assert(entry_at(m2.mem@, t2, level_index(va, 2)) == entry_at(
                                m0.mem@,
                                t2,
                                level_index(va, 2),
                            )) by {
                                lemma_entry_after_slot_write(
                                    m1.mem@,
                                    m2.mem@,
                                    t1,
                                    level_index(va, 1),
                                    t2,
                                    level_index(va, 2),
                                );
                                lemma_entry_after_slot_write(
                                    m0.mem@,
                                    m1.mem@,
                                    root,
                                    level_index(va, 0),
                                    t2,
                                    level_index(va, 2),
                                );
                            }
                            // so t1, t2, t3 are the walk tables of m0, the
                            // interior entries were present, and since the
                            // walk was not ok the leaf must have been absent
                            assert(walk_t1(m0.mem@, root, va) == t1);
                            assert(walk_t2(m0.mem@, root, va) == t2);
                            assert(walk_t3(m0.mem@, root, va) == t3);
                            assert(!is_present(leaf_entry(m0.mem@, root, va)));
                            assert(entry_at(m1.mem@, t3, level_index(va, 3)) == entry_at(
                                m0.mem@,
                                t3,
                                level_index(va, 3),
                            )) by {
                                lemma_entry_after_slot_write(
                                    m0.mem@,
                                    m1.mem@,
                                    root,
                                    level_index(va, 0),
                                    t3,
                                    level_index(va, 3),
                                );
                            }
                            assert(entry_at(m2.mem@, t3, level_index(va, 3)) == entry_at(
                                m1.mem@,
                                t3,
                                level_index(va, 3),
                            )) by {
                                lemma_entry_after_slot_write(
                                    m1.mem@,
                                    m2.mem@,
                                    t1,
                                    level_index(va, 1),
                                    t3,
                                    level_index(va, 3),
                                );
                            }
                            assert(entry_at(m3.mem@, t3, level_index(va, 3)) == entry_at(
                                m2.mem@,
                                t3,
                                level_index(va, 3),
                            )) by {
                                lemma_entry_after_slot_write(
                                    m2.mem@,
                                    m3.mem@,
                                    t2,
                                    level_index(va, 2),
                                    t3,
                                    level_index(va, 3),
                                );
                            }
                        }
                    }
                }
            }
            // interior entries carry the requested flag bits
            if fl & ENTRY_ADDR_MASK == 0 && fl & 1 == 0 {
                assert(walk_e0(m3.mem@, root, va) & fl == fl) by {
                    lemma_entry_outside_step(
                        m1.mem@,
                        m2.mem@,
                        t1,
                        level_index(va, 1),
                        t2,
                        root,
                        level_index(va, 0),
                    );
                    lemma_entry_outside_step(
                        m2.mem@,
                        m3.mem@,
                        t2,
                        level_index(va, 2),
                        t3,
                        root,
                        level_index(va, 0),
                    );
                    let e = entry_at(m0.mem@, root, level_index(va, 0));
                    let tu = t1 as u64;
                    assert((e | fl) & fl == fl && (tu | fl | 1) & fl == fl) by (bit_vector);
                }
                assert(walk_e1(m3.mem@, root, va) & fl == fl) by {
                    lemma_entry_outside_step(
                        m2.mem@,
                        m3.mem@,
                        t2,
                        level_index(va, 2),
                        t3,
                        t1,
                        level_index(va, 1),
                    );
                    let e = entry_at(m1.mem@, t1, level_index(va, 1));
                    let tu = t2 as u64;
                    assert((e | fl) & fl == fl && (tu | fl | 1) & fl == fl) by (bit_vector);
                }
                assert(walk_e2(m3.mem@, root, va) & fl == fl) by {
                    let e = entry_at(m2.mem@, t2, level_index(va, 2));
                    let tu = t3 as u64;
                    assert((e | fl) & fl == fl && (tu | fl | 1) & fl == fl) by (bit_vector);
                }
            }
            // preservation, data-page and free-set confinement compose
            lemma_goc_step_confined(m0, m1, root, 0, level_index(va, 0), fl, t1);
            lemma_goc_step_confined(m1, m2, t1, 1, level_index(va, 1), fl, t2);
            lemma_goc_step_confined(m2, m3, t2, 2, level_index(va, 2), fl, t3);
            lemma_walks_preserved_trans(m0, m1, m2);
            lemma_walks_preserved_trans(m0, m2, m3);
            crate::machine::lemma_data_pages_untouched_trans(m0, m1, m2);
            crate::machine::lemma_data_pages_untouched_trans(m0, m2, m3);
            crate::machine::lemma_free_shrunk_trans(m0, m1, m2);
            crate::machine::lemma_free_shrunk_trans(m0, m2, m3);
    assert(free_count(m1.alloc.blocks@) >= free_count(m0.alloc.blocks@) - 1);
    assert(free_count(m2.alloc.blocks@) >= free_count(m1.alloc.blocks@) - 1);
    assert(free_count(m3.alloc.blocks@) >= free_count(m2.alloc.blocks@) - 1);
    // every byte the three steps touched lies in a walk slot or came off
    // the free list
    assert(mapping_writes_confined(m0, m3, root, va)) by {
        reveal(mapping_writes_confined);
        reveal(crate::machine::free_shrunk);
        assert forall|a: int|
            0 <= a < m0.mem@.len() && #[trigger] m3.mem@[a] != m0.mem@[a] implies in_slot(
            root,
            level_index(va, 0),
            a,
        ) || in_slot(walk_t1(m3.mem@, root, va), level_index(va, 1), a) || in_slot(
            walk_t2(m3.mem@, root, va),
            level_index(va, 2),
            a,
        ) || in_slot(walk_t3(m3.mem@, root, va), level_index(va, 3), a) || m0.free(
            crate::machine::frame_base(a),
        ) by {
            if m1.mem@[a] != m0.mem@[a] {
                if !in_slot(root, level_index(va, 0), a) {
                    assert(t1 <= a < t1 + 4096);
                    assert(m0.free(t1));
                    lemma_frame_base_of(t1, a);
                }
            } else if m2.mem@[a] != m1.mem@[a] {
                if !in_slot(t1, level_index(va, 1), a) {
                    assert(t2 <= a < t2 + 4096);
                    assert(m1.free(t2));
                    lemma_frame_base_of(t2, a);
                }
            } else {
                assert(m3.mem@[a] != m2.mem@[a]);
                if !in_slot(t2, level_index(va, 2), a) {
                    assert(t3 <= a < t3 + 4096);
                    assert(m2.free(t3));
                    lemma_frame_base_of(t3, a);
                }
            }
        }
    }
}

impl Machine {
    /// Walks the top two interior levels for `virtual_address` under
    /// `root`, creating absent tables; returns the level-1 and level-2
    /// tables entered and a ghost snapshot of the state between the two
    /// steps.
    #[verifier::rlimit(100)]
    fn map_upper(&mut self, root: u64, virtual_address: u64, flags: Flags) -> (r: Result<
        (u64, u64, Ghost<Machine>),
        AllocError,
    >)
        requires
            old(self).wf(),
            old(self).tables@[0].contains(root as int),
            flags.wf(),
        ensures
            r matches Ok((t1, t2, g)) ==> goc_ok(
                *old(self),
                g@,
                root as int,
                0,
                level_index(virtual_address, 0),
                flags.0,
                t1 as int,
            ) && goc_ok(
                g@,
                *final(self),
                t1 as int,
                1,
                level_index(virtual_address, 1),
                flags.0,
                t2 as int,
            ),
            r is Err ==> {
                &&& final(self).wf()
                &&& crate::machine::preserves_layout(*old(self), *final(self))
                &&& final(self).data_frames@ == old(self).data_frames@
                &&& final(self).tables@[0] == old(self).tables@[0]
                &&& (forall|l: int, t: int|
                    0 <= l < 4 && old(self).tables@[l].contains(t)
                        ==> final(self).tables@[l].contains(t))
                &&& crate::machine::free_shrunk(*old(self), *final(self))
                &&& free_count(final(self).alloc.blocks@) >= free_count(old(self).alloc.blocks@)
                    - 3
                &&& walks_preserved(*old(self), *final(self))
                &&& crate::machine::data_pages_untouched(*old(self), *final(self))
                &&& final(self).alloc.blocks@.len() == 0
                &&& !walk_ok(
                    final(self).mem@,
                    old(self).len(),
                    root as int,
                    virtual_address,
                )
                &&& free_count(old(self).alloc.blocks@) < 3
            },
    {
        let ghost m0 = *self;
        let ghost va = virtual_address;
        let indies = table_indies(virtual_address);
        proof {
            lemma_level_index_bound(va);
        }
        let r1 = self.get_or_create(root, Ghost(0), indies[0], flags);
        let t1 = match r1 {
            Ok(t) => t,
            Err(e) => {
                proof {
                    reveal(walks_preserved);
                    reveal(crate::machine::data_pages_untouched);
                    reveal(crate::machine::free_shrunk);
                    assert(walks_preserved(m0, *self));
                    assert(crate::machine::data_pages_untouched(m0, *self));
                    assert(crate::machine::free_shrunk(m0, *self));
                }
                return Err(e);
            },
        };
        let ghost m1 = *self;
        let r2 = self.get_or_create(t1, Ghost(1), indies[1], flags);
        let t2 = match r2 {
            Ok(t) => t,
            Err(e) => {
                proof {
                    assert(!is_present(walk_e1(m1.mem@, root as int, va)));
                    assert(free_count(m1.alloc.blocks@) == 0) by {
                        if m1.alloc.blocks@.len() > 0 {
                            assert(m1.alloc.blocks@[0].size >= 1);
                        }
                    }
                    assert(free_count(m0.alloc.blocks@) <= 1) by {
                        if is_present(entry_at(m0.mem@, root as int, level_index(va, 0))) {
                            assert(m1.alloc.blocks@ == m0.alloc.blocks@);
                        }
                    }
                    lemma_goc_step_confined(
                        m0,
                        m1,
                        root as int,
                        0,
                        level_index(va, 0),
                        flags.0,
                        t1 as int,
                    );
                    lemma_confinement_congruence(m0, m1, *self);
                }
                return Err(e);
            },
        };
        Ok((t1, t2, Ghost(m1)))
    }

    /// Walks the three interior levels for `virtual_address` under `root`,
    /// creating absent tables, and returns the tables entered at levels
    /// 1 to 3. Afterwards the interior chain is present and the leaf slot
    /// is still absent; every mapping present before, under any tracked
    /// root, is intact, and no data-page byte has changed.
    #[verifier::rlimit(100)]
    fn map_interior(&mut self, root: u64, virtual_address: u64, flags: Flags) -> (r: Result<
        (u64, u64, u64),
        AllocError,
    >)
        requires
            old(self).wf(),
            old(self).tables@[0].contains(root as int),
            flags.wf(),
            !walk_ok(old(self).mem@, old(self).len(), root as int, virtual_address),
        ensures
            final(self).wf(),
            crate::machine::preserves_layout(*old(self), *final(self)),
            final(self).data_frames@ == old(self).data_frames@,
            final(self).tables@[0] == old(self).tables@[0],
            forall|l: int, t: int|
                0 <= l < 4 && old(self).tables@[l].contains(t) ==> final(self).tables@[l].contains(
                    t,
                ),
            crate::machine::free_shrunk(*old(self), *final(self)),
            free_count(final(self).alloc.blocks@) >= free_count(old(self).alloc.blocks@) - 3,
            walks_preserved(*old(self), *final(self)),
            crate::machine::data_pages_untouched(*old(self), *final(self)),
            free_count(old(self).alloc.blocks@) >= 3 ==> r is Ok,
            r is Err ==> final(self).alloc.blocks@.len() == 0 && !walk_ok(
                final(self).mem@,
                old(self).len(),
                root as int,
                virtual_address,
            ),
            r is Ok ==> forall|r2: int, i: int|
                old(self).tables@[0].contains(r2) && r2 != root && 0 <= i < 512
                    ==> #[trigger] entry_at(final(self).mem@, r2, i) == entry_at(
                    old(self).mem@,
                    r2,
                    i,
                ),
            r is Ok ==> mapping_writes_confined(
                *old(self),
                *final(self),
                root as int,
                virtual_address,
            ),
            r matches Ok((t1, t2, t3)) ==> {
                let va = virtual_address;
                let m = final(self).mem@;
                &&& walk_t1(m, root as int, va) == t1 && is_present(walk_e0(m, root as int, va))
                &&& walk_t2(m, root as int, va) == t2 && is_present(walk_e1(m, root as int, va))
                &&& walk_t3(m, root as int, va) == t3 && is_present(walk_e2(m, root as int, va))
                &&& walk_e0(m, root as int, va) & flags.0 == flags.0
                &&& walk_e1(m, root as int, va) & flags.0 == flags.0
                &&& walk_e2(m, root as int, va) & flags.0 == flags.0
                &&& final(self).tables@[3].contains(t3 as int)
                &&& frame_in_mem(t3 as int, old(self).len())
                &&& !is_present(leaf_entry(m, root as int, va))
            },
    {
        let ghost m0 = *self;
        let ghost va = virtual_address;
        let indies = table_indies(virtual_address);
        proof {
            lemma_level_index_bound(va);
        }
        let upper = self.map_upper(root, virtual_address, flags);
        let (t1, t2, gm1) = match upper {
            Ok(ts) => ts,
            Err(e) => {
                return Err(e);
            },
        };
        let ghost m1 = gm1@;
        let ghost m2 = *self;
        let r3 = self.get_or_create(t2, Ghost(2), indies[2], flags);
        let t3 = match r3 {
            Ok(t) => t,
            Err(e) => {
                proof {
                    assert(walk_t1(m2.mem@, root as int, va) == t1) by {
                        lemma_entry_outside_step(
                            m1.mem@,
                            m2.mem@,
                            t1 as int,
                            level_index(va, 1),
                            t2 as int,
                            root as int,
                            level_index(va, 0),
                        );
                    }
                    assert(!is_present(walk_e2(m2.mem@, root as int, va)));
                    assert(free_count(m2.alloc.blocks@) == 0) by {
                        if m2.alloc.blocks@.len() > 0 {
                            assert(m2.alloc.blocks@[0].size >= 1);
                        }
                    }
                    assert(free_count(m0.alloc.blocks@) <= 2) by {
                        if is_present(entry_at(m0.mem@, root as int, level_index(va, 0))) {
                            assert(m1.alloc.blocks@ == m0.alloc.blocks@);
                        }
                        if is_present(entry_at(m1.mem@, t1 as int, level_index(va, 1))) {
                            assert(m2.alloc.blocks@ == m1.alloc.blocks@);
                        }
                    }
                    lemma_goc_step_confined(
                        m0,
                        m1,
                        root as int,
                        0,
                        level_index(va, 0),
                        flags.0,
                        t1 as int,
                    );
                    lemma_goc_step_confined(
                        m1,
                        m2,
                        t1 as int,
                        1,
                        level_index(va, 1),
                        flags.0,
                        t2 as int,
                    );
                    lemma_walks_preserved_trans(m0, m1, m2);
                    crate::machine::lemma_data_pages_untouched_trans(m0, m1, m2);
                    crate::machine::lemma_free_shrunk_trans(m0, m1, m2);
                    lemma_confinement_congruence(m0, m2, *self);
                }
                return Err(e);
            },
        };
        let ghost m3 = *self;
        proof {
            lemma_map_chain(
                m0,
                m1,
                m2,
                m3,
                root as int,
                va,
                t1 as int,
                t2 as int,
                t3 as int,
                flags.0,
            );
        }
        Ok((t1, t2, t3))
    }

    /// Maps the page at `virtual_address` to the frame at
    /// `physical_address` in the address space rooted at `root`. Interior
    /// tables are created where absent; present interior entries have
    /// `flags` or-ed in; the leaf must be absent and is installed as
    /// `physical_address | flags | present`. Fails only when the free list
    /// runs out of frames for interior tables; three spare frames always
    /// suffice. Every mapping present before, under any tracked root, is
    /// left word-for-word intact, and no data-page byte changes.
    #[verifier::rlimit(100)]
    pub fn create_mapping(&mut self, root: u64, virtual_address: u64, physical_address: u64, flags: Flags) -> (r: Result<
        (),
        AllocError,
    >)
        requires
            old(self).wf(),
            old(self).tables@[0].contains(root as int),
            virtual_address % 4096 == 0,
            physical_address % 4096 == 0,
            physical_address < 0x10_0000_0000_0000,
            flags.wf(),
            !walk_ok(old(self).mem@, old(self).len(), root as int, virtual_address),
        ensures
            final(self).wf(),
            crate::machine::preserves_layout(*old(self), *final(self)),
            final(self).data_frames@ == old(self).data_frames@,
            final(self).tables@[0] == old(self).tables@[0],
            forall|l: int, t: int|
                0 <= l < 4 && old(self).tables@[l].contains(t) ==> final(self).tables@[l].contains(
                    t,
                ),
            crate::machine::free_shrunk(*old(self), *final(self)),
            free_count(final(self).alloc.blocks@) >= free_count(old(self).alloc.blocks@) - 3,
            walks_preserved(*old(self), *final(self)),
            crate::machine::data_pages_untouched(*old(self), *final(self)),
            free_count(old(self).alloc.blocks@) >= 3 ==> r is Ok,
            r is Err ==> final(self).alloc.blocks@.len() == 0 && !walk_ok(
                final(self).mem@,
                old(self).len(),
                root as int,
                virtual_address,
            ),
            r is Ok ==> walk_ok(final(self).mem@, old(self).len(), root as int, virtual_address)
                && leaf_entry(final(self).mem@, root as int, virtual_address) == (physical_address
                | flags.0 | 1) && entry_addr(
                leaf_entry(final(self).mem@, root as int, virtual_address),
            ) == physical_address,
            // interior entries on the walk carry the requested flag bits
            r is Ok ==> walk_e0(final(self).mem@, root as int, virtual_address) & flags.0
                == flags.0 && walk_e1(final(self).mem@, root as int, virtual_address) & flags.0
                == flags.0 && walk_e2(final(self).mem@, root as int, virtual_address) & flags.0
                == flags.0,
            // only the four slots on the walk and formerly free frames change
            r is Ok ==> mapping_writes_confined(
                *old(self),
                *final(self),
                root as int,
                virtual_address,
            ),
            r is Ok ==> forall|r2: int, i: int|
                old(self).tables@[0].contains(r2) && r2 != root && 0 <= i < 512
                    ==> #[trigger] entry_at(final(self).mem@, r2, i) == entry_at(
                    old(self).mem@,
                    r2,
                    i,
                ),
    {
        let ghost m0 = *self;
        let ghost va = virtual_address;
        let indies = table_indies(virtual_address);
        proof {
            lemma_level_index_bound(va);
        }
        let chain = self.map_interior(root, virtual_address, flags);
        let (t1, t2, t3) = match chain {
            Ok(ts) => ts,
            Err(e) => {
                return Err(e);
            },
        };
        let ghost m3 = *self;
        proof {
            lemma_entry_new(physical_address, flags.0);
        }
        let leaf = physical_address | flags.0 | 1;
        self.write_entry(t3, indies[3], leaf);
        proof {
            let fin = *self;
            let wt = t3 as int;
            let wi = level_index(va, 3);
            // well-formedness: every other entry of every table unchanged
            assert forall|t4: int, i4: int|
                t4 % 4096 == 0 && 0 <= t4 && t4 + 4096 <= m3.len() && 0 <= i4 < 512 && (t4 != wt
                    || i4 != wi) implies #[trigger] entry_at(fin.mem@, t4, i4) == entry_at(
                m3.mem@,
                t4,
                i4,
            ) by {
                lemma_entry_after_slot_write(m3.mem@, fin.mem@, wt, wi, t4, i4);
            }
            assert forall|l: int, t4: int, i4: int|
                0 <= l < 3 && #[trigger] fin.tables@[l].contains(t4) && 0 <= i4 < 512
                    && is_present(#[trigger] entry_at(fin.mem@, t4, i4)) implies
                fin.tables@[l + 1].contains(entry_addr(entry_at(fin.mem@, t4, i4)) as int) by {
                assert(t4 != wt);
                assert(entry_at(fin.mem@, t4, i4) == entry_at(m3.mem@, t4, i4));
            }
            assert(fin.wf());
            assert(fin.alloc.blocks@ == m3.alloc.blocks@);
            assert(free_count(fin.alloc.blocks@) == free_count(m3.alloc.blocks@));
            // the new mapping is in place
            assert(walk_t1(fin.mem@, root as int, va) == walk_t1(m3.mem@, root as int, va)
                && is_present(walk_e0(fin.mem@, root as int, va))) by {
                lemma_entry_after_slot_write(
                    m3.mem@,
                    fin.mem@,
                    wt,
                    wi,
                    root as int,
                    level_index(va, 0),
                );
            }
            assert(walk_t2(fin.mem@, root as int, va) == walk_t2(m3.mem@, root as int, va)
                && is_present(walk_e1(fin.mem@, root as int, va))) by {
                lemma_entry_after_slot_write(
                    m3.mem@,
                    fin.mem@,
                    wt,
                    wi,
                    t1 as int,
                    level_index(va, 1),
                );
            }
            assert(walk_t3(fin.mem@, root as int, va) == walk_t3(m3.mem@, root as int, va)
                && is_present(walk_e2(fin.mem@, root as int, va))) by {
                lemma_entry_after_slot_write(
                    m3.mem@,
                    fin.mem@,
                    wt,
                    wi,
                    t2 as int,
                    level_index(va, 2),
                );
            }
            assert(leaf_entry(fin.mem@, root as int, va) == leaf);
            assert(walk_ok(fin.mem@, m0.len(), root as int, va));
            // the interior entry values survive the leaf write
            assert(walk_e0(fin.mem@, root as int, va) == walk_e0(m3.mem@, root as int, va)) by {
                lemma_entry_after_slot_write(
                    m3.mem@,
                    fin.mem@,
                    wt,
                    wi,
                    root as int,
                    level_index(va, 0),
                );
            }
            assert(walk_e1(fin.mem@, root as int, va) == walk_e1(m3.mem@, root as int, va)) by {
                lemma_entry_after_slot_write(
                    m3.mem@,
                    fin.mem@,
                    wt,
                    wi,
                    t1 as int,
                    level_index(va, 1),
                );
            }
            assert(walk_e2(fin.mem@, root as int, va) == walk_e2(m3.mem@, root as int, va)) by {
                lemma_entry_after_slot_write(
                    m3.mem@,
                    fin.mem@,
                    wt,
                    wi,
                    t2 as int,
                    level_index(va, 2),
                );
            }
            // all present walks survive the leaf write
            lemma_walks_preserved_absent_write(m3.mem@, fin.mem@, wt, wi);
            assert(walks_preserved(m3, fin)) by {
                reveal(walks_preserved);
            }
            lemma_walks_preserved_trans(m0, m3, fin);
            // the leaf write stays out of data pages and off the free list
            assert(crate::machine::data_pages_untouched(m3, fin)) by {
                reveal(crate::machine::data_pages_untouched);
                assert forall|a: int|
                    0 <= a < m3.mem@.len() && fin.mem@[a] != m3.mem@[a] implies !m3.data_frames@.contains(
                    crate::machine::frame_base(a),
                ) by {
                    assert(wt + 8 * wi <= a < wt + 8 * wi + 8);
                    lemma_frame_base_of(wt, a);
                    assert(!m3.data_frames@.contains(wt));
                }
            }
            crate::machine::lemma_data_pages_untouched_trans(m0, m3, fin);
            assert(crate::machine::free_shrunk(m3, fin)) by {
                reveal(crate::machine::free_shrunk);
            }
            crate::machine::lemma_free_shrunk_trans(m0, m3, fin);
            // other top-level tables are untouched word for word
            assert forall|r2: int, i: int|
                m0.tables@[0].contains(r2) && r2 != root && 0 <= i < 512 implies #[trigger] entry_at(
                fin.mem@,
                r2,
                i,
            ) == entry_at(m0.mem@, r2, i) by {
                lemma_entry_after_slot_write(m3.mem@, fin.mem@, wt, wi, r2, i);
            }
            // the leaf write stays inside the fourth walk slot
            assert(mapping_writes_confined(m0, fin, root as int, va)) by {
                reveal(mapping_writes_confined);
                assert forall|a: int|
                    0 <= a < m0.mem@.len() && #[trigger] fin.mem@[a] != m0.mem@[a] implies in_slot(
                    root as int,
                    level_index(va, 0),
                    a,
                ) || in_slot(walk_t1(fin.mem@, root as int, va), level_index(va, 1), a)
                    || in_slot(walk_t2(fin.mem@, root as int, va), level_index(va, 2), a)
                    || in_slot(walk_t3(fin.mem@, root as int, va), level_index(va, 3), a)
                    || m0.free(crate::machine::frame_base(a)) by {
                    if m3.mem@[a] != m0.mem@[a] {
                        assert(in_slot(root as int, level_index(va, 0), a) || in_slot(
                            walk_t1(m3.mem@, root as int, va),
                            level_index(va, 1),
                            a,
                        ) || in_slot(walk_t2(m3.mem@, root as int, va), level_index(va, 2), a)
                            || in_slot(walk_t3(m3.mem@, root as int, va), level_index(va, 3), a)
                            || m0.free(crate::machine::frame_base(a)));
                    } else {
                        assert(in_slot(wt, wi, a));
                        assert(wt == walk_t3(fin.mem@, root as int, va) && wi == level_index(
                            va,
                            3,
                        ));
                    }
                }
            }
        }
        Ok(())
    }
}

/// The byte of physical memory that backs the virtual address `va`, read
/// through the walk for `va`'s page.
pub open spec fn user_byte(mem: Seq<u8>, len: int, root: int, va: u64) -> Option<u8> {
    let page = ((va / 4096) * 4096) as u64;
    match translate(mem, len, root, page) {
        Some(pa) => if pa + (va % 4096) < len {
            Some(mem[pa + (va % 4096)])
        } else {
            None
        },
        None => None,
    }
}

impl Machine {
    /// Loads the address-space register.
    pub fn activate(&mut self, table: u64)
        requires
            old(self).wf(),
            old(self).tables@[0].contains(table as int),
        ensures
            *final(self) == (Machine { active_table: table, ..*old(self) }),
            final(self).wf(),
    {
        self.active_table = table;
    }

    /// Restores the address space captured at initialization.
    pub fn activate_kernel_table(&mut self)
        requires
            old(self).wf(),
        ensures
            *final(self) == (Machine { active_table: old(self).kernel_table, ..*old(self) }),
            final(self).wf(),
    {
        self.active_table = self.kernel_table;
    }

    /// Creates a fresh top-level table: a copy of the active one with
    /// entry 0 cleared, so the low half is private while everything the
    /// kernel shares stays referenced. Returns its physical base, or fails
    /// when no frame is free.
    #[verifier::spinoff_prover]
    #[verifier::rlimit(100)]
    pub fn new_copy(&mut self) -> (r: Result<u64, AllocError>)
        requires
            old(self).wf(),
        ensures
            r is Err ==> crate::machine::unchanged_machine(*old(self), *final(self)) && old(
                self,
            ).alloc.blocks@.len() == 0,
            r matches Ok(t) ==> {
                &&& final(self).wf()
                &&& crate::machine::preserves_layout(*old(self), *final(self))
                &&& final(self).data_frames@ == old(self).data_frames@
                &&& final(self).tables@[0] == old(self).tables@[0].insert(t as int)
                &&& (forall|l: int| 1 <= l < 4 ==> final(self).tables@[l] == old(self).tables@[l])
                &&& !old(self).tables@[0].contains(t as int)
                &&& old(self).free(t as int)
                &&& frame_in_mem(t as int, old(self).len())
                &&& entry_at(final(self).mem@, t as int, 0) == 0
                &&& (forall|i: int|
                    1 <= i < 512 ==> #[trigger] entry_at(final(self).mem@, t as int, i)
                        == entry_at(
                        old(self).mem@,
                        old(self).active_table as int,
                        i,
                    ))
                &&& (forall|t2: int, i: int|
                    t2 % 4096 == 0 && 0 <= t2 && t2 + 4096 <= old(self).len() && 0 <= i < 512 && t2
                        != t ==> #[trigger] entry_at(final(self).mem@, t2, i) == entry_at(
                        old(self).mem@,
                        t2,
                        i,
                    ))
                &&& walks_preserved(*old(self), *final(self))
                &&& crate::machine::data_pages_untouched(*old(self), *final(self))
                &&& crate::machine::free_shrunk(*old(self), *final(self))
                &&& free_count(final(self).alloc.blocks@) == free_count(old(self).alloc.blocks@)
                    - 1
            },
            has_fit(old(self).alloc.blocks@, 1) <==> r is Ok,
    {
        let ghost m0 = *self;
        let source = self.active_table;
        let page = self.allocate_page(1);
        if page == 0 {
            proof {
                if m0.alloc.blocks@.len() > 0 {
                    assert(m0.alloc.blocks@[0].size >= 1);
                }
            }
            return Err(AllocError);
        }
        let ghost m1 = *self;
        let mut i: usize = 1;
        while i < 512
            invariant
                1 <= i <= 512,
                self.alloc == m1.alloc,
                self.tables@ == m1.tables@,
                self.data_frames@ == m1.data_frames@,
                self.kernel_table == m1.kernel_table,
                self.active_table == m1.active_table,
                self.mem@.len() == m1.mem@.len(),
                source == m1.active_table,
                m1.wf(),
                frame_in_mem(page as int, m1.len()),
                frame_in_mem(source as int, m1.len()),
                !m1.any_table(page as int),
                forall|a: int|
                    0 <= a < m1.mem@.len() && !(page <= a < page + 4096) ==> self.mem@[a]
                        == m1.mem@[a],
                forall|j: int|
                    1 <= j < i ==> #[trigger] entry_at(self.mem@, page as int, j) == entry_at(
                        m1.mem@,
                        source as int,
                        j,
                    ),
                forall|j: int|
                    i <= j < 512 || j == 0 ==> #[trigger] entry_at(self.mem@, page as int, j)
                        == entry_at(m1.mem@, page as int, j),
            decreases 512 - i,
        {
            let ghost before = *self;
            let e = self.read_entry(source, i);
            proof {
                assert(entry_at(before.mem@, source as int, i as int) == entry_at(
                    m1.mem@,
                    source as int,
                    i as int,
                )) by {
                    crate::machine::lemma_table_entries_preserved(
                        m1.mem@,
                        before.mem@,
                        source as int,
                    );
                }
            }
            self.write_entry(page, i, e);
            proof {
                assert forall|j: int|
                    (1 <= j < i + 1 || i + 1 <= j < 512 || j == 0) && j != i implies
                #[trigger] entry_at(self.mem@, page as int, j) == entry_at(
                    before.mem@,
                    page as int,
                    j,
                ) by {
                    lemma_entry_after_slot_write(
                        before.mem@,
                        self.mem@,
                        page as int,
                        i as int,
                        page as int,
                        j,
                    );
                }
            }
            i = i + 1;
        }
        proof {
            let copied = *self;
            // the new table joins the tracked top level
            self.tables = Ghost(self.tables@.update(0, self.tables@[0].insert(page as int)));
            let fin = *self;
            let pg = page as int;
            // entry 0 of the fresh frame is still zero
            assert(entry_at(fin.mem@, pg, 0) == 0) by {
                assert(entry_at(m1.mem@, pg, 0) == crate::mem::le8(0, 0, 0, 0, 0, 0, 0, 0) as u64);
            }
            // every other table is untouched
            assert forall|t2: int, i2: int|
                t2 % 4096 == 0 && 0 <= t2 && t2 + 4096 <= m0.len() && 0 <= i2 < 512 && t2
                    != pg implies #[trigger] entry_at(fin.mem@, t2, i2) == entry_at(
                m0.mem@,
                t2,
                i2,
            ) by {
                assert forall|a: int| t2 <= a < t2 + 4096 implies fin.mem@[a] == m0.mem@[a] by {
                    if fin.mem@[a] != m0.mem@[a] {
                        crate::machine::lemma_frames_disjoint(t2, pg, a);
                        assert(pg <= a < pg + 4096);
                    }
                }
                crate::machine::lemma_table_entries_preserved(m0.mem@, fin.mem@, t2);
            }
            // copied entries reference what the source references
            assert forall|j: int| 1 <= j < 512 implies #[trigger] entry_at(fin.mem@, pg, j)
                == entry_at(m0.mem@, source as int, j) by {
                assert(entry_at(m1.mem@, source as int, j) == entry_at(
                    m0.mem@,
                    source as int,
                    j,
                ));
            }
            // well-formedness
            assert forall|l: int, t2: int|
                0 <= l < 4 && #[trigger] fin.tables@[l].contains(t2) implies frame_in_mem(
                t2,
                fin.len(),
            ) && !fin.free(t2) && !fin.data_frames@.contains(t2) by {
                if l == 0 && t2 == pg {
                    assert(!m1.free(pg));
                    assert(fin.alloc.blocks@ == m1.alloc.blocks@);
                    assert(fin.free(pg) == m1.free(pg));
                } else {
                    assert(m0.tables@[l].contains(t2));
                    assert(!m0.free(t2));
                    assert forall|f: int| #[trigger] fin.free(f) implies m0.free(f) by {
                        assert(fin.free(f) == m1.free(f));
                    }
                }
            }
            assert forall|l1: int, l2: int, t2: int|
                0 <= l1 < 4 && 0 <= l2 < 4 && l1 != l2 && #[trigger] fin.tables@[l1].contains(t2)
                    implies !(#[trigger] fin.tables@[l2].contains(t2)) by {
                if t2 == pg {
                    assert(!m0.any_table(pg));
                    if l1 != 0 {
                        assert(m0.tables@[l1].contains(pg));
                        assert(m0.any_table(pg));
                    }
                    if l2 == 0 && fin.tables@[l2].contains(pg) {
                        assert(l1 != 0);
                        assert(m0.any_table(pg));
                    }
                } else {
                    assert(m0.tables@[l1].contains(t2));
                    if fin.tables@[l2].contains(t2) {
                        assert(m0.tables@[l2].contains(t2));
                    }
                }
            }
            assert forall|l: int, t2: int, i2: int|
                0 <= l < 3 && #[trigger] fin.tables@[l].contains(t2) && 0 <= i2 < 512 && is_present(
                    #[trigger] entry_at(fin.mem@, t2, i2),
                ) implies fin.tables@[l + 1].contains(
                entry_addr(entry_at(fin.mem@, t2, i2)) as int,
            ) by {
                if t2 == pg {
                    assert(l == 0);
                    if i2 == 0 {
                        assert(entry_at(fin.mem@, pg, 0) == 0);
                        assert(0u64 & 1 == 0) by (bit_vector);
                    } else {
                        assert(entry_at(fin.mem@, pg, i2) == entry_at(
                            m0.mem@,
                            source as int,
                            i2,
                        ));
                        assert(m0.tables@[0].contains(source as int));
                        assert(m0.tables@[1].contains(
                            entry_addr(entry_at(m0.mem@, source as int, i2)) as int,
                        ));
                    }
                } else {
                    assert(m0.tables@[l].contains(t2));
                    assert(entry_at(fin.mem@, t2, i2) == entry_at(m0.mem@, t2, i2));
                }
            }
            assert(fin.wf());
            // walks, data pages and the free set
            assert(walks_preserved(m0, fin)) by {
                reveal(walks_preserved);
                assert forall|root2: int, va2: u64|
                    m0.tables@[0].contains(root2) && #[trigger] walk_ok(
                        m0.mem@,
                        m0.len(),
                        root2,
                        va2,
                    ) implies walk_ok(fin.mem@, m0.len(), root2, va2) && leaf_entry(
                    fin.mem@,
                    root2,
                    va2,
                ) == leaf_entry(m0.mem@, root2, va2) by {
                    lemma_level_index_bound(va2);
                    lemma_walk_tables_tracked(m0, root2, va2);
                    assert(root2 != pg);
                    assert(entry_at(fin.mem@, root2, level_index(va2, 0)) == entry_at(
                        m0.mem@,
                        root2,
                        level_index(va2, 0),
                    ));
                    let w1 = walk_t1(m0.mem@, root2, va2);
                    let w2 = walk_t2(m0.mem@, root2, va2);
                    let w3 = walk_t3(m0.mem@, root2, va2);
                    assert(w1 != pg && w2 != pg && w3 != pg);
                    assert(entry_at(fin.mem@, w1, level_index(va2, 1)) == entry_at(
                        m0.mem@,
                        w1,
                        level_index(va2, 1),
                    ));
                    assert(entry_at(fin.mem@, w2, level_index(va2, 2)) == entry_at(
                        m0.mem@,
                        w2,
                        level_index(va2, 2),
                    ));
                    assert(entry_at(fin.mem@, w3, level_index(va2, 3)) == entry_at(
                        m0.mem@,
                        w3,
                        level_index(va2, 3),
                    ));
                }
            }
            assert(crate::machine::data_pages_untouched(m0, fin)) by {
                reveal(crate::machine::data_pages_untouched);
                assert forall|a: int|
                    0 <= a < m0.mem@.len() && fin.mem@[a] != m0.mem@[a] implies !m0.data_frames@.contains(
                    crate::machine::frame_base(a),
                ) by {
                    assert(pg <= a < pg + 4096);
                    lemma_frame_base_of(pg, a);
                    assert(m0.free(pg));
                }
            }
            assert(crate::machine::free_shrunk(m0, fin)) by {
                reveal(crate::machine::free_shrunk);
                assert forall|f: int| #[trigger] fin.free(f) implies m0.free(f) by {
                    assert(fin.free(f) == m1.free(f));
                }
            }
            assert(free_count(fin.alloc.blocks@) == free_count(m0.alloc.blocks@) - 1);
        }
        Ok(page)
    }
}

impl Machine {
    /// Walks the four levels for `virtual_address` from `root` and
    /// returns the physical base of the mapped frame, or `None` anywhere
    /// the walk leaves memory or meets an absent entry.
    pub fn translate_page(&self, root: u64, virtual_address: u64) -> (r: Option<u64>)
        requires
            self.mem@.len() <= crate::MAX_PHYS_SIZE,
        ensures
            r == translate(self.mem@, self.len(), root as int, virtual_address),
    {
        let len = self.mem.len();
        let indies = table_indies(virtual_address);
        if len < 4096 || root % 4096 != 0 || root > len - 4096 {
            return None;
        }
        let e0 = self.read_entry(root, indies[0]);
        if e0 & 1 != 1 {
            return None;
        }
        let t1 = e0 & ENTRY_ADDR_MASK;
        proof {
            lemma_entry_addr_range(e0);
        }
        if t1 > len - 4096 {
            return None;
        }
        let e1 = self.read_entry(t1, indies[1]);
        if e1 & 1 != 1 {
            return None;
        }
        let t2 = e1 & ENTRY_ADDR_MASK;
        proof {
            lemma_entry_addr_range(e1);
        }
        if t2 > len - 4096 {
            return None;
        }
        let e2 = self.read_entry(t2, indies[2]);
        if e2 & 1 != 1 {
            return None;
        }
        let t3 = e2 & ENTRY_ADDR_MASK;
        proof {
            lemma_entry_addr_range(e2);
        }
        if t3 > len - 4096 {
            return None;
        }
        let e3 = self.read_entry(t3, indies[3]);
        if e3 & 1 != 1 {
            return None;
        }
        proof {
            lemma_entry_addr_range(e3);
        }
        Some(e3 & ENTRY_ADDR_MASK)
    }

    /// Reads the byte backing `virtual_address` in the address space at
    /// `root`, or `None` where nothing readable is mapped.
    pub fn read_user_byte(&self, root: u64, virtual_address: u64) -> (r: Option<u8>)
        requires
            self.mem@.len() <= crate::MAX_PHYS_SIZE,
        ensures
            r == user_byte(self.mem@, self.len(), root as int, virtual_address),
    {
        let page = (virtual_address / 4096) * 4096;
        let off = virtual_address % 4096;
        match self.translate_page(root, page) {
            Some(pa) => {
                let len = self.mem.len();
                proof {
                    lemma_entry_addr_range(
                        leaf_entry(self.mem@, root as int, ((virtual_address / 4096) * 4096) as u64),
                    );
                }
                if pa + off < len {
                    Some(self.mem.read_byte(pa + off))
                } else {
                    None
                }
            },
            None => None,
        }
    }

    /// Writes the byte backing `virtual_address` in the address space at
    /// `root`. The page must be mapped to a data frame.
    pub fn write_user_byte(&mut self, root: u64, virtual_address: u64, value: u8)
        requires
            old(self).wf(),
            old(self).tables@[0].contains(root as int),
            translate(
                old(self).mem@,
                old(self).len(),
                root as int,
                ((virtual_address / 4096) * 4096) as u64,
            ) matches Some(pa) && old(self).data_frames@.contains(pa as int),
        ensures
            final(self).wf(),
            crate::machine::preserves_layout(*old(self), *final(self)),
            final(self).alloc.blocks@ == old(self).alloc.blocks@,
            final(self).tables@ == old(self).tables@,
            final(self).data_frames@ == old(self).data_frames@,
            final(self).active_table == old(self).active_table,
            walks_preserved(*old(self), *final(self)),
            ({
                let pa = translate(
                    old(self).mem@,
                    old(self).len(),
                    root as int,
                    ((virtual_address / 4096) * 4096) as u64,
                )->Some_0;
                final(self).mem@ == old(self).mem@.update(
                    pa + (virtual_address % 4096),
                    value,
                )
            }),
    {
        let ghost m0 = *self;
        let page = (virtual_address / 4096) * 4096;
        let off = virtual_address % 4096;
        let pa = match self.translate_page(root, page) {
            Some(pa) => pa,
            None => {
                proof {
                    assert(false);
                }
                return ;
            },
        };
        proof {
            assert(frame_in_mem(pa as int, self.len())) by {
                assert(self.data_frames@.contains(pa as int));
            }
        }
        self.mem.write_byte(pa + off, value);
        proof {
            let fin = *self;
            assert forall|a: int|
                0 <= a < m0.mem@.len() && m0.mem@[a] != #[trigger] fin.mem@[a] implies exists|
                f: int,
            |
                #[trigger] frame_in_mem(f, m0.len()) && f <= a < f + 4096 && !m0.any_table(
                    f,
                ) by {
                assert(a == pa + off);
                assert(frame_in_mem(pa as int, m0.len()) && pa <= a < pa + 4096 && !m0.any_table(
                    pa as int,
                ));
            }
            crate::machine::lemma_all_tables_preserved(m0, fin);
            assert(fin.wf());
            lemma_walks_preserved_data_change(m0, fin);
            assert(walks_preserved(m0, fin)) by {
                reveal(walks_preserved);
            }
        }
    }

    /// Allocates `amount` zeroed frames and records them as data pages;
    /// returns the starting physical address, or 0 when no block fits.
    #[verifier::spinoff_prover]
    #[verifier::rlimit(100)]
    pub fn allocate_data_pages(&mut self, amount: u64) -> (r: u64)
        requires
            old(self).wf(),
            1 <= amount,
        ensures
            final(self).wf(),
            crate::machine::preserves_layout(*old(self), *final(self)),
            final(self).tables@ == old(self).tables@,
            final(self).active_table == old(self).active_table,
            (r == 0) <==> !has_fit(old(self).alloc.blocks@, amount as int),
            r == 0 ==> crate::machine::unchanged_machine(*old(self), *final(self)),
            r != 0 ==> {
                &&& r % 4096 == 0
                &&& 0 < r && r + amount * 4096 <= old(self).len()
                &&& final(self).data_frames@ == old(self).data_frames@.union(
                    Set::new(
                        |f: int|
                            r <= f < r + amount * 4096 && f % 4096 == 0,
                    ),
                )
                &&& (forall|f: int|
                    r <= f < r + amount * 4096 && f % 4096 == 0 ==> old(self).free(f))
                &&& (forall|f: int|
                    #[trigger] final(self).free(f) <==> old(self).free(f) && !(r <= f < r + amount
                        * 4096))
                &&& free_count(final(self).alloc.blocks@) == free_count(old(self).alloc.blocks@)
                    - amount
                &&& (forall|a: int| r <= a < r + amount * 4096 ==> final(self).mem@[a] == 0u8)
                &&& (forall|a: int|
                    0 <= a < old(self).len() && !(r <= a < r + amount * 4096)
                        ==> final(self).mem@[a] == old(self).mem@[a])
                &&& walks_preserved(*old(self), *final(self))
                &&& crate::machine::data_pages_untouched(*old(self), *final(self))
                &&& crate::machine::free_shrunk(*old(self), *final(self))
                &&& (forall|f: int|
                    r <= f < r + amount * 4096 && f % 4096 == 0 ==> !old(
                        self,
                    ).data_frames@.contains(f))
                &&& run_backed(*old(self), *final(self), r as int, amount as int)
            },
    {
        let ghost m0 = *self;
        let r = self.allocate_page(amount);
        if r == 0 {
            return 0;
        }
        let ghost mid = *self;
        proof {
            self.data_frames = Ghost(
                self.data_frames@.union(
                    Set::new(|f: int| r <= f < r + amount * 4096 && f % 4096 == 0),
                ),
            );
            let fin = *self;
            let lo = r as int;
            let hi = r + amount * 4096;
            // the fresh data frames are no tables and no longer free
            assert forall|t: int| #[trigger] fin.data_frames@.contains(t) implies frame_in_mem(
                t,
                fin.len(),
            ) && !fin.free(t) by {
                if m0.data_frames@.contains(t) {
                    assert(!m0.free(t));
                    assert(fin.free(t) == mid.free(t));
                } else {
                    assert(lo <= t < hi && t % 4096 == 0);
                    assert(t + 4096 <= hi) by {
                        assert(t == 4096 * (t / 4096) && hi == 4096 * (hi / 4096));
                        assert(t / 4096 < hi / 4096);
                    }
                    assert(fin.free(t) == mid.free(t));
                }
            }
            assert forall|l: int, t: int|
                0 <= l < 4 && #[trigger] fin.tables@[l].contains(t) implies !fin.data_frames@.contains(
                t,
            ) by {
                if lo <= t < hi && t % 4096 == 0 {
                    assert(m0.free(t));
                }
            }
            assert(fin.wf());
            assert((r + amount * 4096) % 4096 == 0) by (nonlinear_arith)
                requires
                    r % 4096 == 0 && amount >= 0,
            ;
            assert forall|f: int| lo <= f < hi && f % 4096 == 0 implies !m0.any_table(f) by {
                assert(m0.free(f));
            }
            lemma_changes_confined_to_frames(m0, mid, lo, hi);
            lemma_walks_preserved_data_change(m0, mid);
            assert(walks_preserved(m0, fin)) by {
                reveal(walks_preserved);
            }
            assert forall|f: int| #[trigger] fin.free(f) <==> (m0.free(f) && !(lo <= f
                < hi)) by {
                assert(fin.free(f) == mid.free(f));
                assert(mid.free(f) <==> m0.free(f) && !(r <= f < r + amount * 4096));
            }
            assert forall|f: int| lo <= f < hi && f % 4096 == 0 implies !m0.data_frames@.contains(
                f,
            ) by {
                assert(m0.free(f));
            }
            crate::machine::lemma_untouched_by_run(m0, fin, lo, hi);
            assert(crate::machine::free_shrunk(m0, fin)) by {
                reveal(crate::machine::free_shrunk);
            }
            assert(run_backed(m0, fin, lo, amount as int)) by {
                reveal(run_backed);
            }
        }
        r
    }
}

/// Every byte of a mapped page reads through to its backing frame.
#[verifier::spinoff_prover]
#[verifier::rlimit(100)]
pub proof fn lemma_page_reads_through(mem: Seq<u8>, len: int, root: int, va: u64, pa: int, off: int)
    requires
        walk_ok(mem, len, root, va),
        entry_addr(leaf_entry(mem, root, va)) == pa,
        va % 4096 == 0,
        va + 4096 <= u64::MAX,
        0 <= pa,
        pa + 4096 <= len,
        0 <= off < 4096,
    ensures
        user_byte(mem, len, root, (va + off) as u64) == Some(mem[pa + off]),
{
    let va2 = (va + off) as u64;
    assert(va2 as int == va + off);
    crate::machine::lemma_frame_base(va2 as int);
    lemma_frame_base_of(va as int, va2 as int);
    assert(crate::machine::frame_base(va2 as int) == 4096 * (va2 as int / 4096));
    assert((va2 as int / 4096) * 4096 == va);
    assert(((va2 / 4096) * 4096) as u64 == va);
    assert(va2 as int % 4096 == off) by {
        assert(va2 as int == 4096 * (va2 as int / 4096) + va2 as int % 4096);
    }
    assert(translate(mem, len, root, va) == Some(entry_addr(leaf_entry(mem, root, va))));
    assert(pa + (va2 as int % 4096) < len);
    assert(user_byte(mem, len, root, va2) == Some(mem[pa + off]));
}

/// A span mapped onto a zeroed run is ready for user code: each page is
/// present, writable and user-accessible, maps onto the run in order,
/// and every byte of it reads zero.
#[verifier::spinoff_prover]
#[verifier::rlimit(100)]
pub proof fn lemma_span_ready(m: Machine, root: int, start: u64, count: int, phys: int, fl: u64)
    requires
        span_pages_mapped(m, root, start as int, count, phys, fl),
        fl & ENTRY_ADDR_MASK == 0,
        fl & 1 == 0,
        start % 4096 == 0,
        start + count * 4096 <= u64::MAX,
        phys % 4096 == 0,
        0 < phys,
        phys + count * 4096 <= m.len(),
        m.mem@.len() <= crate::MAX_PHYS_SIZE,
        forall|a: int| phys <= a < phys + count * 4096 ==> #[trigger] m.mem@[a] == 0u8,
    ensures
        forall|p: int|
            0 <= p < count ==> #[trigger] walk_ok(m.mem@, m.len(), root, (start + p * 4096) as u64)
                && leaf_entry(m.mem@, root, (start + p * 4096) as u64) & fl == fl && entry_addr(
                leaf_entry(m.mem@, root, (start + p * 4096) as u64),
            ) == (phys + p * 4096) as u64,
        forall|p: int, off: int|
            0 <= p < count && 0 <= off < 4096 ==> #[trigger] user_byte(
                m.mem@,
                m.len(),
                root,
                (start + p * 4096 + off) as u64,
            ) == Some(0u8),
{
    reveal(span_pages_mapped);
    assert forall|p: int| 0 <= p < count implies #[trigger] walk_ok(
        m.mem@,
        m.len(),
        root,
        (start + p * 4096) as u64,
    ) && leaf_entry(m.mem@, root, (start + p * 4096) as u64) & fl == fl && entry_addr(
        leaf_entry(m.mem@, root, (start + p * 4096) as u64),
    ) == (phys + p * 4096) as u64 by {
        let pap = (phys + p * 4096) as u64;
        assert(pap % 4096 == 0 && p * 4096 + 4096 <= count * 4096) by (nonlinear_arith)
            requires
                phys % 4096 == 0 && 0 <= p < count && pap == phys + p * 4096,
        ;
        lemma_entry_new(pap, fl);
        assert((pap | fl | 1) & fl == fl) by (bit_vector);
    }
    assert forall|p: int, off: int| 0 <= p < count && 0 <= off < 4096 implies #[trigger] user_byte(
        m.mem@,
        m.len(),
        root,
        (start + p * 4096 + off) as u64,
    ) == Some(0u8) by {
        let va = (start + p * 4096) as u64;
        assert(va % 4096 == 0 && p * 4096 + 4096 <= count * 4096) by (nonlinear_arith)
            requires
                start % 4096 == 0 && 0 <= p < count && va == start + p * 4096,
        ;
        assert(va + 4096 <= u64::MAX);
        lemma_page_reads_through(m.mem@, m.len(), root, va, phys + p * 4096, off);
    }
}

/// The virtual kernel heap: backs allocations by demand-mapping fresh
/// zeroed frames into the high half, one top-level slot per allocation.
pub struct VirtualAllocator;

impl VirtualAllocator {
    /// Returns a fresh page of zeroed, writable kernel virtual memory:
    /// the first top-level slot at or above the kernel-start boundary that
    /// is absent names a 512 GiB region whose first page gets backed by a
    /// newly allocated frame. Alignments above one page are unsupported
    /// and rejected.
    #[verifier::spinoff_prover]
    #[verifier::rlimit(100)]
    pub fn allocate_zeroed(machine: &mut Machine, size: usize, align: usize) -> (r: Result<
        u64,
        AllocError,
    >)
        requires
            old(machine).wf(),
            align <= 4096 ==> exists|i: int|
                256 <= i < 512 && !is_present(
                    #[trigger] entry_at(
                        old(machine).mem@,
                        old(machine).kernel_table as int,
                        i,
                    ),
                ),
        ensures
            final(machine).wf(),
            crate::machine::preserves_layout(*old(machine), *final(machine)),
            final(machine).tables@[0] == old(machine).tables@[0],
            walks_preserved(*old(machine), *final(machine)),
            crate::machine::free_shrunk(*old(machine), *final(machine)),
            align > 4096 ==> r is Err && crate::machine::unchanged_machine(
                *old(machine),
                *final(machine),
            ),
            align <= 4096 && free_count(old(machine).alloc.blocks@) >= 4 ==> r is Ok,
            r matches Ok(va) ==> {
                &&& va % 4096 == 0
                &&& va >= crate::KERNEL_START
                &&& va == ((level_index(va, 0) as u64) << 39) | crate::KERNEL_START
                // the slot is the first absent one at or above the boundary
                &&& 256 <= level_index(va, 0) < 512
                &&& !is_present(
                    entry_at(
                        old(machine).mem@,
                        old(machine).kernel_table as int,
                        level_index(va, 0),
                    ),
                )
                &&& (forall|i: int|
                    256 <= i < level_index(va, 0) ==> is_present(
                        #[trigger] entry_at(
                            old(machine).mem@,
                            old(machine).kernel_table as int,
                            i,
                        ),
                    ))
                &&& walk_ok(
                    final(machine).mem@,
                    old(machine).len(),
                    old(machine).kernel_table as int,
                    va,
                )
                // mapped writable onto one fresh data frame
                &&& leaf_entry(final(machine).mem@, old(machine).kernel_table as int, va) & 0b10
                    == 0b10
                &&& entry_addr(
                    leaf_entry(final(machine).mem@, old(machine).kernel_table as int, va),
                ) as int % 4096 == 0
                &&& final(machine).data_frames@.contains(
                    entry_addr(
                        leaf_entry(final(machine).mem@, old(machine).kernel_table as int, va),
                    ) as int,
                )
                // every byte of the page reads zero
                &&& (forall|off: int|
                    0 <= off < 4096 ==> #[trigger] user_byte(
                        final(machine).mem@,
                        old(machine).len(),
                        old(machine).kernel_table as int,
                        (va + off) as u64,
                    ) == Some(0u8))
            },
    {
        let ghost m0 = *machine;
        if align > 4096 {
            proof {
                assert(walks_preserved(m0, m0)) by {
                    reveal(walks_preserved);
                }
                assert(crate::machine::free_shrunk(m0, m0)) by {
                    reveal(crate::machine::free_shrunk);
                }
            }
            return Err(AllocError);
        }
        let root = machine.kernel_table;
        let mut index: usize = 256;
        while machine.read_entry(root, index) & 1 == 1
            invariant
                256 <= index <= 512,
                *machine == m0,
                m0.wf(),
                root == m0.kernel_table,
                exists|i: int|
                    index <= i < 512 && !is_present(
                        #[trigger] entry_at(m0.mem@, root as int, i),
                    ),
                forall|i: int|
                    256 <= i < index ==> is_present(
                        #[trigger] entry_at(m0.mem@, root as int, i),
                    ),
            decreases 512 - index,
        {
            proof {
                let i0 = choose|i: int|
                    index <= i < 512 && !is_present(
                        #[trigger] entry_at(m0.mem@, root as int, i),
                    );
                assert(i0 > index);
            }
            index = index + 1;
        }
        let found: usize = index;
        let va = ((found as u64) << 39) | crate::KERNEL_START;
        proof {
            let f = found as u64;
            assert((f << 39 | 0xFFFF_8000_0000_0000u64) % 4096 == 0 && ((f << 39
                | 0xFFFF_8000_0000_0000u64) >> 39) & 0x1ff == f && (f << 39
                | 0xFFFF_8000_0000_0000u64) >= 0xFFFF_8000_0000_0000u64 && (f << 39
                | 0xFFFF_8000_0000_0000u64) <= 0xFFFF_FFFF_FFFF_EFFFu64) by (bit_vector)
                requires
                    256 <= f < 512,
            ;
            assert(level_index(va, 0) == found);
            assert(!walk_ok(m0.mem@, m0.len(), root as int, va));
        }
        let page = machine.allocate_data_pages(1);
        if page == 0 {
            proof {
                // the free list was empty, so well under four spare frames
                if m0.alloc.blocks@.len() > 0 {
                    assert(m0.alloc.blocks@[0].size >= 1);
                    assert(has_fit(m0.alloc.blocks@, 1));
                }
                assert(free_count(m0.alloc.blocks@) == 0);
                assert(walks_preserved(m0, m0)) by {
                    reveal(walks_preserved);
                }
                assert(crate::machine::free_shrunk(m0, m0)) by {
                    reveal(crate::machine::free_shrunk);
                }
                assert(crate::machine::data_pages_untouched(m0, m0)) by {
                    reveal(crate::machine::data_pages_untouched);
                }
                crate::paging::lemma_confinement_congruence(m0, m0, *machine);
            }
            return Err(AllocError);
        }
        let ghost m1 = *machine;
        proof {
            assert(!walk_ok(m1.mem@, m1.len(), root as int, va)) by {
                assert(entry_at(m1.mem@, root as int, found as int) == entry_at(
                    m0.mem@,
                    root as int,
                    found as int,
                )) by {
                    crate::machine::lemma_table_entries_preserved(
                        m0.mem@,
                        m1.mem@,
                        root as int,
                    );
                }
            }
        }
        let fl = Flags::write();
        proof {
            assert(0b10u64 & ENTRY_ADDR_MASK == 0 && 0b10u64 & 1 == 0) by (bit_vector);
        }
        match machine.create_mapping(root, va, page, fl) {
            Ok(_) => {},
            Err(_) => {
                proof {
                    // fewer than three frames were left for interior tables
                    assert(free_count(m1.alloc.blocks@) < 3);
                    assert(free_count(m0.alloc.blocks@) < 4);
                    crate::paging::lemma_walks_preserved_trans(m0, m1, *machine);
                    crate::machine::lemma_free_shrunk_trans(m0, m1, *machine);
                }
                return Err(AllocError);
            },
        }
        proof {
            let fin = *machine;
            crate::paging::lemma_walks_preserved_trans(m0, m1, *machine);
            crate::machine::lemma_free_shrunk_trans(m0, m1, *machine);
            lemma_entry_addr_range(leaf_entry(fin.mem@, m0.kernel_table as int, va));
            // the leaf is the fresh frame, writable
            assert(leaf_entry(fin.mem@, root as int, va) == (page | 0b10 | 1));
            assert((page | 0b10 | 1) & 0b10 == 0b10 && (page | 0b10 | 1) & ENTRY_ADDR_MASK
                == page) by (bit_vector)
                requires
                    page % 4096 == 0 && page < 0x10_0000_0000_0000,
            ;
            // the backing frame kept its zero bytes across the mapping
            assert forall|a: int| page <= a < page + 4096 implies #[trigger] fin.mem@[a]
                == 0u8 by {
                if fin.mem@[a] != m1.mem@[a] {
                    reveal(crate::machine::data_pages_untouched);
                    crate::machine::lemma_frame_base(a);
                    crate::machine::lemma_frame_base_le(page as int, a);
                    assert(m1.data_frames@.contains(crate::machine::frame_base(a)));
                }
            }
            // so every byte of the page reads zero
            assert forall|off: int| 0 <= off < 4096 implies #[trigger] user_byte(
                fin.mem@,
                m0.len(),
                root as int,
                (va + off) as u64,
            ) == Some(0u8) by {
                lemma_page_reads_through(
                    fin.mem@,
                    m0.len(),
                    root as int,
                    va,
                    page as int,
                    off,
                );
            }
        }
        Ok(va)
    }

    /// Extends a kernel-heap allocation: the leaf slots after its current
    /// `old_pages` pages receive fresh zeroed writable frames, up to
    /// `new_pages` in all, inside the same leaf table — growth never
    /// crosses a higher-level boundary. Returns the byte length the
    /// allocator reports for the grown block. Alignments above one page
    /// are unsupported and rejected; a slot already mapped or an
    /// exhausted free list fails the call.
    #[verifier::spinoff_prover]
    #[verifier::rlimit(100)]
    pub fn grow_zeroed(
        machine: &mut Machine,
        ptr: u64,
        old_pages: u64,
        new_pages: u64,
        align: usize,
    ) -> (r: Result<u64, AllocError>)
        requires
            old(machine).wf(),
            ptr % 4096 == 0,
            old_pages <= new_pages,
            ptr + new_pages * 4096 <= u64::MAX,
            level_index(ptr, 3) + new_pages <= 512,
        ensures
            final(machine).wf(),
            crate::machine::preserves_layout(*old(machine), *final(machine)),
            final(machine).tables@[0] == old(machine).tables@[0],
            final(machine).active_table == old(machine).active_table,
            walks_preserved(*old(machine), *final(machine)),
            crate::machine::data_pages_untouched(*old(machine), *final(machine)),
            crate::machine::free_shrunk(*old(machine), *final(machine)),
            align > 4096 ==> r is Err && crate::machine::unchanged_machine(
                *old(machine),
                *final(machine),
            ),
            r is Err && align <= 4096 && old_pages < new_pages ==> !crate::allocator::has_fit(
                final(machine).alloc.blocks@,
                new_pages - old_pages,
            ) || (exists|q: int|
                0 <= q < new_pages - old_pages && #[trigger] walk_ok(
                    final(machine).mem@,
                    old(machine).len(),
                    old(machine).active_table as int,
                    (ptr + old_pages * 4096 + q * 4096) as u64,
                )),
            r matches Ok(len) ==> {
                &&& len == (level_index(ptr, 3) + new_pages) * 4096
                &&& (forall|q: int|
                    0 <= q < new_pages - old_pages ==> #[trigger] walk_ok(
                        final(machine).mem@,
                        old(machine).len(),
                        old(machine).active_table as int,
                        (ptr + old_pages * 4096 + q * 4096) as u64,
                    ) && leaf_entry(
                        final(machine).mem@,
                        old(machine).active_table as int,
                        (ptr + old_pages * 4096 + q * 4096) as u64,
                    ) & 0b10 == 0b10)
                &&& (forall|q: int, off: int|
                    0 <= q < new_pages - old_pages && 0 <= off < 4096 ==> #[trigger] user_byte(
                        final(machine).mem@,
                        old(machine).len(),
                        old(machine).active_table as int,
                        (ptr + old_pages * 4096 + q * 4096 + off) as u64,
                    ) == Some(0u8))
            },
    {
        let ghost m0 = *machine;
        if align > 4096 {
            proof {
                assert(walks_preserved(m0, m0)) by {
                    reveal(walks_preserved);
                }
                assert(crate::machine::data_pages_untouched(m0, m0)) by {
                    reveal(crate::machine::data_pages_untouched);
                }
                assert(crate::machine::free_shrunk(m0, m0)) by {
                    reveal(crate::machine::free_shrunk);
                }
            }
            return Err(AllocError);
        }
        let count = new_pages - old_pages;
        let indies = table_indies(ptr);
        let new_len = (indies[3] as u64 + new_pages) * 4096;
        if count == 0 {
            proof {
                assert(walks_preserved(m0, m0)) by {
                    reveal(walks_preserved);
                }
                assert(crate::machine::data_pages_untouched(m0, m0)) by {
                    reveal(crate::machine::data_pages_untouched);
                }
                assert(crate::machine::free_shrunk(m0, m0)) by {
                    reveal(crate::machine::free_shrunk);
                }
            }
            return Ok(new_len);
        }
        let root = machine.active_table;
        proof {
            assert(old_pages * 4096 + count * 4096 == new_pages * 4096) by (nonlinear_arith)
                requires
                    old_pages + count == new_pages,
            ;
            assert((ptr + old_pages * 4096) % 4096 == 0) by (nonlinear_arith)
                requires
                    ptr % 4096 == 0 && old_pages >= 0,
            ;
        }
        let grow_start = ptr + old_pages * 4096;
        let phys = machine.allocate_data_pages(count);
        if phys == 0 {
            proof {
                assert(walks_preserved(m0, m0)) by {
                    reveal(walks_preserved);
                }
                assert(crate::machine::data_pages_untouched(m0, m0)) by {
                    reveal(crate::machine::data_pages_untouched);
                }
                assert(crate::machine::free_shrunk(m0, m0)) by {
                    reveal(crate::machine::free_shrunk);
                }
                crate::paging::lemma_confinement_congruence(m0, m0, *machine);
            }
            return Err(AllocError);
        }
        let ghost m1 = *machine;
        let fw = Flags::write();
        proof {
            assert(0b10u64 & ENTRY_ADDR_MASK == 0 && 0b10u64 & 1 == 0) by (bit_vector);
        }
        match machine.map_span(root, grow_start, count, phys, fw) {
            Ok(_) => {},
            Err(e) => {
                proof {
                    crate::paging::lemma_walks_preserved_trans(m0, m1, *machine);
                    crate::machine::lemma_data_pages_untouched_trans(m0, m1, *machine);
                    crate::machine::lemma_free_shrunk_trans(m0, m1, *machine);
                    if e == crate::elf::ELFError::OutOfMemory {
                        assert(!crate::allocator::has_fit(machine.alloc.blocks@, count as int));
                    }
                }
                return Err(AllocError);
            },
        }
        let ghost m2 = *machine;
        proof {
            crate::paging::lemma_walks_preserved_trans(m0, m1, m2);
            crate::machine::lemma_data_pages_untouched_trans(m0, m1, m2);
            crate::machine::lemma_free_shrunk_trans(m0, m1, m2);
            // the run kept its zero bytes across the mapping
            assert forall|a: int|
                phys <= a < phys + count * 4096 implies #[trigger] m2.mem@[a] == 0u8 by {
                if m2.mem@[a] != m1.mem@[a] {
                    reveal(crate::machine::data_pages_untouched);
                    crate::machine::lemma_frame_base(a);
                    crate::machine::lemma_frame_base_le(phys as int, a);
                    assert(m1.data_frames@.contains(crate::machine::frame_base(a)));
                }
            }
            lemma_span_ready(m2, root as int, grow_start, count as int, phys as int, 0b10);
        }
        Ok(new_len)
    }
}


/// The flag-propagation pass leaves every tracked table entry either as
/// it was or with exactly the flag bits added, and touches nothing else.
pub open spec fn tables_flag_dichotomy(m0: Machine, m: Machine, fl: u64) -> bool {
    &&& m.tables@ == m0.tables@
    &&& m.data_frames@ == m0.data_frames@
    &&& m.alloc == m0.alloc
    &&& m.kernel_table == m0.kernel_table
    &&& m.active_table == m0.active_table
    &&& m.mem@.len() == m0.mem@.len()
    &&& (forall|l: int, t: int, i: int|
        0 <= l < 4 && #[trigger] m0.tables@[l].contains(t) && 0 <= i < 512 ==> #[trigger] entry_at(
            m.mem@,
            t,
            i,
        ) == entry_at(m0.mem@, t, i) || entry_at(m.mem@, t, i) == (entry_at(m0.mem@, t, i) | fl))
    &&& (forall|a: int|
        0 <= a < m0.mem@.len() && m.mem@[a] != #[trigger] m0.mem@[a] ==> m0.any_table(
            crate::machine::frame_base(a),
        ))
}

/// Under the dichotomy, every walk keeps its shape: the same tables, the
/// same present entries, the same leaf address; the leaf word itself at
/// most gains the flag bits.
#[verifier::spinoff_prover]
#[verifier::rlimit(100)]
pub proof fn lemma_walks_or_flags(m0: Machine, m: Machine, fl: u64)
    requires
        m0.wf(),
        fl & ENTRY_ADDR_MASK == 0,
        fl & 1 == 0,
        tables_flag_dichotomy(m0, m, fl),
    ensures
        forall|r2: int, va: u64|
            m0.tables@[0].contains(r2) && #[trigger] walk_ok(m0.mem@, m0.len(), r2, va)
                ==> walk_ok(m.mem@, m0.len(), r2, va) && entry_addr(leaf_entry(m.mem@, r2, va))
                == entry_addr(leaf_entry(m0.mem@, r2, va)) && (leaf_entry(m.mem@, r2, va)
                == leaf_entry(m0.mem@, r2, va) || leaf_entry(m.mem@, r2, va) == (leaf_entry(
                m0.mem@,
                r2,
                va,
            ) | fl)),
{
    assert forall|r2: int, va: u64|
        m0.tables@[0].contains(r2) && #[trigger] walk_ok(m0.mem@, m0.len(), r2, va) implies walk_ok(
        m.mem@,
        m0.len(),
        r2,
        va,
    ) && entry_addr(leaf_entry(m.mem@, r2, va)) == entry_addr(leaf_entry(m0.mem@, r2, va)) && (
    leaf_entry(m.mem@, r2, va) == leaf_entry(m0.mem@, r2, va) || leaf_entry(m.mem@, r2, va) == (
    leaf_entry(m0.mem@, r2, va) | fl)) by {
        lemma_level_index_bound(va);
        lemma_walk_tables_tracked(m0, r2, va);
        let t1 = walk_t1(m0.mem@, r2, va);
        let t2 = walk_t2(m0.mem@, r2, va);
        let t3 = walk_t3(m0.mem@, r2, va);
        lemma_entry_or_flags(entry_at(m0.mem@, r2, level_index(va, 0)), fl);
        assert(walk_t1(m.mem@, r2, va) == t1 && is_present(walk_e0(m.mem@, r2, va)));
        lemma_entry_or_flags(entry_at(m0.mem@, t1, level_index(va, 1)), fl);
        assert(walk_t2(m.mem@, r2, va) == t2 && is_present(walk_e1(m.mem@, r2, va)));
        lemma_entry_or_flags(entry_at(m0.mem@, t2, level_index(va, 2)), fl);
        assert(walk_t3(m.mem@, r2, va) == t3 && is_present(walk_e2(m.mem@, r2, va)));
        lemma_entry_or_flags(entry_at(m0.mem@, t3, level_index(va, 3)), fl);
    }
}

impl Machine {
    /// Or-s `flags` into the entry at (`table`, `index`); every other byte
    /// of the machine is untouched.
    #[verifier::spinoff_prover]
    #[verifier::rlimit(100)]
    fn or_entry(&mut self, table: u64, level: Ghost<int>, index: usize, flags: Flags)
        requires
            old(self).wf(),
            0 <= level@ < 4,
            old(self).tables@[level@].contains(table as int),
            index < 512,
            flags.wf(),
        ensures
            final(self).wf(),
            final(self).tables@ == old(self).tables@,
            final(self).data_frames@ == old(self).data_frames@,
            final(self).alloc == old(self).alloc,
            final(self).kernel_table == old(self).kernel_table,
            final(self).active_table == old(self).active_table,
            final(self).mem@.len() == old(self).mem@.len(),
            entry_at(final(self).mem@, table as int, index as int) == (entry_at(
                old(self).mem@,
                table as int,
                index as int,
            ) | flags.0),
            forall|t2: int, i2: int|
                t2 % 4096 == 0 && 0 <= t2 && t2 + 4096 <= old(self).len() && 0 <= i2 < 512 && (t2
                    != table || i2 != index) ==> #[trigger] entry_at(final(self).mem@, t2, i2)
                    == entry_at(old(self).mem@, t2, i2),
            forall|a: int|
                0 <= a < old(self).mem@.len() && !(table + 8 * index <= a < table + 8 * index + 8)
                    ==> final(self).mem@[a] == old(self).mem@[a],
    {
        let ghost pre = *self;
        let e = self.read_entry(table, index);
        self.write_entry(table, index, e | flags.0);
        proof {
            let fin = *self;
            let wt = table as int;
            let wi = index as int;
            lemma_entry_or_flags(e, flags.0);
            assert forall|t2: int, i2: int|
                t2 % 4096 == 0 && 0 <= t2 && t2 + 4096 <= pre.len() && 0 <= i2 < 512 && (t2 != wt
                    || i2 != wi) implies #[trigger] entry_at(fin.mem@, t2, i2) == entry_at(
                pre.mem@,
                t2,
                i2,
            ) by {
                lemma_entry_after_slot_write(pre.mem@, fin.mem@, wt, wi, t2, i2);
            }
            assert forall|l: int, t2: int, i2: int|
                0 <= l < 3 && #[trigger] fin.tables@[l].contains(t2) && 0 <= i2 < 512
                    && is_present(#[trigger] entry_at(fin.mem@, t2, i2)) implies
                fin.tables@[l + 1].contains(entry_addr(entry_at(fin.mem@, t2, i2)) as int) by {
                if t2 == wt && i2 == wi {
                } else {
                    assert(entry_at(fin.mem@, t2, i2) == entry_at(pre.mem@, t2, i2));
                }
            }
            assert(fin.wf());
        }
    }
}


/// What the top-level table looks like after the pass has handled its
/// first `bound` slots: present entries gained the flags, absent slots
/// are as they were.
pub open spec fn root_entry_after(m0: Machine, root: int, fl: u64, bound: int, i: int) -> u64 {
    if i < bound && is_present(entry_at(m0.mem@, root, i)) {
        entry_at(m0.mem@, root, i) | fl
    } else {
        entry_at(m0.mem@, root, i)
    }
}

/// The top-level table holds exactly the processed shape.
pub open spec fn root_shape(m0: Machine, m: Machine, root: int, fl: u64, bound: int) -> bool {
    forall|i: int|
        0 <= i < 512 ==> #[trigger] entry_at(m.mem@, root, i) == root_entry_after(
            m0,
            root,
            fl,
            bound,
            i,
        )
}

/// One flag-or write into a tracked table keeps the dichotomy.
#[verifier::spinoff_prover]
#[verifier::rlimit(100)]
proof fn lemma_dichotomy_step(
    m0: Machine,
    pre: Machine,
    post: Machine,
    t: int,
    level: int,
    i: int,
    fl: u64,
)
    requires
        m0.wf(),
        tables_flag_dichotomy(m0, pre, fl),
        0 <= level < 4,
        m0.tables@[level].contains(t),
        0 <= i < 512,
        post.tables@ == pre.tables@,
        post.data_frames@ == pre.data_frames@,
        post.alloc == pre.alloc,
        post.kernel_table == pre.kernel_table,
        post.active_table == pre.active_table,
        post.mem@.len() == pre.mem@.len(),
        entry_at(post.mem@, t, i) == (entry_at(pre.mem@, t, i) | fl),
        forall|t2: int, i2: int|
            t2 % 4096 == 0 && 0 <= t2 && t2 + 4096 <= pre.mem@.len() && 0 <= i2 < 512 && (t2 != t
                || i2 != i) ==> #[trigger] entry_at(post.mem@, t2, i2) == entry_at(
                pre.mem@,
                t2,
                i2,
            ),
        forall|a: int|
            0 <= a < pre.mem@.len() && !(t + 8 * i <= a < t + 8 * i + 8) ==> post.mem@[a]
                == pre.mem@[a],
    ensures
        tables_flag_dichotomy(m0, post, fl),
{
    assert forall|l2: int, t2: int, i2: int|
        0 <= l2 < 4 && #[trigger] m0.tables@[l2].contains(t2) && 0 <= i2 < 512 implies
    #[trigger] entry_at(post.mem@, t2, i2) == entry_at(m0.mem@, t2, i2) || entry_at(
        post.mem@,
        t2,
        i2,
    ) == (entry_at(m0.mem@, t2, i2) | fl) by {
        if t2 == t && i2 == i {
            let e0 = entry_at(m0.mem@, t, i);
            let ep = entry_at(pre.mem@, t, i);
            assert(ep == e0 || ep == (e0 | fl));
            assert(((e0 | fl) | fl) == (e0 | fl)) by (bit_vector);
        }
    }
    assert forall|a: int|
        0 <= a < m0.mem@.len() && post.mem@[a] != #[trigger] m0.mem@[a] implies m0.any_table(
        crate::machine::frame_base(a),
    ) by {
        if post.mem@[a] != pre.mem@[a] {
            assert(t + 8 * i <= a < t + 8 * i + 8);
            lemma_frame_base_of(t, a);
            assert(m0.tables@[level].contains(t));
        }
    }
}


/// The entry at slot `i` of the table at `t` is exactly its boot-shape
/// word with the flags added.
pub open spec fn entry_ored(m0: Machine, m: Machine, t: int, i: int, fl: u64) -> bool {
    entry_at(m.mem@, t, i) == (entry_at(m0.mem@, t, i) | fl)
}

/// Every walk of the boot shape whose top-level index lies below `bound`
/// has all four of its entries flag-widened.
pub open spec fn walks_ored_below(m0: Machine, m: Machine, root: int, fl: u64, bound: int) -> bool {
    forall|va: u64|
        #[trigger] walk_ok(m0.mem@, m0.len(), root, va) && level_index(va, 0) < bound ==> {
            &&& entry_ored(m0, m, root, level_index(va, 0), fl)
            &&& entry_ored(m0, m, walk_t1(m0.mem@, root, va), level_index(va, 1), fl)
            &&& entry_ored(m0, m, walk_t2(m0.mem@, root, va), level_index(va, 2), fl)
            &&& entry_ored(m0, m, walk_t3(m0.mem@, root, va), level_index(va, 3), fl)
        }
}

/// Walks through top slot `i0` whose middle index lies below `bound`
/// have their lower three entries flag-widened.
pub open spec fn subtree_ored1(m0: Machine, m: Machine, root: int, fl: u64, i0: int, bound: int) -> bool {
    forall|va: u64|
        #[trigger] walk_ok(m0.mem@, m0.len(), root, va) && level_index(va, 0) == i0
            && level_index(va, 1) < bound ==> {
            &&& entry_ored(m0, m, walk_t1(m0.mem@, root, va), level_index(va, 1), fl)
            &&& entry_ored(m0, m, walk_t2(m0.mem@, root, va), level_index(va, 2), fl)
            &&& entry_ored(m0, m, walk_t3(m0.mem@, root, va), level_index(va, 3), fl)
        }
}

/// Walks through slots `i0`, `i1` whose third index lies below `bound`
/// have their lower two entries flag-widened.
pub open spec fn subtree_ored2(m0: Machine, m: Machine, root: int, fl: u64, i0: int, i1: int, bound: int) -> bool {
    forall|va: u64|
        #[trigger] walk_ok(m0.mem@, m0.len(), root, va) && level_index(va, 0) == i0
            && level_index(va, 1) == i1 && level_index(va, 2) < bound ==> {
            &&& entry_ored(m0, m, walk_t2(m0.mem@, root, va), level_index(va, 2), fl)
            &&& entry_ored(m0, m, walk_t3(m0.mem@, root, va), level_index(va, 3), fl)
        }
}

/// Walks through slots `i0`, `i1`, `i2` whose leaf index lies below
/// `bound` have their leaf flag-widened.
pub open spec fn subtree_ored3(m0: Machine, m: Machine, root: int, fl: u64, i0: int, i1: int, i2: int, bound: int) -> bool {
    forall|va: u64|
        #[trigger] walk_ok(m0.mem@, m0.len(), root, va) && level_index(va, 0) == i0
            && level_index(va, 1) == i1 && level_index(va, 2) == i2 && level_index(va, 3)
            < bound ==> entry_ored(m0, m, walk_t3(m0.mem@, root, va), level_index(va, 3), fl)
}

/// One flag-or write preserves every already-widened entry, and with it
/// every widened-walk family fact: the operation is idempotent.
#[verifier::spinoff_prover]
#[verifier::rlimit(100)]
proof fn lemma_ored_family_stable(
    m0: Machine,
    pre: Machine,
    post: Machine,
    root: int,
    fl: u64,
    wt: int,
    wi: int,
    b0: int,
    i0: int,
    b1: int,
    i1: int,
    b2: int,
    i2: int,
    b3: int,
)
    requires
        m0.wf(),
        m0.tables@[0].contains(root),
        pre.mem@.len() == m0.mem@.len(),
        post.mem@.len() == pre.mem@.len(),
        wt % 4096 == 0,
        0 <= wt,
        0 <= wi < 512,
        entry_at(post.mem@, wt, wi) == (entry_at(pre.mem@, wt, wi) | fl),
        forall|t2: int, j2: int|
            t2 % 4096 == 0 && 0 <= t2 && t2 + 4096 <= pre.mem@.len() && 0 <= j2 < 512 && (t2 != wt
                || j2 != wi) ==> #[trigger] entry_at(post.mem@, t2, j2) == entry_at(
                pre.mem@,
                t2,
                j2,
            ),
        walks_ored_below(m0, pre, root, fl, b0),
        subtree_ored1(m0, pre, root, fl, i0, b1),
        subtree_ored2(m0, pre, root, fl, i0, i1, b2),
        subtree_ored3(m0, pre, root, fl, i0, i1, i2, b3),
    ensures
        forall|t: int, j: int|
            t % 4096 == 0 && 0 <= t && t + 4096 <= m0.mem@.len() && 0 <= j < 512
                && #[trigger] entry_ored(m0, pre, t, j, fl) ==> entry_ored(m0, post, t, j, fl),
        walks_ored_below(m0, post, root, fl, b0),
        subtree_ored1(m0, post, root, fl, i0, b1),
        subtree_ored2(m0, post, root, fl, i0, i1, b2),
        subtree_ored3(m0, post, root, fl, i0, i1, i2, b3),
{
    assert forall|t: int, j: int|
        t % 4096 == 0 && 0 <= t && t + 4096 <= m0.mem@.len() && 0 <= j < 512
            && #[trigger] entry_ored(m0, pre, t, j, fl) implies entry_ored(
        m0,
        post,
        t,
        j,
        fl,
    ) by {
        if t == wt && j == wi {
            let e = entry_at(m0.mem@, wt, wi);
            assert(((e | fl) | fl) == (e | fl)) by (bit_vector);
        }
    }
    assert forall|va: u64|
        #[trigger] walk_ok(m0.mem@, m0.len(), root, va) && level_index(va, 0) < b0 implies {
        &&& entry_ored(m0, post, root, level_index(va, 0), fl)
        &&& entry_ored(m0, post, walk_t1(m0.mem@, root, va), level_index(va, 1), fl)
        &&& entry_ored(m0, post, walk_t2(m0.mem@, root, va), level_index(va, 2), fl)
        &&& entry_ored(m0, post, walk_t3(m0.mem@, root, va), level_index(va, 3), fl)
    } by {
        lemma_level_index_bound(va);
        lemma_walk_tables_tracked(m0, root, va);
    }
    assert forall|va: u64|
        #[trigger] walk_ok(m0.mem@, m0.len(), root, va) && level_index(va, 0) == i0
            && level_index(va, 1) < b1 implies {
        &&& entry_ored(m0, post, walk_t1(m0.mem@, root, va), level_index(va, 1), fl)
        &&& entry_ored(m0, post, walk_t2(m0.mem@, root, va), level_index(va, 2), fl)
        &&& entry_ored(m0, post, walk_t3(m0.mem@, root, va), level_index(va, 3), fl)
    } by {
        lemma_level_index_bound(va);
        lemma_walk_tables_tracked(m0, root, va);
    }
    assert forall|va: u64|
        #[trigger] walk_ok(m0.mem@, m0.len(), root, va) && level_index(va, 0) == i0
            && level_index(va, 1) == i1 && level_index(va, 2) < b2 implies {
        &&& entry_ored(m0, post, walk_t2(m0.mem@, root, va), level_index(va, 2), fl)
        &&& entry_ored(m0, post, walk_t3(m0.mem@, root, va), level_index(va, 3), fl)
    } by {
        lemma_level_index_bound(va);
        lemma_walk_tables_tracked(m0, root, va);
    }
    assert forall|va: u64|
        #[trigger] walk_ok(m0.mem@, m0.len(), root, va) && level_index(va, 0) == i0
            && level_index(va, 1) == i1 && level_index(va, 2) == i2 && level_index(va, 3)
            < b3 implies entry_ored(m0, post, walk_t3(m0.mem@, root, va), level_index(va, 3), fl) by {
        lemma_level_index_bound(va);
        lemma_walk_tables_tracked(m0, root, va);
    }
}

impl Machine {
    /// Or-s `flags` into every present entry of every table reachable
    /// from `root`, walking all four levels, revisiting shared subtrees
    /// harmlessly since the operation is idempotent. The contract says it
    /// whole: every entry on every walk of this address space gains
    /// exactly the flag bits, the top level is pinned slot for slot,
    /// every tracked table entry either keeps its word or gains exactly
    /// the flags, addresses and presence never change, and nothing
    /// outside the tables moves. Propagating flags through subtrees
    /// other address spaces share is deliberate here and is the reason
    /// the kernel treats this routine with caution.
    #[verifier::spinoff_prover]
    #[verifier::rlimit(100)]
    pub fn set_recursively(&mut self, root: u64, flags: Flags)
        requires
            old(self).wf(),
            old(self).tables@[0].contains(root as int),
            flags.wf(),
        ensures
            final(self).wf(),
            tables_flag_dichotomy(*old(self), *final(self), flags.0),
            root_shape(*old(self), *final(self), root as int, flags.0, 512),
            crate::machine::data_pages_untouched(*old(self), *final(self)),
            // every entry on every walk of this address space gains the flags
            forall|va: u64|
                #[trigger] walk_ok(old(self).mem@, old(self).len(), root as int, va) ==> {
                    &&& walk_e0(final(self).mem@, root as int, va) == (walk_e0(
                        old(self).mem@,
                        root as int,
                        va,
                    ) | flags.0)
                    &&& walk_e1(final(self).mem@, root as int, va) == (walk_e1(
                        old(self).mem@,
                        root as int,
                        va,
                    ) | flags.0)
                    &&& walk_e2(final(self).mem@, root as int, va) == (walk_e2(
                        old(self).mem@,
                        root as int,
                        va,
                    ) | flags.0)
                    &&& leaf_entry(final(self).mem@, root as int, va) == (leaf_entry(
                        old(self).mem@,
                        root as int,
                        va,
                    ) | flags.0)
                },
            // walks of every tracked address space keep their shape
            forall|r2: int, va: u64|
                old(self).tables@[0].contains(r2) && #[trigger] walk_ok(
                    old(self).mem@,
                    old(self).len(),
                    r2,
                    va,
                ) ==> walk_ok(final(self).mem@, old(self).len(), r2, va) && entry_addr(
                    leaf_entry(final(self).mem@, r2, va),
                ) == entry_addr(leaf_entry(old(self).mem@, r2, va)) && (leaf_entry(
                    final(self).mem@,
                    r2,
                    va,
                ) == leaf_entry(old(self).mem@, r2, va) || leaf_entry(final(self).mem@, r2, va)
                    == (leaf_entry(old(self).mem@, r2, va) | flags.0)),
    {
        let ghost m0 = *self;
        let ghost fl = flags.0;
        let ghost ri = root as int;
        proof {
            assert(tables_flag_dichotomy(m0, m0, fl));
            assert(root_shape(m0, m0, ri, fl, 0));
            assert(walks_ored_below(m0, m0, ri, fl, 0));
        }
        let mut i0: usize = 0;
        while i0 < 512
            invariant
                m0 == *old(self),
                i0 <= 512,
                m0.wf(),
                flags.wf(),
                fl == flags.0,
                ri == root as int,
                m0.tables@[0].contains(ri),
                self.wf(),
                tables_flag_dichotomy(m0, *self, fl),
                root_shape(m0, *self, ri, fl, i0 as int),
                walks_ored_below(m0, *self, ri, fl, i0 as int),
            decreases 512 - i0,
        {
            let e0 = self.read_entry(root, i0);
            if e0 & 1 == 1 {
                let ghost pre0 = *self;
                self.or_entry(root, Ghost(0), i0, flags);
                proof {
                    lemma_dichotomy_step(m0, pre0, *self, ri, 0, i0 as int, fl);
                    lemma_ored_family_stable(
                        m0,
                        pre0,
                        *self,
                        ri,
                        fl,
                        ri,
                        i0 as int,
                        i0 as int,
                        0,
                        0,
                        0,
                        0,
                        0,
                        0,
                    );
                    assert(root_shape(m0, *self, ri, fl, i0 + 1)) by {
                        assert(e0 == entry_at(m0.mem@, ri, i0 as int));
                    }
                    // the top slot is now exactly flag-widened
                    assert(entry_ored(m0, *self, ri, i0 as int, fl)) by {
                        assert(entry_at(pre0.mem@, ri, i0 as int) == entry_at(
                            m0.mem@,
                            ri,
                            i0 as int,
                        ));
                    }
                    assert(subtree_ored1(m0, *self, ri, fl, i0 as int, 0));
                }
                let t1 = e0 & ENTRY_ADDR_MASK;
                proof {
                    lemma_entry_addr_range(e0);
                    assert(m0.tables@[1].contains(t1 as int));
                }
                let mut i1: usize = 0;
                while i1 < 512
                    invariant
                        m0 == *old(self),
                        i0 < 512,
                        i1 <= 512,
                        m0.wf(),
                        flags.wf(),
                        fl == flags.0,
                        ri == root as int,
                        m0.tables@[0].contains(ri),
                        m0.tables@[1].contains(t1 as int),
                        t1 == entry_addr(entry_at(m0.mem@, ri, i0 as int)),
                        is_present(entry_at(m0.mem@, ri, i0 as int)),
                        self.wf(),
                        tables_flag_dichotomy(m0, *self, fl),
                        root_shape(m0, *self, ri, fl, i0 + 1),
                        walks_ored_below(m0, *self, ri, fl, i0 as int),
                        entry_ored(m0, *self, ri, i0 as int, fl),
                        subtree_ored1(m0, *self, ri, fl, i0 as int, i1 as int),
                    decreases 512 - i1,
                {
                    let e1 = self.read_entry(t1, i1);
                    if e1 & 1 == 1 {
                        let ghost pre1 = *self;
                        self.or_entry(t1, Ghost(1), i1, flags);
                        proof {
                            lemma_dichotomy_step(m0, pre1, *self, t1 as int, 1, i1 as int, fl);
                            lemma_ored_family_stable(
                                m0,
                                pre1,
                                *self,
                                ri,
                                fl,
                                t1 as int,
                                i1 as int,
                                i0 as int,
                                i0 as int,
                                i1 as int,
                                0,
                                0,
                                0,
                                0,
                            );
                            assert(root_shape(m0, *self, ri, fl, i0 + 1)) by {
                                assert forall|i: int| 0 <= i < 512 implies #[trigger] entry_at(
                                    self.mem@,
                                    ri,
                                    i,
                                ) == entry_at(pre1.mem@, ri, i) by {
                                    assert(ri != t1 as int);
                                }
                            }
                            // this level-1 slot is now exactly flag-widened
                            assert(entry_ored(m0, *self, t1 as int, i1 as int, fl)) by {
                                let e = entry_at(m0.mem@, t1 as int, i1 as int);
                                assert(((e | fl) | fl) == (e | fl)) by (bit_vector);
                            }
                            assert(subtree_ored2(m0, *self, ri, fl, i0 as int, i1 as int, 0));
                            lemma_entry_or_flags(entry_at(m0.mem@, t1 as int, i1 as int), fl);
                            assert(m0.tables@[2].contains(entry_addr(e1) as int));
                            lemma_entry_addr_range(e1);
                        }
                        let t2 = e1 & ENTRY_ADDR_MASK;
                        let mut i2: usize = 0;
                        while i2 < 512
                            invariant
                                m0 == *old(self),
                                i0 < 512,
                                i1 < 512,
                                i2 <= 512,
                                m0.wf(),
                                flags.wf(),
                                fl == flags.0,
                                ri == root as int,
                                m0.tables@[0].contains(ri),
                                m0.tables@[1].contains(t1 as int),
                                m0.tables@[2].contains(t2 as int),
                                t1 == entry_addr(entry_at(m0.mem@, ri, i0 as int)),
                                t2 == entry_addr(entry_at(m0.mem@, t1 as int, i1 as int)),
                                is_present(entry_at(m0.mem@, ri, i0 as int)),
                                is_present(entry_at(m0.mem@, t1 as int, i1 as int)),
                                self.wf(),
                                tables_flag_dichotomy(m0, *self, fl),
                                root_shape(m0, *self, ri, fl, i0 + 1),
                                walks_ored_below(m0, *self, ri, fl, i0 as int),
                                entry_ored(m0, *self, ri, i0 as int, fl),
                                entry_ored(m0, *self, t1 as int, i1 as int, fl),
                                subtree_ored1(m0, *self, ri, fl, i0 as int, i1 as int),
                                subtree_ored2(
                                    m0,
                                    *self,
                                    ri,
                                    fl,
                                    i0 as int,
                                    i1 as int,
                                    i2 as int,
                                ),
                            decreases 512 - i2,
                        {
                            let e2 = self.read_entry(t2, i2);
                            if e2 & 1 == 1 {
                                let ghost pre2 = *self;
                                self.or_entry(t2, Ghost(2), i2, flags);
                                proof {
                                    lemma_dichotomy_step(
                                        m0,
                                        pre2,
                                        *self,
                                        t2 as int,
                                        2,
                                        i2 as int,
                                        fl,
                                    );
                                    lemma_ored_family_stable(
                                        m0,
                                        pre2,
                                        *self,
                                        ri,
                                        fl,
                                        t2 as int,
                                        i2 as int,
                                        i0 as int,
                                        i0 as int,
                                        i1 as int,
                                        i1 as int,
                                        i2 as int,
                                        0,
                                        0,
                                    );
                                    assert(root_shape(m0, *self, ri, fl, i0 + 1)) by {
                                        assert forall|i: int|
                                            0 <= i < 512 implies #[trigger] entry_at(
                                            self.mem@,
                                            ri,
                                            i,
                                        ) == entry_at(pre2.mem@, ri, i) by {
                                            assert(ri != t2 as int);
                                        }
                                    }
                                    assert(entry_ored(m0, *self, t2 as int, i2 as int, fl)) by {
                                        let e = entry_at(m0.mem@, t2 as int, i2 as int);
                                        assert(((e | fl) | fl) == (e | fl)) by (bit_vector);
                                    }
                                    assert(subtree_ored3(
                                        m0,
                                        *self,
                                        ri,
                                        fl,
                                        i0 as int,
                                        i1 as int,
                                        i2 as int,
                                        0,
                                    ));
                                    lemma_entry_or_flags(
                                        entry_at(m0.mem@, t2 as int, i2 as int),
                                        fl,
                                    );
                                    assert(m0.tables@[3].contains(entry_addr(e2) as int));
                                    lemma_entry_addr_range(e2);
                                }
                                let t3 = e2 & ENTRY_ADDR_MASK;
                                let mut i3: usize = 0;
                                while i3 < 512
                                    invariant
                                        m0 == *old(self),
                                        i0 < 512,
                                        i1 < 512,
                                        i2 < 512,
                                        i3 <= 512,
                                        m0.wf(),
                                        flags.wf(),
                                        fl == flags.0,
                                        ri == root as int,
                                        m0.tables@[0].contains(ri),
                                        m0.tables@[1].contains(t1 as int),
                                        m0.tables@[2].contains(t2 as int),
                                        m0.tables@[3].contains(t3 as int),
                                        t1 == entry_addr(entry_at(m0.mem@, ri, i0 as int)),
                                        t2 == entry_addr(entry_at(m0.mem@, t1 as int, i1 as int)),
                                        t3 == entry_addr(entry_at(m0.mem@, t2 as int, i2 as int)),
                                        is_present(entry_at(m0.mem@, ri, i0 as int)),
                                        is_present(entry_at(m0.mem@, t1 as int, i1 as int)),
                                        is_present(entry_at(m0.mem@, t2 as int, i2 as int)),
                                        self.wf(),
                                        tables_flag_dichotomy(m0, *self, fl),
                                        root_shape(m0, *self, ri, fl, i0 + 1),
                                        walks_ored_below(m0, *self, ri, fl, i0 as int),
                                        entry_ored(m0, *self, ri, i0 as int, fl),
                                        entry_ored(m0, *self, t1 as int, i1 as int, fl),
                                        entry_ored(m0, *self, t2 as int, i2 as int, fl),
                                        subtree_ored1(m0, *self, ri, fl, i0 as int, i1 as int),
                                        subtree_ored2(
                                            m0,
                                            *self,
                                            ri,
                                            fl,
                                            i0 as int,
                                            i1 as int,
                                            i2 as int,
                                        ),
                                        subtree_ored3(
                                            m0,
                                            *self,
                                            ri,
                                            fl,
                                            i0 as int,
                                            i1 as int,
                                            i2 as int,
                                            i3 as int,
                                        ),
                                    decreases 512 - i3,
                                {
                                    let e3 = self.read_entry(t3, i3);
                                    if e3 & 1 == 1 {
                                        let ghost pre3 = *self;
                                        self.or_entry(t3, Ghost(3), i3, flags);
                                        proof {
                                            lemma_dichotomy_step(
                                                m0,
                                                pre3,
                                                *self,
                                                t3 as int,
                                                3,
                                                i3 as int,
                                                fl,
                                            );
                                            lemma_ored_family_stable(
                                                m0,
                                                pre3,
                                                *self,
                                                ri,
                                                fl,
                                                t3 as int,
                                                i3 as int,
                                                i0 as int,
                                                i0 as int,
                                                i1 as int,
                                                i1 as int,
                                                i2 as int,
                                                i2 as int,
                                                i3 as int,
                                            );
                                            assert(root_shape(m0, *self, ri, fl, i0 + 1)) by {
                                                assert forall|i: int|
                                                    0 <= i < 512 implies #[trigger] entry_at(
                                                    self.mem@,
                                                    ri,
                                                    i,
                                                ) == entry_at(pre3.mem@, ri, i) by {
                                                    assert(ri != t3 as int);
                                                }
                                            }
                                            assert(entry_ored(
                                                m0,
                                                *self,
                                                t3 as int,
                                                i3 as int,
                                                fl,
                                            )) by {
                                                let e = entry_at(m0.mem@, t3 as int, i3 as int);
                                                assert(((e | fl) | fl) == (e | fl))
                                                    by (bit_vector);
                                            }
                                            assert(subtree_ored3(
                                                m0,
                                                *self,
                                                ri,
                                                fl,
                                                i0 as int,
                                                i1 as int,
                                                i2 as int,
                                                i3 + 1,
                                            )) by {
                                                assert forall|va: u64|
                                                    #[trigger] walk_ok(
                                                        m0.mem@,
                                                        m0.len(),
                                                        ri,
                                                        va,
                                                    ) && level_index(va, 0) == i0 as int
                                                        && level_index(va, 1) == i1 as int
                                                        && level_index(va, 2) == i2 as int
                                                        && level_index(va, 3) < i3
                                                        + 1 implies entry_ored(
                                                    m0,
                                                    *self,
                                                    walk_t3(m0.mem@, ri, va),
                                                    level_index(va, 3),
                                                    fl,
                                                ) by {
                                                    assert(walk_t3(m0.mem@, ri, va) == t3 as int);
                                                }
                                            }
                                        }
                                    } else {
                                        proof {
                                            assert(subtree_ored3(
                                                m0,
                                                *self,
                                                ri,
                                                fl,
                                                i0 as int,
                                                i1 as int,
                                                i2 as int,
                                                i3 + 1,
                                            )) by {
                                                assert forall|va: u64|
                                                    #[trigger] walk_ok(
                                                        m0.mem@,
                                                        m0.len(),
                                                        ri,
                                                        va,
                                                    ) && level_index(va, 0) == i0 as int
                                                        && level_index(va, 1) == i1 as int
                                                        && level_index(va, 2) == i2 as int
                                                        && level_index(va, 3) < i3
                                                        + 1 implies entry_ored(
                                                    m0,
                                                    *self,
                                                    walk_t3(m0.mem@, ri, va),
                                                    level_index(va, 3),
                                                    fl,
                                                ) by {
                                                    if level_index(va, 3) == i3 as int {
                                                        assert(walk_t3(m0.mem@, ri, va)
                                                            == t3 as int);
                                                        assert(is_present(
                                                            entry_at(
                                                                m0.mem@,
                                                                t3 as int,
                                                                i3 as int,
                                                            ),
                                                        ));
                                                        assert(is_present(
                                                            entry_at(
                                                                self.mem@,
                                                                t3 as int,
                                                                i3 as int,
                                                            ),
                                                        )) by {
                                                            lemma_entry_or_flags(
                                                                entry_at(
                                                                    m0.mem@,
                                                                    t3 as int,
                                                                    i3 as int,
                                                                ),
                                                                fl,
                                                            );
                                                        }
                                                    }
                                                }
                                            }
                                        }
                                    }
                                    i3 = i3 + 1;
                                }
                                proof {
                                    assert(subtree_ored2(
                                        m0,
                                        *self,
                                        ri,
                                        fl,
                                        i0 as int,
                                        i1 as int,
                                        i2 + 1,
                                    )) by {
                                        assert forall|va: u64|
                                            #[trigger] walk_ok(m0.mem@, m0.len(), ri, va)
                                                && level_index(va, 0) == i0 as int && level_index(
                                                va,
                                                1,
                                            ) == i1 as int && level_index(va, 2) < i2 + 1 implies {
                                            &&& entry_ored(
                                                m0,
                                                *self,
                                                walk_t2(m0.mem@, ri, va),
                                                level_index(va, 2),
                                                fl,
                                            )
                                            &&& entry_ored(
                                                m0,
                                                *self,
                                                walk_t3(m0.mem@, ri, va),
                                                level_index(va, 3),
                                                fl,
                                            )
                                        } by {
                                            lemma_level_index_bound(va);
                                            if level_index(va, 2) == i2 as int {
                                                assert(walk_t2(m0.mem@, ri, va) == t2 as int);
                                                assert(walk_t3(m0.mem@, ri, va) == t3 as int);
                                            }
                                        }
                                    }
                                }
                            } else {
                                proof {
                                    assert(subtree_ored2(
                                        m0,
                                        *self,
                                        ri,
                                        fl,
                                        i0 as int,
                                        i1 as int,
                                        i2 + 1,
                                    )) by {
                                        assert forall|va: u64|
                                            #[trigger] walk_ok(m0.mem@, m0.len(), ri, va)
                                                && level_index(va, 0) == i0 as int && level_index(
                                                va,
                                                1,
                                            ) == i1 as int && level_index(va, 2) < i2 + 1 implies {
                                            &&& entry_ored(
                                                m0,
                                                *self,
                                                walk_t2(m0.mem@, ri, va),
                                                level_index(va, 2),
                                                fl,
                                            )
                                            &&& entry_ored(
                                                m0,
                                                *self,
                                                walk_t3(m0.mem@, ri, va),
                                                level_index(va, 3),
                                                fl,
                                            )
                                        } by {
                                            if level_index(va, 2) == i2 as int {
                                                assert(walk_t2(m0.mem@, ri, va) == t2 as int);
                                                assert(is_present(
                                                    entry_at(m0.mem@, t2 as int, i2 as int),
                                                ));
                                                assert(is_present(
                                                    entry_at(self.mem@, t2 as int, i2 as int),
                                                )) by {
                                                    lemma_entry_or_flags(
                                                        entry_at(m0.mem@, t2 as int, i2 as int),
                                                        fl,
                                                    );
                                                }
                                            }
                                        }
                                    }
                                }
                            }
                            i2 = i2 + 1;
                        }
                        proof {
                            assert(subtree_ored1(m0, *self, ri, fl, i0 as int, i1 + 1)) by {
                                assert forall|va: u64|
                                    #[trigger] walk_ok(m0.mem@, m0.len(), ri, va) && level_index(
                                        va,
                                        0,
                                    ) == i0 as int && level_index(va, 1) < i1 + 1 implies {
                                    &&& entry_ored(
                                        m0,
                                        *self,
                                        walk_t1(m0.mem@, ri, va),
                                        level_index(va, 1),
                                        fl,
                                    )
                                    &&& entry_ored(
                                        m0,
                                        *self,
                                        walk_t2(m0.mem@, ri, va),
                                        level_index(va, 2),
                                        fl,
                                    )
                                    &&& entry_ored(
                                        m0,
                                        *self,
                                        walk_t3(m0.mem@, ri, va),
                                        level_index(va, 3),
                                        fl,
                                    )
                                } by {
                                    lemma_level_index_bound(va);
                                    if level_index(va, 1) == i1 as int {
                                        assert(walk_t1(m0.mem@, ri, va) == t1 as int);
                                        assert(walk_t2(m0.mem@, ri, va) == t2 as int);
                                    }
                                }
                            }
                        }
                    } else {
                        proof {
                            assert(subtree_ored1(m0, *self, ri, fl, i0 as int, i1 + 1)) by {
                                assert forall|va: u64|
                                    #[trigger] walk_ok(m0.mem@, m0.len(), ri, va) && level_index(
                                        va,
                                        0,
                                    ) == i0 as int && level_index(va, 1) < i1 + 1 implies {
                                    &&& entry_ored(
                                        m0,
                                        *self,
                                        walk_t1(m0.mem@, ri, va),
                                        level_index(va, 1),
                                        fl,
                                    )
                                    &&& entry_ored(
                                        m0,
                                        *self,
                                        walk_t2(m0.mem@, ri, va),
                                        level_index(va, 2),
                                        fl,
                                    )
                                    &&& entry_ored(
                                        m0,
                                        *self,
                                        walk_t3(m0.mem@, ri, va),
                                        level_index(va, 3),
                                        fl,
                                    )
                                } by {
                                    if level_index(va, 1) == i1 as int {
                                        assert(walk_t1(m0.mem@, ri, va) == t1 as int);
                                        assert(is_present(
                                            entry_at(m0.mem@, t1 as int, i1 as int),
                                        ));
                                        assert(is_present(
                                            entry_at(self.mem@, t1 as int, i1 as int),
                                        )) by {
                                            lemma_entry_or_flags(
                                                entry_at(m0.mem@, t1 as int, i1 as int),
                                                fl,
                                            );
                                        }
                                    }
                                }
                            }
                        }
                    }
                    i1 = i1 + 1;
                }
                proof {
                    assert(walks_ored_below(m0, *self, ri, fl, i0 + 1)) by {
                        assert forall|va: u64|
                            #[trigger] walk_ok(m0.mem@, m0.len(), ri, va) && level_index(va, 0)
                                < i0 + 1 implies {
                            &&& entry_ored(m0, *self, ri, level_index(va, 0), fl)
                            &&& entry_ored(
                                m0,
                                *self,
                                walk_t1(m0.mem@, ri, va),
                                level_index(va, 1),
                                fl,
                            )
                            &&& entry_ored(
                                m0,
                                *self,
                                walk_t2(m0.mem@, ri, va),
                                level_index(va, 2),
                                fl,
                            )
                            &&& entry_ored(
                                m0,
                                *self,
                                walk_t3(m0.mem@, ri, va),
                                level_index(va, 3),
                                fl,
                            )
                        } by {
                            lemma_level_index_bound(va);
                            if level_index(va, 0) == i0 as int {
                                assert(walk_t1(m0.mem@, ri, va) == t1 as int);
                            }
                        }
                    }
                }
            } else {
                proof {
                    assert(root_shape(m0, *self, ri, fl, i0 + 1)) by {
                        assert(entry_at(self.mem@, ri, i0 as int) == root_entry_after(
                            m0,
                            ri,
                            fl,
                            i0 as int,
                            i0 as int,
                        ));
                    }
                    assert(walks_ored_below(m0, *self, ri, fl, i0 + 1)) by {
                        assert forall|va: u64|
                            #[trigger] walk_ok(m0.mem@, m0.len(), ri, va) && level_index(va, 0)
                                < i0 + 1 implies {
                            &&& entry_ored(m0, *self, ri, level_index(va, 0), fl)
                            &&& entry_ored(
                                m0,
                                *self,
                                walk_t1(m0.mem@, ri, va),
                                level_index(va, 1),
                                fl,
                            )
                            &&& entry_ored(
                                m0,
                                *self,
                                walk_t2(m0.mem@, ri, va),
                                level_index(va, 2),
                                fl,
                            )
                            &&& entry_ored(
                                m0,
                                *self,
                                walk_t3(m0.mem@, ri, va),
                                level_index(va, 3),
                                fl,
                            )
                        } by {
                            if level_index(va, 0) == i0 as int {
                                assert(is_present(entry_at(m0.mem@, ri, i0 as int)));
                                assert(is_present(entry_at(self.mem@, ri, i0 as int))) by {
                                    lemma_entry_or_flags(entry_at(m0.mem@, ri, i0 as int), fl);
                                }
                            }
                        }
                    }
                }
            }
            i0 = i0 + 1;
        }
        proof {
            let fin = *self;
            assert(crate::machine::data_pages_untouched(m0, fin)) by {
                reveal(crate::machine::data_pages_untouched);
                assert forall|a: int|
                    0 <= a < m0.mem@.len() && fin.mem@[a] != m0.mem@[a] implies !m0.data_frames@.contains(
                    crate::machine::frame_base(a),
                ) by {
                    assert(m0.any_table(crate::machine::frame_base(a)));
                    let l = choose|l: int|
                        0 <= l < 4 && #[trigger] m0.tables@[l].contains(
                            crate::machine::frame_base(a),
                        );
                }
            }
            lemma_walks_or_flags(m0, fin, fl);
            // every walk of this address space has all four entries widened
            assert forall|va: u64| #[trigger] walk_ok(m0.mem@, m0.len(), ri, va) implies {
                &&& walk_e0(fin.mem@, ri, va) == (walk_e0(m0.mem@, ri, va) | fl)
                &&& walk_e1(fin.mem@, ri, va) == (walk_e1(m0.mem@, ri, va) | fl)
                &&& walk_e2(fin.mem@, ri, va) == (walk_e2(m0.mem@, ri, va) | fl)
                &&& leaf_entry(fin.mem@, ri, va) == (leaf_entry(m0.mem@, ri, va) | fl)
            } by {
                lemma_level_index_bound(va);
                lemma_walk_tables_tracked(m0, ri, va);
                assert(entry_ored(m0, fin, ri, level_index(va, 0), fl));
                lemma_entry_or_flags(walk_e0(m0.mem@, ri, va), fl);
                assert(walk_t1(fin.mem@, ri, va) == walk_t1(m0.mem@, ri, va));
                assert(entry_ored(m0, fin, walk_t1(m0.mem@, ri, va), level_index(va, 1), fl));
                lemma_entry_or_flags(walk_e1(m0.mem@, ri, va), fl);
                assert(walk_t2(fin.mem@, ri, va) == walk_t2(m0.mem@, ri, va));
                assert(entry_ored(m0, fin, walk_t2(m0.mem@, ri, va), level_index(va, 2), fl));
                lemma_entry_or_flags(walk_e2(m0.mem@, ri, va), fl);
                assert(walk_t3(fin.mem@, ri, va) == walk_t3(m0.mem@, ri, va));
                assert(entry_ored(m0, fin, walk_t3(m0.mem@, ri, va), level_index(va, 3), fl));
            }
        }
    }
}

/// Kernel-half sharing: when two top-level tables hold the same entry at
/// an index, every address that index covers translates identically in
/// both address spaces — the walks pass through the same physical tables.
pub proof fn lemma_shared_walk(mem: Seq<u8>, len: int, parent: int, child: int, va: u64)
    requires
        entry_at(mem, child, level_index(va, 0)) == entry_at(mem, parent, level_index(va, 0)),
        frame_in_mem(child, len),
        frame_in_mem(parent, len),
    ensures
        walk_ok(mem, len, child, va) == walk_ok(mem, len, parent, va),
        leaf_entry(mem, child, va) == leaf_entry(mem, parent, va),
{
    assert(walk_t1(mem, child, va) == walk_t1(mem, parent, va));
}

} // verus!
