//! The simulated machine: physical memory, the boot-derived free-frame list,
//! and the ghost bookkeeping that ties page-table frames to both.
//!
//! Frames are named by their 4096-aligned physical base address. Four ghost
//! sets hold the frames that currently serve as page tables, one set per
//! level of the translation hierarchy (level 0 holds the top-level tables);
//! a fifth holds the frames handed out as data pages. Well-formedness says
//! the sets are pairwise disjoint, disjoint from the free list, inside
//! memory, and that every present entry of a table at levels 0..=2 points at
//! a frame of the next level.
use vstd::prelude::*;

use crate::allocator::{blocks_wf, is_free, FrameAllocator};
use crate::mem::{lemma_word_at_frame, word_at, PhysMem};
use crate::paging::{entry_addr, entry_at, is_present};
use crate::MAX_PHYS_SIZE;

verus! {

/// A 4096-aligned frame that lies entirely inside a memory of `len` bytes.
pub open spec fn frame_in_mem(t: int, len: int) -> bool {
    &&& 0 <= t
    &&& t + 4096 <= len
    &&& t % 4096 == 0
}

pub struct Machine {
    pub mem: PhysMem,
    pub alloc: FrameAllocator,
    /// Physical base of the kernel's top-level table, captured at init.
    pub kernel_table: u64,
    /// Physical base of the top-level table the address-space register holds.
    pub active_table: u64,
    /// Frames serving as page tables, one set per level of the hierarchy.
    pub tables: Ghost<Seq<Set<int>>>,
    /// Frames handed out as data pages.
    pub data_frames: Ghost<Set<int>>,
}

impl Machine {
    /// The frame `t` is a page table at level `l`.
    pub open spec fn table_at(self, l: int, t: int) -> bool {
        self.tables@[l].contains(t)
    }

    /// The frame `t` is a page table at any level.
    pub open spec fn any_table(self, t: int) -> bool {
        exists|l: int| 0 <= l < 4 && #[trigger] self.tables@[l].contains(t)
    }

    /// The frame `t` is on the free list.
    pub open spec fn free(self, t: int) -> bool {
        is_free(self.alloc.blocks@, t)
    }

    pub open spec fn len(self) -> int {
        self.mem@.len() as int
    }

    pub open spec fn wf(self) -> bool {
        &&& self.mem@.len() <= MAX_PHYS_SIZE
        &&& self.alloc.limit == self.mem@.len()
        &&& blocks_wf(self.alloc.blocks@, self.alloc.limit as int)
        &&& self.tables@.len() == 4
        &&& forall|l: int, t: int|
            0 <= l < 4 && #[trigger] self.tables@[l].contains(t) ==> frame_in_mem(t, self.len())
        &&& forall|t: int| #[trigger] self.data_frames@.contains(t) ==> frame_in_mem(t, self.len())
        &&& forall|l1: int, l2: int, t: int|
            0 <= l1 < 4 && 0 <= l2 < 4 && l1 != l2 && #[trigger] self.tables@[l1].contains(t)
                ==> !(#[trigger] self.tables@[l2].contains(t))
        &&& forall|l: int, t: int|
            0 <= l < 4 && #[trigger] self.tables@[l].contains(t) ==> !self.free(t)
        &&& forall|l: int, t: int|
            0 <= l < 4 && #[trigger] self.tables@[l].contains(t) ==> !self.data_frames@.contains(t)
        &&& forall|t: int| #[trigger] self.data_frames@.contains(t) ==> !self.free(t)
        &&& forall|l: int, t: int, i: int|
            0 <= l < 3 && #[trigger] self.tables@[l].contains(t) && 0 <= i < 512 && is_present(
                #[trigger] entry_at(self.mem@, t, i),
            ) ==> self.tables@[l + 1].contains(entry_addr(entry_at(self.mem@, t, i)) as int)
        &&& self.table_at(0, self.kernel_table as int)
        &&& self.table_at(0, self.active_table as int)
    }
}

/// Fields that allocation and mapping never touch.
pub open spec fn preserves_layout(pre: Machine, post: Machine) -> bool {
    &&& post.kernel_table == pre.kernel_table
    &&& post.active_table == pre.active_table
    &&& post.mem@.len() == pre.mem@.len()
    &&& post.alloc.limit == pre.alloc.limit
}

/// The machine is exactly as it was.
pub open spec fn unchanged_machine(pre: Machine, post: Machine) -> bool {
    &&& post.mem@ == pre.mem@
    &&& post.alloc.blocks@ == pre.alloc.blocks@
    &&& preserves_layout(pre, post)
    &&& post.tables@ == pre.tables@
    &&& post.data_frames@ == pre.data_frames@
}

/// No byte of any data page changed.
#[verifier::opaque]
pub open spec fn data_pages_untouched(pre: Machine, post: Machine) -> bool {
    forall|a: int|
        0 <= a < pre.mem@.len() && post.mem@[a] != pre.mem@[a] ==> !pre.data_frames@.contains(
            #[trigger] frame_base(a),
        )
}

/// Every frame free afterwards was free before.
#[verifier::opaque]
pub open spec fn free_shrunk(pre: Machine, post: Machine) -> bool {
    forall|f: int| #[trigger] post.free(f) ==> pre.free(f)
}

pub proof fn lemma_data_pages_untouched_trans(a: Machine, b: Machine, c: Machine)
    requires
        data_pages_untouched(a, b),
        data_pages_untouched(b, c),
        b.mem@.len() == a.mem@.len(),
        a.data_frames@.subset_of(b.data_frames@),
    ensures
        data_pages_untouched(a, c),
{
    reveal(data_pages_untouched);
}

pub proof fn lemma_free_shrunk_trans(a: Machine, b: Machine, c: Machine)
    requires
        free_shrunk(a, b),
        free_shrunk(b, c),
    ensures
        free_shrunk(a, c),
{
    reveal(free_shrunk);
}

/// Changes confined to a range of frames that are no data pages leave
/// data pages untouched.
pub proof fn lemma_untouched_by_run(pre: Machine, post: Machine, lo: int, hi: int)
    requires
        post.mem@.len() == pre.mem@.len(),
        forall|a: int|
            0 <= a < pre.mem@.len() && post.mem@[a] != #[trigger] pre.mem@[a] ==> lo <= a < hi,
        lo % 4096 == 0,
        0 <= lo,
        forall|f: int| lo <= f < hi && f % 4096 == 0 ==> !pre.data_frames@.contains(f),
    ensures
        data_pages_untouched(pre, post),
{
    reveal(data_pages_untouched);
    assert forall|a: int|
        0 <= a < pre.mem@.len() && post.mem@[a] != pre.mem@[a] implies !pre.data_frames@.contains(
        frame_base(a),
    ) by {
        lemma_frame_base(a);
        lemma_frame_base_le(lo, a);
    }
}

/// Extends data-page preservation by one step whose changes stay inside
/// frames that were no data pages at the start.
pub proof fn lemma_untouched_extend(a: Machine, b: Machine, c: Machine, lo: int, hi: int)
    requires
        data_pages_untouched(a, b),
        b.mem@.len() == a.mem@.len(),
        c.mem@.len() == b.mem@.len(),
        forall|x: int|
            0 <= x < b.mem@.len() && c.mem@[x] != #[trigger] b.mem@[x] ==> lo <= x < hi,
        lo % 4096 == 0,
        0 <= lo,
        forall|f: int| lo <= f < hi && f % 4096 == 0 ==> !a.data_frames@.contains(f),
    ensures
        data_pages_untouched(a, c),
{
    reveal(data_pages_untouched);
    assert forall|x: int|
        0 <= x < a.mem@.len() && c.mem@[x] != a.mem@[x] implies !a.data_frames@.contains(
        frame_base(x),
    ) by {
        if c.mem@[x] != b.mem@[x] {
            lemma_frame_base(x);
            lemma_frame_base_le(lo, x);
        }
    }
}

/// A zeroed run of data pages stays zero across a step that leaves data
/// pages untouched.
pub proof fn lemma_zero_run_preserved(pre: Machine, post: Machine, lo: int, hi: int)
    requires
        data_pages_untouched(pre, post),
        post.mem@.len() == pre.mem@.len(),
        lo % 4096 == 0,
        0 <= lo,
        hi <= pre.mem@.len(),
        forall|a: int| lo <= a < hi ==> #[trigger] pre.mem@[a] == 0u8,
        forall|f: int| lo <= f < hi && f % 4096 == 0 ==> pre.data_frames@.contains(f),
    ensures
        forall|a: int| lo <= a < hi ==> #[trigger] post.mem@[a] == 0u8,
{
    reveal(data_pages_untouched);
    assert forall|a: int| lo <= a < hi implies #[trigger] post.mem@[a] == 0u8 by {
        if post.mem@[a] != pre.mem@[a] {
            lemma_frame_base(a);
            lemma_frame_base_le(lo, a);
        }
    }
}

/// The base of the aligned frame holding byte `a`.
pub open spec fn frame_base(a: int) -> int {
    4096 * (a / 4096)
}

pub proof fn lemma_frame_base(a: int)
    requires
        0 <= a,
    ensures
        frame_base(a) % 4096 == 0,
        frame_base(a) <= a < frame_base(a) + 4096,
{
}

/// An aligned address at or below `a` is at or below `a`'s frame base.
pub proof fn lemma_frame_base_le(r: int, a: int)
    requires
        r % 4096 == 0,
        0 <= r <= a,
    ensures
        r <= frame_base(a),
{
    assert(r == 4096 * (r / 4096));
    assert(r / 4096 <= a / 4096);
}

/// Two distinct aligned frames occupy disjoint byte ranges.
pub proof fn lemma_frames_disjoint(t1: int, t2: int, a: int)
    requires
        t1 % 4096 == 0,
        t2 % 4096 == 0,
        t1 != t2,
        t1 <= a < t1 + 4096,
    ensures
        !(t2 <= a < t2 + 4096),
{
    assert(t1 == 4096 * (t1 / 4096));
    assert(t2 == 4096 * (t2 / 4096));
    if t1 < t2 {
        assert(t1 / 4096 < t2 / 4096);
        assert(t1 + 4096 <= t2);
    } else {
        assert(t2 / 4096 < t1 / 4096);
        assert(t2 + 4096 <= t1);
    }
}

/// If two memories agree on every byte of the aligned frame `t`, they hold
/// the same 512 entries in the table at `t`.
pub proof fn lemma_table_entries_preserved(m1: Seq<u8>, m2: Seq<u8>, t: int)
    requires
        t % 4096 == 0,
        0 <= t,
        forall|a: int| t <= a < t + 4096 ==> m1[a] == m2[a],
    ensures
        forall|i: int| 0 <= i < 512 ==> #[trigger] entry_at(m1, t, i) == entry_at(m2, t, i),
{
    assert forall|i: int| 0 <= i < 512 implies #[trigger] entry_at(m1, t, i) == entry_at(
        m2,
        t,
        i,
    ) by {
        lemma_word_at_frame(m1, m2, t + 8 * i);
    }
}

/// Entries of every table are untouched when memory changes only inside
/// frames that are no table.
pub proof fn lemma_all_tables_preserved(pre: Machine, post: Machine)
    requires
        pre.wf(),
        post.tables@ == pre.tables@,
        post.mem@.len() == pre.mem@.len(),
        forall|a: int|
            0 <= a < pre.mem@.len() && pre.mem@[a] != #[trigger] post.mem@[a] ==> exists|f: int|
                #[trigger] frame_in_mem(f, pre.len()) && f <= a < f + 4096 && !pre.any_table(f),
    ensures
        forall|l: int, t: int, i: int|
            0 <= l < 4 && #[trigger] pre.tables@[l].contains(t) && 0 <= i < 512
                ==> #[trigger] entry_at(post.mem@, t, i) == entry_at(pre.mem@, t, i),
{
    assert forall|l: int, t: int, i: int|
        0 <= l < 4 && #[trigger] pre.tables@[l].contains(t) && 0 <= i < 512 implies #[trigger] entry_at(
        post.mem@,
        t,
        i,
    ) == entry_at(pre.mem@, t, i) by {
        assert(frame_in_mem(t, pre.len()));
        assert forall|a: int| t <= a < t + 4096 implies pre.mem@[a] == post.mem@[a] by {
            if pre.mem@[a] != post.mem@[a] {
                let f = choose|f: int|
                    #[trigger] frame_in_mem(f, pre.len()) && f <= a < f + 4096 && !pre.any_table(
                        f,
                    );
                lemma_frames_disjoint(t, f, a);
            }
        }
        lemma_table_entries_preserved(pre.mem@, post.mem@, t);
    }
}

/// Changes confined to an aligned range of frames, none of which is a
/// table, satisfy the frame-shaped confinement hypothesis.
pub proof fn lemma_changes_confined_to_frames(pre: Machine, post: Machine, lo: int, hi: int)
    requires
        pre.wf(),
        post.mem@.len() == pre.mem@.len(),
        0 <= lo,
        hi <= pre.len(),
        lo % 4096 == 0,
        hi % 4096 == 0,
        forall|a: int|
            0 <= a < pre.mem@.len() && pre.mem@[a] != #[trigger] post.mem@[a] ==> lo <= a < hi,
        forall|f: int| lo <= f < hi && f % 4096 == 0 ==> !pre.any_table(f),
    ensures
        forall|a: int|
            0 <= a < pre.mem@.len() && pre.mem@[a] != #[trigger] post.mem@[a] ==> exists|f: int|
                #[trigger] frame_in_mem(f, pre.len()) && f <= a < f + 4096 && !pre.any_table(f),
{
    assert forall|a: int|
        0 <= a < pre.mem@.len() && pre.mem@[a] != #[trigger] post.mem@[a] implies exists|f: int|
        #[trigger] frame_in_mem(f, pre.len()) && f <= a < f + 4096 && !pre.any_table(f) by {
        lemma_frame_base(a);
        lemma_frame_base_le(lo, a);
        let f = frame_base(a);
        assert(f + 4096 <= hi) by {
            assert(f == 4096 * (f / 4096) && hi == 4096 * (hi / 4096));
            assert(f / 4096 < hi / 4096);
        }
        assert(frame_in_mem(f, pre.len()) && f <= a < f + 4096 && !pre.any_table(f));
    }
}

} // verus!
