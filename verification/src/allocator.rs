//! The physical page-frame allocator.
//!
//! The kernel keeps a free list of contiguous frame runs built from the
//! bootloader's usable memory regions. On hardware each run's {next, size}
//! node lives in the run's first frame; the model keeps the same runs in
//! a side vector ordered by address, which the boot memory map bounds.
//! Allocation is first-fit and carves from the high end of the chosen
//! run, so a run's base never moves until the run is exhausted.
use vstd::prelude::*;

use crate::machine::{
    frame_base, frame_in_mem, lemma_all_tables_preserved, lemma_frame_base, lemma_frame_base_le,
    preserves_layout, Machine,
};
use crate::MAX_PHYS_SIZE;

verus! {

/// One region of the boot memory map, as the handoff reports it.
#[derive(Clone, Copy, PartialEq, Eq, Structural)]
pub struct MemoryRegion {
    pub start: u64,
    pub end: u64,
    pub usable: bool,
}

/// A contiguous run of `size` free frames starting at frame base `start`.
#[derive(Clone, Copy, PartialEq, Eq, Structural)]
pub struct FreeBlock {
    pub start: u64,
    pub size: u64,
}

/// The free-frame list and the size of the memory it manages.
pub struct FrameAllocator {
    pub blocks: Vec<FreeBlock>,
    pub limit: u64,
}

/// The aligned frame bases of `count` consecutive frames from `start`.
pub open spec fn frame_range(start: int, count: int) -> Set<int> {
    Set::new(|a: int| start <= a < start + count * 4096 && a % 4096 == 0)
}

pub open spec fn block_frames(b: FreeBlock) -> Set<int> {
    frame_range(b.start as int, b.size as int)
}

/// The frame base `a` lies on the free list.
pub open spec fn is_free(blocks: Seq<FreeBlock>, a: int) -> bool {
    exists|i: int| 0 <= i < blocks.len() && #[trigger] block_frames(blocks[i]).contains(a)
}

/// Some block holds at least `amount` frames.
pub open spec fn has_fit(blocks: Seq<FreeBlock>, amount: int) -> bool {
    exists|i: int| 0 <= i < blocks.len() && #[trigger] blocks[i].size >= amount
}

/// Total number of free frames.
pub open spec fn free_count(blocks: Seq<FreeBlock>) -> int
    decreases blocks.len(),
{
    if blocks.len() == 0 {
        0
    } else {
        blocks[0].size + free_count(blocks.drop_first())
    }
}

/// Free blocks are aligned, non-empty, inside memory, and ordered by
/// address with no overlap.
pub open spec fn blocks_wf(blocks: Seq<FreeBlock>, limit: int) -> bool {
    &&& forall|i: int|
        0 <= i < blocks.len() ==> {
            &&& (#[trigger] blocks[i]).start % 4096 == 0
            &&& 0 < blocks[i].start
            &&& 1 <= blocks[i].size
            &&& blocks[i].start + blocks[i].size * 4096 <= limit
        }
    &&& forall|i: int|
        0 <= i && i + 1 < blocks.len() ==> (#[trigger] blocks[i]).start + blocks[i].size * 4096
            <= blocks[i + 1].start
}

/// Block starts grow along the list.
pub proof fn lemma_blocks_ordered(blocks: Seq<FreeBlock>, limit: int, i: int, j: int)
    requires
        blocks_wf(blocks, limit),
        0 <= i < j < blocks.len(),
    ensures
        blocks[i].start + blocks[i].size * 4096 <= blocks[j].start,
    decreases j - i,
{
    if i + 1 < j {
        lemma_blocks_ordered(blocks, limit, i + 1, j);
    }
}

/// Distinct blocks of a well-formed list hold disjoint frames.
pub proof fn lemma_blocks_disjoint(blocks: Seq<FreeBlock>, limit: int, i: int, j: int, a: int)
    requires
        blocks_wf(blocks, limit),
        0 <= i < blocks.len(),
        0 <= j < blocks.len(),
        i != j,
        block_frames(blocks[i]).contains(a),
    ensures
        !block_frames(blocks[j]).contains(a),
{
    if i < j {
        lemma_blocks_ordered(blocks, limit, i, j);
    } else {
        lemma_blocks_ordered(blocks, limit, j, i);
    }
}

/// `frame_range(start, count)` splits at any aligned midpoint.
pub proof fn lemma_free_count_update(s: Seq<FreeBlock>, i: int, b: FreeBlock)
    requires
        0 <= i < s.len(),
    ensures
        free_count(s.update(i, b)) == free_count(s) - s[i].size + b.size,
    decreases i,
{
    if i == 0 {
        assert(s.update(0, b).drop_first() =~= s.drop_first());
    } else {
        assert(s.update(i, b).drop_first() =~= s.drop_first().update(i - 1, b));
        lemma_free_count_update(s.drop_first(), i - 1, b);
    }
}

pub proof fn lemma_free_count_remove(s: Seq<FreeBlock>, i: int)
    requires
        0 <= i < s.len(),
    ensures
        free_count(s.remove(i)) == free_count(s) - s[i].size,
    decreases i,
{
    if i == 0 {
        assert(s.remove(0) =~= s.drop_first());
    } else {
        assert(s.remove(i).drop_first() =~= s.drop_first().remove(i - 1));
        lemma_free_count_remove(s.drop_first(), i - 1);
    }
}

pub proof fn lemma_free_count_insert(s: Seq<FreeBlock>, i: int, b: FreeBlock)
    requires
        0 <= i <= s.len(),
    ensures
        free_count(s.insert(i, b)) == free_count(s) + b.size,
    decreases i,
{
    if i == 0 {
        assert(s.insert(0, b).drop_first() =~= s);
    } else {
        assert(s.insert(i, b).drop_first() =~= s.drop_first().insert(i - 1, b));
        lemma_free_count_insert(s.drop_first(), i - 1, b);
    }
}

pub proof fn lemma_free_count_push(s: Seq<FreeBlock>, b: FreeBlock)
    ensures
        free_count(s.push(b)) == free_count(s) + b.size,
    decreases s.len(),
{
    if s.len() == 0 {
        assert(s.push(b).drop_first() =~= s);
    } else {
        assert(s.push(b).drop_first() =~= s.drop_first().push(b));
        lemma_free_count_push(s.drop_first(), b);
    }
}

/// Carving `amount` frames from the high end of block `j` removes exactly
/// those frames from the free set and keeps the list well-formed.
#[verifier::spinoff_prover]
#[verifier::rlimit(100)]
pub proof fn lemma_carve(pre: Seq<FreeBlock>, post: Seq<FreeBlock>, limit: int, j: int, amount: int, r: int)
    requires
        blocks_wf(pre, limit),
        0 <= j < pre.len(),
        1 <= amount <= pre[j].size,
        r == pre[j].start + (pre[j].size - amount) * 4096,
        pre[j].size == amount ==> post == pre.remove(j),
        pre[j].size > amount ==> post == pre.update(
            j,
            FreeBlock { start: pre[j].start, size: (pre[j].size - amount) as u64 },
        ),
    ensures
        blocks_wf(post, limit),
        r % 4096 == 0,
        0 < r,
        r + amount * 4096 <= limit,
        forall|f: int| r <= f < r + amount * 4096 && f % 4096 == 0 ==> is_free(pre, f),
        forall|f: int|
            #[trigger] is_free(post, f) <==> is_free(pre, f) && !(r <= f < r + amount * 4096),
        free_count(post) == free_count(pre) - amount,
{
    let b = pre[j];
    let end = b.start + b.size * 4096;
    assert(r % 4096 == 0) by {
        assert((b.start + (b.size - amount) * 4096) % 4096 == b.start % 4096) by (nonlinear_arith)
            requires
                b.start >= 0 && b.size >= amount >= 0,
        ;
    }
    if b.size == amount {
        lemma_free_count_remove(pre, j);
        pre.remove_ensures(j);
    } else {
        lemma_free_count_update(pre, j, FreeBlock { start: b.start, size: (b.size - amount) as u64 });
    }
    // well-formedness of the result
    assert forall|k: int| 0 <= k && k + 1 < post.len() implies (#[trigger] post[k]).start
        + post[k].size * 4096 <= post[k + 1].start by {
        if b.size == amount {
            pre.remove_ensures(j);
            assert(post.len() == pre.len() - 1);
            assert(post[k] == pre.remove(j)[k]);
            assert(post[k + 1] == pre.remove(j)[k + 1]);
            if k + 1 < j {
                assert(post[k] == pre[k] && post[k + 1] == pre[k + 1]);
            } else if k + 1 == j {
                assert(post[k] == pre[k] && post[k + 1] == pre[j + 1]);
                lemma_blocks_ordered(pre, limit, k, j + 1);
            } else {
                assert(post[k] == pre[k + 1] && post[k + 1] == pre[k + 2]);
            }
        } else {
            let shrunk = FreeBlock { start: b.start, size: (b.size - amount) as u64 };
            assert(post.len() == pre.update(j, shrunk).len());
            assert(post[k] == pre.update(j, shrunk)[k]);
            assert(post[k + 1] == pre.update(j, shrunk)[k + 1]);
            if k == j {
                assert(post[k].start == pre[k].start && post[k].size <= pre[k].size);
            } else {
                assert(post[k] == pre[k]);
            }
            if k + 1 == j {
                assert(post[k + 1].start == pre[k + 1].start);
            } else {
                assert(post[k + 1] == pre[k + 1]);
            }
            assert(post[k].start + post[k].size * 4096 <= pre[k].start + pre[k].size * 4096) by (nonlinear_arith)
                requires
                    post[k].start == pre[k].start && 0 <= post[k].size <= pre[k].size,
            ;
        }
    }
    // frames carved out were free
    assert forall|f: int| r <= f < r + amount * 4096 && f % 4096 == 0 implies is_free(pre, f) by {
        assert(block_frames(pre[j]).contains(f));
    }
    // the exact free-set difference, pointwise
    assert forall|f: int| #[trigger] is_free(post, f) implies is_free(pre, f) && !(r <= f < r
        + amount * 4096) by {
        let k = choose|k: int| 0 <= k < post.len() && #[trigger] block_frames(post[k]).contains(f);
        let korig: int = if b.size == amount {
            if k < j { k } else { k + 1 }
        } else {
            k
        };
        if b.size == amount {
            pre.remove_ensures(j);
            assert(post[k] == pre.remove(j)[k]);
        }
        if korig == j {
            // only possible in the shrink case; the surviving low part
            assert(post[k].start == b.start && post[k].size == b.size - amount);
            assert(block_frames(pre[j]).contains(f));
            assert(f < r);
        } else {
            assert(post[k] == pre[korig]);
            assert(block_frames(pre[korig]).contains(f));
            if r <= f < r + amount * 4096 {
                assert(block_frames(pre[j]).contains(f));
                lemma_blocks_disjoint(pre, limit, j, korig, f);
            }
        }
    }
    assert forall|f: int| is_free(pre, f) && !(r <= f < r + amount * 4096) implies #[trigger] is_free(
        post,
        f,
    ) by {
        let k = choose|k: int| 0 <= k < pre.len() && #[trigger] block_frames(pre[k]).contains(f);
        if k == j {
            assert(f < r);
            assert(b.size > amount) by {
                if b.size == amount {
                    assert(r == b.start as int);
                }
            }
            assert(post[j] == pre.update(j, FreeBlock { start: b.start, size: (b.size - amount) as u64 })[j]);
            assert(block_frames(post[j]).contains(f));
        } else {
            let knew: int = if b.size == amount {
                if k < j { k } else { k - 1 }
            } else {
                k
            };
            if b.size == amount {
                pre.remove_ensures(j);
                assert(post[knew] == pre.remove(j)[knew]);
            } else {
                assert(post[knew] == pre.update(j, FreeBlock { start: b.start, size: (b.size - amount) as u64 })[knew]);
            }
            assert(post[knew] == pre[k]);
            assert(block_frames(post[knew]).contains(f));
        }
    }
}

impl Machine {
    /// Allocates `amount` pages from the first free block that fits, carving
    /// from its high end, zeroes them through the physical window, and
    /// returns the starting physical address — or 0 when no block holds
    /// `amount` contiguous frames.
    ///
    /// On success the result is 4096-aligned, lies inside the boot-declared
    /// usable frames (they are exactly the free ones), every returned byte
    /// is zero, and the returned frames leave the free set, so no later
    /// allocation can overlap them.
    #[verifier::rlimit(40)]
    pub fn allocate_page(&mut self, amount: u64) -> (r: u64)
        requires
            old(self).wf(),
            1 <= amount,
        ensures
            final(self).wf(),
            preserves_layout(*old(self), *final(self)),
            final(self).tables@ == old(self).tables@,
            final(self).data_frames@ == old(self).data_frames@,
            (r == 0) <==> !has_fit(old(self).alloc.blocks@, amount as int),
            r == 0 ==> final(self).mem@ == old(self).mem@ && final(self).alloc.blocks@ == old(
                self,
            ).alloc.blocks@,
            r != 0 ==> r % 4096 == 0 && 0 < r && r + amount * 4096 <= old(self).len(),
            r != 0 ==> forall|f: int|
                r <= f < r + amount * 4096 && f % 4096 == 0 ==> old(self).free(f),
            r != 0 ==> forall|f: int|
                #[trigger] final(self).free(f) <==> old(self).free(f) && !(r <= f < r + amount
                    * 4096),
            r != 0 ==> free_count(final(self).alloc.blocks@) == free_count(old(self).alloc.blocks@)
                - amount,
            r != 0 ==> forall|a: int|
                r <= a < r + amount * 4096 ==> final(self).mem@[a] == 0u8,
            r != 0 ==> forall|a: int|
                0 <= a < old(self).len() && !(r <= a < r + amount * 4096) ==> final(self).mem@[a]
                    == old(self).mem@[a],
            r != 0 ==> exists|j: int|
                {
                    &&& 0 <= j < old(self).alloc.blocks@.len()
                    &&& (forall|k2: int|
                        0 <= k2 < j ==> (#[trigger] old(self).alloc.blocks@[k2]).size < amount)
                    &&& old(self).alloc.blocks@[j].size >= amount
                    &&& r == old(self).alloc.blocks@[j].start + (old(self).alloc.blocks@[j].size
                        - amount) * 4096
                    &&& final(self).alloc.blocks@ == (if old(self).alloc.blocks@[j].size == amount {
                        old(self).alloc.blocks@.remove(j)
                    } else {
                        old(self).alloc.blocks@.update(
                            j,
                            (FreeBlock {
                                start: old(self).alloc.blocks@[j].start,
                                size: (old(self).alloc.blocks@[j].size - amount) as u64,
                            }),
                        )
                    })
                },
    {
        let n = self.alloc.blocks.len();
        let mut i: usize = 0;
        while i < n && self.alloc.blocks[i].size < amount
            invariant
                n == self.alloc.blocks@.len(),
                i <= n,
                forall|k: int| 0 <= k < i ==> (#[trigger] self.alloc.blocks@[k]).size < amount,
            decreases n - i,
        {
            i = i + 1;
        }
        if i == n {
            return 0;
        }
        let ghost pre = *self;
        let b = self.alloc.blocks[i];
        let run = b.size - amount;
        proof {
            assert(b.start + b.size * 4096 <= self.alloc.limit);
            assert(run * 4096 <= b.size * 4096) by (nonlinear_arith)
                requires
                    0 <= run <= b.size,
            ;
            assert(amount * 4096 <= b.size * 4096) by (nonlinear_arith)
                requires
                    0 < amount <= b.size,
            ;
        }
        let alloc_start = b.start + run * 4096;
        if b.size == amount {
            self.alloc.blocks.remove(i);
        } else {
            self.alloc.blocks.set(i, FreeBlock { start: b.start, size: run });
        }
        proof {
            lemma_carve(
                pre.alloc.blocks@,
                self.alloc.blocks@,
                pre.alloc.limit as int,
                i as int,
                amount as int,
                alloc_start as int,
            );
            // the carved block is the first fit, taken from its high end
            let ji = i as int;
            assert(0 <= ji && ji < pre.alloc.blocks@.len());
            assert(forall|k2: int|
                0 <= k2 < ji ==> (#[trigger] pre.alloc.blocks@[k2]).size < amount);
            assert(pre.alloc.blocks@[ji].size >= amount);
            assert(alloc_start == pre.alloc.blocks@[ji].start + (pre.alloc.blocks@[ji].size
                - amount) * 4096);
        }
        let ghost mid = *self;
        self.mem.zero_range(alloc_start, amount * 4096);
        proof {
            let fin = *self;
            let lo = alloc_start as int;
            let hi = alloc_start as int + amount * 4096;
            assert forall|a: int|
                0 <= a < mid.mem@.len() && mid.mem@[a] != #[trigger] fin.mem@[a] implies exists|
                f: int,
            |
                #[trigger] frame_in_mem(f, mid.len()) && f <= a < f + 4096 && !mid.any_table(
                    f,
                ) by {
                assert(lo <= a < hi);
                lemma_frame_base(a);
                let f = frame_base(a);
                assert(lo <= f) by {
                    lemma_frame_base_le(lo, a);
                }
                assert(f % 4096 == 0 && f <= a < f + 4096);
                assert(f + 4096 <= hi) by {
                    assert(f == 4096 * (f / 4096) && hi == 4096 * (hi / 4096));
                    assert(f / 4096 < hi / 4096);
                }
                assert(pre.free(f));
                assert(!pre.any_table(f));
                assert(frame_in_mem(f, mid.len()));
                assert(!mid.any_table(f));
            }
            lemma_all_tables_preserved(mid, fin);
            assert(fin.wf());
        }
        alloc_start
    }
}

/// The frames a memory region contributes: whole frames from its start.
pub open spec fn region_frames(reg: MemoryRegion) -> Set<int> {
    frame_range(reg.start as int, (reg.end - reg.start) / 4096)
}

/// The free list the boot memory map prescribes: one block per usable
/// region that holds at least one whole frame, in map order, sized to the
/// whole frames the region covers.
pub open spec fn region_blocks(regions: Seq<MemoryRegion>) -> Seq<FreeBlock>
    decreases regions.len(),
{
    if regions.len() == 0 {
        Seq::empty()
    } else {
        let head = regions[0];
        let rest = region_blocks(regions.drop_first());
        if head.usable && (head.end - head.start) / 4096 >= 1 {
            seq![
                FreeBlock { start: head.start, size: ((head.end - head.start) / 4096) as u64 },
            ] + rest
        } else {
            rest
        }
    }
}

/// Extending the scanned prefix of the map by one region appends at most
/// one block.
proof fn lemma_region_blocks_step(regions: Seq<MemoryRegion>, k: int)
    requires
        0 <= k < regions.len(),
    ensures
        region_blocks(regions.take(k + 1)) == (if regions[k].usable && (regions[k].end
            - regions[k].start) / 4096 >= 1 {
            region_blocks(regions.take(k)).push(
                FreeBlock {
                    start: regions[k].start,
                    size: ((regions[k].end - regions[k].start) / 4096) as u64,
                },
            )
        } else {
            region_blocks(regions.take(k))
        }),
    decreases k,
{
    if k == 0 {
        assert(regions.take(1).drop_first() =~= regions.take(0));
        assert(region_blocks(regions.take(0)) =~= Seq::<FreeBlock>::empty());
        if regions[0].usable && (regions[0].end - regions[0].start) / 4096 >= 1 {
            assert(region_blocks(regions.take(1)) =~= region_blocks(regions.take(0)).push(
                FreeBlock {
                    start: regions[0].start,
                    size: ((regions[0].end - regions[0].start) / 4096) as u64,
                },
            ));
        }
    } else {
        lemma_region_blocks_step(regions.drop_first(), k - 1);
        assert(regions.take(k + 1).drop_first() =~= regions.drop_first().take(k));
        assert(regions.take(k).drop_first() =~= regions.drop_first().take(k - 1));
        assert(regions.take(k + 1)[0] == regions[0] && regions.take(k)[0] == regions[0]);
        assert(regions.drop_first()[k - 1] == regions[k]);
        if regions[0].usable && (regions[0].end - regions[0].start) / 4096 >= 1 {
            if regions[k].usable && (regions[k].end - regions[k].start) / 4096 >= 1 {
                assert(region_blocks(regions.take(k + 1)) =~= region_blocks(
                    regions.take(k),
                ).push(
                    FreeBlock {
                        start: regions[k].start,
                        size: ((regions[k].end - regions[k].start) / 4096) as u64,
                    },
                ));
            }
        } else {
            if regions[k].usable && (regions[k].end - regions[k].start) / 4096 >= 1 {
                assert(region_blocks(regions.take(k + 1)) =~= region_blocks(
                    regions.take(k),
                ).push(
                    FreeBlock {
                        start: regions[k].start,
                        size: ((regions[k].end - regions[k].start) / 4096) as u64,
                    },
                ));
            }
        }
    }
}

/// Builds the free list from the boot memory map: one block per usable
/// region, holding the whole frames the region covers, in address order.
pub fn initialize(memory_regions: &Vec<MemoryRegion>, limit: u64) -> (r: FrameAllocator)
    requires
        limit <= crate::MAX_PHYS_SIZE,
        forall|i: int|
            0 <= i < memory_regions@.len() && (#[trigger] memory_regions@[i]).usable ==> {
                &&& memory_regions@[i].start % 4096 == 0
                &&& 0 < memory_regions@[i].start
                &&& memory_regions@[i].start <= memory_regions@[i].end
                &&& memory_regions@[i].end <= limit
            },
        forall|i: int, j: int|
            0 <= i < j < memory_regions@.len() && (#[trigger] memory_regions@[i]).usable && (
            #[trigger] memory_regions@[j]).usable ==> memory_regions@[i].end
                <= memory_regions@[j].start,
    ensures
        r.limit == limit,
        blocks_wf(r.blocks@, limit as int),
        r.blocks@ == region_blocks(memory_regions@),
        forall|f: int|
            #[trigger] is_free(r.blocks@, f) <==> exists|i: int|
                0 <= i < memory_regions@.len() && (#[trigger] memory_regions@[i]).usable
                    && region_frames(memory_regions@[i]).contains(f),
{
    let mut blocks: Vec<FreeBlock> = Vec::new();
    let n = memory_regions.len();
    let mut k: usize = 0;
    while k < n
        invariant
            n == memory_regions@.len(),
            k <= n,
            limit <= crate::MAX_PHYS_SIZE,
            forall|i: int|
                0 <= i < memory_regions@.len() && (#[trigger] memory_regions@[i]).usable ==> {
                    &&& memory_regions@[i].start % 4096 == 0
                    &&& 0 < memory_regions@[i].start
                    &&& memory_regions@[i].start <= memory_regions@[i].end
                    &&& memory_regions@[i].end <= limit
                },
            forall|i: int, j: int|
                0 <= i < j < memory_regions@.len() && (#[trigger] memory_regions@[i]).usable && (
                #[trigger] memory_regions@[j]).usable ==> memory_regions@[i].end
                    <= memory_regions@[j].start,
            blocks_wf(blocks@, limit as int),
            blocks@ == region_blocks(memory_regions@.take(k as int)),
            forall|i: int|
                k <= i < memory_regions@.len() && (#[trigger] memory_regions@[i]).usable
                    && blocks@.len() > 0 ==> blocks@[blocks@.len() - 1].start + blocks@[blocks@.len()
                    - 1].size * 4096 <= memory_regions@[i].start,
            forall|f: int|
                #[trigger] is_free(blocks@, f) <==> exists|i: int|
                    0 <= i < k && (#[trigger] memory_regions@[i]).usable && region_frames(
                        memory_regions@[i],
                    ).contains(f),
        decreases n - k,
    {
        let reg = memory_regions[k];
        if reg.usable {
            let frames = (reg.end - reg.start) / 4096;
            if frames > 0 {
                let ghost pre = blocks@;
                let b = FreeBlock { start: reg.start, size: frames };
                proof {
                    assert(frames * 4096 <= reg.end - reg.start) by (nonlinear_arith)
                        requires
                            frames == (reg.end - reg.start) / 4096 && reg.start <= reg.end,
                    ;
                }
                blocks.push(b);
                proof {
                    let post = blocks@;
                    assert(post.drop_last() =~= pre);
                    // ordering against the previous block
                    assert forall|x: int| 0 <= x && x + 1 < post.len() implies (
                    #[trigger] post[x]).start + post[x].size * 4096 <= post[x + 1].start by {
                        if x + 1 == post.len() - 1 {
                            assert(post[x] == pre[pre.len() - 1]);
                            assert(post[x + 1] == b);
                        } else {
                            assert(post[x] == pre[x] && post[x + 1] == pre[x + 1]);
                        }
                    }
                    // the new block ends before any later usable region starts
                    assert forall|i: int|
                        k + 1 <= i < memory_regions@.len() && (
                        #[trigger] memory_regions@[i]).usable implies b.start + b.size * 4096
                            <= memory_regions@[i].start by {
                        assert(memory_regions@[k as int].end <= memory_regions@[i].start);
                    }
                    // the new free set adds exactly the region's frames
                    assert forall|f: int| #[trigger] is_free(post, f) implies (exists|i: int|
                        0 <= i < k + 1 && (#[trigger] memory_regions@[i]).usable && region_frames(
                            memory_regions@[i],
                        ).contains(f)) by {
                        let bi = choose|bi: int|
                            0 <= bi < post.len() && #[trigger] block_frames(post[bi]).contains(f);
                        if bi < pre.len() {
                            assert(block_frames(pre[bi]).contains(f));
                            assert(is_free(pre, f));
                        } else {
                            assert(post[bi] == b);
                            assert(region_frames(memory_regions@[k as int]).contains(f));
                        }
                    }
                    assert forall|f: int|
                        (exists|i: int|
                            0 <= i < k + 1 && (#[trigger] memory_regions@[i]).usable
                                && region_frames(memory_regions@[i]).contains(f)) implies
                    #[trigger] is_free(post, f) by {
                        let i = choose|i: int|
                            0 <= i < k + 1 && (#[trigger] memory_regions@[i]).usable
                                && region_frames(memory_regions@[i]).contains(f);
                        if i < k {
                            assert(is_free(pre, f));
                            let bi = choose|bi: int|
                                0 <= bi < pre.len() && #[trigger] block_frames(pre[bi]).contains(
                                    f,
                                );
                            assert(block_frames(post[bi]).contains(f));
                        } else {
                            assert(block_frames(b).contains(f));
                            assert(block_frames(post[post.len() - 1]).contains(f));
                        }
                    }
                }
            } else {
                proof {
                    assert forall|f: int|
                        region_frames(memory_regions@[k as int]).contains(f) implies false by {}
                }
            }
        }
        proof {
            lemma_region_blocks_step(memory_regions@, k as int);
        }
        k = k + 1;
    }
    proof {
        assert(memory_regions@.take(memory_regions@.len() as int) =~= memory_regions@);
    }
    FrameAllocator { blocks, limit }
}

/// Splicing a foreign run of frames into the ordered list at its address
/// position adds exactly those frames to the free set.
#[verifier::spinoff_prover]
#[verifier::rlimit(100)]
pub proof fn lemma_splice(pre: Seq<FreeBlock>, post: Seq<FreeBlock>, limit: int, at: int, b: FreeBlock)
    requires
        blocks_wf(pre, limit),
        0 <= at <= pre.len(),
        post == pre.insert(at, b),
        b.start % 4096 == 0,
        0 < b.start,
        1 <= b.size,
        b.start + b.size * 4096 <= limit,
        forall|x: int| 0 <= x < at ==> (#[trigger] pre[x]).start <= b.start,
        forall|x: int| at <= x < pre.len() ==> b.start < (#[trigger] pre[x]).start,
        forall|f: int|
            b.start <= f < b.start + b.size * 4096 && f % 4096 == 0 ==> !is_free(pre, f),
    ensures
        blocks_wf(post, limit),
        forall|f: int|
            #[trigger] is_free(post, f) <==> is_free(pre, f) || (b.start <= f < b.start + b.size
                * 4096 && f % 4096 == 0),
        free_count(post) == free_count(pre) + b.size,
{
    let lo = b.start as int;
    let hi = b.start + b.size * 4096;
    pre.insert_ensures(at, b);
    lemma_free_count_insert(pre, at, b);
    // the predecessor ends at or before the new block
    if at > 0 {
        assert(pre[at - 1].start + pre[at - 1].size * 4096 <= lo) by {
            if pre[at - 1].start + pre[at - 1].size * 4096 > lo {
                assert(block_frames(pre[at - 1]).contains(lo));
                assert(is_free(pre, lo));
            }
        }
    }
    // the successor starts at or after the new block's end
    if at < pre.len() {
        assert(hi <= pre[at].start) by {
            if pre[at].start < hi {
                assert(block_frames(pre[at]).contains(pre[at].start as int));
                assert(is_free(pre, pre[at].start as int));
            }
        }
    }
    assert forall|x: int| 0 <= x && x + 1 < post.len() implies (#[trigger] post[x]).start
        + post[x].size * 4096 <= post[x + 1].start by {
        if x + 1 < at {
            assert(post[x] == pre[x] && post[x + 1] == pre[x + 1]);
        } else if x + 1 == at {
            assert(post[x] == pre[x] && post[x + 1] == b);
        } else if x == at {
            assert(post[x] == b && post[x + 1] == pre[x]);
        } else {
            assert(post[x] == pre[x - 1] && post[x + 1] == pre[x]);
        }
    }
    assert forall|x: int| 0 <= x < post.len() implies {
        &&& (#[trigger] post[x]).start % 4096 == 0
        &&& 0 < post[x].start
        &&& 1 <= post[x].size
        &&& post[x].start + post[x].size * 4096 <= limit
    } by {
        if x < at {
            assert(post[x] == pre[x]);
        } else if x == at {
            assert(post[x] == b);
        } else {
            assert(post[x] == pre[x - 1]);
        }
    }
    assert forall|f: int| #[trigger] is_free(post, f) implies (is_free(pre, f) || (lo <= f < hi
        && f % 4096 == 0)) by {
        let bi = choose|bi: int|
            0 <= bi < post.len() && #[trigger] block_frames(post[bi]).contains(f);
        if bi == at {
        } else {
            let orig: int = if bi < at {
                bi
            } else {
                bi - 1
            };
            assert(post[bi] == pre[orig]);
            assert(block_frames(pre[orig]).contains(f));
        }
    }
    assert forall|f: int| (is_free(pre, f) || (lo <= f < hi && f % 4096 == 0)) implies
    #[trigger] is_free(post, f) by {
        if is_free(pre, f) {
            let bi = choose|bi: int|
                0 <= bi < pre.len() && #[trigger] block_frames(pre[bi]).contains(f);
            let now: int = if bi < at {
                bi
            } else {
                bi + 1
            };
            assert(post[now] == pre[bi]);
            assert(block_frames(post[now]).contains(f));
        } else {
            assert(block_frames(post[at]).contains(f));
        }
    }
}

impl Machine {
    /// Returns `amount` frames starting at `physical_address` to the free
    /// list, splicing a new block in address order. No coalescing is done.
    pub fn free_page(&mut self, physical_address: u64, amount: u64)
        requires
            old(self).wf(),
            1 <= amount,
            physical_address % 4096 == 0,
            0 < physical_address,
            physical_address + amount * 4096 <= old(self).len(),
            forall|f: int|
                physical_address <= f < physical_address + amount * 4096 && f % 4096 == 0 ==> {
                    &&& !old(self).free(f)
                    &&& !old(self).any_table(f)
                    &&& !old(self).data_frames@.contains(f)
                },
        ensures
            final(self).wf(),
            preserves_layout(*old(self), *final(self)),
            final(self).tables@ == old(self).tables@,
            final(self).data_frames@ == old(self).data_frames@,
            final(self).mem@ == old(self).mem@,
            forall|f: int|
                #[trigger] final(self).free(f) <==> old(self).free(f) || (physical_address <= f
                    < physical_address + amount * 4096 && f % 4096 == 0),
            free_count(final(self).alloc.blocks@) == free_count(old(self).alloc.blocks@) + amount,
            // the run becomes a node of its own at its address position:
            // spliced before the first block that starts beyond it, with
            // no coalescing
            exists|at: int|
                {
                    &&& 0 <= at <= old(self).alloc.blocks@.len()
                    &&& (forall|x: int|
                        0 <= x < at ==> (#[trigger] old(self).alloc.blocks@[x]).start
                            <= physical_address)
                    &&& (at < old(self).alloc.blocks@.len() ==> old(
                        self,
                    ).alloc.blocks@[at].start > physical_address)
                    &&& final(self).alloc.blocks@ == old(self).alloc.blocks@.insert(
                        at,
                        (FreeBlock { start: physical_address, size: amount }),
                    )
                },
    {
        let ghost pre = self.alloc.blocks@;
        let n = self.alloc.blocks.len();
        let mut i: usize = 0;
        while i < n && self.alloc.blocks[i].start <= physical_address
            invariant
                n == self.alloc.blocks@.len(),
                i <= n,
                forall|x: int|
                    0 <= x < i ==> (#[trigger] self.alloc.blocks@[x]).start <= physical_address,
            decreases n - i,
        {
            i = i + 1;
        }
        let b = FreeBlock { start: physical_address, size: amount };
        let ghost at = i as int;
        self.alloc.blocks.insert(i, b);
        proof {
            assert forall|x: int| at <= x < pre.len() implies physical_address < (
            #[trigger] pre[x]).start by {
                if pre[x].start <= physical_address && x > at {
                    lemma_blocks_ordered(pre, old(self).alloc.limit as int, at, x);
                }
            }
            assert forall|f: int|
                physical_address <= f < physical_address + amount * 4096 && f % 4096
                    == 0 implies !is_free(pre, f) by {
                assert(!old(self).free(f));
            }
            lemma_splice(pre, self.alloc.blocks@, self.alloc.limit as int, at, b);
            assert(0 <= at <= pre.len() && (forall|x: int|
                0 <= x < at ==> (#[trigger] pre[x]).start <= physical_address) && (at < pre.len()
                ==> pre[at].start > physical_address) && self.alloc.blocks@ == pre.insert(at, b));
            assert(final(self).wf());
        }
    }
}
/// Allocator exclusivity: two successful allocations never overlap. The
/// first one's frames leave the free set, and the second one's frames are
/// drawn from what is still free.
pub proof fn lemma_allocations_exclusive(
    free0: Seq<FreeBlock>,
    free1: Seq<FreeBlock>,
    r1: int,
    n1: int,
    r2: int,
    n2: int,
)
    requires
        forall|f: int| r1 <= f < r1 + n1 * 4096 && f % 4096 == 0 ==> is_free(free0, f),
        forall|f: int|
            #[trigger] is_free(free1, f) <==> is_free(free0, f) && !(r1 <= f < r1 + n1 * 4096),
        forall|f: int| r2 <= f < r2 + n2 * 4096 && f % 4096 == 0 ==> is_free(free1, f),
        r1 % 4096 == 0,
        r2 % 4096 == 0,
    ensures
        forall|f: int|
            r1 <= f < r1 + n1 * 4096 && f % 4096 == 0 && #[trigger] is_free(free0, f) ==> !(r2
                <= f < r2 + n2 * 4096),
{
    assert forall|f: int|
        r1 <= f < r1 + n1 * 4096 && f % 4096 == 0 && #[trigger] is_free(free0, f) implies !(r2
        <= f < r2 + n2 * 4096) by {
        if r2 <= f < r2 + n2 * 4096 {
            assert(is_free(free1, f));
        }
    }
}

} // verus!
