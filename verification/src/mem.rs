//! Byte-addressed model of physical memory.
//!
//! The kernel reaches every physical byte through a constant-offset virtual
//! window; the model folds that window away and indexes bytes by their
//! physical address directly. Page-table entries live inside this memory as
//! eight little-endian bytes, so the module also provides 64-bit word access
//! together with the facts that connect a word to its bytes.
use vstd::prelude::*;

verus! {

/// The value of eight little-endian bytes.
pub open spec fn le8(
    b0: u8,
    b1: u8,
    b2: u8,
    b3: u8,
    b4: u8,
    b5: u8,
    b6: u8,
    b7: u8,
) -> int {
    b0 + 0x100 * b1 + 0x1_0000 * b2 + 0x100_0000 * b3 + 0x1_0000_0000 * b4 + 0x100_0000_0000 * b5
        + 0x1_0000_0000_0000 * b6 + 0x100_0000_0000_0000 * b7
}

/// The 64-bit word stored little-endian at byte address `a`.
/// Meaningful only when `a + 8 <= mem.len()`.
pub open spec fn word_at(mem: Seq<u8>, a: int) -> u64 {
    le8(
        mem[a],
        mem[a + 1],
        mem[a + 2],
        mem[a + 3],
        mem[a + 4],
        mem[a + 5],
        mem[a + 6],
        mem[a + 7],
    ) as u64
}

/// Two memories that agree on the bytes `[a, a + 8)` store the same word there.
pub proof fn lemma_word_at_frame(m1: Seq<u8>, m2: Seq<u8>, a: int)
    requires
        forall|i: int| a <= i < a + 8 ==> m1[i] == m2[i],
    ensures
        word_at(m1, a) == word_at(m2, a),
{
}

/// Physical memory: one byte per physical address.
pub struct PhysMem {
    bytes: Vec<u8>,
}

impl View for PhysMem {
    type V = Seq<u8>;

    closed spec fn view(&self) -> Seq<u8> {
        self.bytes@
    }
}

impl PhysMem {
    /// A memory of `size` bytes, all zero.
    pub fn new(size: u64) -> (r: PhysMem)
        requires
            size <= usize::MAX,
        ensures
            r@.len() == size,
            forall|i: int| 0 <= i < size ==> r@[i] == 0u8,
    {
        let mut bytes: Vec<u8> = Vec::new();
        let mut n: u64 = 0;
        while n < size
            invariant
                n <= size,
                size <= usize::MAX,
                bytes@.len() == n,
                forall|i: int| 0 <= i < n ==> bytes@[i] == 0u8,
            decreases size - n,
        {
            bytes.push(0u8);
            n = n + 1;
        }
        PhysMem { bytes }
    }

    pub fn len(&self) -> (r: u64)
        requires
            self@.len() <= u64::MAX,
        ensures
            r == self@.len(),
    {
        self.bytes.len() as u64
    }

    pub fn read_byte(&self, a: u64) -> (r: u8)
        requires
            a < self@.len(),
        ensures
            r == self@[a as int],
    {
        let n = self.bytes.len();
        self.bytes[a as usize]
    }

    pub fn write_byte(&mut self, a: u64, v: u8)
        requires
            a < old(self)@.len(),
        ensures
            final(self)@ == old(self)@.update(a as int, v),
    {
        let n = self.bytes.len();
        self.bytes.set(a as usize, v);
    }

    /// Reads the 64-bit little-endian word at `a`.
    pub fn read_u64(&self, a: u64) -> (r: u64)
        requires
            a + 8 <= self@.len(),
        ensures
            r == word_at(self@, a as int),
    {
        let n = self.bytes.len();
        let b0 = self.bytes[a as usize];
        let b1 = self.bytes[a as usize + 1];
        let b2 = self.bytes[a as usize + 2];
        let b3 = self.bytes[a as usize + 3];
        let b4 = self.bytes[a as usize + 4];
        let b5 = self.bytes[a as usize + 5];
        let b6 = self.bytes[a as usize + 6];
        let b7 = self.bytes[a as usize + 7];
        b0 as u64 + 0x100 * (b1 as u64) + 0x1_0000 * (b2 as u64) + 0x100_0000 * (b3 as u64)
            + 0x1_0000_0000 * (b4 as u64) + 0x100_0000_0000 * (b5 as u64) + 0x1_0000_0000_0000 * (
        b6 as u64) + 0x100_0000_0000_0000 * (b7 as u64)
    }

    /// Writes `v` at `a` as eight little-endian bytes.
    pub fn write_u64(&mut self, a: u64, v: u64)
        requires
            a + 8 <= old(self)@.len(),
        ensures
            final(self)@.len() == old(self)@.len(),
            forall|i: int|
                0 <= i < old(self)@.len() && !(a <= i < a + 8) ==> final(self)@[i] == old(
                    self,
                )@[i],
            word_at(final(self)@, a as int) == v,
    {
        let n = self.bytes.len();
        let b0 = (v % 0x100) as u8;
        let v1 = v / 0x100;
        let b1 = (v1 % 0x100) as u8;
        let v2 = v1 / 0x100;
        let b2 = (v2 % 0x100) as u8;
        let v3 = v2 / 0x100;
        let b3 = (v3 % 0x100) as u8;
        let v4 = v3 / 0x100;
        let b4 = (v4 % 0x100) as u8;
        let v5 = v4 / 0x100;
        let b5 = (v5 % 0x100) as u8;
        let v6 = v5 / 0x100;
        let b6 = (v6 % 0x100) as u8;
        let b7 = (v6 / 0x100) as u8;
        self.bytes.set(a as usize, b0);
        self.bytes.set(a as usize + 1, b1);
        self.bytes.set(a as usize + 2, b2);
        self.bytes.set(a as usize + 3, b3);
        self.bytes.set(a as usize + 4, b4);
        self.bytes.set(a as usize + 5, b5);
        self.bytes.set(a as usize + 6, b6);
        self.bytes.set(a as usize + 7, b7);
        proof {
            assert(v == b0 + 0x100 * v1);
            assert(v1 == b1 + 0x100 * v2);
            assert(v2 == b2 + 0x100 * v3);
            assert(v3 == b3 + 0x100 * v4);
            assert(v4 == b4 + 0x100 * v5);
            assert(v5 == b5 + 0x100 * v6);
            assert(v6 == b6 + 0x100 * b7);
            assert(le8(b0, b1, b2, b3, b4, b5, b6, b7) == v);
        }
    }

    /// Zeroes the `count` bytes starting at `start`.
    pub fn zero_range(&mut self, start: u64, count: u64)
        requires
            start + count <= old(self)@.len(),
        ensures
            final(self)@.len() == old(self)@.len(),
            forall|i: int|
                0 <= i < old(self)@.len() && !(start <= i < start + count) ==> final(self)@[i]
                    == old(self)@[i],
            forall|i: int| start <= i < start + count ==> final(self)@[i] == 0u8,
    {
        let total = self.bytes.len();
        let mut n: u64 = 0;
        while n < count
            invariant
                n <= count,
                start + count <= self@.len(),
                self@.len() <= usize::MAX,
                self@.len() == old(self)@.len(),
                forall|i: int|
                    0 <= i < self@.len() && !(start <= i < start + count) ==> self@[i] == old(
                        self,
                    )@[i],
                forall|i: int| start <= i < start + n ==> self@[i] == 0u8,
            decreases count - n,
        {
            self.bytes.set((start + n) as usize, 0u8);
            n = n + 1;
        }
    }
}

} // verus!
