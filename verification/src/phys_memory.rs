//! Physical memory as an arena of page frames.
//!
//! Every read and write of a frame goes through this one type, by frame
//! number and a position within the frame, and is checked against the arena's
//! bounds. A frame can be read as 4096 bytes or as 512 little-endian words of
//! eight bytes, which is how the nodes of a page table lie in memory.

use vstd::prelude::*;
use vstd::bytes::{
    lemma_auto_spec_u64_to_from_le_bytes,
    spec_u64_from_le_bytes,
    spec_u64_to_le_bytes,
    u64_from_le_bytes,
    u64_to_le_bytes,
};
use vstd::slice::slice_subrange;
use crate::address::PhysPageNum;
use crate::config::{FRAME_LIMIT, PAGE_BYTES};

verus! {

/// The frames `first_frame() .. first_frame() + frame_count()` with their
/// contents.
pub struct PhysMemory {
    base: u64,
    bytes: Vec<u8>,
}

impl PhysMemory {
    /// The number of the first frame that the arena holds.
    pub closed spec fn first_frame(&self) -> u64 {
        self.base
    }

    /// How many frames the arena holds.
    pub closed spec fn frame_count(&self) -> nat {
        self.bytes@.len() / 4096
    }

    /// The arena holds whole frames, and their numbers fit the 44 bits that
    /// a page-table entry has for a frame number.
    pub closed spec fn wf(&self) -> bool {
        &&& self.bytes@.len() % 4096 == 0
        &&& self.base + self.bytes@.len() / 4096 <= FRAME_LIMIT
    }

    /// The frames of a well-formed arena have numbers below 2^44.
    pub proof fn frames_fit_entries(&self, ppn: PhysPageNum)
        requires
            self.wf(),
            self.contains(ppn),
        ensures
            ppn.0 < FRAME_LIMIT,
    {
    }

    /// Whether frame `ppn` lies in the arena.
    pub open spec fn contains(&self, ppn: PhysPageNum) -> bool {
        self.first_frame() <= ppn.0 < self.first_frame() + self.frame_count()
    }

    /// The 4096 bytes of frame `ppn`.
    pub closed spec fn page(&self, ppn: PhysPageNum) -> Seq<u8> {
        self.bytes@.subrange((ppn.0 - self.base) * 4096, (ppn.0 - self.base) * 4096 + 4096)
    }

    /// The `idx`-th little-endian word of frame `ppn`.
    pub open spec fn word(&self, ppn: PhysPageNum, idx: int) -> u64 {
        spec_u64_from_le_bytes(self.page(ppn).subrange(8 * idx, 8 * idx + 8))
    }

    /// Whether every byte of frame `ppn` is zero.
    pub open spec fn is_zero_page(&self, ppn: PhysPageNum) -> bool {
        self.page(ppn) == Seq::new(4096, |i: int| 0u8)
    }

    /// Whether `other` holds the same frames as this arena, with the same
    /// contents but for the frames in `changed`.
    pub open spec fn same_but(&self, other: &PhysMemory, changed: Set<PhysPageNum>) -> bool {
        &&& other.first_frame() == self.first_frame()
        &&& other.frame_count() == self.frame_count()
        &&& forall|p: PhysPageNum|
            self.contains(p) && !changed.contains(p) ==> #[trigger] other.page(p) == self.page(p)
    }

    /// Every frame of a well-formed arena has 4096 bytes.
    pub proof fn page_has_page_size(&self, ppn: PhysPageNum)
        requires
            self.wf(),
            self.contains(ppn),
        ensures
            self.page(ppn).len() == 4096,
    {
    }

    /// In a frame of zero bytes every word is zero.
    pub proof fn zero_page_has_zero_words(&self, ppn: PhysPageNum)
        requires
            self.wf(),
            self.contains(ppn),
            self.is_zero_page(ppn),
        ensures
            forall|i: int| 0 <= i < 512 ==> #[trigger] self.word(ppn, i) == 0,
    {
        assert forall|i: int| 0 <= i < 512 implies #[trigger] self.word(ppn, i) == 0 by {
            let s = self.page(ppn).subrange(8 * i, 8 * i + 8);
            zero_bytes_are_zero_word(s);
        }
    }

    /// An arena of `frames` frames, the first of them `first`, all bytes zero.
    pub fn new(first: PhysPageNum, frames: usize) -> (mem: Self)
        requires
            frames * 4096 <= usize::MAX,
            first.0 + frames <= FRAME_LIMIT,
        ensures
            mem.wf(),
            mem.first_frame() == first.0,
            mem.frame_count() == frames,
            forall|p: PhysPageNum| mem.contains(p) ==> #[trigger] mem.is_zero_page(p),
    {
        let mem = Self { base: first.0, bytes: vec![0u8; frames * PAGE_BYTES] };
        assert forall|p: PhysPageNum| mem.contains(p) implies #[trigger] mem.is_zero_page(p) by {
            assert(mem.page(p) =~= Seq::new(4096, |i: int| 0u8));
        }
        mem
    }

    /// The number of the first frame.
    pub fn first(&self) -> (first: PhysPageNum)
        ensures
            first.0 == self.first_frame(),
    {
        PhysPageNum(self.base)
    }

    /// How many frames there are.
    pub fn frames(&self) -> (count: usize)
        ensures
            count == self.frame_count(),
    {
        self.bytes.len() / PAGE_BYTES
    }

    /// Whether frame `ppn` lies in the arena.
    pub fn holds(&self, ppn: PhysPageNum) -> (yes: bool)
        requires
            self.wf(),
        ensures
            yes == self.contains(ppn),
    {
        ppn.0 >= self.base && ppn.0 - self.base < (self.bytes.len() / PAGE_BYTES) as u64
    }

    fn offset(&self, ppn: PhysPageNum) -> (at: usize)
        requires
            self.wf(),
            self.contains(ppn),
        ensures
            at == (ppn.0 - self.base) * 4096,
            at + 4096 <= self.bytes@.len(),
            at + 4096 <= usize::MAX,
    {
        let count: usize = self.bytes.len() / PAGE_BYTES;
        assert(ppn.0 - self.base < count);
        let frame: usize = (ppn.0 - self.base) as usize;
        assert(frame * 4096 + 4096 <= count * 4096) by (nonlinear_arith)
            requires
                frame < count,
        ;
        frame * PAGE_BYTES
    }

    /// The bytes of frame `ppn`.
    pub fn page_bytes(&self, ppn: PhysPageNum) -> (bytes: &[u8])
        requires
            self.wf(),
            self.contains(ppn),
        ensures
            bytes@ == self.page(ppn),
            bytes@.len() == 4096,
    {
        let at = self.offset(ppn);
        slice_subrange(self.bytes.as_slice(), at, at + PAGE_BYTES)
    }

    /// The `idx`-th word of frame `ppn`.
    pub fn read_word(&self, ppn: PhysPageNum, idx: usize) -> (val: u64)
        requires
            self.wf(),
            self.contains(ppn),
            idx < 512,
        ensures
            val == self.word(ppn, idx as int),
    {
        let at = self.offset(ppn) + idx * 8;
        let s = slice_subrange(self.bytes.as_slice(), at, at + 8);
        assert(s@ =~= self.page(ppn).subrange(8 * idx, 8 * idx + 8));
        u64_from_le_bytes(s)
    }

    /// Writes `val` as the `idx`-th word of frame `ppn`. Nothing else changes.
    pub fn write_word(&mut self, ppn: PhysPageNum, idx: usize, val: u64)
        requires
            old(self).wf(),
            old(self).contains(ppn),
            idx < 512,
        ensures
            final(self).wf(),
            old(self).same_but(final(self), set![ppn]),
            final(self).word(ppn, idx as int) == val,
            forall|i: int|
                0 <= i < 512 && i != idx ==> #[trigger] final(self).word(ppn, i) == old(self).word(
                    ppn,
                    i,
                ),
    {
        let at = self.offset(ppn) + idx * 8;
        let le = u64_to_le_bytes(val);
        let ghost before = self.bytes@;
        let mut k: usize = 0;
        while k < 8
            invariant
                k <= 8,
                le@ == spec_u64_to_le_bytes(val),
                le@.len() == 8,
                self.base == old(self).base,
                self.bytes@.len() == before.len(),
                at + 8 <= before.len(),
                at + 8 <= usize::MAX,
                forall|j: int|
                    0 <= j < before.len() && !(at <= j < at + k) ==> self.bytes@[j] == before[j],
                forall|j: int| at <= j < at + k ==> self.bytes@[j] == le@[j - at],
            decreases 8 - k,
        {
            self.bytes.set(at + k, le[k]);
            k += 1;
        }
        proof {
            lemma_auto_spec_u64_to_from_le_bytes();
            assert(self.page(ppn).subrange(8 * idx, 8 * idx + 8) =~= le@);
            assert forall|i: int| 0 <= i < 512 && i != idx implies #[trigger] self.word(ppn, i)
                == old(self).word(ppn, i) by {
                assert(self.page(ppn).subrange(8 * i, 8 * i + 8) =~= old(self).page(ppn).subrange(
                    8 * i,
                    8 * i + 8,
                ));
            }
            assert forall|p: PhysPageNum|
                old(self).contains(p) && !set![ppn].contains(p) implies #[trigger] self.page(p)
                == old(self).page(p) by {
                assert(self.page(p) =~= old(self).page(p));
            }
        }
    }

    /// Fills frame `ppn` with zero bytes. Nothing else changes.
    pub fn clear_page(&mut self, ppn: PhysPageNum)
        requires
            old(self).wf(),
            old(self).contains(ppn),
        ensures
            final(self).wf(),
            old(self).same_but(final(self), set![ppn]),
            final(self).is_zero_page(ppn),
    {
        let at = self.offset(ppn);
        let ghost before = self.bytes@;
        let mut k: usize = 0;
        while k < PAGE_BYTES
            invariant
                k <= 4096,
                self.base == old(self).base,
                self.bytes@.len() == before.len(),
                at + 4096 <= before.len(),
                at + 4096 <= usize::MAX,
                forall|j: int|
                    0 <= j < before.len() && !(at <= j < at + k) ==> self.bytes@[j] == before[j],
                forall|j: int| at <= j < at + k ==> self.bytes@[j] == 0u8,
            decreases 4096 - k,
        {
            self.bytes.set(at + k, 0u8);
            k += 1;
        }
        proof {
            assert(self.page(ppn) =~= Seq::new(4096, |i: int| 0u8));
            assert forall|p: PhysPageNum|
                old(self).contains(p) && !set![ppn].contains(p) implies #[trigger] self.page(p)
                == old(self).page(p) by {
                assert(self.page(p) =~= old(self).page(p));
            }
        }
    }

    /// Copies `data` into frame `ppn` from byte `offset` of the frame on.
    /// The rest of the frame, and every other frame, stays as it is.
    pub fn write_at(&mut self, ppn: PhysPageNum, offset: usize, data: &[u8])
        requires
            old(self).wf(),
            old(self).contains(ppn),
            offset + data@.len() <= 4096,
        ensures
            final(self).wf(),
            old(self).same_but(final(self), set![ppn]),
            final(self).page(ppn) == old(self).page(ppn).subrange(0, offset as int) + data@
                + old(self).page(ppn).subrange(offset + data@.len(), 4096),
    {
        let at = self.offset(ppn) + offset;
        let n = data.len();
        let ghost before = self.bytes@;
        let mut k: usize = 0;
        while k < n
            invariant
                k <= n,
                n == data@.len(),
                offset + n <= 4096,
                at == (ppn.0 - self.base) * 4096 + offset,
                self.base == old(self).base,
                self.bytes@.len() == before.len(),
                at + n <= before.len(),
                at + n <= usize::MAX,
                forall|j: int|
                    0 <= j < before.len() && !(at <= j < at + k) ==> self.bytes@[j] == before[j],
                forall|j: int| at <= j < at + k ==> self.bytes@[j] == data@[j - at],
            decreases n - k,
        {
            self.bytes.set(at + k, data[k]);
            k += 1;
        }
        proof {
            assert(self.page(ppn) =~= old(self).page(ppn).subrange(0, offset as int) + data@
                + old(self).page(ppn).subrange(offset + data@.len(), 4096));
            assert forall|p: PhysPageNum|
                old(self).contains(p) && !set![ppn].contains(p) implies #[trigger] self.page(p)
                == old(self).page(p) by {
                assert(self.page(p) =~= old(self).page(p));
            }
        }
    }

    /// Copies `data` over the first bytes of frame `ppn`. The rest of the
    /// frame, and every other frame, stays as it is.
    pub fn write_bytes(&mut self, ppn: PhysPageNum, data: &[u8])
        requires
            old(self).wf(),
            old(self).contains(ppn),
            data@.len() <= 4096,
        ensures
            final(self).wf(),
            old(self).same_but(final(self), set![ppn]),
            final(self).page(ppn) == data@ + old(self).page(ppn).subrange(
                data@.len() as int,
                4096,
            ),
    {
        let at = self.offset(ppn);
        let n = data.len();
        let ghost before = self.bytes@;
        let mut k: usize = 0;
        while k < n
            invariant
                k <= n,
                n == data@.len(),
                n <= 4096,
                self.base == old(self).base,
                self.bytes@.len() == before.len(),
                at + 4096 <= before.len(),
                at + 4096 <= usize::MAX,
                forall|j: int|
                    0 <= j < before.len() && !(at <= j < at + k) ==> self.bytes@[j] == before[j],
                forall|j: int| at <= j < at + k ==> self.bytes@[j] == data@[j - at],
            decreases n - k,
        {
            self.bytes.set(at + k, data[k]);
            k += 1;
        }
        proof {
            assert(self.page(ppn) =~= data@ + old(self).page(ppn).subrange(
                data@.len() as int,
                4096,
            ));
            assert forall|p: PhysPageNum|
                old(self).contains(p) && !set![ppn].contains(p) implies #[trigger] self.page(p)
                == old(self).page(p) by {
                assert(self.page(p) =~= old(self).page(p));
            }
        }
    }
}

proof fn zero_bytes_are_zero_word(s: Seq<u8>)
    requires
        s.len() == 8,
        forall|i: int| 0 <= i < 8 ==> s[i] == 0u8,
    ensures
        spec_u64_from_le_bytes(s) == 0,
{
    lemma_auto_spec_u64_to_from_le_bytes();
    let z = spec_u64_to_le_bytes(0u64);
    vstd::bytes::spec_u64_to_le_bytes_to_open(0u64);
    assert(0u64 & 0xff == 0 && (0u64 >> 8) & 0xff == 0 && (0u64 >> 16) & 0xff == 0 && (0u64 >> 24)
        & 0xff == 0 && (0u64 >> 32) & 0xff == 0 && (0u64 >> 40) & 0xff == 0 && (0u64 >> 48) & 0xff
        == 0 && (0u64 >> 56) & 0xff == 0) by (bit_vector);
    assert(z =~= s);
}

/// The 512 words of a frame, read as a small table.
impl PhysPageNum {
    /// The bytes of this frame in `mem`.
    pub fn get_bytes_array<'a>(&self, mem: &'a PhysMemory) -> (bytes: &'a [u8])
        requires
            mem.wf(),
            mem.contains(*self),
        ensures
            bytes@ == mem.page(*self),
            bytes@.len() == 4096,
    {
        mem.page_bytes(*self)
    }
}

} // verus!
