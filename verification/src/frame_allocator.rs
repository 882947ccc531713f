//! The allocator of physical page frames, and the handle that owns a frame.
//!
//! The allocator hands out frames from two pools: a stack of frames that were
//! handed back, which it prefers, and the frames from a high-water mark up to
//! the end of its range, which were never in use.

use vstd::prelude::*;
use crate::address::{PhysAddr, PhysPageNum};
use crate::phys_memory::PhysMemory;

verus! {

/// What an allocator knows: the high-water mark `current`, the end of its
/// range, and the stack of frames that were handed back, the last of them on
/// top.
pub struct AllocatorState {
    pub current: u64,
    pub end: u64,
    pub recycled: Seq<u64>,
}

impl AllocatorState {
    /// The mark lies within the range, and the stack holds frames below the
    /// mark, none of them twice.
    pub open spec fn wf(self) -> bool {
        &&& self.current <= self.end
        &&& forall|i: int| 0 <= i < self.recycled.len() ==> self.recycled[i] < self.current
        &&& self.recycled.no_duplicates()
    }

    /// Whether frame `p` can be handed out.
    pub open spec fn is_free(self, p: u64) -> bool {
        self.recycled.contains(p) || (self.current <= p && p < self.end)
    }

    /// Whether frame `p` counts as in use: it lies below the mark and is not
    /// on the stack. These are the frames that may be handed back.
    pub open spec fn is_allocated(self, p: u64) -> bool {
        p < self.current && !self.recycled.contains(p)
    }

    /// How many frames can be handed out.
    pub open spec fn free_count(self) -> int {
        self.recycled.len() + (self.end - self.current)
    }

    /// One allocation: the frame on top of the stack if there is one, else
    /// the frame at the mark, which then moves up; nothing once the stack is
    /// empty and the mark has reached the end.
    pub open spec fn allocate(self) -> (AllocatorState, Option<PhysPageNum>) {
        if self.recycled.len() > 0 {
            (
                AllocatorState { recycled: self.recycled.drop_last(), ..self },
                Some(PhysPageNum(self.recycled.last())),
            )
        } else if self.current == self.end {
            (self, None)
        } else {
            (
                AllocatorState { current: (self.current + 1) as u64, ..self },
                Some(PhysPageNum(self.current)),
            )
        }
    }

    /// Handing back frame `p`: it goes on top of the stack.
    pub open spec fn dealloc(self, p: PhysPageNum) -> AllocatorState {
        AllocatorState { recycled: self.recycled.push(p.0), ..self }
    }

    /// `n` allocations in a row, with the frames they give in order. Stops
    /// early when the allocator runs out.
    pub open spec fn alloc_many(self, n: nat) -> (AllocatorState, Seq<u64>)
        decreases n,
    {
        if n == 0 {
            (self, Seq::empty())
        } else {
            match self.allocate() {
                (next, Some(p)) => {
                    let (last, rest) = next.alloc_many((n - 1) as nat);
                    (last, seq![p.0] + rest)
                },
                (next, None) => (next, Seq::empty()),
            }
        }
    }

    /// Whether the frames of `pages` can be handed back one after the other.
    pub open spec fn can_dealloc_all(self, pages: Seq<u64>) -> bool
        decreases pages.len(),
    {
        pages.len() == 0 || (self.is_allocated(pages[0]) && self.dealloc(
            PhysPageNum(pages[0]),
        ).can_dealloc_all(pages.skip(1)))
    }

    /// Handing back the frames of `pages` one after the other.
    pub open spec fn dealloc_all(self, pages: Seq<u64>) -> AllocatorState {
        AllocatorState { recycled: self.recycled + pages, ..self }
    }

    /// Whether this state can follow `before` by taking `count` free frames
    /// and handing none back: that many fewer frames are free, what was in
    /// use still is, and nothing became free.
    pub open spec fn took_from(self, before: AllocatorState, count: int) -> bool {
        &&& self.free_count() == before.free_count() - count
        &&& forall|q: u64| before.is_allocated(q) ==> self.is_allocated(q)
        &&& forall|q: u64| self.is_free(q) ==> before.is_free(q)
    }

    /// Whether every frame that can be handed out lies in `mem`.
    pub open spec fn within(self, mem: &PhysMemory) -> bool {
        forall|p: u64| self.is_free(p) ==> mem.contains(PhysPageNum(p))
    }
}

/// The stack allocator of page frames.
pub struct StackFrameAllocator {
    current: u64,
    end: u64,
    recycled: Vec<u64>,
}

impl View for StackFrameAllocator {
    type V = AllocatorState;

    closed spec fn view(&self) -> AllocatorState {
        AllocatorState { current: self.current, end: self.end, recycled: self.recycled@ }
    }
}

impl StackFrameAllocator {
    /// The allocator's own invariant.
    pub open spec fn wf(&self) -> bool {
        self@.wf()
    }

    /// This allocator is sound and every frame it can hand out lies in `mem`.
    pub open spec fn serves(&self, mem: &PhysMemory) -> bool {
        self@.wf() && mem.wf() && self@.within(mem)
    }

    /// An allocator with an empty range: it hands out nothing until `init`.
    pub fn new() -> (alloc: Self)
        ensures
            alloc@ == (AllocatorState { current: 0, end: 0, recycled: Seq::empty() }),
            alloc.wf(),
    {
        Self { current: 0, end: 0, recycled: Vec::new() }
    }

    /// Gives the allocator the frames `l .. r` to hand out.
    pub fn init(&mut self, l: PhysPageNum, r: PhysPageNum)
        requires
            l.0 <= r.0,
            old(self)@.recycled.len() == 0,
        ensures
            final(self)@ == (AllocatorState { current: l.0, end: r.0, recycled: Seq::empty() }),
            final(self).wf(),
    {
        self.current = l.0;
        self.end = r.0;
        assert(self@.recycled =~= Seq::empty());
    }

    /// Hands out a frame: the one handed back last if there is any, else the
    /// next one never used; nothing when both pools are empty.
    pub fn allocate(&mut self) -> (frame: Option<PhysPageNum>)
        requires
            old(self).wf(),
        ensures
            (final(self)@, frame) == old(self)@.allocate(),
            final(self).wf(),
            frame matches Some(p) ==> old(self)@.is_free(p.0) && !old(self)@.is_allocated(p.0)
                && final(self)@.is_allocated(p.0),
            frame.is_none() <==> old(self)@.free_count() == 0,
            forall|q: u64|
                frame != Some(PhysPageNum(q))
                    ==> (final(self)@.is_allocated(q) == old(self)@.is_allocated(q)
                        && final(self)@.is_free(q) == old(self)@.is_free(q)),
    {
        let ghost before = self@;
        if let Some(ppn) = self.recycled.pop() {
            proof {
                alloc_keeps_state_sound(before);
            }
            Some(PhysPageNum(ppn))
        } else if self.current == self.end {
            None
        } else {
            self.current += 1;
            proof {
                alloc_keeps_state_sound(before);
            }
            Some(PhysPageNum(self.current - 1))
        }
    }

    /// Whether frame `ppn` is in use and may be handed back.
    pub fn is_allocated(&self, ppn: PhysPageNum) -> (yes: bool)
        ensures
            yes == self@.is_allocated(ppn.0),
    {
        if ppn.0 >= self.current {
            return false;
        }
        let mut i: usize = 0;
        while i < self.recycled.len()
            invariant
                i <= self.recycled@.len(),
                forall|j: int| 0 <= j < i ==> self.recycled@[j] != ppn.0,
            decreases self.recycled@.len() - i,
        {
            if self.recycled[i] == ppn.0 {
                return false;
            }
            i += 1;
        }
        true
    }

    /// Takes back frame `ppn`, which has to be in use: not at or above the
    /// high-water mark, and not handed back already.
    pub fn dealloc(&mut self, ppn: PhysPageNum)
        requires
            old(self).wf(),
            old(self)@.is_allocated(ppn.0),
        ensures
            final(self)@ == old(self)@.dealloc(ppn),
            final(self).wf(),
            final(self)@.is_free(ppn.0),
            forall|q: u64|
                q != ppn.0 ==> (final(self)@.is_allocated(q) == old(self)@.is_allocated(q)
                    && final(self)@.is_free(q) == old(self)@.is_free(q)),
    {
        let ghost before = self@;
        self.recycled.push(ppn.0);
        proof {
            dealloc_keeps_state_sound(before, ppn);
        }
    }

    /// Takes back frame `ppn` if it is in use, and says whether it was. A
    /// frame that was never handed out, or was handed back already, is
    /// refused and leaves the allocator as it is: it is for the caller to
    /// stop there.
    pub fn try_dealloc(&mut self, ppn: PhysPageNum) -> (done: bool)
        requires
            old(self).wf(),
        ensures
            done == old(self)@.is_allocated(ppn.0),
            done ==> final(self)@ == old(self)@.dealloc(ppn),
            !done ==> final(self)@ == old(self)@,
            final(self).wf(),
    {
        if self.is_allocated(ppn) {
            self.dealloc(ppn);
            true
        } else {
            false
        }
    }

    /// Whether at least `n` frames can still be handed out.
    pub fn has_free(&self, n: u64) -> (yes: bool)
        requires
            self.wf(),
        ensures
            yes == (self@.free_count() >= n),
    {
        let fresh: u64 = self.end - self.current;
        if fresh >= n {
            true
        } else {
            let stacked: usize = self.recycled.len();
            stacked as u64 >= n - fresh
        }
    }
}

/// After an allocation the state is sound again; the frame that came out was
/// free and is now in use, and no other frame changed sides.
pub proof fn alloc_keeps_state_sound(s: AllocatorState)
    requires
        s.wf(),
    ensures
        s.allocate().0.wf(),
        s.allocate().1.is_none() <==> s.free_count() == 0,
        s.allocate().1 matches Some(p) ==> s.is_free(p.0) && !s.is_allocated(p.0)
            && s.allocate().0.is_allocated(p.0) && !s.allocate().0.is_free(p.0)
                && s.allocate().0.free_count()
            == s.free_count() - 1,
        forall|q: u64|
            s.allocate().1 != Some(PhysPageNum(q)) ==> (s.allocate().0.is_allocated(q) == s.is_allocated(q)
                && s.allocate().0.is_free(q) == s.is_free(q)),
{
    let (next, frame) = s.allocate();
    if s.recycled.len() > 0 {
        let top = s.recycled.last();
        let rest = s.recycled.drop_last();
        assert(s.recycled[s.recycled.len() - 1] == top);
        assert(s.recycled.contains(top));
        assert(!rest.contains(top)) by {
            if rest.contains(top) {
                let i = choose|i: int| 0 <= i < rest.len() && rest[i] == top;
                assert(s.recycled[i] == top);
            }
        }
        assert(rest.no_duplicates());
        assert forall|q: u64| q != top implies rest.contains(q) == s.recycled.contains(q) by {
            if s.recycled.contains(q) {
                let i = choose|i: int| 0 <= i < s.recycled.len() && s.recycled[i] == q;
                assert(rest[i] == q);
            }
            if rest.contains(q) {
                let i = choose|i: int| 0 <= i < rest.len() && rest[i] == q;
                assert(s.recycled[i] == q);
            }
        }
    } else if s.current != s.end {
        assert(!s.recycled.contains(s.current));
        assert(!next.recycled.contains(s.current));
    }
}

/// After frame `p` was handed back the state is sound again; `p` is free, and
/// no other frame changed sides.
pub proof fn dealloc_keeps_state_sound(s: AllocatorState, p: PhysPageNum)
    requires
        s.wf(),
        s.is_allocated(p.0),
    ensures
        s.dealloc(p).wf(),
        s.dealloc(p).is_free(p.0),
        !s.dealloc(p).is_allocated(p.0),
        s.dealloc(p).free_count() == s.free_count() + 1,
        forall|q: u64|
            q != p.0 ==> (s.dealloc(p).is_allocated(q) == s.is_allocated(q) && s.dealloc(p).is_free(q)
                == s.is_free(q)),
{
    let next = s.dealloc(p);
    assert(next.recycled[s.recycled.len() as int] == p.0);
    assert(next.recycled.contains(p.0));
    assert forall|q: u64| q != p.0 implies next.recycled.contains(q) == s.recycled.contains(q) by {
        if s.recycled.contains(q) {
            let i = choose|i: int| 0 <= i < s.recycled.len() && s.recycled[i] == q;
            assert(next.recycled[i] == q);
        }
        if next.recycled.contains(q) {
            let i = choose|i: int| 0 <= i < next.recycled.len() && next.recycled[i] == q;
            assert(s.recycled[i] == q);
        }
    }
    assert(next.recycled.no_duplicates()) by {
        assert forall|i: int, j: int|
            0 <= i < next.recycled.len() && 0 <= j < next.recycled.len() && i != j implies next.recycled[i]
            != next.recycled[j] by {
            if i < s.recycled.len() && j < s.recycled.len() {
                assert(s.recycled[i] != s.recycled[j]);
            } else if i < s.recycled.len() {
                assert(s.recycled.contains(s.recycled[i]));
            } else {
                assert(s.recycled.contains(s.recycled[j]));
            }
        }
    }
}

/// A frame that is handed back is the next one to be handed out, and that
/// allocation leaves the allocator as it was before the frame came back.
pub proof fn freed_frame_is_allocated_next(s: AllocatorState, p: PhysPageNum)
    requires
        s.wf(),
        s.is_allocated(p.0),
    ensures
        s.dealloc(p).allocate() == (s, Some(p)),
{
    let back = s.dealloc(p);
    assert(back.recycled.drop_last() =~= s.recycled);
}

/// With the frames of `pages` on top of its stack, an allocator hands out
/// exactly those frames in the next `pages.len()` allocations, the last of
/// them first, and is then left with the stack below them.
pub proof fn stacked_frames_come_back_reversed(s: AllocatorState, pages: Seq<u64>)
    ensures
        s.dealloc_all(pages).alloc_many(pages.len()) == (s, pages.reverse()),
    decreases pages.len(),
{
    let full = s.dealloc_all(pages);
    if pages.len() == 0 {
        assert(full.recycled =~= s.recycled);
        assert(pages.reverse() =~= Seq::<u64>::empty());
    } else {
        let front = pages.drop_last();
        let (next, frame) = full.allocate();
        assert(full.recycled.last() == pages.last());
        assert(full.recycled.drop_last() =~= s.recycled + front);
        assert(next == s.dealloc_all(front));
        stacked_frames_come_back_reversed(s, front);
        assert(seq![pages.last()] + front.reverse() =~= pages.reverse());
    }
}

/// `n` allocations from an allocator with at least `n` free frames give `n`
/// frames, all different, all free before and in use after, and leave the
/// allocator sound.
pub proof fn alloc_many_gives_distinct_frames(s: AllocatorState, n: nat)
    requires
        s.wf(),
        s.free_count() >= n,
    ensures
        s.alloc_many(n).0.wf(),
        s.alloc_many(n).0.free_count() == s.free_count() - n,
        s.alloc_many(n).1.len() == n,
        s.alloc_many(n).1.no_duplicates(),
        forall|i: int|
            0 <= i < n ==> s.is_free(#[trigger] s.alloc_many(n).1[i]) && s.alloc_many(
                n,
            ).0.is_allocated(s.alloc_many(n).1[i]),
        forall|q: u64| s.is_allocated(q) ==> s.alloc_many(n).0.is_allocated(q),
    decreases n,
{
    if n > 0 {
        alloc_keeps_state_sound(s);
        let (next, frame) = s.allocate();
        let p = frame->Some_0;
        alloc_many_gives_distinct_frames(next, (n - 1) as nat);
        let (last, rest) = next.alloc_many((n - 1) as nat);
        let all = seq![p.0] + rest;
        assert(s.alloc_many(n) == (last, all));
        assert forall|i: int| 0 <= i < n implies s.is_free(#[trigger] all[i]) && last.is_allocated(
            all[i],
        ) by {
            if i > 0 {
                assert(all[i] == rest[i - 1]);
                assert(next.is_free(rest[i - 1]));
            }
        }
        assert(all.no_duplicates()) by {
            assert forall|i: int, j: int| 0 <= i < all.len() && 0 <= j < all.len() && i != j implies all[i]
                != all[j] by {
                if i > 0 {
                    assert(all[i] == rest[i - 1]);
                    assert(next.is_free(rest[i - 1]));
                }
                if j > 0 {
                    assert(all[j] == rest[j - 1]);
                    assert(next.is_free(rest[j - 1]));
                }
            }
        }
    }
}

/// Frames that are in use and all different can be handed back one after the
/// other, in any order.
pub proof fn distinct_frames_can_be_freed(s: AllocatorState, pages: Seq<u64>)
    requires
        s.wf(),
        pages.no_duplicates(),
        forall|i: int| 0 <= i < pages.len() ==> s.is_allocated(#[trigger] pages[i]),
    ensures
        s.can_dealloc_all(pages),
        s.dealloc_all(pages).wf(),
    decreases pages.len(),
{
    if pages.len() == 0 {
        assert(s.dealloc_all(pages).recycled =~= s.recycled);
    } else {
        let p = PhysPageNum(pages[0]);
        let rest = pages.skip(1);
        dealloc_keeps_state_sound(s, p);
        let next = s.dealloc(p);
        assert forall|i: int| 0 <= i < rest.len() implies next.is_allocated(#[trigger] rest[i]) by {
            assert(rest[i] == pages[i + 1]);
        }
        distinct_frames_can_be_freed(next, rest);
        assert(next.dealloc_all(rest).recycled =~= s.dealloc_all(pages).recycled);
    }
}

/// Allocating `n` frames, handing all of them back in any order, each once,
/// and allocating `n` frames again gives the same set of frames: the second
/// time in the reverse of the order in which they came back. The allocator
/// ends as it was after the first `n` allocations.
pub proof fn alloc_free_alloc_gives_same_frames(s: AllocatorState, n: nat, back: Seq<u64>)
    requires
        s.wf(),
        s.free_count() >= n,
        back.to_multiset() == s.alloc_many(n).1.to_multiset(),
    ensures
        s.alloc_many(n).0.can_dealloc_all(back),
        s.alloc_many(n).0.dealloc_all(back).alloc_many(n) == (s.alloc_many(n).0, back.reverse()),
        back.reverse().to_set() == s.alloc_many(n).1.to_set(),
{
    let (mid, first) = s.alloc_many(n);
    alloc_many_gives_distinct_frames(s, n);
    first.to_multiset_ensures();
    back.to_multiset_ensures();
    assert(back.len() == n);
    assert forall|i: int| 0 <= i < back.len() implies mid.is_allocated(#[trigger] back[i]) by {
        assert(back.contains(back[i]));
        assert(back.to_multiset().count(back[i]) > 0);
        assert(first.contains(back[i]));
        let j = choose|j: int| 0 <= j < first.len() && first[j] == back[i];
        assert(mid.is_allocated(first[j]));
    }
    assert(back.no_duplicates()) by {
        first.lemma_multiset_has_no_duplicates();
        back.lemma_multiset_has_no_duplicates_conv();
    }
    distinct_frames_can_be_freed(mid, back);
    stacked_frames_come_back_reversed(mid, back);
    assert(back.reverse().to_set() =~= first.to_set()) by {
        assert forall|x: u64| back.reverse().to_set().contains(x) <==> first.to_set().contains(
            x,
        ) by {
            if back.reverse().contains(x) {
                let i = choose|i: int| 0 <= i < back.reverse().len() && back.reverse()[i] == x;
                assert(back[back.len() - 1 - i] == x);
                assert(back.contains(x));
                assert(back.to_multiset().count(x) > 0);
            }
            if first.contains(x) {
                assert(first.to_multiset().count(x) > 0);
                assert(back.contains(x));
                let i = choose|i: int| 0 <= i < back.len() && back[i] == x;
                assert(back.reverse()[back.len() - 1 - i] == x);
            }
        }
    }
}

/// The handle that owns one frame. Whoever holds it is the only owner of the
/// frame; it is given up by `frame_dealloc`, which hands the frame back.
#[derive(Debug)]
pub struct FrameTracker {
    pub ppn: PhysPageNum,
}

impl FrameTracker {
    /// Takes charge of frame `ppn`, and fills it with zero bytes so that
    /// nothing of an earlier owner shows.
    pub fn new(ppn: PhysPageNum, mem: &mut PhysMemory) -> (frame: Self)
        requires
            old(mem).wf(),
            old(mem).contains(ppn),
        ensures
            frame.ppn == ppn,
            final(mem).wf(),
            old(mem).same_but(final(mem), set![ppn]),
            final(mem).is_zero_page(ppn),
    {
        mem.clear_page(ppn);
        Self { ppn }
    }
}

/// Allocates a frame and hands it out cleared, under a handle; nothing when
/// no frame is free, and then nothing has changed.
pub fn frame_alloc(alloc: &mut StackFrameAllocator, mem: &mut PhysMemory) -> (frame: Option<
    FrameTracker,
>)
    requires
        old(alloc).serves(old(mem)),
    ensures
        final(alloc).serves(final(mem)),
        final(alloc)@ == old(alloc)@.allocate().0,
        frame.is_none() <==> old(alloc)@.free_count() == 0,
        frame.is_none() ==> *final(mem) == *old(mem),
        frame matches Some(f) ==> {
            &&& Some(f.ppn) == old(alloc)@.allocate().1
            &&& old(alloc)@.is_free(f.ppn.0)
            &&& !old(alloc)@.is_allocated(f.ppn.0)
            &&& final(alloc)@.is_allocated(f.ppn.0)
            &&& final(alloc)@.free_count() == old(alloc)@.free_count() - 1
            &&& final(mem).contains(f.ppn)
            &&& old(mem).same_but(final(mem), set![f.ppn])
            &&& final(mem).is_zero_page(f.ppn)
        },
        forall|q: u64|
            !(frame matches Some(f) && f.ppn.0 == q)
                ==> final(alloc)@.is_allocated(q) == old(alloc)@.is_allocated(q),
        forall|q: u64| old(alloc)@.is_allocated(q) ==> final(alloc)@.is_allocated(q),
        forall|q: u64| final(alloc)@.is_free(q) ==> old(alloc)@.is_free(q),
{
    proof {
        alloc_keeps_state_sound(alloc@);
    }
    match alloc.allocate() {
        Some(ppn) => {
            let frame = FrameTracker::new(ppn, mem);
            Some(frame)
        },
        None => None,
    }
}

/// Gives up the handle `frame` and hands its frame back to the allocator.
/// The frame has to be in use: a frame is handed back once.
pub fn frame_dealloc(alloc: &mut StackFrameAllocator, frame: FrameTracker)
    requires
        old(alloc).wf(),
        old(alloc)@.is_allocated(frame.ppn.0),
    ensures
        final(alloc)@ == old(alloc)@.dealloc(frame.ppn),
        final(alloc).wf(),
        final(alloc)@.is_free(frame.ppn.0),
        final(alloc)@.free_count() == old(alloc)@.free_count() + 1,
        forall|q: u64|
            q != frame.ppn.0 ==> (final(alloc)@.is_allocated(q) == old(alloc)@.is_allocated(q)
                && final(alloc)@.is_free(q) == old(alloc)@.is_free(q)),
{
    proof {
        dealloc_keeps_state_sound(alloc@, frame.ppn);
    }
    alloc.dealloc(frame.ppn);
}

/// Gives the allocator the usable memory to hand out: the frames from the
/// first frame boundary at or after `ekernel`, the end of the kernel image,
/// up to the frame that holds `memory_end`.
pub fn init_frame_allocator(alloc: &mut StackFrameAllocator, ekernel: PhysAddr, memory_end: PhysAddr)
    requires
        ekernel.ceil().0 <= memory_end.floor().0,
        old(alloc)@.recycled.len() == 0,
    ensures
        final(alloc)@ == (AllocatorState {
            current: ekernel.ceil().0,
            end: memory_end.floor().0,
            recycled: Seq::empty(),
        }),
        final(alloc).wf(),
{
    alloc.init(ekernel.ceil(), memory_end.floor());
}

} // verus!
