//! The address space of a program.
//!
//! A program gets an area for each segment of its image that is to be
//! loaded, with the bytes of the segment in it; above the highest segment, one
//! page left out as a guard, its stack; right below the landing pad the page
//! that holds its saved registers; and the landing pad.

use vstd::prelude::*;
use vstd::slice::slice_subrange;
use crate::address::{
    canonical_range,
    page_address_round_trip,
    page_ceil,
    page_floor,
    PhysAddr,
    VirtAddr,
    VirtPageNum,
};
use crate::config::{HALF_PAGES, PAGE_SIZE, TRAMPOLINE, TRAP_CONTEXT, USER_STACK_SIZE, VPN_LIMIT};
use crate::elf::{can_copy, image_of, read_image, starts_with_magic, ElfImage, ElfSegment};
use crate::frame_allocator::{AllocatorState, StackFrameAllocator};
use crate::map_area::{
    page_chunk,
    zero_padded,
    MapArea,
    MapPermission,
    MapType,
    PERM_R,
    PERM_U,
    PERM_W,
    PERM_X,
};
use crate::memory_set::{
    area_sound,
    areas_apart,
    frames_for_areas,
    frames_for_areas_count_up,
    given_up,
    overlaps,
    MemorySet,
    PlannedArea,
};
use crate::page_table::{entry_holds_its_parts, PTEFlags};
use crate::phys_memory::PhysMemory;

verus! {

impl ElfSegment {
    /// The permissions that the segment is mapped with: use in user mode,
    /// and what its program header allows.
    pub open spec fn perm(&self) -> MapPermission {
        let user = MapPermission::of(PERM_U);
        let read = if self.readable {
            user.union(MapPermission::of(PERM_R))
        } else {
            user
        };
        let write = if self.writable {
            read.union(MapPermission::of(PERM_W))
        } else {
            read
        };
        if self.executable {
            write.union(MapPermission::of(PERM_X))
        } else {
            write
        }
    }

    /// The first page of the segment.
    pub open spec fn first_page(&self) -> u64 {
        page_floor(self.vaddr)
    }

    /// The page after the last page of the segment.
    pub open spec fn end_page(&self) -> u64 {
        page_ceil((self.vaddr + self.mem_size) as u64)
    }

    /// Whether the segment can be loaded from an image of `len` bytes: its
    /// end in memory fits a word, its bytes lie within the image and fit its
    /// pages, and its pages lie in one canonical half below the page of the
    /// saved registers.
    pub open spec fn fits(&self, len: int) -> bool {
        &&& self.vaddr + self.mem_size <= u64::MAX
        &&& self.offset + self.file_size <= len
        &&& canonical_range(self.first_page(), self.end_page())
        &&& self.end_page() <= VPN_LIMIT - 2
        &&& self.file_size <= (self.end_page() - self.first_page()) * 4096
    }

    /// The bytes of the segment in the image `data`.
    pub open spec fn bytes(&self, data: Seq<u8>) -> Seq<u8> {
        data.subrange(self.offset as int, self.offset + self.file_size)
    }

    /// Whether the segment can be loaded from an image of `len` bytes.
    pub fn can_fit(&self, len: usize) -> (ok: bool)
        ensures
            ok == self.fits(len as int),
    {
        let end = match self.vaddr.checked_add(self.mem_size) {
            Some(end) => end,
            None => {
                return false;
            },
        };
        let file_end = match self.offset.checked_add(self.file_size) {
            Some(file_end) => file_end,
            None => {
                return false;
            },
        };
        if file_end > len as u64 {
            return false;
        }
        let first = VirtAddr(self.vaddr).floor().0;
        let last = VirtAddr(end).ceil().0;
        if !(first <= last && (last <= HALF_PAGES || (VPN_LIMIT - HALF_PAGES <= first && last
            <= VPN_LIMIT))) {
            return false;
        }
        if last > VPN_LIMIT - 2 {
            return false;
        }
        self.file_size <= (last - first) * PAGE_SIZE
    }

    /// The permissions that the segment is mapped with.
    pub fn map_perm(&self) -> (perm: MapPermission)
        ensures
            perm == self.perm(),
    {
        let mut map_perm = MapPermission::of(PERM_U);
        if self.readable {
            map_perm = map_perm.union(MapPermission::of(PERM_R));
        }
        if self.writable {
            map_perm = map_perm.union(MapPermission::of(PERM_W));
        }
        if self.executable {
            map_perm = map_perm.union(MapPermission::of(PERM_X));
        }
        map_perm
    }
}

/// The highest page at which one of the first `count` segments ends; 0
/// without any segment.
pub open spec fn highest_end_upto(segments: Seq<ElfSegment>, count: int) -> u64
    decreases count,
{
    if count <= 0 {
        0
    } else {
        let before = highest_end_upto(segments, count - 1);
        let end = segments[count - 1].end_page();
        if end > before {
            end
        } else {
            before
        }
    }
}

/// The highest page at which a segment ends: the page after the highest
/// page of all segments.
pub open spec fn highest_end_page(segments: Seq<ElfSegment>) -> u64 {
    highest_end_upto(segments, segments.len() as int)
}

/// No segment ends above the highest end.
proof fn highest_end_is_highest(segments: Seq<ElfSegment>, k: int, count: int)
    requires
        0 <= k < count <= segments.len(),
    ensures
        segments[k].end_page() <= highest_end_upto(segments, count),
    decreases count,
{
    if k < count - 1 {
        highest_end_is_highest(segments, k, count - 1);
    }
}

/// The first page of the user stack: one page is left out above the
/// highest page of the segments, as a guard.
pub open spec fn stack_first_page(segments: Seq<ElfSegment>) -> int {
    highest_end_page(segments) + 1
}

/// The page after the last page of the user stack.
pub open spec fn stack_end_page(segments: Seq<ElfSegment>) -> int {
    stack_first_page(segments) + USER_STACK_SIZE / PAGE_SIZE
}

/// The address of the top of the user stack.
pub open spec fn stack_top(segments: Seq<ElfSegment>) -> int {
    stack_end_page(segments) * PAGE_SIZE
}

/// The permissions of the page of the saved registers: reading and writing,
/// for the kernel alone.
pub open spec fn context_perm() -> MapPermission {
    MapPermission::of(PERM_R).union(MapPermission::of(PERM_W))
}

/// The permissions of the user stack: reading, writing, use in user mode.
pub open spec fn stack_perm() -> MapPermission {
    MapPermission::of(PERM_R).union(MapPermission::of(PERM_W)).union(MapPermission::of(PERM_U))
}

/// Whether each of the first `count` segments of `segments` can be loaded
/// from an image of `len` bytes, and no two of them share a page.
pub open spec fn segments_fit(segments: Seq<ElfSegment>, len: int, count: int) -> bool {
    &&& forall|i: int| 0 <= i < count ==> (#[trigger] segments[i]).fits(len)
    &&& forall|i: int, j: int|
        0 <= i < j < count ==> !overlaps(
            (#[trigger] segments[j]).first_page(),
            segments[j].end_page(),
            (#[trigger] segments[i]).first_page(),
            segments[i].end_page(),
        )
}

/// Whether an address space can be laid out for the segments `segments` of
/// an image of `len` bytes: every segment can be loaded, no two segments
/// share a page, and the user stack above the highest segment lies in one
/// canonical half below the page of the saved registers.
pub open spec fn can_load(segments: Seq<ElfSegment>, len: int) -> bool {
    &&& segments_fit(segments, len, segments.len() as int)
    &&& stack_end_page(segments) <= VPN_LIMIT - 2
    &&& canonical_range(stack_first_page(segments) as u64, stack_end_page(segments) as u64)
}

/// The areas of the address space of a program with the segments
/// `segments`, in the order in which they are mapped: the landing pad, the
/// segments, the user stack, and the page of the saved registers.
pub open spec fn user_plan(segments: Seq<ElfSegment>) -> Seq<PlannedArea> {
    let n = segments.len() as int;
    Seq::new(
        (n + 3) as nat,
        |i: int|
            if i == 0 {
                PlannedArea { first: (VPN_LIMIT - 1) as u64, end: VPN_LIMIT, map_type: MapType::Identical }
            } else if i <= n {
                PlannedArea {
                    first: segments[i - 1].first_page(),
                    end: segments[i - 1].end_page(),
                    map_type: MapType::Framed,
                }
            } else if i == n + 1 {
                PlannedArea {
                    first: stack_first_page(segments) as u64,
                    end: stack_end_page(segments) as u64,
                    map_type: MapType::Framed,
                }
            } else {
                PlannedArea {
                    first: (VPN_LIMIT - 2) as u64,
                    end: (VPN_LIMIT - 1) as u64,
                    map_type: MapType::Framed,
                }
            },
    )
}

/// How many frames the address space of a program with the segments
/// `segments` takes: one for the root of its table, one for each node that
/// its pages need, and one for each page of a segment, of the stack and of
/// the saved registers.
pub open spec fn frames_for_program(segments: Seq<ElfSegment>) -> int {
    1 + frames_for_areas(user_plan(segments), Set::empty(), Set::empty())
}

/// Whether the program of the image `data` can be given an address space
/// when `free` frames are free: the image can be copied and read, its
/// segments can be laid out, and the frames suffice for its pages and for
/// the nodes of its table.
pub open spec fn can_build(data: Seq<u8>, free: int) -> bool {
    can_copy(data.len() as int) && match image_of(data) {
        Some((entry, segments)) => can_load(segments, data.len() as int) && free >= frames_for_program(
            segments,
        ),
        None => false,
    }
}

impl MemorySet {
    /// The landing pad is mapped, and the first `count` areas are the first
    /// `count` segments of `segments`, in their order: each a framed area
    /// over the pages of its segment, with the permissions of the segment,
    /// that holds the bytes of the segment and zero bytes behind them.
    pub open spec fn holds_segments(
        &self,
        segments: Seq<ElfSegment>,
        data: Seq<u8>,
        strampoline: PhysAddr,
        mem: &PhysMemory,
        count: int,
    ) -> bool {
        &&& self.maps_landing_pad(mem, strampoline)
        &&& count <= self.areas().len()
        &&& forall|i: int|
            0 <= i < count ==> (#[trigger] self.areas()[i]).start_vpn() == segments[i].first_page()
                && self.areas()[i].end_vpn() == segments[i].end_page() && self.areas()[i].map_type()
                == MapType::Framed && self.areas()[i].perm() == segments[i].perm()
                && self.areas()[i].holds_bytes(mem, segments[i].bytes(data))
    }

    /// This is the address space of a program: the landing pad, the segments
    /// of its image, above the highest of them and one page left out the user
    /// stack, and the page of the saved registers right below the landing
    /// pad. Stack and saved registers are framed areas of zero bytes.
    pub open spec fn is_user_space(
        &self,
        segments: Seq<ElfSegment>,
        data: Seq<u8>,
        strampoline: PhysAddr,
        mem: &PhysMemory,
    ) -> bool {
        let n = segments.len() as int;
        &&& self.areas().len() == n + 2
        &&& self.holds_segments(segments, data, strampoline, mem, n)
        &&& self.areas()[n].start_vpn() == stack_first_page(segments)
        &&& self.areas()[n].end_vpn() == stack_end_page(segments)
        &&& self.areas()[n].map_type() == MapType::Framed
        &&& self.areas()[n].perm() == stack_perm()
        &&& self.areas()[n].holds_zeros(mem)
        &&& self.areas()[n + 1].start_vpn() == VPN_LIMIT - 2
        &&& self.areas()[n + 1].end_vpn() == VPN_LIMIT - 1
        &&& self.areas()[n + 1].map_type() == MapType::Framed
        &&& self.areas()[n + 1].perm() == context_perm()
        &&& self.areas()[n + 1].holds_zeros(mem)
    }

    /// Takes segment `i` of `image` into the address space under
    /// construction, or gives the construction up when the segment cannot
    /// be loaded, meets a segment before it, or the allocator runs out.
    fn add_segment(
        self,
        image: &ElfImage,
        data: &[u8],
        i: usize,
        strampoline: PhysAddr,
        alloc: &mut StackFrameAllocator,
        mem: &mut PhysMemory,
        Ghost(first): Ghost<AllocatorState>,
        Ghost(first_mem): Ghost<&PhysMemory>,
        Ghost(total): Ghost<int>,
    ) -> (space: Option<MemorySet>)
        requires
            self.built_since(first, first_mem, old(alloc), old(mem)),
            self.on_plan(first, total, user_plan(image.segments@).skip(1 + i), old(alloc), old(mem)),
            i < image.segments@.len(),
            self.areas().len() == i,
            self.holds_segments(image.segments@, data@, strampoline, old(mem), i as int),
            forall|k: int| 0 <= k < i ==> (#[trigger] image.segments@[k]).fits(data@.len() as int),
        ensures
            !image.segments@[i as int].fits(data@.len() as int) ==> space.is_none(),
            (exists|k: int|
                0 <= k < i && overlaps(
                    image.segments@[i as int].first_page(),
                    image.segments@[i as int].end_page(),
                    (#[trigger] image.segments@[k]).first_page(),
                    image.segments@[k].end_page(),
                )) ==> space.is_none(),
            space.is_none() ==> given_up(first, first_mem, final(alloc), final(mem)),
            space.is_none() ==> !can_load(image.segments@, data@.len() as int)
                || first.free_count() < total,
            space matches Some(s) ==> {
                &&& s.built_since(first, first_mem, final(alloc), final(mem))
                &&& s.on_plan(
                    first,
                    total,
                    user_plan(image.segments@).skip(2 + i),
                    final(alloc),
                    final(mem),
                )
                &&& s.areas().len() == i + 1
                &&& s.holds_segments(image.segments@, data@, strampoline, final(mem), i + 1)
                &&& image.segments@[i as int].fits(data@.len() as int)
            },
    {
        let segment = image.segments[i];
        let ghost segments = image.segments@;
        if !segment.can_fit(data.len()) {
            self.abandon(alloc, mem, Ghost(first), Ghost(first_mem));
            return None;
        }
        let start_va = VirtAddr(segment.vaddr);
        let end_va = VirtAddr(segment.vaddr + segment.mem_size);
        if self.meets_area(start_va.floor().0, end_va.ceil().0) {
            proof {
                let k = choose|k: int|
                    0 <= k < self.areas().len() && overlaps(
                        start_va.floor().0,
                        end_va.ceil().0,
                        (#[trigger] self.areas()[k]).start_vpn(),
                        self.areas()[k].end_vpn(),
                    );
                assert(overlaps(
                    segments[i as int].first_page(),
                    segments[i as int].end_page(),
                    segments[k].first_page(),
                    segments[k].end_page(),
                ));
                assert(!can_load(segments, data@.len() as int));
            }
            self.abandon(alloc, mem, Ghost(first), Ghost(first_mem));
            return None;
        }
        proof {
            assert forall|k: int| 0 <= k < self.areas().len() implies !overlaps(
                start_va.floor().0,
                end_va.ceil().0,
                (#[trigger] self.areas()[k]).start_vpn(),
                self.areas()[k].end_vpn(),
            ) by {}
            assert forall|k: int| 0 <= k < i implies !overlaps(
                segments[i as int].first_page(),
                segments[i as int].end_page(),
                (#[trigger] segments[k]).first_page(),
                segments[k].end_page(),
            ) by {
                assert(self.areas()[k].start_vpn() == segments[k].first_page());
            }
        }
        let area = MapArea::new(start_va, end_va, MapType::Framed, segment.map_perm());
        let bytes = slice_subrange(
            data,
            segment.offset as usize,
            (segment.offset + segment.file_size) as usize,
        );
        let ghost pad = VirtPageNum((VPN_LIMIT - 1) as u64);
        let ghost rest = user_plan(segments).skip(1 + i);
        proof {
            assert(rest[0] == user_plan(segments)[1 + i]);
            assert(rest.skip(1) =~= user_plan(segments).skip(2 + i));
        }
        let space = self.add_area(
            area,
            Some(bytes),
            alloc,
            mem,
            Ghost(first),
            Ghost(first_mem),
            Ghost(total),
            Ghost(rest),
        );
        proof {
            match &space {
                Some(s) => {
                    let n = i as int;
                    assert(pad.is_canonical() && !area.contains_vpn(pad.0));
                    assert(s.translation(mem, pad) == self.translation(old(mem), pad));
                    assert forall|j: int| 0 <= j < n + 1 implies (#[trigger] s.areas()[j]).start_vpn()
                        == segments[j].first_page() && s.areas()[j].end_vpn() == segments[j].end_page()
                        && s.areas()[j].map_type() == MapType::Framed && s.areas()[j].perm()
                        == segments[j].perm() && s.areas()[j].holds_bytes(
                        mem,
                        segments[j].bytes(data@),
                    ) by {
                        if j < n {
                            let a = self.areas()[j];
                            assert(s.areas().drop_last()[j] == a);
                            assert(area_sound(a, self.table(), old(alloc), old(mem)));
                            assert forall|v: u64| a.contains_vpn(v) implies #[trigger] mem.page(
                                a.frames()[v],
                            ) == zero_padded(
                                page_chunk(segments[j].bytes(data@), v - a.start_vpn()),
                            ) by {
                                let p = a.frames()[v];
                                assert(a.frames().contains_key(v));
                                assert(self.areas()[j].owns(p));
                                assert(self.holds(p));
                                assert(!self.table().owned_set().contains(p));
                                assert(mem.page(p) == old(mem).page(p));
                            }
                        } else {
                            assert(s.areas()[j] == s.areas().last());
                            assert(bytes@ == segments[n].bytes(data@));
                        }
                    }
                },
                None => {},
            }
        }
        space
    }

    /// Takes a framed area of zero bytes over the pages `first .. last` into
    /// the address space under construction, which holds the `count`
    /// segments of a program and maybe its stack.
    fn add_plain(
        self,
        first_page: u64,
        last_page: u64,
        perm: MapPermission,
        alloc: &mut StackFrameAllocator,
        mem: &mut PhysMemory,
        Ghost(first): Ghost<AllocatorState>,
        Ghost(first_mem): Ghost<&PhysMemory>,
        Ghost(segments): Ghost<Seq<ElfSegment>>,
        Ghost(data): Ghost<Seq<u8>>,
        Ghost(strampoline): Ghost<PhysAddr>,
        Ghost(total): Ghost<int>,
        Ghost(rest): Ghost<Seq<PlannedArea>>,
    ) -> (space: Option<MemorySet>)
        requires
            self.built_since(first, first_mem, old(alloc), old(mem)),
            self.on_plan(first, total, rest, old(alloc), old(mem)),
            rest.len() > 0,
            rest[0].first == first_page,
            rest[0].end == last_page,
            rest[0].map_type == MapType::Framed,
            self.holds_segments(segments, data, strampoline, old(mem), segments.len() as int),
            canonical_range(first_page, last_page),
            last_page < VPN_LIMIT,
            forall|i: int|
                0 <= i < self.areas().len() ==> !overlaps(
                    first_page,
                    last_page,
                    (#[trigger] self.areas()[i]).start_vpn(),
                    self.areas()[i].end_vpn(),
                ),
            forall|i: int, v: u64|
                segments.len() <= i < self.areas().len()
                    && #[trigger] self.areas()[i].frames().contains_key(
                    v,
                ) ==> old(mem).is_zero_page(self.areas()[i].frames()[v]),
        ensures
            space.is_none() ==> given_up(first, first_mem, final(alloc), final(mem)),
            space.is_none() ==> first.free_count() < total,
            space matches Some(s) ==> {
                &&& s.built_since(first, first_mem, final(alloc), final(mem))
                &&& s.on_plan(first, total, rest.skip(1), final(alloc), final(mem))
                &&& s.holds_segments(segments, data, strampoline, final(mem), segments.len() as int)
                &&& s.areas().len() == self.areas().len() + 1
                &&& s.areas().drop_last() == self.areas()
                &&& s.areas().last().start_vpn() == first_page
                &&& s.areas().last().end_vpn() == last_page
                &&& s.areas().last().map_type() == MapType::Framed
                &&& s.areas().last().perm() == perm
                &&& forall|i: int, v: u64|
                    segments.len() <= i < s.areas().len() && #[trigger] s.areas()[i].frames().contains_key(
                        v,
                    ) ==> final(mem).is_zero_page(s.areas()[i].frames()[v])
            },
    {
        proof {
            page_address_round_trip(VirtPageNum(first_page));
            page_address_round_trip(VirtPageNum(last_page));
        }
        let area = MapArea::new(
            VirtAddr::from(VirtPageNum(first_page)),
            VirtAddr::from(VirtPageNum(last_page)),
            MapType::Framed,
            perm,
        );
        let ghost pad = VirtPageNum((VPN_LIMIT - 1) as u64);
        let space = self.add_area(
            area,
            None,
            alloc,
            mem,
            Ghost(first),
            Ghost(first_mem),
            Ghost(total),
            Ghost(rest),
        );
        proof {
            match &space {
                Some(s) => {
                    let n = segments.len() as int;
                    assert(pad.is_canonical() && !area.contains_vpn(pad.0));
                    assert(s.translation(mem, pad) == self.translation(old(mem), pad));
                    assert forall|j: int| 0 <= j < self.areas().len() implies #[trigger] s.areas()[j]
                        == self.areas()[j] by {
                        assert(s.areas().drop_last()[j] == self.areas()[j]);
                    }
                    assert forall|j: int| 0 <= j < n implies (#[trigger] s.areas()[j]).start_vpn()
                        == segments[j].first_page() && s.areas()[j].end_vpn() == segments[j].end_page()
                        && s.areas()[j].map_type() == MapType::Framed && s.areas()[j].perm()
                        == segments[j].perm() && s.areas()[j].holds_bytes(mem, segments[j].bytes(data)) by {
                        let a = self.areas()[j];
                        assert(s.areas()[j] == a);
                        assert(area_sound(a, self.table(), old(alloc), old(mem)));
                        assert forall|v: u64| a.contains_vpn(v) implies #[trigger] mem.page(
                            a.frames()[v],
                        ) == zero_padded(page_chunk(segments[j].bytes(data), v - a.start_vpn())) by {
                            let p = a.frames()[v];
                            assert(a.frames().contains_key(v));
                            assert(self.areas()[j].owns(p));
                            assert(self.holds(p));
                            assert(!self.table().owned_set().contains(p));
                            assert(mem.page(p) == old(mem).page(p));
                        }
                    }
                    assert forall|i: int, v: u64|
                        n <= i < s.areas().len() && #[trigger] s.areas()[i].frames().contains_key(
                            v,
                        ) implies mem.is_zero_page(s.areas()[i].frames()[v]) by {
                        if i < self.areas().len() {
                            let a = self.areas()[i];
                            let p = a.frames()[v];
                            assert(s.areas()[i] == a);
                            assert(area_sound(a, self.table(), old(alloc), old(mem)));
                            assert(self.areas()[i].owns(p));
                            assert(self.holds(p));
                            assert(!self.table().owned_set().contains(p));
                            assert(mem.page(p) == old(mem).page(p));
                        } else {
                            assert(s.areas()[i] == s.areas().last());
                        }
                    }
                },
                None => {},
            }
        }
        space
    }

    /// Begins the address space of a program: the landing pad, and the
    /// segments of `image`, one after the other. With the address space comes
    /// the page after the highest page of the segments.
    fn load_segments(
        image: &ElfImage,
        data: &[u8],
        strampoline: PhysAddr,
        alloc: &mut StackFrameAllocator,
        mem: &mut PhysMemory,
    ) -> (loaded: Option<(MemorySet, u64)>)
        requires
            old(alloc).serves(old(mem)),
            strampoline.aligned(),
        ensures
            !segments_fit(image.segments@, data@.len() as int, image.segments@.len() as int)
                ==> loaded.is_none(),
            loaded.is_none() ==> given_up(old(alloc)@, old(mem), final(alloc), final(mem)),
            loaded.is_none() ==> !can_load(image.segments@, data@.len() as int)
                || old(alloc)@.free_count() < frames_for_program(image.segments@),
            loaded matches Some((space, last_end)) ==> {
                &&& space.built_since(old(alloc)@, old(mem), final(alloc), final(mem))
                &&& space.on_plan(
                    old(alloc)@,
                    frames_for_program(image.segments@),
                    user_plan(image.segments@).skip(1 + image.segments@.len() as int),
                    final(alloc),
                    final(mem),
                )
                &&& space.areas().len() == image.segments@.len()
                &&& space.holds_segments(
                    image.segments@,
                    data@,
                    strampoline,
                    final(mem),
                    image.segments@.len() as int,
                )
                &&& segments_fit(image.segments@, data@.len() as int, image.segments@.len() as int)
                &&& last_end == highest_end_page(image.segments@)
            },
    {
        let ghost first = alloc@;
        let ghost first_mem = &*mem;
        let ghost segments = image.segments@;
        let ghost len = data@.len() as int;
        let n = image.segments.len();
        let ghost plan = user_plan(segments);
        let ghost total = frames_for_program(segments);
        proof {
            frames_for_areas_count_up(plan, Set::empty(), Set::empty());
        }
        let space = match Self::begin(alloc, mem) {
            Some(space) => space,
            None => {
                return None;
            },
        };
        proof {
            assert(space.on_plan(first, total, plan, alloc, mem));
            assert(plan.skip(1) =~= plan.skip(1 + 0int));
        }
        let mut space = match space.add_trampoline(
            strampoline,
            alloc,
            mem,
            Ghost(first),
            Ghost(first_mem),
            Ghost(total),
            Ghost(plan),
        ) {
            Some(space) => space,
            None => {
                return None;
            },
        };
        let mut last_end: u64 = 0;
        let mut i: usize = 0;
        while i < n
            invariant
                i <= n,
                n == segments.len(),
                segments == image.segments@,
                len == data@.len(),
                first == old(alloc)@,
                *first_mem == *old(mem),
                space.built_since(first, first_mem, alloc, mem),
                plan == user_plan(segments),
                total == frames_for_program(segments),
                space.on_plan(first, total, plan.skip(1 + i), alloc, mem),
                space.areas().len() == i,
                space.holds_segments(segments, data@, strampoline, mem, i as int),
                segments_fit(segments, len, i as int),
                last_end == highest_end_upto(segments, i as int),
            decreases n - i,
        {
            space = match space.add_segment(
                image,
                data,
                i,
                strampoline,
                alloc,
                mem,
                Ghost(first),
                Ghost(first_mem),
                Ghost(total),
            ) {
                Some(space) => space,
                None => {
                    return None;
                },
            };
            let segment = image.segments[i];
            let end = VirtAddr(segment.vaddr + segment.mem_size).ceil().0;
            if end > last_end {
                last_end = end;
            }
            proof {
                assert forall|k: int, j: int| 0 <= k < j < i + 1 implies !overlaps(
                    (#[trigger] segments[j]).first_page(),
                    segments[j].end_page(),
                    (#[trigger] segments[k]).first_page(),
                    segments[k].end_page(),
                ) by {
                    if j == i {
                        assert(areas_apart(space.areas()[k], space.areas()[j]));
                    }
                }
            }
            i += 1;
        }
        Some((space, last_end))
    }

    /// Ends the address space of a program: above the highest segment, which
    /// ends before page `last_end`, and one page left out, the user stack;
    /// and right below the landing pad the page of the saved registers. With
    /// the address space comes the address of the top of the stack.
    fn add_stack_and_context(
        self,
        last_end: u64,
        alloc: &mut StackFrameAllocator,
        mem: &mut PhysMemory,
        Ghost(first): Ghost<AllocatorState>,
        Ghost(first_mem): Ghost<&PhysMemory>,
        Ghost(segments): Ghost<Seq<ElfSegment>>,
        Ghost(data): Ghost<Seq<u8>>,
        Ghost(strampoline): Ghost<PhysAddr>,
        Ghost(total): Ghost<int>,
    ) -> (ended: Option<(MemorySet, u64)>)
        requires
            self.built_since(first, first_mem, old(alloc), old(mem)),
            self.on_plan(
                first,
                total,
                user_plan(segments).skip(1 + segments.len() as int),
                old(alloc),
                old(mem),
            ),
            self.areas().len() == segments.len(),
            self.holds_segments(segments, data, strampoline, old(mem), segments.len() as int),
            segments_fit(segments, data.len() as int, segments.len() as int),
            last_end == highest_end_page(segments),
        ensures
            !can_load(segments, data.len() as int) ==> ended.is_none(),
            ended.is_none() ==> given_up(first, first_mem, final(alloc), final(mem)),
            ended.is_none() ==> !can_load(segments, data.len() as int) || first.free_count() < total,
            ended matches Some((space, user_sp)) ==> {
                &&& first.free_count() >= total
                &&& space.built_since(first, first_mem, final(alloc), final(mem))
                &&& space.is_user_space(segments, data, strampoline, final(mem))
                &&& user_sp == stack_top(segments)
            },
    {
        let ghost n = segments.len() as int;
        let ghost len = data.len() as int;
        let stack_fits = last_end <= VPN_LIMIT - 5 && (last_end + 3 <= HALF_PAGES || VPN_LIMIT
            - HALF_PAGES <= last_end + 1);
        if !stack_fits {
            self.abandon(alloc, mem, Ghost(first), Ghost(first_mem));
            return None;
        }
        proof {
            assert forall|k: int| 0 <= k < self.areas().len() implies !overlaps(
                (last_end + 1) as u64,
                (last_end + 3) as u64,
                (#[trigger] self.areas()[k]).start_vpn(),
                self.areas()[k].end_vpn(),
            ) by {
                highest_end_is_highest(segments, k, n);
                assert(self.areas()[k].end_vpn() == segments[k].end_page());
            }
            page_address_round_trip(VirtPageNum(last_end));
        }
        let max_end_va: VirtAddr = VirtAddr::from(VirtPageNum(last_end));
        let user_stack_bottom: u64 = max_end_va.0 + PAGE_SIZE;
        let user_stack_top: u64 = user_stack_bottom + USER_STACK_SIZE;
        let ghost rest = user_plan(segments).skip(1 + n);
        proof {
            assert(rest[0] == user_plan(segments)[1 + n]);
            assert(rest.skip(1)[0] == user_plan(segments)[2 + n]);
            assert(rest.skip(1).skip(1) =~= Seq::<PlannedArea>::empty());
        }
        let space = match self.add_plain(
            VirtAddr(user_stack_bottom).floor().0,
            VirtAddr(user_stack_top).ceil().0,
            MapPermission::of(PERM_R).union(MapPermission::of(PERM_W)).union(MapPermission::of(PERM_U)),
            alloc,
            mem,
            Ghost(first),
            Ghost(first_mem),
            Ghost(segments),
            Ghost(data),
            Ghost(strampoline),
            Ghost(total),
            Ghost(rest),
        ) {
            Some(space) => space,
            None => {
                return None;
            },
        };
        let ghost stacked = space;
        proof {
            assert forall|k: int| 0 <= k < space.areas().len() implies !overlaps(
                (VPN_LIMIT - 2) as u64,
                (VPN_LIMIT - 1) as u64,
                (#[trigger] space.areas()[k]).start_vpn(),
                space.areas()[k].end_vpn(),
            ) by {
                if k < n {
                    assert(space.areas().drop_last()[k] == self.areas()[k]);
                    assert(segments[k].fits(len));
                }
            }
        }
        let space = match space.add_plain(
            VirtAddr(TRAP_CONTEXT).floor().0,
            VirtAddr(TRAMPOLINE).ceil().0,
            MapPermission::of(PERM_R).union(MapPermission::of(PERM_W)),
            alloc,
            mem,
            Ghost(first),
            Ghost(first_mem),
            Ghost(segments),
            Ghost(data),
            Ghost(strampoline),
            Ghost(total),
            Ghost(rest.skip(1)),
        ) {
            Some(space) => space,
            None => {
                return None;
            },
        };
        proof {
            assert(space.areas().drop_last()[n] == stacked.areas()[n]);
            assert(stacked.areas()[n] == stacked.areas().last());
            assert(space.areas()[n + 1] == space.areas().last());
            assert(space.areas()[n].holds_zeros(mem));
            assert(space.areas()[n + 1].holds_zeros(mem));
        }
        Some((space, user_stack_top))
    }

    /// The address space of the program whose image has the entry point and
    /// the segments of `image` and the bytes `data`: the landing pad, a
    /// framed area for each segment with the bytes of the segment in it, the
    /// user stack above the highest segment with one page left out between
    /// them, and the page of the saved registers. With the address space
    /// come the address of the top of the user stack and the entry point.
    /// Nothing comes, and every frame taken on the way is handed back, when
    /// the segments cannot be laid out or the allocator has not the frames
    /// that the pages and the table take.
    pub fn from_image(
        image: &ElfImage,
        data: &[u8],
        strampoline: PhysAddr,
        alloc: &mut StackFrameAllocator,
        mem: &mut PhysMemory,
    ) -> (loaded: Option<(MemorySet, u64, u64)>)
        requires
            old(alloc).serves(old(mem)),
            strampoline.aligned(),
        ensures
            loaded.is_some() == (can_load(image.segments@, data@.len() as int)
                && old(alloc)@.free_count() >= frames_for_program(image.segments@)),
            !can_load(image.segments@, data@.len() as int) ==> loaded.is_none(),
            loaded.is_none() ==> given_up(old(alloc)@, old(mem), final(alloc), final(mem)),
            loaded matches Some((space, user_sp, entry)) ==> {
                &&& space.built_since(old(alloc)@, old(mem), final(alloc), final(mem))
                &&& space.is_user_space(image.segments@, data@, strampoline, final(mem))
                &&& user_sp == stack_top(image.segments@)
                &&& entry == image.entry
            },
    {
        let ghost first = alloc@;
        let ghost first_mem = &*mem;
        let (space, last_end) = match Self::load_segments(image, data, strampoline, alloc, mem) {
            Some(loaded) => loaded,
            None => {
                return None;
            },
        };
        match space.add_stack_and_context(
            last_end,
            alloc,
            mem,
            Ghost(first),
            Ghost(first_mem),
            Ghost(image.segments@),
            Ghost(data@),
            Ghost(strampoline),
            Ghost(frames_for_program(image.segments@)),
        ) {
            Some((space, user_sp)) => Some((space, user_sp, image.entry)),
            None => None,
        }
    }

    /// The address space of the program in the image `elf_data`, with the
    /// address of the top of its user stack and its entry point. The image is
    /// read first; what `from_image` then makes of what was read is what comes
    /// back. The image has to start with the magic bytes: to hand in
    /// anything else is a fault of the caller, who can test it with
    /// `has_magic`. Nothing comes back for an image that the reader refuses,
    /// that is too long to be copied or cannot be laid out; nor when the
    /// allocator has not the frames that the pages and the table take. In
    /// every other case the address space is built.
    pub fn from_elf(
        elf_data: &[u8],
        strampoline: PhysAddr,
        alloc: &mut StackFrameAllocator,
        mem: &mut PhysMemory,
    ) -> (loaded: Option<(MemorySet, u64, u64)>)
        requires
            old(alloc).serves(old(mem)),
            strampoline.aligned(),
            starts_with_magic(elf_data@),
        ensures
            loaded.is_some() == can_build(elf_data@, old(alloc)@.free_count()),
            loaded.is_none() ==> given_up(old(alloc)@, old(mem), final(alloc), final(mem)),
            loaded matches Some((space, user_sp, entry)) ==> image_of(elf_data@) matches Some(
                (image_entry, segments),
            ) && {
                &&& can_load(segments, elf_data@.len() as int)
                &&& old(alloc)@.free_count() >= frames_for_program(segments)
                &&& space.built_since(old(alloc)@, old(mem), final(alloc), final(mem))
                &&& space.is_user_space(segments, elf_data@, strampoline, final(mem))
                &&& user_sp == stack_top(segments)
                &&& entry == image_entry
            },
    {
        match read_image(elf_data) {
            Some(image) => Self::from_image(&image, elf_data, strampoline, alloc, mem),
            None => None,
        }
    }

    /// In the address space of a program the page of the saved registers is
    /// mapped by a valid entry to a frame of its own: a frame in memory that
    /// is in use and is not a frame of any segment, of the stack, or of the
    /// table.
    pub proof fn saved_registers_have_own_frame(
        &self,
        segments: Seq<ElfSegment>,
        data: Seq<u8>,
        strampoline: PhysAddr,
        alloc: &StackFrameAllocator,
        mem: &PhysMemory,
    )
        requires
            self.inv(alloc, mem),
            self.is_user_space(segments, data, strampoline, mem),
        ensures
            self.translation(mem, VirtPageNum((VPN_LIMIT - 2) as u64)) matches Some(entry) && {
                &&& entry.is_valid()
                &&& entry.readable() && entry.writable() && !entry.executable()
                &&& mem.contains(entry.ppn())
                &&& alloc@.is_allocated(entry.ppn().0)
                &&& !self.table().owned_set().contains(entry.ppn())
                &&& forall|i: int, v: u64|
                    0 <= i <= segments.len() && #[trigger] self.areas()[i].frames().contains_key(v)
                        ==> self.areas()[i].frames()[v] != entry.ppn()
            },
    {
        let n = segments.len() as int;
        let v = (VPN_LIMIT - 2) as u64;
        let a = self.areas()[n + 1];
        assert(area_sound(a, self.table(), alloc, mem));
        assert(self.table().translation(mem, VirtPageNum(v)) == Some(a.expected_entry(v)));
        assert(a.frames().contains_key(v));
        let p = a.frames()[v];
        mem.frames_fit_entries(p);
        entry_holds_its_parts(p, a.entry_flags());
        entry_holds_its_parts(p, PTEFlags::of(a.perm().bits));
        assert(((0x02u8 | 0x04u8) | 0x01u8) & 0x02u8 == 0x02u8 && ((0x02u8 | 0x04u8) | 0x01u8) & 0x04u8
            == 0x04u8 && ((0x02u8 | 0x04u8) | 0x01u8) & 0x08u8 != 0x08u8) by (bit_vector);
        assert forall|i: int, w: u64|
            0 <= i <= n && #[trigger] self.areas()[i].frames().contains_key(w) implies self.areas(
                )[i].frames()[w]
            != p by {
            assert(areas_apart(self.areas()[i], self.areas()[n + 1]));
        }
    }
}

} // verus!
