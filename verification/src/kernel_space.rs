//! The kernel's address space.
//!
//! The kernel maps its own image, and the usable memory behind it, page by
//! page to the frame of the page's own number: it finds itself at the same
//! addresses once translation is on.

use vstd::prelude::*;
use crate::address::{
    canonical_range,
    page_ceil,
    page_floor,
    PhysAddr,
    PhysPageNum,
    VirtAddr,
    VirtPageNum,
};
use crate::config::{FRAME_LIMIT, HALF_PAGES, PAGE_SIZE, VPN_LIMIT};
use crate::frame_allocator::{AllocatorState, StackFrameAllocator};
use crate::map_area::{MapArea, MapPermission, MapType, PERM_R, PERM_W, PERM_X};
use crate::memory_set::{
    area_sound,
    frames_for_areas,
    frames_for_areas_count_up,
    given_up,
    overlaps,
    MemorySet,
    PlannedArea,
};
use crate::page_table::{entry_holds_its_parts, PTEFlags, PageTableEntry, FLAG_V};
use crate::phys_memory::PhysMemory;

verus! {

/// Where the parts of the kernel image and the usable memory lie, as byte
/// addresses: what the linker and the machine say at boot.
pub struct KernelLayout {
    /// Start and end of the code.
    pub stext: u64,
    pub etext: u64,
    /// Start and end of the read-only data.
    pub srodata: u64,
    pub erodata: u64,
    /// Start and end of the data.
    pub sdata: u64,
    pub edata: u64,
    /// Start and end of the zero-initialised data, the boot stack with it.
    pub sbss_with_stack: u64,
    pub ebss: u64,
    /// End of the kernel image: the usable memory starts here.
    pub ekernel: u64,
    /// End of the usable memory.
    pub memory_end: u64,
    /// Start of the landing-pad code in the kernel image.
    pub strampoline: u64,
}

/// The permissions of the code of the kernel: reading and executing.
pub open spec fn text_perm() -> MapPermission {
    MapPermission::of(PERM_R).union(MapPermission::of(PERM_X))
}

/// The permissions of the read-only data of the kernel: reading.
pub open spec fn rodata_perm() -> MapPermission {
    MapPermission::of(PERM_R)
}

/// The permissions of the data of the kernel and of the usable memory:
/// reading and writing.
pub open spec fn data_perm() -> MapPermission {
    MapPermission::of(PERM_R).union(MapPermission::of(PERM_W))
}

/// The areas of the kernel's address space for `layout`, in the order in
/// which they are mapped: the landing pad, then the five sections.
pub open spec fn kernel_plan(layout: &KernelLayout) -> Seq<PlannedArea> {
    Seq::new(
        6,
        |i: int|
            if i == 0 {
                PlannedArea { first: (VPN_LIMIT - 1) as u64, end: VPN_LIMIT, map_type: MapType::Identical }
            } else {
                PlannedArea {
                    first: layout.first_page(i - 1),
                    end: layout.end_page(i - 1),
                    map_type: MapType::Identical,
                }
            },
    )
}

/// How many frames the kernel's address space for `layout` takes: one for
/// the root of its table, and one for each node that the landing pad and
/// the pages of the sections need.
pub open spec fn frames_for_kernel(layout: &KernelLayout) -> int {
    1 + frames_for_areas(kernel_plan(layout), Set::empty(), Set::empty())
}

impl KernelLayout {
    /// The bytes of section `k`, and the permissions it is mapped with. The
    /// sections are, in this order: code, read-only data, data,
    /// zero-initialised data, and the usable memory behind the kernel.
    pub open spec fn section(&self, k: int) -> (u64, u64, MapPermission) {
        if k == 0 {
            (self.stext, self.etext, text_perm())
        } else if k == 1 {
            (self.srodata, self.erodata, rodata_perm())
        } else if k == 2 {
            (self.sdata, self.edata, data_perm())
        } else if k == 3 {
            (self.sbss_with_stack, self.ebss, data_perm())
        } else {
            (self.ekernel, self.memory_end, data_perm())
        }
    }

    /// The first page of section `k`.
    pub open spec fn first_page(&self, k: int) -> u64 {
        page_floor(self.section(k).0)
    }

    /// The page after the last page of section `k`.
    pub open spec fn end_page(&self, k: int) -> u64 {
        page_ceil(self.section(k).1)
    }

    /// Every section lies in one canonical half below the landing pad, no
    /// two sections share a page, and the landing-pad code starts on a page
    /// boundary.
    pub open spec fn wf(&self) -> bool {
        &&& forall|k: int|
            0 <= k < 5 ==> canonical_range(#[trigger] self.first_page(k), self.end_page(k))
                && self.end_page(k) < VPN_LIMIT
        &&& forall|j: int, k: int|
            0 <= j < k < 5 ==> !overlaps(
                #[trigger] self.first_page(j),
                self.end_page(j),
                #[trigger] self.first_page(k),
                self.end_page(k),
            )
        &&& self.strampoline % PAGE_SIZE == 0
    }

    fn section_ok(start: u64, end: u64) -> (ok: bool)
        ensures
            ok == (canonical_range(page_floor(start), page_ceil(end)) && page_ceil(end) < VPN_LIMIT),
    {
        let first = VirtAddr(start).floor().0;
        let last = VirtAddr(end).ceil().0;
        first <= last && (last <= HALF_PAGES || (VPN_LIMIT - HALF_PAGES <= first && last < VPN_LIMIT))
    }

    fn sections_meet(a_start: u64, a_end: u64, b_start: u64, b_end: u64) -> (yes: bool)
        ensures
            yes == overlaps(page_floor(a_start), page_ceil(a_end), page_floor(b_start), page_ceil(b_end)),
    {
        VirtAddr(a_start).floor().0 < VirtAddr(b_end).ceil().0 && VirtAddr(b_start).floor().0
            < VirtAddr(a_end).ceil().0
    }

    /// Whether a kernel address space can be built for this layout.
    pub fn is_valid(&self) -> (ok: bool)
        ensures
            ok == self.wf(),
    {
        let each = Self::section_ok(self.stext, self.etext) && Self::section_ok(
            self.srodata,
            self.erodata,
        ) && Self::section_ok(self.sdata, self.edata) && Self::section_ok(
            self.sbss_with_stack,
            self.ebss,
        ) && Self::section_ok(self.ekernel, self.memory_end);
        let apart = !Self::sections_meet(self.stext, self.etext, self.srodata, self.erodata)
            && !Self::sections_meet(self.stext, self.etext, self.sdata, self.edata)
            && !Self::sections_meet(self.stext, self.etext, self.sbss_with_stack, self.ebss)
            && !Self::sections_meet(self.stext, self.etext, self.ekernel, self.memory_end)
            && !Self::sections_meet(self.srodata, self.erodata, self.sdata, self.edata)
            && !Self::sections_meet(self.srodata, self.erodata, self.sbss_with_stack, self.ebss)
            && !Self::sections_meet(self.srodata, self.erodata, self.ekernel, self.memory_end)
            && !Self::sections_meet(self.sdata, self.edata, self.sbss_with_stack, self.ebss)
            && !Self::sections_meet(self.sdata, self.edata, self.ekernel, self.memory_end)
            && !Self::sections_meet(self.sbss_with_stack, self.ebss, self.ekernel, self.memory_end);
        let aligned = PhysAddr(self.strampoline).aligned();
        proof {
            if each && apart && aligned {
                assert forall|k: int| 0 <= k < 5 implies canonical_range(
                    #[trigger] self.first_page(k),
                    self.end_page(k),
                ) && self.end_page(k) < VPN_LIMIT by {}
                assert forall|j: int, k: int| 0 <= j < k < 5 implies !overlaps(
                    #[trigger] self.first_page(j),
                    self.end_page(j),
                    #[trigger] self.first_page(k),
                    self.end_page(k),
                ) by {}
            } else if self.wf() {
                assert(canonical_range(self.first_page(0), self.end_page(0)));
                assert(canonical_range(self.first_page(1), self.end_page(1)));
                assert(canonical_range(self.first_page(2), self.end_page(2)));
                assert(canonical_range(self.first_page(3), self.end_page(3)));
                assert(canonical_range(self.first_page(4), self.end_page(4)));
                assert(!overlaps(self.first_page(0), self.end_page(0), self.first_page(1), self.end_page(
                    1)));
                assert(!overlaps(self.first_page(0), self.end_page(0), self.first_page(2), self.end_page(
                    2)));
                assert(!overlaps(self.first_page(0), self.end_page(0), self.first_page(3), self.end_page(
                    3)));
                assert(!overlaps(self.first_page(0), self.end_page(0), self.first_page(4), self.end_page(
                    4)));
                assert(!overlaps(self.first_page(1), self.end_page(1), self.first_page(2), self.end_page(
                    2)));
                assert(!overlaps(self.first_page(1), self.end_page(1), self.first_page(3), self.end_page(
                    3)));
                assert(!overlaps(self.first_page(1), self.end_page(1), self.first_page(4), self.end_page(
                    4)));
                assert(!overlaps(self.first_page(2), self.end_page(2), self.first_page(3), self.end_page(
                    3)));
                assert(!overlaps(self.first_page(2), self.end_page(2), self.first_page(4), self.end_page(
                    4)));
                assert(!overlaps(self.first_page(3), self.end_page(3), self.first_page(4), self.end_page(
                    4)));
            }
        }
        each && apart && aligned
    }
}

impl MemorySet {
    /// This is the kernel's address space for `layout`, with `count` of the
    /// five sections taken in: one area for each of them, mapped page by page
    /// to the frame of the page's own number, and the landing pad mapped to
    /// the frame of the landing-pad code.
    pub open spec fn is_kernel_space(&self, layout: &KernelLayout, mem: &PhysMemory, count: int) -> bool {
        &&& self.areas().len() == count
        &&& forall|k: int|
            0 <= k < count ==> (#[trigger] self.areas()[k]).start_vpn() == layout.first_page(k)
                && self.areas()[k].end_vpn() == layout.end_page(k) && self.areas()[k].map_type()
                == MapType::Identical && self.areas()[k].perm() == layout.section(k).2
        &&& self.maps_landing_pad(mem, PhysAddr(layout.strampoline))
    }

    /// Takes section `k` of `layout` into the kernel's address space under
    /// construction.
    fn add_section(
        self,
        layout: &KernelLayout,
        k: usize,
        start: u64,
        end: u64,
        perm: MapPermission,
        alloc: &mut StackFrameAllocator,
        mem: &mut PhysMemory,
        Ghost(first): Ghost<AllocatorState>,
        Ghost(first_mem): Ghost<&PhysMemory>,
        Ghost(total): Ghost<int>,
    ) -> (space: Option<MemorySet>)
        requires
            self.built_since(first, first_mem, old(alloc), old(mem)),
            self.on_plan(first, total, kernel_plan(layout).skip(1 + k), old(alloc), old(mem)),
            layout.wf(),
            k < 5,
            (start, end, perm) == layout.section(k as int),
            self.is_kernel_space(layout, old(mem), k as int),
        ensures
            space.is_none() ==> given_up(first, first_mem, final(alloc), final(mem)),
            space.is_none() ==> first.free_count() < total,
            space matches Some(s) ==> {
                &&& s.built_since(first, first_mem, final(alloc), final(mem))
                &&& s.on_plan(first, total, kernel_plan(layout).skip(2 + k), final(alloc), final(mem))
                &&& s.is_kernel_space(layout, final(mem), k + 1)
            },
    {
        let area = MapArea::new(VirtAddr(start), VirtAddr(end), MapType::Identical, perm);
        proof {
            assert(layout.first_page(k as int) == page_floor(start));
            assert(layout.end_page(k as int) == page_ceil(end));
            assert(canonical_range(layout.first_page(k as int), layout.end_page(k as int)));
            assert(page_floor(start) <= page_ceil(end));
            assert forall|i: int| 0 <= i < self.areas().len() implies !overlaps(
                area.start_vpn(),
                area.end_vpn(),
                (#[trigger] self.areas()[i]).start_vpn(),
                self.areas()[i].end_vpn(),
            ) by {
                assert(!overlaps(
                    layout.first_page(i),
                    layout.end_page(i),
                    layout.first_page(k as int),
                    layout.end_page(k as int),
                ));
            }
        }
        let ghost rest = kernel_plan(layout).skip(1 + k);
        proof {
            assert(rest[0] == kernel_plan(layout)[1 + k]);
            assert(rest.skip(1) =~= kernel_plan(layout).skip(2 + k));
        }
        let space = self.add_area(
            area,
            None,
            alloc,
            mem,
            Ghost(first),
            Ghost(first_mem),
            Ghost(total),
            Ghost(rest),
        );
        proof {
            match &space {
                Some(s) => {
                    let n = k as int;
                    assert forall|j: int| 0 <= j < n + 1 implies (#[trigger] s.areas()[j]).start_vpn()
                        == layout.first_page(j) && s.areas()[j].end_vpn() == layout.end_page(j)
                        && s.areas()[j].map_type() == MapType::Identical && s.areas()[j].perm()
                        == layout.section(j).2 by {
                        if j < n {
                            assert(s.areas().drop_last()[j] == self.areas()[j]);
                        }
                    }
                    let pad = VirtPageNum((VPN_LIMIT - 1) as u64);
                    assert(pad.is_canonical() && !area.contains_vpn(pad.0));
                    assert(s.translation(mem, pad) == self.translation(old(mem), pad));
                },
                None => {},
            }
        }
        space
    }

    /// The kernel's address space: the landing pad, and each of the five
    /// sections of `layout` mapped page by page to the frame of the page's
    /// own number, so that the kernel finds itself at the same addresses once
    /// translation is on. Nothing is returned, and every frame taken on the
    /// way is handed back, when the allocator has not the frames that the
    /// table takes.
    pub fn new_kernel(layout: &KernelLayout, alloc: &mut StackFrameAllocator, mem: &mut PhysMemory) -> (
        space:
        Option<MemorySet>)
        requires
            old(alloc).serves(old(mem)),
            layout.wf(),
        ensures
            space.is_some() == (old(alloc)@.free_count() >= frames_for_kernel(layout)),
            space.is_none() ==> given_up(old(alloc)@, old(mem), final(alloc), final(mem)),
            space matches Some(s) ==> {
                &&& s.built_since(old(alloc)@, old(mem), final(alloc), final(mem))
                &&& s.is_kernel_space(layout, final(mem), 5)
                &&& s.maps_sections(layout, final(mem))
            },
    {
        let ghost first = alloc@;
        let ghost first_mem = &*mem;
        let ghost plan = kernel_plan(layout);
        let ghost total = frames_for_kernel(layout);
        proof {
            frames_for_areas_count_up(plan, Set::empty(), Set::empty());
        }
        let space = match Self::begin(alloc, mem) {
            Some(space) => space,
            None => {
                return None;
            },
        };
        proof {
            assert(space.on_plan(first, total, plan, alloc, mem));
            assert(plan.skip(1) =~= plan.skip(1 + 0int));
        }
        let space = match space.add_trampoline(
            PhysAddr(layout.strampoline),
            alloc,
            mem,
            Ghost(first),
            Ghost(first_mem),
            Ghost(total),
            Ghost(plan),
        ) {
            Some(space) => space,
            None => {
                return None;
            },
        };
        let space = match space.add_section(
            layout,
            0,
            layout.stext,
            layout.etext,
            MapPermission::of(PERM_R).union(MapPermission::of(PERM_X)),
            alloc,
            mem,
            Ghost(first),
            Ghost(first_mem),
            Ghost(total),
        ) {
            Some(space) => space,
            None => {
                return None;
            },
        };
        let space = match space.add_section(
            layout,
            1,
            layout.srodata,
            layout.erodata,
            MapPermission::of(PERM_R),
            alloc,
            mem,
            Ghost(first),
            Ghost(first_mem),
            Ghost(total),
        ) {
            Some(space) => space,
            None => {
                return None;
            },
        };
        let space = match space.add_section(
            layout,
            2,
            layout.sdata,
            layout.edata,
            MapPermission::of(PERM_R).union(MapPermission::of(PERM_W)),
            alloc,
            mem,
            Ghost(first),
            Ghost(first_mem),
            Ghost(total),
        ) {
            Some(space) => space,
            None => {
                return None;
            },
        };
        let space = match space.add_section(
            layout,
            3,
            layout.sbss_with_stack,
            layout.ebss,
            MapPermission::of(PERM_R).union(MapPermission::of(PERM_W)),
            alloc,
            mem,
            Ghost(first),
            Ghost(first_mem),
            Ghost(total),
        ) {
            Some(space) => space,
            None => {
                return None;
            },
        };
        let space = match space.add_section(
            layout,
            4,
            layout.ekernel,
            layout.memory_end,
            MapPermission::of(PERM_R).union(MapPermission::of(PERM_W)),
            alloc,
            mem,
            Ghost(first),
            Ghost(first_mem),
            Ghost(total),
        ) {
            Some(space) => space,
            None => {
                return None;
            },
        };
        proof {
            space.kernel_sections_are_mapped(layout, alloc, mem);
            assert(plan.skip(2 + 4int) =~= Seq::<PlannedArea>::empty());
        }
        Some(space)
    }

    /// Every page of every section of `layout` is mapped to the frame of its
    /// own number, with the permissions of its section and the flag `V`.
    pub open spec fn maps_sections(&self, layout: &KernelLayout, mem: &PhysMemory) -> bool {
        forall|k: int, v: u64|
            0 <= k < 5 && layout.first_page(k) <= v < layout.end_page(k) ==> #[trigger] self.translation(
                mem,
                VirtPageNum(v),
            ) == Some(
                PageTableEntry::new(
                    PhysPageNum(v),
                    PTEFlags::of(#[trigger] layout.section(k).2.bits).union(PTEFlags::of(FLAG_V)),
                ),
            )
    }

    /// In a sound kernel address space every page of every section is
    /// mapped as its section says.
    pub proof fn kernel_sections_are_mapped(
        &self,
        layout: &KernelLayout,
        alloc: &StackFrameAllocator,
        mem: &PhysMemory,
    )
        requires
            self.inv(alloc, mem),
            self.is_kernel_space(layout, mem, 5),
        ensures
            self.maps_sections(layout, mem),
    {
        assert forall|k: int, v: u64|
            0 <= k < 5 && layout.first_page(k) <= v
                < layout.end_page(k) implies #[trigger] self.translation(
            mem,
            VirtPageNum(v),
        ) == Some(
            PageTableEntry::new(
                PhysPageNum(v),
                PTEFlags::of(#[trigger] layout.section(k).2.bits).union(PTEFlags::of(FLAG_V)),
            ),
        ) by {
            let a = self.areas()[k];
            assert(area_sound(a, self.table(), alloc, mem));
            assert(self.table().translation(mem, VirtPageNum(v)) == Some(a.expected_entry(v)));
        }
    }

    /// In the kernel's address space the code can be read and executed and
    /// not written, the read-only data can be read only, and the data, the
    /// zero-initialised data and the usable memory can be read and written
    /// and not executed. Every page of them is mapped to the frame of its
    /// own number.
    pub proof fn kernel_sections_keep_their_permissions(
        &self,
        layout: &KernelLayout,
        alloc: &StackFrameAllocator,
        mem: &PhysMemory,
        k: int,
        v: u64,
    )
        requires
            self.inv(alloc, mem),
            self.is_kernel_space(layout, mem, 5),
            0 <= k < 5,
            layout.first_page(k) <= v < layout.end_page(k),
        ensures
            self.translation(mem, VirtPageNum(v)) matches Some(entry) && {
                &&& entry.is_valid()
                &&& entry.readable()
                &&& entry.writable() == (k >= 2)
                &&& entry.executable() == (k == 0)
                &&& v < FRAME_LIMIT ==> entry.ppn() == PhysPageNum(v)
            },
    {
        self.kernel_sections_are_mapped(layout, alloc, mem);
        let flags = PTEFlags::of(layout.section(k).2.bits).union(PTEFlags::of(FLAG_V));
        entry_holds_its_parts(PhysPageNum(v), flags);
        assert(((0x02u8 | 0x08u8) | 0x01u8) & 0x01u8 == 0x01u8 && ((0x02u8 | 0x08u8) | 0x01u8) & 0x02u8
            == 0x02u8 && ((0x02u8 | 0x08u8) | 0x01u8) & 0x04u8 != 0x04u8 && ((0x02u8 | 0x08u8) | 0x01u8)
            & 0x08u8 == 0x08u8) by (bit_vector);
        assert((0x02u8 | 0x01u8) & 0x01u8 == 0x01u8 && (0x02u8 | 0x01u8) & 0x02u8 == 0x02u8 && (0x02u8
            | 0x01u8) & 0x04u8 != 0x04u8 && (0x02u8 | 0x01u8) & 0x08u8 != 0x08u8) by (bit_vector);
        assert(((0x02u8 | 0x04u8) | 0x01u8) & 0x01u8 == 0x01u8 && ((0x02u8 | 0x04u8) | 0x01u8) & 0x02u8
            == 0x02u8 && ((0x02u8 | 0x04u8) | 0x01u8) & 0x04u8 == 0x04u8 && ((0x02u8 | 0x04u8) | 0x01u8)
            & 0x08u8 != 0x08u8) by (bit_vector);
    }
}

} // verus!
