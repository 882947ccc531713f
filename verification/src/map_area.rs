//! Memory areas.
//!
//! An area is a range of virtual pages that are all mapped in one way and
//! with one set of permissions. A framed area owns the frames that back its
//! pages.

use vstd::prelude::*;
use std::collections::BTreeMap;
use vstd::slice::slice_subrange;
use crate::address::{
    canonical_pages_have_own_slots,
    canonical_range,
    indexes_determine_slot,
    PhysPageNum,
    VPNRange,
    VirtAddr,
    VirtPageNum,
};
use crate::frame_allocator::{frame_alloc, frame_dealloc, AllocatorState, FrameTracker, StackFrameAllocator};
use crate::page_table::{
    added_for_one_more,
    child,
    entry_holds_its_parts,
    grandchild,
    kept_is_added_for_none,
    lacking_after_first,
    lacking_covers_first,
    nodes_added_for,
    nodes_added_for_pages,
    nodes_kept,
    nodes_lacking,
    nodes_missing,
    tree_rests_on_its_nodes,
    PTEFlags,
    PageTable,
    PageTableEntry,
    FLAG_V,
};
use crate::phys_memory::PhysMemory;

verus! {

/// How the pages of an area get their frames.
#[derive(Copy, Clone, PartialEq, Eq, Debug, Structural)]
pub enum MapType {
    /// Every page is mapped to the frame of its own number. The area owns
    /// no frame.
    Identical,
    /// Every page is mapped to a frame of its own, fresh from the allocator
    /// and owned by the area.
    Framed,
}

/// The page may be read.
pub const PERM_R: u8 = 0x02;

/// The page may be written.
pub const PERM_W: u8 = 0x04;

/// The page may be executed.
pub const PERM_X: u8 = 0x08;

/// The page may be used in user mode.
pub const PERM_U: u8 = 0x10;

/// What may be done with the pages of an area: a subset of the flags of a
/// page-table entry, at the same bits.
#[derive(Copy, Clone, PartialEq, Eq, Debug, Structural)]
pub struct MapPermission {
    pub bits: u8,
}

impl MapPermission {
    pub open spec fn of_spec(bits: u8) -> MapPermission {
        MapPermission { bits }
    }

    pub open spec fn union_spec(self, other: MapPermission) -> MapPermission {
        MapPermission { bits: self.bits | other.bits }
    }

    pub open spec fn contains_spec(self, other: MapPermission) -> bool {
        self.bits & other.bits == other.bits
    }

    /// The permissions whose bits are set in `bits`.
    #[verifier::when_used_as_spec(of_spec)]
    pub fn of(bits: u8) -> (perm: MapPermission)
        ensures
            perm == Self::of_spec(bits),
    {
        MapPermission { bits }
    }

    /// No permission.
    pub fn empty() -> (perm: MapPermission)
        ensures
            perm.bits == 0,
    {
        MapPermission { bits: 0 }
    }

    /// The permissions of a byte, if the byte holds permission bits only.
    pub fn from_bits(bits: u8) -> (perm: Option<MapPermission>)
        ensures
            perm == (if bits & 0xe1 == 0 {
                Some(Self::of(bits))
            } else {
                None
            }),
    {
        if bits & 0xe1 == 0 {
            Some(MapPermission { bits })
        } else {
            None
        }
    }

    /// The byte of these permissions.
    pub fn bits(&self) -> (bits: u8)
        ensures
            bits == self.bits,
    {
        self.bits
    }

    /// The permissions that are in `self` or in `other`.
    #[verifier::when_used_as_spec(union_spec)]
    pub fn union(self, other: MapPermission) -> (perm: MapPermission)
        ensures
            perm == self.union_spec(other),
    {
        MapPermission { bits: self.bits | other.bits }
    }

    /// Whether every permission of `other` is in `self`.
    #[verifier::when_used_as_spec(contains_spec)]
    pub fn contains(self, other: MapPermission) -> (yes: bool)
        ensures
            yes == self.contains_spec(other),
    {
        self.bits & other.bits == other.bits
    }
}

/// Whether `mem2` agrees with `mem` on every frame that was in use and not
/// among `owned`: only frames of `owned`, and frames that were free, may
/// differ.
pub open spec fn others_untouched(
    mem: &PhysMemory,
    mem2: &PhysMemory,
    owned: Set<PhysPageNum>,
    alloc: AllocatorState,
) -> bool {
    &&& mem2.first_frame() == mem.first_frame()
    &&& mem2.frame_count() == mem.frame_count()
    &&& forall|p: PhysPageNum|
        mem.contains(p) && !owned.contains(p) && !alloc.is_free(p.0) ==> #[trigger] mem2.page(p)
            == mem.page(p)
}

/// How many frames mapping the pages `lo .. hi` in the table rooted at `root`
/// takes: one for each node that the table lacks for them and, for a framed
/// area, one for each page.
pub open spec fn frames_for_pages(
    mem: &PhysMemory,
    root: PhysPageNum,
    lo: u64,
    hi: u64,
    map_type: MapType,
) -> int {
    nodes_lacking(mem, root, lo, hi) + (if map_type == MapType::Framed {
        hi - lo
    } else {
        0
    })
}

/// A range of virtual pages, mapped in one way with one set of permissions.
pub struct MapArea {
    vpn_range: VPNRange,
    data_frames: BTreeMap<u64, FrameTracker>,
    map_type: MapType,
    map_perm: MapPermission,
}

impl MapArea {
    /// The first page of the area.
    pub closed spec fn start_vpn(&self) -> u64 {
        self.vpn_range.start().0
    }

    /// The page after the last page of the area.
    pub closed spec fn end_vpn(&self) -> u64 {
        self.vpn_range.end().0
    }

    /// How the pages of the area get their frames.
    pub closed spec fn map_type(&self) -> MapType {
        self.map_type
    }

    /// What may be done with the pages of the area.
    pub closed spec fn perm(&self) -> MapPermission {
        self.map_perm
    }

    /// The frames that the area owns, each under the page that it backs.
    pub closed spec fn frames(&self) -> Map<u64, PhysPageNum> {
        Map::new(
            |v: u64| self.data_frames@.contains_key(v),
            |v: u64| self.data_frames@[v].ppn,
        )
    }

    /// Whether page `v` is a page of the area.
    pub open spec fn contains_vpn(&self, v: u64) -> bool {
        self.start_vpn() <= v < self.end_vpn()
    }

    /// The frame that page `v` of the area is to be mapped to.
    pub open spec fn expected_ppn(&self, v: u64) -> PhysPageNum {
        match self.map_type() {
            MapType::Identical => PhysPageNum(v),
            MapType::Framed => self.frames()[v],
        }
    }

    /// The flags of the entries of the area: its permissions, and `V`.
    pub open spec fn entry_flags(&self) -> PTEFlags {
        PTEFlags::of(self.perm().bits).union(PTEFlags::of(FLAG_V))
    }

    /// The entry that maps page `v` of the area.
    pub open spec fn expected_entry(&self, v: u64) -> PageTableEntry {
        PageTableEntry::new(self.expected_ppn(v), self.entry_flags())
    }

    /// The pages `lo .. hi` of the area, and no others of it, are mapped in
    /// `pt` as the area wants them, and a framed area holds a frame for each
    /// of them and for no other page.
    pub open spec fn maps_pages(&self, pt: &PageTable, mem: &PhysMemory, lo: u64, hi: u64) -> bool {
        &&& self.start_vpn() <= lo <= hi <= self.end_vpn()
        &&& forall|v: u64|
            lo <= v < hi ==> #[trigger] pt.translation(mem, VirtPageNum(v)) == Some(
                self.expected_entry(v),
            )
        &&& forall|v: u64|
            #[trigger] self.frames().contains_key(v) <==> (self.map_type() == MapType::Framed && lo
                <= v < hi)
    }

    /// The frames of the area are in use, lie in memory, are not frames of
    /// the page table, and no two pages share one.
    pub open spec fn frames_sound(
        &self,
        pt: &PageTable,
        alloc: &StackFrameAllocator,
        mem: &PhysMemory,
    ) -> bool {
        &&& forall|v: u64| #[trigger]
            self.frames().contains_key(v) ==> alloc@.is_allocated(self.frames()[v].0)
                && mem.contains(self.frames()[v]) && !pt.owned_set().contains(self.frames()[v])
        &&& forall|v: u64, w: u64|
            #[trigger] self.frames().contains_key(v) && #[trigger] self.frames().contains_key(w) && v
                != w ==> self.frames()[v] != self.frames()[w]
    }

    /// Whether the area owns frame `p`.
    pub open spec fn owns(&self, p: PhysPageNum) -> bool {
        exists|v: u64| #[trigger] self.frames().contains_key(v) && self.frames()[v] == p
    }

    /// The area has the same range, kind and permissions as `other`.
    pub open spec fn same_shape(&self, other: &MapArea) -> bool {
        &&& self.start_vpn() == other.start_vpn()
        &&& self.end_vpn() == other.end_vpn()
        &&& self.map_type() == other.map_type()
        &&& self.perm() == other.perm()
    }

    /// The area from the page of `start_va` up to the first page boundary at
    /// or after `end_va`. Nothing is mapped yet.
    pub fn new(start_va: VirtAddr, end_va: VirtAddr, map_type: MapType, map_perm: MapPermission) -> (area:
        MapArea)
        requires
            start_va.floor().0 <= end_va.ceil().0,
        ensures
            area.start_vpn() == start_va.floor().0,
            area.end_vpn() == end_va.ceil().0,
            area.map_type() == map_type,
            area.perm() == map_perm,
            area.frames() == Map::<u64, PhysPageNum>::empty(),
    {
        let start_vpn = start_va.floor();
        let end_vpn = end_va.ceil();
        let area = MapArea {
            vpn_range: VPNRange::new(start_vpn, end_vpn),
            data_frames: BTreeMap::new(),
            map_type,
            map_perm,
        };
        assert(area.frames() =~= Map::<u64, PhysPageNum>::empty());
        area
    }

    /// The first page of the area.
    pub fn get_start(&self) -> (start: VirtPageNum)
        ensures
            start.0 == self.start_vpn(),
    {
        self.vpn_range.get_start()
    }

    /// The page after the last page of the area.
    pub fn get_end(&self) -> (end: VirtPageNum)
        ensures
            end.0 == self.end_vpn(),
    {
        self.vpn_range.get_end()
    }

    /// How the pages of the area get their frames.
    pub fn get_type(&self) -> (map_type: MapType)
        ensures
            map_type == self.map_type(),
    {
        self.map_type
    }

    /// What may be done with the pages of the area.
    pub fn get_perm(&self) -> (perm: MapPermission)
        ensures
            perm == self.perm(),
    {
        self.map_perm
    }

    /// The frame that backs page `vpn`, if the area holds one for it.
    pub fn frame_of(&self, vpn: VirtPageNum) -> (frame: Option<PhysPageNum>)
        ensures
            frame == (if self.frames().contains_key(vpn.0) {
                Some(self.frames()[vpn.0])
            } else {
                None
            }),
    {
        match self.data_frames.get(&vpn.0) {
            Some(frame) => Some(frame.ppn),
            None => None,
        }
    }

    /// How many frames mapping page `vpn` of the area takes: one for each
    /// node that the walk lacks, and one for the page if the area is framed.
    pub open spec fn frames_needed(&self, pt: &PageTable, mem: &PhysMemory, vpn: VirtPageNum) -> int {
        nodes_missing(mem, pt.root(), vpn) + (if self.map_type() == MapType::Framed {
            1int
        } else {
            0int
        })
    }

    /// Maps page `vpn` as the area wants it: to the frame of its own number,
    /// or to a fresh frame that the area then owns. The page must not be
    /// mapped yet. When the allocator has not all the frames this takes,
    /// nothing is done at all and the answer is `false`.
    pub fn map_one(
        &mut self,
        page_table: &mut PageTable,
        vpn: VirtPageNum,
        alloc: &mut StackFrameAllocator,
        mem: &mut PhysMemory,
    ) -> (done: bool)
        requires
            old(page_table).inv(old(alloc), old(mem)),
            old(self).frames_sound(old(page_table), old(alloc), old(mem)),
            !old(page_table).is_mapped(old(mem), vpn),
            !old(self).frames().contains_key(vpn.0),
        ensures
            final(page_table).inv(final(alloc), final(mem)),
            final(self).same_shape(old(self)),
            final(self).frames_sound(final(page_table), final(alloc), final(mem)),
            done == (old(alloc)@.free_count() >= old(self).frames_needed(
                old(page_table),
                old(mem),
                vpn,
            )),
            !done ==> *final(self) == *old(self) && *final(page_table) == *old(page_table)
                && *final(alloc) == *old(alloc) && *final(mem) == *old(mem),
            done ==> {
                &&& final(page_table).extends(old(page_table))
                &&& final(page_table).owned().len() == old(page_table).owned().len() + nodes_missing(
                    old(mem),
                    old(page_table).root(),
                    vpn,
                )
                &&& final(page_table).new_frames_were_free(old(page_table), old(alloc)@)
                &&& nodes_added_for(old(mem), final(mem), old(page_table).root(), vpn)
                &&& final(alloc)@.took_from(
                    old(alloc)@,
                    old(self).frames_needed(old(page_table), old(mem), vpn),
                )
                &&& others_untouched(
                    old(mem),
                    final(mem),
                    final(page_table).owned_set(),
                    old(alloc)@,
                )
                &&& final(page_table).translation(final(mem), vpn) == Some(
                    final(self).expected_entry(vpn.0),
                )
                &&& forall|w: VirtPageNum|
                    w.slot() != vpn.slot() ==> #[trigger] final(page_table).translation(final(mem), w)
                        == old(page_table).translation(old(mem), w)
                &&& old(self).map_type() == MapType::Identical
                    ==> final(self).frames() == old(self).frames()
                &&& old(self).map_type() == MapType::Framed ==> final(self).frames().contains_key(
                    vpn.0,
                ) && final(self).frames() == old(self).frames().insert(
                    vpn.0,
                    final(self).frames()[vpn.0],
                ) && old(alloc)@.is_free(final(self).frames()[vpn.0].0) && final(mem).is_zero_page(
                    final(self).frames()[vpn.0],
                )
            },
    {
        let flags = PTEFlags::from_bits(self.map_perm.bits).unwrap();
        match self.map_type {
            MapType::Identical => {
                let done = page_table.map(vpn, PhysPageNum(vpn.0), flags, alloc, mem);
                proof {
                    if done {
                        assert forall|v: u64| #[trigger]
                            self.frames().contains_key(v) implies !page_table.owned_set().contains(
                            self.frames()[v],
                        ) by {
                            let p = self.frames()[v];
                            if page_table.owned().contains(p) {
                                let k = choose|k: int|
                                    0 <= k < page_table.owned().len() && page_table.owned()[k] == p;
                                if k < old(page_table).owned().len() {
                                    assert(page_table.owned().subrange(
                                        0,
                                        old(page_table).owned().len() as int,
                                    )[k] == p);
                                    assert(old(page_table).owned().contains(p));
                                } else {
                                    assert(old(alloc)@.is_free(page_table.owned()[k].0));
                                }
                            }
                        }
                    }
                }
                done
            },
            MapType::Framed => {
                let missing = page_table.missing_nodes(vpn, mem);
                if !alloc.has_free(missing + 1) {
                    return false;
                }
                let ghost mem0 = *mem;
                let ghost alloc0 = alloc@;
                let ghost table0 = *page_table;
                let ghost frames0 = self.frames();
                let frame = frame_alloc(alloc, mem).unwrap();
                let ppn = frame.ppn;
                let ghost mem1 = *mem;
                let ghost alloc1 = alloc@;
                proof {
                    assert(!page_table.owned_set().contains(ppn)) by {
                        if page_table.owned().contains(ppn) {
                            let k = choose|k: int|
                                0 <= k < page_table.owned().len() && page_table.owned()[k] == ppn;
                            assert(alloc0.is_allocated(page_table.owned()[k].0));
                        }
                    }
                    tree_rests_on_its_nodes(&mem0, &mem1, page_table.root(), page_table.owned_set());
                    indexes_determine_slot(vpn, vpn);
                    assert(child(&mem1, page_table.root(), vpn.index(0)) == child(
                        &mem0,
                        page_table.root(),
                        vpn.index(0),
                    ));
                    assert(grandchild(&mem1, page_table.root(), vpn.index(0), vpn.index(1))
                        == grandchild(&mem0, page_table.root(), vpn.index(0), vpn.index(1)));
                    assert(page_table.walk(&mem1, vpn) == page_table.walk(&mem0, vpn));
                }
                let done = page_table.map(vpn, ppn, flags, alloc, mem);
                assert(done);
                self.data_frames.insert(vpn.0, frame);
                proof {
                    assert(self.frames() =~= frames0.insert(vpn.0, ppn));
                    assert(nodes_added_for(&mem0, mem, table0.root(), vpn)) by {
                        assert(nodes_added_for(&mem1, mem, table0.root(), vpn));
                        assert forall|i: int| 0 <= i < 512 implies (#[trigger] child(
                            mem,
                            table0.root(),
                            i,
                        )).is_some() == (child(&mem0, table0.root(), i).is_some() || i == vpn.index(
                            0,
                        )) by {
                            assert(child(&mem1, table0.root(), i) == child(&mem0, table0.root(), i));
                        }
                        assert forall|i: int, k: int| 0 <= i < 512 && 0 <= k < 512 implies (
                        #[trigger] grandchild(mem, table0.root(), i, k)).is_some() == (grandchild(
                            &mem0,
                            table0.root(),
                            i,
                            k,
                        ).is_some() || (i == vpn.index(0) && k == vpn.index(1))) by {
                            assert(grandchild(&mem1, table0.root(), i, k) == grandchild(
                                &mem0,
                                table0.root(),
                                i,
                                k,
                            ));
                        }
                    }
                    assert forall|w: VirtPageNum| w.slot()
                        != vpn.slot() implies #[trigger] page_table.translation(
                        mem,
                        w,
                    ) == table0.translation(&mem0, w) by {
                        assert(table0.walk(&mem1, w) == table0.walk(&mem0, w));
                        assert(page_table.translation(mem, w) == table0.translation(&mem1, w));
                    }
                    let n0 = table0.owned().len() as int;
                    assert forall|k: int| n0 <= k < page_table.owned().len() implies alloc0.is_free(
                        #[trigger] page_table.owned()[k].0,
                    ) by {
                        assert(alloc1.is_free(page_table.owned()[k].0));
                    }
                    assert forall|p: PhysPageNum|
                        page_table.owned().contains(p) implies table0.owned().contains(p)
                        || alloc1.is_free(p.0) by {
                        let k = choose|k: int|
                            0 <= k < page_table.owned().len() && page_table.owned()[k] == p;
                        if k < n0 {
                            assert(page_table.owned().subrange(0, n0)[k] == p);
                        } else {
                            assert(alloc1.is_free(page_table.owned()[k].0));
                        }
                    }
                    assert forall|v: u64| #[trigger] self.frames().contains_key(
                        v) implies alloc@.is_allocated(
                        self.frames()[v].0,
                    ) && mem.contains(self.frames()[v]) && !page_table.owned_set().contains(
                        self.frames()[v],
                    ) by {
                        let p = self.frames()[v];
                        if v != vpn.0 {
                            assert(frames0.contains_key(v));
                            assert(alloc0.is_allocated(p.0));
                        }
                        assert(alloc1.is_allocated(p.0));
                        if page_table.owned().contains(p) {
                            assert(table0.owned().contains(p) || alloc1.is_free(p.0));
                        }
                    }
                    assert forall|v: u64, w: u64|
                        #[trigger] self.frames().contains_key(v) && #[trigger] self.frames().contains_key(
                            w,
                        ) && v != w implies self.frames()[v] != self.frames()[w] by {
                        if v != vpn.0 {
                            assert(frames0.contains_key(v));
                        }
                        if w != vpn.0 {
                            assert(frames0.contains_key(w));
                        }
                    }
                    assert forall|p: PhysPageNum|
                        mem0.contains(p) && !page_table.owned_set().contains(p) && !alloc0.is_free(
                            p.0,
                        ) implies #[trigger] mem.page(p) == mem0.page(p) by {
                        assert(mem1.page(p) == mem0.page(p));
                        assert(mem.page(p) == mem1.page(p));
                    }
                }
                true
            },
        }
    }

    /// Takes the mapping of page `vpn` away, and hands the frame that the
    /// area holds for it, if any, back to the allocator. The page has to be
    /// mapped.
    pub fn unmap_one(
        &mut self,
        page_table: &mut PageTable,
        vpn: VirtPageNum,
        alloc: &mut StackFrameAllocator,
        mem: &mut PhysMemory,
    )
        requires
            old(page_table).inv(old(alloc), old(mem)),
            old(self).frames_sound(old(page_table), old(alloc), old(mem)),
            old(page_table).is_mapped(old(mem), vpn),
        ensures
            final(page_table).inv(final(alloc), final(mem)),
            *final(page_table) == *old(page_table),
            final(self).same_shape(old(self)),
            final(self).frames_sound(final(page_table), final(alloc), final(mem)),
            final(self).frames() == old(self).frames().remove(vpn.0),
            final(alloc)@ == (if old(self).frames().contains_key(vpn.0) {
                old(alloc)@.dealloc(old(self).frames()[vpn.0])
            } else {
                old(alloc)@
            }),
            old(mem).same_but(final(mem), final(page_table).owned_set()),
            final(page_table).walk(final(mem), vpn) == Some(PageTableEntry::empty()),
            !final(page_table).is_mapped(final(mem), vpn),
            final(alloc)@.free_count() == old(alloc)@.free_count() + (if old(self).frames().contains_key(
                vpn.0,
            ) {
                1int
            } else {
                0int
            }),
            old(self).frames().contains_key(vpn.0) ==> final(alloc)@.is_free(
                old(self).frames()[vpn.0].0,
            ),
            forall|q: u64| old(alloc)@.is_free(q) ==> final(alloc)@.is_free(q),
            forall|q: u64|
                final(alloc)@.is_free(q) ==> old(alloc)@.is_free(q) || (old(self).frames().contains_key(
                    vpn.0,
                ) && old(self).frames()[vpn.0].0 == q),
            forall|q: u64|
                old(alloc)@.is_allocated(q) && !(old(self).frames().contains_key(vpn.0)
                    && old(self).frames()[vpn.0].0 == q) ==> final(alloc)@.is_allocated(q),
            forall|w: VirtPageNum|
                w.slot() == vpn.slot() ==> !(#[trigger] final(page_table).is_mapped(final(mem), w)),
            forall|w: VirtPageNum|
                w.slot() != vpn.slot()
                    ==> #[trigger] final(page_table).walk(final(mem), w)
                        == old(page_table).walk(old(mem), w),
            nodes_kept(old(mem), final(mem), old(page_table).root()),
    {
        let ghost frames0 = self.frames();
        let ghost alloc0 = alloc@;
        match self.data_frames.remove(&vpn.0) {
            Some(frame) => {
                assert(frames0.contains_key(vpn.0) && frame.ppn == frames0[vpn.0]);
                frame_dealloc(alloc, frame);
            },
            None => {},
        }
        proof {
            assert(self.frames() =~= frames0.remove(vpn.0));
            assert forall|k: int| 0 <= k < page_table.owned().len() implies alloc@.is_allocated(
                #[trigger] page_table.owned()[k].0,
            ) by {
                assert(alloc0.is_allocated(page_table.owned()[k].0));
                if frames0.contains_key(vpn.0) {
                    assert(page_table.owned().contains(page_table.owned()[k]));
                }
            }
            assert forall|v: u64| #[trigger] self.frames().contains_key(v) implies alloc@.is_allocated(
                self.frames()[v].0,
            ) by {
                assert(frames0.contains_key(v));
                if frames0.contains_key(vpn.0) {
                    assert(frames0[v] != frames0[vpn.0]);
                }
            }
        }
        page_table.unmap(vpn, mem);
        proof {
            entry_holds_its_parts(PhysPageNum(0), PTEFlags::of(0));
            assert forall|w: VirtPageNum| w.slot() == vpn.slot() implies !(#[trigger] page_table.is_mapped(
                mem,
                w,
            )) by {
                assert(page_table.walk(mem, w) == Some(PageTableEntry::empty()));
            }
            assert forall|v: u64, w: u64|
                #[trigger] self.frames().contains_key(v) && #[trigger] self.frames().contains_key(w)
                    && v != w implies self.frames()[v] != self.frames()[w] by {
                assert(frames0.contains_key(v) && frames0.contains_key(w));
            }
            assert forall|v: u64| #[trigger] self.frames().contains_key(v) implies mem.contains(
                self.frames()[v],
            ) && !page_table.owned_set().contains(self.frames()[v]) by {
                assert(frames0.contains_key(v));
            }
        }
    }

    /// How many pages the area has.
    pub open spec fn page_count(&self) -> int {
        self.end_vpn() - self.start_vpn()
    }

    /// Unmaps the pages from the start of the area up to `upto`, which are
    /// the pages of the area that are mapped, and hands their frames back.
    fn unmap_upto(
        &mut self,
        page_table: &mut PageTable,
        upto: u64,
        alloc: &mut StackFrameAllocator,
        mem: &mut PhysMemory,
    )
        requires
            old(page_table).inv(old(alloc), old(mem)),
            canonical_range(old(self).start_vpn(), old(self).end_vpn()),
            old(self).maps_pages(old(page_table), old(mem), old(self).start_vpn(), upto),
            old(self).frames_sound(old(page_table), old(alloc), old(mem)),
        ensures
            final(page_table).inv(final(alloc), final(mem)),
            *final(page_table) == *old(page_table),
            final(self).same_shape(old(self)),
            final(self).frames() == Map::<u64, PhysPageNum>::empty(),
            old(mem).same_but(final(mem), final(page_table).owned_set()),
            forall|v: u64|
                old(self).start_vpn() <= v < upto ==> !(#[trigger] final(page_table).is_mapped(
                    final(mem),
                    VirtPageNum(v),
                )),
            forall|w: VirtPageNum|
                w.is_canonical() && !(old(self).start_vpn() <= w.0 < upto)
                    ==> #[trigger] final(page_table).walk(final(mem), w)
                        == old(page_table).walk(old(mem), w),
            final(alloc)@.free_count() == old(alloc)@.free_count() + old(self).frames().len(),
            forall|q: u64|
                old(alloc)@.is_allocated(q) && !old(self).owns(PhysPageNum(q))
                    ==> final(alloc)@.is_allocated(q),
            forall|q: u64|
                final(alloc)@.is_free(q) ==> old(alloc)@.is_free(q) || old(self).owns(PhysPageNum(q)),
            forall|q: u64| old(alloc)@.is_free(q) ==> final(alloc)@.is_free(q),
            forall|q: u64| old(self).owns(PhysPageNum(q)) ==> final(alloc)@.is_free(q),
            nodes_kept(old(mem), final(mem), old(page_table).root()),
    {
        let start: u64 = self.vpn_range.get_start().0;
        let ghost frames0 = self.frames();
        proof {
            held_frames_are_finite(self, page_table, mem, start, upto);
        }
        let mut v: u64 = start;
        while v < upto
            invariant
                start == old(self).start_vpn(),
                start <= v <= upto,
                frames0 == old(self).frames(),
                frames0.dom().finite(),
                canonical_range(self.start_vpn(), self.end_vpn()),
                self.same_shape(old(self)),
                *page_table == *old(page_table),
                page_table.inv(alloc, mem),
                self.maps_pages(page_table, mem, v, upto),
                self.frames_sound(page_table, alloc, mem),
                forall|u: u64| #[trigger] self.frames().contains_key(u) ==> frames0.contains_key(u)
                    && self.frames()[u] == frames0[u],
                forall|u: u64|
                    #[trigger] frames0.contains_key(u) ==> (self.frames().contains_key(u) || alloc@.is_free(
                        frames0[u].0,
                    )),
                old(mem).same_but(mem, page_table.owned_set()),
                forall|u: u64|
                    start <= u < v ==> !(#[trigger] page_table.is_mapped(mem, VirtPageNum(u))),
                forall|w: VirtPageNum|
                    w.is_canonical() && !(start <= w.0 < upto) ==> #[trigger] page_table.walk(mem, w)
                        == old(page_table).walk(old(mem), w),
                alloc@.free_count() == old(alloc)@.free_count() + frames0.len() - self.frames().len(),
                self.frames().dom().finite(),
                forall|q: u64|
                    old(alloc)@.is_allocated(q) && !old(self).owns(PhysPageNum(q)) ==> alloc@.is_allocated(
                        q,
                    ),
                forall|q: u64| alloc@.is_free(q)
                    ==> old(alloc)@.is_free(q) || old(self).owns(PhysPageNum(q)),
                forall|q: u64| old(alloc)@.is_free(q) ==> alloc@.is_free(q),
                nodes_kept(old(mem), mem, old(page_table).root()),
            decreases upto - v,
        {
            let ghost mem1 = *mem;
            let ghost alloc1 = alloc@;
            let ghost frames1 = self.frames();
            let ghost area1 = *self;
            let vpn = VirtPageNum(v);
            assert(page_table.translation(mem, VirtPageNum(v)) == Some(self.expected_entry(v)));
            self.unmap_one(page_table, vpn, alloc, mem);
            proof {
                assert(self.frames() =~= frames1.remove(v));
                assert(nodes_kept(old(mem), mem, old(page_table).root())) by {
                    let root = old(page_table).root();
                    assert(nodes_kept(&mem1, mem, root));
                    assert forall|i: int| 0 <= i < 512 implies (#[trigger] child(mem, root, i)).is_some()
                        == child(old(mem), root, i).is_some() by {
                        assert(child(&mem1, root, i).is_some() == child(old(mem), root, i).is_some());
                    }
                    assert forall|i: int, k: int| 0 <= i < 512 && 0 <= k < 512 implies (
                    #[trigger] grandchild(mem, root, i, k)).is_some() == grandchild(
                        old(mem),
                        root,
                        i,
                        k,
                    ).is_some() by {
                        assert(grandchild(&mem1, root, i, k).is_some() == grandchild(
                            old(mem),
                            root,
                            i,
                            k,
                        ).is_some());
                    }
                }
                assert forall|u: u64| v + 1 <= u < upto implies #[trigger] page_table.translation(
                    mem,
                    VirtPageNum(u),
                ) == Some(self.expected_entry(u)) by {
                    assert(VirtPageNum(u).is_canonical() && vpn.is_canonical());
                    if VirtPageNum(u).slot() == vpn.slot() {
                        canonical_pages_have_own_slots(VirtPageNum(u), vpn);
                    }
                    assert(page_table.walk(mem, VirtPageNum(u)) == page_table.walk(&mem1, VirtPageNum(u)));
                    assert(page_table.translation(&mem1, VirtPageNum(u)) == Some(
                        area1.expected_entry(u),
                    ));
                    assert(self.expected_entry(u) == area1.expected_entry(u));
                }
                assert forall|u: u64| start <= u < v + 1 implies !(#[trigger] page_table.is_mapped(
                    mem,
                    VirtPageNum(u),
                )) by {
                    if u != v {
                        assert(VirtPageNum(u).is_canonical() && vpn.is_canonical());
                        if VirtPageNum(u).slot() == vpn.slot() {
                            canonical_pages_have_own_slots(VirtPageNum(u), vpn);
                        }
                        assert(page_table.walk(mem, VirtPageNum(u)) == page_table.walk(
                            &mem1,
                            VirtPageNum(u),
                        ));
                        assert(!page_table.is_mapped(&mem1, VirtPageNum(u)));
                    }
                }
                assert forall|w: VirtPageNum|
                    w.is_canonical() && !(start <= w.0 < upto) implies #[trigger] page_table.walk(mem, w)
                    == old(page_table).walk(old(mem), w) by {
                    if w.slot() == vpn.slot() {
                        canonical_pages_have_own_slots(w, vpn);
                    }
                    assert(page_table.walk(mem, w) == page_table.walk(&mem1, w));
                }
                assert forall|p: PhysPageNum|
                    old(mem).contains(p) && !page_table.owned_set().contains(p) implies #[trigger] mem.page(
                    p,
                ) == old(mem).page(p) by {
                    assert(mem1.page(p) == old(mem).page(p));
                    assert(mem.page(p) == mem1.page(p));
                }
                if frames1.contains_key(v) {
                    assert(frames0.contains_key(v) && frames0[v] == frames1[v]);
                    assert(old(self).owns(frames0[v]));
                    assert(frames1.remove(v).len() == frames1.len() - 1);
                    assert forall|q: u64|
                        old(alloc)@.is_allocated(q)
                            && !old(self).owns(PhysPageNum(q)) implies alloc@.is_allocated(
                        q,
                    ) by {
                        assert(q != frames1[v].0);
                    }
                }
                assert forall|u: u64| #[trigger] frames0.contains_key(u) implies (
                self.frames().contains_key(u) || alloc@.is_free(frames0[u].0)) by {
                    if !self.frames().contains_key(u) {
                        if u != v || !frames1.contains_key(v) {
                            assert(!frames1.contains_key(u));
                            assert(alloc1.is_free(frames0[u].0));
                        }
                    }
                }
            }
            v += 1;
        }
        proof {
            assert(self.frames() =~= Map::<u64, PhysPageNum>::empty());
            assert(self.frames().len() == 0);
            assert forall|q: u64| old(self).owns(PhysPageNum(q)) implies alloc@.is_free(q) by {
                let u = choose|u: u64| #[trigger]
                    frames0.contains_key(u) && frames0[u] == PhysPageNum(q);
                assert(!self.frames().contains_key(u));
            }
        }
    }

    /// Maps every page of the area, in order. The pages must not be mapped
    /// yet and lie in one canonical half. When the allocator runs out on the
    /// way, the pages mapped so far are unmapped again and their frames
    /// handed back: the answer is `false`, and nothing of the area is mapped.
    /// Nodes that the table gained on the way stay with the table.
    pub fn map(
        &mut self,
        page_table: &mut PageTable,
        alloc: &mut StackFrameAllocator,
        mem: &mut PhysMemory,
    ) -> (done: bool)
        requires
            old(page_table).inv(old(alloc), old(mem)),
            canonical_range(old(self).start_vpn(), old(self).end_vpn()),
            old(self).frames() == Map::<u64, PhysPageNum>::empty(),
            forall|v: u64|
                old(self).contains_vpn(v) ==> !(#[trigger] old(page_table).is_mapped(
                    old(mem),
                    VirtPageNum(v),
                )),
        ensures
            final(page_table).inv(final(alloc), final(mem)),
            final(self).same_shape(old(self)),
            final(self).frames_sound(final(page_table), final(alloc), final(mem)),
            final(page_table).extends(old(page_table)),
            final(page_table).new_frames_were_free(old(page_table), old(alloc)@),
            others_untouched(old(mem), final(mem), final(page_table).owned_set(), old(alloc)@),
            forall|q: u64| old(alloc)@.is_allocated(q) ==> final(alloc)@.is_allocated(q),
            forall|q: u64| final(alloc)@.is_free(q) ==> old(alloc)@.is_free(q),
            forall|v: u64| #[trigger]
                final(self).frames().contains_key(v) ==> old(alloc)@.is_free(final(self).frames()[v].0),
            forall|w: VirtPageNum|
                w.is_canonical() && !old(self).contains_vpn(w.0)
                    ==> #[trigger] final(page_table).translation(final(mem), w)
                        == old(page_table).translation(old(mem), w),
            done ==> final(self).maps_pages(
                final(page_table),
                final(mem),
                final(self).start_vpn(),
                final(self).end_vpn(),
            ),
            !done ==> final(self).frames() == Map::<u64, PhysPageNum>::empty() && forall|v: u64|
                old(self).contains_vpn(v) ==> !(#[trigger] final(page_table).is_mapped(
                    final(mem),
                    VirtPageNum(v),
                )),
            old(alloc)@.free_count() >= 3 * old(self).page_count() ==> done,
            final(alloc)@.free_count() == old(alloc)@.free_count() - (final(page_table).owned().len()
                - old(page_table).owned().len()) - final(self).frames().len(),
            forall|v: u64| #[trigger]
                final(self).frames().contains_key(v) ==> final(mem).is_zero_page(
                    final(self).frames()[v],
                ),
            final(alloc)@.free_count() >= old(alloc)@.free_count() - 3 * old(self).page_count(),
            done == (old(alloc)@.free_count() >= frames_for_pages(
                old(mem),
                old(page_table).root(),
                old(self).start_vpn(),
                old(self).end_vpn(),
                old(self).map_type(),
            )),
            done ==> nodes_added_for_pages(
                old(mem),
                final(mem),
                old(page_table).root(),
                old(self).start_vpn(),
                old(self).end_vpn(),
            ),
            done ==> final(alloc)@.free_count() == old(alloc)@.free_count() - frames_for_pages(
                old(mem),
                old(page_table).root(),
                old(self).start_vpn(),
                old(self).end_vpn(),
                old(self).map_type(),
            ),
    {
        let start: u64 = self.vpn_range.get_start().0;
        let end: u64 = self.vpn_range.get_end().0;
        let ghost table0 = *page_table;
        let ghost mem0 = *mem;
        let ghost alloc0 = alloc@;
        let mut v: u64 = start;
        proof {
            assert(page_table.owned().subrange(0, page_table.owned().len() as int) =~= page_table.owned());
            assert(self.frames().len() == 0);
            kept_is_added_for_none(mem, mem, page_table.root(), start);
        }
        while v < end
            invariant
                start == self.start_vpn(),
                end == self.end_vpn(),
                start <= v <= end,
                canonical_range(start, end),
                self.same_shape(old(self)),
                page_table.inv(alloc, mem),
                self.maps_pages(page_table, mem, start, v),
                self.frames_sound(page_table, alloc, mem),
                self.frames().dom().finite(),
                page_table.extends(&table0),
                page_table.new_frames_were_free(&table0, alloc0),
                others_untouched(&mem0, mem, page_table.owned_set(), alloc0),
                forall|q: u64| alloc0.is_allocated(q) ==> alloc@.is_allocated(q),
                forall|q: u64| alloc@.is_free(q) ==> alloc0.is_free(q),
                forall|u: u64| #[trigger]
                    self.frames().contains_key(u) ==> alloc0.is_free(self.frames()[u].0),
                forall|u: u64| #[trigger]
                    self.frames().contains_key(u) ==> mem.is_zero_page(self.frames()[u]),
                forall|u: u64|
                    v <= u < end ==> !(#[trigger] page_table.is_mapped(mem, VirtPageNum(u))),
                forall|w: VirtPageNum|
                    w.is_canonical() && !(start <= w.0 < end) ==> #[trigger] page_table.translation(
                        mem,
                        w,
                    ) == table0.translation(&mem0, w),
                alloc@.free_count() == alloc0.free_count() - (page_table.owned().len()
                    - table0.owned().len()) - self.frames().len(),
                alloc0.free_count() >= 3 * (end - start) ==> alloc@.free_count() >= 3 * (end - v),
                alloc@.free_count() >= alloc0.free_count() - 3 * (v - start),
                nodes_lacking(&mem0, table0.root(), start, end) == (page_table.owned().len()
                    - table0.owned().len()) + nodes_lacking(mem, table0.root(), v, end),
                nodes_added_for_pages(&mem0, mem, table0.root(), start, v),
                self.frames().len() == (if self.map_type() == MapType::Framed {
                    v - start
                } else {
                    0
                }),
                table0 == *old(page_table),
                mem0 == *old(mem),
                alloc0 == old(alloc)@,
            decreases end - v,
        {
            let vpn = VirtPageNum(v);
            let ghost table1 = *page_table;
            let ghost mem1 = *mem;
            let ghost alloc1 = alloc@;
            let ghost frames1 = self.frames();
            let ghost area1 = *self;
            proof {
                indexes_determine_slot(vpn, vpn);
                assert(!page_table.is_mapped(mem, VirtPageNum(v)));
                assert(!self.frames().contains_key(v));
            }
            let done = self.map_one(page_table, vpn, alloc, mem);
            if !done {
                proof {
                    lacking_covers_first(mem, table0.root(), v, end);
                    lacking_covers_first(mem, table0.root(), (v + 1) as u64, end);
                }
                self.unmap_upto(page_table, v, alloc, mem);
                proof {
                    assert forall|u: u64| old(self).contains_vpn(u) implies !(
                        #[trigger] page_table.is_mapped(
                        mem,
                        VirtPageNum(u),
                    )) by {
                        if u >= v {
                            assert(VirtPageNum(u).is_canonical());
                            assert(page_table.walk(mem, VirtPageNum(u))
                                == table1.walk(&mem1, VirtPageNum(u)));
                            assert(!table1.is_mapped(&mem1, VirtPageNum(u)));
                        }
                    }
                    assert forall|w: VirtPageNum|
                        w.is_canonical() && !old(self).contains_vpn(
                            w.0) implies #[trigger] page_table.translation(
                        mem,
                        w,
                    ) == table0.translation(&mem0, w) by {
                        assert(page_table.walk(mem, w) == table1.walk(&mem1, w));
                        assert(table1.translation(&mem1, w) == table0.translation(&mem0, w));
                    }
                    assert forall|q: u64| alloc0.is_allocated(q) implies alloc@.is_allocated(q) by {
                        assert(alloc1.is_allocated(q));
                        if area1.owns(PhysPageNum(q)) {
                            let u = choose|u: u64| #[trigger]
                                frames1.contains_key(u) && frames1[u] == PhysPageNum(q);
                            assert(alloc0.is_free(frames1[u].0));
                        }
                    }
                    assert forall|q: u64| alloc@.is_free(q) implies alloc0.is_free(q) by {
                        if !alloc1.is_free(q) {
                            let u = choose|u: u64| #[trigger]
                                frames1.contains_key(u) && frames1[u] == PhysPageNum(q);
                            assert(alloc0.is_free(frames1[u].0));
                        }
                    }
                    assert forall|p: PhysPageNum|
                        mem0.contains(p) && !page_table.owned_set().contains(p) && !alloc0.is_free(
                            p.0,
                        ) implies #[trigger] mem.page(p) == mem0.page(p) by {
                        assert(mem1.page(p) == mem0.page(p));
                        assert(mem.page(p) == mem1.page(p));
                    }
                    assert(self.frames().len() == 0);
                }
                return false;
            }
            proof {
                lacking_after_first(&mem1, mem, table0.root(), v, end);
                added_for_one_more(&mem0, &mem1, mem, table0.root(), start, v);
                let n0 = table0.owned().len() as int;
                let n1 = table1.owned().len() as int;
                assert(page_table.owned().subrange(0, n0) =~= table0.owned()) by {
                    assert forall|k: int| 0 <= k < n0 implies page_table.owned()[k]
                        == table0.owned()[k] by {
                        assert(page_table.owned().subrange(0, n1)[k] == table1.owned()[k]);
                        assert(table1.owned().subrange(0, n0)[k] == table0.owned()[k]);
                    }
                }
                assert forall|k: int| n0 <= k < page_table.owned().len() implies alloc0.is_free(
                    #[trigger] page_table.owned()[k].0,
                ) by {
                    if k < n1 {
                        assert(page_table.owned().subrange(0, n1)[k] == table1.owned()[k]);
                        assert(alloc0.is_free(table1.owned()[k].0));
                    } else {
                        assert(alloc1.is_free(page_table.owned()[k].0));
                    }
                }
                assert forall|p: PhysPageNum|
                    table1.owned_set().contains(p) implies page_table.owned_set().contains(p) by {
                    let k = choose|k: int| 0 <= k < n1 && table1.owned()[k] == p;
                    assert(page_table.owned().subrange(0, n1)[k] == p);
                    assert(page_table.owned()[k] == p);
                }
                assert forall|p: PhysPageNum|
                    mem0.contains(p) && !page_table.owned_set().contains(p) && !alloc0.is_free(
                        p.0,
                    ) implies #[trigger] mem.page(p) == mem0.page(p) by {
                    assert(mem1.page(p) == mem0.page(p));
                    assert(mem.page(p) == mem1.page(p));
                }
                assert forall|u: u64| start <= u < v + 1 implies #[trigger] page_table.translation(
                    mem,
                    VirtPageNum(u),
                ) == Some(self.expected_entry(u)) by {
                    if u != v {
                        assert(VirtPageNum(u).is_canonical() && vpn.is_canonical());
                        if VirtPageNum(u).slot() == vpn.slot() {
                            canonical_pages_have_own_slots(VirtPageNum(u), vpn);
                        }
                        assert(table1.translation(&mem1, VirtPageNum(u)) == Some(
                            area1.expected_entry(u),
                        ));
                        assert(frames1.contains_key(u) ==> self.frames()[u] == frames1[u]);
                        assert(self.expected_entry(u) == area1.expected_entry(u));
                    }
                }
                assert forall|u: u64| v + 1 <= u < end implies !(#[trigger] page_table.is_mapped(
                    mem,
                    VirtPageNum(u),
                )) by {
                    assert(VirtPageNum(u).is_canonical() && vpn.is_canonical());
                    if VirtPageNum(u).slot() == vpn.slot() {
                        canonical_pages_have_own_slots(VirtPageNum(u), vpn);
                    }
                    assert(!table1.is_mapped(&mem1, VirtPageNum(u)));
                }
                assert forall|w: VirtPageNum|
                    w.is_canonical() && !(start <= w.0 < end) implies #[trigger] page_table.translation(
                    mem,
                    w,
                ) == table0.translation(&mem0, w) by {
                    if w.slot() == vpn.slot() {
                        canonical_pages_have_own_slots(w, vpn);
                    }
                    assert(table1.translation(&mem1, w) == table0.translation(&mem0, w));
                }
                assert forall|u: u64| #[trigger] self.frames().contains_key(u) implies alloc0.is_free(
                    self.frames()[u].0,
                ) by {
                    if u != v {
                        assert(frames1.contains_key(u));
                    } else {
                        assert(alloc1.is_free(self.frames()[v].0));
                    }
                }
                assert forall|u: u64| #[trigger] self.frames().contains_key(u) implies mem.is_zero_page(
                    self.frames()[u],
                ) by {
                    if u != v {
                        assert(frames1.contains_key(u));
                        let p = frames1[u];
                        assert(alloc1.is_allocated(p.0));
                        assert(mem1.is_zero_page(p));
                        assert(mem.page(p) == mem1.page(p));
                    }
                }
                if self.map_type() == MapType::Framed {
                    assert(frames1.insert(v, self.frames()[v]).len() == frames1.len() + 1);
                }
            }
            v += 1;
        }
        proof {
            lacking_covers_first(mem, table0.root(), end, end);
        }
        true
    }

    /// Unmaps every page of the area, which has to be mapped as a whole, and
    /// hands the frames of the area back to the allocator. The table keeps
    /// every node that it has.
    pub fn unmap(
        &mut self,
        page_table: &mut PageTable,
        alloc: &mut StackFrameAllocator,
        mem: &mut PhysMemory,
    )
        requires
            old(page_table).inv(old(alloc), old(mem)),
            canonical_range(old(self).start_vpn(), old(self).end_vpn()),
            old(self).maps_pages(
                old(page_table),
                old(mem),
                old(self).start_vpn(),
                old(self).end_vpn(),
            ),
            old(self).frames_sound(old(page_table), old(alloc), old(mem)),
        ensures
            final(page_table).inv(final(alloc), final(mem)),
            *final(page_table) == *old(page_table),
            final(self).same_shape(old(self)),
            final(self).frames() == Map::<u64, PhysPageNum>::empty(),
            old(mem).same_but(final(mem), final(page_table).owned_set()),
            forall|v: u64|
                old(self).contains_vpn(v) ==> !(#[trigger] final(page_table).is_mapped(
                    final(mem),
                    VirtPageNum(v),
                )),
            forall|w: VirtPageNum|
                w.is_canonical() && !old(self).contains_vpn(w.0) ==> #[trigger] final(page_table).walk(
                    final(mem),
                    w,
                ) == old(page_table).walk(old(mem), w),
            final(alloc)@.free_count() == old(alloc)@.free_count() + old(self).frames().len(),
            forall|q: u64|
                old(alloc)@.is_allocated(q) && !old(self).owns(PhysPageNum(q))
                    ==> final(alloc)@.is_allocated(q),
            forall|q: u64|
                final(alloc)@.is_free(q) ==> old(alloc)@.is_free(q) || old(self).owns(PhysPageNum(q)),
            forall|q: u64| old(alloc)@.is_free(q) ==> final(alloc)@.is_free(q),
            forall|q: u64| old(self).owns(PhysPageNum(q)) ==> final(alloc)@.is_free(q),
            nodes_kept(old(mem), final(mem), old(page_table).root()),
    {
        let end: u64 = self.vpn_range.get_end().0;
        self.unmap_upto(page_table, end, alloc, mem);
    }

    /// Gives the area up and hands every frame it owns back to the
    /// allocator. Nothing is unmapped by it.
    pub fn release(self, alloc: &mut StackFrameAllocator)
        requires
            old(alloc).wf(),
            self.start_vpn() <= self.end_vpn(),
            forall|v: u64| #[trigger]
                self.frames().contains_key(v) ==> self.contains_vpn(v) && old(alloc)@.is_allocated(
                    self.frames()[v].0,
                ),
            forall|v: u64, w: u64|
                #[trigger] self.frames().contains_key(v) && #[trigger] self.frames().contains_key(w) && v
                    != w ==> self.frames()[v] != self.frames()[w],
        ensures
            final(alloc).wf(),
            forall|q: u64| self.owns(PhysPageNum(q)) ==> final(alloc)@.is_free(q),
            forall|q: u64|
                old(alloc)@.is_allocated(q) && !self.owns(PhysPageNum(q)) ==> final(alloc)@.is_allocated(
                    q,
                ),
            forall|q: u64| old(alloc)@.is_free(q) ==> final(alloc)@.is_free(q),
            forall|q: u64| final(alloc)@.is_free(q) ==> old(alloc)@.is_free(q) || self.owns(PhysPageNum(q)),
            final(alloc)@.free_count() == old(alloc)@.free_count() + self.frames().len(),
    {
        let start: u64 = self.vpn_range.get_start().0;
        let end: u64 = self.vpn_range.get_end().0;
        let ghost frames0 = self.frames();
        proof {
            let range = Set::new(|v: u64| start <= v < end);
            u64_range_is_finite(start, end);
            assert(frames0.dom().subset_of(range));
            vstd::set_lib::lemma_len_subset(frames0.dom(), range);
        }
        let mut frames = self.data_frames;
        proof {
            assert(frames@.dom() =~= frames0.dom());
            assert(frames@.len() == frames0.len());
        }
        let mut v: u64 = start;
        proof {
            assert forall|u: u64| #[trigger] frames@.contains_key(u) implies v <= u < end
                && frames0.contains_key(u) && frames@[u].ppn == frames0[u] by {
                assert(self.frames().contains_key(u));
            }
        }
        while v < end
            invariant
                start <= v <= end,
                start == self.start_vpn(),
                end == self.end_vpn(),
                frames0 == self.frames(),
                alloc.wf(),
                forall|u: u64| #[trigger]
                    frames@.contains_key(u) ==> v <= u < end && frames0.contains_key(u) && frames@[u].ppn
                        == frames0[u],
                forall|u: u64| #[trigger] frames0.contains_key(u) && v <= u ==> frames@.contains_key(u),
                forall|u: u64| #[trigger]
                    frames0.contains_key(u) ==> start <= u < end && (if u < v {
                        alloc@.is_free(frames0[u].0)
                    } else {
                        alloc@.is_allocated(frames0[u].0)
                    }),
                forall|u: u64, w: u64|
                    #[trigger] frames0.contains_key(u) && #[trigger] frames0.contains_key(w) && u != w
                        ==> frames0[u] != frames0[w],
                forall|q: u64|
                    old(alloc)@.is_allocated(q) && !self.owns(PhysPageNum(q)) ==> alloc@.is_allocated(q),
                forall|q: u64| old(alloc)@.is_free(q) ==> alloc@.is_free(q),
                forall|q: u64| alloc@.is_free(q) ==> old(alloc)@.is_free(q) || self.owns(PhysPageNum(q)),
                frames@.dom().finite(),
                alloc@.free_count() == old(alloc)@.free_count() + frames0.len() - frames@.len(),
            decreases end - v,
        {
            let ghost held = frames@;
            match frames.remove(&v) {
                Some(frame) => {
                    assert(frames0.contains_key(v) && frame.ppn == frames0[v]);
                    assert(self.owns(frames0[v]));
                    frame_dealloc(alloc, frame);
                    proof {
                        assert(held.remove(v).len() == held.len() - 1);
                        assert forall|u: u64| #[trigger] frames0.contains_key(u) implies start <= u < end
                            && (if u < v + 1 {
                            alloc@.is_free(frames0[u].0)
                        } else {
                            alloc@.is_allocated(frames0[u].0)
                        }) by {
                            if u != v {
                                assert(frames0[u] != frames0[v]);
                            }
                        }
                    }
                },
                None => {},
            }
            v += 1;
        }
        proof {
            assert forall|q: u64| self.owns(PhysPageNum(q)) implies alloc@.is_free(q) by {
                let u = choose|u: u64| #[trigger]
                    frames0.contains_key(u) && frames0[u] == PhysPageNum(q);
                assert(alloc@.is_free(frames0[u].0));
            }
            assert(frames@ =~= Map::<u64, FrameTracker>::empty());
        }
    }

    /// What the frames of the area hold after the area was mapped and `data`
    /// copied into it: page by page the bytes of `data`, and zero bytes
    /// behind them. Without `data` a framed area holds zero bytes only.
    pub open spec fn holds_data(&self, mem: &PhysMemory, data: Option<&[u8]>) -> bool {
        match data {
            Some(d) => self.holds_bytes(mem, d@),
            None => self.holds_zeros(mem),
        }
    }

    /// The frames of the area hold, page by page, the bytes of `bytes`, and
    /// zero bytes behind them.
    pub open spec fn holds_bytes(&self, mem: &PhysMemory, bytes: Seq<u8>) -> bool {
        forall|v: u64|
            self.contains_vpn(v) ==> #[trigger] mem.page(self.frames()[v]) == zero_padded(
                page_chunk(bytes, v - self.start_vpn()),
            )
    }

    /// The frames of the area hold zero bytes only.
    pub open spec fn holds_zeros(&self, mem: &PhysMemory) -> bool {
        forall|v: u64| #[trigger] self.frames().contains_key(v) ==> mem.is_zero_page(self.frames()[v])
    }

    /// The frames of the area lie in memory, are not frames of the page
    /// table, and no two pages share one.
    pub open spec fn frames_apart(&self, pt: &PageTable, mem: &PhysMemory) -> bool {
        &&& forall|v: u64| #[trigger]
            self.frames().contains_key(v) ==> mem.contains(self.frames()[v])
                && !pt.owned_set().contains(self.frames()[v])
        &&& forall|v: u64, w: u64|
            #[trigger] self.frames().contains_key(v) && #[trigger] self.frames().contains_key(w) && v
                != w ==> self.frames()[v] != self.frames()[w]
    }

    /// Copies `data` into the area, from the start of its first page on, page
    /// by page. The area has to be framed and mapped, and `data` must not be
    /// longer than the area. What lies in the area behind `data` stays as it
    /// is.
    pub fn copy_data(&self, page_table: &PageTable, data: &[u8], mem: &mut PhysMemory)
        requires
            self.map_type() == MapType::Framed,
            page_table.wf(old(mem)),
            self.maps_pages(page_table, old(mem), self.start_vpn(), self.end_vpn()),
            self.frames_apart(page_table, old(mem)),
            data@.len() <= self.page_count() * 4096,
        ensures
            page_table.wf(final(mem)),
            final(mem).first_frame() == old(mem).first_frame(),
            final(mem).frame_count() == old(mem).frame_count(),
            forall|w: VirtPageNum| #[trigger] page_table.walk(final(mem), w)
                == page_table.walk(old(mem), w),
            nodes_kept(old(mem), final(mem), page_table.root()),
            forall|p: PhysPageNum|
                old(mem).contains(p) && !self.owns(p) ==> #[trigger] final(mem).page(p) == old(mem).page(
                    p,
                ),
            forall|v: u64|
                self.contains_vpn(v) ==> #[trigger] final(mem).page(self.frames()[v]) == page_chunk(
                    data@,
                    v - self.start_vpn(),
                ) + old(mem).page(self.frames()[v]).subrange(
                    page_chunk(data@, v - self.start_vpn()).len() as int,
                    4096,
                ),
    {
        let start: u64 = self.vpn_range.get_start().0;
        let end: u64 = self.vpn_range.get_end().0;
        let len: usize = data.len();
        let mut offset: usize = 0;
        let mut v: u64 = start;
        while offset < len
            invariant
                start == self.start_vpn(),
                end == self.end_vpn(),
                len == data@.len(),
                len <= (end - start) * 4096,
                start <= v <= end,
                offset <= len,
                offset == (if (v - start) * 4096 <= len {
                    (v - start) * 4096
                } else {
                    len as int
                }),
                self.map_type() == MapType::Framed,
                page_table.wf(mem),
                self.maps_pages(page_table, mem, start, end),
                self.frames_apart(page_table, mem),
                mem.first_frame() == old(mem).first_frame(),
                mem.frame_count() == old(mem).frame_count(),
                forall|w: VirtPageNum| #[trigger] page_table.walk(mem, w) == page_table.walk(old(mem), w),
                nodes_kept(old(mem), mem, page_table.root()),
                forall|p: PhysPageNum|
                    old(mem).contains(p) && !self.owns(p) ==> #[trigger] mem.page(p) == old(mem).page(p),
                forall|u: u64|
                    start <= u < v ==> #[trigger] mem.page(self.frames()[u]) == page_chunk(
                        data@,
                        u - start,
                    ) + old(mem).page(self.frames()[u]).subrange(
                        page_chunk(data@, u - start).len() as int,
                        4096,
                    ),
                forall|u: u64|
                    v <= u < end ==> #[trigger] mem.page(self.frames()[u]) == old(mem).page(
                        self.frames()[u],
                    ),
            decreases len - offset,
        {
            let ghost mem1 = *mem;
            let stop: usize = if len - offset < 4096 {
                len
            } else {
                offset + 4096
            };
            let src = slice_subrange(data, offset, stop);
            let vpn = VirtPageNum(v);
            proof {
                assert(v < end) by {
                    if v >= end {
                        assert((v - start) * 4096 >= len);
                    }
                }
                assert(page_table.translation(mem, VirtPageNum(v)) == Some(self.expected_entry(v)));
                assert(self.frames().contains_key(v));
                mem.frames_fit_entries(self.frames()[v]);
                entry_holds_its_parts(self.frames()[v], self.entry_flags());
                assert(src@ =~= page_chunk(data@, v - start));
            }
            let entry = page_table.translate(vpn, mem).unwrap();
            let ppn = entry.ppn();
            assert(ppn == self.frames()[v]);
            mem.write_bytes(ppn, src);
            proof {
                tree_rests_on_its_nodes(&mem1, mem, page_table.root(), page_table.owned_set());
                assert(self.owns(ppn));
                assert(nodes_kept(old(mem), mem, page_table.root())) by {
                    let root = page_table.root();
                    assert forall|i: int| 0 <= i < 512 implies (#[trigger] child(mem, root, i)).is_some()
                        == child(old(mem), root, i).is_some() by {
                        assert(child(mem, root, i) == child(&mem1, root, i));
                        assert(child(&mem1, root, i).is_some() == child(old(mem), root, i).is_some());
                    }
                    assert forall|i: int, k: int| 0 <= i < 512 && 0 <= k < 512 implies (
                    #[trigger] grandchild(mem, root, i, k)).is_some() == grandchild(
                        old(mem),
                        root,
                        i,
                        k,
                    ).is_some() by {
                        assert(grandchild(mem, root, i, k) == grandchild(&mem1, root, i, k));
                        assert(grandchild(&mem1, root, i, k).is_some() == grandchild(
                            old(mem),
                            root,
                            i,
                            k,
                        ).is_some());
                    }
                }
                assert forall|w: VirtPageNum| #[trigger] page_table.walk(mem, w) == page_table.walk(
                    old(mem),
                    w,
                ) by {
                    assert(page_table.walk(&mem1, w) == page_table.walk(old(mem), w));
                }
                assert forall|u: u64| start <= u < v + 1 implies #[trigger] mem.page(self.frames()[u])
                    == page_chunk(data@, u - start) + old(mem).page(self.frames()[u]).subrange(
                    page_chunk(data@, u - start).len() as int,
                    4096,
                ) by {
                    if u != v {
                        assert(self.frames().contains_key(u));
                        assert(self.frames()[u] != ppn);
                        assert(mem.page(self.frames()[u]) == mem1.page(self.frames()[u]));
                    }
                }
                assert forall|u: u64| v + 1 <= u < end implies #[trigger] mem.page(self.frames()[u])
                    == old(mem).page(self.frames()[u]) by {
                    assert(self.frames().contains_key(u));
                    assert(self.frames()[u] != ppn);
                    assert(mem.page(self.frames()[u]) == mem1.page(self.frames()[u]));
                }
                assert forall|p: PhysPageNum| old(mem).contains(p)
                    && !self.owns(p) implies #[trigger] mem.page(
                    p,
                ) == old(mem).page(p) by {
                    assert(mem.page(p) == mem1.page(p));
                }
                assert forall|u: u64| start <= u < end implies #[trigger] page_table.translation(
                    mem,
                    VirtPageNum(u),
                ) == Some(self.expected_entry(u)) by {
                    assert(page_table.walk(mem, VirtPageNum(u)) == page_table.walk(&mem1, VirtPageNum(u)));
                    assert(page_table.translation(&mem1, VirtPageNum(u)) == Some(
                        self.expected_entry(u),
                    ));
                }
            }
            offset = stop;
            v += 1;
        }
        proof {
            assert forall|u: u64| self.contains_vpn(u) implies #[trigger] mem.page(self.frames()[u])
                == page_chunk(data@, u - start) + old(mem).page(self.frames()[u]).subrange(
                page_chunk(data@, u - start).len() as int,
                4096,
            ) by {
                if u >= v {
                    assert(self.frames().contains_key(u));
                    old(mem).page_has_page_size(self.frames()[u]);
                    assert(page_chunk(data@, u - start) =~= Seq::<u8>::empty());
                    assert(old(mem).page(self.frames()[u]).subrange(0, 4096) =~= old(mem).page(
                        self.frames()[u],
                    ));
                }
            }
        }
    }
}

/// The part of `data` that goes into the `k`-th page when `data` is laid out
/// page by page: at most 4096 bytes, and nothing beyond the end of `data`.
pub open spec fn page_chunk(data: Seq<u8>, k: int) -> Seq<u8> {
    let from = if k * 4096 <= data.len() {
        k * 4096
    } else {
        data.len() as int
    };
    let to = if (k + 1) * 4096 <= data.len() {
        (k + 1) * 4096
    } else {
        data.len() as int
    };
    data.subrange(from, to)
}

/// A framed area that maps the pages `lo .. hi` holds finitely many frames.
proof fn held_frames_are_finite(area: &MapArea, pt: &PageTable, mem: &PhysMemory, lo: u64,
    hi: u64)
    requires
        area.maps_pages(pt, mem, lo, hi),
    ensures
        area.frames().dom().finite(),
{
    let range = Set::new(|v: u64| lo <= v < hi);
    assert(range.finite()) by {
        u64_range_is_finite(lo, hi);
    }
    assert(area.frames().dom().subset_of(range));
    vstd::set_lib::lemma_len_subset(area.frames().dom(), range);
}

/// The set of the words from `lo` up to `hi` is finite, and has as many
/// members as there are words from `lo` up to `hi`.
proof fn u64_range_is_finite(lo: u64, hi: u64)
    ensures
        Set::new(|v: u64| lo <= v < hi).finite(),
        lo <= hi ==> Set::new(|v: u64| lo <= v < hi).len() == hi - lo,
        lo > hi ==> Set::new(|v: u64| lo <= v < hi).len() == 0,
    decreases hi - lo,
{
    let range = Set::new(|v: u64| lo <= v < hi);
    if lo >= hi {
        assert(range =~= Set::<u64>::empty());
    } else {
        let below = Set::new(|v: u64| lo <= v < (hi - 1) as u64);
        u64_range_is_finite(lo, (hi - 1) as u64);
        assert(!below.contains((hi - 1) as u64));
        assert(range =~= below.insert((hi - 1) as u64));
    }
}

/// A framed area that is mapped as a whole holds a frame for each of its
/// pages: as many frames as it has pages.
pub proof fn framed_area_holds_a_frame_a_page(area: &MapArea, pt: &PageTable, mem: &PhysMemory)
    requires
        area.map_type() == MapType::Framed,
        area.maps_pages(pt, mem, area.start_vpn(), area.end_vpn()),
    ensures
        area.frames().len() == area.page_count(),
{
    let range = Set::new(|v: u64| area.start_vpn() <= v < area.end_vpn());
    u64_range_is_finite(area.start_vpn(), area.end_vpn());
    assert(area.frames().dom() =~= range);
}

/// A page given as `data` followed by zero bytes up to the page size.
pub open spec fn zero_padded(data: Seq<u8>) -> Seq<u8> {
    data + Seq::new((4096 - data.len()) as nat, |i: int| 0u8)
}

} // verus!
