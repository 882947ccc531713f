//! Address spaces.
//!
//! An address space is a page table together with the areas that are mapped
//! in it. Areas come and go as a whole; no two of them share a page or a
//! frame.

use vstd::prelude::*;
use crate::address::{
    canonical_pages_have_own_slots,
    canonical_range,
    page_address_round_trip,
    page_ceil,
    page_floor,
    page_start,
    PhysAddr,
    PhysPageNum,
    VirtAddr,
    VirtPageNum,
};
use crate::config::{HALF_PAGES, PAGE_SIZE, TRAMPOLINE, VPN_LIMIT};
use crate::frame_allocator::{AllocatorState, StackFrameAllocator};
use crate::map_area::{
    framed_area_holds_a_frame_a_page,
    frames_for_pages,
    others_untouched,
    page_chunk,
    zero_padded,
    MapArea,
    MapPermission,
    MapType,
};
use crate::page_table::{
    added_for_one_more,
    bare_table_has_no_nodes,
    child,
    kept_is_added_for_none,
    lacking_at_most_two_a_page,
    lacking_by_nodes,
    lacking_given,
    lacking_none_once_added,
    lacking_of_one_page,
    leaves_for,
    leaves_of,
    mids_for,
    mids_of,
    nodes_added_for,
    nodes_added_for_pages,
    nodes_kept,
    nodes_lacking,
    nodes_missing,
    token_of,
    tree_rests_on_its_nodes,
    PTEFlags,
    PageTable,
    PageTableEntry,
    FLAG_R,
    FLAG_V,
    FLAG_X,
};
use crate::phys_memory::PhysMemory;

verus! {

/// Whether the page ranges `a_start .. a_end` and `b_start .. b_end` meet.
pub open spec fn overlaps(a_start: u64, a_end: u64, b_start: u64, b_end: u64) -> bool {
    a_start < b_end && b_start < a_end
}

/// Area `a` lies in one canonical half below the landing pad, is mapped as
/// a whole in `pt`, and its frames are sound.
pub open spec fn area_sound(
    a: MapArea,
    pt: PageTable,
    alloc: &StackFrameAllocator,
    mem: &PhysMemory,
) -> bool {
    &&& canonical_range(a.start_vpn(), a.end_vpn())
    &&& a.end_vpn() < VPN_LIMIT
    &&& a.maps_pages(&pt, mem, a.start_vpn(), a.end_vpn())
    &&& a.frames_sound(&pt, alloc, mem)
}

/// The areas `a` and `b` share no page and no frame.
pub open spec fn areas_apart(a: MapArea, b: MapArea) -> bool {
    &&& !overlaps(a.start_vpn(), a.end_vpn(), b.start_vpn(), b.end_vpn())
    &&& forall|v: u64, w: u64|
        #[trigger] a.frames().contains_key(v) && #[trigger] b.frames().contains_key(w) ==> a.frames()[v]
            != b.frames()[w]
}

/// How many frames the areas of `areas` own together.
pub open spec fn frames_total(areas: Seq<MapArea>) -> int
    decreases areas.len(),
{
    if areas.len() == 0 {
        0
    } else {
        frames_total(areas.drop_last()) + areas.last().frames().len()
    }
}

/// Taking an area out of a list takes its frames out of the total.
pub proof fn frames_total_without(areas: Seq<MapArea>, i: int)
    requires
        0 <= i < areas.len(),
    ensures
        frames_total(areas.remove(i)) == frames_total(areas) - areas[i].frames().len(),
    decreases areas.len(),
{
    if i == areas.len() - 1 {
        assert(areas.remove(i) =~= areas.drop_last());
    } else {
        frames_total_without(areas.drop_last(), i);
        assert(areas.remove(i).drop_last() =~= areas.drop_last().remove(i));
        assert(areas.remove(i).last() == areas.last());
    }
}

/// A construction was given up: the allocator has again as many free frames
/// as in `first`, all of them free then; what was in use then still is; and
/// memory differs from `first_mem` only in frames that were free then.
pub open spec fn given_up(
    first: AllocatorState,
    first_mem: &PhysMemory,
    alloc: &StackFrameAllocator,
    mem: &PhysMemory,
) -> bool {
    &&& alloc.serves(mem)
    &&& alloc@.free_count() == first.free_count()
    &&& forall|q: u64| alloc@.is_free(q) ==> first.is_free(q)
    &&& forall|q: u64| first.is_allocated(q) ==> alloc@.is_allocated(q)
    &&& others_untouched(first_mem, mem, Set::empty(), first)
}

/// Pages that are to be mapped, and how they get their frames.
pub struct PlannedArea {
    pub first: u64,
    pub end: u64,
    pub map_type: MapType,
}

/// How many frames it takes to map the areas of `plan`, one after the other,
/// in a table that has the nodes at `mids` and `leaves`: for each area the
/// nodes that the table lacks for its pages when its turn comes, and a frame
/// for each page of a framed area.
pub open spec fn frames_for_areas(plan: Seq<PlannedArea>, mids: Set<int>, leaves: Set<int>) -> int
    decreases plan.len(),
{
    if plan.len() == 0 {
        0
    } else {
        let area = plan[0];
        lacking_given(mids, leaves, area.first, area.end) + (if area.map_type == MapType::Framed
            && area.first <= area.end {
            area.end - area.first
        } else {
            0
        }) + frames_for_areas(
            plan.skip(1),
            mids.union(mids_for(area.first, area.end)),
            leaves.union(leaves_for(area.first, area.end)),
        )
    }
}

/// Mapping takes frames, it gives none.
pub proof fn frames_for_areas_count_up(plan: Seq<PlannedArea>, mids: Set<int>, leaves: Set<int>)
    ensures
        0 <= frames_for_areas(plan, mids, leaves),
    decreases plan.len(),
{
    if plan.len() > 0 {
        let area = plan[0];
        frames_for_areas_count_up(
            plan.skip(1),
            mids.union(mids_for(area.first, area.end)),
            leaves.union(leaves_for(area.first, area.end)),
        );
    }
}


/// An address space: a page table, and the areas that are mapped in it.
pub struct MemorySet {
    page_table: PageTable,
    areas: Vec<MapArea>,
}

impl MemorySet {
    /// The page table of the address space.
    pub closed spec fn table(&self) -> PageTable {
        self.page_table
    }

    /// The areas of the address space, in the order in which they came.
    pub closed spec fn areas(&self) -> Seq<MapArea> {
        self.areas@
    }

    /// How many frames the address space holds: the nodes of its table and
    /// the frames of its areas.
    pub open spec fn frames_held(&self) -> int {
        self.table().owned().len() + frames_total(self.areas())
    }

    /// Whether page `v` lies in an area of the address space.
    pub open spec fn covers(&self, v: u64) -> bool {
        exists|i: int| 0 <= i < self.areas().len() && (#[trigger] self.areas()[i]).contains_vpn(v)
    }

    /// The table is sound. Every area is mapped as a whole, in one canonical
    /// half, below the landing pad. No two areas share a page or a frame.
    /// Nothing else is mapped but, perhaps, the landing pad.
    pub open spec fn inv(&self, alloc: &StackFrameAllocator, mem: &PhysMemory) -> bool {
        &&& self.table().inv(alloc, mem)
        &&& forall|i: int|
            0 <= i < self.areas().len() ==> area_sound(
                #[trigger] self.areas()[i],
                self.table(),
                alloc,
                mem,
            )
        &&& forall|i: int, j: int|
            0 <= i < j < self.areas().len() ==> areas_apart(
                #[trigger] self.areas()[i],
                #[trigger] self.areas()[j],
            )
        &&& forall|w: VirtPageNum|
            w.is_canonical() && #[trigger] self.table().is_mapped(mem, w) ==> w.0 == VPN_LIMIT - 1
                || self.covers(w.0)
    }

    /// What page `vpn` is mapped to, if it is mapped.
    pub open spec fn translation(&self, mem: &PhysMemory, vpn: VirtPageNum) -> Option<PageTableEntry> {
        self.table().translation(mem, vpn)
    }

    /// This address space is `before` after it took frames from the
    /// allocator: its table has the same root and owns what it owned and
    /// maybe more, which was free; what was in use still is, and nothing
    /// became free; memory differs from `old_mem` only in frames of the
    /// table and in frames that were free; and every frame that the address
    /// space holds it held before, or the frame was free.
    pub open spec fn grown_with(
        &self,
        before: &MemorySet,
        old_alloc: AllocatorState,
        new_alloc: AllocatorState,
        old_mem: &PhysMemory,
        new_mem: &PhysMemory,
    ) -> bool {
        &&& self.table().extends(&before.table())
        &&& self.table().new_frames_were_free(&before.table(), old_alloc)
        &&& forall|q: u64| old_alloc.is_allocated(q) ==> new_alloc.is_allocated(q)
        &&& forall|q: u64| new_alloc.is_free(q) ==> old_alloc.is_free(q)
        &&& others_untouched(old_mem, new_mem, self.table().owned_set(), old_alloc)
        &&& new_alloc.free_count() + self.frames_held() == old_alloc.free_count() + before.frames_held()
        &&& forall|p: PhysPageNum| #[trigger]
            self.holds(p) ==> before.holds(p) || old_alloc.is_free(p.0)
    }

    /// This address space has the areas of `before`, and after them one more:
    /// the pages `start .. end`, of the given kind and permissions.
    pub open spec fn gained_area(
        &self,
        before: &MemorySet,
        start: u64,
        end: u64,
        map_type: MapType,
        perm: MapPermission,
    ) -> bool {
        &&& self.areas().len() == before.areas().len() + 1
        &&& self.areas().drop_last() == before.areas()
        &&& self.areas().last().start_vpn() == start
        &&& self.areas().last().end_vpn() == end
        &&& self.areas().last().map_type() == map_type
        &&& self.areas().last().perm() == perm
    }

    /// What mapping the pages `lo .. hi` as a framed area has taken: the
    /// table has gained the nodes that it lacked for these pages and no
    /// others, and the allocator has given one frame for each of these
    /// nodes and one for each page.
    pub open spec fn took_frames_for(
        &self,
        before: &MemorySet,
        lo: u64,
        hi: u64,
        old_alloc: AllocatorState,
        new_alloc: AllocatorState,
        old_mem: &PhysMemory,
        new_mem: &PhysMemory,
    ) -> bool {
        &&& self.table().root() == before.table().root()
        &&& nodes_added_for_pages(old_mem, new_mem, before.table().root(), lo, hi)
        &&& new_alloc.free_count() == old_alloc.free_count() - frames_for_pages(
            old_mem,
            before.table().root(),
            lo,
            hi,
            MapType::Framed,
        )
    }

    /// This address space is `before` without its area `i`, which was exactly
    /// the bytes `start .. start + len`: the other areas are left, in their
    /// order; no page of the area is mapped any more, every other page is
    /// mapped as before; the frames of the area are free again; and the
    /// table is as it was, with every node that it had.
    pub open spec fn lost_area(
        &self,
        before: MemorySet,
        i: int,
        start: u64,
        len: u64,
        old_alloc: AllocatorState,
        new_alloc: AllocatorState,
        old_mem: &PhysMemory,
        new_mem: &PhysMemory,
    ) -> bool {
        &&& 0 <= i < before.areas().len()
        &&& Self::spans(before.areas()[i], start, start + len)
        &&& forall|k: int| 0 <= k < i ==> !Self::spans(#[trigger] before.areas()[k], start, start + len)
        &&& self.areas() == before.areas().remove(i)
        &&& self.table() == before.table()
        &&& forall|v: u64|
            before.areas()[i].contains_vpn(v) ==> !(#[trigger] self.table().is_mapped(
                new_mem,
                VirtPageNum(v),
            ))
        &&& forall|w: VirtPageNum|
            w.is_canonical() && !before.areas()[i].contains_vpn(w.0) ==> #[trigger] self.translation(
                new_mem,
                w,
            ) == before.translation(old_mem, w)
        &&& new_alloc.free_count() == old_alloc.free_count() + before.areas()[i].frames().len()
        &&& new_alloc.free_count() + self.frames_held() == old_alloc.free_count() + before.frames_held()
        &&& forall|q: u64| before.areas()[i].owns(PhysPageNum(q)) ==> new_alloc.is_free(q)
        &&& forall|q: u64|
            old_alloc.is_allocated(q) && !before.areas()[i].owns(PhysPageNum(q))
                ==> new_alloc.is_allocated(q)
        &&& old_mem.same_but(new_mem, self.table().owned_set())
        &&& nodes_kept(old_mem, new_mem, self.table().root())
    }

    /// An address space with a root node and nothing else; nothing when no
    /// frame is free, and then nothing has changed.
    pub fn new_bare(alloc: &mut StackFrameAllocator, mem: &mut PhysMemory) -> (space: Option<MemorySet>)
        requires
            old(alloc).serves(old(mem)),
        ensures
            final(alloc).serves(final(mem)),
            space.is_none() <==> old(alloc)@.free_count() == 0,
            space.is_none() ==> *final(mem) == *old(mem) && *final(alloc) == *old(alloc),
            space matches Some(s) ==> {
                &&& s.inv(final(alloc), final(mem))
                &&& s.areas().len() == 0
                &&& s.table().owned() == seq![s.table().root()]
                &&& old(alloc)@.is_free(s.table().root().0)
                &&& final(alloc)@.took_from(old(alloc)@, 1)
                &&& s.frames_held() == 1
                &&& old(mem).same_but(final(mem), set![s.table().root()])
                &&& forall|vpn: VirtPageNum| (#[trigger] s.table().walk(final(mem), vpn)).is_none()
                &&& forall|i: int|
                    0 <= i < 512 ==> (#[trigger] child(final(mem), s.table().root(), i)).is_none()
            },
    {
        match PageTable::new(alloc, mem) {
            Some(page_table) => {
                let space = MemorySet { page_table, areas: Vec::new() };
                proof {
                    assert forall|w: VirtPageNum|
                        w.is_canonical() && #[trigger] space.table().is_mapped(mem, w) implies w.0
                        == VPN_LIMIT - 1 || space.covers(w.0) by {
                        assert(space.table().walk(mem, w).is_none());
                    }
                }
                Some(space)
            },
            None => None,
        }
    }

    /// The token that names this address space to the hardware.
    pub fn token(&self) -> (token: u64)
        ensures
            token == token_of(self.table().root()),
    {
        self.page_table.token()
    }

    /// The entry that a walk for `vpn` ends at, valid or not; nothing when the
    /// walk does not reach the last level.
    pub fn translate(&self, vpn: VirtPageNum, mem: &PhysMemory) -> (entry: Option<PageTableEntry>)
        requires
            mem.wf(),
        ensures
            entry == self.table().walk(mem, vpn),
    {
        self.page_table.translate(vpn, mem)
    }

    /// The page table of the address space.
    pub fn page_table(&self) -> (table: &PageTable)
        ensures
            *table == self.table(),
    {
        &self.page_table
    }

    /// Area `i` of the address space.
    pub fn area(&self, i: usize) -> (area: &MapArea)
        requires
            i < self.areas().len(),
        ensures
            *area == self.areas()[i as int],
    {
        &self.areas[i]
    }

    /// How many areas the address space has.
    pub fn area_count(&self) -> (count: usize)
        ensures
            count == self.areas().len(),
    {
        self.areas.len()
    }

    /// Whether an area of the address space is exactly the pages
    /// `start_vpn .. end_vpn`.
    pub fn range(&self, start_vpn: u64, end_vpn: u64) -> (found: bool)
        ensures
            found == exists|i: int|
                0 <= i < self.areas().len() && (#[trigger] self.areas()[i]).start_vpn() == start_vpn
                    && self.areas()[i].end_vpn() == end_vpn,
    {
        let mut i: usize = 0;
        while i < self.areas.len()
            invariant
                i <= self.areas().len(),
                forall|k: int|
                    0 <= k < i ==> !((#[trigger] self.areas()[k]).start_vpn() == start_vpn
                        && self.areas()[k].end_vpn() == end_vpn),
            decreases self.areas().len() - i,
        {
            let item = &self.areas[i];
            if start_vpn == item.get_start().0 && item.get_end().0 == end_vpn {
                return true;
            }
            i += 1;
        }
        false
    }

    /// Maps `map_area` and takes it into the address space, after copying
    /// `data`, if there is any, into its pages. The area must meet no area
    /// of the address space. When the allocator runs out on the way, the
    /// area is not taken in and nothing of it stays mapped.
    fn push(
        &mut self,
        map_area: MapArea,
        data: Option<&[u8]>,
        alloc: &mut StackFrameAllocator,
        mem: &mut PhysMemory,
    ) -> (done: bool)
        requires
            old(self).inv(old(alloc), old(mem)),
            canonical_range(map_area.start_vpn(), map_area.end_vpn()),
            map_area.end_vpn() < VPN_LIMIT,
            map_area.frames() == Map::<u64, PhysPageNum>::empty(),
            forall|i: int|
                0 <= i < old(self).areas().len() ==> !overlaps(
                    map_area.start_vpn(),
                    map_area.end_vpn(),
                    (#[trigger] old(self).areas()[i]).start_vpn(),
                    old(self).areas()[i].end_vpn(),
                ),
            data matches Some(d) ==> map_area.map_type() == MapType::Framed && d@.len()
                <= map_area.page_count() * 4096,
        ensures
            final(self).inv(final(alloc), final(mem)),
            final(self).grown_with(old(self), old(alloc)@, final(alloc)@, old(mem), final(mem)),
            old(alloc)@.free_count() >= 3 * map_area.page_count() ==> done,
            final(alloc)@.free_count() >= old(alloc)@.free_count() - 3 * map_area.page_count(),
            done == (old(alloc)@.free_count() >= frames_for_pages(
                old(mem),
                old(self).table().root(),
                map_area.start_vpn(),
                map_area.end_vpn(),
                map_area.map_type(),
            )),
            done ==> final(alloc)@.free_count() == old(alloc)@.free_count() - frames_for_pages(
                old(mem),
                old(self).table().root(),
                map_area.start_vpn(),
                map_area.end_vpn(),
                map_area.map_type(),
            ),
            done ==> nodes_added_for_pages(
                old(mem),
                final(mem),
                old(self).table().root(),
                map_area.start_vpn(),
                map_area.end_vpn(),
            ),
            forall|w: VirtPageNum|
                w.is_canonical() && !map_area.contains_vpn(w.0) ==> #[trigger] final(self).translation(
                    final(mem),
                    w,
                ) == old(self).translation(old(mem), w),
            !done ==> final(self).areas() == old(self).areas() && forall|w: VirtPageNum|
                w.is_canonical() ==> #[trigger] final(self).translation(final(mem), w)
                    == old(self).translation(old(mem), w),
            done ==> {
                &&& final(self).areas().len() == old(self).areas().len() + 1
                &&& final(self).areas().drop_last() == old(self).areas()
                &&& final(self).areas().last().same_shape(&map_area)
                &&& final(self).areas().last().holds_data(final(mem), data)
                &&& forall|v: u64| #[trigger]
                    final(self).areas().last().frames().contains_key(v) ==> old(alloc)@.is_free(
                        final(self).areas().last().frames()[v].0,
                    )
            },
    {
        let ghost space0 = *self;
        let ghost mem0 = *mem;
        let ghost alloc0 = alloc@;
        let ghost table0 = self.page_table;
        let mut map_area = map_area;
        let ghost shape = map_area;
        proof {
            assert forall|v: u64| map_area.contains_vpn(v) implies !(#[trigger] self.page_table.is_mapped(
                mem,
                VirtPageNum(v),
            )) by {
                let w = VirtPageNum(v);
                if self.page_table.is_mapped(mem, w) {
                    assert(w.is_canonical());
                    assert(self.covers(v));
                    let i = choose|i: int|
                        0 <= i < self.areas().len() && (#[trigger] self.areas()[i]).contains_vpn(v);
                    assert(overlaps(
                        map_area.start_vpn(),
                        map_area.end_vpn(),
                        self.areas()[i].start_vpn(),
                        self.areas()[i].end_vpn(),
                    ));
                }
            }
        }
        let done = map_area.map(&mut self.page_table, alloc, mem);
        let ghost mem1 = *mem;
        let ghost table1 = self.page_table;
        if done {
            match data {
                Some(d) => {
                    proof {
                        assert(map_area.frames_apart(&self.page_table, mem));
                    }
                    map_area.copy_data(&self.page_table, d, mem);
                },
                None => {},
            }
        }
        proof {
            if done {
                kept_is_added_for_none(&mem1, mem, table0.root(), 0);
            }
            // the table and the allocator
            assert(table1.inv(alloc, mem)) by {
                if done && data.is_some() {
                    assert(alloc.serves(mem));
                }
            }
            assert forall|w: VirtPageNum| #[trigger] table1.translation(mem, w) == table1.translation(
                &mem1,
                w,
            ) by {
                assert(table1.walk(mem, w) == table1.walk(&mem1, w));
            }
            assert forall|p: PhysPageNum|
                mem0.contains(p) && !table1.owned_set().contains(p) && !alloc0.is_free(
                    p.0,
                ) implies #[trigger] mem.page(p) == mem0.page(p) by {
                assert(mem1.page(p) == mem0.page(p));
                if done && data.is_some() {
                    if map_area.owns(p) {
                        let v = choose|v: u64| #[trigger]
                            map_area.frames().contains_key(v) && map_area.frames()[v] == p;
                        assert(alloc0.is_free(map_area.frames()[v].0));
                    }
                    assert(mem.page(p) == mem1.page(p));
                }
            }
            // the areas that were there
            assert forall|i: int| 0 <= i < space0.areas().len() implies area_sound(
                #[trigger] space0.areas()[i],
                table1,
                alloc,
                mem,
            ) by {
                let a = space0.areas()[i];
                assert(area_sound(a, table0, old(alloc), &mem0));
                assert forall|v: u64| a.start_vpn() <= v
                    < a.end_vpn() implies #[trigger] table1.translation(
                    mem,
                    VirtPageNum(v),
                ) == Some(a.expected_entry(v)) by {
                    let w = VirtPageNum(v);
                    assert(w.is_canonical());
                    assert(!shape.contains_vpn(v));
                    assert(table1.translation(&mem1, w) == table0.translation(&mem0, w));
                    assert(table1.translation(mem, w) == table1.translation(&mem1, w));
                }
                assert forall|v: u64| #[trigger] a.frames().contains_key(v) implies alloc@.is_allocated(
                    a.frames()[v].0,
                ) && mem.contains(a.frames()[v]) && !table1.owned_set().contains(a.frames()[v]) by {
                    let p = a.frames()[v];
                    assert(alloc0.is_allocated(p.0));
                    if table1.owned_set().contains(p) {
                        table1.owned_before_or_free(&table0, alloc0, p);
                    }
                }
            }
        }
        if done {
            self.areas.push(map_area);
            proof {
                let n = space0.areas().len() as int;
                assert(self.areas().drop_last() =~= space0.areas());
                assert(self.areas()[n] == map_area);
                assert(frames_total(self.areas()) == frames_total(space0.areas())
                    + map_area.frames().len());
                assert forall|i: int| 0 <= i < self.areas().len() implies area_sound(
                    #[trigger] self.areas()[i],
                    self.table(),
                    alloc,
                    mem,
                ) by {
                    if i < n {
                        assert(self.areas()[i] == space0.areas()[i]);
                    } else {
                        assert forall|v: u64|
                            map_area.start_vpn() <= v
                                < map_area.end_vpn() implies #[trigger] table1.translation(
                            mem,
                            VirtPageNum(v),
                        ) == Some(map_area.expected_entry(v)) by {
                            assert(table1.translation(mem, VirtPageNum(v)) == table1.translation(
                                &mem1,
                                VirtPageNum(v),
                            ));
                        }
                    }
                }
                assert forall|i: int, j: int| 0 <= i < j < self.areas().len() implies areas_apart(
                    #[trigger] self.areas()[i],
                    #[trigger] self.areas()[j],
                ) by {
                    assert(self.areas()[i] == space0.areas()[i]);
                    if j < n {
                        assert(self.areas()[j] == space0.areas()[j]);
                    } else {
                        let a = space0.areas()[i];
                        assert(area_sound(a, table0, old(alloc), &mem0));
                        assert forall|v: u64, w: u64|
                            #[trigger] a.frames().contains_key(v)
                                && #[trigger] map_area.frames().contains_key(
                                w,
                            ) implies a.frames()[v] != map_area.frames()[w] by {
                            assert(alloc0.is_allocated(a.frames()[v].0));
                            assert(alloc0.is_free(map_area.frames()[w].0));
                        }
                    }
                }
                assert forall|w: VirtPageNum|
                    w.is_canonical() && #[trigger] self.table().is_mapped(mem, w) implies w.0
                    == VPN_LIMIT - 1 || self.covers(w.0) by {
                    assert(table1.translation(mem, w) == table1.translation(&mem1, w));
                    if shape.contains_vpn(w.0) {
                        assert(self.areas()[n].contains_vpn(w.0));
                    } else {
                        assert(table1.translation(&mem1, w) == table0.translation(&mem0, w));
                        assert(table0.is_mapped(&mem0, w));
                        if w.0 != VPN_LIMIT - 1 {
                            assert(space0.covers(w.0));
                            let i = choose|i: int|
                                0 <= i < space0.areas().len()
                                    && (#[trigger] space0.areas()[i]).contains_vpn(
                                    w.0,
                                );
                            assert(self.areas()[i] == space0.areas()[i]);
                            assert(self.areas()[i].contains_vpn(w.0));
                        }
                    }
                }
                assert forall|w: VirtPageNum|
                    w.is_canonical() && !shape.contains_vpn(w.0) implies #[trigger] self.translation(
                    mem,
                    w,
                ) == space0.translation(&mem0, w) by {
                    assert(table1.translation(mem, w) == table1.translation(&mem1, w));
                    assert(table1.translation(&mem1, w) == table0.translation(&mem0, w));
                }
                assert(map_area.holds_data(mem, data)) by {
                    match data {
                        Some(d) => {
                            assert forall|v: u64| map_area.contains_vpn(v) implies #[trigger] mem.page(
                                map_area.frames()[v],
                            ) == zero_padded(page_chunk(d@, v - map_area.start_vpn())) by {
                                let p = map_area.frames()[v];
                                assert(map_area.frames().contains_key(v));
                                mem1.page_has_page_size(p);
                                assert(mem1.is_zero_page(p));
                                assert(mem.page(p) =~= zero_padded(
                                    page_chunk(d@, v - map_area.start_vpn()),
                                ));
                            }
                        },
                        None => {},
                    }
                }
            }
        } else {
            proof {
                assert(self.areas() == space0.areas());
                assert forall|i: int| 0 <= i < self.areas().len() implies area_sound(
                    #[trigger] self.areas()[i],
                    self.table(),
                    alloc,
                    mem,
                ) by {
                    assert(self.areas()[i] == space0.areas()[i]);
                }
                assert forall|w: VirtPageNum| w.is_canonical() implies #[trigger] self.translation(
                    mem,
                    w,
                ) == space0.translation(&mem0, w) by {
                    if shape.contains_vpn(w.0) {
                        assert(!table1.is_mapped(&mem1, VirtPageNum(w.0)));
                        assert(!table0.is_mapped(&mem0, VirtPageNum(w.0)));
                    } else {
                        assert(table1.translation(&mem1, w) == table0.translation(&mem0, w));
                    }
                }
                assert forall|w: VirtPageNum|
                    w.is_canonical() && #[trigger] self.table().is_mapped(mem, w) implies w.0
                    == VPN_LIMIT - 1 || self.covers(w.0) by {
                    assert(self.translation(mem, w) == space0.translation(&mem0, w));
                    assert(table0.is_mapped(&mem0, w));
                    if w.0 != VPN_LIMIT - 1 {
                        assert(space0.covers(w.0));
                        let i = choose|i: int|
                            0 <= i < space0.areas().len() && (#[trigger] space0.areas()[i]).contains_vpn(
                                w.0,
                            );
                        assert(self.areas()[i].contains_vpn(w.0));
                    }
                }
            }
        }
        proof {
            assert forall|p: PhysPageNum| #[trigger] self.holds(p) implies space0.holds(p)
                || alloc0.is_free(p.0) by {
                if self.table().owned_set().contains(p) {
                    self.table().owned_before_or_free(&table0, alloc0, p);
                } else {
                    let i = choose|i: int| 0 <= i < self.areas().len()
                        && (#[trigger] self.areas()[i]).owns(p);
                    let v = choose|v: u64| #[trigger]
                        self.areas()[i].frames().contains_key(v) && self.areas()[i].frames()[v] == p;
                    if i < space0.areas().len() {
                        assert(self.areas()[i] == space0.areas()[i]) by {
                            if done {
                                assert(self.areas().drop_last()[i] == space0.areas()[i]);
                            }
                        }
                        assert(space0.areas()[i].owns(p));
                    } else {
                        assert(self.areas()[i] == self.areas().last());
                    }
                }
            }
        }
        done
    }

    /// Takes a framed area over the pages from the page of `start_va` up to
    /// the first page boundary at or after `end_va` into the address space,
    /// with fresh frames of zero bytes. The area must meet no area of the
    /// address space. When the allocator has not all the frames that this
    /// takes, for the pages and for the nodes that the table lacks for them,
    /// nothing is done at all and the answer is `false`.
    pub fn insert_framed_area(
        &mut self,
        start_va: VirtAddr,
        end_va: VirtAddr,
        permission: MapPermission,
        alloc: &mut StackFrameAllocator,
        mem: &mut PhysMemory,
    ) -> (done: bool)
        requires
            old(self).inv(old(alloc), old(mem)),
            canonical_range(start_va.floor().0, end_va.ceil().0),
            end_va.ceil().0 < VPN_LIMIT,
            forall|i: int|
                0 <= i < old(self).areas().len() ==> !overlaps(
                    start_va.floor().0,
                    end_va.ceil().0,
                    (#[trigger] old(self).areas()[i]).start_vpn(),
                    old(self).areas()[i].end_vpn(),
                ),
        ensures
            final(self).inv(final(alloc), final(mem)),
            final(self).grown_with(old(self), old(alloc)@, final(alloc)@, old(mem), final(mem)),
            old(alloc)@.free_count() >= 3 * (end_va.ceil().0 - start_va.floor().0) ==> done,
            done == (old(alloc)@.free_count() >= frames_for_pages(
                old(mem),
                old(self).table().root(),
                start_va.floor().0,
                end_va.ceil().0,
                MapType::Framed,
            )),
            forall|w: VirtPageNum|
                w.is_canonical() && !(start_va.floor().0 <= w.0 < end_va.ceil().0)
                    ==> #[trigger] final(self).translation(final(mem), w) == old(self).translation(
                    old(mem),
                    w,
                ),
            !done ==> *final(self) == *old(self) && *final(alloc) == *old(alloc) && *final(mem)
                == *old(mem),
            done ==> final(self).gained_area(
                old(self),
                start_va.floor().0,
                end_va.ceil().0,
                MapType::Framed,
                permission,
            ) && final(self).areas().last().holds_data(final(mem), None),
            done ==> final(self).took_frames_for(
                old(self),
                start_va.floor().0,
                end_va.ceil().0,
                old(alloc)@,
                final(alloc)@,
                old(mem),
                final(mem),
            ),
    {
        let area = MapArea::new(start_va, end_va, MapType::Framed, permission);
        let first = area.get_start().0;
        let last = area.get_end().0;
        let lacking = self.page_table.lacking_nodes(first, last, mem);
        proof {
            lacking_at_most_two_a_page(mem, self.table().root(), first, last);
            self.grows_by_nothing(alloc, mem);
        }
        if !alloc.has_free(lacking + (last - first)) {
            return false;
        }
        self.push(area, None, alloc, mem)
    }

    /// Maps the landing-pad page, the last page below 2^52, to the frame at
    /// `strampoline` for reading and executing. The page is no part of any
    /// area.
    fn map_trampoline(
        &mut self,
        strampoline: PhysAddr,
        alloc: &mut StackFrameAllocator,
        mem: &mut PhysMemory,
    ) -> (done: bool)
        requires
            old(self).inv(old(alloc), old(mem)),
            !old(self).table().is_mapped(old(mem), VirtPageNum((VPN_LIMIT - 1) as u64)),
            strampoline.aligned(),
        ensures
            final(self).inv(final(alloc), final(mem)),
            final(self).grown_with(old(self), old(alloc)@, final(alloc)@, old(mem), final(mem)),
            final(self).areas() == old(self).areas(),
            done == (old(alloc)@.free_count() >= nodes_missing(
                old(mem),
                old(self).table().root(),
                VirtPageNum((VPN_LIMIT - 1) as u64),
            )),
            !done ==> *final(self) == *old(self) && *final(alloc) == *old(alloc) && *final(mem)
                == *old(mem),
            done ==> final(self).translation(final(mem), VirtPageNum((VPN_LIMIT - 1) as u64)) == Some(
                PageTableEntry::new(
                    strampoline.floor(),
                    PTEFlags::of(FLAG_R | FLAG_X).union(PTEFlags::of(FLAG_V)),
                ),
            ),
            done ==> final(alloc)@.free_count() == old(alloc)@.free_count() - nodes_missing(
                old(mem),
                old(self).table().root(),
                VirtPageNum((VPN_LIMIT - 1) as u64),
            ),
            forall|w: VirtPageNum|
                w.is_canonical() && w.0 != VPN_LIMIT - 1 ==> #[trigger] final(self).translation(
                    final(mem),
                    w,
                ) == old(self).translation(old(mem), w),
            done ==> nodes_added_for(
                old(mem),
                final(mem),
                old(self).table().root(),
                VirtPageNum((VPN_LIMIT - 1) as u64),
            ),
    {
        let ghost space0 = *self;
        let ghost table0 = self.page_table;
        let ghost mem0 = *mem;
        let ghost alloc0 = alloc@;
        let vpn = VirtAddr(TRAMPOLINE).floor();
        let ppn = PhysPageNum::from_addr(strampoline);
        assert(vpn.0 == VPN_LIMIT - 1);
        let done = self.page_table.map(vpn, ppn, PTEFlags::of(FLAG_R | FLAG_X), alloc, mem);
        proof {
            if done {
                let table1 = self.page_table;
                assert forall|w: VirtPageNum|
                    w.is_canonical() && w.0 != VPN_LIMIT - 1 implies #[trigger] self.translation(mem, w)
                    == space0.translation(&mem0, w) by {
                    assert(vpn.is_canonical());
                    if w.slot() == vpn.slot() {
                        canonical_pages_have_own_slots(w, vpn);
                    }
                }
                assert forall|p: PhysPageNum|
                    mem0.contains(p) && !table1.owned_set().contains(p) && !alloc0.is_free(
                        p.0,
                    ) implies #[trigger] mem.page(p) == mem0.page(p) by {}
                assert forall|i: int| 0 <= i < self.areas().len() implies area_sound(
                    #[trigger] self.areas()[i],
                    self.table(),
                    alloc,
                    mem,
                ) by {
                    let a = space0.areas()[i];
                    assert(area_sound(a, table0, old(alloc), &mem0));
                    assert forall|v: u64| a.start_vpn() <= v
                        < a.end_vpn() implies #[trigger] table1.translation(
                        mem,
                        VirtPageNum(v),
                    ) == Some(a.expected_entry(v)) by {
                        let w = VirtPageNum(v);
                        assert(w.is_canonical() && w.0 != VPN_LIMIT - 1);
                        assert(self.translation(mem, w) == space0.translation(&mem0, w));
                    }
                    assert forall|v: u64| #[trigger] a.frames().contains_key(v) implies alloc@.is_allocated(
                        a.frames()[v].0,
                    ) && mem.contains(a.frames()[v]) && !table1.owned_set().contains(a.frames()[v]) by {
                        let p = a.frames()[v];
                        assert(alloc0.is_allocated(p.0));
                        if table1.owned_set().contains(p) {
                            table1.owned_before_or_free(&table0, alloc0, p);
                        }
                    }
                }
                assert forall|w: VirtPageNum|
                    w.is_canonical() && #[trigger] self.table().is_mapped(mem, w) implies w.0
                    == VPN_LIMIT - 1 || self.covers(w.0) by {
                    if w.0 != VPN_LIMIT - 1 {
                        assert(self.translation(mem, w) == space0.translation(&mem0, w));
                        assert(table0.is_mapped(&mem0, w));
                        assert(space0.covers(w.0));
                        let i = choose|i: int|
                            0 <= i < space0.areas().len() && (#[trigger] space0.areas()[i]).contains_vpn(
                                w.0,
                            );
                        assert(self.areas()[i].contains_vpn(w.0));
                    }
                }
            } else {
                assert(self.page_table.owned().subrange(0, self.page_table.owned().len() as int)
                    =~= self.page_table.owned());
            }
        }
        proof {
            assert forall|p: PhysPageNum| #[trigger] self.holds(p) implies space0.holds(p)
                || alloc0.is_free(p.0) by {
                if self.table().owned_set().contains(p) {
                    if done {
                        self.table().owned_before_or_free(&table0, alloc0, p);
                    }
                } else {
                    let i = choose|i: int| 0 <= i < self.areas().len()
                        && (#[trigger] self.areas()[i]).owns(p);
                    assert(space0.areas()[i].owns(p));
                }
            }
        }
        done
    }

    /// Whether the pages `start_vpn .. end_vpn` meet an area of the address
    /// space.
    pub fn meets_area(&self, start_vpn: u64, end_vpn: u64) -> (yes: bool)
        ensures
            yes == exists|i: int|
                0 <= i < self.areas().len() && overlaps(
                    start_vpn,
                    end_vpn,
                    (#[trigger] self.areas()[i]).start_vpn(),
                    self.areas()[i].end_vpn(),
                ),
    {
        let mut i: usize = 0;
        while i < self.areas.len()
            invariant
                i <= self.areas().len(),
                forall|k: int|
                    0 <= k < i ==> !overlaps(
                        start_vpn,
                        end_vpn,
                        (#[trigger] self.areas()[k]).start_vpn(),
                        self.areas()[k].end_vpn(),
                    ),
            decreases self.areas().len() - i,
        {
            let area_start = self.areas[i].get_start();
            let area_end = self.areas[i].get_end();
            if start_vpn < area_end.0 && end_vpn > area_start.0 {
                return true;
            }
            i += 1;
        }
        false
    }

    /// The first area that is exactly the bytes `start .. end`.
    fn find_span(&self, start: u64, end: u64) -> (found: Option<usize>)
        ensures
            match found {
                Some(i) => i < self.areas().len() && Self::spans(self.areas()[i as int], start, end as int)
                    && forall|k: int|
                    0 <= k < i ==> !Self::spans(#[trigger] self.areas()[k], start, end as int),
                None => forall|k: int|
                    0 <= k < self.areas().len() ==> !Self::spans(
                        #[trigger] self.areas()[k],
                        start,
                        end as int,
                    ),
            },
    {
        let mut i: usize = 0;
        while i < self.areas.len()
            invariant
                i <= self.areas().len(),
                forall|k: int| 0 <= k < i ==> !Self::spans(#[trigger] self.areas()[k], start, end as int),
            decreases self.areas().len() - i,
        {
            let startv: VirtAddr = VirtAddr::from(self.areas[i].get_start());
            let endv: VirtAddr = VirtAddr::from(self.areas[i].get_end());
            if start == startv.0 && endv.0 == end {
                return Some(i);
            }
            i += 1;
        }
        None
    }

    /// Whether a request to map the bytes `start .. start + len` can be
    /// granted as far as the address space is concerned: the end fits a
    /// word, the pages lie in one canonical half below the landing pad, and
    /// they meet no area.
    pub open spec fn can_take(&self, start: u64, len: u64) -> bool {
        &&& start + len <= u64::MAX
        &&& canonical_range(page_floor(start), page_ceil((start + len) as u64))
        &&& page_ceil((start + len) as u64) < VPN_LIMIT
        &&& forall|i: int|
            0 <= i < self.areas().len() ==> !overlaps(
                page_floor(start),
                page_ceil((start + len) as u64),
                (#[trigger] self.areas()[i]).start_vpn(),
                self.areas()[i].end_vpn(),
            )
    }

    /// Maps the pages that hold the bytes `start .. start + len` to fresh
    /// frames of zero bytes, as a new framed area with `permission`. The
    /// request is refused when the pages meet an area of the address space,
    /// do not lie in one canonical half below the landing pad, when
    /// `start + len` does not fit a word, or when the allocator has not all
    /// the frames that the pages and the nodes for them take. A request that
    /// is refused changes nothing.
    pub fn mmap(
        &mut self,
        start: u64,
        len: u64,
        permission: MapPermission,
        alloc: &mut StackFrameAllocator,
        mem: &mut PhysMemory,
    ) -> (done: bool)
        requires
            old(self).inv(old(alloc), old(mem)),
        ensures
            final(self).inv(final(alloc), final(mem)),
            final(self).grown_with(old(self), old(alloc)@, final(alloc)@, old(mem), final(mem)),
            !old(self).can_take(start, len) ==> !done && *final(self) == *old(self) && *final(alloc)
                == *old(alloc) && *final(mem) == *old(mem),
            old(self).can_take(start, len) && old(alloc)@.free_count() >= 3 * (page_ceil(
                (start + len) as u64,
            ) - page_floor(start)) ==> done,
            done == (old(self).can_take(start, len) && old(alloc)@.free_count() >= frames_for_pages(
                old(mem),
                old(self).table().root(),
                page_floor(start),
                page_ceil((start + len) as u64),
                MapType::Framed,
            )),
            !done ==> *final(self) == *old(self) && *final(alloc) == *old(alloc) && *final(mem)
                == *old(mem),
            done ==> final(self).gained_area(
                old(self),
                page_floor(start),
                page_ceil((start + len) as u64),
                MapType::Framed,
                permission,
            ) && final(self).areas().last().holds_data(final(mem), None),
            done ==> final(self).took_frames_for(
                old(self),
                page_floor(start),
                page_ceil((start + len) as u64),
                old(alloc)@,
                final(alloc)@,
                old(mem),
                final(mem),
            ),
            forall|w: VirtPageNum|
                w.is_canonical() && !(page_floor(start) <= w.0 < page_ceil((start + len) as u64))
                    ==> #[trigger] final(self).translation(final(mem), w) == old(self).translation(
                    old(mem),
                    w,
                ),
    {
        proof {
            assert(self.page_table.owned().subrange(0, self.page_table.owned().len() as int)
                =~= self.page_table.owned());
        }
        let end = match start.checked_add(len) {
            Some(end) => end,
            None => {
                return false;
            },
        };
        let start_vpn = VirtAddr(start).floor();
        let end_vpn = VirtAddr(end).ceil();
        if !(end_vpn.0 <= HALF_PAGES || (start_vpn.0 >= VPN_LIMIT - HALF_PAGES && end_vpn.0
            < VPN_LIMIT)) {
            return false;
        }
        if self.meets_area(start_vpn.0, end_vpn.0) {
            return false;
        }
        proof {
            page_address_round_trip(start_vpn);
            page_address_round_trip(end_vpn);
        }
        self.insert_framed_area(VirtAddr::from(start_vpn), VirtAddr::from(end_vpn), permission, alloc, mem)
    }

    /// Whether area `a` is exactly the bytes `start .. end`.
    pub open spec fn spans(a: MapArea, start: u64, end: int) -> bool {
        page_start(a.start_vpn()) == start && page_start(a.end_vpn()) == end
    }

    /// Takes away the area that is exactly the bytes `start .. start + len`:
    /// unmaps its pages, hands its frames back and drops it from the list of
    /// areas. The answer is 0. When there is no such area, nothing changes
    /// and the answer is -1: a part of an area, or a range over several
    /// areas, is not taken away.
    pub fn remove(
        &mut self,
        start: u64,
        len: u64,
        alloc: &mut StackFrameAllocator,
        mem: &mut PhysMemory,
    ) -> (code: isize)
        requires
            old(self).inv(old(alloc), old(mem)),
        ensures
            final(self).inv(final(alloc), final(mem)),
            code == 0 || code == -1,
            code == 0 <==> exists|i: int|
                0 <= i < old(self).areas().len() && Self::spans(
                    #[trigger] old(self).areas()[i],
                    start,
                    start + len,
                ),
            code == -1 ==> *final(self) == *old(self) && *final(alloc) == *old(alloc) && *final(mem)
                == *old(mem),
            code == 0 ==> exists|i: int|
                0 <= i < old(self).areas().len() && #[trigger] final(self).lost_area(
                    *old(self),
                    i,
                    start,
                    len,
                    old(alloc)@,
                    final(alloc)@,
                    old(mem),
                    final(mem),
                ),
    {
        let end = match start.checked_add(len) {
            Some(end) => end,
            None => {
                proof {
                    assert forall|i: int| 0 <= i < self.areas().len() implies !Self::spans(
                        #[trigger] self.areas()[i],
                        start,
                        start + len,
                    ) by {}
                }
                return -1;
            },
        };
        let i: usize = match self.find_span(start, end) {
            Some(i) => i,
            None => {
                return -1;
            },
        };
        let ghost space0 = *self;
        let ghost table0 = self.page_table;
        let ghost mem0 = *mem;
        let ghost alloc0 = alloc@;
        let ghost n = i as int;
        proof {
            assert(area_sound(space0.areas()[n], table0, old(alloc), &mem0));
        }
        let mut area = self.areas.remove(i);
        let ghost gone = area;
        area.unmap(&mut self.page_table, alloc, mem);
        proof {
            let table1 = self.page_table;
            assert(self.areas() =~= space0.areas().remove(n));
            assert forall|k: int| 0 <= k < self.areas().len() implies area_sound(
                #[trigger] self.areas()[k],
                self.table(),
                alloc,
                mem,
            ) by {
                let j = if k < n {
                    k
                } else {
                    k + 1
                };
                let a = space0.areas()[j];
                assert(self.areas()[k] == a);
                assert(area_sound(a, table0, old(alloc), &mem0));
                assert(areas_apart(space0.areas()[j], space0.areas()[n]) || areas_apart(
                    space0.areas()[n],
                    space0.areas()[j],
                ));
                assert forall|v: u64| a.start_vpn() <= v
                    < a.end_vpn() implies #[trigger] table1.translation(
                    mem,
                    VirtPageNum(v),
                ) == Some(a.expected_entry(v)) by {
                    let w = VirtPageNum(v);
                    assert(w.is_canonical());
                    assert(!gone.contains_vpn(v));
                    assert(table1.walk(mem, w) == table0.walk(&mem0, w));
                    assert(table0.translation(&mem0, w) == Some(a.expected_entry(v)));
                }
                assert forall|v: u64| #[trigger] a.frames().contains_key(v) implies alloc@.is_allocated(
                    a.frames()[v].0,
                ) && mem.contains(a.frames()[v]) && !table1.owned_set().contains(a.frames()[v]) by {
                    let p = a.frames()[v];
                    assert(alloc0.is_allocated(p.0));
                    assert(!gone.owns(p)) by {
                        if gone.owns(p) {
                            let u = choose|u: u64| #[trigger]
                                gone.frames().contains_key(u) && gone.frames()[u] == p;
                            assert(a.frames()[v] != gone.frames()[u]);
                        }
                    }
                }
            }
            assert forall|k: int, l: int| 0 <= k < l < self.areas().len() implies areas_apart(
                #[trigger] self.areas()[k],
                #[trigger] self.areas()[l],
            ) by {
                let jk = if k < n {
                    k
                } else {
                    k + 1
                };
                let jl = if l < n {
                    l
                } else {
                    l + 1
                };
                assert(areas_apart(space0.areas()[jk], space0.areas()[jl]));
            }
            assert forall|w: VirtPageNum|
                w.is_canonical() && #[trigger] self.table().is_mapped(mem, w) implies w.0
                == VPN_LIMIT - 1 || self.covers(w.0) by {
                assert(!gone.contains_vpn(w.0)) by {
                    if gone.contains_vpn(w.0) {
                        assert(!table1.is_mapped(mem, VirtPageNum(w.0)));
                    }
                }
                assert(table1.walk(mem, w) == table0.walk(&mem0, w));
                assert(table0.is_mapped(&mem0, w));
                if w.0 != VPN_LIMIT - 1 {
                    assert(space0.covers(w.0));
                    let j = choose|j: int|
                        0 <= j < space0.areas().len() && (#[trigger] space0.areas()[j]).contains_vpn(
                            w.0,
                        );
                    assert(j != n);
                    let k = if j < n {
                        j
                    } else {
                        j - 1
                    };
                    assert(self.areas()[k] == space0.areas()[j]);
                    assert(self.areas()[k].contains_vpn(w.0));
                }
            }
            assert(table0.inv(alloc, mem));
            assert forall|w: VirtPageNum|
                w.is_canonical() && !gone.contains_vpn(w.0) implies #[trigger] self.translation(
                mem,
                w,
            ) == space0.translation(&mem0, w) by {
                assert(table1.walk(mem, w) == table0.walk(&mem0, w));
            }
            frames_total_without(space0.areas(), n);
            assert(self.lost_area(space0, n, start, len, alloc0, alloc@, &mem0, mem));
        }
        0
    }

    /// Whether the address space holds frame `p`: as a node of its table or
    /// as a frame of one of its areas.
    pub open spec fn holds(&self, p: PhysPageNum) -> bool {
        self.table().owned_set().contains(p) || exists|i: int|
            0 <= i < self.areas().len() && (#[trigger] self.areas()[i]).owns(p)
    }

    /// Gives the address space up: every frame of its areas and of its table
    /// goes back to the allocator, and no other frame changes sides.
    pub fn release(self, alloc: &mut StackFrameAllocator, mem: &PhysMemory)
        requires
            self.inv(old(alloc), mem),
        ensures
            final(alloc).serves(mem),
            forall|q: u64| self.holds(PhysPageNum(q)) ==> final(alloc)@.is_free(q),
            forall|q: u64|
                old(alloc)@.is_allocated(q) && !self.holds(PhysPageNum(q)) ==> final(alloc)@.is_allocated(
                    q,
                ),
            forall|q: u64| old(alloc)@.is_free(q) ==> final(alloc)@.is_free(q),
            forall|q: u64| final(alloc)@.is_free(q)
                ==> old(alloc)@.is_free(q) || self.holds(PhysPageNum(q)),
            final(alloc)@.free_count() == old(alloc)@.free_count() + self.frames_held(),
    {
        let ghost areas0 = self.areas();
        let ghost table0 = self.table();
        let page_table = self.page_table;
        let mut areas = self.areas;
        while areas.len() > 0
            invariant
                alloc.wf(),
                mem.wf(),
                areas0 == self.areas(),
                table0 == self.table(),
                areas@.len() <= areas0.len(),
                forall|i: int| 0 <= i < areas@.len() ==> #[trigger] areas@[i] == areas0[i],
                forall|i: int| 0 <= i < areas0.len()
                    ==> area_sound(#[trigger] areas0[i], table0, old(alloc), mem),
                forall|i: int, j: int|
                    0 <= i < j < areas0.len() ==> areas_apart(#[trigger] areas0[i], #[trigger] areas0[j]),
                table0.owned().no_duplicates(),
                forall|k: int| 0 <= k < table0.owned().len() ==> alloc@.is_allocated(
                    #[trigger] table0.owned()[k].0,
                ),
                forall|i: int, v: u64|
                    0 <= i < areas@.len() && (#[trigger] areas0[i].frames().contains_key(v))
                        ==> alloc@.is_allocated(areas0[i].frames()[v].0),
                forall|i: int, q: u64|
                    areas@.len() <= i < areas0.len() && #[trigger] areas0[i].owns(PhysPageNum(q))
                        ==> alloc@.is_free(q),
                forall|q: u64|
                    old(alloc)@.is_allocated(q) && !self.holds(PhysPageNum(q)) ==> alloc@.is_allocated(q),
                forall|q: u64| old(alloc)@.is_free(q) ==> alloc@.is_free(q),
                forall|q: u64| alloc@.is_free(q) ==> old(alloc)@.is_free(q) || self.holds(PhysPageNum(q)),
                alloc@.free_count() + frames_total(areas@) == old(alloc)@.free_count() + frames_total(
                    areas0,
                ),
            decreases areas@.len(),
        {
            let ghost n = areas@.len() - 1;
            let ghost before = alloc@;
            let ghost listed = areas@;
            let area = areas.pop().unwrap();
            proof {
                assert(area == areas0[n]);
                assert(area_sound(areas0[n], table0, old(alloc), mem));
                assert(areas@ =~= listed.drop_last());
                assert(listed.last() == area);
            }
            area.release(alloc);
            proof {
                assert forall|k: int| 0 <= k < table0.owned().len() implies alloc@.is_allocated(
                    #[trigger] table0.owned()[k].0,
                ) by {
                    let p = table0.owned()[k];
                    assert(table0.owned_set().contains(p));
                    if area.owns(p) {
                        let u = choose|u: u64| #[trigger]
                            area.frames().contains_key(u) && area.frames()[u] == p;
                        assert(!table0.owned_set().contains(area.frames()[u]));
                    }
                }
                assert forall|i: int, v: u64|
                    0 <= i < areas@.len() && (#[trigger] areas0[i].frames().contains_key(
                        v,
                    )) implies alloc@.is_allocated(areas0[i].frames()[v].0) by {
                    let p = areas0[i].frames()[v];
                    assert(before.is_allocated(p.0));
                    assert(areas_apart(areas0[i], areas0[n]));
                    if area.owns(p) {
                        let u = choose|u: u64| #[trigger]
                            area.frames().contains_key(u) && area.frames()[u] == p;
                        assert(areas0[i].frames()[v] != areas0[n].frames()[u]);
                    }
                }
                assert forall|q: u64|
                    old(alloc)@.is_allocated(q) && !self.holds(PhysPageNum(q)) implies alloc@.is_allocated(
                    q,
                ) by {
                    assert(!areas0[n].owns(PhysPageNum(q)));
                }
                assert forall|q: u64| alloc@.is_free(q) implies old(alloc)@.is_free(q) || self.holds(
                    PhysPageNum(q),
                ) by {
                    if !before.is_free(q) {
                        assert(areas0[n].owns(PhysPageNum(q)));
                    }
                }
            }
        }
        let ghost before = alloc@;
        proof {
            assert(areas@ =~= Seq::<MapArea>::empty());
        }
        page_table.release(alloc);
        proof {
            assert forall|q: u64| self.holds(PhysPageNum(q)) implies alloc@.is_free(q) by {
                if table0.owned_set().contains(PhysPageNum(q)) {
                    let k = choose|k: int|
                        0 <= k < table0.owned().len() && table0.owned()[k] == PhysPageNum(q);
                    assert(alloc@.is_free(table0.owned()[k].0));
                } else {
                    let i = choose|i: int| 0 <= i < areas0.len()
                        && (#[trigger] areas0[i]).owns(PhysPageNum(q));
                    assert(before.is_free(q));
                }
            }
            assert forall|q: u64| alloc@.is_free(q) implies old(alloc)@.is_free(q) || self.holds(
                PhysPageNum(q),
            ) by {
                if !before.is_free(q) {
                    if !table0.owned().contains(PhysPageNum(q)) {
                        assert(alloc@.is_allocated(q) == before.is_allocated(q));
                    }
                }
            }
            assert(alloc@.within(mem)) by {
                assert forall|p: u64| alloc@.is_free(p) implies mem.contains(PhysPageNum(p)) by {
                    if !old(alloc)@.is_free(p) {
                        if table0.owned_set().contains(PhysPageNum(p)) {
                            table0.nodes_lie_in_memory(mem, PhysPageNum(p));
                        } else {
                            let i = choose|i: int|
                                0 <= i < areas0.len() && (#[trigger] areas0[i]).owns(PhysPageNum(p));
                            assert(area_sound(areas0[i], table0, old(alloc), mem));
                        }
                    }
                }
            }
        }
    }

    /// This address space was built from frames that were free in `first`,
    /// and from nothing else: it is sound, it holds exactly as many frames as
    /// the allocator has fewer than `first` had, all of them free then; what
    /// was in use then still is; and memory differs from `first_mem` only in
    /// frames that were free then.
    pub open spec fn built_since(
        &self,
        first: AllocatorState,
        first_mem: &PhysMemory,
        alloc: &StackFrameAllocator,
        mem: &PhysMemory,
    ) -> bool {
        &&& self.inv(alloc, mem)
        &&& alloc@.free_count() + self.frames_held() == first.free_count()
        &&& forall|q: u64| self.holds(PhysPageNum(q)) ==> first.is_free(q)
        &&& forall|q: u64| alloc@.is_free(q) ==> first.is_free(q)
        &&& forall|q: u64| first.is_allocated(q) ==> alloc@.is_allocated(q)
        &&& others_untouched(first_mem, mem, Set::empty(), first)
    }

    /// An address space that grew, with frames that were free, from one that
    /// was built since `first` is itself built since `first`.
    proof fn growth_keeps_built(
        &self,
        before: &MemorySet,
        first: AllocatorState,
        first_mem: &PhysMemory,
        old_alloc: &StackFrameAllocator,
        old_mem: &PhysMemory,
        alloc: &StackFrameAllocator,
        mem: &PhysMemory,
    )
        requires
            before.built_since(first, first_mem, old_alloc, old_mem),
            self.inv(alloc, mem),
            self.grown_with(before, old_alloc@, alloc@, old_mem, mem),
        ensures
            self.built_since(first, first_mem, alloc, mem),
    {
        assert forall|q: u64| self.holds(PhysPageNum(q)) implies first.is_free(q) by {
            assert(before.holds(PhysPageNum(q)) || old_alloc@.is_free(q));
        }
        assert forall|p: PhysPageNum|
            first_mem.contains(p) && !first.is_free(p.0) implies #[trigger] mem.page(p) == first_mem.page(
            p,
        ) by {
            assert(old_mem.page(p) == first_mem.page(p));
            assert(!self.holds(p));
            assert(mem.page(p) == old_mem.page(p));
        }
    }

    /// The construction is on its plan: the frames that it has taken since
    /// `first`, and those that the areas of `rest` will take, make `total`.
    pub open spec fn on_plan(
        &self,
        first: AllocatorState,
        total: int,
        rest: Seq<PlannedArea>,
        alloc: &StackFrameAllocator,
        mem: &PhysMemory,
    ) -> bool {
        total == (first.free_count() - alloc@.free_count()) + frames_for_areas(
            rest,
            mids_of(mem, self.table().root()),
            leaves_of(mem, self.table().root()),
        )
    }

    /// Gives up an address space under construction: all its frames go back
    /// to the allocator.
    pub(crate) fn abandon(
        self,
        alloc: &mut StackFrameAllocator,
        mem: &PhysMemory,
        Ghost(first): Ghost<AllocatorState>,
        Ghost(first_mem): Ghost<&PhysMemory>,
    )
        requires
            self.built_since(first, first_mem, old(alloc), mem),
        ensures
            given_up(first, first_mem, final(alloc), mem),
    {
        self.release(alloc, mem);
        proof {
            assert forall|q: u64| alloc@.is_free(q) implies first.is_free(q) by {
                if !old(alloc)@.is_free(q) {
                    assert(self.holds(PhysPageNum(q)));
                }
            }
            assert forall|q: u64| first.is_allocated(q) implies alloc@.is_allocated(q) by {
                assert(old(alloc)@.is_allocated(q));
                if self.holds(PhysPageNum(q)) {
                    assert(first.is_free(q));
                }
            }
        }
    }

    /// A bare address space, as the start of a construction.
    pub(crate) fn begin(alloc: &mut StackFrameAllocator, mem: &mut PhysMemory) -> (space: Option<MemorySet>)
        requires
            old(alloc).serves(old(mem)),
        ensures
            space.is_none() <==> old(alloc)@.free_count() == 0,
            space.is_none() ==> given_up(old(alloc)@, old(mem), final(alloc), final(mem)),
            space matches Some(s) ==> {
                &&& s.built_since(old(alloc)@, old(mem), final(alloc), final(mem))
                &&& s.areas().len() == 0
                &&& final(alloc)@.free_count() == old(alloc)@.free_count() - 1
                &&& forall|vpn: VirtPageNum| !(#[trigger] s.table().is_mapped(final(mem), vpn))
                &&& forall|plan: Seq<PlannedArea>| #[trigger]
                    s.on_plan(
                        old(alloc)@,
                        1 + frames_for_areas(plan, Set::empty(), Set::empty()),
                        plan,
                        final(alloc),
                        final(mem),
                    )
            },
    {
        let space = Self::new_bare(alloc, mem);
        proof {
            match &space {
                Some(s) => {
                    bare_table_has_no_nodes(mem, s.table().root());
                    assert(frames_total(s.areas()) == 0);
                    assert forall|q: u64| s.holds(PhysPageNum(q)) implies old(alloc)@.is_free(q) by {
                        if s.table().owned().contains(PhysPageNum(q)) {
                            let i = choose|i: int|
                                0 <= i < s.table().owned().len() && s.table().owned()[i] == PhysPageNum(q);
                            assert(s.table().owned()[0] == s.table().root());
                        }
                    }
                    assert forall|vpn: VirtPageNum| !(#[trigger] s.table().is_mapped(mem, vpn)) by {
                        assert(s.table().walk(mem, vpn).is_none());
                    }
                },
                None => {},
            }
        }
        space
    }

    /// Takes `area`, the next on the plan, into an address space under
    /// construction, or gives the construction up when the allocator has not
    /// the frames that the area takes.
    pub(crate) fn add_area(
        self,
        area: MapArea,
        data: Option<&[u8]>,
        alloc: &mut StackFrameAllocator,
        mem: &mut PhysMemory,
        Ghost(first): Ghost<AllocatorState>,
        Ghost(first_mem): Ghost<&PhysMemory>,
        Ghost(total): Ghost<int>,
        Ghost(rest): Ghost<Seq<PlannedArea>>,
    ) -> (space: Option<MemorySet>)
        requires
            self.built_since(first, first_mem, old(alloc), old(mem)),
            self.on_plan(first, total, rest, old(alloc), old(mem)),
            rest.len() > 0,
            rest[0].first == area.start_vpn(),
            rest[0].end == area.end_vpn(),
            rest[0].map_type == area.map_type(),
            canonical_range(area.start_vpn(), area.end_vpn()),
            area.end_vpn() < VPN_LIMIT,
            area.frames() == Map::<u64, PhysPageNum>::empty(),
            forall|i: int|
                0 <= i < self.areas().len() ==> !overlaps(
                    area.start_vpn(),
                    area.end_vpn(),
                    (#[trigger] self.areas()[i]).start_vpn(),
                    self.areas()[i].end_vpn(),
                ),
            data matches Some(d) ==> area.map_type() == MapType::Framed && d@.len() <= area.page_count()
                * 4096,
        ensures
            space.is_none() ==> given_up(first, first_mem, final(alloc), final(mem)),
            space.is_none() ==> first.free_count() < total,
            space matches Some(s) ==> {
                &&& s.built_since(first, first_mem, final(alloc), final(mem))
                &&& s.on_plan(first, total, rest.skip(1), final(alloc), final(mem))
                &&& s.areas().len() == self.areas().len() + 1
                &&& s.areas().drop_last() == self.areas()
                &&& s.areas().last().same_shape(&area)
                &&& s.areas().last().holds_data(final(mem), data)
                &&& s.table().root() == self.table().root()
                &&& forall|w: VirtPageNum|
                    w.is_canonical() && !area.contains_vpn(w.0) ==> #[trigger] s.translation(final(mem), w)
                        == self.translation(old(mem), w)
                &&& forall|p: PhysPageNum|
                    self.holds(p) && !self.table().owned_set().contains(p) ==> #[trigger] final(mem).page(
                        p,
                    ) == old(mem).page(p)
            },
    {
        let mut space = self;
        let ghost before = space;
        let ghost old_alloc = *alloc;
        let ghost old_mem = *mem;
        let done = space.push(area, data, alloc, mem);
        proof {
            let root = before.table().root();
            let planned = rest[0];
            lacking_by_nodes(&old_mem, root, planned.first, planned.end);
            frames_for_areas_count_up(
                rest.skip(1),
                mids_of(&old_mem, root).union(mids_for(planned.first, planned.end)),
                leaves_of(&old_mem, root).union(leaves_for(planned.first, planned.end)),
            );
            space.growth_keeps_built(&before, first, first_mem, &old_alloc, &old_mem, alloc, mem);
            assert forall|p: PhysPageNum|
                before.holds(p) && !before.table().owned_set().contains(p) implies #[trigger] mem.page(
                p,
            ) == old_mem.page(p) by {
                let i = choose|i: int| 0 <= i < before.areas().len()
                    && (#[trigger] before.areas()[i]).owns(p);
                let v = choose|v: u64| #[trigger]
                    before.areas()[i].frames().contains_key(v) && before.areas()[i].frames()[v] == p;
                assert(area_sound(before.areas()[i], before.table(), &old_alloc, &old_mem));
                assert(old_alloc@.is_allocated(p.0));
                if space.table().owned_set().contains(p) {
                    space.table().owned_before_or_free(&before.table(), old_alloc@, p);
                }
            }
        }
        if done {
            Some(space)
        } else {
            space.abandon(alloc, mem, Ghost(first), Ghost(first_mem));
            None
        }
    }

    /// Maps the landing pad, the next on the plan, in an address space under
    /// construction, or gives the construction up when the allocator has not
    /// the frames for the nodes that the landing pad takes.
    pub(crate) fn add_trampoline(
        self,
        strampoline: PhysAddr,
        alloc: &mut StackFrameAllocator,
        mem: &mut PhysMemory,
        Ghost(first): Ghost<AllocatorState>,
        Ghost(first_mem): Ghost<&PhysMemory>,
        Ghost(total): Ghost<int>,
        Ghost(rest): Ghost<Seq<PlannedArea>>,
    ) -> (space: Option<MemorySet>)
        requires
            self.built_since(first, first_mem, old(alloc), old(mem)),
            self.on_plan(first, total, rest, old(alloc), old(mem)),
            rest.len() > 0,
            rest[0].first == VPN_LIMIT - 1,
            rest[0].end == VPN_LIMIT,
            rest[0].map_type == MapType::Identical,
            !self.table().is_mapped(old(mem), VirtPageNum((VPN_LIMIT - 1) as u64)),
            strampoline.aligned(),
        ensures
            space.is_none() ==> given_up(first, first_mem, final(alloc), final(mem)),
            space.is_none() ==> first.free_count() < total,
            space matches Some(s) ==> {
                &&& s.built_since(first, first_mem, final(alloc), final(mem))
                &&& s.on_plan(first, total, rest.skip(1), final(alloc), final(mem))
                &&& s.areas() == self.areas()
                &&& s.table().root() == self.table().root()
                &&& s.maps_landing_pad(final(mem), strampoline)
                &&& forall|w: VirtPageNum|
                    w.is_canonical() && w.0 != VPN_LIMIT - 1 ==> #[trigger] s.translation(final(mem), w)
                        == self.translation(old(mem), w)
            },
    {
        let mut space = self;
        let ghost before = space;
        let ghost old_alloc = *alloc;
        let ghost old_mem = *mem;
        let done = space.map_trampoline(strampoline, alloc, mem);
        proof {
            let root = before.table().root();
            let pad = (VPN_LIMIT - 1) as u64;
            lacking_by_nodes(&old_mem, root, pad, VPN_LIMIT);
            lacking_of_one_page(&old_mem, root, pad);
            frames_for_areas_count_up(
                rest.skip(1),
                mids_of(&old_mem, root).union(mids_for(pad, VPN_LIMIT)),
                leaves_of(&old_mem, root).union(leaves_for(pad, VPN_LIMIT)),
            );
            if done {
                kept_is_added_for_none(&old_mem, &old_mem, root, pad);
                added_for_one_more(&old_mem, &old_mem, mem, root, pad, pad);
            }
            space.growth_keeps_built(&before, first, first_mem, &old_alloc, &old_mem, alloc, mem);
        }
        if done {
            Some(space)
        } else {
            space.abandon(alloc, mem, Ghost(first), Ghost(first_mem));
            None
        }
    }

    /// The landing pad is mapped to the frame at `strampoline` for reading
    /// and executing.
    pub open spec fn maps_landing_pad(&self, mem: &PhysMemory, strampoline: PhysAddr) -> bool {
        self.translation(mem, VirtPageNum((VPN_LIMIT - 1) as u64)) == Some(
            PageTableEntry::new(
                strampoline.floor(),
                PTEFlags::of(FLAG_R | FLAG_X).union(PTEFlags::of(FLAG_V)),
            ),
        )
    }

    /// Whether this address space and `other` hold no frame in common.
    pub open spec fn apart_from(&self, other: &MemorySet) -> bool {
        forall|p: PhysPageNum| !(#[trigger] self.holds(p) && other.holds(p))
    }

    /// An address space rests on its own frames. However allocator and
    /// memory change, as long as the allocator still serves the memory and
    /// every frame that the address space holds is still in use and holds
    /// what it held, the address space is as sound as it was and every walk
    /// in it ends as before.
    pub proof fn rests_on_its_frames(
        &self,
        alloc: &StackFrameAllocator,
        mem: &PhysMemory,
        new_alloc: &StackFrameAllocator,
        new_mem: &PhysMemory,
    )
        requires
            self.inv(alloc, mem),
            new_alloc.serves(new_mem),
            new_mem.first_frame() == mem.first_frame(),
            new_mem.frame_count() == mem.frame_count(),
            forall|p: PhysPageNum| #[trigger]
                self.holds(p) ==> new_mem.page(p) == mem.page(p) && new_alloc@.is_allocated(p.0),
        ensures
            self.inv(new_alloc, new_mem),
            forall|w: VirtPageNum| #[trigger] self.table().walk(new_mem, w) == self.table().walk(mem, w),
    {
        let table = self.table();
        assert forall|p: PhysPageNum|
            mem.contains(p) && table.owned_set().contains(p) implies #[trigger] new_mem.page(p)
            == mem.page(p) by {
            assert(self.holds(p));
        }
        tree_rests_on_its_nodes(mem, new_mem, table.root(), table.owned_set());
        assert forall|k: int| 0 <= k < table.owned().len() implies new_alloc@.is_allocated(
            #[trigger] table.owned()[k].0,
        ) && new_mem.contains(table.owned()[k]) by {
            assert(table.owned().contains(table.owned()[k]));
            assert(self.holds(table.owned()[k]));
        }
        assert forall|w: VirtPageNum| #[trigger] self.table().walk(new_mem, w) == self.table().walk(
            mem,
            w,
        ) by {}
        assert forall|i: int| 0 <= i < self.areas().len() implies area_sound(
            #[trigger] self.areas()[i],
            table,
            new_alloc,
            new_mem,
        ) by {
            let a = self.areas()[i];
            assert(area_sound(a, table, alloc, mem));
            assert forall|v: u64| a.start_vpn() <= v < a.end_vpn() implies #[trigger] table.translation(
                new_mem,
                VirtPageNum(v),
            ) == Some(a.expected_entry(v)) by {
                assert(table.walk(new_mem, VirtPageNum(v)) == table.walk(mem, VirtPageNum(v)));
                assert(table.translation(mem, VirtPageNum(v)) == Some(a.expected_entry(v)));
            }
            assert forall|v: u64| #[trigger] a.frames().contains_key(v) implies new_alloc@.is_allocated(
                a.frames()[v].0,
            ) && new_mem.contains(a.frames()[v]) && !table.owned_set().contains(a.frames()[v]) by {
                assert(a.owns(a.frames()[v]));
                assert(self.holds(a.frames()[v]));
            }
        }
        assert forall|w: VirtPageNum|
            w.is_canonical() && #[trigger] self.table().is_mapped(new_mem, w) implies w.0 == VPN_LIMIT
            - 1 || self.covers(w.0) by {
            assert(table.walk(new_mem, w) == table.walk(mem, w));
            assert(table.is_mapped(mem, w));
        }
    }

    /// What one address space does leaves another alone. When `acting` grew
    /// to `grown` with frames that were free, an address space that held no
    /// frame in common with `acting` is as sound as it was, translates every
    /// page as before, and holds no frame in common with `grown`.
    pub proof fn untouched_by_growth(
        &self,
        acting: &MemorySet,
        grown: &MemorySet,
        alloc: &StackFrameAllocator,
        mem: &PhysMemory,
        new_alloc: &StackFrameAllocator,
        new_mem: &PhysMemory,
    )
        requires
            self.inv(alloc, mem),
            acting.inv(alloc, mem),
            self.apart_from(acting),
            grown.inv(new_alloc, new_mem),
            grown.grown_with(acting, alloc@, new_alloc@, mem, new_mem),
        ensures
            self.inv(new_alloc, new_mem),
            self.apart_from(grown),
            forall|w: VirtPageNum| #[trigger] self.table().walk(new_mem, w) == self.table().walk(mem, w),
    {
        assert forall|p: PhysPageNum| #[trigger] self.holds(p) implies alloc@.is_allocated(p.0)
            && mem.contains(p) by {
            self.held_frames_are_in_use(alloc, mem, p);
        }
        assert forall|p: PhysPageNum| #[trigger] self.holds(p) implies !grown.holds(p) by {
            assert(!acting.holds(p));
            if grown.holds(p) {
                assert(acting.holds(p) || alloc@.is_free(p.0));
            }
        }
        assert forall|p: PhysPageNum| #[trigger] self.holds(p) implies new_mem.page(p) == mem.page(p)
            && new_alloc@.is_allocated(p.0) by {
            assert(!grown.holds(p));
        }
        self.rests_on_its_frames(alloc, mem, new_alloc, new_mem);
    }

    /// Every frame that a sound address space holds is in use and lies in
    /// memory.
    pub proof fn held_frames_are_in_use(
        &self,
        alloc: &StackFrameAllocator,
        mem: &PhysMemory,
        p: PhysPageNum,
    )
        requires
            self.inv(alloc, mem),
            self.holds(p),
        ensures
            alloc@.is_allocated(p.0),
            mem.contains(p),
    {
        if self.table().owned_set().contains(p) {
            let k = choose|k: int| 0 <= k < self.table().owned().len() && self.table().owned()[k] == p;
            assert(alloc@.is_allocated(self.table().owned()[k].0));
            assert(mem.contains(self.table().owned()[k]));
        } else {
            let i = choose|i: int| 0 <= i < self.areas().len() && (#[trigger] self.areas()[i]).owns(p);
            let v = choose|v: u64| #[trigger]
                self.areas()[i].frames().contains_key(v) && self.areas()[i].frames()[v] == p;
            assert(area_sound(self.areas()[i], self.table(), alloc, mem));
        }
    }

    /// Taking an area away from one address space leaves another alone:
    /// when `acting` lost an area and became `left`, an address space that
    /// held no frame in common with `acting` is as sound as it was and
    /// translates every page as before.
    pub proof fn untouched_by_removal(
        &self,
        acting: MemorySet,
        left: &MemorySet,
        i: int,
        start: u64,
        len: u64,
        alloc: &StackFrameAllocator,
        mem: &PhysMemory,
        new_alloc: &StackFrameAllocator,
        new_mem: &PhysMemory,
    )
        requires
            self.inv(alloc, mem),
            acting.inv(alloc, mem),
            self.apart_from(&acting),
            left.inv(new_alloc, new_mem),
            left.lost_area(acting, i, start, len, alloc@, new_alloc@, mem, new_mem),
        ensures
            self.inv(new_alloc, new_mem),
            self.apart_from(left),
            forall|w: VirtPageNum| #[trigger] self.table().walk(new_mem, w) == self.table().walk(mem, w),
    {
        assert forall|p: PhysPageNum| #[trigger] self.holds(p) implies new_mem.page(p) == mem.page(p)
            && new_alloc@.is_allocated(p.0) by {
            self.held_frames_are_in_use(alloc, mem, p);
            assert(!acting.holds(p));
            assert(!acting.areas()[i].owns(p));
        }
        assert forall|p: PhysPageNum| #[trigger] self.holds(p) implies !left.holds(p) by {
            assert(!acting.holds(p));
            if left.holds(p) && !left.table().owned_set().contains(p) {
                let k = choose|k: int| 0 <= k < left.areas().len() && (#[trigger] left.areas()[k]).owns(p);
                let j = if k < i {
                    k
                } else {
                    k + 1
                };
                assert(left.areas()[k] == acting.areas()[j]);
                assert(acting.areas()[j].owns(p));
            }
        }
        self.rests_on_its_frames(alloc, mem, new_alloc, new_mem);
    }

    /// Building another address space, or giving one up half-built, leaves
    /// this one alone: when since `first` only frames that were free then
    /// were taken or changed, this address space, sound then, is sound now
    /// and translates every page as then.
    pub proof fn untouched_by_construction(
        &self,
        first: &StackFrameAllocator,
        first_mem: &PhysMemory,
        alloc: &StackFrameAllocator,
        mem: &PhysMemory,
    )
        requires
            self.inv(first, first_mem),
            alloc.serves(mem),
            forall|q: u64| first@.is_allocated(q) ==> alloc@.is_allocated(q),
            others_untouched(first_mem, mem, Set::empty(), first@),
        ensures
            self.inv(alloc, mem),
            forall|w: VirtPageNum| #[trigger] self.table().walk(mem, w) == self.table().walk(first_mem, w),
    {
        assert forall|p: PhysPageNum| #[trigger] self.holds(p) implies mem.page(p) == first_mem.page(p)
            && alloc@.is_allocated(p.0) by {
            self.held_frames_are_in_use(first, first_mem, p);
        }
        self.rests_on_its_frames(first, first_mem, alloc, mem);
    }

    /// An address space that did nothing has grown by nothing.
    pub proof fn grows_by_nothing(&self, alloc: &StackFrameAllocator, mem: &PhysMemory)
        ensures
            self.grown_with(self, alloc@, alloc@, mem, mem),
    {
        assert(self.table().owned().subrange(0, self.table().owned().len() as int) =~= self.table().owned(
            ));
    }

    /// What was mapped and unmapped can be mapped again. When an address
    /// space took the pages of the bytes `start .. start + len`, both ends on
    /// page boundaries and `len` not 0, and the area was then taken away
    /// again, the address space can take these pages as it could before, and
    /// the allocator has the frames that mapping them takes: the request
    /// will be granted once more.
    pub proof fn room_again_after_munmap(
        before: MemorySet,
        mapped: MemorySet,
        after: MemorySet,
        start: u64,
        len: u64,
        perm: MapPermission,
        i: int,
        first_alloc: AllocatorState,
        first_mem: &PhysMemory,
        alloc: &StackFrameAllocator,
        mem: &PhysMemory,
        new_alloc: AllocatorState,
        new_mem: &PhysMemory,
    )
        requires
            len > 0,
            start % PAGE_SIZE == 0,
            (start + len) % (PAGE_SIZE as int) == 0,
            before.can_take(start, len),
            first_alloc.free_count() >= frames_for_pages(
                first_mem,
                before.table().root(),
                page_floor(start),
                page_ceil((start + len) as u64),
                MapType::Framed,
            ),
            mapped.inv(alloc, mem),
            mapped.gained_area(
                &before,
                page_floor(start),
                page_ceil((start + len) as u64),
                MapType::Framed,
                perm,
            ),
            mapped.took_frames_for(
                &before,
                page_floor(start),
                page_ceil((start + len) as u64),
                first_alloc,
                alloc@,
                first_mem,
                mem,
            ),
            after.lost_area(mapped, i, start, len, alloc@, new_alloc, mem, new_mem),
        ensures
            after.can_take(start, len),
            new_alloc.free_count() >= frames_for_pages(
                new_mem,
                after.table().root(),
                page_floor(start),
                page_ceil((start + len) as u64),
                MapType::Framed,
            ),
            new_alloc.free_count() == first_alloc.free_count() - nodes_lacking(
                first_mem,
                before.table().root(),
                page_floor(start),
                page_ceil((start + len) as u64),
            ),
    {
        let lo = page_floor(start);
        let hi = page_ceil((start + len) as u64);
        let root = before.table().root();
        Self::munmap_undoes_mmap(before, mapped, after, start, len, perm, i, alloc, mem, new_alloc, new_mem);
        let gained = mapped.areas()[i];
        assert(gained == mapped.areas().last());
        assert(area_sound(gained, mapped.table(), alloc, mem));
        framed_area_holds_a_frame_a_page(&gained, &mapped.table(), mem);
        lacking_none_once_added(first_mem, mem, new_mem, root, lo, hi);
        lacking_by_nodes(first_mem, root, lo, hi);
    }

    /// Unmapping undoes mapping. When an address space has gained an area
    /// for the bytes `start .. start + len`, both ends on page boundaries and
    /// `len` not 0, then that area is the one and only area that is exactly
    /// these bytes; and once it was taken away again no page of it is
    /// mapped, no area is these pages, and the areas are those from before.
    pub proof fn munmap_undoes_mmap(
        before: MemorySet,
        mapped: MemorySet,
        after: MemorySet,
        start: u64,
        len: u64,
        perm: MapPermission,
        i: int,
        alloc: &StackFrameAllocator,
        mem: &PhysMemory,
        new_alloc: AllocatorState,
        new_mem: &PhysMemory,
    )
        requires
            len > 0,
            start + len <= u64::MAX,
            start % PAGE_SIZE == 0,
            (start + len) % (PAGE_SIZE as int) == 0,
            mapped.inv(alloc, mem),
            mapped.gained_area(
                &before,
                page_floor(start),
                page_ceil((start + len) as u64),
                MapType::Framed,
                perm,
            ),
            after.lost_area(mapped, i, start, len, alloc@, new_alloc, mem, new_mem),
        ensures
            Self::spans(mapped.areas().last(), start, start + len),
            i == before.areas().len(),
            after.areas() == before.areas(),
            forall|v: u64|
                page_floor(start) <= v < page_ceil((start + len) as u64)
                    ==> !(#[trigger] after.table().is_mapped(
                    new_mem,
                    VirtPageNum(v),
                )),
            forall|k: int|
                0 <= k < after.areas().len() ==> !((#[trigger] after.areas()[k]).start_vpn()
                    == page_floor(start) && after.areas()[k].end_vpn() == page_ceil(
                    (start + len) as u64,
                )),
    {
        let n = before.areas().len() as int;
        let first = page_floor(start);
        let last = page_ceil((start + len) as u64);
        let gained = mapped.areas()[n];
        assert(gained == mapped.areas().last());
        assert(area_sound(gained, mapped.table(), alloc, mem));
        assert(Self::spans(gained, start, start + len));
        assert forall|k: int| 0 <= k < n implies !((#[trigger] mapped.areas()[k]).start_vpn() == first
            && mapped.areas()[k].end_vpn() == last) && !Self::spans(
            mapped.areas()[k],
            start,
            start + len,
        ) by {
            let a = mapped.areas()[k];
            assert(area_sound(a, mapped.table(), alloc, mem));
            assert(areas_apart(mapped.areas()[k], mapped.areas()[n]));
        }
        assert(i == n);
        assert(mapped.areas().remove(n) =~= mapped.areas().drop_last());
        assert forall|k: int| 0 <= k
            < after.areas().len() implies !((#[trigger] after.areas()[k]).start_vpn()
            == first && after.areas()[k].end_vpn() == last) by {
            assert(after.areas()[k] == mapped.areas()[k]);
        }
    }
}

} // verus!
