use kernel_mm::config::{TRAMPOLINE, TRAP_CONTEXT};
use kernel_mm::map_area::{PERM_R, PERM_U, PERM_W, PERM_X};
use kernel_mm::page_table::{FLAG_R, FLAG_U, FLAG_V, FLAG_W};
use kernel_mm::{
    MapArea, MapPermission, MapType, MemorySet, PTEFlags, PageTable, PageTableEntry, PhysMemory, PhysPageNum,
    StackFrameAllocator, VirtAddr, VirtPageNum,
};

fn setup(frames: usize) -> (StackFrameAllocator, PhysMemory) {
    let first = 0x80400u64;
    let mem = PhysMemory::new(PhysPageNum(first), frames);
    let mut alloc = StackFrameAllocator::new();
    alloc.init(PhysPageNum(first), PhysPageNum(first + frames as u64));
    (alloc, mem)
}

fn free_frames(alloc: &StackFrameAllocator) -> u64 {
    let mut n = 0;
    while alloc.has_free(n + 1) {
        n += 1;
    }
    n
}

fn rw() -> MapPermission {
    MapPermission::of(PERM_R).union(MapPermission::of(PERM_W))
}

#[test]
fn permissions_sit_at_the_bits_of_the_entry_flags() {
    assert_eq!([PERM_R, PERM_W, PERM_X, PERM_U], [1 << 1, 1 << 2, 1 << 3, 1 << 4]);
    assert_eq!(rw().bits(), 0x06);
    assert!(rw().contains(MapPermission::of(PERM_W)));
    assert!(!rw().contains(MapPermission::of(PERM_X)));
    assert_eq!(MapPermission::from_bits(0x1e), Some(MapPermission::of(0x1e)));
    assert_eq!(MapPermission::from_bits(0x01), None);
    assert_eq!(MapPermission::from_bits(0x20), None);
    assert_eq!(MapPermission::from_bits(0), Some(MapPermission::empty()));
}

#[test]
fn an_area_spans_the_pages_that_its_addresses_touch() {
    let area = MapArea::new(VirtAddr(0x10234), VirtAddr(0x12001), MapType::Framed, rw());
    assert_eq!(area.get_start(), VirtPageNum(0x10));
    assert_eq!(area.get_end(), VirtPageNum(0x13));
    assert_eq!(area.get_type(), MapType::Framed);
    assert_eq!(area.get_perm(), rw());
    assert_eq!(area.frame_of(VirtPageNum(0x10)), None);
    let exact = MapArea::new(VirtAddr(0x10000), VirtAddr(0x12000), MapType::Identical, rw());
    assert_eq!((exact.get_start(), exact.get_end()), (VirtPageNum(0x10), VirtPageNum(0x12)));
}

#[test]
fn a_framed_area_gets_a_frame_of_its_own_for_every_page() {
    let (mut alloc, mut mem) = setup(16);
    let mut table = PageTable::new(&mut alloc, &mut mem).unwrap();
    let mut area = MapArea::new(VirtAddr(0x10000), VirtAddr(0x13000), MapType::Framed, rw());
    assert!(area.map(&mut table, &mut alloc, &mut mem));
    let mut frames = Vec::new();
    for v in 0x10..0x13 {
        let entry = table.translate(VirtPageNum(v), &mem).unwrap();
        assert_eq!(entry.flags(), PTEFlags::of(FLAG_R | FLAG_W | FLAG_V));
        assert_eq!(area.frame_of(VirtPageNum(v)), Some(entry.ppn()));
        assert!(alloc.is_allocated(entry.ppn()));
        assert!(mem.page_bytes(entry.ppn()).iter().all(|b| *b == 0));
        frames.push(entry.ppn());
    }
    frames.sort();
    frames.dedup();
    assert_eq!(frames.len(), 3);
    assert_eq!(area.frame_of(VirtPageNum(0x13)), None);
    // root, two nodes, three pages
    assert_eq!(free_frames(&alloc), 16 - 6);
    area.unmap(&mut table, &mut alloc, &mut mem);
    for v in 0x10..0x13 {
        assert!(!table.translate(VirtPageNum(v), &mem).unwrap().is_valid());
        assert_eq!(area.frame_of(VirtPageNum(v)), None);
    }
    assert_eq!(free_frames(&alloc), 16 - 3);
}

#[test]
fn an_identical_area_maps_every_page_to_the_frame_of_its_number() {
    let (mut alloc, mut mem) = setup(16);
    let mut table = PageTable::new(&mut alloc, &mut mem).unwrap();
    let mut area = MapArea::new(VirtAddr(0x8020_0000), VirtAddr(0x8020_2800), MapType::Identical, rw());
    assert!(area.map(&mut table, &mut alloc, &mut mem));
    for v in 0x80200..0x80203u64 {
        let entry = table.translate(VirtPageNum(v), &mem).unwrap();
        assert_eq!(entry, PageTableEntry::new(PhysPageNum(v), PTEFlags::of(FLAG_R | FLAG_W | FLAG_V)));
        assert_eq!(area.frame_of(VirtPageNum(v)), None);
    }
    assert_eq!(free_frames(&alloc), 16 - 3);
}

#[test]
fn single_pages_of_an_area_can_be_mapped_and_unmapped() {
    let (mut alloc, mut mem) = setup(16);
    let mut table = PageTable::new(&mut alloc, &mut mem).unwrap();
    let user = MapPermission::of(PERM_R).union(MapPermission::of(PERM_U));
    let mut area = MapArea::new(VirtAddr(0x10000), VirtAddr(0x14000), MapType::Framed, user);
    assert!(area.map_one(&mut table, VirtPageNum(0x11), &mut alloc, &mut mem));
    let entry = table.translate(VirtPageNum(0x11), &mem).unwrap();
    assert_eq!(entry.flags(), PTEFlags::of(FLAG_R | FLAG_U | FLAG_V));
    assert_eq!(area.frame_of(VirtPageNum(0x11)), Some(entry.ppn()));
    assert!(!table.translate(VirtPageNum(0x10), &mem).unwrap().is_valid());
    area.unmap_one(&mut table, VirtPageNum(0x11), &mut alloc, &mut mem);
    assert!(!table.translate(VirtPageNum(0x11), &mem).unwrap().is_valid());
    assert!(!alloc.is_allocated(entry.ppn()));
    assert_eq!(area.frame_of(VirtPageNum(0x11)), None);
}

#[test]
fn data_is_copied_page_by_page_and_the_rest_stays_zero() {
    let (mut alloc, mut mem) = setup(16);
    let mut table = PageTable::new(&mut alloc, &mut mem).unwrap();
    let mut area = MapArea::new(VirtAddr(0x10000), VirtAddr(0x13000), MapType::Framed, rw());
    assert!(area.map(&mut table, &mut alloc, &mut mem));
    let data: Vec<u8> = (0..5000u32).map(|i| (i % 251) as u8 + 1).collect();
    area.copy_data(&table, &data, &mut mem);
    let first = area.frame_of(VirtPageNum(0x10)).unwrap();
    let second = area.frame_of(VirtPageNum(0x11)).unwrap();
    let third = area.frame_of(VirtPageNum(0x12)).unwrap();
    assert_eq!(mem.page_bytes(first), &data[..4096]);
    assert_eq!(&mem.page_bytes(second)[..904], &data[4096..]);
    assert!(mem.page_bytes(second)[904..].iter().all(|b| *b == 0));
    assert!(mem.page_bytes(third).iter().all(|b| *b == 0));
    // shorter data at the start leaves what lies behind it
    area.copy_data(&table, &[0xee; 3], &mut mem);
    assert_eq!(&mem.page_bytes(first)[..4], &[0xee, 0xee, 0xee, data[3]]);
    area.copy_data(&table, &[], &mut mem);
    assert_eq!(&mem.page_bytes(first)[..4], &[0xee, 0xee, 0xee, data[3]]);
}

#[test]
fn an_area_that_cannot_be_mapped_as_a_whole_is_not_mapped_at_all() {
    let (mut alloc, mut mem) = setup(6);
    let mut table = PageTable::new(&mut alloc, &mut mem).unwrap();
    // five frames are free; four pages take two nodes and four frames
    let mut area = MapArea::new(VirtAddr(0x10000), VirtAddr(0x14000), MapType::Framed, rw());
    assert!(!area.map(&mut table, &mut alloc, &mut mem));
    for v in 0x10..0x14 {
        let entry = table.translate(VirtPageNum(v), &mem);
        assert!(entry.is_none() || !entry.unwrap().is_valid());
        assert_eq!(area.frame_of(VirtPageNum(v)), None);
    }
    // the two nodes stay with the table, the frames of the pages came back
    assert_eq!(table.frame_count(), 3);
    assert_eq!(free_frames(&alloc), 3);
    // three pages fit
    let mut small = MapArea::new(VirtAddr(0x10000), VirtAddr(0x13000), MapType::Framed, rw());
    assert!(small.map(&mut table, &mut alloc, &mut mem));
    assert_eq!(free_frames(&alloc), 0);
}

#[test]
fn a_bare_address_space_has_a_root_and_nothing_else() {
    let (mut alloc, mut mem) = setup(4);
    let space = MemorySet::new_bare(&mut alloc, &mut mem).unwrap();
    assert_eq!(space.area_count(), 0);
    assert_eq!(space.token(), (8u64 << 60) | 0x80400);
    assert_eq!(space.page_table().frame_count(), 1);
    assert_eq!(space.translate(VirtPageNum(0), &mem), None);
    assert_eq!(space.translate(VirtAddr(TRAMPOLINE).floor(), &mem), None);
    assert_eq!(space.translate(VirtAddr(TRAP_CONTEXT).floor(), &mem), None);
    let (mut none, mut nothing) = setup(0);
    assert!(MemorySet::new_bare(&mut none, &mut nothing).is_none());
}

#[test]
fn a_framed_area_is_inserted_with_zero_pages() {
    let (mut alloc, mut mem) = setup(16);
    let mut space = MemorySet::new_bare(&mut alloc, &mut mem).unwrap();
    assert!(space.insert_framed_area(VirtAddr(0x10010), VirtAddr(0x11ff0), rw(), &mut alloc, &mut mem));
    assert_eq!(space.area_count(), 1);
    assert!(space.range(0x10, 0x12));
    assert!(!space.range(0x10, 0x11));
    assert!(!space.range(0x11, 0x12));
    let area = space.area(0);
    assert_eq!((area.get_start(), area.get_end()), (VirtPageNum(0x10), VirtPageNum(0x12)));
    assert_eq!(area.get_type(), MapType::Framed);
    for v in 0x10..0x12 {
        let entry = space.translate(VirtPageNum(v), &mem).unwrap();
        assert_eq!(entry.flags(), PTEFlags::of(FLAG_R | FLAG_W | FLAG_V));
        assert_eq!(Some(entry.ppn()), area.frame_of(VirtPageNum(v)));
        assert!(mem.page_bytes(entry.ppn()).iter().all(|b| *b == 0));
    }
}

#[test]
fn mmap_of_pages_that_meet_an_area_fails_and_changes_nothing() {
    let (mut alloc, mut mem) = setup(32);
    let mut space = MemorySet::new_bare(&mut alloc, &mut mem).unwrap();
    assert!(space.mmap(0x1000_0000, 0x3000, rw(), &mut alloc, &mut mem));
    let free = free_frames(&alloc);
    let nodes = space.page_table().frame_count();
    let before: Vec<_> = (0x0fffe..0x10006).map(|v| space.translate(VirtPageNum(v), &mem)).collect();
    for (start, len) in [
        (0x1000_0000u64, 0x3000u64),
        (0x1000_0000, 0x1000),
        (0x1000_2000, 0x1000),
        (0x1000_1000, 0x8000),
        (0x0fff_f000, 0x1001),
        (0x0fff_0000, 0x20_0000),
        (0x1000_2fff, 1),
    ] {
        assert!(!space.mmap(start, len, rw(), &mut alloc, &mut mem), "{:#x} {:#x}", start, len);
        assert_eq!(space.area_count(), 1);
        assert!(space.range(0x10000, 0x10003));
        assert_eq!(free_frames(&alloc), free);
        assert_eq!(space.page_table().frame_count(), nodes);
        let after: Vec<_> = (0x0fffe..0x10006).map(|v| space.translate(VirtPageNum(v), &mem)).collect();
        assert_eq!(before, after);
    }
    // right before and right behind the area there is room
    assert!(space.mmap(0x0fff_f000, 0x1000, rw(), &mut alloc, &mut mem));
    assert!(space.mmap(0x1000_3000, 0x1000, rw(), &mut alloc, &mut mem));
    assert_eq!(space.area_count(), 3);
}

#[test]
fn mmap_refuses_pages_outside_the_canonical_halves() {
    let (mut alloc, mut mem) = setup(32);
    let mut space = MemorySet::new_bare(&mut alloc, &mut mem).unwrap();
    // across the end of the low half
    assert!(!space.mmap((1 << 38) - 0x1000, 0x2000, rw(), &mut alloc, &mut mem));
    // between the halves
    assert!(!space.mmap(1 << 40, 0x1000, rw(), &mut alloc, &mut mem));
    // the landing pad
    assert!(!space.mmap(TRAMPOLINE, 0x1000, rw(), &mut alloc, &mut mem));
    // the end does not fit a word
    assert!(!space.mmap(u64::MAX - 0xfff, 0x1000, rw(), &mut alloc, &mut mem));
    assert_eq!(space.area_count(), 0);
    assert_eq!(free_frames(&alloc), 31);
    // the last page of the low half and the page below the landing pad are fine
    assert!(space.mmap((1 << 38) - 0x1000, 0x1000, rw(), &mut alloc, &mut mem));
    assert!(space.mmap(TRAP_CONTEXT, 0x1000, rw(), &mut alloc, &mut mem));
}

#[test]
fn munmap_of_what_was_mapped_removes_it_entirely() {
    let (mut alloc, mut mem) = setup(32);
    let mut space = MemorySet::new_bare(&mut alloc, &mut mem).unwrap();
    assert!(space.mmap(0x2000_0000, 0x1000, rw(), &mut alloc, &mut mem));
    let free = free_frames(&alloc);
    assert!(space.mmap(0x1000_0000, 0x4000, rw(), &mut alloc, &mut mem));
    assert_eq!(space.area_count(), 2);
    for v in 0x10000..0x10004 {
        assert!(space.translate(VirtPageNum(v), &mem).unwrap().is_valid());
    }
    let other = space.translate(VirtPageNum(0x20000), &mem);
    assert_eq!(space.remove(0x1000_0000, 0x4000, &mut alloc, &mut mem), 0);
    assert_eq!(space.area_count(), 1);
    assert!(!space.range(0x10000, 0x10004));
    assert!(space.range(0x20000, 0x20001));
    for v in 0x10000..0x10004 {
        let entry = space.translate(VirtPageNum(v), &mem);
        assert!(entry.is_none() || !entry.unwrap().is_valid());
    }
    assert_eq!(space.translate(VirtPageNum(0x20000), &mem), other);
    // the four frames of the pages came back; the new node stays
    assert_eq!(free_frames(&alloc), free - 1);
    // and the range can be mapped again
    assert!(space.mmap(0x1000_0000, 0x4000, rw(), &mut alloc, &mut mem));
    assert_eq!(free_frames(&alloc), free - 5);
}

#[test]
fn munmap_takes_whole_areas_only() {
    let (mut alloc, mut mem) = setup(32);
    let mut space = MemorySet::new_bare(&mut alloc, &mut mem).unwrap();
    assert!(space.mmap(0x1000_0000, 0x2000, rw(), &mut alloc, &mut mem));
    assert!(space.mmap(0x1000_2000, 0x2000, rw(), &mut alloc, &mut mem));
    let free = free_frames(&alloc);
    for (start, len) in [
        (0x1000_0000u64, 0x1000u64),
        (0x1000_1000, 0x1000),
        (0x1000_0000, 0x4000),
        (0x1000_0000, 0x2001),
        (0x1000_0001, 0x1fff),
        (0x1000_0000, 0x1fff),
        (0x3000_0000, 0x1000),
        (u64::MAX, 2),
    ] {
        assert_eq!(space.remove(start, len, &mut alloc, &mut mem), -1, "{:#x} {:#x}", start, len);
        assert_eq!(space.area_count(), 2);
        assert_eq!(free_frames(&alloc), free);
        for v in 0x10000..0x10004 {
            assert!(space.translate(VirtPageNum(v), &mem).unwrap().is_valid());
        }
    }
    assert_eq!(space.remove(0x1000_2000, 0x2000, &mut alloc, &mut mem), 0);
    assert_eq!(space.remove(0x1000_0000, 0x2000, &mut alloc, &mut mem), 0);
    assert_eq!(space.area_count(), 0);
}

#[test]
fn mmap_without_all_the_frames_it_takes_changes_nothing() {
    let (mut alloc, mut mem) = setup(6);
    let mut space = MemorySet::new_bare(&mut alloc, &mut mem).unwrap();
    // four pages and two nodes take six frames, five are free
    assert!(!space.mmap(0x1000_0000, 0x4000, rw(), &mut alloc, &mut mem));
    assert_eq!(space.area_count(), 0);
    assert_eq!(space.page_table().frame_count(), 1);
    assert_eq!(free_frames(&alloc), 5);
    assert_eq!(alloc.allocate(), Some(PhysPageNum(0x80401)));
    alloc.dealloc(PhysPageNum(0x80401));
    for v in 0x10000..0x10004 {
        assert_eq!(space.translate(VirtPageNum(v), &mem), None);
    }
    // three pages and two nodes take five
    assert!(space.mmap(0x1000_0000, 0x3000, rw(), &mut alloc, &mut mem));
    assert_eq!(space.area_count(), 1);
    assert_eq!(free_frames(&alloc), 0);
}

#[test]
fn the_frames_that_mmap_takes_are_the_pages_and_the_nodes_that_are_lacking() {
    for (frames, start, len, fits) in [
        (7usize, 0x1000_0000u64, 0x4000u64, true),
        (6, 0x1000_0000, 0x4000, false),
        // two pages at the two sides of a node boundary: two pages, three nodes
        (6, 0x1ff000, 0x2000, true),
        (5, 0x1ff000, 0x2000, false),
        // and at the two sides of a boundary of the second level: two pages, four nodes
        (7, 0x3fff_f000, 0x2000, true),
        (6, 0x3fff_f000, 0x2000, false),
    ] {
        let (mut alloc, mut mem) = setup(frames);
        let mut space = MemorySet::new_bare(&mut alloc, &mut mem).unwrap();
        assert_eq!(space.mmap(start, len, rw(), &mut alloc, &mut mem), fits, "{} {:#x}", frames, start);
        assert_eq!(free_frames(&alloc), if fits { 0 } else { frames as u64 - 1 });
    }
    // nodes that are there are not taken again
    let (mut alloc, mut mem) = setup(6);
    let mut space = MemorySet::new_bare(&mut alloc, &mut mem).unwrap();
    assert!(space.mmap(0x1000_0000, 0x1000, rw(), &mut alloc, &mut mem));
    assert!(space.mmap(0x1000_1000, 0x2000, rw(), &mut alloc, &mut mem));
    assert_eq!(free_frames(&alloc), 0);
}

#[test]
fn releasing_an_address_space_frees_all_its_frames() {
    let (mut alloc, mut mem) = setup(32);
    let mut space = MemorySet::new_bare(&mut alloc, &mut mem).unwrap();
    assert!(space.mmap(0x1000_0000, 0x4000, rw(), &mut alloc, &mut mem));
    assert!(space.mmap(0x4000_0000, 0x2000, rw(), &mut alloc, &mut mem));
    assert!(free_frames(&alloc) < 32 - 6);
    space.release(&mut alloc, &mem);
    assert_eq!(free_frames(&alloc), 32);
}

#[test]
fn an_address_space_can_be_read_through_its_token() {
    let (mut alloc, mut mem) = setup(16);
    let mut space = MemorySet::new_bare(&mut alloc, &mut mem).unwrap();
    assert!(space.mmap(0x1000_0000, 0x1000, rw(), &mut alloc, &mut mem));
    let view = PageTable::from_token(space.token());
    assert_eq!(view.translate(VirtPageNum(0x10000), &mem), space.translate(VirtPageNum(0x10000), &mem));
    assert!(view.translate(VirtPageNum(0x10000), &mem).unwrap().is_valid());
}
