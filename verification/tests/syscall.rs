use kernel_mm::map_area::{PERM_R, PERM_U, PERM_W, PERM_X};
use kernel_mm::page_table::FLAG_V;
use kernel_mm::{
    sys_mmap, sys_munmap, sys_set_priority, MapPermission, MapType, MemorySet, PTEFlags, PhysMemory, PhysPageNum,
    StackFrameAllocator, VirtPageNum,
};

fn setup(frames: usize) -> (MemorySet, StackFrameAllocator, PhysMemory) {
    let first = 0x80400u64;
    let mut mem = PhysMemory::new(PhysPageNum(first), frames);
    let mut alloc = StackFrameAllocator::new();
    alloc.init(PhysPageNum(first), PhysPageNum(first + frames as u64));
    let space = MemorySet::new_bare(&mut alloc, &mut mem).unwrap();
    (space, alloc, mem)
}

fn mapped(space: &MemorySet, mem: &PhysMemory, vpn: u64) -> bool {
    match space.translate(VirtPageNum(vpn), mem) {
        Some(entry) => entry.is_valid(),
        None => false,
    }
}

#[test]
fn mmap_maps_the_pages_of_the_request_for_user_mode() {
    let (mut space, mut alloc, mut mem) = setup(32);
    assert_eq!(sys_mmap(&mut space, 0x1000_0000, 4096, 3, &mut alloc, &mut mem), 0);
    assert_eq!(space.area_count(), 1);
    let area = space.area(0);
    assert_eq!(area.get_type(), MapType::Framed);
    assert_eq!(area.get_perm(), MapPermission::of(PERM_U | PERM_R | PERM_W));
    let entry = space.translate(VirtPageNum(0x10000), &mem).unwrap();
    assert_eq!(entry.flags(), PTEFlags::of(PERM_U | PERM_R | PERM_W | FLAG_V));
    assert!(mem.page_bytes(entry.ppn()).iter().all(|b| *b == 0));
    assert!(!mapped(&space, &mem, 0x10001));
    assert!(!mapped(&space, &mem, 0xffff));
}

#[test]
fn mmap_rounds_the_length_up_to_whole_pages() {
    let (mut space, mut alloc, mut mem) = setup(32);
    assert_eq!(sys_mmap(&mut space, 0x1000_0000, 4097, 1, &mut alloc, &mut mem), 0);
    assert!(space.range(0x10000, 0x10002));
    assert!(mapped(&space, &mem, 0x10000) && mapped(&space, &mem, 0x10001));
    assert!(!mapped(&space, &mem, 0x10002));
}

#[test]
fn each_bit_of_the_request_grants_one_permission() {
    for (prot, perm) in [
        (1u64, PERM_R),
        (2, PERM_W),
        (3, PERM_R | PERM_W),
        (4, PERM_X),
        (5, PERM_R | PERM_X),
        (6, PERM_W | PERM_X),
        (7, PERM_R | PERM_W | PERM_X),
    ] {
        let (mut space, mut alloc, mut mem) = setup(32);
        assert_eq!(sys_mmap(&mut space, 0x1000_0000, 4096, prot, &mut alloc, &mut mem), 0);
        let entry = space.translate(VirtPageNum(0x10000), &mem).unwrap();
        assert_eq!(entry.flags(), PTEFlags::of(PERM_U | perm | FLAG_V), "prot {}", prot);
    }
}

#[test]
fn mmap_of_nothing_does_nothing_and_succeeds() {
    let (mut space, mut alloc, mut mem) = setup(32);
    assert_eq!(sys_mmap(&mut space, 0x1000_0000, 0, 3, &mut alloc, &mut mem), 0);
    assert_eq!(sys_mmap(&mut space, 0x1000_0001, 0, 0, &mut alloc, &mut mem), 0);
    assert_eq!(space.area_count(), 0);
    assert!(alloc.has_free(31));
}

#[test]
fn mmap_refuses_requests_that_are_not_well_formed() {
    let (mut space, mut alloc, mut mem) = setup(32);
    // no permission, or bits beyond the three
    assert_eq!(sys_mmap(&mut space, 0x1000_0000, 4096, 0, &mut alloc, &mut mem), -1);
    assert_eq!(sys_mmap(&mut space, 0x1000_0000, 4096, 8, &mut alloc, &mut mem), -1);
    assert_eq!(sys_mmap(&mut space, 0x1000_0000, 4096, 0x103, &mut alloc, &mut mem), -1);
    assert_eq!(sys_mmap(&mut space, 0x1000_0000, 4096, u64::MAX, &mut alloc, &mut mem), -1);
    // a start within a page
    assert_eq!(sys_mmap(&mut space, 0x1000_0001, 4096, 3, &mut alloc, &mut mem), -1);
    assert_eq!(sys_mmap(&mut space, 0x1000_0fff, 4096, 3, &mut alloc, &mut mem), -1);
    // a length that runs into the gap between the halves
    assert_eq!(sys_mmap(&mut space, 0x1000_0000, 1 << 40, 3, &mut alloc, &mut mem), -1);
    assert_eq!(sys_mmap(&mut space, 0x1000_0000, u64::MAX, 3, &mut alloc, &mut mem), -1);
    assert_eq!(space.area_count(), 0);
    assert!(alloc.has_free(31));
    assert_eq!(sys_mmap(&mut space, 0x1000_0000, 4096, 3, &mut alloc, &mut mem), 0);
}

#[test]
fn mmap_grants_a_request_wherever_its_pages_may_lie() {
    let (mut space, mut alloc, mut mem) = setup(32);
    // each of these pages takes a leaf node, some a middle node as well
    assert_eq!(sys_mmap(&mut space, 0, 4096, 1, &mut alloc, &mut mem), 0);
    assert_eq!(sys_mmap(&mut space, 0x1000_2000, 4096, 3, &mut alloc, &mut mem), 0);
    assert_eq!(sys_mmap(&mut space, 0x8000_0000, 0x2000, 7, &mut alloc, &mut mem), 0);
    assert_eq!(sys_mmap(&mut space, 0x20_0000_0000, 4096, 2, &mut alloc, &mut mem), 0);
    assert_eq!(sys_mmap(&mut space, 0x3f_ffff_f000, 4096, 3, &mut alloc, &mut mem), 0);
    assert_eq!(sys_mmap(&mut space, 0xffff_ffc0_0000_0000, 4096, 3, &mut alloc, &mut mem), 0);
    assert_eq!(sys_mmap(&mut space, 0xffff_ffff_ffff_d000, 4096, 3, &mut alloc, &mut mem), 0);
    assert_eq!(space.area_count(), 7);
    // the landing pad and the gap between the halves stay out of reach
    assert_eq!(sys_mmap(&mut space, 0xffff_ffff_ffff_f000, 4096, 3, &mut alloc, &mut mem), -1);
    assert_eq!(sys_mmap(&mut space, 0x40_0000_0000, 4096, 3, &mut alloc, &mut mem), -1);
    assert_eq!(space.area_count(), 7);
}

#[test]
fn mmap_twice_at_the_same_place_fails_the_second_time() {
    let (mut space, mut alloc, mut mem) = setup(32);
    assert_eq!(sys_mmap(&mut space, 0x1000_0000, 4096, 3, &mut alloc, &mut mem), 0);
    let entry = space.translate(VirtPageNum(0x10000), &mem);
    assert_eq!(sys_mmap(&mut space, 0x1000_0000, 4096, 3, &mut alloc, &mut mem), -1);
    assert_eq!(sys_mmap(&mut space, 0x0fff_f000, 8192, 1, &mut alloc, &mut mem), -1);
    assert_eq!(space.area_count(), 1);
    assert_eq!(space.translate(VirtPageNum(0x10000), &mem), entry);
    assert!(!mapped(&space, &mem, 0xffff));
}

#[test]
fn mmap_fails_without_frames_and_changes_nothing() {
    let (mut space, mut alloc, mut mem) = setup(5);
    // three pages and two nodes take five frames, four are free
    assert_eq!(sys_mmap(&mut space, 0x1000_0000, 3 * 4096, 3, &mut alloc, &mut mem), -1);
    assert_eq!(space.area_count(), 0);
    assert_eq!(space.page_table().frame_count(), 1);
    assert!(alloc.has_free(4) && !alloc.has_free(5));
    for v in 0x10000..0x10003 {
        assert_eq!(space.translate(VirtPageNum(v), &mem), None);
    }
    assert_eq!(sys_mmap(&mut space, 0x1000_0000, 2 * 4096, 3, &mut alloc, &mut mem), 0);
    assert!(!alloc.has_free(1));
}

#[test]
fn munmap_undoes_mmap() {
    let (mut space, mut alloc, mut mem) = setup(32);
    assert_eq!(sys_mmap(&mut space, 0x1000_0000, 8192, 3, &mut alloc, &mut mem), 0);
    assert!(mapped(&space, &mem, 0x10000) && mapped(&space, &mem, 0x10001));
    assert_eq!(sys_munmap(&mut space, 0x1000_0000, 8192, &mut alloc, &mut mem), 0);
    assert!(!mapped(&space, &mem, 0x10000) && !mapped(&space, &mem, 0x10001));
    assert_eq!(space.area_count(), 0);
    assert!(!space.range(0x10000, 0x10002));
    assert_eq!(sys_munmap(&mut space, 0x1000_0000, 8192, &mut alloc, &mut mem), -1);
}

#[test]
fn munmap_asks_for_the_exact_bytes_of_an_area() {
    let (mut space, mut alloc, mut mem) = setup(32);
    assert_eq!(sys_mmap(&mut space, 0x1000_0000, 4096, 3, &mut alloc, &mut mem), 0);
    assert_eq!(sys_munmap(&mut space, 0x1000_0000, 4097, &mut alloc, &mut mem), -1);
    assert_eq!(sys_munmap(&mut space, 0x1000_0001, 4095, &mut alloc, &mut mem), -1);
    assert_eq!(sys_munmap(&mut space, 0x1000_0000, 4095, &mut alloc, &mut mem), -1);
    assert_eq!(sys_munmap(&mut space, 0x1000_1000, 4096, &mut alloc, &mut mem), -1);
    assert!(mapped(&space, &mem, 0x10000));
    assert_eq!(sys_munmap(&mut space, 0x1000_0000, 4096, &mut alloc, &mut mem), 0);
    assert!(!mapped(&space, &mem, 0x10000));
}

#[test]
fn priorities_are_not_supported() {
    assert_eq!(sys_set_priority(0), -1);
    assert_eq!(sys_set_priority(5), -1);
    assert_eq!(sys_set_priority(-1), -1);
}

#[test]
fn what_was_unmapped_is_mapped_again_with_the_frames_that_came_back() {
    // one frame for the root, three for the first page: two nodes and the page
    let (mut space, mut alloc, mut mem) = setup(4);
    assert!(alloc.has_free(3) && !alloc.has_free(4));
    assert_eq!(sys_mmap(&mut space, 0x1000_0000, 4096, 3, &mut alloc, &mut mem), 0);
    assert!(!alloc.has_free(1));
    assert_eq!(sys_munmap(&mut space, 0x1000_0000, 4096, &mut alloc, &mut mem), 0);
    // the page is back, the nodes stay with the table
    assert!(alloc.has_free(1) && !alloc.has_free(2));
    assert_eq!(space.area_count(), 0);
    assert!(!mapped(&space, &mem, 0x10000));
    assert_eq!(sys_mmap(&mut space, 0x1000_0000, 4096, 3, &mut alloc, &mut mem), 0);
    assert!(!alloc.has_free(1));
    assert!(mapped(&space, &mem, 0x10000));
    assert_eq!(space.area_count(), 1);
    // and once more
    assert_eq!(sys_munmap(&mut space, 0x1000_0000, 4096, &mut alloc, &mut mem), 0);
    assert_eq!(sys_mmap(&mut space, 0x1000_0000, 4096, 5, &mut alloc, &mut mem), 0);
    // a page that needs a node of its own finds no frame for it
    assert_eq!(sys_mmap(&mut space, 0x2000_0000, 4096, 3, &mut alloc, &mut mem), -1);
}
