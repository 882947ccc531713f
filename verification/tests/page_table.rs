use kernel_mm::page_table::{FLAG_A, FLAG_D, FLAG_G, FLAG_R, FLAG_U, FLAG_V, FLAG_W, FLAG_X};
use kernel_mm::{
    translated_byte_buffer, ByteChunk, PTEFlags, PageTable, PageTableEntry, PhysMemory, PhysPageNum,
    StackFrameAllocator, VirtPageNum,
};

fn setup(frames: usize) -> (StackFrameAllocator, PhysMemory) {
    let first = 0x80400u64;
    let mem = PhysMemory::new(PhysPageNum(first), frames);
    let mut alloc = StackFrameAllocator::new();
    alloc.init(PhysPageNum(first), PhysPageNum(first + frames as u64));
    (alloc, mem)
}

#[test]
fn flags_sit_at_their_bits() {
    assert_eq!(
        [FLAG_V, FLAG_R, FLAG_W, FLAG_X, FLAG_U, FLAG_G, FLAG_A, FLAG_D],
        [1 << 0, 1 << 1, 1 << 2, 1 << 3, 1 << 4, 1 << 5, 1 << 6, 1 << 7]
    );
    let rw = PTEFlags::of(FLAG_R).union(PTEFlags::of(FLAG_W));
    assert_eq!(rw.bits(), 0x06);
    assert!(rw.contains(PTEFlags::of(FLAG_R)));
    assert!(rw.contains(PTEFlags::of(FLAG_W)));
    assert!(!rw.contains(PTEFlags::of(FLAG_X)));
    assert!(rw.contains(PTEFlags::empty()));
    assert_eq!(PTEFlags::from_bits(0xff), Some(PTEFlags::of(0xff)));
    assert_eq!(PTEFlags::empty().bits(), 0);
}

#[test]
fn an_entry_is_its_frame_number_above_its_flags() {
    let entry = PageTableEntry::new(PhysPageNum(0x80000), PTEFlags::of(FLAG_V | FLAG_R));
    assert_eq!(entry.bits, (0x80000 << 10) | 0x3);
    assert_eq!(entry.ppn(), PhysPageNum(0x80000));
    assert_eq!(entry.flags(), PTEFlags::of(0x3));
    assert!(entry.is_valid());
    assert!(entry.readable());
    assert!(!entry.writable());
    assert!(!entry.executable());
    assert_eq!(PageTableEntry::of(entry.bits), entry);
}

#[test]
fn the_empty_entry_is_not_valid() {
    let entry = PageTableEntry::empty();
    assert_eq!(entry.bits, 0);
    assert!(!entry.is_valid());
    assert_eq!(entry.ppn(), PhysPageNum(0));
    assert_eq!(entry.flags(), PTEFlags::empty());
}

#[test]
fn an_entry_keeps_the_low_44_bits_of_a_frame_number() {
    let largest = PhysPageNum((1 << 44) - 1);
    let entry = PageTableEntry::new(largest, PTEFlags::of(FLAG_V | FLAG_W | FLAG_X));
    assert_eq!(entry.ppn(), largest);
    assert!(entry.writable() && entry.executable() && !entry.readable());
    let flagged = PageTableEntry::new(PhysPageNum(1), PTEFlags::of(0xff));
    assert_eq!(flagged.bits, 0x4ff);
    assert_eq!(flagged.flags().bits(), 0xff);
}

#[test]
fn a_new_table_maps_nothing() {
    let (mut alloc, mut mem) = setup(8);
    let table = PageTable::new(&mut alloc, &mut mem).unwrap();
    assert_eq!(table.root_ppn(), PhysPageNum(0x80400));
    assert_eq!(table.frame_count(), 1);
    assert_eq!(table.translate(VirtPageNum(0), &mem), None);
    assert_eq!(table.translate(VirtPageNum(0x12345), &mem), None);
    assert_eq!(table.missing_nodes(VirtPageNum(0x12345), &mem), 2);
}

#[test]
fn no_table_without_a_free_frame() {
    let (mut alloc, mut mem) = setup(0);
    assert!(PageTable::new(&mut alloc, &mut mem).is_none());
}

#[test]
fn a_mapped_page_translates_to_its_frame_until_it_is_unmapped() {
    let (mut alloc, mut mem) = setup(8);
    let mut table = PageTable::new(&mut alloc, &mut mem).unwrap();
    let vpn = VirtPageNum(0x12345);
    assert!(table.map(vpn, PhysPageNum(0x9abcd), PTEFlags::of(FLAG_R | FLAG_W), &mut alloc, &mut mem));
    let entry = table.translate(vpn, &mem).unwrap();
    assert_eq!(entry.ppn(), PhysPageNum(0x9abcd));
    assert_eq!(entry.flags(), PTEFlags::of(FLAG_R | FLAG_W | FLAG_V));
    assert_eq!(entry, PageTableEntry::new(PhysPageNum(0x9abcd), PTEFlags::of(0x7)));
    // other mappings come and go
    assert!(table.map(VirtPageNum(0x12346), PhysPageNum(1), PTEFlags::of(FLAG_X), &mut alloc, &mut mem));
    assert!(table.map(VirtPageNum(0x7ff_ffff), PhysPageNum(2), PTEFlags::of(FLAG_R), &mut alloc, &mut mem));
    table.unmap(VirtPageNum(0x12346), &mut mem);
    assert_eq!(table.translate(vpn, &mem), Some(entry));
    table.unmap(vpn, &mut mem);
    let gone = table.translate(vpn, &mem);
    assert_eq!(gone, Some(PageTableEntry::empty()));
    assert!(!gone.unwrap().is_valid());
    assert_eq!(table.translate(VirtPageNum(0x7ff_ffff), &mem).unwrap().ppn(), PhysPageNum(2));
}

#[test]
fn mapping_makes_the_nodes_that_the_walk_lacks() {
    let (mut alloc, mut mem) = setup(8);
    let mut table = PageTable::new(&mut alloc, &mut mem).unwrap();
    assert!(table.map(VirtPageNum(0), PhysPageNum(7), PTEFlags::of(FLAG_R), &mut alloc, &mut mem));
    assert_eq!(table.frame_count(), 3);
    assert_eq!(table.missing_nodes(VirtPageNum(1), &mem), 0);
    assert_eq!(table.missing_nodes(VirtPageNum(512), &mem), 1);
    assert_eq!(table.missing_nodes(VirtPageNum(512 * 512), &mem), 2);
    // same last node
    assert!(table.map(VirtPageNum(1), PhysPageNum(8), PTEFlags::of(FLAG_R), &mut alloc, &mut mem));
    assert_eq!(table.frame_count(), 3);
    // same second node, new last node
    assert!(table.map(VirtPageNum(512), PhysPageNum(9), PTEFlags::of(FLAG_R), &mut alloc, &mut mem));
    assert_eq!(table.frame_count(), 4);
    // the walk reaches the last level for a neighbour that is not mapped
    assert_eq!(table.translate(VirtPageNum(2), &mem), Some(PageTableEntry::empty()));
    assert_eq!(table.translate(VirtPageNum(1024), &mem), None);
}

#[test]
fn the_nodes_that_a_range_of_pages_lacks_are_counted_once() {
    let (mut alloc, mut mem) = setup(8);
    let mut table = PageTable::new(&mut alloc, &mut mem).unwrap();
    assert_eq!(table.lacking_nodes(0, 0, &mem), 0);
    assert_eq!(table.lacking_nodes(0, 1, &mem), 2);
    assert_eq!(table.lacking_nodes(0, 512, &mem), 2);
    assert_eq!(table.lacking_nodes(0, 513, &mem), 3);
    assert_eq!(table.lacking_nodes(511, 513, &mem), 3);
    assert_eq!(table.lacking_nodes(512 * 512 - 1, 512 * 512 + 1, &mem), 4);
    assert_eq!(table.lacking_nodes(0, 512 * 512 + 1, &mem), 1 + 512 + 1 + 1);
    assert!(table.map(VirtPageNum(700), PhysPageNum(7), PTEFlags::of(FLAG_R), &mut alloc, &mut mem));
    assert_eq!(table.lacking_nodes(0, 1, &mem), 1);
    assert_eq!(table.lacking_nodes(512, 1024, &mem), 0);
    assert_eq!(table.lacking_nodes(0, 2048, &mem), 3);
    assert_eq!(table.lacking_nodes(512 * 512, 512 * 512 + 1, &mem), 2);
    let high = (1u64 << 52) - 2;
    assert_eq!(table.lacking_nodes(high, high + 2, &mem), 2);
}

#[test]
fn the_nodes_of_a_table_point_down_with_the_valid_flag_alone() {
    let (mut alloc, mut mem) = setup(8);
    let mut table = PageTable::new(&mut alloc, &mut mem).unwrap();
    let vpn = VirtPageNum((3 << 18) | (2 << 9) | 1);
    assert!(table.map(vpn, PhysPageNum(0x777), PTEFlags::of(FLAG_R | FLAG_X), &mut alloc, &mut mem));
    let idx = vpn.indexes();
    let root = table.root_ppn().get_pte_array(&mem);
    assert_eq!(root.len(), 512);
    let first = root[idx[0]];
    assert_eq!(first.flags(), PTEFlags::of(FLAG_V));
    assert_eq!(first.ppn(), PhysPageNum(0x80401));
    let second = first.ppn().get_pte_array(&mem)[idx[1]];
    assert_eq!(second.flags(), PTEFlags::of(FLAG_V));
    assert_eq!(second.ppn(), PhysPageNum(0x80402));
    let leaf = second.ppn().get_pte_array(&mem)[idx[2]];
    assert_eq!(leaf, PageTableEntry::new(PhysPageNum(0x777), PTEFlags::of(FLAG_R | FLAG_X | FLAG_V)));
    assert_eq!(table.translate(vpn, &mem), Some(leaf));
    assert_eq!(root.iter().filter(|e| e.is_valid()).count(), 1);
}

#[test]
fn page_numbers_that_agree_in_their_low_27_bits_share_a_slot() {
    let (mut alloc, mut mem) = setup(8);
    let mut table = PageTable::new(&mut alloc, &mut mem).unwrap();
    assert!(table.map(VirtPageNum(0x42), PhysPageNum(5), PTEFlags::of(FLAG_R), &mut alloc, &mut mem));
    assert_eq!(
        table.translate(VirtPageNum((1 << 27) | 0x42), &mem),
        table.translate(VirtPageNum(0x42), &mem)
    );
}

#[test]
fn mapping_does_nothing_at_all_without_enough_frames() {
    let (mut alloc, mut mem) = setup(2);
    let mut table = PageTable::new(&mut alloc, &mut mem).unwrap();
    // two nodes are lacking, one frame is free
    assert!(!table.map(VirtPageNum(0), PhysPageNum(7), PTEFlags::of(FLAG_R), &mut alloc, &mut mem));
    assert_eq!(table.frame_count(), 1);
    assert!(alloc.has_free(1));
    assert_eq!(table.translate(VirtPageNum(0), &mem), None);
    assert_eq!(table.missing_nodes(VirtPageNum(0), &mem), 2);
}

#[test]
fn a_token_is_the_format_tag_above_the_root() {
    let (mut alloc, mut mem) = setup(4);
    let table = PageTable::new(&mut alloc, &mut mem).unwrap();
    assert_eq!(table.token(), (8u64 << 60) | 0x80400);
    let view = PageTable::from_token(table.token());
    assert_eq!(view.root_ppn(), table.root_ppn());
    assert_eq!(view.frame_count(), 0);
}

#[test]
fn a_table_from_a_token_translates_like_the_table_itself() {
    let (mut alloc, mut mem) = setup(8);
    let mut table = PageTable::new(&mut alloc, &mut mem).unwrap();
    assert!(table.map(VirtPageNum(0x10), PhysPageNum(0x80407), PTEFlags::of(FLAG_R | FLAG_U), &mut alloc, &mut mem));
    let view = PageTable::from_token(table.token());
    assert_eq!(view.translate(VirtPageNum(0x10), &mem), table.translate(VirtPageNum(0x10), &mem));
    assert_eq!(view.translate(VirtPageNum(0x10), &mem).unwrap().ppn(), PhysPageNum(0x80407));
    assert_eq!(view.translate(VirtPageNum(0x11), &mem), Some(PageTableEntry::empty()));
    // a root outside of memory gives nothing
    let nowhere = PageTable::from_token((8u64 << 60) | 0x1234);
    assert_eq!(nowhere.translate(VirtPageNum(0x10), &mem), None);
}

#[test]
fn releasing_a_table_frees_its_frames() {
    let (mut alloc, mut mem) = setup(4);
    let mut table = PageTable::new(&mut alloc, &mut mem).unwrap();
    assert!(table.map(VirtPageNum(0), PhysPageNum(7), PTEFlags::of(FLAG_R), &mut alloc, &mut mem));
    assert!(alloc.has_free(1) && !alloc.has_free(2));
    table.release(&mut alloc);
    assert!(alloc.has_free(4) && !alloc.has_free(5));
}

#[test]
fn a_buffer_is_cut_at_page_boundaries() {
    let (mut alloc, mut mem) = setup(8);
    let mut table = PageTable::new(&mut alloc, &mut mem).unwrap();
    let flags = PTEFlags::of(FLAG_R | FLAG_W | FLAG_U);
    assert!(table.map(VirtPageNum(0x10), PhysPageNum(0x80406), flags, &mut alloc, &mut mem));
    assert!(table.map(VirtPageNum(0x11), PhysPageNum(0x80405), flags, &mut alloc, &mut mem));
    assert!(table.map(VirtPageNum(0x12), PhysPageNum(0x80407), flags, &mut alloc, &mut mem));
    let token = table.token();
    let pieces = translated_byte_buffer(token, 0x10ff0, 0x1020, &mem).unwrap();
    assert_eq!(
        pieces,
        vec![
            ByteChunk { ppn: PhysPageNum(0x80406), start: 0xff0, end: 4096 },
            ByteChunk { ppn: PhysPageNum(0x80405), start: 0, end: 4096 },
            ByteChunk { ppn: PhysPageNum(0x80407), start: 0, end: 0x10 },
        ]
    );
    let inside = translated_byte_buffer(token, 0x11004, 8, &mem).unwrap();
    assert_eq!(inside, vec![ByteChunk { ppn: PhysPageNum(0x80405), start: 4, end: 12 }]);
    let whole = translated_byte_buffer(token, 0x11000, 4096, &mem).unwrap();
    assert_eq!(whole, vec![ByteChunk { ppn: PhysPageNum(0x80405), start: 0, end: 4096 }]);
    assert_eq!(translated_byte_buffer(token, 0x11000, 0, &mem), Some(vec![]));
}

#[test]
fn a_buffer_that_leaves_the_table_or_the_address_range_gives_nothing() {
    let (mut alloc, mut mem) = setup(8);
    let mut table = PageTable::new(&mut alloc, &mut mem).unwrap();
    assert!(table.map(VirtPageNum(0x10), PhysPageNum(0x80406), PTEFlags::of(FLAG_R), &mut alloc, &mut mem));
    let token = table.token();
    // the second page has no node at the second level
    assert_eq!(translated_byte_buffer(token, 0x10000, 0x40_0000, &mem), None);
    assert_eq!(translated_byte_buffer(token, u64::MAX - 3, 8, &mem), None);
}
