use kernel_mm::config::{TRAMPOLINE, TRAP_CONTEXT, USER_STACK_SIZE};
use kernel_mm::elf::{gap_of, has_magic, AlignedImage};
use kernel_mm::map_area::{PERM_R, PERM_U, PERM_W, PERM_X};
use kernel_mm::page_table::{FLAG_R, FLAG_U, FLAG_V, FLAG_W, FLAG_X};
use kernel_mm::{
    read_image, ElfImage, ElfSegment, MapPermission, MapType, MemorySet, PTEFlags, PhysAddr, PhysMemory,
    PhysPageNum, StackFrameAllocator, VirtAddr, VirtPageNum,
};

struct Segment {
    kind: u32,
    flags: u32,
    vaddr: u64,
    mem_size: u64,
    bytes: Vec<u8>,
}

/// An image of the 64-bit class with the given entry point and segments, the
/// bytes of the segments behind the program headers.
fn image(entry: u64, segments: &[Segment]) -> Vec<u8> {
    let mut out = vec![0u8; 64];
    out[..4].copy_from_slice(&[0x7f, 0x45, 0x4c, 0x46]);
    out[4] = 2;
    out[5] = 1;
    out[6] = 1;
    out[16..18].copy_from_slice(&2u16.to_le_bytes());
    out[18..20].copy_from_slice(&0xf3u16.to_le_bytes());
    out[20..24].copy_from_slice(&1u32.to_le_bytes());
    out[24..32].copy_from_slice(&entry.to_le_bytes());
    out[32..40].copy_from_slice(&64u64.to_le_bytes());
    out[52..54].copy_from_slice(&64u16.to_le_bytes());
    out[54..56].copy_from_slice(&56u16.to_le_bytes());
    out[56..58].copy_from_slice(&(segments.len() as u16).to_le_bytes());
    let mut offset = 64 + 56 * segments.len() as u64;
    for s in segments {
        out.extend_from_slice(&s.kind.to_le_bytes());
        out.extend_from_slice(&s.flags.to_le_bytes());
        out.extend_from_slice(&offset.to_le_bytes());
        out.extend_from_slice(&s.vaddr.to_le_bytes());
        out.extend_from_slice(&s.vaddr.to_le_bytes());
        out.extend_from_slice(&(s.bytes.len() as u64).to_le_bytes());
        out.extend_from_slice(&s.mem_size.to_le_bytes());
        out.extend_from_slice(&0x1000u64.to_le_bytes());
        offset += s.bytes.len() as u64;
    }
    for s in segments {
        out.extend_from_slice(&s.bytes);
    }
    out
}

fn minimal() -> Vec<u8> {
    image(
        0x1_0000,
        &[
            Segment { kind: 1, flags: 5, vaddr: 0x1_0000, mem_size: 0x1800, bytes: vec![0x13, 0x05, 0x10, 0x00, 0x73, 0, 0, 0] },
            Segment { kind: 4, flags: 4, vaddr: 0, mem_size: 0, bytes: vec![] },
            Segment { kind: 1, flags: 6, vaddr: 0x1_2000, mem_size: 0x2000, bytes: (0..4100u32).map(|i| i as u8).collect() },
        ],
    )
}

fn setup(frames: usize) -> (StackFrameAllocator, PhysMemory) {
    let first = 0x80400u64;
    let mem = PhysMemory::new(PhysPageNum(first), frames);
    let mut alloc = StackFrameAllocator::new();
    alloc.init(PhysPageNum(first), PhysPageNum(first + frames as u64));
    (alloc, mem)
}

fn free_frames(alloc: &StackFrameAllocator) -> u64 {
    let mut n = 0;
    while alloc.has_free(n + 1) {
        n += 1;
    }
    n
}

const STRAMPOLINE: PhysAddr = PhysAddr(0x8020_1000);

#[test]
fn an_image_is_read_as_its_entry_point_and_its_loadable_segments() {
    let data = minimal();
    let read = read_image(&data).unwrap();
    assert_eq!(read.entry, 0x1_0000);
    assert_eq!(
        read.segments,
        vec![
            ElfSegment {
                loadable: true,
                vaddr: 0x1_0000,
                mem_size: 0x1800,
                offset: 64 + 3 * 56,
                file_size: 8,
                readable: true,
                writable: false,
                executable: true,
            },
            ElfSegment {
                loadable: true,
                vaddr: 0x1_2000,
                mem_size: 0x2000,
                offset: 64 + 3 * 56 + 8,
                file_size: 4100,
                readable: true,
                writable: true,
                executable: false,
            },
        ]
    );
}

#[test]
fn an_image_is_read_wherever_it_lies_in_memory() {
    let data = minimal();
    let mut shifted = vec![0u8; 3];
    shifted.extend_from_slice(&data);
    let read = read_image(&shifted[3..]).unwrap();
    assert_eq!(read.entry, 0x1_0000);
    assert_eq!(read.segments.len(), 2);
    let mut odd = vec![0u8; 1];
    odd.extend_from_slice(&data);
    assert_eq!(read_image(&odd[1..]).unwrap().segments.len(), 2);
}

#[test]
fn an_image_without_the_magic_bytes_is_refused() {
    let mut data = minimal();
    assert!(has_magic(&data));
    data[1] = 0x46;
    assert!(!has_magic(&data));
    assert!(read_image(&data).is_none());
    assert!(!has_magic(&[0x7f, 0x45, 0x4c]));
    assert!(has_magic(&[0x7f, 0x45, 0x4c, 0x46]));
}

#[test]
fn an_image_that_is_cut_short_is_refused() {
    let data = minimal();
    assert!(read_image(&data[..63]).is_none());
    assert!(read_image(&data[..64]).is_none());
    assert!(read_image(&data[..64 + 2 * 56]).is_none());
    assert!(read_image(&data[..64 + 3 * 56]).is_some());
    assert!(read_image(&[]).is_none());
}

#[test]
fn an_image_with_a_program_header_of_no_known_type_is_refused() {
    let data = image(0, &[Segment { kind: 0x99, flags: 4, vaddr: 0, mem_size: 0, bytes: vec![] }]);
    assert!(read_image(&data).is_none());
}

#[test]
fn an_image_with_misplaced_program_headers_is_refused() {
    let mut data = minimal();
    // program headers at an odd place
    data[32..40].copy_from_slice(&65u64.to_le_bytes());
    assert!(read_image(&data).is_none());
    // program headers that are too small
    let mut data = minimal();
    data[54..56].copy_from_slice(&48u16.to_le_bytes());
    assert!(read_image(&data).is_none());
    // more program headers than lie within the image
    let mut data = image(0, &[]);
    data[56..58].copy_from_slice(&1u16.to_le_bytes());
    assert!(read_image(&data).is_none());
    // no program headers at all is fine
    let read = read_image(&image(0x42, &[])).unwrap();
    assert_eq!(read.entry, 0x42);
    assert!(read.segments.is_empty());
}

#[test]
fn a_program_gets_its_segments_a_stack_and_the_page_for_its_registers() {
    let (mut alloc, mut mem) = setup(64);
    let data = minimal();
    let (space, user_sp, entry) = MemorySet::from_elf(&data, STRAMPOLINE, &mut alloc, &mut mem).unwrap();
    assert_eq!(entry, 0x1_0000);
    // the highest segment ends at page 0x14, one page is left out, the stack has two
    assert_eq!(user_sp, 0x1_5000 + USER_STACK_SIZE);
    assert_eq!(space.area_count(), 4);
    let user = MapPermission::of(PERM_U);
    let expected = [
        (0x10u64, 0x12u64, user.union(MapPermission::of(PERM_R)).union(MapPermission::of(PERM_X))),
        (0x12, 0x14, user.union(MapPermission::of(PERM_R)).union(MapPermission::of(PERM_W))),
        (0x15, 0x17, MapPermission::of(PERM_R | PERM_W | PERM_U)),
        ((1 << 52) - 2, (1 << 52) - 1, MapPermission::of(PERM_R | PERM_W)),
    ];
    for (i, (start, end, perm)) in expected.iter().enumerate() {
        let area = space.area(i);
        assert_eq!((area.get_start(), area.get_end()), (VirtPageNum(*start), VirtPageNum(*end)));
        assert_eq!(area.get_type(), MapType::Framed);
        assert_eq!(area.get_perm(), *perm);
        for v in *start..*end {
            let entry = space.translate(VirtPageNum(v), &mem).unwrap();
            assert_eq!(entry.flags(), PTEFlags::of(perm.bits() | FLAG_V));
            assert_eq!(area.frame_of(VirtPageNum(v)), Some(entry.ppn()));
        }
    }
    // the guard page is not mapped
    let guard = space.translate(VirtPageNum(0x14), &mem);
    assert!(guard.is_none() || !guard.unwrap().is_valid());
    let code = space.translate(VirtPageNum(0x10), &mem).unwrap();
    assert_eq!(code.flags(), PTEFlags::of(FLAG_U | FLAG_R | FLAG_X | FLAG_V));
    let stack = space.translate(VirtAddr(user_sp - 1).floor(), &mem).unwrap();
    assert_eq!(stack.flags(), PTEFlags::of(FLAG_U | FLAG_R | FLAG_W | FLAG_V));
}

#[test]
fn the_bytes_of_the_segments_lie_in_their_frames_with_zeros_behind() {
    let (mut alloc, mut mem) = setup(64);
    let data = minimal();
    let (space, _, _) = MemorySet::from_elf(&data, STRAMPOLINE, &mut alloc, &mut mem).unwrap();
    let code = space.translate(VirtPageNum(0x10), &mem).unwrap().ppn();
    assert_eq!(&mem.page_bytes(code)[..8], &[0x13, 0x05, 0x10, 0x00, 0x73, 0, 0, 0]);
    assert!(mem.page_bytes(code)[8..].iter().all(|b| *b == 0));
    let rest = space.translate(VirtPageNum(0x11), &mem).unwrap().ppn();
    assert!(mem.page_bytes(rest).iter().all(|b| *b == 0));
    let bytes: Vec<u8> = (0..4100u32).map(|i| i as u8).collect();
    let first = space.translate(VirtPageNum(0x12), &mem).unwrap().ppn();
    let second = space.translate(VirtPageNum(0x13), &mem).unwrap().ppn();
    assert_eq!(mem.page_bytes(first), &bytes[..4096]);
    assert_eq!(&mem.page_bytes(second)[..4], &bytes[4096..]);
    assert!(mem.page_bytes(second)[4..].iter().all(|b| *b == 0));
    let stack = space.translate(VirtPageNum(0x15), &mem).unwrap().ppn();
    assert!(mem.page_bytes(stack).iter().all(|b| *b == 0));
}

#[test]
fn the_page_of_the_saved_registers_has_a_frame_of_its_own() {
    let (mut alloc, mut mem) = setup(64);
    let data = minimal();
    let (space, _, entry) = MemorySet::from_elf(&data, STRAMPOLINE, &mut alloc, &mut mem).unwrap();
    let context = space.translate(VirtAddr(TRAP_CONTEXT).floor(), &mem).unwrap();
    assert!(context.is_valid());
    assert_eq!(context.flags(), PTEFlags::of(FLAG_R | FLAG_W | FLAG_V));
    assert!(mem.holds(context.ppn()));
    assert!(alloc.is_allocated(context.ppn()));
    let mut others = Vec::new();
    for v in (0x10..0x14).chain(0x15..0x17) {
        others.push(space.translate(VirtPageNum(v), &mem).unwrap().ppn());
    }
    assert!(!others.contains(&context.ppn()));
    let first = space.translate(VirtAddr(entry).floor(), &mem).unwrap();
    assert!(first.is_valid());
    assert_ne!(first.ppn(), context.ppn());
    let pad = space.translate(VirtAddr(TRAMPOLINE).floor(), &mem).unwrap();
    assert_eq!(pad.ppn(), PhysPageNum(0x80201));
    assert_eq!(pad.flags(), PTEFlags::of(FLAG_R | FLAG_X | FLAG_V));
}

#[test]
fn a_program_without_segments_has_its_stack_above_the_first_page() {
    let (mut alloc, mut mem) = setup(64);
    let data = image(0x0, &[]);
    let (space, user_sp, entry) = MemorySet::from_elf(&data, STRAMPOLINE, &mut alloc, &mut mem).unwrap();
    assert_eq!((user_sp, entry), (0x3000, 0));
    assert_eq!(space.area_count(), 2);
    assert!(space.range(1, 3));
    assert!(space.range((1 << 52) - 2, (1 << 52) - 1));
}

#[test]
fn segments_that_cannot_be_laid_out_give_no_address_space() {
    let make = |segments: &[Segment]| {
        let (mut alloc, mut mem) = setup(64);
        let data = image(0x1_0000, segments);
        let loaded = MemorySet::from_elf(&data, STRAMPOLINE, &mut alloc, &mut mem);
        assert_eq!(free_frames(&alloc) == 64, loaded.is_none());
        loaded.is_some()
    };
    let seg = |vaddr: u64, mem_size: u64| Segment { kind: 1, flags: 4, vaddr, mem_size, bytes: vec![1, 2, 3] };
    assert!(!make(&[seg(0x1_0000, 0x1000), seg(0x1_0800, 0x1000)]));
    assert!(!make(&[seg(0x2_0000, 0x1000), seg(0x1_f000, 0x1001)]));
    // segments in any order: the stack goes above the highest of them
    assert!(make(&[seg(0x1_2000, 0x1000), seg(0x1_0000, 0x1000)]));
    // outside the canonical halves, at the landing pad, beyond the address range
    assert!(!make(&[seg(1 << 40, 0x1000)]));
    assert!(!make(&[seg(TRAMPOLINE, 0x1000)]));
    assert!(!make(&[seg(TRAP_CONTEXT, 0x1000)]));
    assert!(!make(&[seg(u64::MAX - 0x10, 0x1000)]));
    // more bytes than the pages of the segment have room for
    assert!(!make(&[seg(0x1_0000, 0)]));
    assert!(make(&[seg(0x1_0000, 2)]));
    assert!(make(&[seg(0x1_0000, 0x1000), seg(0x1_1000, 0x1000)]));
}

#[test]
fn a_segment_whose_bytes_lie_beyond_the_image_gives_no_address_space() {
    let (mut alloc, mut mem) = setup(64);
    let mut data = image(0x1_0000, &[Segment { kind: 1, flags: 4, vaddr: 0x1_0000, mem_size: 0x1000, bytes: vec![1, 2, 3] }]);
    let len = data.len();
    data.truncate(len - 1);
    assert!(read_image(&data).is_some());
    assert!(MemorySet::from_elf(&data, STRAMPOLINE, &mut alloc, &mut mem).is_none());
    assert_eq!(free_frames(&alloc), 64);
}

#[test]
fn no_address_space_and_no_frame_lost_when_the_allocator_runs_out() {
    let data = minimal();
    let mut smallest = None;
    for frames in 0..32usize {
        let (mut alloc, mut mem) = setup(frames);
        match MemorySet::from_elf(&data, STRAMPOLINE, &mut alloc, &mut mem) {
            Some((space, _, _)) => {
                assert_eq!(free_frames(&alloc), 0);
                space.release(&mut alloc, &mem);
                assert_eq!(free_frames(&alloc), frames as u64);
                smallest = Some(frames);
                break;
            }
            None => assert_eq!(free_frames(&alloc), frames as u64),
        }
    }
    // the root, two nodes below the landing pad and two for the low pages,
    // four pages of segments, two of the stack, one for the registers
    assert_eq!(smallest, Some(12));
}

#[test]
fn an_address_space_is_built_from_values_as_from_bytes() {
    let (mut alloc, mut mem) = setup(64);
    let data: Vec<u8> = (0..100u8).collect();
    let built = ElfImage {
        entry: 0x4_0010,
        segments: vec![ElfSegment {
            loadable: true,
            vaddr: 0x4_0000,
            mem_size: 0x30,
            offset: 10,
            file_size: 0x20,
            readable: true,
            writable: true,
            executable: true,
        }],
    };
    let (space, user_sp, entry) =
        MemorySet::from_image(&built, &data, STRAMPOLINE, &mut alloc, &mut mem).unwrap();
    assert_eq!((user_sp, entry), (0x4_4000, 0x4_0010));
    let page = space.translate(VirtPageNum(0x40), &mem).unwrap();
    assert_eq!(page.flags(), PTEFlags::of(FLAG_U | FLAG_R | FLAG_W | FLAG_X | FLAG_V));
    assert_eq!(&mem.page_bytes(page.ppn())[..0x20], &data[10..42]);
    assert!(mem.page_bytes(page.ppn())[0x20..].iter().all(|b| *b == 0));
}

#[test]
fn the_stack_lies_above_the_highest_segment_whatever_their_order() {
    let (mut alloc, mut mem) = setup(64);
    let data = image(
        0x3_0000,
        &[
            Segment { kind: 1, flags: 5, vaddr: 0x3_0000, mem_size: 0x2000, bytes: vec![1] },
            Segment { kind: 1, flags: 6, vaddr: 0x1_0000, mem_size: 0x1000, bytes: vec![2] },
        ],
    );
    let (space, user_sp, _) = MemorySet::from_elf(&data, STRAMPOLINE, &mut alloc, &mut mem).unwrap();
    assert_eq!(user_sp, 0x3_5000);
    assert!(space.range(0x30, 0x32));
    assert!(space.range(0x10, 0x11));
    assert!(space.range(0x33, 0x35));
    let guard = space.translate(VirtPageNum(0x32), &mem);
    assert!(guard.is_none() || !guard.unwrap().is_valid());
}

#[test]
fn the_gap_leads_to_the_next_multiple_of_eight() {
    assert_eq!(gap_of(0), 0);
    assert_eq!(gap_of(1), 7);
    assert_eq!(gap_of(7), 1);
    assert_eq!(gap_of(8), 0);
    assert_eq!(gap_of(0x1003), 5);
    assert_eq!(gap_of(usize::MAX), 1);
    for address in 0..64usize {
        assert!(gap_of(address) < 8);
        assert_eq!((address + gap_of(address)) % 8, 0);
    }
}

#[test]
fn every_image_is_copied_whole() {
    let bytes = minimal();
    for shift in 0..9usize {
        let mut room = vec![0u8; shift];
        room.extend_from_slice(&bytes);
        let copy = AlignedImage::copy_of(&room[shift..]).expect("an image of this length is copied");
        assert_eq!(copy.len(), bytes.len());
    }
    let none = AlignedImage::copy_of(&[]).expect("no bytes are copied as well");
    assert_eq!(none.len(), 0);
}

fn narrow_header(entry: u32, ph_count: u16) -> Vec<u8> {
    let mut data = vec![0x7f, 0x45, 0x4c, 0x46, 1, 1, 1, 0];
    data.extend_from_slice(&[0u8; 8]);
    data.extend_from_slice(&2u16.to_le_bytes());
    data.extend_from_slice(&0xf3u16.to_le_bytes());
    data.extend_from_slice(&1u32.to_le_bytes());
    data.extend_from_slice(&entry.to_le_bytes());
    data.extend_from_slice(&52u32.to_le_bytes());
    data.extend_from_slice(&0u32.to_le_bytes());
    data.extend_from_slice(&0u32.to_le_bytes());
    data.extend_from_slice(&52u16.to_le_bytes());
    data.extend_from_slice(&32u16.to_le_bytes());
    data.extend_from_slice(&ph_count.to_le_bytes());
    data.extend_from_slice(&[0u8; 6]);
    assert_eq!(data.len(), 52);
    data
}

#[test]
fn a_file_header_of_the_narrow_class_takes_fifty_two_bytes() {
    let data = narrow_header(0x1_0400, 0);
    let image = read_image(&data).expect("a whole header is an image");
    assert_eq!(image.entry, 0x1_0400);
    assert!(image.segments.is_empty());
    assert!(read_image(&data[..51]).is_none());
    // the same bytes under the wide class are no whole header
    let mut wide = data.clone();
    wide[4] = 2;
    assert!(read_image(&wide).is_none());
    // a header that names a program header beyond the end
    assert!(read_image(&narrow_header(0x1_0400, 1)).is_none());
}

#[test]
fn a_program_header_of_the_narrow_class_is_read() {
    let mut data = narrow_header(0x2_0000, 1);
    data.extend_from_slice(&1u32.to_le_bytes());
    data.extend_from_slice(&84u32.to_le_bytes());
    data.extend_from_slice(&0x2_0000u32.to_le_bytes());
    data.extend_from_slice(&0x2_0000u32.to_le_bytes());
    data.extend_from_slice(&4u32.to_le_bytes());
    data.extend_from_slice(&0x1800u32.to_le_bytes());
    data.extend_from_slice(&6u32.to_le_bytes());
    data.extend_from_slice(&0x1000u32.to_le_bytes());
    data.extend_from_slice(&[9, 8, 7, 6]);
    let image = read_image(&data).expect("an image with one segment");
    assert_eq!(image.entry, 0x2_0000);
    assert_eq!(image.segments.len(), 1);
    let segment = image.segments[0];
    assert!(segment.loadable);
    assert_eq!(segment.vaddr, 0x2_0000);
    assert_eq!(segment.mem_size, 0x1800);
    assert_eq!(segment.offset, 84);
    assert_eq!(segment.file_size, 4);
    assert!(segment.readable && segment.writable && !segment.executable);
}
