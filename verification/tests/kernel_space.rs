use kernel_mm::config::{kernel_stack_fits, kernel_stack_position, TRAMPOLINE};
use kernel_mm::map_area::{PERM_R, PERM_W, PERM_X};
use kernel_mm::page_table::{FLAG_R, FLAG_V, FLAG_W, FLAG_X};
use kernel_mm::{
    KernelLayout, MapPermission, MapType, MemorySet, PTEFlags, PageTableEntry, PhysMemory, PhysPageNum,
    StackFrameAllocator, VirtAddr, VirtPageNum,
};

fn layout() -> KernelLayout {
    KernelLayout {
        stext: 0x8020_0000,
        etext: 0x8020_3000,
        srodata: 0x8020_3000,
        erodata: 0x8020_4800,
        sdata: 0x8020_5000,
        edata: 0x8020_5010,
        sbss_with_stack: 0x8020_6000,
        ebss: 0x8020_a000,
        ekernel: 0x8020_a000,
        memory_end: 0x8024_0000,
        strampoline: 0x8020_1000,
    }
}

fn setup() -> (StackFrameAllocator, PhysMemory) {
    let mem = PhysMemory::new(PhysPageNum(0x8020a), 0x36);
    let mut alloc = StackFrameAllocator::new();
    alloc.init(PhysPageNum(0x8020a), PhysPageNum(0x80240));
    (alloc, mem)
}

fn free_frames(alloc: &StackFrameAllocator) -> u64 {
    let mut n = 0;
    while alloc.has_free(n + 1) {
        n += 1;
    }
    n
}

#[test]
fn remap_test() {
    let (mut alloc, mut mem) = setup();
    let layout = layout();
    let kernel_space = MemorySet::new_kernel(&layout, &mut alloc, &mut mem).unwrap();
    let mid_text = VirtAddr((layout.stext + layout.etext) / 2);
    let mid_rodata = VirtAddr((layout.srodata + layout.erodata) / 2);
    let mid_data = VirtAddr((layout.sdata + layout.edata) / 2);
    assert!(!kernel_space.translate(mid_text.floor(), &mem).unwrap().writable());
    assert!(!kernel_space.translate(mid_rodata.floor(), &mem).unwrap().writable());
    assert!(!kernel_space.translate(mid_data.floor(), &mem).unwrap().executable());
}

#[test]
fn kernel_code_can_be_executed_and_not_written_and_data_can_be_written() {
    let (mut alloc, mut mem) = setup();
    let layout = layout();
    let space = MemorySet::new_kernel(&layout, &mut alloc, &mut mem).unwrap();
    let text = space.translate(VirtAddr(0x8020_1234).floor(), &mem).unwrap();
    assert!(text.is_valid() && text.readable() && text.executable() && !text.writable());
    let rodata = space.translate(VirtAddr(0x8020_4000).floor(), &mem).unwrap();
    assert!(rodata.is_valid() && rodata.readable() && !rodata.executable() && !rodata.writable());
    let data = space.translate(VirtAddr(0x8020_5008).floor(), &mem).unwrap();
    assert!(data.is_valid() && data.readable() && data.writable() && !data.executable());
    let bss = space.translate(VirtAddr(0x8020_9fff).floor(), &mem).unwrap();
    assert!(bss.is_valid() && bss.readable() && bss.writable() && !bss.executable());
    let memory = space.translate(VirtAddr(0x8023_ffff).floor(), &mem).unwrap();
    assert!(memory.is_valid() && memory.readable() && memory.writable() && !memory.executable());
}

#[test]
fn the_kernel_is_mapped_to_the_frames_of_its_own_page_numbers() {
    let (mut alloc, mut mem) = setup();
    let layout = layout();
    assert!(layout.is_valid());
    let space = MemorySet::new_kernel(&layout, &mut alloc, &mut mem).unwrap();
    assert_eq!(space.area_count(), 5);
    let rx = MapPermission::of(PERM_R).union(MapPermission::of(PERM_X));
    let r = MapPermission::of(PERM_R);
    let rw = MapPermission::of(PERM_R).union(MapPermission::of(PERM_W));
    let expected = [
        (0x80200u64, 0x80203u64, rx),
        (0x80203, 0x80205, r),
        (0x80205, 0x80206, rw),
        (0x80206, 0x8020a, rw),
        (0x8020a, 0x80240, rw),
    ];
    for (i, (start, end, perm)) in expected.iter().enumerate() {
        let area = space.area(i);
        assert_eq!((area.get_start(), area.get_end()), (VirtPageNum(*start), VirtPageNum(*end)));
        assert_eq!(area.get_type(), MapType::Identical);
        assert_eq!(area.get_perm(), *perm);
        for v in *start..*end {
            assert_eq!(
                space.translate(VirtPageNum(v), &mem),
                Some(PageTableEntry::new(PhysPageNum(v), PTEFlags::of(perm.bits() | FLAG_V)))
            );
            assert_eq!(area.frame_of(VirtPageNum(v)), None);
        }
    }
    // what lies between and around the sections is not mapped
    for v in [0x801ffu64, 0x80240, 0x80241, 0] {
        let entry = space.translate(VirtPageNum(v), &mem);
        assert!(entry.is_none() || !entry.unwrap().is_valid());
    }
    assert_eq!(
        space.translate(VirtAddr(0x8020_2000).floor(), &mem).unwrap().flags(),
        PTEFlags::of(FLAG_R | FLAG_X | FLAG_V)
    );
    assert_eq!(
        space.translate(VirtAddr(0x8020_5000).floor(), &mem).unwrap().flags(),
        PTEFlags::of(FLAG_R | FLAG_W | FLAG_V)
    );
}

#[test]
fn the_landing_pad_is_mapped_at_the_top_for_reading_and_executing() {
    let (mut alloc, mut mem) = setup();
    let layout = layout();
    let space = MemorySet::new_kernel(&layout, &mut alloc, &mut mem).unwrap();
    let pad = space.translate(VirtAddr(TRAMPOLINE).floor(), &mem).unwrap();
    assert_eq!(pad, PageTableEntry::new(PhysPageNum(0x80201), PTEFlags::of(FLAG_R | FLAG_X | FLAG_V)));
    assert!(pad.executable() && pad.readable() && !pad.writable());
    assert_eq!(pad.flags().bits() & 0x10, 0);
}

#[test]
fn the_kernel_space_takes_only_the_nodes_of_its_table() {
    let (mut alloc, mut mem) = setup();
    let space = MemorySet::new_kernel(&layout(), &mut alloc, &mut mem).unwrap();
    // the root, two nodes for the landing pad, two for the sections
    assert_eq!(space.page_table().frame_count(), 5);
    assert_eq!(free_frames(&alloc), 0x36 - 5);
    space.release(&mut alloc, &mem);
    assert_eq!(free_frames(&alloc), 0x36);
}

#[test]
fn no_kernel_space_and_no_frame_lost_when_the_allocator_runs_out() {
    for frames in 0..5u64 {
        let mut mem = PhysMemory::new(PhysPageNum(0x8020a), 0x36);
        let mut alloc = StackFrameAllocator::new();
        alloc.init(PhysPageNum(0x8020a), PhysPageNum(0x8020a + frames));
        assert!(MemorySet::new_kernel(&layout(), &mut alloc, &mut mem).is_none());
        assert_eq!(free_frames(&alloc), frames);
    }
}

#[test]
fn a_layout_with_sections_that_share_a_page_is_not_valid() {
    assert!(layout().is_valid());
    let mut shared = layout();
    shared.etext = 0x8020_3001;
    assert!(!shared.is_valid());
    let mut backwards = layout();
    backwards.edata = 0x8020_4000;
    assert!(!backwards.is_valid());
    let mut unaligned = layout();
    unaligned.strampoline = 0x8020_1008;
    assert!(!unaligned.is_valid());
    let mut beyond = layout();
    beyond.memory_end = 1 << 40;
    assert!(!beyond.is_valid());
}

#[test]
fn the_kernel_space_can_take_a_kernel_stack() {
    let (mut alloc, mut mem) = setup();
    let mut space = MemorySet::new_kernel(&layout(), &mut alloc, &mut mem).unwrap();
    let top = TRAMPOLINE - 0x3000;
    let bottom = top - 0x2000;
    let rw = MapPermission::of(PERM_R).union(MapPermission::of(PERM_W));
    assert!(space.insert_framed_area(VirtAddr(bottom), VirtAddr(top), rw, &mut alloc, &mut mem));
    assert_eq!(space.area_count(), 6);
    for va in [bottom, top - 1] {
        let entry = space.translate(VirtAddr(va).floor(), &mem).unwrap();
        assert_eq!(entry.flags(), PTEFlags::of(FLAG_R | FLAG_W | FLAG_V));
        assert!(alloc.is_allocated(entry.ppn()));
    }
    let guard = space.translate(VirtAddr(top).floor(), &mem);
    assert!(guard.is_none() || !guard.unwrap().is_valid());
}

#[test]
fn kernel_stacks_lie_below_the_landing_pad() {
    assert_eq!(
        kernel_stack_position(0),
        (0xffff_ffff_ffff_d000, 0xffff_ffff_ffff_f000)
    );
    assert_eq!(
        kernel_stack_position(1),
        (0xffff_ffff_ffff_a000, 0xffff_ffff_ffff_c000)
    );
    assert_eq!(
        kernel_stack_position(2),
        (0xffff_ffff_ffff_7000, 0xffff_ffff_ffff_9000)
    );
}

#[test]
fn kernel_stacks_end_where_the_addresses_end() {
    let last: usize = 0x5_5555_5555_5554;
    assert!(kernel_stack_fits(0));
    assert!(kernel_stack_fits(last));
    assert!(!kernel_stack_fits(last + 1));
    assert!(!kernel_stack_fits(usize::MAX));
    let (bottom, top) = kernel_stack_position(last);
    assert_eq!(top - bottom, 0x2000);
    assert_eq!(top, 0xffff_ffff_ffff_f000 - 0x3000 * 0x5_5555_5555_5554u64);
}
