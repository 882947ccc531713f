use kernel_mm::config::TRAP_CONTEXT;
use kernel_mm::{
    sys_mmap, sys_munmap, ElfImage, ElfSegment, KernelLayout, MemorySet, PageTableEntry, PhysAddr, PhysMemory,
    PhysPageNum, StackFrameAllocator, VirtAddr, VirtPageNum,
};

fn layout() -> KernelLayout {
    KernelLayout {
        stext: 0x8020_0000,
        etext: 0x8020_2000,
        srodata: 0x8020_2000,
        erodata: 0x8020_3000,
        sdata: 0x8020_3000,
        edata: 0x8020_4000,
        sbss_with_stack: 0x8020_4000,
        ebss: 0x8020_6000,
        ekernel: 0x8020_6000,
        memory_end: 0x8030_0000,
        strampoline: 0x8020_1000,
    }
}

fn program(first: u64) -> (ElfImage, Vec<u8>) {
    let data: Vec<u8> = (0..64u8).map(|b| b ^ first as u8).collect();
    let image = ElfImage {
        entry: 0x1_0000,
        segments: vec![ElfSegment {
            loadable: true,
            vaddr: 0x1_0000,
            mem_size: 0x2000,
            offset: 0,
            file_size: 64,
            readable: true,
            writable: true,
            executable: false,
        }],
    };
    (image, data)
}

fn snapshot(space: &MemorySet, mem: &PhysMemory) -> Vec<(u64, Option<PageTableEntry>, Option<Vec<u8>>)> {
    let mut pages: Vec<u64> = (0x10..0x18).collect();
    pages.extend(0x80200..0x80208);
    pages.push(VirtAddr(TRAP_CONTEXT).floor().0);
    pages.push((1 << 52) - 1);
    pages
        .into_iter()
        .map(|v| {
            let entry = space.translate(VirtPageNum(v), mem);
            let bytes = match entry {
                Some(e) if e.is_valid() && mem.holds(e.ppn()) && v < 0x80000 => Some(mem.page_bytes(e.ppn()).to_vec()),
                _ => None,
            };
            (v, entry, bytes)
        })
        .collect()
}

fn frames_of(space: &MemorySet, mem: &PhysMemory) -> Vec<PhysPageNum> {
    let mut frames = Vec::new();
    for v in (0x10..0x18).chain([(1 << 52) - 2]) {
        if let Some(e) = space.translate(VirtPageNum(v), mem) {
            if e.is_valid() {
                frames.push(e.ppn());
            }
        }
    }
    frames
}

#[test]
fn address_spaces_that_share_an_allocator_leave_each_other_alone() {
    let mut mem = PhysMemory::new(PhysPageNum(0x80206), 0xfa);
    let mut alloc = StackFrameAllocator::new();
    alloc.init(PhysPageNum(0x80206), PhysPageNum(0x80300));
    let kernel = MemorySet::new_kernel(&layout(), &mut alloc, &mut mem).unwrap();
    let code = PhysAddr(layout().strampoline);
    let (image_a, data_a) = program(1);
    let (image_b, data_b) = program(2);
    let (mut a, _, _) = MemorySet::from_image(&image_a, &data_a, code, &mut alloc, &mut mem).unwrap();
    let (b, _, _) = MemorySet::from_image(&image_b, &data_b, code, &mut alloc, &mut mem).unwrap();
    assert_ne!(a.token(), b.token());
    assert_ne!(a.token(), kernel.token());

    // no frame is shared
    let mut all = frames_of(&a, &mem);
    all.extend(frames_of(&b, &mem));
    let count = all.len();
    all.sort();
    all.dedup();
    assert_eq!(all.len(), count);
    assert_eq!(count, 2 * (2 + 2 + 1));

    // each space holds its own bytes
    let first_a = a.translate(VirtPageNum(0x10), &mem).unwrap().ppn();
    let first_b = b.translate(VirtPageNum(0x10), &mem).unwrap().ppn();
    assert_eq!(&mem.page_bytes(first_a)[..64], &data_a[..]);
    assert_eq!(&mem.page_bytes(first_b)[..64], &data_b[..]);

    // what one space does changes nothing in the others
    let kernel_before = snapshot(&kernel, &mem);
    let b_before = snapshot(&b, &mem);
    assert_eq!(sys_mmap(&mut a, 0x1000_0000, 0x3000, 3, &mut alloc, &mut mem), 0);
    assert_eq!(sys_mmap(&mut a, 0x1_7000, 0x1000, 1, &mut alloc, &mut mem), 0);
    assert_eq!(snapshot(&kernel, &mem), kernel_before);
    assert_eq!(snapshot(&b, &mem), b_before);
    assert_eq!(sys_munmap(&mut a, 0x1000_0000, 0x3000, &mut alloc, &mut mem), 0);
    assert_eq!(snapshot(&kernel, &mem), kernel_before);
    assert_eq!(snapshot(&b, &mem), b_before);

    // nor does its end, and its frames serve the next
    a.release(&mut alloc, &mem);
    assert_eq!(snapshot(&kernel, &mem), kernel_before);
    assert_eq!(snapshot(&b, &mem), b_before);
    let (image_c, data_c) = program(3);
    let (c, _, _) = MemorySet::from_image(&image_c, &data_c, code, &mut alloc, &mut mem).unwrap();
    assert_eq!(snapshot(&kernel, &mem), kernel_before);
    assert_eq!(snapshot(&b, &mem), b_before);
    let first_c = c.translate(VirtPageNum(0x10), &mem).unwrap().ppn();
    assert_eq!(&mem.page_bytes(first_c)[..64], &data_c[..]);
    assert!(mem.page_bytes(first_c)[64..].iter().all(|x| *x == 0));
    let second_c = c.translate(VirtPageNum(0x11), &mem).unwrap().ppn();
    assert!(mem.page_bytes(second_c).iter().all(|x| *x == 0));
}

#[test]
fn frames_are_neither_lost_nor_made() {
    let mut mem = PhysMemory::new(PhysPageNum(0x80206), 0x40);
    let mut alloc = StackFrameAllocator::new();
    alloc.init(PhysPageNum(0x80206), PhysPageNum(0x80246));
    let free = |alloc: &StackFrameAllocator| {
        let mut n = 0u64;
        while alloc.has_free(n + 1) {
            n += 1;
        }
        n
    };
    let code = PhysAddr(layout().strampoline);
    for round in 0..3 {
        let (image, data) = program(round);
        let (mut space, _, _) = MemorySet::from_image(&image, &data, code, &mut alloc, &mut mem).unwrap();
        assert_eq!(free(&alloc), 0x40 - 10);
        assert_eq!(sys_mmap(&mut space, 0x1000_0000, 0x2000, 3, &mut alloc, &mut mem), 0);
        assert_eq!(free(&alloc), 0x40 - 10 - 3);
        assert_eq!(sys_munmap(&mut space, 0x1000_0000, 0x2000, &mut alloc, &mut mem), 0);
        assert_eq!(free(&alloc), 0x40 - 10 - 1);
        space.release(&mut alloc, &mem);
        assert_eq!(free(&alloc), 0x40);
    }
}
