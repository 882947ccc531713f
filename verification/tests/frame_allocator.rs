use kernel_mm::{
    frame_alloc, frame_dealloc, init_frame_allocator, FrameTracker, PhysAddr, PhysMemory, PhysPageNum,
    StackFrameAllocator,
};

fn setup(first: u64, frames: usize) -> (StackFrameAllocator, PhysMemory) {
    let mem = PhysMemory::new(PhysPageNum(first), frames);
    let mut alloc = StackFrameAllocator::new();
    alloc.init(PhysPageNum(first), PhysPageNum(first + frames as u64));
    (alloc, mem)
}

#[test]
fn frame_allocator_test() {
    let (mut alloc, mut mem) = setup(0x80400, 16);
    let mut v: Vec<FrameTracker> = Vec::new();
    for _ in 0..5 {
        let frame = frame_alloc(&mut alloc, &mut mem).unwrap();
        v.push(frame);
    }
    let first: Vec<u64> = v.iter().map(|f| f.ppn.0).collect();
    assert_eq!(first, vec![0x80400, 0x80401, 0x80402, 0x80403, 0x80404]);
    while let Some(frame) = v.pop() {
        frame_dealloc(&mut alloc, frame);
    }
    for _ in 0..5 {
        let frame = frame_alloc(&mut alloc, &mut mem).unwrap();
        v.push(frame);
    }
    let second: Vec<u64> = v.iter().map(|f| f.ppn.0).collect();
    assert_eq!(second, vec![0x80400, 0x80401, 0x80402, 0x80403, 0x80404]);
}

#[test]
fn a_fresh_allocator_hands_out_nothing() {
    let mut alloc = StackFrameAllocator::new();
    assert_eq!(alloc.allocate(), None);
    assert!(alloc.has_free(0));
    assert!(!alloc.has_free(1));
}

#[test]
fn frames_come_in_order_until_the_range_is_used_up() {
    let mut alloc = StackFrameAllocator::new();
    alloc.init(PhysPageNum(10), PhysPageNum(13));
    assert!(alloc.has_free(3));
    assert!(!alloc.has_free(4));
    assert_eq!(alloc.allocate(), Some(PhysPageNum(10)));
    assert_eq!(alloc.allocate(), Some(PhysPageNum(11)));
    assert_eq!(alloc.allocate(), Some(PhysPageNum(12)));
    assert_eq!(alloc.allocate(), None);
    assert_eq!(alloc.allocate(), None);
    assert!(!alloc.has_free(1));
}

#[test]
fn the_frame_handed_back_last_comes_out_first() {
    let mut alloc = StackFrameAllocator::new();
    alloc.init(PhysPageNum(10), PhysPageNum(20));
    let a = alloc.allocate().unwrap();
    let b = alloc.allocate().unwrap();
    let c = alloc.allocate().unwrap();
    assert_eq!((a, b, c), (PhysPageNum(10), PhysPageNum(11), PhysPageNum(12)));
    alloc.dealloc(a);
    alloc.dealloc(c);
    assert_eq!(alloc.allocate(), Some(PhysPageNum(12)));
    assert_eq!(alloc.allocate(), Some(PhysPageNum(10)));
    assert_eq!(alloc.allocate(), Some(PhysPageNum(13)));
}

#[test]
fn freeing_in_any_order_gives_the_same_frames_again() {
    let mut alloc = StackFrameAllocator::new();
    alloc.init(PhysPageNum(100), PhysPageNum(200));
    let mut first: Vec<PhysPageNum> = (0..7).map(|_| alloc.allocate().unwrap()).collect();
    let back = [3usize, 0, 6, 2, 5, 1, 4];
    for i in back {
        alloc.dealloc(first[i]);
    }
    let mut second: Vec<PhysPageNum> = (0..7).map(|_| alloc.allocate().unwrap()).collect();
    let reversed: Vec<PhysPageNum> = back.iter().rev().map(|i| first[*i]).collect();
    assert_eq!(second, reversed);
    first.sort();
    second.sort();
    assert_eq!(first, second);
    assert_eq!(alloc.allocate(), Some(PhysPageNum(107)));
}

#[test]
fn only_frames_in_use_may_be_handed_back() {
    let mut alloc = StackFrameAllocator::new();
    alloc.init(PhysPageNum(10), PhysPageNum(20));
    let a = alloc.allocate().unwrap();
    assert!(alloc.is_allocated(a));
    // never handed out: at and above the high-water mark
    assert!(!alloc.is_allocated(PhysPageNum(11)));
    assert!(!alloc.is_allocated(PhysPageNum(19)));
    assert!(!alloc.is_allocated(PhysPageNum(1000)));
    alloc.dealloc(a);
    // handed back already
    assert!(!alloc.is_allocated(a));
    let b = alloc.allocate().unwrap();
    assert_eq!(a, b);
    assert!(alloc.is_allocated(b));
}

#[test]
fn a_frame_comes_out_cleared() {
    let (mut alloc, mut mem) = setup(0x80400, 4);
    let frame = frame_alloc(&mut alloc, &mut mem).unwrap();
    let ppn = frame.ppn;
    assert!(mem.page_bytes(ppn).iter().all(|b| *b == 0));
    mem.write_bytes(ppn, &[1, 2, 3, 4]);
    mem.write_word(ppn, 511, u64::MAX);
    assert_eq!(&mem.page_bytes(ppn)[..4], &[1, 2, 3, 4]);
    frame_dealloc(&mut alloc, frame);
    let again = frame_alloc(&mut alloc, &mut mem).unwrap();
    assert_eq!(again.ppn, ppn);
    assert!(mem.page_bytes(ppn).iter().all(|b| *b == 0));
}

#[test]
fn no_frame_and_no_change_once_the_allocator_is_exhausted() {
    let (mut alloc, mut mem) = setup(0x80400, 2);
    let a = frame_alloc(&mut alloc, &mut mem).unwrap();
    let _b = frame_alloc(&mut alloc, &mut mem).unwrap();
    mem.write_bytes(a.ppn, &[9]);
    assert!(frame_alloc(&mut alloc, &mut mem).is_none());
    assert_eq!(mem.page_bytes(a.ppn)[0], 9);
    assert!(alloc.is_allocated(a.ppn));
}

#[test]
fn the_allocator_is_given_the_memory_behind_the_kernel() {
    let mut alloc = StackFrameAllocator::new();
    init_frame_allocator(&mut alloc, PhysAddr(0x8022_0123), PhysAddr(0x8080_0000));
    assert_eq!(alloc.allocate(), Some(PhysPageNum(0x80221)));
    assert!(alloc.has_free(0x80800 - 0x80222));
    assert!(!alloc.has_free(0x80800 - 0x80222 + 1));
}

#[test]
fn a_handle_clears_its_frame() {
    let mut mem = PhysMemory::new(PhysPageNum(5), 2);
    mem.write_bytes(PhysPageNum(6), &[7; 4096]);
    let frame = FrameTracker::new(PhysPageNum(6), &mut mem);
    assert_eq!(frame.ppn, PhysPageNum(6));
    assert!(mem.page_bytes(PhysPageNum(6)).iter().all(|b| *b == 0));
}

#[test]
fn a_frame_that_is_not_in_use_is_refused_and_changes_nothing() {
    let mut alloc = StackFrameAllocator::new();
    alloc.init(PhysPageNum(10), PhysPageNum(20));
    let a = alloc.allocate().unwrap();
    let b = alloc.allocate().unwrap();
    assert!(!alloc.try_dealloc(PhysPageNum(12)));
    assert!(!alloc.try_dealloc(PhysPageNum(99)));
    assert!(alloc.try_dealloc(a));
    assert!(!alloc.try_dealloc(a));
    assert!(alloc.has_free(9) && !alloc.has_free(10));
    assert_eq!(alloc.allocate(), Some(a));
    assert_eq!(alloc.allocate(), Some(PhysPageNum(12)));
    assert!(alloc.try_dealloc(b));
}
