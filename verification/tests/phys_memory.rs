use kernel_mm::{PhysMemory, PhysPageNum};

#[test]
fn a_new_arena_is_all_zero() {
    let mem = PhysMemory::new(PhysPageNum(0x100), 3);
    assert_eq!(mem.first(), PhysPageNum(0x100));
    assert_eq!(mem.frames(), 3);
    for p in 0x100..0x103 {
        assert!(mem.holds(PhysPageNum(p)));
        assert_eq!(mem.page_bytes(PhysPageNum(p)).len(), 4096);
        assert!(mem.page_bytes(PhysPageNum(p)).iter().all(|b| *b == 0));
        assert_eq!(mem.read_word(PhysPageNum(p), 0), 0);
        assert_eq!(mem.read_word(PhysPageNum(p), 511), 0);
    }
    assert!(!mem.holds(PhysPageNum(0xff)));
    assert!(!mem.holds(PhysPageNum(0x103)));
}

#[test]
fn words_lie_in_a_frame_low_byte_first() {
    let mut mem = PhysMemory::new(PhysPageNum(0x100), 2);
    mem.write_word(PhysPageNum(0x101), 2, 0x0102_0304_0506_0708);
    assert_eq!(mem.read_word(PhysPageNum(0x101), 2), 0x0102_0304_0506_0708);
    assert_eq!(mem.read_word(PhysPageNum(0x101), 1), 0);
    assert_eq!(mem.read_word(PhysPageNum(0x101), 3), 0);
    assert_eq!(mem.read_word(PhysPageNum(0x100), 2), 0);
    let bytes = mem.page_bytes(PhysPageNum(0x101));
    assert_eq!(&bytes[16..24], &[8, 7, 6, 5, 4, 3, 2, 1]);
    assert_eq!(bytes[15], 0);
    assert_eq!(bytes[24], 0);
}

#[test]
fn bytes_are_written_at_the_start_of_a_frame() {
    let mut mem = PhysMemory::new(PhysPageNum(0x100), 2);
    mem.write_bytes(PhysPageNum(0x100), &[0xaa; 4096]);
    mem.write_bytes(PhysPageNum(0x100), &[1, 2, 3]);
    let bytes = mem.page_bytes(PhysPageNum(0x100));
    assert_eq!(&bytes[..5], &[1, 2, 3, 0xaa, 0xaa]);
    assert_eq!(bytes[4095], 0xaa);
    assert!(mem.page_bytes(PhysPageNum(0x101)).iter().all(|b| *b == 0));
    assert_eq!(mem.read_word(PhysPageNum(0x100), 0), 0xaaaa_aaaa_aa03_0201);
    assert_eq!(PhysPageNum(0x100).get_bytes_array(&mem)[1], 2);
}

#[test]
fn clearing_a_frame_leaves_the_others() {
    let mut mem = PhysMemory::new(PhysPageNum(0x100), 2);
    mem.write_bytes(PhysPageNum(0x100), &[5; 100]);
    mem.write_bytes(PhysPageNum(0x101), &[6; 100]);
    mem.clear_page(PhysPageNum(0x100));
    assert!(mem.page_bytes(PhysPageNum(0x100)).iter().all(|b| *b == 0));
    assert_eq!(mem.page_bytes(PhysPageNum(0x101))[99], 6);
    assert_eq!(mem.page_bytes(PhysPageNum(0x101))[100], 0);
}

#[test]
fn bytes_are_written_anywhere_within_a_frame() {
    let mut mem = PhysMemory::new(PhysPageNum(0x100), 2);
    mem.write_at(PhysPageNum(0x101), 4090, &[1, 2, 3, 4, 5, 6]);
    mem.write_at(PhysPageNum(0x101), 10, &[9]);
    mem.write_at(PhysPageNum(0x101), 20, &[]);
    let bytes = mem.page_bytes(PhysPageNum(0x101));
    assert_eq!(&bytes[4089..], &[0, 1, 2, 3, 4, 5, 6]);
    assert_eq!(&bytes[9..12], &[0, 9, 0]);
    assert_eq!(bytes.iter().filter(|b| **b != 0).count(), 7);
    assert!(mem.page_bytes(PhysPageNum(0x100)).iter().all(|b| *b == 0));
}
