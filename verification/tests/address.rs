use kernel_mm::config::{PAGE_SIZE, PAGE_SIZE_BITS, TRAMPOLINE, TRAP_CONTEXT};
use kernel_mm::{PhysAddr, PhysPageNum, SimpleRange, SimpleRangeIterator, StepByOne, VPNRange, VirtAddr, VirtPageNum};

#[test]
fn floor_and_ceil_of_an_unaligned_address() {
    let va = VirtAddr(0x1234);
    assert_eq!(va.floor(), VirtPageNum(1));
    assert_eq!(va.ceil(), VirtPageNum(2));
    assert_eq!(va.page_offset(), 0x234);
    assert!(!va.aligned());
}

#[test]
fn floor_and_ceil_agree_on_a_page_boundary() {
    let va = VirtAddr(0x2000);
    assert_eq!(va.floor(), VirtPageNum(2));
    assert_eq!(va.ceil(), VirtPageNum(2));
    assert_eq!(va.page_offset(), 0);
    assert!(va.aligned());
}

#[test]
fn floor_and_ceil_agree_only_on_page_boundaries() {
    for addr in [0u64, 1, 0xfff, 0x1000, 0x1001, 0x7fff_f000, 0x7fff_ffff, TRAP_CONTEXT, TRAMPOLINE] {
        let va = VirtAddr(addr);
        assert_eq!(va.floor() == va.ceil(), va.aligned(), "address {:#x}", addr);
        let pa = PhysAddr(addr);
        assert_eq!(pa.floor() == pa.ceil(), pa.aligned(), "address {:#x}", addr);
    }
}

#[test]
fn ceil_at_the_ends_of_the_address_range() {
    assert_eq!(VirtAddr(0).ceil(), VirtPageNum(0));
    assert_eq!(VirtAddr(0).floor(), VirtPageNum(0));
    assert_eq!(VirtAddr(1).ceil(), VirtPageNum(1));
    assert_eq!(VirtAddr(u64::MAX).floor(), VirtPageNum((1 << 52) - 1));
    assert_eq!(VirtAddr(u64::MAX).ceil(), VirtPageNum(1 << 52));
    assert_eq!(VirtAddr(TRAMPOLINE).floor(), VirtPageNum((1 << 52) - 1));
    assert_eq!(VirtAddr(TRAMPOLINE).ceil(), VirtPageNum((1 << 52) - 1));
    assert_eq!(VirtAddr(TRAP_CONTEXT).floor(), VirtPageNum((1 << 52) - 2));
}

#[test]
fn physical_addresses_round_like_virtual_ones() {
    let pa = PhysAddr(0x8020_0abc);
    assert_eq!(pa.floor(), PhysPageNum(0x80200));
    assert_eq!(pa.ceil(), PhysPageNum(0x80201));
    assert_eq!(pa.page_offset(), 0xabc);
    assert!(!pa.aligned());
    assert!(PhysAddr(0x8020_0000).aligned());
    assert_eq!(PhysAddr(0x8020_0000).ceil(), PhysPageNum(0x80200));
}

#[test]
fn page_number_to_address_and_back() {
    for vpn in [0u64, 1, 0x12345, 0x7ff_ffff, (1 << 52) - 2, (1 << 52) - 1] {
        let va: VirtAddr = VirtPageNum(vpn).into();
        assert_eq!(va.0, vpn << PAGE_SIZE_BITS);
        assert!(va.aligned());
        assert_eq!(va.floor(), VirtPageNum(vpn));
        assert_eq!(VirtPageNum::from_addr(va), VirtPageNum(vpn));
    }
    let pa: PhysAddr = PhysPageNum(0x80400).into();
    assert_eq!(pa, PhysAddr(0x8040_0000));
    assert_eq!(PhysPageNum::from_addr(pa), PhysPageNum(0x80400));
}

#[test]
fn conversions_from_and_to_words() {
    let va: VirtAddr = 0x1000u64.into();
    assert_eq!(va, VirtAddr(0x1000));
    assert_eq!(u64::from(va), 0x1000);
    let pa: PhysAddr = 0x2000u64.into();
    assert_eq!(u64::from(pa), 0x2000);
    let vpn: VirtPageNum = 7u64.into();
    assert_eq!(u64::from(vpn), 7);
    let ppn: PhysPageNum = 9u64.into();
    assert_eq!(u64::from(ppn), 9);
    assert_eq!(PAGE_SIZE, 1 << PAGE_SIZE_BITS);
}

#[test]
fn indexes_take_nine_bits_each_highest_first() {
    assert_eq!(VirtPageNum((3 << 18) | (2 << 9) | 1).indexes(), [3, 2, 1]);
    assert_eq!(VirtPageNum(0x12345).indexes(), [0, 0x91, 0x145]);
    assert_eq!(VirtPageNum(0).indexes(), [0, 0, 0]);
    assert_eq!(VirtPageNum(0x7ff_ffff).indexes(), [511, 511, 511]);
}

#[test]
fn indexes_ignore_the_bits_above_the_low_27() {
    assert_eq!(VirtPageNum((1 << 27) | 0x12345).indexes(), VirtPageNum(0x12345).indexes());
    assert_eq!(VirtPageNum((1 << 52) - 1).indexes(), [511, 511, 511]);
    assert_eq!(VirtPageNum((1 << 52) - 2).indexes(), [511, 511, 510]);
}

#[test]
fn page_numbers_are_ordered_by_their_number() {
    assert!(VirtPageNum(1) < VirtPageNum(2));
    assert!(PhysPageNum(0x80000) > PhysPageNum(0x7ffff));
    assert!(VirtAddr(5) <= VirtAddr(5));
}

#[test]
fn step_moves_on_by_one_page() {
    let mut vpn = VirtPageNum(41);
    vpn.step();
    assert_eq!(vpn, VirtPageNum(42));
    assert!(vpn.same(&VirtPageNum(42)));
    assert!(!vpn.same(&VirtPageNum(41)));
}

#[test]
fn a_range_walks_from_its_start_to_before_its_end() {
    let range: VPNRange = SimpleRange::new(VirtPageNum(3), VirtPageNum(6));
    assert_eq!(range.get_start(), VirtPageNum(3));
    assert_eq!(range.get_end(), VirtPageNum(6));
    let mut iter = range.into_iter();
    assert_eq!(iter.next(), Some(VirtPageNum(3)));
    assert_eq!(iter.next(), Some(VirtPageNum(4)));
    assert_eq!(iter.next(), Some(VirtPageNum(5)));
    assert_eq!(iter.next(), None);
    assert_eq!(iter.next(), None);
}

#[test]
fn an_empty_range_gives_nothing() {
    let mut iter = SimpleRangeIterator::new(VirtPageNum(9), VirtPageNum(9));
    assert_eq!(iter.next(), None);
}
