//! Physical and virtual addresses, page numbers, and ranges of page numbers.
//!
//! An address counts bytes, a page number counts pages of `PAGE_SIZE` bytes.
//! All four kinds are 64-bit words; the types keep them apart.

use vstd::prelude::*;
use crate::config::{HALF_PAGES, PAGE_SIZE, TABLE_SLOTS, VPN_LIMIT};

verus! {

/// A byte address in physical memory.
#[derive(Copy, Clone, PartialEq, Eq, PartialOrd, Ord, Debug, Structural)]
pub struct PhysAddr(pub u64);

/// A byte address in a virtual address space.
#[derive(Copy, Clone, PartialEq, Eq, PartialOrd, Ord, Debug, Structural)]
pub struct VirtAddr(pub u64);

/// The number of a page frame of physical memory.
#[derive(Copy, Clone, PartialEq, Eq, PartialOrd, Ord, Debug, Structural)]
pub struct PhysPageNum(pub u64);

/// The number of a page of a virtual address space.
#[derive(Copy, Clone, PartialEq, Eq, PartialOrd, Ord, Debug, Structural)]
pub struct VirtPageNum(pub u64);

/// The page number that holds byte address `addr`.
pub open spec fn page_floor(addr: u64) -> u64 {
    addr / PAGE_SIZE
}

/// The first page number at or after byte address `addr`.
pub open spec fn page_ceil(addr: u64) -> u64 {
    ((addr + PAGE_SIZE - 1) / (PAGE_SIZE as int)) as u64
}

/// The byte address at which page `page` starts, cut to 64 bits.
pub open spec fn page_start(page: u64) -> u64 {
    ((page * PAGE_SIZE) % 0x1_0000_0000_0000_0000) as u64
}

fn floor_of(addr: u64) -> (page: u64)
    ensures
        page == page_floor(addr),
{
    addr / PAGE_SIZE
}

fn ceil_of(addr: u64) -> (page: u64)
    ensures
        page == page_ceil(addr),
{
    if addr == 0 {
        0
    } else {
        (addr - 1) / PAGE_SIZE + 1
    }
}

fn offset_of(addr: u64) -> (offset: u64)
    ensures
        offset == addr % PAGE_SIZE,
{
    assert(addr & 0xfff == addr % 0x1000) by (bit_vector);
    addr & (PAGE_SIZE - 1)
}

fn start_of(page: u64) -> (addr: u64)
    ensures
        addr == page_start(page),
{
    assert(page << 12 == (page * 0x1000) % 0x1_0000_0000_0000_0000) by (bit_vector);
    page << 12
}

impl VirtAddr {
    pub open spec fn floor_spec(&self) -> VirtPageNum {
        VirtPageNum(page_floor(self.0))
    }

    pub open spec fn ceil_spec(&self) -> VirtPageNum {
        VirtPageNum(page_ceil(self.0))
    }

    pub open spec fn page_offset_spec(&self) -> u64 {
        (self.0 % PAGE_SIZE) as u64
    }

    pub open spec fn aligned_spec(&self) -> bool {
        self.0 % PAGE_SIZE == 0
    }

    /// The page that holds this address.
    #[verifier::when_used_as_spec(floor_spec)]
    pub fn floor(&self) -> (page: VirtPageNum)
        ensures
            page == self.floor_spec(),
    {
        VirtPageNum(floor_of(self.0))
    }

    /// The first page that starts at or after this address. For an address
    /// on a page boundary that is the page of the address itself.
    #[verifier::when_used_as_spec(ceil_spec)]
    pub fn ceil(&self) -> (page: VirtPageNum)
        ensures
            page == self.ceil_spec(),
    {
        VirtPageNum(ceil_of(self.0))
    }

    /// The distance of this address from the start of its page.
    #[verifier::when_used_as_spec(page_offset_spec)]
    pub fn page_offset(&self) -> (offset: u64)
        ensures
            offset == self.page_offset_spec(),
    {
        offset_of(self.0)
    }

    /// Whether this address is the start of a page.
    #[verifier::when_used_as_spec(aligned_spec)]
    pub fn aligned(&self) -> (yes: bool)
        ensures
            yes == self.aligned_spec(),
    {
        self.page_offset() == 0
    }
}

impl PhysAddr {
    pub open spec fn floor_spec(&self) -> PhysPageNum {
        PhysPageNum(page_floor(self.0))
    }

    pub open spec fn ceil_spec(&self) -> PhysPageNum {
        PhysPageNum(page_ceil(self.0))
    }

    pub open spec fn page_offset_spec(&self) -> u64 {
        (self.0 % PAGE_SIZE) as u64
    }

    pub open spec fn aligned_spec(&self) -> bool {
        self.0 % PAGE_SIZE == 0
    }

    /// The frame that holds this address.
    #[verifier::when_used_as_spec(floor_spec)]
    pub fn floor(&self) -> (page: PhysPageNum)
        ensures
            page == self.floor_spec(),
    {
        PhysPageNum(floor_of(self.0))
    }

    /// The first frame that starts at or after this address.
    #[verifier::when_used_as_spec(ceil_spec)]
    pub fn ceil(&self) -> (page: PhysPageNum)
        ensures
            page == self.ceil_spec(),
    {
        PhysPageNum(ceil_of(self.0))
    }

    /// The distance of this address from the start of its frame.
    #[verifier::when_used_as_spec(page_offset_spec)]
    pub fn page_offset(&self) -> (offset: u64)
        ensures
            offset == self.page_offset_spec(),
    {
        offset_of(self.0)
    }

    /// Whether this address is the start of a frame.
    #[verifier::when_used_as_spec(aligned_spec)]
    pub fn aligned(&self) -> (yes: bool)
        ensures
            yes == self.aligned_spec(),
    {
        self.page_offset() == 0
    }
}

impl From<u64> for PhysAddr {
    fn from(v: u64) -> (r: Self) {
        Self(v)
    }
}

impl vstd::std_specs::convert::FromSpecImpl<u64> for PhysAddr {
    open spec fn obeys_from_spec() -> bool {
        true
    }

    open spec fn from_spec(v: u64) -> Self {
        Self(v)
    }
}

impl From<u64> for PhysPageNum {
    fn from(v: u64) -> (r: Self) {
        Self(v)
    }
}

impl vstd::std_specs::convert::FromSpecImpl<u64> for PhysPageNum {
    open spec fn obeys_from_spec() -> bool {
        true
    }

    open spec fn from_spec(v: u64) -> Self {
        Self(v)
    }
}

impl From<u64> for VirtAddr {
    fn from(v: u64) -> (r: Self) {
        Self(v)
    }
}

impl vstd::std_specs::convert::FromSpecImpl<u64> for VirtAddr {
    open spec fn obeys_from_spec() -> bool {
        true
    }

    open spec fn from_spec(v: u64) -> Self {
        Self(v)
    }
}

impl From<u64> for VirtPageNum {
    fn from(v: u64) -> (r: Self) {
        Self(v)
    }
}

impl vstd::std_specs::convert::FromSpecImpl<u64> for VirtPageNum {
    open spec fn obeys_from_spec() -> bool {
        true
    }

    open spec fn from_spec(v: u64) -> Self {
        Self(v)
    }
}

impl From<PhysAddr> for u64 {
    fn from(v: PhysAddr) -> (r: Self) {
        v.0
    }
}

impl vstd::std_specs::convert::FromSpecImpl<PhysAddr> for u64 {
    open spec fn obeys_from_spec() -> bool {
        true
    }

    open spec fn from_spec(v: PhysAddr) -> Self {
        v.0
    }
}

impl From<PhysPageNum> for u64 {
    fn from(v: PhysPageNum) -> (r: Self) {
        v.0
    }
}

impl vstd::std_specs::convert::FromSpecImpl<PhysPageNum> for u64 {
    open spec fn obeys_from_spec() -> bool {
        true
    }

    open spec fn from_spec(v: PhysPageNum) -> Self {
        v.0
    }
}

impl From<VirtAddr> for u64 {
    fn from(v: VirtAddr) -> (r: Self) {
        v.0
    }
}

impl vstd::std_specs::convert::FromSpecImpl<VirtAddr> for u64 {
    open spec fn obeys_from_spec() -> bool {
        true
    }

    open spec fn from_spec(v: VirtAddr) -> Self {
        v.0
    }
}

impl From<VirtPageNum> for u64 {
    fn from(v: VirtPageNum) -> (r: Self) {
        v.0
    }
}

impl vstd::std_specs::convert::FromSpecImpl<VirtPageNum> for u64 {
    open spec fn obeys_from_spec() -> bool {
        true
    }

    open spec fn from_spec(v: VirtPageNum) -> Self {
        v.0
    }
}

/// The start address of a page: the page number shifted up by the page bits.
impl From<VirtPageNum> for VirtAddr {
    fn from(v: VirtPageNum) -> (r: Self) {
        Self(start_of(v.0))
    }
}

impl vstd::std_specs::convert::FromSpecImpl<VirtPageNum> for VirtAddr {
    open spec fn obeys_from_spec() -> bool {
        true
    }

    open spec fn from_spec(v: VirtPageNum) -> Self {
        Self(page_start(v.0))
    }
}

/// The start address of a frame: the frame number shifted up by the page bits.
impl From<PhysPageNum> for PhysAddr {
    fn from(v: PhysPageNum) -> (r: Self) {
        Self(start_of(v.0))
    }
}

impl vstd::std_specs::convert::FromSpecImpl<PhysPageNum> for PhysAddr {
    open spec fn obeys_from_spec() -> bool {
        true
    }

    open spec fn from_spec(v: PhysPageNum) -> Self {
        Self(page_start(v.0))
    }
}

impl VirtPageNum {
    /// The page that starts at `addr`. The address has to be the start of
    /// a page: the conversion is not meant to round.
    pub fn from_addr(addr: VirtAddr) -> (page: VirtPageNum)
        requires
            addr.aligned(),
        ensures
            page == addr.floor(),
            page_start(page.0) == addr.0,
    {
        addr.floor()
    }

    /// The address at which this page starts.
    pub open spec fn start_addr(&self) -> VirtAddr {
        VirtAddr(page_start(self.0))
    }

    /// The index that this page number gives for `level` of the table, level 0
    /// being the root: nine bits each, taken from the low 27 bits of the
    /// number, the highest nine first.
    pub open spec fn index(&self, level: int) -> int {
        if level == 0 {
            (self.0 as int / 0x4_0000) % 512
        } else if level == 1 {
            (self.0 as int / 0x200) % 512
        } else {
            self.0 as int % 512
        }
    }

    /// The three indexes of a walk with this page number, root level first.
    pub open spec fn indexes_spec(&self) -> Seq<usize> {
        seq![self.index(0) as usize, self.index(1) as usize, self.index(2) as usize]
    }

    /// The slot of the table that a walk with this page number reaches: its
    /// low 27 bits. Bits above those play no part in a walk.
    pub open spec fn slot(&self) -> int {
        self.0 as int % (TABLE_SLOTS as int)
    }

    /// Whether this page number lies in one of the two halves of the address
    /// range between which a three-level walk tells all pages apart: the
    /// lowest 2^26 page numbers and the highest 2^26 below 2^52.
    pub open spec fn is_canonical(&self) -> bool {
        self.0 < HALF_PAGES || (VPN_LIMIT - HALF_PAGES <= self.0 && self.0 < VPN_LIMIT)
    }

    /// The three indexes of a walk with this page number, root level first.
    pub fn indexes(&self) -> (idx: [usize; 3])
        ensures
            idx@ == self.indexes_spec(),
            forall|level: int| 0 <= level < 3 ==> idx@[level] == self.index(level),
            forall|level: int| 0 <= level < 3 ==> idx@[level] < 512,
    {
        let vpn: u64 = self.0;
        let low: u64 = vpn & 511;
        let mid: u64 = (vpn >> 9) & 511;
        let top: u64 = (vpn >> 18) & 511;
        assert(vpn & 511 == vpn % 512) by (bit_vector);
        assert((vpn >> 9) & 511 == (vpn / 0x200) % 512) by (bit_vector);
        assert((vpn >> 18) & 511 == (vpn / 0x4_0000) % 512) by (bit_vector);
        let idx: [usize; 3] = [top as usize, mid as usize, low as usize];
        assert(idx@ =~= self.indexes_spec());
        idx
    }
}

impl PhysPageNum {
    /// The page number that starts at `addr`, which has to be the start of
    /// a frame.
    pub fn from_addr(addr: PhysAddr) -> (page: PhysPageNum)
        requires
            addr.aligned(),
        ensures
            page == addr.floor(),
            page_start(page.0) == addr.0,
    {
        addr.floor()
    }

    /// The address at which this frame starts.
    pub open spec fn start_addr(&self) -> PhysAddr {
        PhysAddr(page_start(self.0))
    }
}

/// Going from a page number to the address of its first byte and back by
/// `floor` gives the page number again, for every page number that an address
/// can have (below 2^52).
pub proof fn page_address_round_trip(page: VirtPageNum)
    requires
        page.0 < VPN_LIMIT,
    ensures
        page.start_addr().floor() == page,
        page.start_addr().ceil() == page,
        page.start_addr().aligned(),
{
}

/// `floor` and `ceil` of an address agree exactly when the address is the
/// start of a page; otherwise `ceil` is the next page.
pub proof fn floor_meets_ceil_iff_aligned(addr: VirtAddr)
    ensures
        addr.floor() == addr.ceil() <==> addr.aligned(),
        !addr.aligned() ==> addr.ceil().0 == addr.floor().0 + 1,
{
}

/// The same two laws for physical addresses and frames.
pub proof fn frame_address_round_trip(page: PhysPageNum, addr: PhysAddr)
    requires
        page.0 < VPN_LIMIT,
    ensures
        page.start_addr().floor() == page,
        addr.floor() == addr.ceil() <==> addr.aligned(),
{
}

/// The three indexes of a page number determine its slot and nothing more:
/// two page numbers walk the same path exactly when their low 27 bits agree.
pub proof fn indexes_determine_slot(a: VirtPageNum, b: VirtPageNum)
    ensures
        (a.index(0) == b.index(0) && a.index(1) == b.index(1) && a.index(2) == b.index(2)) <==> a.slot()
            == b.slot(),
        a.slot() == a.index(0) * 0x4_0000 + a.index(1) * 0x200 + a.index(2),
        0 <= a.index(0) < 512,
        0 <= a.index(1) < 512,
        0 <= a.index(2) < 512,
{
    slot_from_indexes(a.0);
    slot_from_indexes(b.0);
}

proof fn slot_from_indexes(x: u64)
    ensures
        x % 0x800_0000 == ((x / 0x4_0000) % 512) * 0x4_0000 + ((x / 0x200) % 512) * 0x200 + x % 512,
        (x / 0x4_0000) % 512 == (x % 0x800_0000) / 0x4_0000,
        (x / 0x200) % 512 == ((x % 0x800_0000) / 0x200) % 512,
        x % 512 == (x % 0x800_0000) % 512,
{
    assert(x % 0x800_0000 == ((x / 0x4_0000) % 512) * 0x4_0000 + ((x / 0x200) % 512) * 0x200 + x
        % 512) by (bit_vector);
    assert((x / 0x4_0000) % 512 == (x % 0x800_0000) / 0x4_0000) by (bit_vector);
    assert((x / 0x200) % 512 == ((x % 0x800_0000) / 0x200) % 512) by (bit_vector);
    assert(x % 512 == (x % 0x800_0000) % 512) by (bit_vector);
}

/// Within the two canonical halves no two page numbers share a slot.
pub proof fn canonical_pages_have_own_slots(a: VirtPageNum, b: VirtPageNum)
    requires
        a.is_canonical(),
        b.is_canonical(),
        a.slot() == b.slot(),
    ensures
        a == b,
{
}

/// Whether the pages `start .. end` lie in one of the two halves of the
/// address range within which a walk tells all pages apart.
pub open spec fn canonical_range(start: u64, end: u64) -> bool {
    start <= end && (end <= HALF_PAGES || (VPN_LIMIT - HALF_PAGES <= start && end <= VPN_LIMIT))
}

/// Within one canonical half the indexes of the first two levels grow with
/// the page number: a later page never comes before an earlier one in the
/// table.
pub proof fn indexes_grow_with_pages(a: VirtPageNum, b: VirtPageNum)
    requires
        a.0 <= b.0,
        canonical_range(a.0, (b.0 + 1) as u64),
    ensures
        a.index(0) <= b.index(0),
        a.index(0) * 512 + a.index(1) <= b.index(0) * 512 + b.index(1),
        a.index(0) * 512 + a.index(1) == b.index(0) * 512 + b.index(1) <==> a.index(0) == b.index(0)
            && a.index(1) == b.index(1),
{
    let x = a.0;
    let y = b.0;
    slot_from_indexes(x);
    slot_from_indexes(y);
    assert(x <= y && y < 0x400_0000 ==> (x / 0x4_0000) % 512 <= (y / 0x4_0000) % 512 && ((x
        / 0x4_0000) % 512) * 512 + (x / 0x200) % 512 <= ((y / 0x4_0000) % 512) * 512 + (y / 0x200)
        % 512) by (bit_vector);
    assert(x <= y && 0xf_ffff_fc00_0000 <= x && y < 0x10_0000_0000_0000 ==> (x / 0x4_0000) % 512
        <= (y / 0x4_0000) % 512 && ((x / 0x4_0000) % 512) * 512 + (x / 0x200) % 512 <= ((y
        / 0x4_0000) % 512) * 512 + (y / 0x200) % 512) by (bit_vector);
}

/// A type whose values can be walked through one by one.
pub trait StepByOne: Sized {
    /// The place of a value in the walk.
    spec fn rank(&self) -> int;

    /// Whether a value has a successor.
    spec fn can_step(&self) -> bool;

    /// Moves on to the successor.
    fn step(&mut self)
        requires
            old(self).can_step(),
        ensures
            final(self).rank() == old(self).rank() + 1,
    ;

    /// Whether two values stand at the same place.
    fn same(&self, other: &Self) -> (yes: bool)
        ensures
            yes == (self.rank() == other.rank()),
    ;
}

impl StepByOne for VirtPageNum {
    open spec fn rank(&self) -> int {
        self.0 as int
    }

    open spec fn can_step(&self) -> bool {
        self.0 < u64::MAX
    }

    fn step(&mut self) {
        self.0 += 1;
    }

    fn same(&self, other: &Self) -> (yes: bool) {
        self.0 == other.0
    }
}

/// A half-open range `[start, end)` of values of one type.
pub struct SimpleRange<T: StepByOne + Copy> {
    l: T,
    r: T,
}

impl<T: StepByOne + Copy> Clone for SimpleRange<T> {
    fn clone(&self) -> (copy: Self)
        ensures
            copy == *self,
    {
        *self
    }
}

impl<T: StepByOne + Copy> Copy for SimpleRange<T> {

}

impl<T: StepByOne + Copy> SimpleRange<T> {
    /// The first value of the range.
    pub closed spec fn start(&self) -> T {
        self.l
    }

    /// The value that ends the range, and is no part of it.
    pub closed spec fn end(&self) -> T {
        self.r
    }

    /// Every range starts at or before its end.
    pub closed spec fn wf(&self) -> bool {
        self.l.rank() <= self.r.rank()
    }

    /// The range from `start` up to, not including, `end`.
    pub fn new(start: T, end: T) -> (range: Self)
        requires
            start.rank() <= end.rank(),
        ensures
            range.start() == start,
            range.end() == end,
            range.wf(),
    {
        Self { l: start, r: end }
    }

    /// The first value of the range.
    #[verifier::when_used_as_spec(start)]
    pub fn get_start(&self) -> (start: T)
        ensures
            start == self.start(),
    {
        self.l
    }

    /// The value that ends the range.
    #[verifier::when_used_as_spec(end)]
    pub fn get_end(&self) -> (end: T)
        ensures
            end == self.end(),
    {
        self.r
    }

    /// A walk through the values of this range, from its start.
    pub fn into_iter(self) -> (iter: SimpleRangeIterator<T>)
        ensures
            iter.current() == self.start(),
            iter.end() == self.end(),
    {
        SimpleRangeIterator::new(self.l, self.r)
    }
}

/// A walk through a range: the value it stands at, and the end.
pub struct SimpleRangeIterator<T: StepByOne + Copy> {
    current: T,
    end: T,
}

impl<T: StepByOne + Copy> SimpleRangeIterator<T> {
    /// The value that the walk stands at.
    pub closed spec fn current(&self) -> T {
        self.current
    }

    /// The value at which the walk ends.
    pub closed spec fn end(&self) -> T {
        self.end
    }

    /// A walk that stands at `l` and ends at `r`.
    pub fn new(l: T, r: T) -> (iter: Self)
        ensures
            iter.current() == l,
            iter.end() == r,
    {
        Self { current: l, end: r }
    }

    /// The value the walk stands at, after which the walk moves on by one; or
    /// nothing once the walk stands at the end.
    pub fn next(&mut self) -> (item: Option<T>)
        requires
            old(self).current().rank() != old(self).end().rank() ==> old(self).current().can_step(),
        ensures
            final(self).end() == old(self).end(),
            old(self).current().rank() == old(self).end().rank() ==> item.is_none()
                && final(self).current() == old(self).current(),
            old(self).current().rank() != old(self).end().rank() ==> item == Some(old(self).current())
                && final(self).current().rank() == old(self).current().rank() + 1,
    {
        if self.current.same(&self.end) {
            None
        } else {
            let t = self.current;
            self.current.step();
            Some(t)
        }
    }
}

/// A range of virtual page numbers.
pub type VPNRange = SimpleRange<VirtPageNum>;

} // verus!
