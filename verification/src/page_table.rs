//! Page-table entries and the three-level page table.

use vstd::prelude::*;
use crate::address::{
    canonical_range,
    indexes_determine_slot,
    indexes_grow_with_pages,
    PhysPageNum,
    VirtAddr,
    VirtPageNum,
};
use crate::config::{FRAME_LIMIT, PPN_MASK, TOKEN_MODE};
use crate::frame_allocator::{
    frame_alloc,
    frame_dealloc,
    AllocatorState,
    FrameTracker,
    StackFrameAllocator,
};
use crate::phys_memory::PhysMemory;

verus! {

/// The flag bits of a page-table entry: the low eight bits of its word.
#[derive(Copy, Clone, PartialEq, Eq, Debug, Structural)]
pub struct PTEFlags {
    pub bits: u8,
}

/// The entry is in use.
pub const FLAG_V: u8 = 0x01;

/// The page may be read.
pub const FLAG_R: u8 = 0x02;

/// The page may be written.
pub const FLAG_W: u8 = 0x04;

/// The page may be executed.
pub const FLAG_X: u8 = 0x08;

/// The page may be used in user mode.
pub const FLAG_U: u8 = 0x10;

/// The mapping is global.
pub const FLAG_G: u8 = 0x20;

/// The page was accessed.
pub const FLAG_A: u8 = 0x40;

/// The page was written.
pub const FLAG_D: u8 = 0x80;

impl PTEFlags {
    pub open spec fn union_spec(self, other: PTEFlags) -> PTEFlags {
        PTEFlags { bits: self.bits | other.bits }
    }

    pub open spec fn contains_spec(self, other: PTEFlags) -> bool {
        self.bits & other.bits == other.bits
    }

    pub open spec fn of_spec(bits: u8) -> PTEFlags {
        PTEFlags { bits }
    }

    /// The flags whose bits are set in `bits`.
    #[verifier::when_used_as_spec(of_spec)]
    pub fn of(bits: u8) -> (flags: PTEFlags)
        ensures
            flags == Self::of_spec(bits),
    {
        PTEFlags { bits }
    }

    /// No flag set.
    pub fn empty() -> (flags: PTEFlags)
        ensures
            flags.bits == 0,
    {
        PTEFlags { bits: 0 }
    }

    /// The flags of a byte: every bit of a byte is a flag.
    pub fn from_bits(bits: u8) -> (flags: Option<PTEFlags>)
        ensures
            flags == Some(Self::of(bits)),
    {
        Some(PTEFlags { bits })
    }

    /// The byte of these flags.
    pub fn bits(&self) -> (bits: u8)
        ensures
            bits == self.bits,
    {
        self.bits
    }

    /// The flags that are set in `self` or in `other`.
    #[verifier::when_used_as_spec(union_spec)]
    pub fn union(self, other: PTEFlags) -> (flags: PTEFlags)
        ensures
            flags == self.union_spec(other),
    {
        PTEFlags { bits: self.bits | other.bits }
    }

    /// Whether every flag of `other` is set in `self`.
    #[verifier::when_used_as_spec(contains_spec)]
    pub fn contains(self, other: PTEFlags) -> (yes: bool)
        ensures
            yes == self.contains_spec(other),
    {
        self.bits & other.bits == other.bits
    }
}


/// One entry of a page table: a word that holds a frame number in bits 10 to
/// 53 and flags in its low eight bits. Without the flag `V` an entry means
/// nothing, whatever else it holds.
#[derive(Copy, Clone, PartialEq, Eq, Debug, Structural)]
pub struct PageTableEntry {
    pub bits: u64,
}

impl PageTableEntry {
    pub open spec fn new_spec(ppn: PhysPageNum, flags: PTEFlags) -> PageTableEntry {
        PageTableEntry { bits: (ppn.0 << 10) | (flags.bits as u64) }
    }

    pub open spec fn empty_spec() -> PageTableEntry {
        PageTableEntry { bits: 0 }
    }

    pub open spec fn of_spec(bits: u64) -> PageTableEntry {
        PageTableEntry { bits }
    }

    /// The entry that is the word `bits`.
    #[verifier::when_used_as_spec(of_spec)]
    pub fn of(bits: u64) -> (entry: PageTableEntry)
        ensures
            entry == Self::of_spec(bits),
    {
        PageTableEntry { bits }
    }

    pub open spec fn ppn_spec(&self) -> PhysPageNum {
        PhysPageNum((self.bits >> 10) & PPN_MASK)
    }

    pub open spec fn flags_spec(&self) -> PTEFlags {
        PTEFlags { bits: (self.bits & 0xff) as u8 }
    }

    pub open spec fn is_valid_spec(&self) -> bool {
        self.bits & 0x01 != 0
    }

    pub open spec fn readable_spec(&self) -> bool {
        self.bits & 0x02 != 0
    }

    pub open spec fn writable_spec(&self) -> bool {
        self.bits & 0x04 != 0
    }

    pub open spec fn executable_spec(&self) -> bool {
        self.bits & 0x08 != 0
    }

    /// The entry that points to frame `ppn` with `flags`.
    #[verifier::when_used_as_spec(new_spec)]
    pub fn new(ppn: PhysPageNum, flags: PTEFlags) -> (entry: PageTableEntry)
        ensures
            entry == Self::new_spec(ppn, flags),
    {
        PageTableEntry { bits: (ppn.0 << 10) | (flags.bits as u64) }
    }

    /// The entry of all zero bits, which is not valid.
    #[verifier::when_used_as_spec(empty_spec)]
    pub fn empty() -> (entry: PageTableEntry)
        ensures
            entry == Self::empty_spec(),
    {
        PageTableEntry { bits: 0 }
    }

    /// The frame number that the entry holds.
    #[verifier::when_used_as_spec(ppn_spec)]
    pub fn ppn(&self) -> (ppn: PhysPageNum)
        ensures
            ppn == self.ppn_spec(),
    {
        PhysPageNum((self.bits >> 10) & PPN_MASK)
    }

    /// The flags that the entry holds.
    #[verifier::when_used_as_spec(flags_spec)]
    pub fn flags(&self) -> (flags: PTEFlags)
        ensures
            flags == self.flags_spec(),
    {
        let bits: u64 = self.bits;
        let low: u64 = bits & 0xff;
        assert(low < 256) by (bit_vector)
            requires
                low == bits & 0xff,
        ;
        PTEFlags { bits: low as u8 }
    }

    /// Whether the flag `V` is set.
    #[verifier::when_used_as_spec(is_valid_spec)]
    pub fn is_valid(&self) -> (yes: bool)
        ensures
            yes == self.is_valid_spec(),
    {
        self.bits & 0x01 != 0
    }

    /// Whether the flag `R` is set.
    #[verifier::when_used_as_spec(readable_spec)]
    pub fn readable(&self) -> (yes: bool)
        ensures
            yes == self.readable_spec(),
    {
        self.bits & 0x02 != 0
    }

    /// Whether the flag `W` is set.
    #[verifier::when_used_as_spec(writable_spec)]
    pub fn writable(&self) -> (yes: bool)
        ensures
            yes == self.writable_spec(),
    {
        self.bits & 0x04 != 0
    }

    /// Whether the flag `X` is set.
    #[verifier::when_used_as_spec(executable_spec)]
    pub fn executable(&self) -> (yes: bool)
        ensures
            yes == self.executable_spec(),
    {
        self.bits & 0x08 != 0
    }
}

/// An entry gives back what it was made of: its flags always, and its frame
/// number whenever that fits the 44 bits an entry has for it. With the flag
/// `V` among its flags it is valid; the empty entry is not.
pub proof fn entry_holds_its_parts(ppn: PhysPageNum, flags: PTEFlags)
    ensures
        PageTableEntry::new(ppn, flags).flags() == flags,
        ppn.0 < FRAME_LIMIT ==> PageTableEntry::new(ppn, flags).ppn() == ppn,
        PageTableEntry::new(ppn, flags).is_valid() == flags.contains(PTEFlags::of(FLAG_V)),
        PageTableEntry::new(ppn, flags).readable() == flags.contains(PTEFlags::of(FLAG_R)),
        PageTableEntry::new(ppn, flags).writable() == flags.contains(PTEFlags::of(FLAG_W)),
        PageTableEntry::new(ppn, flags).executable() == flags.contains(PTEFlags::of(FLAG_X)),
        flags.union(PTEFlags::of(FLAG_V)).contains(PTEFlags::of(FLAG_V)),
        PTEFlags::of(FLAG_V).contains(PTEFlags::of(FLAG_V)),
        !PageTableEntry::empty().is_valid(),
{
    assert(0x01u8 & 0x01u8 == 0x01u8) by (bit_vector);
    let p = ppn.0;
    let f = flags.bits;
    assert((((p << 10) | (f as u64)) & 0xff) as u8 == f) by (bit_vector);
    assert(p < 0x1000_0000_0000 ==> (((p << 10) | (f as u64)) >> 10) & 0xfff_ffff_ffff == p)
        by (bit_vector);
    assert((((p << 10) | (f as u64)) & 0x01 != 0) == (f & 0x01 == 0x01) && (((p << 10) | (f as u64))
        & 0x02 != 0) == (f & 0x02 == 0x02) && (((p << 10) | (f as u64)) & 0x04 != 0) == (f & 0x04
        == 0x04) && (((p << 10) | (f as u64)) & 0x08 != 0) == (f & 0x08 == 0x08)) by (bit_vector);
    assert((f | 0x01) & 0x01 == 0x01) by (bit_vector);
    assert(0u64 & 0x01 == 0) by (bit_vector);
}

/// The entry at index `idx` of the node in frame `node`.
pub open spec fn entry_at(mem: &PhysMemory, node: PhysPageNum, idx: int) -> PageTableEntry {
    PageTableEntry { bits: mem.word(node, idx) }
}

/// The node that the entry at `idx` of node `node` points to: there is one
/// when `node` lies in memory and the entry is valid.
pub open spec fn child(mem: &PhysMemory, node: PhysPageNum, idx: int) -> Option<PhysPageNum> {
    if mem.contains(node) && entry_at(mem, node, idx).is_valid() {
        Some(entry_at(mem, node, idx).ppn())
    } else {
        None
    }
}

/// The node two steps below `root`, by the indexes `i0` and `i1`.
pub open spec fn grandchild(mem: &PhysMemory, root: PhysPageNum, i0: int, i1: int) -> Option<
    PhysPageNum,
> {
    match child(mem, root, i0) {
        Some(node) => child(mem, node, i1),
        None => None,
    }
}

/// The slot that a walk from `root` with the indexes of `vpn` ends at: the
/// frame of the last node, and the index within it. There is none when an
/// entry on the way down is not valid or points out of memory.
pub open spec fn leaf_slot(mem: &PhysMemory, root: PhysPageNum, vpn: VirtPageNum) -> Option<
    (PhysPageNum, int),
> {
    match grandchild(mem, root, vpn.index(0), vpn.index(1)) {
        Some(node) => if mem.contains(node) {
            Some((node, vpn.index(2)))
        } else {
            None
        },
        None => None,
    }
}

/// The entry that a walk from `root` with the indexes of `vpn` ends at,
/// valid or not.
pub open spec fn walk(mem: &PhysMemory, root: PhysPageNum, vpn: VirtPageNum) -> Option<
    PageTableEntry,
> {
    match leaf_slot(mem, root, vpn) {
        Some((node, idx)) => Some(entry_at(mem, node, idx)),
        None => None,
    }
}

/// What page `vpn` is mapped to: the entry that the walk ends at, if there
/// is one and it is valid.
pub open spec fn translation(mem: &PhysMemory, root: PhysPageNum, vpn: VirtPageNum) -> Option<
    PageTableEntry,
> {
    match walk(mem, root, vpn) {
        Some(entry) => if entry.is_valid() {
            Some(entry)
        } else {
            None
        },
        None => None,
    }
}

/// How many nodes a walk for `vpn` lacks on its way down from `root`.
pub open spec fn nodes_missing(mem: &PhysMemory, root: PhysPageNum, vpn: VirtPageNum) -> int {
    if child(mem, root, vpn.index(0)).is_none() {
        2
    } else if grandchild(mem, root, vpn.index(0), vpn.index(1)).is_none() {
        1
    } else {
        0
    }
}

/// The nodes below `root` form a tree within the frames `owned`: the root
/// and every node that a valid entry of the first two levels points to lie
/// in memory and in `owned`, and no two such entries point to the same node.
/// The valid entries of the first two levels carry the flag `V` and no
/// other: they point down and grant nothing.
#[verifier::opaque]
pub open spec fn is_tree(mem: &PhysMemory, root: PhysPageNum, owned: Set<PhysPageNum>) -> bool {
    &&& mem.wf()
    &&& mem.contains(root)
    &&& owned.contains(root)
    &&& forall|i: int|
        0 <= i < 512 ==> (#[trigger] child(mem, root, i) matches Some(node) ==> mem.contains(node)
            && owned.contains(node) && node != root)
    &&& forall|i: int, j: int|
        0 <= i < 512 && 0 <= j < 512 && (#[trigger] child(mem, root, i)).is_some() && child(
            mem,
            root,
            i,
        ) == #[trigger] child(mem, root, j) ==> i == j
    &&& forall|i: int, k: int|
        0 <= i < 512 && 0 <= k < 512 ==> (#[trigger] grandchild(mem, root, i, k) matches Some(node)
            ==> mem.contains(node) && owned.contains(node) && node != root)
    &&& forall|i: int, k: int, j: int|
        0 <= i < 512 && 0 <= k < 512 && 0 <= j < 512 && (#[trigger] grandchild(
            mem,
            root,
            i,
            k,
        )).is_some() ==> grandchild(mem, root, i, k) != #[trigger] child(mem, root, j)
    &&& forall|i: int, k: int, j: int, l: int|
        0 <= i < 512 && 0 <= k < 512 && 0 <= j < 512 && 0 <= l < 512 && (#[trigger] grandchild(
            mem,
            root,
            i,
            k,
        )).is_some() && grandchild(mem, root, i, k) == #[trigger] grandchild(mem, root, j, l) ==> i
            == j && k == l
    &&& forall|i: int|
        0 <= i < 512 && (#[trigger] child(mem, root, i)).is_some() ==> entry_at(mem, root, i).flags()
            == PTEFlags::of(FLAG_V)
    &&& forall|i: int, k: int|
        0 <= i < 512 && 0 <= k < 512 && (#[trigger] grandchild(mem, root, i, k)).is_some()
            ==> entry_at(mem, child(mem, root, i).unwrap(), k).flags() == PTEFlags::of(FLAG_V)
}

/// Whether the table rooted at `root` has in `mem2` the nodes that it has
/// in `mem`, at the same places, and no others.
pub open spec fn nodes_kept(mem: &PhysMemory, mem2: &PhysMemory, root: PhysPageNum) -> bool {
    &&& forall|i: int|
        0 <= i < 512 ==> (#[trigger] child(mem2, root, i)).is_some() == child(mem, root, i).is_some()
    &&& forall|i: int, k: int|
        0 <= i < 512 && 0 <= k < 512 ==> (#[trigger] grandchild(mem2, root, i, k)).is_some()
            == grandchild(mem, root, i, k).is_some()
}

/// Whether the table rooted at `root` has in `mem2` the nodes that it has
/// in `mem` and, beside them, those on the way down to the entry of `vpn`.
pub open spec fn nodes_added_for(
    mem: &PhysMemory,
    mem2: &PhysMemory,
    root: PhysPageNum,
    vpn: VirtPageNum,
) -> bool {
    &&& forall|i: int|
        0 <= i < 512 ==> (#[trigger] child(mem2, root, i)).is_some() == (child(mem, root, i).is_some()
            || i == vpn.index(0))
    &&& forall|i: int, k: int|
        0 <= i < 512 && 0 <= k < 512 ==> (#[trigger] grandchild(mem2, root, i, k)).is_some() == (
        grandchild(mem, root, i, k).is_some() || (i == vpn.index(0) && k == vpn.index(1)))
}

/// Whether `mem2` agrees with `mem` on every frame of `owned`.
pub open spec fn same_nodes(mem: &PhysMemory, mem2: &PhysMemory, owned: Set<PhysPageNum>) -> bool {
    &&& mem2.wf()
    &&& mem2.first_frame() == mem.first_frame()
    &&& mem2.frame_count() == mem.frame_count()
    &&& forall|p: PhysPageNum|
        mem.contains(p) && owned.contains(p) ==> #[trigger] mem2.page(p) == mem.page(p)
}

/// A tree stays what it is while the frames of its nodes stay as they are:
/// every walk ends as before and the tree is still a tree.
pub proof fn tree_rests_on_its_nodes(
    mem: &PhysMemory,
    mem2: &PhysMemory,
    root: PhysPageNum,
    owned: Set<PhysPageNum>,
)
    requires
        is_tree(mem, root, owned),
        same_nodes(mem, mem2, owned),
    ensures
        is_tree(mem2, root, owned),
        forall|i: int| 0 <= i < 512 ==> #[trigger] child(mem2, root, i) == child(mem, root, i),
        forall|i: int, k: int|
            0 <= i < 512 && 0 <= k < 512 ==> #[trigger] grandchild(mem2, root, i, k) == grandchild(
                mem,
                root,
                i,
                k,
            ),
        forall|vpn: VirtPageNum| #[trigger] walk(mem2, root, vpn) == walk(mem, root, vpn),
        forall|vpn: VirtPageNum| #[trigger] leaf_slot(mem2, root, vpn) == leaf_slot(mem, root, vpn),
{
    reveal(is_tree);
    assert forall|i: int| 0 <= i < 512 implies #[trigger] child(mem2, root, i) == child(
        mem,
        root,
        i,
    ) by {
        assert(mem2.page(root) == mem.page(root));
    }
    assert forall|i: int, k: int| 0 <= i < 512 && 0 <= k < 512 implies #[trigger] grandchild(
        mem2,
        root,
        i,
        k,
    ) == grandchild(mem, root, i, k) by {
        assert(child(mem2, root, i) == child(mem, root, i));
        if let Some(node) = child(mem, root, i) {
            assert(mem2.page(node) == mem.page(node));
        }
    }
    assert forall|vpn: VirtPageNum| #[trigger] leaf_slot(mem2, root, vpn) == leaf_slot(
        mem,
        root,
        vpn,
    ) by {
        indexes_determine_slot(vpn, vpn);
        assert(grandchild(mem2, root, vpn.index(0), vpn.index(1)) == grandchild(
            mem,
            root,
            vpn.index(0),
            vpn.index(1),
        ));
    }
    assert forall|vpn: VirtPageNum| #[trigger] walk(mem2, root, vpn) == walk(mem, root, vpn) by {
        indexes_determine_slot(vpn, vpn);
        assert(leaf_slot(mem2, root, vpn) == leaf_slot(mem, root, vpn));
        if let Some((node, idx)) = leaf_slot(mem, root, vpn) {
            assert(grandchild(mem, root, vpn.index(0), vpn.index(1)) == Some(node));
            assert(mem2.page(node) == mem.page(node));
        }
    }
}


/// Whether `mem2` is `mem` after `val` was written as word `idx` of frame
/// `node`, and nothing else.
pub open spec fn word_written(
    mem: &PhysMemory,
    mem2: &PhysMemory,
    node: PhysPageNum,
    idx: int,
    val: u64,
) -> bool {
    &&& mem2.wf()
    &&& mem.same_but(mem2, set![node])
    &&& mem2.word(node, idx) == val
    &&& forall|i: int| 0 <= i < 512 && i != idx ==> #[trigger] mem2.word(node, i) == mem.word(node, i)
}

/// Whether `mem2` is `mem` after frame `frame` was filled with zero bytes,
/// and nothing else.
pub open spec fn page_cleared(mem: &PhysMemory, mem2: &PhysMemory, frame: PhysPageNum) -> bool {
    &&& mem2.wf()
    &&& mem.same_but(mem2, set![frame])
    &&& mem2.is_zero_page(frame)
}

/// Writing the entry that a walk for `vpn` ends at changes what that walk
/// gives, and the walk of every page number with the same slot, and nothing
/// else: the tree and every other walk stay as they are.
pub proof fn leaf_write_keeps_tree(
    mem: &PhysMemory,
    mem2: &PhysMemory,
    root: PhysPageNum,
    owned: Set<PhysPageNum>,
    vpn: VirtPageNum,
    node: PhysPageNum,
    val: u64,
)
    requires
        is_tree(mem, root, owned),
        leaf_slot(mem, root, vpn) == Some((node, vpn.index(2))),
        word_written(mem, mem2, node, vpn.index(2), val),
    ensures
        is_tree(mem2, root, owned),
        same_nodes(mem, mem2, owned.remove(node)),
        nodes_kept(mem, mem2, root),
        forall|w: VirtPageNum| #[trigger] leaf_slot(mem2, root, w) == leaf_slot(mem, root, w),
        forall|w: VirtPageNum| #[trigger] nodes_missing(mem2, root, w) == nodes_missing(mem, root, w),
        walk(mem2, root, vpn) == Some(PageTableEntry::of(val)),
        forall|w: VirtPageNum|
            w.slot() == vpn.slot() ==> #[trigger] walk(mem2, root, w) == Some(
                PageTableEntry::of(val),
            ),
        forall|w: VirtPageNum|
            w.slot() != vpn.slot() ==> #[trigger] walk(mem2, root, w) == walk(mem, root, w),
{
    reveal(is_tree);
    indexes_determine_slot(vpn, vpn);
    let i0 = vpn.index(0);
    let i1 = vpn.index(1);
    assert(grandchild(mem, root, i0, i1) == Some(node));
    assert(mem2.page(root) == mem.page(root));
    assert forall|i: int| 0 <= i < 512 implies #[trigger] child(mem2, root, i) == child(
        mem,
        root,
        i,
    ) by {}
    assert forall|i: int, k: int| 0 <= i < 512 && 0 <= k < 512 implies #[trigger] grandchild(
        mem2,
        root,
        i,
        k,
    ) == grandchild(mem, root, i, k) by {
        assert(child(mem2, root, i) == child(mem, root, i));
        if let Some(mid) = child(mem, root, i) {
            assert(grandchild(mem, root, i0, i1) != child(mem, root, i));
            assert(mem2.page(mid) == mem.page(mid));
        }
    }
    assert forall|w: VirtPageNum| #[trigger] leaf_slot(mem2, root, w) == leaf_slot(mem, root, w) by {
        indexes_determine_slot(w, w);
        assert(grandchild(mem2, root, w.index(0), w.index(1)) == grandchild(
            mem,
            root,
            w.index(0),
            w.index(1),
        ));
    }
    assert forall|w: VirtPageNum| #[trigger] nodes_missing(mem2, root, w) == nodes_missing(
        mem,
        root,
        w,
    ) by {
        indexes_determine_slot(w, w);
        assert(child(mem2, root, w.index(0)) == child(mem, root, w.index(0)));
        assert(grandchild(mem2, root, w.index(0), w.index(1)) == grandchild(
            mem,
            root,
            w.index(0),
            w.index(1),
        ));
    }
    assert forall|w: VirtPageNum| w.slot() == vpn.slot() implies #[trigger] walk(mem2, root, w)
        == Some(PageTableEntry::of(val)) by {
        indexes_determine_slot(w, vpn);
        assert(leaf_slot(mem2, root, w) == leaf_slot(mem, root, w));
    }
    assert forall|w: VirtPageNum| w.slot() != vpn.slot() implies #[trigger] walk(mem2, root, w)
        == walk(mem, root, w) by {
        indexes_determine_slot(w, vpn);
        indexes_determine_slot(w, w);
        assert(leaf_slot(mem2, root, w) == leaf_slot(mem, root, w));
        if let Some((other, idx)) = leaf_slot(mem, root, w) {
            assert(grandchild(mem, root, w.index(0), w.index(1)) == Some(other));
            if other != node {
                assert(mem2.page(other) == mem.page(other));
            }
        }
    }
}

/// A mapped page translates to what it was mapped to. Once the entry at the
/// end of the walk for `vpn` holds frame `ppn` with `flags` and the flag
/// `V`, the page translates to an entry with these flags and, for a frame
/// number that fits an entry, this frame; and every page at another slot
/// translates as before.
pub proof fn mapped_page_translates(
    mem: &PhysMemory,
    mem2: &PhysMemory,
    root: PhysPageNum,
    owned: Set<PhysPageNum>,
    vpn: VirtPageNum,
    node: PhysPageNum,
    ppn: PhysPageNum,
    flags: PTEFlags,
)
    requires
        is_tree(mem, root, owned),
        leaf_slot(mem, root, vpn) == Some((node, vpn.index(2))),
        word_written(
            mem,
            mem2,
            node,
            vpn.index(2),
            PageTableEntry::new(ppn, flags.union(PTEFlags::of(FLAG_V))).bits,
        ),
    ensures
        translation(mem2, root, vpn) matches Some(entry) && entry.is_valid() && entry.flags()
            == flags.union(PTEFlags::of(FLAG_V)) && (ppn.0 < FRAME_LIMIT ==> entry.ppn() == ppn),
        forall|w: VirtPageNum|
            w.slot() != vpn.slot() ==> #[trigger] translation(mem2, root, w) == translation(mem, root, w),
{
    let entry = PageTableEntry::new(ppn, flags.union(PTEFlags::of(FLAG_V)));
    entry_holds_its_parts(ppn, flags.union(PTEFlags::of(FLAG_V)));
    entry_holds_its_parts(ppn, flags);
    leaf_write_keeps_tree(mem, mem2, root, owned, vpn, node, entry.bits);
    assert(walk(mem2, root, vpn) == Some(entry));
    assert forall|w: VirtPageNum| w.slot() != vpn.slot() implies #[trigger] translation(mem2, root, w)
        == translation(mem, root, w) by {
        assert(walk(mem2, root, w) == walk(mem, root, w));
    }
}

/// An unmapped page translates to nothing. Once the entry at the end of the
/// walk for `vpn` is the empty entry, the walk still ends there, at an entry
/// that is not valid; and every page at another slot translates as before.
pub proof fn unmapped_page_is_gone(
    mem: &PhysMemory,
    mem2: &PhysMemory,
    root: PhysPageNum,
    owned: Set<PhysPageNum>,
    vpn: VirtPageNum,
    node: PhysPageNum,
)
    requires
        is_tree(mem, root, owned),
        leaf_slot(mem, root, vpn) == Some((node, vpn.index(2))),
        word_written(mem, mem2, node, vpn.index(2), PageTableEntry::empty().bits),
    ensures
        walk(mem2, root, vpn) == Some(PageTableEntry::empty()),
        translation(mem2, root, vpn).is_none(),
        forall|w: VirtPageNum|
            w.slot() != vpn.slot() ==> #[trigger] translation(mem2, root, w) == translation(mem, root, w),
{
    entry_holds_its_parts(PhysPageNum(0), PTEFlags::of(0));
    leaf_write_keeps_tree(mem, mem2, root, owned, vpn, node, 0);
    assert(walk(mem2, root, vpn) == Some(PageTableEntry::empty()));
    assert forall|w: VirtPageNum| w.slot() != vpn.slot() implies #[trigger] translation(mem2, root, w)
        == translation(mem, root, w) by {
        assert(walk(mem2, root, w) == walk(mem, root, w));
    }
}

/// Hanging a fresh node of zero bytes below an entry of the root that was
/// not valid adds a node to the tree and changes no walk.
pub proof fn root_gains_child(
    mem: &PhysMemory,
    mem1: &PhysMemory,
    mem2: &PhysMemory,
    root: PhysPageNum,
    owned: Set<PhysPageNum>,
    i0: int,
    fresh: PhysPageNum,
)
    requires
        is_tree(mem, root, owned),
        0 <= i0 < 512,
        child(mem, root, i0).is_none(),
        mem.contains(fresh),
        !owned.contains(fresh),
        page_cleared(mem, mem1, fresh),
        word_written(mem1, mem2, root, i0, PageTableEntry::new(fresh, PTEFlags::of(FLAG_V)).bits),
    ensures
        is_tree(mem2, root, owned.insert(fresh)),
        child(mem2, root, i0) == Some(fresh),
        forall|k: int| 0 <= k < 512 ==> (#[trigger] child(mem2, fresh, k)).is_none(),
        forall|j: int| 0 <= j < 512 && j != i0 ==> #[trigger] child(mem2, root, j) == child(mem, root, j),
        forall|j: int, k: int|
            0 <= j < 512 && 0 <= k < 512 ==> #[trigger] grandchild(mem2, root, j, k) == grandchild(
                mem,
                root,
                j,
                k,
            ),
        forall|w: VirtPageNum| #[trigger] walk(mem2, root, w) == walk(mem, root, w),
{
    reveal(is_tree);
    let entry = PageTableEntry::new(fresh, PTEFlags::of(FLAG_V));
    entry_holds_its_parts(fresh, PTEFlags::of(FLAG_V));
    mem.frames_fit_entries(fresh);
    mem2.zero_page_has_zero_words(fresh);
    assert(mem2.page(fresh) == mem1.page(fresh));
    assert(entry_at(mem2, root, i0) == entry);
    assert forall|k: int| 0 <= k < 512 implies (#[trigger] child(mem2, fresh, k)).is_none() by {
        assert(mem2.word(fresh, k) == 0);
        assert(entry_at(mem2, fresh, k) == PageTableEntry::empty());
    }
    assert forall|j: int| 0 <= j < 512 && j != i0 implies #[trigger] child(mem2, root, j) == child(
        mem,
        root,
        j,
    ) by {
        assert(mem1.page(root) == mem.page(root));
        assert(mem2.word(root, j) == mem1.word(root, j));
    }
    assert forall|p: PhysPageNum| mem.contains(p) && p != root && p != fresh implies mem2.page(p)
        == mem.page(p) by {
        assert(mem1.page(p) == mem.page(p));
        assert(mem2.page(p) == mem1.page(p));
    }
    assert forall|j: int, k: int| 0 <= j < 512 && 0 <= k < 512 implies #[trigger] grandchild(
        mem2,
        root,
        j,
        k,
    ) == grandchild(mem, root, j, k) by {
        if j == i0 {
            assert(child(mem2, fresh, k).is_none());
        } else {
            assert(child(mem2, root, j) == child(mem, root, j));
            if let Some(mid) = child(mem, root, j) {
                assert(mem2.page(mid) == mem.page(mid));
            }
        }
    }
    assert forall|w: VirtPageNum| #[trigger] walk(mem2, root, w) == walk(mem, root, w) by {
        indexes_determine_slot(w, w);
        assert(grandchild(mem2, root, w.index(0), w.index(1)) == grandchild(
            mem,
            root,
            w.index(0),
            w.index(1),
        ));
        if let Some((node, idx)) = leaf_slot(mem, root, w) {
            assert(grandchild(mem, root, w.index(0), w.index(1)) == Some(node));
            assert(mem2.page(node) == mem.page(node));
        }
    }
    let owned2 = owned.insert(fresh);
    assert forall|i: int, j: int|
        0 <= i < 512 && 0 <= j < 512 && (#[trigger] child(mem2, root, i)).is_some() && child(
            mem2,
            root,
            i,
        ) == #[trigger] child(mem2, root, j) implies i == j by {
        if i != i0 {
            assert(child(mem2, root, i) == child(mem, root, i));
        }
        if j != i0 {
            assert(child(mem2, root, j) == child(mem, root, j));
        }
    }
    assert forall|i: int, k: int, j: int|
        0 <= i < 512 && 0 <= k < 512 && 0 <= j < 512 && (#[trigger] grandchild(
            mem2,
            root,
            i,
            k,
        )).is_some() implies grandchild(mem2, root, i, k) != #[trigger] child(mem2, root, j) by {
        assert(grandchild(mem2, root, i, k) == grandchild(mem, root, i, k));
        if j != i0 {
            assert(child(mem2, root, j) == child(mem, root, j));
        }
    }
    assert forall|i: int, k: int, j: int, l: int|
        0 <= i < 512 && 0 <= k < 512 && 0 <= j < 512 && 0 <= l < 512 && (#[trigger] grandchild(
            mem2,
            root,
            i,
            k,
        )).is_some() && grandchild(mem2, root, i, k) == #[trigger] grandchild(
            mem2,
            root,
            j,
            l,
        ) implies i == j && k == l by {
        assert(grandchild(mem2, root, i, k) == grandchild(mem, root, i, k));
        assert(grandchild(mem2, root, j, l) == grandchild(mem, root, j, l));
    }
    assert forall|i: int, k: int| 0 <= i < 512 && 0 <= k < 512 implies (#[trigger] grandchild(
        mem2,
        root,
        i,
        k,
    ) matches Some(node) ==> mem2.contains(node) && owned2.contains(node) && node != root) by {
        assert(grandchild(mem2, root, i, k) == grandchild(mem, root, i, k));
    }
    assert forall|i: int| 0 <= i < 512 implies (#[trigger] child(mem2, root, i) matches Some(node)
        ==> mem2.contains(node) && owned2.contains(node) && node != root) by {
        if i != i0 {
            assert(child(mem2, root, i) == child(mem, root, i));
        }
    }
}

/// Hanging a fresh node of zero bytes below an entry of a second-level node
/// that was not valid adds a node to the tree and maps nothing: the walks
/// that now reach the fresh node end at an empty entry, every other walk
/// stays as it is.
pub proof fn child_gains_child(
    mem: &PhysMemory,
    mem1: &PhysMemory,
    mem2: &PhysMemory,
    root: PhysPageNum,
    owned: Set<PhysPageNum>,
    i0: int,
    i1: int,
    mid: PhysPageNum,
    fresh: PhysPageNum,
)
    requires
        is_tree(mem, root, owned),
        0 <= i0 < 512,
        0 <= i1 < 512,
        child(mem, root, i0) == Some(mid),
        child(mem, mid, i1).is_none(),
        mem.contains(fresh),
        !owned.contains(fresh),
        page_cleared(mem, mem1, fresh),
        word_written(mem1, mem2, mid, i1, PageTableEntry::new(fresh, PTEFlags::of(FLAG_V)).bits),
    ensures
        is_tree(mem2, root, owned.insert(fresh)),
        forall|j: int| 0 <= j < 512 ==> #[trigger] child(mem2, root, j) == child(mem, root, j),
        grandchild(mem2, root, i0, i1) == Some(fresh),
        forall|j: int, k: int|
            0 <= j < 512 && 0 <= k < 512 && !(j == i0 && k == i1) ==> #[trigger] grandchild(
                mem2,
                root,
                j,
                k,
            ) == grandchild(mem, root, j, k),
        forall|w: VirtPageNum|
            #[trigger] walk(mem2, root, w) == (if w.index(0) == i0 && w.index(1) == i1 {
                Some(PageTableEntry::empty())
            } else {
                walk(mem, root, w)
            }),
        forall|w: VirtPageNum|
            w.index(0) == i0 && w.index(1) == i1 ==> (#[trigger] walk(mem, root, w)).is_none(),
        forall|w: VirtPageNum| #[trigger] translation(mem2, root, w) == translation(mem, root, w),
{
    reveal(is_tree);
    let entry = PageTableEntry::new(fresh, PTEFlags::of(FLAG_V));
    entry_holds_its_parts(fresh, PTEFlags::of(FLAG_V));
    mem.frames_fit_entries(fresh);
    mem2.zero_page_has_zero_words(fresh);
    assert(mid != root && owned.contains(mid) && mem.contains(mid)) by {
        assert(child(mem, root, i0) == Some(mid));
    }
    assert(mem2.page(fresh) == mem1.page(fresh));
    assert(entry_at(mem2, mid, i1) == entry);
    assert(child(mem2, mid, i1) == Some(fresh));
    assert forall|p: PhysPageNum| mem.contains(p) && p != mid && p != fresh implies mem2.page(p)
        == mem.page(p) by {
        assert(mem1.page(p) == mem.page(p));
        assert(mem2.page(p) == mem1.page(p));
    }
    assert(mem2.page(root) == mem.page(root));
    assert forall|j: int| 0 <= j < 512 implies #[trigger] child(mem2, root, j) == child(
        mem,
        root,
        j,
    ) by {}
    assert forall|k: int| 0 <= k < 512 && k != i1 implies #[trigger] child(mem2, mid, k) == child(
        mem,
        mid,
        k,
    ) by {
        assert(mem1.page(mid) == mem.page(mid));
        assert(mem2.word(mid, k) == mem1.word(mid, k));
    }
    assert forall|j: int, k: int| 0 <= j < 512 && 0 <= k < 512 implies #[trigger] grandchild(
        mem2,
        root,
        j,
        k,
    ) == (if j == i0 && k == i1 {
        Some(fresh)
    } else {
        grandchild(mem, root, j, k)
    }) by {
        assert(child(mem2, root, j) == child(mem, root, j));
        if let Some(node) = child(mem, root, j) {
            if node == mid {
                assert(child(mem, root, i0) == child(mem, root, j));
                assert(j == i0);
                if k != i1 {
                    assert(child(mem2, mid, k) == child(mem, mid, k));
                }
            } else {
                assert(mem2.page(node) == mem.page(node));
            }
        }
    }
    assert forall|w: VirtPageNum|
        #[trigger] walk(mem2, root, w) == (if w.index(0) == i0 && w.index(1) == i1 {
            Some(PageTableEntry::empty())
        } else {
            walk(mem, root, w)
        }) by {
        indexes_determine_slot(w, w);
        let j = w.index(0);
        let k = w.index(1);
        assert(grandchild(mem2, root, j, k) == (if j == i0 && k == i1 {
            Some(fresh)
        } else {
            grandchild(mem, root, j, k)
        }));
        if j == i0 && k == i1 {
            assert(mem2.word(fresh, w.index(2)) == 0);
        } else {
            if let Some(node) = grandchild(mem, root, j, k) {
                assert(grandchild(mem, root, j, k) != child(mem, root, i0));
                assert(mem2.page(node) == mem.page(node));
            }
        }
    }
    assert forall|w: VirtPageNum| w.index(0) == i0 && w.index(1) == i1 implies (#[trigger] walk(
        mem,
        root,
        w,
    )).is_none() by {
        assert(grandchild(mem, root, i0, i1).is_none());
    }
    assert forall|w: VirtPageNum| #[trigger] translation(mem2, root, w) == translation(
        mem,
        root,
        w,
    ) by {
        assert(walk(mem2, root, w) == (if w.index(0) == i0 && w.index(1) == i1 {
            Some(PageTableEntry::empty())
        } else {
            walk(mem, root, w)
        }));
        if w.index(0) == i0 && w.index(1) == i1 {
            assert(walk(mem, root, w).is_none());
        }
    }
    let owned2 = owned.insert(fresh);
    assert forall|i: int, k: int, j: int|
        0 <= i < 512 && 0 <= k < 512 && 0 <= j < 512 && (#[trigger] grandchild(
            mem2,
            root,
            i,
            k,
        )).is_some() implies grandchild(mem2, root, i, k) != #[trigger] child(mem2, root, j) by {
        assert(child(mem2, root, j) == child(mem, root, j));
        assert(grandchild(mem2, root, i, k) == (if i == i0 && k == i1 {
            Some(fresh)
        } else {
            grandchild(mem, root, i, k)
        }));
    }
    assert forall|i: int, k: int, j: int, l: int|
        0 <= i < 512 && 0 <= k < 512 && 0 <= j < 512 && 0 <= l < 512 && (#[trigger] grandchild(
            mem2,
            root,
            i,
            k,
        )).is_some() && grandchild(mem2, root, i, k) == #[trigger] grandchild(
            mem2,
            root,
            j,
            l,
        ) implies i == j && k == l by {
        assert(grandchild(mem2, root, i, k) == (if i == i0 && k == i1 {
            Some(fresh)
        } else {
            grandchild(mem, root, i, k)
        }));
        assert(grandchild(mem2, root, j, l) == (if j == i0 && l == i1 {
            Some(fresh)
        } else {
            grandchild(mem, root, j, l)
        }));
    }
    assert forall|i: int, k: int| 0 <= i < 512 && 0 <= k < 512 implies (#[trigger] grandchild(
        mem2,
        root,
        i,
        k,
    ) matches Some(node) ==> mem2.contains(node) && owned2.contains(node) && node != root) by {
        assert(grandchild(mem2, root, i, k) == (if i == i0 && k == i1 {
            Some(fresh)
        } else {
            grandchild(mem, root, i, k)
        }));
    }
    assert forall|i: int| 0 <= i < 512 implies (#[trigger] child(mem2, root, i) matches Some(node)
        ==> mem2.contains(node) && owned2.contains(node) && node != root) by {
        assert(child(mem2, root, i) == child(mem, root, i));
    }
    assert forall|i: int, j: int|
        0 <= i < 512 && 0 <= j < 512 && (#[trigger] child(mem2, root, i)).is_some() && child(
            mem2,
            root,
            i,
        ) == #[trigger] child(mem2, root, j) implies i == j by {
        assert(child(mem2, root, i) == child(mem, root, i));
        assert(child(mem2, root, j) == child(mem, root, j));
    }
}


/// The place of the last node on the way down to the entry of `vpn`, as one
/// number: the first index times 512, plus the second.
pub open spec fn leaf_code(vpn: VirtPageNum) -> int {
    vpn.index(0) * 512 + vpn.index(1)
}

/// The nodes of the second level that walks for the pages `lo .. hi` lack:
/// the indexes of the root that such a walk uses and that have no node.
pub open spec fn lacking_mid(mem: &PhysMemory, root: PhysPageNum, lo: u64, hi: u64) -> Set<int> {
    Set::new(
        |i: int|
            0 <= i < 512 && child(mem, root, i).is_none() && exists|v: u64|
                lo <= v < hi && #[trigger] VirtPageNum(v).index(0) == i,
    )
}

/// The nodes of the last level that walks for the pages `lo .. hi` lack, by
/// their places.
pub open spec fn lacking_leaf(mem: &PhysMemory, root: PhysPageNum, lo: u64, hi: u64) -> Set<int> {
    Set::new(
        |c: int|
            0 <= c < 0x4_0000 && grandchild(mem, root, c / 512, c % 512).is_none() && exists|v: u64|
                lo <= v < hi && #[trigger] leaf_code(VirtPageNum(v)) == c,
    )
}

/// How many nodes the table rooted at `root` lacks for the pages `lo .. hi`:
/// each node that a walk for one of the pages needs and that is not there,
/// counted once.
pub open spec fn nodes_lacking(mem: &PhysMemory, root: PhysPageNum, lo: u64, hi: u64) -> int {
    (lacking_mid(mem, root, lo, hi).len() + lacking_leaf(mem, root, lo, hi).len()) as int
}

/// Only finitely many nodes can be lacking.
pub proof fn lacking_nodes_are_finite(mem: &PhysMemory, root: PhysPageNum, lo: u64, hi: u64)
    ensures
        lacking_mid(mem, root, lo, hi).finite(),
        lacking_leaf(mem, root, lo, hi).finite(),
        lacking_mid(mem, root, lo, hi).len() <= 512,
        lacking_leaf(mem, root, lo, hi).len() <= 0x4_0000,
{
    vstd::set_lib::lemma_int_range(0, 512);
    vstd::set_lib::lemma_int_range(0, 0x4_0000);
    assert(lacking_mid(mem, root, lo, hi).subset_of(vstd::set_lib::set_int_range(0, 512)));
    assert(lacking_leaf(mem, root, lo, hi).subset_of(vstd::set_lib::set_int_range(0, 0x4_0000)));
    vstd::set_lib::lemma_len_subset(lacking_mid(mem, root, lo, hi), vstd::set_lib::set_int_range(0, 512));
    vstd::set_lib::lemma_len_subset(
        lacking_leaf(mem, root, lo, hi),
        vstd::set_lib::set_int_range(0, 0x4_0000),
    );
}

/// Mapping the first of the pages `lo .. hi` makes the nodes that its walk
/// lacks, and just those are then no longer lacking for the rest.
pub proof fn lacking_after_first(
    mem: &PhysMemory,
    mem2: &PhysMemory,
    root: PhysPageNum,
    lo: u64,
    hi: u64,
)
    requires
        lo < hi,
        nodes_added_for(mem, mem2, root, VirtPageNum(lo)),
    ensures
        nodes_lacking(mem, root, lo, hi) == nodes_missing(mem, root, VirtPageNum(lo)) + nodes_lacking(
            mem2,
            root,
            (lo + 1) as u64,
            hi,
        ),
{
    let first = VirtPageNum(lo);
    let next = (lo + 1) as u64;
    indexes_determine_slot(first, first);
    let a = first.index(0);
    let c = leaf_code(first);
    lacking_nodes_are_finite(mem, root, lo, hi);
    lacking_nodes_are_finite(mem2, root, next, hi);
    let mid = lacking_mid(mem, root, lo, hi);
    let mid2 = lacking_mid(mem2, root, next, hi);
    let leaf = lacking_leaf(mem, root, lo, hi);
    let leaf2 = lacking_leaf(mem2, root, next, hi);
    assert(!mid2.contains(a)) by {
        assert(child(mem2, root, a).is_some());
    }
    assert(!leaf2.contains(c)) by {
        assert(grandchild(mem2, root, c / 512, c % 512).is_some());
    }
    assert forall|i: int| i != a implies mid.contains(i) == mid2.contains(i) by {
        if mid.contains(i) {
            let v = choose|v: u64| lo <= v < hi && #[trigger] VirtPageNum(v).index(0) == i;
            assert(next <= v < hi && VirtPageNum(v).index(0) == i);
            assert(child(mem2, root, i).is_some() == child(mem, root, i).is_some());
        }
        if mid2.contains(i) {
            let v = choose|v: u64| next <= v < hi && #[trigger] VirtPageNum(v).index(0) == i;
            assert(lo <= v < hi && VirtPageNum(v).index(0) == i);
            assert(child(mem2, root, i).is_some() == child(mem, root, i).is_some());
        }
    }
    assert forall|d: int| d != c implies leaf.contains(d) == leaf2.contains(d) by {
        if 0 <= d < 0x4_0000 {
            assert(grandchild(mem2, root, d / 512, d % 512).is_some() == grandchild(
                mem,
                root,
                d / 512,
                d % 512,
            ).is_some());
        }
        if leaf.contains(d) {
            let v = choose|v: u64| lo <= v < hi && #[trigger] leaf_code(VirtPageNum(v)) == d;
            assert(next <= v < hi && leaf_code(VirtPageNum(v)) == d);
        }
        if leaf2.contains(d) {
            let v = choose|v: u64| next <= v < hi && #[trigger] leaf_code(VirtPageNum(v)) == d;
            assert(lo <= v < hi && leaf_code(VirtPageNum(v)) == d);
        }
    }
    if child(mem, root, a).is_none() {
        assert(mid.contains(a)) by {
            assert(lo <= lo < hi && VirtPageNum(lo).index(0) == a);
        }
        assert(mid =~= mid2.insert(a));
    } else {
        assert(!mid.contains(a));
        assert(mid =~= mid2);
    }
    if grandchild(mem, root, c / 512, c % 512).is_none() {
        assert(leaf.contains(c)) by {
            assert(lo <= lo < hi && leaf_code(VirtPageNum(lo)) == c);
        }
        assert(leaf =~= leaf2.insert(c));
    } else {
        assert(!leaf.contains(c));
        assert(leaf =~= leaf2);
    }
}

/// What the pages `lo .. hi` lack is at least what the first of them lacks,
/// and no pages lack nothing.
pub proof fn lacking_covers_first(mem: &PhysMemory, root: PhysPageNum, lo: u64, hi: u64)
    ensures
        0 <= nodes_lacking(mem, root, lo, hi),
        lo < hi ==> nodes_missing(mem, root, VirtPageNum(lo)) <= nodes_lacking(mem, root, lo, hi),
        lo >= hi ==> nodes_lacking(mem, root, lo, hi) == 0,
{
    lacking_nodes_are_finite(mem, root, lo, hi);
    let mid = lacking_mid(mem, root, lo, hi);
    let leaf = lacking_leaf(mem, root, lo, hi);
    if lo < hi {
        let first = VirtPageNum(lo);
        indexes_determine_slot(first, first);
        let a = first.index(0);
        let c = leaf_code(first);
        if child(mem, root, a).is_none() {
            assert(mid.contains(a)) by {
                assert(lo <= lo < hi && VirtPageNum(lo).index(0) == a);
            }
            assert(mid =~= mid.remove(a).insert(a));
        }
        if grandchild(mem, root, c / 512, c % 512).is_none() {
            assert(leaf.contains(c)) by {
                assert(lo <= lo < hi && leaf_code(VirtPageNum(lo)) == c);
            }
            assert(leaf =~= leaf.remove(c).insert(c));
        }
    } else {
        assert(mid =~= Set::<int>::empty());
        assert(leaf =~= Set::<int>::empty());
    }
}

/// Going through the pages of one canonical half in order, a page lacks a
/// node that no page before it lacked exactly when the node is not there and
/// the page right before it does not use the same node.
pub proof fn lacking_grows_by_page(mem: &PhysMemory, root: PhysPageNum, lo: u64, v: u64, hi: u64)
    requires
        lo <= v < hi,
        canonical_range(lo, hi),
    ensures
        lacking_mid(mem, root, lo, (v + 1) as u64).len() == lacking_mid(mem, root, lo, v).len() + (if child(
            mem,
            root,
            VirtPageNum(v).index(0),
        ).is_none() && !(v > lo && VirtPageNum((v - 1) as u64).index(0) == VirtPageNum(v).index(0)) {
            1int
        } else {
            0int
        }),
        lacking_leaf(mem, root, lo, (v + 1) as u64).len() == lacking_leaf(mem, root, lo, v).len() + (
        if grandchild(mem, root, VirtPageNum(v).index(0), VirtPageNum(v).index(1)).is_none() && !(v
            > lo && leaf_code(VirtPageNum((v - 1) as u64)) == leaf_code(VirtPageNum(v))) {
            1int
        } else {
            0int
        }),
{
    let vpn = VirtPageNum(v);
    let next = (v + 1) as u64;
    indexes_determine_slot(vpn, vpn);
    let a = vpn.index(0);
    let c = leaf_code(vpn);
    lacking_nodes_are_finite(mem, root, lo, v);
    lacking_nodes_are_finite(mem, root, lo, next);
    let mid = lacking_mid(mem, root, lo, v);
    let mid2 = lacking_mid(mem, root, lo, next);
    let leaf = lacking_leaf(mem, root, lo, v);
    let leaf2 = lacking_leaf(mem, root, lo, next);
    assert forall|i: int| i != a implies mid.contains(i) == mid2.contains(i) by {
        if mid.contains(i) {
            let u = choose|u: u64| lo <= u < v && #[trigger] VirtPageNum(u).index(0) == i;
            assert(lo <= u < next && VirtPageNum(u).index(0) == i);
        }
        if mid2.contains(i) {
            let u = choose|u: u64| lo <= u < next && #[trigger] VirtPageNum(u).index(0) == i;
            assert(lo <= u < v && VirtPageNum(u).index(0) == i);
        }
    }
    assert forall|d: int| d != c implies leaf.contains(d) == leaf2.contains(d) by {
        if leaf.contains(d) {
            let u = choose|u: u64| lo <= u < v && #[trigger] leaf_code(VirtPageNum(u)) == d;
            assert(lo <= u < next && leaf_code(VirtPageNum(u)) == d);
        }
        if leaf2.contains(d) {
            let u = choose|u: u64| lo <= u < next && #[trigger] leaf_code(VirtPageNum(u)) == d;
            assert(lo <= u < v && leaf_code(VirtPageNum(u)) == d);
        }
    }
    let seen_mid = v > lo && VirtPageNum((v - 1) as u64).index(0) == a;
    let seen_leaf = v > lo && leaf_code(VirtPageNum((v - 1) as u64)) == c;
    assert(mid.contains(a) == (child(mem, root, a).is_none() && seen_mid)) by {
        if mid.contains(a) {
            let u = choose|u: u64| lo <= u < v && #[trigger] VirtPageNum(u).index(0) == a;
            indexes_grow_with_pages(VirtPageNum(u), VirtPageNum((v - 1) as u64));
            indexes_grow_with_pages(VirtPageNum((v - 1) as u64), vpn);
        }
        if child(mem, root, a).is_none() && seen_mid {
            assert(lo <= (v - 1) as u64 && ((v - 1) as u64) < v && VirtPageNum((v - 1) as u64).index(0)
                == a);
        }
    }
    assert(leaf.contains(c) == (grandchild(mem, root, c / 512, c % 512).is_none() && seen_leaf)) by {
        if leaf.contains(c) {
            let u = choose|u: u64| lo <= u < v && #[trigger] leaf_code(VirtPageNum(u)) == c;
            indexes_grow_with_pages(VirtPageNum(u), VirtPageNum((v - 1) as u64));
            indexes_grow_with_pages(VirtPageNum((v - 1) as u64), vpn);
        }
        if grandchild(mem, root, c / 512, c % 512).is_none() && seen_leaf {
            assert(lo <= (v - 1) as u64 && ((v - 1) as u64) < v && leaf_code(
                VirtPageNum((v - 1) as u64),
            ) == c);
        }
    }
    if child(mem, root, a).is_none() {
        assert(mid2.contains(a)) by {
            assert(lo <= v < next && VirtPageNum(v).index(0) == a);
        }
        assert(mid2 =~= mid.insert(a));
    } else {
        assert(mid2 =~= mid);
    }
    if grandchild(mem, root, c / 512, c % 512).is_none() {
        assert(leaf2.contains(c)) by {
            assert(lo <= v < next && leaf_code(VirtPageNum(v)) == c);
        }
        assert(leaf2 =~= leaf.insert(c));
    } else {
        assert(leaf2 =~= leaf);
    }
}

/// No page lacks more than two nodes: for the pages `lo .. hi` of one
/// canonical half the table lacks at most two nodes a page.
pub proof fn lacking_at_most_two_a_page(mem: &PhysMemory, root: PhysPageNum, lo: u64, hi: u64)
    requires
        canonical_range(lo, hi),
    ensures
        0 <= nodes_lacking(mem, root, lo, hi) <= 2 * (hi - lo),
    decreases hi - lo,
{
    lacking_covers_first(mem, root, lo, hi);
    if lo < hi {
        let before = (hi - 1) as u64;
        lacking_at_most_two_a_page(mem, root, lo, before);
        lacking_grows_by_page(mem, root, lo, before, hi);
    }
}

/// The places of the second-level nodes that a table has.
pub open spec fn mids_of(mem: &PhysMemory, root: PhysPageNum) -> Set<int> {
    Set::new(|i: int| 0 <= i < 512 && child(mem, root, i).is_some())
}

/// The places of the last-level nodes that a table has.
pub open spec fn leaves_of(mem: &PhysMemory, root: PhysPageNum) -> Set<int> {
    Set::new(|c: int| 0 <= c < 0x4_0000 && grandchild(mem, root, c / 512, c % 512).is_some())
}

/// The places of the second-level nodes that walks for the pages `lo .. hi`
/// use.
pub open spec fn mids_for(lo: u64, hi: u64) -> Set<int> {
    Set::new(|i: int| exists|v: u64| lo <= v < hi && #[trigger] VirtPageNum(v).index(0) == i)
}

/// The places of the last-level nodes that walks for the pages `lo .. hi`
/// use.
pub open spec fn leaves_for(lo: u64, hi: u64) -> Set<int> {
    Set::new(|c: int| exists|v: u64| lo <= v < hi && #[trigger] leaf_code(VirtPageNum(v)) == c)
}

/// How many nodes a table that has the nodes at `mids` and `leaves` lacks
/// for the pages `lo .. hi`.
pub open spec fn lacking_given(mids: Set<int>, leaves: Set<int>, lo: u64, hi: u64) -> int {
    (mids_for(lo, hi).difference(mids).len() + leaves_for(lo, hi).difference(leaves).len()) as int
}

/// What a table lacks for some pages depends only on which nodes it has.
pub proof fn lacking_by_nodes(mem: &PhysMemory, root: PhysPageNum, lo: u64, hi: u64)
    ensures
        nodes_lacking(mem, root, lo, hi) == lacking_given(
            mids_of(mem, root),
            leaves_of(mem, root),
            lo,
            hi,
        ),
        0 <= lacking_given(mids_of(mem, root), leaves_of(mem, root), lo, hi),
{
    assert(lacking_mid(mem, root, lo, hi) =~= mids_for(lo, hi).difference(mids_of(mem, root))) by {
        assert forall|i: int| lacking_mid(mem, root, lo, hi).contains(i) == mids_for(
            lo,
            hi,
        ).difference(mids_of(mem, root)).contains(i) by {
            if mids_for(lo, hi).contains(i) {
                let v = choose|v: u64| lo <= v < hi && #[trigger] VirtPageNum(v).index(0) == i;
                indexes_determine_slot(VirtPageNum(v), VirtPageNum(v));
            }
        }
    }
    assert(lacking_leaf(mem, root, lo, hi) =~= leaves_for(lo, hi).difference(leaves_of(mem, root))) by {
        assert forall|c: int| lacking_leaf(mem, root, lo, hi).contains(c) == leaves_for(
            lo,
            hi,
        ).difference(leaves_of(mem, root)).contains(c) by {
            if leaves_for(lo, hi).contains(c) {
                let v = choose|v: u64| lo <= v < hi && #[trigger] leaf_code(VirtPageNum(v)) == c;
                indexes_determine_slot(VirtPageNum(v), VirtPageNum(v));
            }
        }
    }
}

/// Whether the table rooted at `root` has in `mem2` the nodes that it has
/// in `mem` and, beside them, those on the way down to the entries of the
/// pages `lo .. hi`.
pub open spec fn nodes_added_for_pages(
    mem: &PhysMemory,
    mem2: &PhysMemory,
    root: PhysPageNum,
    lo: u64,
    hi: u64,
) -> bool {
    &&& mids_of(mem2, root) == mids_of(mem, root).union(mids_for(lo, hi))
    &&& leaves_of(mem2, root) == leaves_of(mem, root).union(leaves_for(lo, hi))
}

/// A table that has gained the nodes for the pages `lo .. hi`, and has kept
/// its nodes since, lacks no node for these pages.
pub proof fn lacking_none_once_added(
    mem: &PhysMemory,
    mem2: &PhysMemory,
    mem3: &PhysMemory,
    root: PhysPageNum,
    lo: u64,
    hi: u64,
)
    requires
        nodes_added_for_pages(mem, mem2, root, lo, hi),
        nodes_kept(mem2, mem3, root),
    ensures
        nodes_lacking(mem3, root, lo, hi) == 0,
{
    kept_is_added_for_none(mem2, mem3, root, lo);
    lacking_by_nodes(mem3, root, lo, hi);
    assert(mids_for(lo, hi).difference(mids_of(mem3, root)) =~= Set::<int>::empty());
    assert(leaves_for(lo, hi).difference(leaves_of(mem3, root)) =~= Set::<int>::empty());
}

/// A table that keeps its nodes has gained the nodes for no pages.
pub proof fn kept_is_added_for_none(mem: &PhysMemory, mem2: &PhysMemory, root: PhysPageNum, lo: u64)
    requires
        nodes_kept(mem, mem2, root),
    ensures
        nodes_added_for_pages(mem, mem2, root, lo, lo),
        mids_of(mem2, root) == mids_of(mem, root),
        leaves_of(mem2, root) == leaves_of(mem, root),
{
    assert(mids_of(mem2, root) =~= mids_of(mem, root)) by {
        assert forall|i: int| mids_of(mem2, root).contains(i) == mids_of(mem, root).contains(i) by {
            if 0 <= i < 512 {
                assert(child(mem2, root, i).is_some() == child(mem, root, i).is_some());
            }
        }
    }
    assert(leaves_of(mem2, root) =~= leaves_of(mem, root)) by {
        assert forall|c: int| leaves_of(mem2, root).contains(c) == leaves_of(mem, root).contains(c) by {
            if 0 <= c < 0x4_0000 {
                assert(grandchild(mem2, root, c / 512, c % 512).is_some() == grandchild(
                    mem,
                    root,
                    c / 512,
                    c % 512,
                ).is_some());
            }
        }
    }
    assert(mids_for(lo, lo) =~= Set::<int>::empty());
    assert(leaves_for(lo, lo) =~= Set::<int>::empty());
    assert(mids_of(mem, root).union(mids_for(lo, lo)) =~= mids_of(mem, root));
    assert(leaves_of(mem, root).union(leaves_for(lo, lo)) =~= leaves_of(mem, root));
}

/// A table that has gained the nodes for the pages `lo .. v` and then those
/// for page `v` has gained the nodes for the pages `lo .. v + 1`.
pub proof fn added_for_one_more(
    mem: &PhysMemory,
    mem1: &PhysMemory,
    mem2: &PhysMemory,
    root: PhysPageNum,
    lo: u64,
    v: u64,
)
    requires
        lo <= v < u64::MAX,
        nodes_added_for_pages(mem, mem1, root, lo, v),
        nodes_added_for(mem1, mem2, root, VirtPageNum(v)),
    ensures
        nodes_added_for_pages(mem, mem2, root, lo, (v + 1) as u64),
{
    let vpn = VirtPageNum(v);
    let next = (v + 1) as u64;
    indexes_determine_slot(vpn, vpn);
    let a = vpn.index(0);
    let c = leaf_code(vpn);
    assert(mids_for(lo, next) =~= mids_for(lo, v).insert(a)) by {
        assert forall|i: int| mids_for(lo, next).contains(i) == mids_for(lo, v).insert(a).contains(
            i,
        ) by {
            if mids_for(lo, next).contains(i) {
                let u = choose|u: u64| lo <= u < next && #[trigger] VirtPageNum(u).index(0) == i;
                if u < v {
                    assert(lo <= u < v && VirtPageNum(u).index(0) == i);
                }
            }
            if mids_for(lo, v).contains(i) {
                let u = choose|u: u64| lo <= u < v && #[trigger] VirtPageNum(u).index(0) == i;
                assert(lo <= u < next && VirtPageNum(u).index(0) == i);
            }
            if i == a {
                assert(lo <= v < next && VirtPageNum(v).index(0) == i);
            }
        }
    }
    assert(leaves_for(lo, next) =~= leaves_for(lo, v).insert(c)) by {
        assert forall|d: int| leaves_for(lo, next).contains(d) == leaves_for(lo, v).insert(c).contains(
            d,
        ) by {
            if leaves_for(lo, next).contains(d) {
                let u = choose|u: u64| lo <= u < next && #[trigger] leaf_code(VirtPageNum(u)) == d;
                if u < v {
                    assert(lo <= u < v && leaf_code(VirtPageNum(u)) == d);
                }
            }
            if leaves_for(lo, v).contains(d) {
                let u = choose|u: u64| lo <= u < v && #[trigger] leaf_code(VirtPageNum(u)) == d;
                assert(lo <= u < next && leaf_code(VirtPageNum(u)) == d);
            }
            if d == c {
                assert(lo <= v < next && leaf_code(VirtPageNum(v)) == d);
            }
        }
    }
    assert(mids_of(mem2, root) =~= mids_of(mem1, root).insert(a)) by {
        assert forall|i: int| mids_of(mem2, root).contains(i) == mids_of(mem1, root).insert(a).contains(
            i,
        ) by {
            if 0 <= i < 512 {
                assert(child(mem2, root, i).is_some() == (child(mem1, root, i).is_some() || i == a));
            }
        }
    }
    assert(leaves_of(mem2, root) =~= leaves_of(mem1, root).insert(c)) by {
        assert forall|d: int| leaves_of(mem2, root).contains(d) == leaves_of(mem1, root).insert(
            c,
        ).contains(d) by {
            if 0 <= d < 0x4_0000 {
                assert(grandchild(mem2, root, d / 512, d % 512).is_some() == (grandchild(
                    mem1,
                    root,
                    d / 512,
                    d % 512,
                ).is_some() || (d / 512 == a && d % 512 == vpn.index(1))));
            }
        }
    }
    assert(mids_of(mem2, root) =~= mids_of(mem, root).union(mids_for(lo, next)));
    assert(leaves_of(mem2, root) =~= leaves_of(mem, root).union(leaves_for(lo, next)));
}

/// What a table lacks for one page is what the walk for the page lacks.
pub proof fn lacking_of_one_page(mem: &PhysMemory, root: PhysPageNum, v: u64)
    requires
        v < u64::MAX,
    ensures
        nodes_lacking(mem, root, v, (v + 1) as u64) == nodes_missing(mem, root, VirtPageNum(v)),
{
    let vpn = VirtPageNum(v);
    let next = (v + 1) as u64;
    indexes_determine_slot(vpn, vpn);
    let a = vpn.index(0);
    let c = leaf_code(vpn);
    lacking_nodes_are_finite(mem, root, v, next);
    let mid = lacking_mid(mem, root, v, next);
    let leaf = lacking_leaf(mem, root, v, next);
    assert forall|i: int| mid.contains(i) implies i == a by {
        let u = choose|u: u64| v <= u < next && #[trigger] VirtPageNum(u).index(0) == i;
    }
    assert forall|d: int| leaf.contains(d) implies d == c by {
        let u = choose|u: u64| v <= u < next && #[trigger] leaf_code(VirtPageNum(u)) == d;
    }
    if child(mem, root, a).is_none() {
        assert(mid.contains(a)) by {
            assert(v <= v < next && VirtPageNum(v).index(0) == a);
        }
        assert(mid =~= Set::<int>::empty().insert(a));
    } else {
        assert(mid =~= Set::<int>::empty());
    }
    if grandchild(mem, root, c / 512, c % 512).is_none() {
        assert(leaf.contains(c)) by {
            assert(v <= v < next && leaf_code(VirtPageNum(v)) == c);
        }
        assert(leaf =~= Set::<int>::empty().insert(c));
    } else {
        assert(leaf =~= Set::<int>::empty());
    }
}

/// A table without nodes below its root has no nodes.
pub proof fn bare_table_has_no_nodes(mem: &PhysMemory, root: PhysPageNum)
    requires
        forall|i: int| 0 <= i < 512 ==> (#[trigger] child(mem, root, i)).is_none(),
    ensures
        mids_of(mem, root) == Set::<int>::empty(),
        leaves_of(mem, root) == Set::<int>::empty(),
{
    assert(mids_of(mem, root) =~= Set::<int>::empty());
    assert(leaves_of(mem, root) =~= Set::<int>::empty()) by {
        assert forall|c: int| !leaves_of(mem, root).contains(c) by {
            if 0 <= c < 0x4_0000 {
                assert(child(mem, root, c / 512).is_none());
            }
        }
    }
}

/// The token of the table rooted at `root`: the format tag in the top four
/// bits, the root's frame number below.
pub open spec fn token_of(root: PhysPageNum) -> u64 {
    (TOKEN_MODE << 60) | root.0
}

/// The root that a token names: its low 44 bits.
pub open spec fn root_of_token(token: u64) -> PhysPageNum {
    PhysPageNum(token & PPN_MASK)
}

/// A token names the root it was made of, for every root that fits 44 bits.
pub proof fn token_names_its_root(root: PhysPageNum)
    requires
        root.0 < FRAME_LIMIT,
    ensures
        root_of_token(token_of(root)) == root,
{
    let r = root.0;
    assert(r < 0x1000_0000_0000 ==> ((8u64 << 60) | r) & 0xfff_ffff_ffff == r) by (bit_vector);
}

/// A three-level page table: the frame of its root node, and the handles of
/// the frames that hold its nodes, the root among them. A table made from a
/// token holds no handles; it is for look-ups only.
pub struct PageTable {
    root_ppn: PhysPageNum,
    frames: Vec<FrameTracker>,
}

impl PageTable {
    /// The frame of the root node.
    pub closed spec fn root(&self) -> PhysPageNum {
        self.root_ppn
    }

    /// The frames that the table owns, in the order in which it got them.
    pub closed spec fn owned(&self) -> Seq<PhysPageNum> {
        self.frames@.map_values(|f: FrameTracker| f.ppn)
    }

    /// The frames that the table owns, as a set.
    pub open spec fn owned_set(&self) -> Set<PhysPageNum> {
        self.owned().to_set()
    }

    /// The table owns no frame twice, and its nodes in `mem` form a tree
    /// within the frames it owns.
    pub open spec fn wf(&self, mem: &PhysMemory) -> bool {
        &&& mem.wf()
        &&& self.owned().no_duplicates()
        &&& forall|k: int| 0 <= k < self.owned().len() ==> mem.contains(#[trigger] self.owned()[k])
        &&& is_tree(mem, self.root(), self.owned_set())
    }

    /// The frames of a well-formed table lie in memory.
    pub proof fn nodes_lie_in_memory(&self, mem: &PhysMemory, p: PhysPageNum)
        requires
            self.wf(mem),
            self.owned_set().contains(p),
        ensures
            mem.contains(p),
    {
        let k = choose|k: int| 0 <= k < self.owned().len() && self.owned()[k] == p;
        assert(mem.contains(self.owned()[k]));
    }

    /// The table is well formed in `mem`, the allocator serves `mem`, and
    /// every frame of the table counts as in use.
    pub open spec fn inv(&self, alloc: &StackFrameAllocator, mem: &PhysMemory) -> bool {
        &&& self.wf(mem)
        &&& alloc.serves(mem)
        &&& forall|k: int|
            0 <= k < self.owned().len() ==> alloc@.is_allocated(#[trigger] self.owned()[k].0)
    }

    /// The entry that a walk for `vpn` ends at, valid or not.
    pub open spec fn walk(&self, mem: &PhysMemory, vpn: VirtPageNum) -> Option<PageTableEntry> {
        walk(mem, self.root(), vpn)
    }

    /// The valid entry that `vpn` is mapped by, if it is mapped.
    pub open spec fn translation(&self, mem: &PhysMemory, vpn: VirtPageNum) -> Option<
        PageTableEntry,
    > {
        translation(mem, self.root(), vpn)
    }

    /// Whether page `vpn` is mapped: its walk ends at a valid entry.
    pub open spec fn is_mapped(&self, mem: &PhysMemory, vpn: VirtPageNum) -> bool {
        self.translation(mem, vpn).is_some()
    }

    /// This table has the root of `before` and owns the frames of `before`,
    /// and after them maybe more.
    pub open spec fn extends(&self, before: &PageTable) -> bool {
        &&& self.root() == before.root()
        &&& before.owned().len() <= self.owned().len()
        &&& self.owned().subrange(0, before.owned().len() as int) == before.owned()
    }

    /// The frames that this table owns and `before` did not were free in
    /// `alloc`.
    pub open spec fn new_frames_were_free(&self, before: &PageTable, alloc: AllocatorState) -> bool {
        forall|k: int|
            before.owned().len() <= k < self.owned().len() ==> alloc.is_free(
                #[trigger] self.owned()[k].0,
            )
    }

    /// This table is `before` after it took frames from the allocator: the
    /// same root, the frames of `before` and after them the new ones, which
    /// were free; what was in use still is; and memory differs from
    /// `old_mem` only in frames that the table now owns.
    pub open spec fn grew_from(
        &self,
        before: &PageTable,
        old_alloc: AllocatorState,
        new_alloc: AllocatorState,
        old_mem: &PhysMemory,
        new_mem: &PhysMemory,
    ) -> bool {
        &&& self.extends(before)
        &&& self.new_frames_were_free(before, old_alloc)
        &&& new_alloc.free_count() == old_alloc.free_count() - (self.owned().len()
            - before.owned().len())
        &&& forall|q: u64| old_alloc.is_allocated(q) ==> new_alloc.is_allocated(q)
        &&& forall|q: u64| new_alloc.is_free(q) ==> old_alloc.is_free(q)
        &&& old_mem.same_but(new_mem, self.owned_set())
    }

    /// A table with a root node and nothing mapped; nothing when no frame is
    /// free, and then nothing has changed.
    pub fn new(alloc: &mut StackFrameAllocator, mem: &mut PhysMemory) -> (table: Option<PageTable>)
        requires
            old(alloc).serves(old(mem)),
        ensures
            final(alloc).serves(final(mem)),
            table.is_none() <==> old(alloc)@.free_count() == 0,
            table.is_none() ==> *final(mem) == *old(mem) && *final(alloc) == *old(alloc),
            table matches Some(t) ==> {
                &&& t.inv(final(alloc), final(mem))
                &&& t.owned() == seq![t.root()]
                &&& old(alloc)@.is_free(t.root().0)
                &&& final(alloc)@.free_count() == old(alloc)@.free_count() - 1
                &&& old(mem).same_but(final(mem), set![t.root()])
                &&& forall|q: u64| old(alloc)@.is_allocated(q) ==> final(alloc)@.is_allocated(q)
                &&& forall|q: u64| final(alloc)@.is_free(q) ==> old(alloc)@.is_free(q)
                &&& forall|vpn: VirtPageNum| (#[trigger] t.walk(final(mem), vpn)).is_none()
                &&& forall|i: int| 0 <= i < 512 ==> (#[trigger] child(final(mem), t.root(), i)).is_none()
            },
    {
        if !alloc.has_free(1) {
            return None;
        }
        let frame = frame_alloc(alloc, mem).unwrap();
        let root = frame.ppn;
        let mut frames: Vec<FrameTracker> = Vec::new();
        frames.push(frame);
        let table = PageTable { root_ppn: root, frames };
        proof {
            reveal(is_tree);
            assert(table.owned() =~= seq![root]);
            assert(table.owned()[0] == root);
            assert(table.owned_set().contains(root));
            mem.zero_page_has_zero_words(root);
            entry_holds_its_parts(root, PTEFlags::of(FLAG_V));
            assert forall|i: int| 0 <= i < 512 implies (#[trigger] child(mem, root, i)).is_none() by {
                assert(mem.word(root, i) == 0);
                assert(entry_at(mem, root, i) == PageTableEntry::empty());
            }
            assert forall|i: int, k: int| 0 <= i < 512 && 0 <= k < 512 implies (#[trigger] grandchild(
                mem,
                root,
                i,
                k,
            )).is_none() by {
                assert(child(mem, root, i).is_none());
            }
            assert forall|vpn: VirtPageNum| (#[trigger] table.walk(mem, vpn)).is_none() by {
                indexes_determine_slot(vpn, vpn);
                assert(grandchild(mem, root, vpn.index(0), vpn.index(1)).is_none());
            }
        }
        Some(table)
    }

    /// A table for look-ups in the address space that `satp` names. It owns
    /// no frame.
    pub fn from_token(satp: u64) -> (table: PageTable)
        ensures
            table.root() == root_of_token(satp),
            table.owned().len() == 0,
    {
        let table = PageTable { root_ppn: PhysPageNum(satp & PPN_MASK), frames: Vec::new() };
        assert(table.owned() =~= Seq::empty());
        table
    }

    /// The token that names this table to the hardware.
    pub fn token(&self) -> (token: u64)
        ensures
            token == token_of(self.root()),
    {
        (TOKEN_MODE << 60) | self.root_ppn.0
    }

    /// The frame of the root node.
    pub fn root_ppn(&self) -> (root: PhysPageNum)
        ensures
            root == self.root(),
    {
        self.root_ppn
    }

    /// How many frames the table owns.
    pub fn frame_count(&self) -> (count: usize)
        ensures
            count == self.owned().len(),
    {
        self.frames.len()
    }

    fn read_child(mem: &PhysMemory, node: PhysPageNum, idx: usize) -> (next: Option<PhysPageNum>)
        requires
            mem.wf(),
            idx < 512,
        ensures
            next == child(mem, node, idx as int),
    {
        if !mem.holds(node) {
            return None;
        }
        let entry = PageTableEntry::of(mem.read_word(node, idx));
        if entry.is_valid() {
            Some(entry.ppn())
        } else {
            None
        }
    }

    /// The slot that a walk for `vpn` ends at, without making any node.
    fn find_pte(&self, vpn: VirtPageNum, mem: &PhysMemory) -> (slot: Option<(PhysPageNum, usize)>)
        requires
            mem.wf(),
        ensures
            match slot {
                Some((node, idx)) => leaf_slot(mem, self.root(), vpn) == Some((node, idx as int))
                    && mem.contains(node) && idx < 512,
                None => leaf_slot(mem, self.root(), vpn).is_none(),
            },
    {
        let idxs = vpn.indexes();
        let mid = match Self::read_child(mem, self.root_ppn, idxs[0]) {
            Some(mid) => mid,
            None => {
                return None;
            },
        };
        let leaf = match Self::read_child(mem, mid, idxs[1]) {
            Some(leaf) => leaf,
            None => {
                return None;
            },
        };
        if mem.holds(leaf) {
            Some((leaf, idxs[2]))
        } else {
            None
        }
    }

    /// The entry that a walk for `vpn` ends at, valid or not; nothing when the
    /// walk does not reach the last level.
    pub fn translate(&self, vpn: VirtPageNum, mem: &PhysMemory) -> (entry: Option<PageTableEntry>)
        requires
            mem.wf(),
        ensures
            entry == self.walk(mem, vpn),
    {
        match self.find_pte(vpn, mem) {
            Some((node, idx)) => Some(PageTableEntry::of(mem.read_word(node, idx))),
            None => None,
        }
    }

    /// How many nodes a walk for `vpn` lacks.
    pub fn missing_nodes(&self, vpn: VirtPageNum, mem: &PhysMemory) -> (count: u64)
        requires
            mem.wf(),
        ensures
            count == nodes_missing(mem, self.root(), vpn),
    {
        let idxs = vpn.indexes();
        match Self::read_child(mem, self.root_ppn, idxs[0]) {
            None => 2,
            Some(mid) => match Self::read_child(mem, mid, idxs[1]) {
                None => 1,
                Some(_) => 0,
            },
        }
    }

    /// How many nodes the table lacks for the pages `lo .. hi`, which lie in
    /// one canonical half.
    pub fn lacking_nodes(&self, lo: u64, hi: u64, mem: &PhysMemory) -> (count: u64)
        requires
            mem.wf(),
            canonical_range(lo, hi),
        ensures
            count == nodes_lacking(mem, self.root(), lo, hi),
    {
        let mut mid: u64 = 0;
        let mut leaf: u64 = 0;
        let mut before: [usize; 3] = [0, 0, 0];
        let mut v: u64 = lo;
        proof {
            lacking_covers_first(mem, self.root(), lo, lo);
            lacking_nodes_are_finite(mem, self.root(), lo, lo);
            assert(lacking_mid(mem, self.root(), lo, lo) =~= Set::<int>::empty());
            assert(lacking_leaf(mem, self.root(), lo, lo) =~= Set::<int>::empty());
        }
        while v < hi
            invariant
                lo <= v <= hi,
                canonical_range(lo, hi),
                mem.wf(),
                mid == lacking_mid(mem, self.root(), lo, v).len(),
                leaf == lacking_leaf(mem, self.root(), lo, v).len(),
                v > lo ==> before@[0] == VirtPageNum((v - 1) as u64).index(0) && before@[1]
                    == VirtPageNum((v - 1) as u64).index(1),
            decreases hi - v,
        {
            let vpn = VirtPageNum(v);
            let idxs = vpn.indexes();
            let new_mid = v == lo || idxs[0] != before[0];
            let new_leaf = new_mid || idxs[1] != before[1];
            proof {
                indexes_determine_slot(vpn, vpn);
                if v > lo {
                    indexes_determine_slot(VirtPageNum((v - 1) as u64), VirtPageNum((v - 1) as u64));
                }
                lacking_grows_by_page(mem, self.root(), lo, v, hi);
                lacking_nodes_are_finite(mem, self.root(), lo, (v + 1) as u64);
            }
            match Self::read_child(mem, self.root_ppn, idxs[0]) {
                None => {
                    if new_mid {
                        mid += 1;
                    }
                    if new_leaf {
                        leaf += 1;
                    }
                },
                Some(node) => {
                    if new_leaf && Self::read_child(mem, node, idxs[1]).is_none() {
                        leaf += 1;
                    }
                },
            }
            before = idxs;
            v += 1;
        }
        proof {
            lacking_nodes_are_finite(mem, self.root(), lo, hi);
        }
        mid + leaf
    }

    /// Makes sure that the root's entry for `vpn` points to a node, taking a
    /// fresh frame for one if the entry is not valid. No walk changes.
    fn grow_root(
        &mut self,
        vpn: VirtPageNum,
        alloc: &mut StackFrameAllocator,
        mem: &mut PhysMemory,
    ) -> (mid: PhysPageNum)
        requires
            old(self).inv(old(alloc), old(mem)),
            child(old(mem), old(self).root(), vpn.index(0)).is_none() ==> old(alloc)@.free_count()
                >= 1,
        ensures
            final(self).inv(final(alloc), final(mem)),
            final(self).grew_from(old(self), old(alloc)@, final(alloc)@, old(mem), final(mem)),
            child(final(mem), final(self).root(), vpn.index(0)) == Some(mid),
            forall|w: VirtPageNum| #[trigger] final(self).walk(final(mem), w)
                == old(self).walk(old(mem), w),
            final(self).owned().len() == old(self).owned().len() + (if child(
                old(mem),
                old(self).root(),
                vpn.index(0),
            ).is_none() {
                1int
            } else {
                0int
            }),
            child(old(mem), old(self).root(), vpn.index(0)).is_some() ==> grandchild(
                final(mem),
                final(self).root(),
                vpn.index(0),
                vpn.index(1),
            ) == grandchild(old(mem), old(self).root(), vpn.index(0), vpn.index(1)),
            child(old(mem), old(self).root(), vpn.index(0)).is_none() ==> grandchild(
                final(mem),
                final(self).root(),
                vpn.index(0),
                vpn.index(1),
            ).is_none(),
            forall|i: int|
                0 <= i < 512 ==> (#[trigger] child(final(mem), final(self).root(), i)).is_some() == (
                child(old(mem), old(self).root(), i).is_some() || i == vpn.index(0)),
            forall|i: int, k: int|
                0 <= i < 512 && 0 <= k < 512 ==> (#[trigger] grandchild(
                    final(mem),
                    final(self).root(),
                    i,
                    k,
                )).is_some() == grandchild(old(mem), old(self).root(), i, k).is_some(),
    {
        let idxs = vpn.indexes();
        let root = self.root_ppn;
        proof {
            reveal(is_tree);
            indexes_determine_slot(vpn, vpn);
        }
        match Self::read_child(mem, root, idxs[0]) {
            Some(mid) => {
                proof {
                    assert(self.owned().subrange(0, self.owned().len() as int) =~= self.owned());
                }
                mid
            },
            None => {
                let ghost mem0 = *mem;
                let ghost owned0 = self.owned();
                let frame = frame_alloc(alloc, mem).unwrap();
                let fresh = frame.ppn;
                let ghost mem1 = *mem;
                mem.write_word(root, idxs[0], PageTableEntry::new(fresh, PTEFlags::of(FLAG_V)).bits);
                self.frames.push(frame);
                proof {
                    assert(self.owned() =~= owned0.push(fresh));
                    assert(!owned0.to_set().contains(fresh)) by {
                        if owned0.contains(fresh) {
                            let k = choose|k: int| 0 <= k < owned0.len() && owned0[k] == fresh;
                            assert(old(alloc)@.is_allocated(owned0[k].0));
                        }
                    }
                    root_gains_child(&mem0, &mem1, mem, root, owned0.to_set(), idxs[0] as int, fresh);
                    assert(self.owned().to_set() =~= owned0.to_set().insert(fresh)) by {
                        assert forall|p: PhysPageNum| self.owned().contains(p) <==> (owned0.contains(p)
                            || p == fresh) by {
                            if self.owned().contains(p) {
                                let k = choose|k: int| 0 <= k < self.owned().len() && self.owned()[k] == p;
                                if k < owned0.len() {
                                    assert(owned0[k] == p);
                                }
                            }
                            if owned0.contains(p) {
                                let k = choose|k: int| 0 <= k < owned0.len() && owned0[k] == p;
                                assert(self.owned()[k] == p);
                            }
                            if p == fresh {
                                assert(self.owned()[owned0.len() as int] == p);
                            }
                        }
                    }
                    assert(self.owned().no_duplicates());
                    assert(self.owned().subrange(0, owned0.len() as int) =~= owned0);
                    assert forall|k: int| 0 <= k < self.owned().len() implies alloc@.is_allocated(
                        #[trigger] self.owned()[k].0,
                    ) by {
                        if k < owned0.len() {
                            assert(old(alloc)@.is_allocated(owned0[k].0));
                        }
                    }
                    assert forall|p: PhysPageNum|
                        mem0.contains(p) && !self.owned_set().contains(p) implies #[trigger] mem.page(p)
                        == mem0.page(p) by {
                        assert(owned0.to_set().contains(root));
                        assert(mem1.page(p) == mem0.page(p));
                        assert(mem.page(p) == mem1.page(p));
                    }
                    assert(grandchild(mem, root, vpn.index(0), vpn.index(1)).is_none()) by {
                        assert(child(mem, fresh, vpn.index(1)).is_none());
                    }
                }
                fresh
            },
        }
    }

    /// Makes sure that the entry for `vpn` in the second-level node `mid`
    /// points to a node, taking a fresh frame for one if the entry is not
    /// valid. Nothing gets mapped by it.
    fn grow_child(
        &mut self,
        vpn: VirtPageNum,
        mid: PhysPageNum,
        alloc: &mut StackFrameAllocator,
        mem: &mut PhysMemory,
    ) -> (leaf: PhysPageNum)
        requires
            old(self).inv(old(alloc), old(mem)),
            child(old(mem), old(self).root(), vpn.index(0)) == Some(mid),
            child(old(mem), mid, vpn.index(1)).is_none() ==> old(alloc)@.free_count() >= 1,
        ensures
            final(self).inv(final(alloc), final(mem)),
            final(self).grew_from(old(self), old(alloc)@, final(alloc)@, old(mem), final(mem)),
            leaf_slot(final(mem), final(self).root(), vpn) == Some((leaf, vpn.index(2))),
            forall|w: VirtPageNum|
                #[trigger] final(self).translation(final(mem), w) == old(self).translation(old(mem), w),
            forall|w: VirtPageNum|
                #[trigger] final(self).walk(final(mem), w) == (if old(self).walk(old(mem), w).is_none()
                    && w.index(0) == vpn.index(0) && w.index(1) == vpn.index(1) {
                    Some(PageTableEntry::empty())
                } else {
                    old(self).walk(old(mem), w)
                }),
            final(self).owned().len() == old(self).owned().len() + (if child(
                old(mem),
                mid,
                vpn.index(1),
            ).is_none() {
                1int
            } else {
                0int
            }),
            forall|i: int|
                0 <= i < 512 ==> (#[trigger] child(final(mem), final(self).root(), i)).is_some()
                    == child(old(mem), old(self).root(), i).is_some(),
            forall|i: int, k: int|
                0 <= i < 512 && 0 <= k < 512 ==> (#[trigger] grandchild(
                    final(mem),
                    final(self).root(),
                    i,
                    k,
                )).is_some() == (grandchild(old(mem), old(self).root(), i, k).is_some() || (i
                    == vpn.index(0) && k == vpn.index(1))),
    {
        let idxs = vpn.indexes();
        let root = self.root_ppn;
        proof {
            reveal(is_tree);
            indexes_determine_slot(vpn, vpn);
            assert(child(mem, root, vpn.index(0)) == Some(mid));
        }
        match Self::read_child(mem, mid, idxs[1]) {
            Some(leaf) => {
                proof {
                    assert(self.owned().subrange(0, self.owned().len() as int) =~= self.owned());
                    assert(grandchild(mem, root, vpn.index(0), vpn.index(1)) == Some(leaf));
                    assert forall|w: VirtPageNum|
                        #[trigger] self.walk(mem, w) == (if self.walk(mem, w).is_none() && w.index(0)
                            == vpn.index(0) && w.index(1) == vpn.index(1) {
                            Some(PageTableEntry::empty())
                        } else {
                            self.walk(mem, w)
                        }) by {
                        if w.index(0) == vpn.index(0) && w.index(1) == vpn.index(1) {
                            assert(grandchild(mem, root, w.index(0), w.index(1)) == Some(leaf));
                        }
                    }
                }
                leaf
            },
            None => {
                let ghost mem0 = *mem;
                let ghost owned0 = self.owned();
                let frame = frame_alloc(alloc, mem).unwrap();
                let fresh = frame.ppn;
                let ghost mem1 = *mem;
                mem.write_word(mid, idxs[1], PageTableEntry::new(fresh, PTEFlags::of(FLAG_V)).bits);
                self.frames.push(frame);
                proof {
                    assert(self.owned() =~= owned0.push(fresh));
                    assert(!owned0.to_set().contains(fresh)) by {
                        if owned0.contains(fresh) {
                            let k = choose|k: int| 0 <= k < owned0.len() && owned0[k] == fresh;
                            assert(old(alloc)@.is_allocated(owned0[k].0));
                        }
                    }
                    child_gains_child(
                        &mem0,
                        &mem1,
                        mem,
                        root,
                        owned0.to_set(),
                        idxs[0] as int,
                        idxs[1] as int,
                        mid,
                        fresh,
                    );
                    assert(self.owned().to_set() =~= owned0.to_set().insert(fresh)) by {
                        assert forall|p: PhysPageNum| self.owned().contains(p) <==> (owned0.contains(p)
                            || p == fresh) by {
                            if self.owned().contains(p) {
                                let k = choose|k: int| 0 <= k < self.owned().len() && self.owned()[k] == p;
                                if k < owned0.len() {
                                    assert(owned0[k] == p);
                                }
                            }
                            if owned0.contains(p) {
                                let k = choose|k: int| 0 <= k < owned0.len() && owned0[k] == p;
                                assert(self.owned()[k] == p);
                            }
                            if p == fresh {
                                assert(self.owned()[owned0.len() as int] == p);
                            }
                        }
                    }
                    assert(self.owned().no_duplicates());
                    assert(self.owned().subrange(0, owned0.len() as int) =~= owned0);
                    assert forall|k: int| 0 <= k < self.owned().len() implies alloc@.is_allocated(
                        #[trigger] self.owned()[k].0,
                    ) by {
                        if k < owned0.len() {
                            assert(old(alloc)@.is_allocated(owned0[k].0));
                        }
                    }
                    assert(owned0.to_set().contains(mid));
                    assert forall|p: PhysPageNum|
                        mem0.contains(p) && !self.owned_set().contains(p) implies #[trigger] mem.page(p)
                        == mem0.page(p) by {
                        assert(mem1.page(p) == mem0.page(p));
                        assert(mem.page(p) == mem1.page(p));
                    }
                    assert forall|w: VirtPageNum|
                        #[trigger] self.walk(mem, w) == (if old(self).walk(&mem0, w).is_none() && w.index(
                            0,
                        ) == vpn.index(0) && w.index(1) == vpn.index(1) {
                            Some(PageTableEntry::empty())
                        } else {
                            old(self).walk(&mem0, w)
                        }) by {
                        assert(walk(mem, root, w) == (if w.index(0) == idxs[0] as int && w.index(1)
                            == idxs[1] as int {
                            Some(PageTableEntry::empty())
                        } else {
                            walk(&mem0, root, w)
                        }));
                        if w.index(0) == vpn.index(0) && w.index(1) == vpn.index(1) {
                            assert(walk(&mem0, root, w).is_none());
                        }
                    }
                }
                fresh
            },
        }
    }

    /// The slot that a walk for `vpn` ends at, after making the nodes that
    /// the walk lacks. Making them maps nothing.
    fn find_pte_create(
        &mut self,
        vpn: VirtPageNum,
        alloc: &mut StackFrameAllocator,
        mem: &mut PhysMemory,
    ) -> (slot: (PhysPageNum, usize))
        requires
            old(self).inv(old(alloc), old(mem)),
            old(alloc)@.free_count() >= nodes_missing(old(mem), old(self).root(), vpn),
        ensures
            final(self).inv(final(alloc), final(mem)),
            final(self).grew_from(old(self), old(alloc)@, final(alloc)@, old(mem), final(mem)),
            final(self).owned().len() == old(self).owned().len() + nodes_missing(
                old(mem),
                old(self).root(),
                vpn,
            ),
            leaf_slot(final(mem), final(self).root(), vpn) == Some((slot.0, slot.1 as int)),
            slot.1 == vpn.index(2),
            nodes_added_for(old(mem), final(mem), old(self).root(), vpn),
            forall|w: VirtPageNum|
                #[trigger] final(self).translation(final(mem), w) == old(self).translation(old(mem), w),
            forall|w: VirtPageNum|
                #[trigger] final(self).walk(final(mem), w) == (if old(self).walk(old(mem), w).is_none()
                    && w.index(0) == vpn.index(0) && w.index(1) == vpn.index(1) {
                    Some(PageTableEntry::empty())
                } else {
                    old(self).walk(old(mem), w)
                }),
    {
        let idxs = vpn.indexes();
        let ghost table0 = *self;
        let ghost mem0 = *mem;
        let ghost alloc0 = alloc@;
        let mid = self.grow_root(vpn, alloc, mem);
        let ghost table1 = *self;
        let ghost mem1 = *mem;
        let ghost alloc1 = alloc@;
        let leaf = self.grow_child(vpn, mid, alloc, mem);
        proof {
            let n0 = table0.owned().len() as int;
            let n1 = table1.owned().len() as int;
            assert(self.owned().subrange(0, n0) =~= table0.owned()) by {
                assert(self.owned().subrange(0, n1) == table1.owned());
                assert(table1.owned().subrange(0, n0) == table0.owned());
                assert forall|k: int| 0 <= k < n0 implies self.owned()[k] == table0.owned()[k] by {
                    assert(self.owned().subrange(0, n1)[k] == table1.owned()[k]);
                    assert(table1.owned().subrange(0, n0)[k] == table0.owned()[k]);
                }
            }
            assert forall|k: int| n0 <= k < self.owned().len() implies alloc0.is_free(
                #[trigger] self.owned()[k].0,
            ) by {
                if k < n1 {
                    assert(self.owned().subrange(0, n1)[k] == table1.owned()[k]);
                    assert(alloc0.is_free(table1.owned()[k].0));
                } else {
                    assert(alloc1.is_free(self.owned()[k].0));
                }
            }
            assert forall|w: VirtPageNum|
                #[trigger] self.translation(mem, w) == table0.translation(&mem0, w) by {
                assert(table1.walk(&mem1, w) == table0.walk(&mem0, w));
                assert(self.translation(mem, w) == table1.translation(&mem1, w));
            }
            assert forall|p: PhysPageNum|
                self.owned_set().contains(p) || !table1.owned_set().contains(p) by {
                if table1.owned().contains(p) {
                    let k = choose|k: int| 0 <= k < n1 && table1.owned()[k] == p;
                    assert(self.owned().subrange(0, n1)[k] == p);
                    assert(self.owned()[k] == p);
                }
            }
            assert forall|p: PhysPageNum|
                mem0.contains(p) && !self.owned_set().contains(p) implies #[trigger] mem.page(p)
                == mem0.page(p) by {
                assert(mem1.page(p) == mem0.page(p));
                assert(mem.page(p) == mem1.page(p));
            }
        }
        (leaf, idxs[2])
    }

    /// Maps page `vpn` to frame `ppn` with `flags` and the flag `V`. The page
    /// must not be mapped yet. Nodes that the walk lacks are made first, each
    /// in a fresh frame; when the allocator has fewer free frames than nodes
    /// are lacking, nothing is done at all and the answer is `false`.
    pub fn map(
        &mut self,
        vpn: VirtPageNum,
        ppn: PhysPageNum,
        flags: PTEFlags,
        alloc: &mut StackFrameAllocator,
        mem: &mut PhysMemory,
    ) -> (done: bool)
        requires
            old(self).inv(old(alloc), old(mem)),
            !old(self).is_mapped(old(mem), vpn),
        ensures
            final(self).inv(final(alloc), final(mem)),
            done == (old(alloc)@.free_count() >= nodes_missing(old(mem), old(self).root(), vpn)),
            !done ==> *final(self) == *old(self) && *final(alloc) == *old(alloc) && *final(mem)
                == *old(mem),
            done ==> {
                &&& final(self).grew_from(old(self), old(alloc)@, final(alloc)@, old(mem), final(mem))
                &&& nodes_added_for(old(mem), final(mem), old(self).root(), vpn)
                &&& final(self).owned().len() == old(self).owned().len() + nodes_missing(
                    old(mem),
                    old(self).root(),
                    vpn,
                )
                &&& final(self).walk(final(mem), vpn) == Some(
                    PageTableEntry::new(ppn, flags.union(PTEFlags::of(FLAG_V))),
                )
                &&& final(self).translation(final(mem), vpn) == final(self).walk(final(mem), vpn)
                &&& final(self).walk(final(mem), vpn) matches Some(entry) && entry.is_valid()
                    && entry.flags() == flags.union(PTEFlags::of(FLAG_V)) && (ppn.0 < FRAME_LIMIT
                    ==> entry.ppn() == ppn)
                &&& forall|w: VirtPageNum|
                    w.slot() == vpn.slot()
                        ==> #[trigger] final(self).walk(final(mem), w) == final(self).walk(final(mem), vpn)
                &&& forall|w: VirtPageNum|
                    w.slot() != vpn.slot() ==> #[trigger] final(self).translation(final(mem), w)
                        == old(self).translation(old(mem), w)
                &&& forall|w: VirtPageNum|
                    w.slot() != vpn.slot() && old(self).walk(old(mem), w).is_some()
                        ==> #[trigger] final(self).walk(final(mem), w) == old(self).walk(old(mem), w)
            },
    {
        let missing = self.missing_nodes(vpn, mem);
        if !alloc.has_free(missing) {
            return false;
        }
        let ghost table0 = *self;
        let ghost mem0 = *mem;
        let (node, idx) = self.find_pte_create(vpn, alloc, mem);
        let ghost mem1 = *mem;
        let entry = PageTableEntry::new(ppn, flags.union(PTEFlags::of(FLAG_V)));
        mem.write_word(node, idx, entry.bits);
        proof {
            entry_holds_its_parts(ppn, flags.union(PTEFlags::of(FLAG_V)));
            entry_holds_its_parts(ppn, flags);
            leaf_write_keeps_tree(&mem1, mem, self.root(), self.owned_set(), vpn, node, entry.bits);
            assert(self.owned_set().contains(node)) by {
                reveal(is_tree);
                indexes_determine_slot(vpn, vpn);
                assert(grandchild(&mem1, self.root(), vpn.index(0), vpn.index(1)) == Some(node));
            }
            assert forall|p: PhysPageNum|
                mem0.contains(p) && !self.owned_set().contains(p) implies #[trigger] mem.page(p)
                == mem0.page(p) by {
                assert(mem1.page(p) == mem0.page(p));
                assert(mem.page(p) == mem1.page(p));
            }
            assert(walk(mem, self.root(), vpn) == Some(entry));
            assert(entry.is_valid());
            assert(translation(mem, self.root(), vpn) == Some(entry));
            assert forall|w: VirtPageNum| w.slot() != vpn.slot() implies #[trigger] self.translation(
                mem,
                w,
            ) == table0.translation(&mem0, w) by {
                assert(self.walk(mem, w) == self.walk(&mem1, w));
                assert(self.translation(&mem1, w) == table0.translation(&mem0, w));
            }
            assert forall|w: VirtPageNum|
                w.slot() != vpn.slot() && table0.walk(&mem0, w).is_some() implies #[trigger] self.walk(
                mem,
                w,
            ) == table0.walk(&mem0, w) by {
                assert(self.walk(mem, w) == self.walk(&mem1, w));
            }
        }
        true
    }

    /// Takes the mapping of page `vpn` away: the entry that maps it becomes
    /// the empty entry. The page has to be mapped.
    pub fn unmap(&mut self, vpn: VirtPageNum, mem: &mut PhysMemory)
        requires
            old(self).wf(old(mem)),
            old(self).is_mapped(old(mem), vpn),
        ensures
            *final(self) == *old(self),
            final(self).wf(final(mem)),
            old(mem).same_but(final(mem), final(self).owned_set()),
            final(self).walk(final(mem), vpn) == Some(PageTableEntry::empty()),
            !final(self).is_mapped(final(mem), vpn),
            forall|w: VirtPageNum|
                w.slot() == vpn.slot() ==> #[trigger] final(self).walk(final(mem), w) == Some(
                    PageTableEntry::empty(),
                ),
            forall|w: VirtPageNum|
                w.slot() != vpn.slot() ==> #[trigger] final(self).walk(final(mem), w) == old(self).walk(
                    old(mem),
                    w,
                ),
            forall|w: VirtPageNum|
                #[trigger] nodes_missing(final(mem), final(self).root(), w) == nodes_missing(
                    old(mem),
                    old(self).root(),
                    w,
                ),
            nodes_kept(old(mem), final(mem), old(self).root()),
    {
        let ghost mem0 = *mem;
        let (node, idx) = self.find_pte(vpn, mem).unwrap();
        mem.write_word(node, idx, PageTableEntry::empty().bits);
        proof {
            entry_holds_its_parts(PhysPageNum(0), PTEFlags::of(0));
            leaf_write_keeps_tree(&mem0, mem, self.root(), self.owned_set(), vpn, node, 0);
            assert(self.owned_set().contains(node)) by {
                reveal(is_tree);
                indexes_determine_slot(vpn, vpn);
                assert(grandchild(&mem0, self.root(), vpn.index(0), vpn.index(1)) == Some(node));
            }
        }
    }

    /// Gives the table up and hands every frame it owns back to the
    /// allocator.
    pub fn release(self, alloc: &mut StackFrameAllocator)
        requires
            old(alloc).wf(),
            self.owned().no_duplicates(),
            forall|k: int| 0 <= k < self.owned().len() ==> old(alloc)@.is_allocated(
                #[trigger] self.owned()[k].0,
            ),
        ensures
            final(alloc).wf(),
            final(alloc)@.free_count() == old(alloc)@.free_count() + self.owned().len(),
            forall|k: int| 0 <= k < self.owned().len() ==> final(alloc)@.is_free(
                #[trigger] self.owned()[k].0,
            ),
            forall|q: u64|
                !self.owned().contains(PhysPageNum(q))
                    ==> final(alloc)@.is_allocated(q) == old(alloc)@.is_allocated(q),
            forall|q: u64| old(alloc)@.is_free(q) ==> final(alloc)@.is_free(q),
            forall|q: u64|
                final(alloc)@.is_free(q)
                    ==> old(alloc)@.is_free(q) || self.owned().contains(PhysPageNum(q)),
    {
        let ghost owned = self.owned();
        let mut frames = self.frames;
        assert(frames@.map_values(|f: FrameTracker| f.ppn) =~= owned);
        while frames.len() > 0
            invariant
                alloc.wf(),
                frames@.len() <= owned.len(),
                forall|k: int| 0 <= k < frames@.len() ==> (#[trigger] frames@[k]).ppn == owned[k],
                owned.no_duplicates(),
                alloc@.free_count() == old(alloc)@.free_count() + (owned.len() - frames@.len()),
                forall|k: int| 0 <= k < frames@.len() ==> alloc@.is_allocated(#[trigger] owned[k].0),
                forall|k: int| frames@.len() <= k < owned.len() ==> alloc@.is_free(#[trigger] owned[k].0),
                forall|q: u64|
                    !owned.contains(PhysPageNum(q)) ==> alloc@.is_allocated(q) == old(alloc)@.is_allocated(
                        q,
                    ),
                forall|q: u64| old(alloc)@.is_free(q) ==> alloc@.is_free(q),
                forall|q: u64| alloc@.is_free(q)
                    ==> old(alloc)@.is_free(q) || owned.contains(PhysPageNum(q)),
            decreases frames@.len(),
        {
            let ghost n = frames@.len() - 1;
            let frame = frames.pop().unwrap();
            assert(frame.ppn == owned[n]);
            assert(alloc@.is_allocated(owned[n].0));
            frame_dealloc(alloc, frame);
            proof {
                assert forall|k: int| 0 <= k < frames@.len() implies alloc@.is_allocated(
                    #[trigger] owned[k].0,
                ) by {
                    assert(owned[k] != owned[n]);
                }
                assert forall|k: int| frames@.len() <= k < owned.len() implies alloc@.is_free(
                    #[trigger] owned[k].0,
                ) by {
                    if k != n {
                        assert(owned[k] != owned[n]);
                    }
                }
                assert forall|q: u64| !owned.contains(PhysPageNum(q)) implies alloc@.is_allocated(q)
                    == old(alloc)@.is_allocated(q) by {
                    assert(owned.contains(owned[n]));
                }
            }
        }
    }

    /// On the way down to the entry of a page, the entries of the first two
    /// levels carry the flag `V` and no other.
    pub proof fn nodes_are_linked_by_valid_alone(&self, mem: &PhysMemory, vpn: VirtPageNum)
        requires
            self.wf(mem),
            leaf_slot(mem, self.root(), vpn).is_some(),
        ensures
            entry_at(mem, self.root(), vpn.index(0)).flags() == PTEFlags::of(FLAG_V),
            child(mem, self.root(), vpn.index(0)) matches Some(mid) && entry_at(
                mem,
                mid,
                vpn.index(1),
            ).flags() == PTEFlags::of(FLAG_V),
    {
        reveal(is_tree);
        indexes_determine_slot(vpn, vpn);
        assert(grandchild(mem, self.root(), vpn.index(0), vpn.index(1)).is_some());
        assert(child(mem, self.root(), vpn.index(0)).is_some());
    }

    /// A frame of a table that took its new frames from the free ones was a
    /// frame of the table before, or was free.
    pub proof fn owned_before_or_free(&self, before: &PageTable, alloc: AllocatorState, p: PhysPageNum)
        requires
            self.extends(before),
            self.new_frames_were_free(before, alloc),
            self.owned_set().contains(p),
        ensures
            before.owned_set().contains(p) || alloc.is_free(p.0),
    {
        let k = choose|k: int| 0 <= k < self.owned().len() && self.owned()[k] == p;
        if k < before.owned().len() {
            assert(self.owned().subrange(0, before.owned().len() as int)[k] == p);
            assert(before.owned().contains(p));
        } else {
            assert(alloc.is_free(self.owned()[k].0));
        }
    }
}

/// A piece of a buffer that lies within one frame: the bytes `start .. end`
/// of frame `ppn`.
#[derive(Copy, Clone, PartialEq, Eq, Debug)]
pub struct ByteChunk {
    pub ppn: PhysPageNum,
    pub start: usize,
    pub end: usize,
}

/// The address at which the piece of a buffer ends that starts at `at`: the
/// next page boundary, or the end of the buffer if that comes first.
pub open spec fn chunk_stop(at: int, end: int) -> int {
    let boundary = (at / 4096 + 1) * 4096;
    if boundary <= end {
        boundary
    } else {
        end
    }
}

/// The pieces of the buffer `at .. end` of the address space rooted at
/// `root`, page by page: for each page of the buffer the frame that the
/// walk for the page ends at, and the bytes of the buffer within it. There
/// are no pieces if a walk does not reach the last level.
pub open spec fn chunks_of(mem: &PhysMemory, root: PhysPageNum, at: int, end: int) -> Option<
    Seq<ByteChunk>,
>
    decreases end - at,
{
    if at >= end || at < 0 {
        Some(Seq::empty())
    } else {
        let stop = chunk_stop(at, end);
        match (
            walk(mem, root, VirtPageNum((at / 4096) as u64)),
            chunks_of(mem, root, stop, end),
        ) {
            (Some(entry), Some(rest)) => Some(
                seq![
                    ByteChunk {
                        ppn: entry.ppn(),
                        start: (at % 4096) as usize,
                        end: (stop - (at / 4096) * 4096) as usize,
                    },
                ] + rest,
            ),
            _ => None,
        }
    }
}

/// The pieces of the buffer of `len` bytes at address `ptr` of the address
/// space that `token` names: for each page of the buffer the frame it lies
/// in, and where within the frame. Nothing if the buffer runs over the end
/// of the address range, or a walk for one of its pages does not reach the
/// last level.
pub fn translated_byte_buffer(token: u64, ptr: u64, len: usize, mem: &PhysMemory) -> (pieces: Option<
    Vec<ByteChunk>,
>)
    requires
        mem.wf(),
    ensures
        ptr + len > u64::MAX ==> pieces.is_none(),
        ptr + len <= u64::MAX ==> match chunks_of(mem, root_of_token(token), ptr as int, ptr + len) {
            Some(chunks) => pieces.is_some() && pieces.unwrap()@ == chunks,
            None => pieces.is_none(),
        },
{
    let page_table = PageTable::from_token(token);
    let end: u64 = match ptr.checked_add(len as u64) {
        Some(end) => end,
        None => {
            return None;
        },
    };
    let ghost root = page_table.root();
    let mut start: u64 = ptr;
    let mut v: Vec<ByteChunk> = Vec::new();
    while start < end
        invariant
            mem.wf(),
            ptr <= start <= end,
            end == ptr + len,
            root == page_table.root(),
            root == root_of_token(token),
            chunks_of(mem, root, ptr as int, end as int) == (match chunks_of(
                mem,
                root,
                start as int,
                end as int,
            ) {
                Some(rest) => Some(v@ + rest),
                None => None,
            }),
        decreases end - start,
    {
        let start_va = VirtAddr(start);
        let vpn = start_va.floor();
        let offset: u64 = start_va.page_offset();
        let room: u64 = 4096 - offset;
        let stop: u64 = if end - start <= room {
            end
        } else {
            start + room
        };
        assert(stop == chunk_stop(start as int, end as int));
        let ghost before = v@;
        match page_table.translate(vpn, mem) {
            Some(entry) => {
                let chunk = ByteChunk {
                    ppn: entry.ppn(),
                    start: offset as usize,
                    end: (stop - (start - offset)) as usize,
                };
                v.push(chunk);
                proof {
                    match chunks_of(mem, root, stop as int, end as int) {
                        Some(rest) => {
                            assert(before + (seq![chunk] + rest) =~= v@ + rest);
                        },
                        None => {},
                    }
                }
            },
            None => {
                proof {
                    assert(vpn == VirtPageNum((start as int / 4096) as u64));
                    assert(chunks_of(mem, root, start as int, end as int).is_none());
                }
                return None;
            },
        }
        start = stop;
    }
    proof {
        assert(v@ + Seq::<ByteChunk>::empty() =~= v@);
    }
    Some(v)
}

impl PhysPageNum {
    /// The 512 entries of the node that lies in this frame of `mem`.
    pub fn get_pte_array(&self, mem: &PhysMemory) -> (entries: Vec<PageTableEntry>)
        requires
            mem.wf(),
            mem.contains(*self),
        ensures
            entries@.len() == 512,
            forall|i: int| 0 <= i < 512 ==> entries@[i] == entry_at(mem, *self, i),
    {
        let mut entries: Vec<PageTableEntry> = Vec::new();
        let mut i: usize = 0;
        while i < 512
            invariant
                i <= 512,
                mem.wf(),
                mem.contains(*self),
                entries@.len() == i,
                forall|k: int| 0 <= k < i ==> entries@[k] == entry_at(mem, *self, k),
            decreases 512 - i,
        {
            entries.push(PageTableEntry::of(mem.read_word(*self, i)));
            i += 1;
        }
        entries
    }
}

/// A walk goes down by the three indexes of the page number, root level
/// first: what `indexes` gives is what a walk uses, and so a walk finds the
/// entry that was written for a page number with the same indexes.
pub proof fn walk_follows_indexes(mem: &PhysMemory, root: PhysPageNum, vpn: VirtPageNum)
    ensures
        walk(mem, root, vpn) == (match child(mem, root, vpn.indexes_spec()[0] as int) {
            Some(mid) => match child(mem, mid, vpn.indexes_spec()[1] as int) {
                Some(leaf) => if mem.contains(leaf) {
                    Some(entry_at(mem, leaf, vpn.indexes_spec()[2] as int))
                } else {
                    None
                },
                None => None,
            },
            None => None,
        }),
{
    indexes_determine_slot(vpn, vpn);
}

} // verus!
