//! Fixed constants of the memory layout.

use vstd::prelude::*;

verus! {

/// Bytes in one page of memory.
pub const PAGE_SIZE: u64 = 0x1000;

/// Bits of an address that select a byte within its page.
pub const PAGE_SIZE_BITS: u64 = 12;

/// Bytes in one page, as a length of a byte slice.
pub const PAGE_BYTES: usize = 4096;

/// Entries in one node of the page table.
pub const ENTRIES_PER_NODE: usize = 512;

/// Bytes of the stack that every user program gets.
pub const USER_STACK_SIZE: u64 = 0x2000;

/// Bytes of the stack that the kernel keeps for each task.
pub const KERNEL_STACK_SIZE: u64 = 0x2000;

/// First byte address past the usable physical memory of the reference machine.
pub const MEMORY_END: u64 = 0x8080_0000;

/// Virtual address of the landing-pad page: the last page of the address range.
pub const TRAMPOLINE: u64 = 0xffff_ffff_ffff_f000;

/// Virtual address of the page that holds a task's saved registers: the page
/// right below the landing pad.
pub const TRAP_CONTEXT: u64 = 0xffff_ffff_ffff_e000;

/// Tag in the top four bits of a translation-root token that names the
/// three-level table format.
pub const TOKEN_MODE: u64 = 8;

/// Mask of the 44 bits that hold a physical page number in an entry or a token.
pub const PPN_MASK: u64 = 0xfff_ffff_ffff;

/// Number of frame numbers that an entry or a token can hold: 2^44.
pub const FRAME_LIMIT: u64 = 0x1000_0000_0000;

/// Number of virtual page numbers that a byte address can give: 2^52.
pub const VPN_LIMIT: u64 = 0x10_0000_0000_0000;

/// Number of page numbers in each of the two halves that a three-level walk
/// tells apart: 2^26.
pub const HALF_PAGES: u64 = 0x400_0000;

/// Number of distinct slots that a three-level walk reaches: 2^27.
pub const TABLE_SLOTS: u64 = 0x800_0000;

/// The address right above the kernel stack of task `app_id`: the stacks lie
/// below the landing pad, one after the other, each with one page left out
/// above it.
pub open spec fn kernel_stack_top(app_id: int) -> int {
    TRAMPOLINE as int - app_id * (KERNEL_STACK_SIZE as int + PAGE_SIZE as int)
}

/// Whether the kernel stack of task `app_id` lies within the address range.
pub open spec fn has_kernel_stack(app_id: int) -> bool {
    0 <= app_id && kernel_stack_top(app_id) >= KERNEL_STACK_SIZE as int
}

/// The first address of the kernel stack of task `app_id`, and the address
/// right above it.
pub fn kernel_stack_position(app_id: usize) -> (ends: (u64, u64))
    requires
        has_kernel_stack(app_id as int),
    ensures
        ends.1 as int == kernel_stack_top(app_id as int),
        ends.0 as int == ends.1 as int - KERNEL_STACK_SIZE as int,
{
    let id: u64 = app_id as u64;
    let top: u64 = TRAMPOLINE - id * (KERNEL_STACK_SIZE + PAGE_SIZE);
    let bottom: u64 = top - KERNEL_STACK_SIZE;
    (bottom, top)
}

/// Whether task `app_id` has a kernel stack within the address range.
pub fn kernel_stack_fits(app_id: usize) -> (yes: bool)
    ensures
        yes == has_kernel_stack(app_id as int),
{
    let id: u64 = app_id as u64;
    id <= (TRAMPOLINE - KERNEL_STACK_SIZE) / (KERNEL_STACK_SIZE + PAGE_SIZE)
}

/// The kernel stacks of two tasks share no byte, and at least one page that
/// belongs to neither lies between them.
pub proof fn kernel_stacks_lie_apart(a: int, b: int)
    requires
        0 <= a < b,
    ensures
        kernel_stack_top(b) + PAGE_SIZE as int <= kernel_stack_top(a) - KERNEL_STACK_SIZE as int,
{
}

} // verus!
