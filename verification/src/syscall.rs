//! The system calls that change an address space.
//!
//! A request names an address space by the task that makes it. Here the
//! address space of that task is handed in, with the allocator and the
//! memory that it lives in.

use vstd::prelude::*;
use crate::address::{page_ceil, page_floor};
use crate::config::PAGE_SIZE;
use crate::frame_allocator::StackFrameAllocator;
use crate::map_area::{frames_for_pages, MapPermission, MapType, PERM_R, PERM_U, PERM_W, PERM_X};
use crate::memory_set::MemorySet;
use crate::phys_memory::PhysMemory;

verus! {

/// Whether `prot` asks for permissions that can be granted: reading,
/// writing, executing, or several of them, at the bits 0, 1 and 2, and
/// nothing at any other bit.
pub open spec fn prot_is_valid(prot: u64) -> bool {
    1 <= prot <= 7
}

/// The permissions that `prot` asks for, and use in user mode with them.
pub open spec fn perm_of_prot(prot: u64) -> MapPermission {
    let user = MapPermission::of(PERM_U);
    let read = if prot % 2 == 1 {
        user.union(MapPermission::of(PERM_R))
    } else {
        user
    };
    let write = if (prot / 2) % 2 == 1 {
        read.union(MapPermission::of(PERM_W))
    } else {
        read
    };
    if (prot / 4) % 2 == 1 {
        write.union(MapPermission::of(PERM_X))
    } else {
        write
    }
}

/// Whether a request to map at `start` with `prot` is well-formed: `start`
/// is the start of a page, and `prot` can be granted.
pub open spec fn request_is_valid(start: u64, prot: u64) -> bool {
    start % PAGE_SIZE == 0 && prot_is_valid(prot)
}

/// Maps the pages that hold the bytes `start .. start + len` of the address
/// space `space` to fresh frames of zero bytes, for use in user mode with
/// the permissions that `prot` asks for. The answer is 0 when that was done
/// or when `len` is 0, for which nothing is done. It is -1, and nothing has
/// changed, when the request is not well-formed, when the address space
/// cannot take the pages, or when the allocator has not all the frames that
/// the pages and the nodes for them take.
pub fn sys_mmap(
    space: &mut MemorySet,
    start: u64,
    len: u64,
    prot: u64,
    alloc: &mut StackFrameAllocator,
    mem: &mut PhysMemory,
) -> (code: isize)
    requires
        old(space).inv(old(alloc), old(mem)),
    ensures
        final(space).inv(final(alloc), final(mem)),
        final(space).grown_with(old(space), old(alloc)@, final(alloc)@, old(mem), final(mem)),
        code == 0 || code == -1,
        len == 0 ==> code == 0,
        len > 0 && !(request_is_valid(start, prot) && old(space).can_take(start, len)) ==> code == -1,
        len == 0 || !(request_is_valid(start, prot) && old(space).can_take(start, len))
            ==> *final(space) == *old(space) && *final(alloc) == *old(alloc) && *final(mem) == *old(mem),
        len > 0 && request_is_valid(start, prot) && old(space).can_take(start, len)
            && old(alloc)@.free_count() >= 3 * (page_ceil((start + len) as u64) - page_floor(start))
                ==> code == 0,
        len > 0 ==> (code == 0) == (request_is_valid(start, prot) && old(space).can_take(start, len)
            && old(alloc)@.free_count() >= frames_for_pages(
            old(mem),
            old(space).table().root(),
            page_floor(start),
            page_ceil((start + len) as u64),
            MapType::Framed,
        )),
        len > 0 && code == 0 ==> final(space).gained_area(
            old(space),
            page_floor(start),
            page_ceil((start + len) as u64),
            MapType::Framed,
            perm_of_prot(prot),
        ) && final(space).areas().last().holds_zeros(final(mem)),
        len > 0 && code == 0 ==> final(space).took_frames_for(
            old(space),
            page_floor(start),
            page_ceil((start + len) as u64),
            old(alloc)@,
            final(alloc)@,
            old(mem),
            final(mem),
        ),
        code == -1 ==> *final(space) == *old(space) && *final(alloc) == *old(alloc) && *final(mem)
            == *old(mem),
{
    proof {
        space.grows_by_nothing(alloc, mem);
    }
    if len == 0 {
        return 0;
    }
    if start % PAGE_SIZE != 0 {
        return -1;
    }
    assert((prot & !0x7 != 0 || prot & 0x7 == 0) == !(1 <= prot <= 7)) by (bit_vector);
    if prot & !0x7 != 0 || prot & 0x7 == 0 {
        return -1;
    }
    assert((prot & 1 == 1) == (prot % 2 == 1) && (prot & 2 == 2) == ((prot / 2) % 2 == 1) && (prot
        & 4 == 4) == ((prot / 4) % 2 == 1)) by (bit_vector);
    let mut permission = MapPermission::of(PERM_U);
    if prot & 1 == 1 {
        permission = permission.union(MapPermission::of(PERM_R));
    }
    if prot & 2 == 2 {
        permission = permission.union(MapPermission::of(PERM_W));
    }
    if prot & 4 == 4 {
        permission = permission.union(MapPermission::of(PERM_X));
    }
    if !space.mmap(start, len, permission, alloc, mem) {
        return -1;
    }
    0
}

/// Takes away the area of the address space `space` that is exactly the
/// bytes `start .. start + len`. The answer is 0 when that was done, and -1,
/// with nothing changed, when there is no such area.
pub fn sys_munmap(
    space: &mut MemorySet,
    start: u64,
    len: u64,
    alloc: &mut StackFrameAllocator,
    mem: &mut PhysMemory,
) -> (code: isize)
    requires
        old(space).inv(old(alloc), old(mem)),
    ensures
        final(space).inv(final(alloc), final(mem)),
        code == 0 || code == -1,
        code == 0 <==> exists|i: int|
            0 <= i < old(space).areas().len() && MemorySet::spans(
                #[trigger] old(space).areas()[i],
                start,
                start + len,
            ),
        code == -1 ==> *final(space) == *old(space) && *final(alloc) == *old(alloc) && *final(mem)
            == *old(mem),
        code == 0 ==> exists|i: int|
            0 <= i < old(space).areas().len() && #[trigger] final(space).lost_area(
                *old(space),
                i,
                start,
                len,
                old(alloc)@,
                final(alloc)@,
                old(mem),
                final(mem),
            ),
{
    space.remove(start, len, alloc, mem)
}

/// Priorities are not supported: the answer is always -1.
pub fn sys_set_priority(_prio: isize) -> (code: isize)
    ensures
        code == -1,
{
    -1
}

} // verus!
