//! Virtual memory for a small multitasking kernel: typed addresses, a frame
//! allocator, a three-level page table kept in an arena of physical memory,
//! memory areas, and the address spaces built from them.

pub mod config;
pub mod address;
pub mod phys_memory;
pub mod frame_allocator;
pub mod page_table;
pub mod elf;
pub mod map_area;
pub mod memory_set;
pub mod kernel_space;
pub mod user_space;
pub mod syscall;

pub use address::{PhysAddr, PhysPageNum, SimpleRange, SimpleRangeIterator, StepByOne, VPNRange, VirtAddr,
    VirtPageNum};
pub use elf::{read_image, ElfImage, ElfSegment};
pub use frame_allocator::{frame_alloc, frame_dealloc, init_frame_allocator, FrameTracker,
    StackFrameAllocator};
pub use kernel_space::KernelLayout;
pub use map_area::{MapArea, MapPermission, MapType};
pub use memory_set::MemorySet;
pub use page_table::{translated_byte_buffer, ByteChunk, PTEFlags, PageTable, PageTableEntry};
pub use phys_memory::PhysMemory;
pub use syscall::{sys_mmap, sys_munmap, sys_set_priority};
