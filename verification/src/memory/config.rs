//! Layout constants of the machine (QEMU `virt`, 128 MiB of RAM).
use vstd::prelude::*;

verus! {

/// Physical address where RAM starts.
pub const MEMORY_START_ADDRESS: u64 = 0x8000_0000;
/// Physical address just past the end of RAM.
pub const MEMORY_END_ADDRESS: u64 = 0x8800_0000;
/// Distance between a kernel virtual address and the physical address it maps to.
pub const KERNEL_MAP_OFFSET: u64 = 0xffff_ffff_0000_0000;
/// Size of the kernel heap (8 MiB).
pub const KERNEL_HEAP_SIZE: u64 = 0x80_0000;
/// Size of a page and of a physical frame.
pub const PAGE_SIZE: u64 = 4096;
/// Size of one page-table entry in bytes.
pub const PAGE_ENTRY_SIZE: u64 = 8;

} // verus!
