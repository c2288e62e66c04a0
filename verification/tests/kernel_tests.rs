use rcore_os::memory::address::{PhysicalAddress, PhysicalPageNumber, VirtualAddress};
use rcore_os::memory::frame::allocator::FrameAllocator;
use rcore_os::memory::frame::stacked_allocator::StackedAllocator;
use rcore_os::memory::mapping::memory_set::MemorySet;
use rcore_os::memory::mapping::new_kernel;
use rcore_os::memory::mapping::page_table_entry::{Flags, EXECUTABLE, READABLE, VALID, WRITABLE};
use rcore_os::memory::range::Range;
use rcore_os::test::kernel_memory_check::kernel_memory_check;

const TEXT: u64 = 0xffff_ffff_8020_0000;
const RODATA: u64 = 0xffff_ffff_8020_8000;
const DATA: u64 = 0xffff_ffff_8020_c000;
const BSS: u64 = 0xffff_ffff_8020_e000;
const KERNEL_END: u64 = 0xffff_ffff_8022_0000;

fn ram_after_kernel() -> FrameAllocator<StackedAllocator> {
    FrameAllocator::new(Range::from_bounds(PhysicalPageNumber(0x80220), PhysicalPageNumber(0x88000)))
}

fn kernel() -> (MemorySet, FrameAllocator<StackedAllocator>) {
    let mut fa = ram_after_kernel();
    let ms = new_kernel(
        VirtualAddress(TEXT),
        VirtualAddress(RODATA),
        VirtualAddress(DATA),
        VirtualAddress(BSS),
        VirtualAddress(KERNEL_END),
        &mut fa,
    )
    .unwrap();
    (ms, fa)
}

#[test]
fn kernel_has_five_linear_segments() {
    let (ms, _) = kernel();
    assert_eq!(ms.segments.len(), 5);
    assert_eq!(ms.segments[0].flags, Flags(VALID | READABLE | EXECUTABLE));
    assert_eq!(ms.segments[1].flags, Flags(VALID | READABLE));
    assert_eq!(ms.segments[4].flags, Flags(VALID | READABLE | WRITABLE));
    assert_eq!(ms.segments[4].page_range.end.0, 0xffff_ffff_8800_0);
    assert!(ms.allocated_pairs.is_empty());
}

#[test]
fn kernel_maps_linearly() {
    let (ms, _) = kernel();
    let (pa, e) = ms.mapping.lookup(VirtualAddress(TEXT + 0x123)).unwrap();
    assert_eq!(pa, PhysicalAddress(0x8020_0123));
    assert_eq!(e.flags(), Flags(VALID | READABLE | EXECUTABLE));
    let (pa, e) = ms.mapping.lookup(VirtualAddress(0xffff_ffff_87ff_fff8)).unwrap();
    assert_eq!(pa, PhysicalAddress(0x87ff_fff8));
    assert_eq!(e.flags(), Flags(VALID | READABLE | WRITABLE));
}

#[test]
fn kernel_memory_check_passes() {
    let (ms, _) = kernel();
    // a stack pointer inside bss
    assert!(kernel_memory_check(&ms, VirtualAddress(BSS + 0x1ff0)));
    // and one in the free RAM above the kernel
    assert!(kernel_memory_check(&ms, VirtualAddress(KERNEL_END + 0x10)));
}

#[test]
fn kernel_memory_check_rejects_a_read_only_stack() {
    let (ms, _) = kernel();
    // a stack pointer in rodata: the page is not writable
    assert!(!kernel_memory_check(&ms, VirtualAddress(RODATA + 8)));
}

#[test]
fn kernel_needs_frames_for_tables() {
    let mut fa = FrameAllocator::<StackedAllocator>::new(Range::from_bounds(PhysicalPageNumber(0x80220), PhysicalPageNumber(0x80222)));
    let r = new_kernel(
        VirtualAddress(TEXT),
        VirtualAddress(RODATA),
        VirtualAddress(DATA),
        VirtualAddress(BSS),
        VirtualAddress(KERNEL_END),
        &mut fa,
    );
    assert!(r.is_err());
}

#[test]
fn memory_set_overlap() {
    let (ms, _) = kernel();
    let inside = Range::from_bounds(VirtualAddress(TEXT), VirtualAddress(TEXT + 0x1000));
    assert!(ms.overlap_with(inside));
    let low = Range::from_bounds(VirtualAddress(0x100_0000), VirtualAddress(0x100_2000));
    assert!(!ms.overlap_with(low));
    assert_eq!(ms.flush(), ms.mapping.flush());
}

#[test]
fn kernel_takes_no_page_frames() {
    let (ms, _) = kernel();
    assert!(ms.allocated_pairs.is_empty());
}

#[test]
fn kernel_needs_few_table_frames() {
    // the root, one middle table and 63 bottom tables: no frame per page
    let mut fa = FrameAllocator::<StackedAllocator>::new(Range::from_bounds(PhysicalPageNumber(0x80220), PhysicalPageNumber(0x80220 + 65)));
    let ms = new_kernel(
        VirtualAddress(TEXT),
        VirtualAddress(RODATA),
        VirtualAddress(DATA),
        VirtualAddress(BSS),
        VirtualAddress(KERNEL_END),
        &mut fa,
    );
    assert!(ms.is_ok());
}

#[test]
fn kernel_fails_only_when_frames_run_out() {
    let mut fa = FrameAllocator::<StackedAllocator>::new(Range::from_bounds(PhysicalPageNumber(0x80220), PhysicalPageNumber(0x80220 + 10)));
    let ms = new_kernel(
        VirtualAddress(TEXT),
        VirtualAddress(RODATA),
        VirtualAddress(DATA),
        VirtualAddress(BSS),
        VirtualAddress(KERNEL_END),
        &mut fa,
    );
    assert!(ms.is_err());
    assert!(fa.allocate().is_err());
}
