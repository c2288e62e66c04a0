use rcore_os::memory::address::{PhysicalPageNumber, VirtualAddress};
use rcore_os::memory::frame::allocator::{FrameAllocator, NO_FREE_FRAME};
use rcore_os::memory::frame::stacked_allocator::StackedAllocator;
use rcore_os::memory::mapping::mapping::Mapping;
use rcore_os::memory::mapping::memory_set::MemorySet;
use rcore_os::memory::mapping::page_table_entry::{Flags, READABLE, USER, VALID, WRITABLE};
use rcore_os::memory::mapping::segment::MapType;
use rcore_os::memory::range::Range;
use rcore_os::process::process::{Process, ALLOC_BASE};

fn frames(start: u64, end: u64) -> FrameAllocator<StackedAllocator> {
    FrameAllocator::new(Range::from_bounds(PhysicalPageNumber(start), PhysicalPageNumber(end)))
}

fn empty_process(is_user: bool, fa: &mut FrameAllocator<StackedAllocator>) -> Process {
    let mapping = Mapping::new(fa).unwrap();
    Process { is_user, memory_set: MemorySet { mapping, segments: Vec::new(), allocated_pairs: Vec::new() } }
}

#[test]
fn first_range_starts_at_the_base() {
    let mut fa = frames(0x80400, 0x80500);
    let mut p = empty_process(false, &mut fa);
    let r = p.alloc_page_range(0x2000, Flags(VALID | READABLE | WRITABLE), &mut fa).unwrap();
    assert_eq!(r.start, VirtualAddress(ALLOC_BASE));
    assert_eq!(r.end, VirtualAddress(ALLOC_BASE + 0x2000));
    assert_eq!(p.memory_set.segments.len(), 1);
    assert_eq!(p.memory_set.segments[0].map_type, MapType::Framed);
    assert_eq!(p.memory_set.allocated_pairs.len(), 2);
    assert!(p.memory_set.mapping.lookup(VirtualAddress(ALLOC_BASE + 0x1000)).is_some());
}

#[test]
fn next_range_steps_past_the_first() {
    let mut fa = frames(0x80400, 0x80500);
    let mut p = empty_process(false, &mut fa);
    let a = p.alloc_page_range(0x2000, Flags(VALID | READABLE), &mut fa).unwrap();
    let b = p.alloc_page_range(0x2000, Flags(VALID | READABLE), &mut fa).unwrap();
    assert_eq!(b.start, VirtualAddress(ALLOC_BASE + 0x2000));
    assert!(!a.overlap_with(&b));
}

#[test]
fn size_is_rounded_up_to_pages() {
    let mut fa = frames(0x80400, 0x80500);
    let mut p = empty_process(true, &mut fa);
    let a = p.alloc_page_range(100, Flags(VALID | READABLE), &mut fa).unwrap();
    assert_eq!(a.start, VirtualAddress(ALLOC_BASE));
    assert_eq!(a.end, VirtualAddress(ALLOC_BASE + 100));
    assert_eq!(p.memory_set.segments[0].page_range.len(), 1);
    // a user process gets USER on its pages
    assert_eq!(p.memory_set.segments[0].flags, Flags(VALID | READABLE | USER));
    let (_, e) = p.memory_set.mapping.lookup(VirtualAddress(ALLOC_BASE)).unwrap();
    assert!(e.flags().contains(Flags(USER)));
    let b = p.alloc_page_range(4096, Flags(VALID), &mut fa).unwrap();
    assert_eq!(b.start, VirtualAddress(ALLOC_BASE + 4096));
}

#[test]
fn a_bigger_range_skips_by_its_own_length() {
    let mut fa = frames(0x80400, 0x80500);
    let mut p = empty_process(false, &mut fa);
    p.alloc_page_range(0x1000, Flags(VALID), &mut fa).unwrap();
    // 0x3000 bytes at the base overlap the first page, so the search moves by 0x3000
    let b = p.alloc_page_range(0x3000, Flags(VALID), &mut fa).unwrap();
    assert_eq!(b.start, VirtualAddress(ALLOC_BASE + 0x3000));
}

#[test]
fn alloc_page_range_runs_out_of_frames() {
    let mut fa = frames(0x80400, 0x80403);
    let mut p = empty_process(false, &mut fa);
    // root taken; middle and bottom tables take the other two; no frame for the page
    let r = p.alloc_page_range(0x1000, Flags(VALID), &mut fa);
    match r {
        Err(e) => assert_eq!(e, NO_FREE_FRAME),
        Ok(_) => panic!("no frame for the page"),
    }
    assert!(p.memory_set.segments.is_empty());
}

#[test]
fn kernel_process_is_not_user() {
    let mut fa = frames(0x80220, 0x88000);
    let p = Process::new_kernel(
        VirtualAddress(0xffff_ffff_8020_0000),
        VirtualAddress(0xffff_ffff_8020_8000),
        VirtualAddress(0xffff_ffff_8020_c000),
        VirtualAddress(0xffff_ffff_8020_e000),
        VirtualAddress(0xffff_ffff_8022_0000),
        &mut fa,
    )
    .unwrap();
    assert!(!p.is_user);
    assert_eq!(p.memory_set.segments.len(), 5);
}

#[test]
fn second_range_of_odd_size_moves_up_by_its_rounded_length() {
    let mut fa = frames(0x80400, 0x80500);
    let mut p = empty_process(false, &mut fa);
    let first = p.alloc_page_range(0x1800, Flags(READABLE | WRITABLE), &mut fa).unwrap();
    assert_eq!((first.start, first.end), (VirtualAddress(0x100_0000), VirtualAddress(0x100_1800)));
    let second = p.alloc_page_range(0x1800, Flags(READABLE | WRITABLE), &mut fa).unwrap();
    assert_eq!((second.start, second.end), (VirtualAddress(0x100_2000), VirtualAddress(0x100_3800)));
    assert_eq!(p.memory_set.segments.len(), 2);
    assert_eq!(p.memory_set.allocated_pairs.len(), 4);
}
