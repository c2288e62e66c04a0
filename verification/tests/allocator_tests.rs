use rcore_os::memory::address::{PhysicalAddress, PhysicalPageNumber};
use rcore_os::memory::frame::allocator::{Allocator, FrameAllocator, NO_FREE_FRAME};
use rcore_os::memory::frame::frame_tracker::FrameTracker;
use rcore_os::memory::frame::stacked_allocator::StackedAllocator;
use rcore_os::memory::range::Range;

#[test]
fn stacked_hands_out_in_order() {
    let mut a = StackedAllocator::new(3);
    assert_eq!(a.allocate(), Some(0));
    assert_eq!(a.allocate(), Some(1));
    assert_eq!(a.allocate(), Some(2));
    assert_eq!(a.allocate(), None);
}

#[test]
fn stacked_takes_back_what_it_gave() {
    let mut a = StackedAllocator::new(4);
    let x = a.allocate().unwrap();
    let y = a.allocate().unwrap();
    assert_ne!(x, y);
    a.dealloc(x);
    // the index given back is the next one handed out
    assert_eq!(a.allocate(), Some(x));
    assert_eq!(a.allocate(), Some(2));
    assert_eq!(a.allocate(), Some(3));
    assert_eq!(a.allocate(), None);
    a.dealloc(y);
    assert_eq!(a.allocate(), Some(y));
}

#[test]
fn stacked_of_capacity_zero() {
    // the single empty range still yields its start once
    let mut a = StackedAllocator::new(0);
    assert_eq!(a.allocate(), Some(0));
    assert_eq!(a.allocate(), None);
}

fn frames(start: u64, end: u64) -> FrameAllocator<StackedAllocator> {
    FrameAllocator::new(Range::from_bounds(PhysicalPageNumber(start), PhysicalPageNumber(end)))
}

#[test]
fn frame_allocator_offsets_by_start() {
    let mut fa = frames(0x80400, 0x80402);
    let f0 = fa.allocate().unwrap();
    assert_eq!(f0.page_number(), PhysicalPageNumber(0x80400));
    assert_eq!(f0.address(), PhysicalAddress(0x8040_0000));
    let f1 = fa.allocate().unwrap();
    assert_eq!(f1.page_number(), PhysicalPageNumber(0x80401));
}

#[test]
fn frame_allocator_runs_out() {
    let mut fa = frames(0x80400, 0x80401);
    assert!(fa.allocate().is_ok());
    match fa.allocate() {
        Err(e) => {
            assert_eq!(e, NO_FREE_FRAME);
            assert_eq!(e, "no available frame to allocator");
        }
        Ok(_) => panic!("no frame should be left"),
    }
}

#[test]
fn frame_allocator_reuses_a_returned_frame() {
    let mut fa = frames(0x80400, 0x80410);
    let f0 = fa.allocate().unwrap();
    let _f1 = fa.allocate().unwrap();
    fa.dealloc(&f0);
    let again = fa.allocate().unwrap();
    assert_eq!(again.page_number(), f0.page_number());
    let tracker = FrameTracker(PhysicalPageNumber(7));
    assert_eq!(tracker.page_number(), PhysicalPageNumber(7));
}

#[test]
fn frames_ten_then_eleven() {
    let mut fa = FrameAllocator::<StackedAllocator>::new(Range::from_bounds(PhysicalPageNumber(10), PhysicalPageNumber(12)));
    assert_eq!(fa.allocate().unwrap().page_number(), PhysicalPageNumber(10));
    let f = fa.allocate().unwrap();
    assert_eq!(f.page_number(), PhysicalPageNumber(11));
    assert_eq!(fa.allocate().err(), Some(NO_FREE_FRAME));
    fa.dealloc(&f);
    assert_eq!(fa.allocate().unwrap().page_number(), PhysicalPageNumber(11));
}
