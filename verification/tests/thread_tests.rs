use rcore_os::memory::address::{PhysicalPageNumber, VirtualAddress};
use rcore_os::memory::frame::allocator::FrameAllocator;
use rcore_os::memory::frame::stacked_allocator::StackedAllocator;
use rcore_os::memory::range::Range;
use rcore_os::process::config::{CONTEXT_SIZE, KERNEL_STACK_SIZE, STACK_SIZE};
use rcore_os::process::kernel_stack::KernelStack;
use rcore_os::process::process::{Process, ALLOC_BASE};
use rcore_os::process::thread::{Thread, ThreadCounter};
use rcore_os::interrupt::context::Context;

fn kernel_process(fa: &mut FrameAllocator<StackedAllocator>) -> Process {
    Process::new_kernel(
        VirtualAddress(0xffff_ffff_8020_0000),
        VirtualAddress(0xffff_ffff_8020_8000),
        VirtualAddress(0xffff_ffff_8020_c000),
        VirtualAddress(0xffff_ffff_8020_e000),
        VirtualAddress(0xffff_ffff_8022_0000),
        fa,
    )
    .unwrap()
}

#[test]
fn threads_get_their_own_stacks() {
    let mut fa = FrameAllocator::<StackedAllocator>::new(Range::from_bounds(PhysicalPageNumber(0x80220), PhysicalPageNumber(0x88000)));
    let mut p = kernel_process(&mut fa);
    let mut counter = ThreadCounter::new();
    let t1 = Thread::new(&mut p, &mut counter, 0x8020_1000, Some(&[0]), &mut fa).unwrap();
    let t2 = Thread::new(&mut p, &mut counter, 0x8020_1000, Some(&[1]), &mut fa).unwrap();
    assert_eq!(t1.id, 1);
    assert_eq!(t2.id, 2);
    assert_eq!(counter.last, 2);
    assert_eq!(p.memory_set.segments.len(), 7);
    assert_eq!(t1.stack.start, VirtualAddress(ALLOC_BASE));
    assert_eq!(t1.stack.end, VirtualAddress(ALLOC_BASE + STACK_SIZE));
    assert_eq!(t2.stack.start, VirtualAddress(ALLOC_BASE + STACK_SIZE));
    assert!(!t1.stack.overlap_with(&t2.stack));
    let c = t2.inner.context.unwrap();
    assert_eq!(c.sp(), ALLOC_BASE + 2 * STACK_SIZE);
    assert_eq!(c.x[10], 1);
    assert!(!t2.inner.sleeping);
}

#[test]
fn prepare_then_park() {
    let mut fa = FrameAllocator::<StackedAllocator>::new(Range::from_bounds(PhysicalPageNumber(0x80220), PhysicalPageNumber(0x88000)));
    let mut p = kernel_process(&mut fa);
    let mut counter = ThreadCounter::new();
    let mut t = Thread::new(&mut p, &mut counter, 0x8020_1000, None, &mut fa).unwrap();
    let ks = KernelStack { base: 0x8030_0000 };
    // a kernel thread's context goes onto the kernel stack too
    let (satp, at, c) = t.prepare(&p, &ks);
    assert_eq!(satp, p.memory_set.flush());
    assert_eq!(satp >> 60, 8);
    assert_eq!(at, 0x8030_0000 + KERNEL_STACK_SIZE - CONTEXT_SIZE);
    assert_eq!(ks.push_context(), at);
    assert_eq!(c.sepc, 0x8020_1000);
    assert_eq!(c.sp(), ALLOC_BASE + STACK_SIZE);
    assert!(t.inner.context.is_none());
    t.park(c);
    let (_, at2, c2) = t.prepare(&p, &ks);
    assert_eq!(at2, at);
    assert_eq!(c2.sepc, 0x8020_1000);
    t.park(Context::zeroed());
    assert!(t.inner.context.is_some());
}

#[test]
fn failed_thread_takes_no_number() {
    let mut fa = FrameAllocator::<StackedAllocator>::new(Range::from_bounds(PhysicalPageNumber(0x80220), PhysicalPageNumber(0x88000)));
    let mut p = kernel_process(&mut fa);
    let mut counter = ThreadCounter::new();
    // use up every frame
    while fa.allocate().is_ok() {}
    let segments = p.memory_set.segments.len();
    let r = Thread::new(&mut p, &mut counter, 0x8020_1000, None, &mut fa);
    assert_eq!(r.err(), Some("no available frame to allocator"));
    assert_eq!(counter.last, 0);
    assert_eq!(p.memory_set.segments.len(), segments);
}

#[test]
fn stack_is_free_before_a_new_thread() {
    let mut fa = FrameAllocator::<StackedAllocator>::new(Range::from_bounds(PhysicalPageNumber(0x80220), PhysicalPageNumber(0x88000)));
    let mut p = kernel_process(&mut fa);
    let mut counter = ThreadCounter::new();
    assert!(Thread::stack_is_free(&p));
    let _t = Thread::new(&mut p, &mut counter, 0x8020_1000, None, &mut fa).unwrap();
    assert!(Thread::stack_is_free(&p));
}
