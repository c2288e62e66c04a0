use rcore_os::interrupt::context::{Context, SSTATUS_SPIE, SSTATUS_SPP};
use rcore_os::interrupt::handler::breakpoint;

#[test]
fn new_kernel_thread_context() {
    let c = Context::new(0x8000, 0x8020_1000, Some(&[1, 2, 3]), false);
    assert_eq!(c.sp(), 0x8000);
    assert_eq!(c.sepc, 0x8020_1000);
    assert_eq!(&c.x[10..13], &[1, 2, 3]);
    assert_eq!(c.x[13], 0);
    assert_eq!(c.ra(), 0);
    // supervisor previous mode, interrupts back on after sret
    assert_eq!(c.sstatus, SSTATUS_SPP | SSTATUS_SPIE);
}

#[test]
fn new_user_thread_context() {
    let c = Context::new(0x1000, 0x2000, None, true);
    assert_eq!(c.sstatus, SSTATUS_SPIE);
    assert!(c.x.iter().enumerate().all(|(i, v)| if i == 2 { *v == 0x1000 } else { *v == 0 }));
}

#[test]
fn register_setters() {
    let mut c = Context::default();
    c.set_sp(0x10);
    c.set_ra(0x20);
    assert_eq!(c.sp(), 0x10);
    assert_eq!(c.ra(), 0x20);
    c.set_arguments(&[9, 8, 7, 6, 5, 4, 3, 2]);
    assert_eq!(&c.x[10..18], &[9, 8, 7, 6, 5, 4, 3, 2]);
    assert_eq!(c.x[18], 0);
    assert_eq!(c.sp(), 0x10);
}

#[test]
fn breakpoint_skips_the_instruction() {
    let mut c = Context::zeroed();
    c.sepc = 0x8020_0040;
    c.set_ra(5);
    breakpoint(&mut c);
    assert_eq!(c.sepc, 0x8020_0042);
    assert_eq!(c.ra(), 5);
}
