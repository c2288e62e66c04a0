use rcore_os::memory::address::VirtualAddress;
use rcore_os::memory::range::Range;
use rcore_os::process::thread::{Thread, ThreadInner};
use rcore_os::process::processor::{Processor, TickAction};
use rcore_os::process::scheduler::{FifoScheduler, Scheduler};

#[test]
fn fifo_runs_in_arrival_order() {
    let mut s = FifoScheduler::new();
    s.add_thread(3, 0);
    s.add_thread(1, 0);
    s.add_thread(2, 0);
    assert_eq!(s.get_next(), Some(3));
    assert_eq!(s.get_next(), Some(1));
    assert_eq!(s.get_next(), Some(2));
    assert_eq!(s.get_next(), None);
}

#[test]
fn fifo_remove_takes_out_every_copy() {
    let mut s = FifoScheduler::default();
    s.add_thread(1, ());
    s.add_thread(2, ());
    s.add_thread(1, ());
    s.add_thread(3, ());
    s.remove_thread(&1);
    assert_eq!(s.get_next(), Some(2));
    assert_eq!(s.get_next(), Some(3));
    assert_eq!(s.get_next(), None);
    // removing a thread that is not there changes nothing
    s.add_thread(4, ());
    s.remove_thread(&9);
    assert_eq!(s.get_next(), Some(4));
}

#[test]
fn first_thread_becomes_current() {
    let mut p = Processor::new();
    p.add_thread(7);
    p.add_thread(8);
    assert_eq!(p.current_thread(), 7);
}

#[test]
fn tick_switches_in_fifo_order() {
    let mut p = Processor::default();
    p.add_thread(1);
    p.add_thread(2);
    p.add_thread(3);
    // the first thread picked is the one already running
    assert_eq!(p.tick(), TickAction::Continue);
    assert_eq!(p.tick(), TickAction::Switch { park: 1, run: 2 });
    assert_eq!(p.current_thread(), 2);
    assert_eq!(p.tick(), TickAction::Switch { park: 2, run: 3 });
    assert_eq!(p.current_thread(), 3);
}

#[test]
fn sleeping_thread_is_not_scheduled_until_woken() {
    let mut p = Processor::new();
    let mut t1 = thread(1);
    p.add_thread(1);
    p.add_thread(2);
    p.sleep_current_thread(&mut t1);
    assert!(t1.inner.sleeping);
    assert!(p.has_waiting());
    assert_eq!(p.tick(), TickAction::Switch { park: 1, run: 2 });
    assert!(!p.has_waiting());
    p.wake_thread(&mut t1);
    assert!(!t1.inner.sleeping);
    assert_eq!(p.tick(), TickAction::Switch { park: 2, run: 1 });
}

fn thread(id: isize) -> Thread {
    Thread {
        id,
        stack: Range::from_bounds(VirtualAddress(0), VirtualAddress(0)),
        inner: ThreadInner { context: None, sleeping: false },
    }
}
