use rcore_os::memory::address::{PhysicalAddress, PhysicalPageNumber};
use rcore_os::memory::mapping::page_table::{PageTable, PageTableTracker};
use rcore_os::memory::frame::frame_tracker::FrameTracker;
use rcore_os::memory::mapping::page_table_entry::{
    Flags, PageTableEntry, DIRTY, EXECUTABLE, READABLE, USER, VALID, WRITABLE, MAX_PPN,
};

#[test]
fn entry_holds_frame_and_flags() {
    let e = PageTableEntry::new(PhysicalPageNumber(0x80000), Flags(VALID | READABLE | WRITABLE));
    assert_eq!(e.page_number(), PhysicalPageNumber(0x80000));
    assert_eq!(e.flags(), Flags(7));
    assert_eq!(e.address(), PhysicalAddress(0x8000_0000));
    assert!(!e.is_empty());
}

#[test]
fn boot_table_entry_round_trip() {
    // the boot page table maps 0x8000_0000 with flags 0xcf
    let e = PageTableEntry::new(PhysicalPageNumber(0x80000), Flags(0xcf));
    assert_eq!(e.page_number().0, 0x80000);
    assert_eq!(e.flags().bits(), 0xcf);
}

#[test]
fn largest_frame_fits() {
    let e = PageTableEntry::new(PhysicalPageNumber(MAX_PPN), Flags(DIRTY));
    assert_eq!(e.page_number(), PhysicalPageNumber(MAX_PPN));
    assert_eq!(e.flags(), Flags(DIRTY));
}

#[test]
fn zero_entry_is_empty() {
    assert!(PageTableEntry::new(PhysicalPageNumber(0), Flags::empty()).is_empty());
    assert!(PageTableEntry::zero().is_empty());
    assert!(PageTableEntry::default().is_empty());
    assert!(!PageTableEntry::new(PhysicalPageNumber(0), Flags(VALID)).is_empty());
    assert!(!PageTableEntry::new(PhysicalPageNumber(1), Flags::empty()).is_empty());
}

#[test]
fn flag_helpers() {
    assert_eq!(Flags::user(true), Flags(USER));
    assert_eq!(Flags::user(false), Flags::empty());
    assert_eq!(Flags::readable(true), Flags(READABLE));
    assert_eq!(Flags::writable(true), Flags(WRITABLE));
    assert_eq!(Flags::executable(true), Flags(EXECUTABLE));
    assert_eq!(Flags::executable(false).bits(), 0);
    let rw = Flags(READABLE).union(Flags(WRITABLE));
    assert_eq!(rw, Flags(6));
    assert!(rw.contains(Flags(READABLE)));
    assert!(!rw.contains(Flags(EXECUTABLE)));
}

#[test]
fn zero_init_clears_the_table() {
    let mut t = PageTable { entries: vec![PageTableEntry::new(PhysicalPageNumber(5), Flags(VALID))] };
    t.zero_init();
    assert_eq!(t.entries.len(), 512);
    assert!(t.entries.iter().all(|e| e.is_empty()));
}

#[test]
fn tracker_knows_its_frame() {
    let (t, table) = PageTableTracker::new(FrameTracker(PhysicalPageNumber(0x80400)));
    assert_eq!(t.page_number(), PhysicalPageNumber(0x80400));
    assert_eq!(table.entries.len(), 512);
    assert!(table.entries.iter().all(|e| e.is_empty()));
}
