use rcore_os::memory::address::{PhysicalAddress, PhysicalPageNumber, VirtualAddress, VirtualPageNumber};
use rcore_os::memory::frame::allocator::{FrameAllocator, NO_FREE_FRAME};
use rcore_os::memory::frame::stacked_allocator::StackedAllocator;
use rcore_os::memory::mapping::mapping::Mapping;
use rcore_os::memory::mapping::page_table_entry::{Flags, READABLE, VALID, WRITABLE};
use rcore_os::memory::mapping::segment::{MapType, Segment};
use rcore_os::memory::range::Range;

fn frames(start: u64, end: u64) -> FrameAllocator<StackedAllocator> {
    FrameAllocator::new(Range::from_bounds(PhysicalPageNumber(start), PhysicalPageNumber(end)))
}

#[test]
fn new_mapping_maps_nothing() {
    let mut fa = frames(0x80400, 0x80500);
    let m = Mapping::new(&mut fa).unwrap();
    assert_eq!(m.root_ppn, PhysicalPageNumber(0x80400));
    assert!(m.lookup(VirtualAddress(0x1000)).is_none());
    assert_eq!(m.flush(), 0x80400 | (8u64 << 60));
}

#[test]
fn new_mapping_needs_a_frame() {
    let mut fa = frames(0x80400, 0x80401);
    let _taken = fa.allocate().unwrap();
    match Mapping::new(&mut fa) {
        Err(e) => assert_eq!(e, NO_FREE_FRAME),
        Ok(_) => panic!("there is no frame for the root table"),
    }
}

#[test]
fn lookup_after_map_one() {
    let mut fa = frames(0x80400, 0x80500);
    let mut m = Mapping::new(&mut fa).unwrap();
    m.map_one(VirtualPageNumber(0x1000), PhysicalPageNumber(0x80123), Flags(VALID | READABLE), &mut fa)
        .unwrap();
    let (pa, e) = m.lookup(VirtualAddress(0x100_0abc)).unwrap();
    assert_eq!(pa, PhysicalAddress(0x8012_3abc));
    assert_eq!(e.page_number(), PhysicalPageNumber(0x80123));
    assert_eq!(e.flags(), Flags(VALID | READABLE));
    // a neighbour page whose bottom table exists reads as an unused entry
    let (pa2, e2) = m.lookup(VirtualAddress(0x100_1000)).unwrap();
    assert!(e2.is_empty());
    assert_eq!(pa2, PhysicalAddress(0));
    // a page under another middle table is not reached at all
    assert!(m.lookup(VirtualAddress(0x4000_0000)).is_none());
}

#[test]
fn map_one_keeps_other_pages() {
    let mut fa = frames(0x80400, 0x80500);
    let mut m = Mapping::new(&mut fa).unwrap();
    m.map_one(VirtualPageNumber(1), PhysicalPageNumber(0x100), Flags(VALID), &mut fa).unwrap();
    m.map_one(VirtualPageNumber(2), PhysicalPageNumber(0x200), Flags(VALID), &mut fa).unwrap();
    m.map_one(VirtualPageNumber(1 << 18), PhysicalPageNumber(0x300), Flags(VALID), &mut fa).unwrap();
    assert_eq!(m.lookup(VirtualAddress(0x1000)).unwrap().0, PhysicalAddress(0x10_0000));
    assert_eq!(m.lookup(VirtualAddress(0x2000)).unwrap().0, PhysicalAddress(0x20_0000));
    assert_eq!(m.lookup(VirtualAddress(1 << 30)).unwrap().0, PhysicalAddress(0x30_0000));
}

#[test]
fn find_entry_creates_the_tables() {
    let mut fa = frames(0x80400, 0x80500);
    let mut m = Mapping::new(&mut fa).unwrap();
    let (t, i) = m.find_entry(VirtualPageNumber((1 << 18) | (2 << 9) | 3), &mut fa).unwrap();
    assert_eq!(i, 3);
    assert_eq!(t, 2);
    // the same page finds the same entry without taking frames
    let again = m.find_entry(VirtualPageNumber((1 << 18) | (2 << 9) | 3), &mut fa).unwrap();
    assert_eq!(again, (2, 3));
    // creating the tables mapped nothing
    assert!(m.lookup(VirtualAddress(((1 << 18) | (2 << 9) | 3) << 12)).unwrap().1.is_empty());
}

#[test]
fn map_one_fails_without_frames_for_tables() {
    // one frame for the root, one for a middle table, none for the bottom
    let mut fa = frames(0x80400, 0x80402);
    let mut m = Mapping::new(&mut fa).unwrap();
    let r = m.map_one(VirtualPageNumber(5), PhysicalPageNumber(0x100), Flags(VALID), &mut fa);
    assert_eq!(r, Err(NO_FREE_FRAME));
    assert!(m.lookup(VirtualAddress(0x5000)).is_none());
}

#[test]
fn map_linear_segment() {
    let mut fa = frames(0x80400, 0x80500);
    let mut m = Mapping::new(&mut fa).unwrap();
    let base = 0xffff_ffff_8020_0u64;
    let seg = Segment {
        map_type: MapType::Linear,
        page_range: Range::from_bounds(VirtualPageNumber(base), VirtualPageNumber(base + 4)),
        flags: Flags(VALID | READABLE | WRITABLE),
    };
    let pairs = m.map(&seg, &mut fa).unwrap();
    assert!(pairs.is_empty());
    for j in 0..4u64 {
        let va = VirtualAddress(((base + j) << 12) + 0x10);
        let (pa, e) = m.lookup(va).unwrap();
        assert_eq!(pa, PhysicalAddress(0x8020_0010 + (j << 12)));
        assert_eq!(e.flags(), Flags(7));
    }
    assert_eq!(seg.iter_mapped().unwrap(), vec![
        PhysicalPageNumber(0x80200),
        PhysicalPageNumber(0x80201),
        PhysicalPageNumber(0x80202),
        PhysicalPageNumber(0x80203),
    ]);
}

#[test]
fn map_framed_segment() {
    let mut fa = frames(0x80400, 0x80500);
    let mut m = Mapping::new(&mut fa).unwrap();
    let seg = Segment {
        map_type: MapType::Framed,
        page_range: Range::from_bounds(VirtualPageNumber(0x1000), VirtualPageNumber(0x1003)),
        flags: Flags(VALID | READABLE),
    };
    assert!(seg.iter_mapped().is_none());
    let pairs = m.map(&seg, &mut fa).unwrap();
    assert_eq!(pairs.len(), 3);
    for (j, (vpn, frame)) in pairs.iter().enumerate() {
        assert_eq!(*vpn, VirtualPageNumber(0x1000 + j as u64));
        let (pa, _) = m.lookup(VirtualAddress(vpn.0 << 12)).unwrap();
        assert_eq!(pa, frame.address());
    }
    assert_ne!(pairs[0].1.page_number(), pairs[1].1.page_number());
    assert_ne!(pairs[1].1.page_number(), pairs[2].1.page_number());
}

#[test]
fn map_framed_segment_gives_frames_back_when_it_fails() {
    // root, middle and bottom tables, then one frame for the first page only
    let mut fa = frames(0x80400, 0x80404);
    let mut m = Mapping::new(&mut fa).unwrap();
    let seg = Segment {
        map_type: MapType::Framed,
        page_range: Range::from_bounds(VirtualPageNumber(0x1000), VirtualPageNumber(0x1002)),
        flags: Flags(VALID | READABLE),
    };
    match m.map(&seg, &mut fa) {
        Err(e) => assert_eq!(e, NO_FREE_FRAME),
        Ok(_) => panic!("two pages cannot be backed"),
    }
    // the frame taken for the first page was returned
    assert!(fa.allocate().is_ok());
}

#[test]
fn map_needs_only_the_tables_of_the_run() {
    // 1024 pages from a 512-aligned page: root, middle and two bottom tables
    let mut fa = frames(0x80400, 0x80405);
    let mut m = Mapping::new(&mut fa).unwrap();
    let base = 0xffff_ffff_8040_0u64;
    let seg = Segment {
        map_type: MapType::Linear,
        page_range: Range::from_bounds(VirtualPageNumber(base), VirtualPageNumber(base + 1024)),
        flags: Flags(VALID | READABLE),
    };
    assert!(m.map(&seg, &mut fa).unwrap().is_empty());
    let (pa, _) = m.lookup(VirtualAddress((base + 1023) << 12)).unwrap();
    assert_eq!(pa, PhysicalAddress((0x80400 + 1023) << 12));
    // one frame is still free
    assert!(fa.allocate().is_ok());
    assert!(fa.allocate().is_err());
}

#[test]
fn failed_map_keeps_only_tables_taken() {
    // root, then the first page frame, middle and bottom tables, then nothing
    let mut fa = frames(0x80400, 0x80404);
    let mut m = Mapping::new(&mut fa).unwrap();
    let seg = Segment {
        map_type: MapType::Framed,
        page_range: Range::from_bounds(VirtualPageNumber(0x1000), VirtualPageNumber(0x1002)),
        flags: Flags(VALID | READABLE),
    };
    assert_eq!(m.map(&seg, &mut fa).err(), Some(NO_FREE_FRAME));
    // the two new tables stay taken; the page frame came back
    let back = fa.allocate().unwrap();
    assert_eq!(back.page_number(), PhysicalPageNumber(0x80401));
    assert!(fa.allocate().is_err());
}

#[test]
fn satp_decodes_to_the_root() {
    let mut fa = frames(0x80400, 0x80500);
    let m = Mapping::new(&mut fa).unwrap();
    assert_eq!(rcore_os::memory::mapping::mapping::root_of_satp(m.flush()), m.root_ppn);
}
