use rcore_os::memory::address::{VirtualAddress, VirtualPageNumber};
use rcore_os::memory::range::Range;

fn pages(start: u64, end: u64) -> Range<VirtualPageNumber> {
    Range::from_bounds(VirtualPageNumber(start), VirtualPageNumber(end))
}

#[test]
fn range_len_and_contains() {
    let r = pages(10, 14);
    assert_eq!(r.len(), 4);
    assert!(r.contains(VirtualPageNumber(10)));
    assert!(r.contains(VirtualPageNumber(13)));
    assert!(!r.contains(VirtualPageNumber(14)));
    assert!(!r.contains(VirtualPageNumber(9)));
}

#[test]
fn overlap_is_symmetric() {
    let a = pages(0, 10);
    let b = pages(5, 15);
    let c = pages(10, 20);
    assert!(a.overlap_with(&b));
    assert!(b.overlap_with(&a));
    // touching ranges do not overlap
    assert!(!a.overlap_with(&c));
    assert!(!c.overlap_with(&a));
}

#[test]
fn iter_walks_the_range() {
    let r = pages(7, 10);
    let v = r.iter();
    assert_eq!(v, vec![VirtualPageNumber(7), VirtualPageNumber(8), VirtualPageNumber(9)]);
    assert!(pages(5, 5).iter().is_empty());
    assert!(pages(6, 5).iter().is_empty());
}

#[test]
fn get_gives_the_values_in_order() {
    let r = pages(100, 110);
    assert_eq!(r.get(0), VirtualPageNumber(100));
    assert_eq!(r.get(9), VirtualPageNumber(109));
    for i in 0..10 {
        assert!(r.contains(r.get(i)));
        assert_eq!(r.get(i), r.iter()[i as usize]);
    }
}

#[test]
fn into_converts_each_bound() {
    let r = Range::from_bounds(VirtualAddress(0x1000), VirtualAddress(0x5000));
    let p: Range<VirtualPageNumber> = r.into();
    assert_eq!(p.start, VirtualPageNumber(1));
    assert_eq!(p.end, VirtualPageNumber(5));
    let back: Range<VirtualAddress> = p.into();
    assert_eq!(back.start, VirtualAddress(0x1000));
    assert_eq!(back.end, VirtualAddress(0x5000));
}
