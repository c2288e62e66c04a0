use rcore_os::memory::address::{
    ConvertFrom, PhysicalAddress, PhysicalPageNumber, VirtualAddress, VirtualPageNumber,
};

#[test]
fn kernel_high_half_selects_root_entry_510() {
    // 0xffff_ffff_8000_0000 is the 510th entry of the root table.
    let vpn = VirtualPageNumber::floor(VirtualAddress(0xffff_ffff_8000_0000));
    assert_eq!(vpn.levels(), [510, 0, 0]);
}

#[test]
fn ram_start_selects_root_entry_2() {
    let vpn = VirtualPageNumber::floor(VirtualAddress(0x8000_0000));
    assert_eq!(vpn.levels(), [2, 0, 0]);
}

#[test]
fn levels_split_the_page_number() {
    let vpn = VirtualPageNumber((3 << 18) | (5 << 9) | 7);
    assert_eq!(vpn.levels(), [3, 5, 7]);
    // only the low 27 bits take part
    let high = VirtualPageNumber((1u64 << 40) | (3 << 18) | (5 << 9) | 7);
    assert_eq!(high.levels(), [3, 5, 7]);
}

#[test]
fn frame_of_ram_start() {
    let ppn = PhysicalPageNumber::convert_from(PhysicalAddress(0x8000_0000));
    assert_eq!(ppn, PhysicalPageNumber(0x8_0000));
    assert_eq!(PhysicalAddress::convert_from(ppn), PhysicalAddress(0x8000_0000));
}

#[test]
fn floor_and_ceil() {
    assert_eq!(PhysicalPageNumber::floor(PhysicalAddress(0x1fff)), PhysicalPageNumber(1));
    assert_eq!(PhysicalPageNumber::ceil(PhysicalAddress(0x1fff)), PhysicalPageNumber(2));
    assert_eq!(PhysicalPageNumber::ceil(PhysicalAddress(0x2000)), PhysicalPageNumber(2));
    assert_eq!(VirtualPageNumber::floor(VirtualAddress(0x2001)), VirtualPageNumber(2));
    assert_eq!(VirtualPageNumber::ceil(VirtualAddress(0x2001)), VirtualPageNumber(3));
    assert_eq!(VirtualAddress(0x2345).page_offset(), 0x345);
}

#[test]
fn kernel_linear_offset() {
    let va = VirtualAddress::convert_from(PhysicalAddress(0x8020_0000));
    assert_eq!(va, VirtualAddress(0xffff_ffff_8020_0000));
    assert_eq!(PhysicalAddress::convert_from(va), PhysicalAddress(0x8020_0000));
    let vpn = VirtualPageNumber::convert_from(PhysicalPageNumber(0x8_0200));
    assert_eq!(vpn, VirtualPageNumber(0xffff_ffff_8020_0));
    assert_eq!(PhysicalPageNumber::convert_from(vpn), PhysicalPageNumber(0x8_0200));
}
