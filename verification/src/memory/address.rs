//! Physical and virtual addresses and page numbers of Sv39, and the
//! conversions between them.
use vstd::prelude::*;
use crate::bits::{get_bits, get_bits_spec};
use crate::memory::config::{KERNEL_MAP_OFFSET, PAGE_SIZE};

verus! {

/// A physical byte address.
#[derive(Clone, Copy, Debug, PartialEq, Eq, Structural)]
pub struct PhysicalAddress(pub u64);

/// A virtual byte address.
#[derive(Clone, Copy, Debug, PartialEq, Eq, Structural)]
pub struct VirtualAddress(pub u64);

/// The number of a physical frame: its address divided by the page size.
#[derive(Clone, Copy, Debug, PartialEq, Eq, Structural)]
pub struct PhysicalPageNumber(pub u64);

/// The number of a virtual page: its address divided by the page size.
#[derive(Clone, Copy, Debug, PartialEq, Eq, Structural)]
pub struct VirtualPageNumber(pub u64);

/// A type that is a plain 64-bit number underneath (an address or a page
/// number), so that a range of it can be measured and walked.
pub trait AddressValue: Copy + Sized {
    /// The number this value stands for.
    spec fn value(self) -> u64;

    /// The value that stands for `v`.
    fn from_value(v: u64) -> (r: Self)
        ensures
            r.value() == v,
    ;

    /// The number this value stands for.
    fn to_value(&self) -> (r: u64)
        ensures
            r == self.value(),
    ;
}

/// A conversion from `T` that is defined on the values `convert_ok` admits.
pub trait ConvertFrom<T>: Sized {
    /// The values of `T` the conversion accepts.
    spec fn convert_ok(t: T) -> bool;

    /// What the conversion gives.
    spec fn convert_spec(t: T) -> Self;

    /// Converts `t`.
    fn convert_from(t: T) -> (r: Self)
        requires
            Self::convert_ok(t),
        ensures
            r == Self::convert_spec(t),
    ;
}

impl AddressValue for PhysicalAddress {
    open spec fn value(self) -> u64 {
        self.0
    }

    fn from_value(v: u64) -> (r: Self) {
        PhysicalAddress(v)
    }

    fn to_value(&self) -> (r: u64) {
        self.0
    }
}

impl AddressValue for VirtualAddress {
    open spec fn value(self) -> u64 {
        self.0
    }

    fn from_value(v: u64) -> (r: Self) {
        VirtualAddress(v)
    }

    fn to_value(&self) -> (r: u64) {
        self.0
    }
}

impl AddressValue for PhysicalPageNumber {
    open spec fn value(self) -> u64 {
        self.0
    }

    fn from_value(v: u64) -> (r: Self) {
        PhysicalPageNumber(v)
    }

    fn to_value(&self) -> (r: u64) {
        self.0
    }
}

impl AddressValue for VirtualPageNumber {
    open spec fn value(self) -> u64 {
        self.0
    }

    fn from_value(v: u64) -> (r: Self) {
        VirtualPageNumber(v)
    }

    fn to_value(&self) -> (r: u64) {
        self.0
    }
}

/// The page that starts at a page-aligned virtual address.
impl ConvertFrom<VirtualAddress> for VirtualPageNumber {
    open spec fn convert_ok(t: VirtualAddress) -> bool {
        t.0 % 4096 == 0
    }

    open spec fn convert_spec(t: VirtualAddress) -> Self {
        VirtualPageNumber(t.0 / 4096)
    }

    fn convert_from(t: VirtualAddress) -> (r: Self) {
        VirtualPageNumber(t.0 / PAGE_SIZE)
    }
}

/// The frame that starts at a page-aligned physical address.
impl ConvertFrom<PhysicalAddress> for PhysicalPageNumber {
    open spec fn convert_ok(t: PhysicalAddress) -> bool {
        t.0 % 4096 == 0
    }

    open spec fn convert_spec(t: PhysicalAddress) -> Self {
        PhysicalPageNumber(t.0 / 4096)
    }

    fn convert_from(t: PhysicalAddress) -> (r: Self) {
        PhysicalPageNumber(t.0 / PAGE_SIZE)
    }
}

/// The first address of a virtual page.
impl ConvertFrom<VirtualPageNumber> for VirtualAddress {
    open spec fn convert_ok(t: VirtualPageNumber) -> bool {
        t.0 * 4096 <= u64::MAX
    }

    open spec fn convert_spec(t: VirtualPageNumber) -> Self {
        VirtualAddress((t.0 * 4096) as u64)
    }

    fn convert_from(t: VirtualPageNumber) -> (r: Self) {
        VirtualAddress(t.0 * PAGE_SIZE)
    }
}

/// The first address of a physical frame.
impl ConvertFrom<PhysicalPageNumber> for PhysicalAddress {
    open spec fn convert_ok(t: PhysicalPageNumber) -> bool {
        t.0 * 4096 <= u64::MAX
    }

    open spec fn convert_spec(t: PhysicalPageNumber) -> Self {
        PhysicalAddress((t.0 * 4096) as u64)
    }

    fn convert_from(t: PhysicalPageNumber) -> (r: Self) {
        PhysicalAddress(t.0 * PAGE_SIZE)
    }
}

/// The kernel's linear view of a physical address.
impl ConvertFrom<PhysicalAddress> for VirtualAddress {
    open spec fn convert_ok(t: PhysicalAddress) -> bool {
        t.0 + KERNEL_MAP_OFFSET <= u64::MAX
    }

    open spec fn convert_spec(t: PhysicalAddress) -> Self {
        VirtualAddress((t.0 + KERNEL_MAP_OFFSET) as u64)
    }

    fn convert_from(t: PhysicalAddress) -> (r: Self) {
        VirtualAddress(t.0 + KERNEL_MAP_OFFSET)
    }
}

/// The physical address behind a kernel linear virtual address.
impl ConvertFrom<VirtualAddress> for PhysicalAddress {
    open spec fn convert_ok(t: VirtualAddress) -> bool {
        t.0 >= KERNEL_MAP_OFFSET
    }

    open spec fn convert_spec(t: VirtualAddress) -> Self {
        PhysicalAddress((t.0 - KERNEL_MAP_OFFSET) as u64)
    }

    fn convert_from(t: VirtualAddress) -> (r: Self) {
        PhysicalAddress(t.0 - KERNEL_MAP_OFFSET)
    }
}

/// The kernel's linear view of a physical frame.
impl ConvertFrom<PhysicalPageNumber> for VirtualPageNumber {
    open spec fn convert_ok(t: PhysicalPageNumber) -> bool {
        t.0 + KERNEL_MAP_OFFSET / 4096 <= u64::MAX
    }

    open spec fn convert_spec(t: PhysicalPageNumber) -> Self {
        VirtualPageNumber((t.0 + KERNEL_MAP_OFFSET / 4096) as u64)
    }

    fn convert_from(t: PhysicalPageNumber) -> (r: Self) {
        VirtualPageNumber(t.0 + KERNEL_MAP_OFFSET / PAGE_SIZE)
    }
}

/// The physical frame behind a page of the kernel's linear mapping.
impl ConvertFrom<VirtualPageNumber> for PhysicalPageNumber {
    open spec fn convert_ok(t: VirtualPageNumber) -> bool {
        t.0 >= KERNEL_MAP_OFFSET / 4096
    }

    open spec fn convert_spec(t: VirtualPageNumber) -> Self {
        PhysicalPageNumber((t.0 - KERNEL_MAP_OFFSET / 4096) as u64)
    }

    fn convert_from(t: VirtualPageNumber) -> (r: Self) {
        PhysicalPageNumber(t.0 - KERNEL_MAP_OFFSET / PAGE_SIZE)
    }
}

impl VirtualAddress {
    /// The offset of this address inside its page.
    pub fn page_offset(&self) -> (r: u64)
        ensures
            r == self.0 % 4096,
            r < 4096,
    {
        self.0 % PAGE_SIZE
    }
}

impl PhysicalPageNumber {
    /// The frame that holds the address.
    pub fn floor(address: PhysicalAddress) -> (r: Self)
        ensures
            r.0 == address.0 / 4096,
    {
        PhysicalPageNumber(address.0 / PAGE_SIZE)
    }

    /// The first frame that starts at or after the address.
    pub fn ceil(address: PhysicalAddress) -> (r: Self)
        ensures
            r.0 == address.0 / 4096 + (if address.0 % 4096 == 0 { 0int } else { 1int }),
    {
        let extra: u64 = if address.0 % PAGE_SIZE == 0 { 0 } else { 1 };
        PhysicalPageNumber(address.0 / PAGE_SIZE + extra)
    }
}

impl VirtualPageNumber {
    /// The page that holds the address.
    pub fn floor(address: VirtualAddress) -> (r: Self)
        ensures
            r.0 == address.0 / 4096,
    {
        VirtualPageNumber(address.0 / PAGE_SIZE)
    }

    /// The first page that starts at or after the address.
    pub fn ceil(address: VirtualAddress) -> (r: Self)
        ensures
            r.0 == address.0 / 4096 + (if address.0 % 4096 == 0 { 0int } else { 1int }),
    {
        let extra: u64 = if address.0 % PAGE_SIZE == 0 { 0 } else { 1 };
        VirtualPageNumber(address.0 / PAGE_SIZE + extra)
    }

    /// The three 9-bit indices of this page in the Sv39 page tables, from
    /// the root table down: bits 18..27, 9..18 and 0..9 of the number.
    pub fn levels(&self) -> (r: [usize; 3])
        ensures
            r@.len() == 3,
            r@[0] == level_index(self.0, 0),
            r@[1] == level_index(self.0, 1),
            r@[2] == level_index(self.0, 2),
    {
        proof {
            lemma_level_index_bound(self.0);
        }
        let top = get_bits(self.0, 18, 27);
        let middle = get_bits(self.0, 9, 18);
        let bottom = get_bits(self.0, 0, 9);
        [top as usize, middle as usize, bottom as usize]
    }
}

/// The index of page `vpn` in the table at `level` of its walk (0 is the root).
pub open spec fn level_index(vpn: u64, level: int) -> int {
    if level == 0 {
        get_bits_spec(vpn, 18, 27) as int
    } else if level == 1 {
        get_bits_spec(vpn, 9, 18) as int
    } else {
        get_bits_spec(vpn, 0, 9) as int
    }
}

/// The 27 bits of a page number that Sv39 translates; two pages with the
/// same key share every page-table slot.
pub open spec fn vpn_key(vpn: u64) -> nat {
    (vpn % 0x800_0000) as nat
}

/// Each level index is a 9-bit number, and the three of them spell out the key.
pub proof fn lemma_level_index_bound(vpn: u64)
    ensures
        0 <= level_index(vpn, 0) < 512,
        0 <= level_index(vpn, 1) < 512,
        0 <= level_index(vpn, 2) < 512,
        vpn_key(vpn) == level_index(vpn, 0) * 0x4_0000 + level_index(vpn, 1) * 0x200
            + level_index(vpn, 2),
{
    assert(get_bits_spec(vpn, 18, 27) == (vpn >> 18u64) & 511u64) by (bit_vector);
    assert(get_bits_spec(vpn, 9, 18) == (vpn >> 9u64) & 511u64) by (bit_vector);
    assert(get_bits_spec(vpn, 0, 9) == vpn & 511u64) by (bit_vector);
    assert((vpn >> 18u64) & 511u64 < 512) by (bit_vector);
    assert((vpn >> 9u64) & 511u64 < 512) by (bit_vector);
    assert(vpn & 511u64 < 512) by (bit_vector);
    assert(vpn % 0x800_0000 == ((vpn >> 18u64) & 511u64) * 0x4_0000 + ((vpn >> 9u64) & 511u64)
        * 0x200 + (vpn & 511u64)) by (bit_vector);
}

/// Two pages take the same path through the tables exactly when their keys agree.
pub proof fn lemma_levels_match_key(a: u64, b: u64)
    ensures
        (level_index(a, 0) == level_index(b, 0) && level_index(a, 1) == level_index(b, 1)
            && level_index(a, 2) == level_index(b, 2)) <==> vpn_key(a) == vpn_key(b),
{
    lemma_level_index_bound(a);
    lemma_level_index_bound(b);
}

} // verus!
