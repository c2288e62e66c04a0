//! One Sv39 page-table entry and its permission flags.
use vstd::prelude::*;
use crate::bits::{get_bits, get_bits_spec, set_bits, set_bits_spec, fits_bits_spec};
use crate::memory::address::{PhysicalAddress, PhysicalPageNumber, ConvertFrom};

verus! {

/// The entry is in use.
pub const VALID: u8 = 1;
/// The page may be read.
pub const READABLE: u8 = 2;
/// The page may be written.
pub const WRITABLE: u8 = 4;
/// The page may be executed.
pub const EXECUTABLE: u8 = 8;
/// The page is reachable from user mode.
pub const USER: u8 = 16;
/// The mapping is present in every address space.
pub const GLOBAL: u8 = 32;
/// The page has been accessed.
pub const ACCESSED: u8 = 64;
/// The page has been written.
pub const DIRTY: u8 = 128;

/// The eight flag bits of an entry, one per constant above.
#[derive(Clone, Copy, Debug, PartialEq, Eq, Structural)]
pub struct Flags(pub u8);

impl Flags {
    /// No flag set.
    pub fn empty() -> (r: Flags)
        ensures
            r.0 == 0,
    {
        Flags(0)
    }

    /// The raw bits.
    pub fn bits(&self) -> (r: u8)
        ensures
            r == self.0,
    {
        self.0
    }

    /// The flags set in either.
    pub fn union(&self, other: Flags) -> (r: Flags)
        ensures
            r.0 == self.0 | other.0,
    {
        Flags(self.0 | other.0)
    }

    /// Whether every flag of `other` is set here.
    pub fn contains(&self, other: Flags) -> (r: bool)
        ensures
            r == (self.0 & other.0 == other.0),
    {
        self.0 & other.0 == other.0
    }

    /// `USER` when `value` holds, no flag otherwise.
    pub fn user(value: bool) -> (r: Flags)
        ensures
            r.0 == (if value { USER } else { 0 }),
    {
        if value {
            Flags(USER)
        } else {
            Flags::empty()
        }
    }

    /// `READABLE` when `value` holds, no flag otherwise.
    pub fn readable(value: bool) -> (r: Flags)
        ensures
            r.0 == (if value { READABLE } else { 0 }),
    {
        if value {
            Flags(READABLE)
        } else {
            Flags::empty()
        }
    }

    /// `WRITABLE` when `value` holds, no flag otherwise.
    pub fn writable(value: bool) -> (r: Flags)
        ensures
            r.0 == (if value { WRITABLE } else { 0 }),
    {
        if value {
            Flags(WRITABLE)
        } else {
            Flags::empty()
        }
    }

    /// `EXECUTABLE` when `value` holds, no flag otherwise.
    pub fn executable(value: bool) -> (r: Flags)
        ensures
            r.0 == (if value { EXECUTABLE } else { 0 }),
    {
        if value {
            Flags(EXECUTABLE)
        } else {
            Flags::empty()
        }
    }
}

/// Largest frame number an entry can hold: the field is bits 10..54.
pub const MAX_PPN: u64 = 0xfff_ffff_ffff;

/// An Sv39 page-table entry: flags in bits 0..8, the frame number in bits 10..54.
#[derive(Clone, Copy, Debug)]
pub struct PageTableEntry(u64);

impl PageTableEntry {
    /// The raw 64-bit word.
    pub closed spec fn word(self) -> u64 {
        self.0
    }

    /// The entry whose word is `w`.
    pub closed spec fn from_word(w: u64) -> PageTableEntry {
        PageTableEntry(w)
    }

    /// The entry `new(ppn, flags)` builds.
    pub open spec fn spec_new(ppn: u64, flags: u8) -> PageTableEntry {
        Self::from_word(Self::encode(ppn, flags))
    }

    /// An entry is its word.
    pub proof fn lemma_from_word(w: u64)
        ensures
            Self::from_word(w).word() == w,
    {
    }

    /// The frame number the entry holds.
    pub open spec fn ppn_spec(self) -> u64 {
        get_bits_spec(self.word(), 10, 54)
    }

    /// The flag byte the entry holds.
    pub open spec fn flags_spec(self) -> u8 {
        get_bits_spec(self.word(), 0, 8) as u8
    }

    /// Whether the word is all zero.
    pub open spec fn is_empty_spec(self) -> bool {
        self.word() == 0
    }

    /// The word of the entry that points at frame `ppn` with `flags`.
    pub open spec fn encode(ppn: u64, flags: u8) -> u64 {
        set_bits_spec(set_bits_spec(0, 0, 8, flags as u64), 10, 54, ppn)
    }

    /// The all-zero entry.
    pub fn zero() -> (r: Self)
        ensures
            r.word() == 0,
            r.ppn_spec() == 0,
            r.flags_spec() == 0,
    {
        proof {
            assert(get_bits_spec(0, 10, 54) == 0) by (bit_vector);
            assert(get_bits_spec(0, 0, 8) == 0) by (bit_vector);
        }
        PageTableEntry(0)
    }

    /// The entry that maps to frame `page_number` with `flags`. The frame
    /// number must fit its 44-bit field.
    pub fn new(page_number: PhysicalPageNumber, flags: Flags) -> (r: Self)
        requires
            page_number.0 <= MAX_PPN,
        ensures
            r == Self::spec_new(page_number.0, flags.0),
            r.word() == Self::encode(page_number.0, flags.0),
            r.ppn_spec() == page_number.0,
            r.flags_spec() == flags.0,
            r.is_empty_spec() <==> (page_number.0 == 0 && flags.0 == 0),
    {
        let f = flags.0 as u64;
        let p = page_number.0;
        proof {
            assert(f < 256);
            assert(fits_bits_spec(0, 8, f)) by (bit_vector)
                requires
                    f < 256,
            ;
            assert(fits_bits_spec(10, 54, p)) by (bit_vector)
                requires
                    p <= 0xfff_ffff_ffff,
            ;
        }
        let low = set_bits(0, 0, 8, f);
        let word = set_bits(low, 10, 54, p);
        proof {
            assert(low == f) by (bit_vector)
                requires
                    f < 256,
                    low == set_bits_spec(0, 0, 8, f),
            ;
            assert(get_bits_spec(word, 10, 54) == p && get_bits_spec(word, 0, 8) == f && (word
                == 0 <==> (p == 0 && f == 0))) by (bit_vector)
                requires
                    f < 256,
                    p <= 0xfff_ffff_ffff,
                    word == set_bits_spec(low, 10, 54, p),
                    low == f,
            ;
        }
        PageTableEntry(word)
    }

    /// The frame the entry points at.
    pub fn page_number(&self) -> (r: PhysicalPageNumber)
        ensures
            r.0 == self.ppn_spec(),
            r.0 <= MAX_PPN,
    {
        let w = self.0;
        let p = get_bits(w, 10, 54);
        proof {
            assert(get_bits_spec(w, 10, 54) <= 0xfff_ffff_ffff) by (bit_vector);
        }
        PhysicalPageNumber(p)
    }

    /// The first address of the frame the entry points at.
    pub fn address(&self) -> (r: PhysicalAddress)
        ensures
            r.0 == self.ppn_spec() * 4096,
    {
        let p = self.page_number();
        PhysicalAddress::convert_from(p)
    }

    /// The flag bits of the entry.
    pub fn flags(&self) -> (r: Flags)
        ensures
            r.0 == self.flags_spec(),
    {
        let w = self.0;
        let f = get_bits(w, 0, 8);
        proof {
            assert(get_bits_spec(w, 0, 8) < 256) by (bit_vector);
        }
        Flags(f as u8)
    }

    /// Whether the entry is unused (all zero).
    pub fn is_empty(&self) -> (r: bool)
        ensures
            r == self.is_empty_spec(),
    {
        self.0 == 0
    }
}

/// The entry built from frame `ppn` and `flags` holds that frame and those
/// flags, and is unused only when both are zero.
pub proof fn lemma_spec_new(ppn: u64, flags: u8)
    requires
        ppn <= MAX_PPN,
    ensures
        PageTableEntry::spec_new(ppn, flags).ppn_spec() == ppn,
        PageTableEntry::spec_new(ppn, flags).flags_spec() == flags,
        PageTableEntry::spec_new(ppn, flags).is_empty_spec() <==> (ppn == 0 && flags == 0),
{
    lemma_entry_round_trip(ppn, flags);
    PageTableEntry::lemma_from_word(PageTableEntry::encode(ppn, flags));
    assert((flags as u64) as u8 == flags);
}

impl Default for PageTableEntry {
    /// The unused, all-zero entry.
    fn default() -> (r: Self)
        ensures
            r.word() == 0,
    {
        PageTableEntry(0)
    }
}

/// An entry built from a frame and flags gives back that frame and those
/// flags, and is empty only when both are zero.
pub proof fn lemma_entry_round_trip(ppn: u64, flags: u8)
    requires
        ppn <= MAX_PPN,
    ensures
        get_bits_spec(PageTableEntry::encode(ppn, flags), 10, 54) == ppn,
        get_bits_spec(PageTableEntry::encode(ppn, flags), 0, 8) == flags as u64,
        PageTableEntry::encode(ppn, flags) == 0 <==> (ppn == 0 && flags == 0),
{
    let f = flags as u64;
    assert(f < 256);
    assert(set_bits_spec(0, 0, 8, f) == f) by (bit_vector)
        requires
            f < 256,
    ;
    let low = set_bits_spec(0, 0, 8, f);
    let word = set_bits_spec(low, 10, 54, ppn);
    assert(get_bits_spec(word, 10, 54) == ppn && get_bits_spec(word, 0, 8) == f && (word == 0
        <==> (ppn == 0 && f == 0))) by (bit_vector)
        requires
            f < 256,
            ppn <= 0xfff_ffff_ffff,
            word == set_bits_spec(low, 10, 54, ppn),
            low == f,
    ;
}

} // verus!
