//! A page table: one frame of 512 entries.
use vstd::prelude::*;
use crate::memory::address::PhysicalPageNumber;
use crate::memory::frame::frame_tracker::FrameTracker;
use crate::memory::mapping::page_table_entry::PageTableEntry;

verus! {

/// Number of entries in a page table (a 4 KiB frame of 8-byte entries).
pub const ENTRY_COUNT: usize = 512;

/// The 512 entries of one page table.
pub struct PageTable {
    pub entries: Vec<PageTableEntry>,
}

impl PageTable {
    /// Resets every entry to zero, so that the table maps nothing.
    pub fn zero_init(&mut self)
        ensures
            final(self).entries@.len() == ENTRY_COUNT,
            forall|i: int| 0 <= i < ENTRY_COUNT ==> (#[trigger] final(self).entries@[i]).word() == 0,
    {
        let mut entries: Vec<PageTableEntry> = Vec::new();
        let mut i: usize = 0;
        while i < ENTRY_COUNT
            invariant
                i <= ENTRY_COUNT,
                entries@.len() == i,
                forall|j: int| 0 <= j < i ==> (#[trigger] entries@[j]).word() == 0,
            decreases ENTRY_COUNT - i,
        {
            entries.push(PageTableEntry::zero());
            i = i + 1;
        }
        self.entries = entries;
    }
}

/// A frame that holds a page table. The entries of the table live with the
/// address space that owns the frame (see `Mapping`).
#[derive(Debug)]
pub struct PageTableTracker(pub FrameTracker);

impl PageTableTracker {
    /// Takes `frame` for a page table, and gives the table it holds with
    /// every entry zeroed, so that it maps nothing whatever the frame held.
    pub fn new(frame: FrameTracker) -> (r: (Self, PageTable))
        ensures
            r.0.0 == frame,
            r.1.entries@.len() == ENTRY_COUNT,
            forall|i: int| 0 <= i < ENTRY_COUNT ==> (#[trigger] r.1.entries@[i]).word() == 0,
            forall|i: int| 0 <= i < ENTRY_COUNT ==> (#[trigger] r.1.entries@[i]).is_empty_spec(),
    {
        let mut table = PageTable { entries: Vec::new() };
        table.zero_init();
        (PageTableTracker(frame), table)
    }

    /// The number of the frame that holds the table.
    pub fn page_number(&self) -> (r: PhysicalPageNumber)
        ensures
            r == self.0.0,
    {
        self.0.page_number()
    }
}

} // verus!
