//! A run of virtual pages mapped the same way with the same flags.
use vstd::prelude::*;
use crate::memory::address::{AddressValue, PhysicalPageNumber, VirtualPageNumber, ConvertFrom};
use crate::memory::config::KERNEL_MAP_OFFSET;
use crate::memory::mapping::page_table_entry::Flags;
use crate::memory::range::Range;

verus! {

/// How the pages of a segment find their frames.
#[derive(Debug, PartialEq, Eq, Structural)]
pub enum MapType {
    /// Each page maps to the frame at the kernel's linear offset below it.
    Linear,
    /// Each page gets a frame of its own from the frame allocator.
    Framed,
}

/// A run of virtual pages with one way of mapping and one set of flags.
#[derive(Debug)]
pub struct Segment {
    pub map_type: MapType,
    pub page_range: Range<VirtualPageNumber>,
    pub flags: Flags,
}

/// Page number distance of the kernel's linear mapping.
pub open spec fn linear_page_offset() -> u64 {
    (KERNEL_MAP_OFFSET / 4096) as u64
}

impl Segment {
    /// The frames a linear segment maps its pages to, in page order.
    pub open spec fn linear_targets(self) -> Seq<u64> {
        Seq::new(self.page_range.size(), |i: int| (self.page_range.lo() + i - linear_page_offset()) as u64)
    }

    /// Every page of a linear segment lies in the kernel's linear region.
    pub open spec fn linear_ok(self) -> bool {
        self.page_range.size() > 0 ==> self.page_range.lo() >= linear_page_offset()
    }

    /// For a linear segment, the frame of each page, in page order; `None`
    /// for a framed segment, whose frames come from the allocator.
    pub fn iter_mapped(&self) -> (r: Option<Vec<PhysicalPageNumber>>)
        requires
            self.map_type is Linear ==> self.linear_ok(),
        ensures
            match self.map_type {
                MapType::Linear => r is Some && r->0@.len() == self.page_range.size() && forall|i: int|
                    0 <= i < r->0@.len() ==> (#[trigger] r->0@[i]).0 == self.linear_targets()[i],
                MapType::Framed => r is None,
            },
    {
        match self.map_type {
            MapType::Linear => {
                let pages = self.page_range.iter();
                let mut frames: Vec<PhysicalPageNumber> = Vec::new();
                let mut i: usize = 0;
                while i < pages.len()
                    invariant
                        i <= pages@.len(),
                        self.linear_ok(),
                        pages@.len() == self.page_range.size(),
                        forall|j: int| 0 <= j < pages@.len() ==> #[trigger] pages@[j].value() == self.page_range.lo() + j,
                        frames@.len() == i,
                        forall|j: int| 0 <= j < i ==> (#[trigger] frames@[j]).0 == self.linear_targets()[j],
                    decreases pages@.len() - i,
                {
                    let vpn = pages[i];
                    assert(vpn.value() == self.page_range.lo() + i);
                    frames.push(PhysicalPageNumber::convert_from(vpn));
                    i = i + 1;
                }
                Some(frames)
            },
            MapType::Framed => None,
        }
    }
}

} // verus!
