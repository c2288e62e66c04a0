//! A handle on one physical frame.
use vstd::prelude::*;
use crate::memory::address::{PhysicalAddress, PhysicalPageNumber, ConvertFrom};

verus! {

/// Holds one physical frame that was taken from a frame allocator.
#[derive(Debug)]
pub struct FrameTracker(pub PhysicalPageNumber);

impl FrameTracker {
    /// The first physical address of the frame.
    pub fn address(&self) -> (r: PhysicalAddress)
        requires
            self.0.0 * 4096 <= u64::MAX,
        ensures
            r.0 == self.0.0 * 4096,
    {
        PhysicalAddress::convert_from(self.0)
    }

    /// The number of the frame.
    pub fn page_number(&self) -> (r: PhysicalPageNumber)
        ensures
            r == self.0,
    {
        self.0
    }
}

} // verus!
