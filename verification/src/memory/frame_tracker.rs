//! [`FrameTracker`]: the handle of one physical frame.

use vstd::prelude::*;
use crate::memory::address::{PhysicalAddress, PhysicalPageNumber, PAGE_SIZE};

verus! {

/// A physical frame handed out by a frame allocator.
pub struct FrameTracker(pub PhysicalPageNumber);

impl FrameTracker {
    /// Physical address of the frame.
    pub fn address(&self) -> (r: PhysicalAddress)
        requires
            self.0.0 * PAGE_SIZE <= usize::MAX,
        ensures
            r.0 == self.0.0 * PAGE_SIZE,
    {
        PhysicalAddress::from_page_number(self.0)
    }

    /// Page number of the frame.
    pub fn page_number(&self) -> (r: PhysicalPageNumber)
        ensures
            r == self.0,
    {
        self.0
    }
}

} // verus!
