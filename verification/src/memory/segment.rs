//! [`MapType`] and [`Segment`].

use vstd::prelude::*;
use crate::memory::address::{VirtualAddress, VirtualPageNumber, PhysicalPageNumber, KERNEL_MAP_OFFSET, PAGE_SIZE};
use crate::memory::page_table_entry::Flags;
use crate::memory::range::Range;

verus! {

/// How a segment is mapped.
#[derive(Clone, Copy, PartialEq, Eq, Structural)]
pub enum MapType {
    /// Through the kernel's linear mapping.
    Linear,
    /// Onto frames allocated one by one.
    Framed,
}

/// A mapped segment of virtual memory.
#[derive(Clone, Copy)]
pub struct Segment {
    /// How it is mapped.
    pub map_type: MapType,
    /// Its virtual addresses.
    pub range: Range<VirtualAddress>,
    /// Flags of its pages.
    pub flags: Flags,
}

impl Segment {
    /// First virtual page of the segment.
    pub open spec fn first_page(&self) -> int {
        (self.range.start.0 / PAGE_SIZE) as int
    }

    /// Number of virtual pages the segment touches.
    pub open spec fn page_count(&self) -> int {
        if self.end_page() >= self.first_page() { self.end_page() - self.first_page() } else { 0 }
    }

    /// First virtual page past the segment.
    pub open spec fn end_page(&self) -> int {
        (self.range.end.0 / PAGE_SIZE) as int + if self.range.end.0 % PAGE_SIZE != 0 { 1int } else { 0int }
    }

    /// The virtual pages the segment touches: from the page holding its
    /// first address up to the first page at or after its end.
    pub fn page_range(&self) -> (r: Range<VirtualPageNumber>)
        ensures
            r.start.0 == self.first_page(),
            r.end.0 == self.end_page(),
    {
        Range::from(VirtualPageNumber::floor(self.range.start), VirtualPageNumber::ceil(self.range.end))
    }

    /// The physical pages of a linearly mapped segment, `None` for a framed
    /// one (its frames are only known once allocated). The segment must lie
    /// in the linear mapping.
    pub fn iter_mapped(&self) -> (r: Option<Range<PhysicalPageNumber>>)
        requires
            self.map_type == MapType::Linear ==> self.range.start.0 / PAGE_SIZE >= KERNEL_MAP_OFFSET / 4096
                && self.range.end.0 / PAGE_SIZE >= KERNEL_MAP_OFFSET / 4096,
        ensures
            self.map_type == MapType::Framed ==> r is None,
            self.map_type == MapType::Linear ==> (r matches Some(pages) && {
                &&& pages.start.0 == self.range.start.0 / PAGE_SIZE - KERNEL_MAP_OFFSET / 4096
                &&& pages.end.0 == self.range.end.0 / PAGE_SIZE + (if self.range.end.0 % PAGE_SIZE != 0 { 1int } else { 0int }) - KERNEL_MAP_OFFSET / 4096
            }),
    {
        match self.map_type {
            MapType::Linear => {
                let pages = self.page_range();
                Some(Range::from(PhysicalPageNumber::from_virtual(pages.start), PhysicalPageNumber::from_virtual(pages.end)))
            },
            MapType::Framed => None,
        }
    }
}

} // verus!
