//! [`FrameAllocator`]: hands out the physical frames of a range.

use vstd::prelude::*;
use crate::allocator::Allocator;
use crate::allocator::segment_tree_allocator::{segment_leaf_count, SegmentTreeAllocator};
use crate::memory::address::PhysicalPageNumber;
use crate::memory::frame_tracker::FrameTracker;

verus! {

/// The error a failed allocation reports.
pub const NO_FRAME: &'static str = "no available frame to allocate";

/// Frame allocator over the physical pages `start_ppn ..`, backed by a
/// segment-tree allocator of the range's length.
pub struct FrameAllocator {
    start_ppn: PhysicalPageNumber,
    allocator: SegmentTreeAllocator,
}

/// Number of `false` entries of `s`: free frames.
pub open spec fn count_free(s: Seq<bool>) -> nat
    decreases s.len(),
{
    if s.len() == 0 {
        0
    } else {
        count_free(s.drop_last()) + if s.last() { 0nat } else { 1nat }
    }
}

/// Taking a free frame leaves one free frame less.
pub proof fn lemma_count_take(s: Seq<bool>, j: int)
    requires
        0 <= j < s.len(),
        !s[j],
    ensures
        count_free(s.update(j, true)) + 1 == count_free(s),
    decreases s.len(),
{
    let t = s.update(j, true);
    if j == s.len() - 1 {
        assert(t.drop_last() =~= s.drop_last());
    } else {
        assert(t.drop_last() =~= s.drop_last().update(j, true));
        lemma_count_take(s.drop_last(), j);
    }
}

/// Giving back a frame leaves at most one free frame more.
pub proof fn lemma_count_give(s: Seq<bool>, j: int)
    requires
        0 <= j < s.len(),
    ensures
        count_free(s.update(j, false)) <= count_free(s) + 1,
{
    let t = s.update(j, false);
    if s[j] {
        lemma_count_take(t, j);
        assert(t.update(j, true) =~= s);
    } else {
        assert(t =~= s);
    }
}

/// With every frame taken, none is free.
pub proof fn lemma_count_none_free(s: Seq<bool>)
    requires
        forall|j: int| 0 <= j < s.len() ==> #[trigger] s[j],
    ensures
        count_free(s) == 0,
    decreases s.len(),
{
    if s.len() > 0 {
        assert(s.last() == s[s.len() - 1]);
        assert forall|j: int| 0 <= j < s.drop_last().len() implies #[trigger] s.drop_last()[j] by {
            assert(s.drop_last()[j] == s[j]);
        }
        lemma_count_none_free(s.drop_last());
    }
}

impl FrameAllocator {
    /// First page of the range.
    pub closed spec fn start(&self) -> int {
        self.start_ppn.0 as int
    }

    /// Frames `start .. start + len`, `true` for a handed-out one.
    pub closed spec fn frames(&self) -> Seq<bool> {
        self.allocator.items()
    }

    /// The allocator's invariant.
    pub closed spec fn wf(&self) -> bool {
        &&& self.allocator.wf()
        &&& self.start() + self.frames().len() <= usize::MAX
    }

    /// Page `ppn` is a frame of the range that is handed out.
    pub open spec fn holds(&self, ppn: int) -> bool {
        self.start() <= ppn < self.start() + self.frames().len() && self.frames()[ppn - self.start()]
    }

    /// The allocator of the pages `start .. end`.
    pub fn new(start: PhysicalPageNumber, end: PhysicalPageNumber) -> (r: Self)
        requires
            start.0 <= end.0,
            SegmentTreeAllocator::new_requires((end.0 - start.0) as usize),
            start.0 + segment_leaf_count((end.0 - start.0) as usize) <= usize::MAX,
        ensures
            r.wf(),
            r.start() == start.0,
            r.frames() == Seq::new(
                segment_leaf_count((end.0 - start.0) as usize),
                |j: int| j >= end.0 - start.0,
            ),
    {
        FrameAllocator { start_ppn: start, allocator: SegmentTreeAllocator::new(end.0 - start.0) }
    }

    /// Hand out the first free frame of the range.
    pub fn allocate(&mut self) -> (r: Result<FrameTracker, &'static str>)
        requires
            old(self).wf(),
        ensures
            final(self).wf(),
            final(self).start() == old(self).start(),
            final(self).frames().len() == old(self).frames().len(),
            match r {
                Ok(frame) => {
                    let j = frame.0.0 - old(self).start();
                    &&& 0 <= j < old(self).frames().len()
                    &&& !old(self).frames()[j]
                    &&& forall|i: int| 0 <= i < j ==> #[trigger] old(self).frames()[i]
                    &&& final(self).frames() == old(self).frames().update(j, true)
                },
                Err(e) => {
                    &&& e == NO_FRAME
                    &&& forall|i: int| 0 <= i < old(self).frames().len() ==> #[trigger] old(self).frames()[i]
                    &&& final(self).frames() == old(self).frames()
                },
            },
    {
        proof {
            self.allocator.lemma_items_len();
        }
        match self.allocator.allocate() {
            Some(offset) => {
                proof {
                    self.allocator.lemma_items_len();
                }
                Ok(FrameTracker(PhysicalPageNumber(self.start_ppn.0 + offset)))
            },
            None => {
                proof {
                    self.allocator.lemma_items_len();
                }
                Err(NO_FRAME)
            },
        }
    }

    /// Take back a frame of the range.
    pub fn dealloc(&mut self, frame: &FrameTracker)
        requires
            old(self).wf(),
            old(self).start() <= frame.0.0 < old(self).start() + old(self).frames().len(),
        ensures
            final(self).wf(),
            final(self).start() == old(self).start(),
            final(self).frames() == old(self).frames().update(frame.0.0 - old(self).start(), false),
    {
        proof {
            self.allocator.lemma_items_len();
        }
        self.allocator.dealloc(frame.0.0 - self.start_ppn.0);
        proof {
            self.allocator.lemma_items_len();
        }
    }
}

} // verus!
