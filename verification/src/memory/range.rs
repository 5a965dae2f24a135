//! [`Range`]: a half-open range of addresses or page numbers.

use vstd::prelude::*;

verus! {

/// The half-open range `start .. end`.
#[derive(Clone, Copy)]
pub struct Range<T> {
    pub start: T,
    pub end: T,
}

impl<T: Copy> Range<T> {
    /// The range `start .. end`.
    pub fn from(start: T, end: T) -> (r: Self)
        ensures
            r.start == start,
            r.end == end,
    {
        Range { start, end }
    }
}

} // verus!
