//! Fixed-capacity allocators: [`Allocator`] hands out one index at a time,
//! [`VectorAllocator`] hands out runs of a given size.

pub mod free_list_allocator;
pub mod segment_tree_allocator;
pub mod buddy_system_vector_allocator2;
pub mod buddy_system_vector_allocator3;

use vstd::prelude::*;

verus! {

/// Allocator of a fixed capacity that allocates and frees one item at a time.
pub trait Allocator: Sized {
    /// The allocator's internal invariant.
    spec fn wf(&self) -> bool;

    /// Capacities that `new` accepts.
    spec fn new_requires(capacity: usize) -> bool;

    /// Indices that `dealloc` accepts in this state.
    spec fn dealloc_requires(&self, index: usize) -> bool;

    /// Create an allocator with the given capacity.
    fn new(capacity: usize) -> (r: Self)
        requires
            Self::new_requires(capacity),
        ensures
            r.wf(),
    ;

    /// Allocate an item; `None` when nothing is left.
    fn allocate(&mut self) -> (r: Option<usize>)
        requires
            old(self).wf(),
        ensures
            final(self).wf(),
    ;

    /// Give an item back.
    fn dealloc(&mut self, index: usize)
        requires
            old(self).wf(),
            old(self).dealloc_requires(index),
        ensures
            final(self).wf(),
    ;
}

/// Allocator of a fixed capacity that hands out runs of `size` items.
pub trait VectorAllocator: Sized {
    /// The allocator's internal invariant.
    spec fn wf(&self) -> bool;

    /// Capacities that `new` accepts.
    spec fn new_requires(capacity: usize) -> bool;

    /// Requests that `alloc` can serve in this state.
    spec fn alloc_requires(&self, size: usize) -> bool;

    /// Runs that `dealloc` accepts in this state.
    spec fn dealloc_requires(&self, start: usize, size: usize) -> bool;

    /// Create an allocator with the given capacity.
    fn new(capacity: usize) -> (r: Self)
        requires
            Self::new_requires(capacity),
        ensures
            r.wf(),
    ;

    /// Allocate a run of `size` items; `None` when the request cannot be served.
    fn allocate(&mut self, size: usize, align: usize) -> (r: Option<usize>)
        requires
            old(self).wf(),
            old(self).alloc_requires(size),
        ensures
            final(self).wf(),
    ;

    /// Give back the run of `size` items that starts at `start`.
    fn dealloc(&mut self, start: usize, size: usize, align: usize)
        requires
            old(self).wf(),
            old(self).dealloc_requires(start, size),
        ensures
            final(self).wf(),
    ;
}

} // verus!
