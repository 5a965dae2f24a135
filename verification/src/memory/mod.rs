//! Addresses, frames, page-table entries and mapping segments.

pub mod address;




pub mod range;
pub mod frame_tracker;
pub mod page_table_entry;
pub mod segment;
pub mod frame_allocator;
pub mod mapping;
