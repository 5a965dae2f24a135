//! Thread schedulers.

pub mod stride_scheduler;
