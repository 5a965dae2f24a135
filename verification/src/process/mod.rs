//! Threads and their scheduling on the processor.

pub mod process;
pub mod thread;
pub mod processor;
