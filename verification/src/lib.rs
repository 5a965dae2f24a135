//! Verified core of a small RISC-V teaching kernel: frame and vector
//! allocators, a stride scheduler, page-table bookkeeping and the decisions
//! taken by the interrupt handlers.

pub mod bits;
pub mod allocator;
pub mod scheduler;
pub mod memory;
pub mod interrupt;
pub mod process;
pub mod kernel;
