//! [`Process`]: what the threads of a process share.
//!
//! A process owns an address space; threads read of it only whether it runs
//! in user mode. Mapping the space and allocating stacks in it are the
//! caller's business.

use vstd::prelude::*;

verus! {

/// Process control block.
pub struct Process {
    /// The process runs in user mode.
    pub is_user: bool,
}

} // verus!
