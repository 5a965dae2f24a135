//! System calls about the calling thread.

use vstd::prelude::*;
use crate::process::processor::Processor;
use crate::scheduler::stride_scheduler::ThreadID;

verus! {

/// What the kernel does after a system call.
#[derive(Clone, Copy, PartialEq, Eq, Structural)]
pub enum SyscallResult {
    /// Go on with the calling thread, which gets this value back.
    Proceed(isize),
    /// End the calling thread.
    Kill,
}

/// `exit`: the calling thread ends, whatever its exit code (which the
/// kernel only reports).
pub fn sys_exit(code: usize) -> (r: SyscallResult)
    ensures
        r == SyscallResult::Kill,
{
    SyscallResult::Kill
}

/// `get_tid`: the calling thread gets its own identifier back.
pub fn sys_get_tid(processor: &Processor) -> (r: SyscallResult)
    requires
        processor.current() is Some,
    ensures
        r == SyscallResult::Proceed(processor.current()->0),
{
    let id = processor.current_thread();
    SyscallResult::Proceed(id)
}

/// `fork`, once the running thread has been forked: the thread that made
/// the call (`fork_id`) gets its own identifier back, the new thread, when
/// it is the one running, gets `0`.
pub fn sys_fork(processor: &Processor, fork_id: ThreadID) -> (r: SyscallResult)
    requires
        processor.current() is Some,
    ensures
        r == if processor.current() == Some(fork_id) {
            SyscallResult::Proceed(fork_id)
        } else {
            SyscallResult::Proceed(0)
        },
{
    if processor.current_thread() == fork_id {
        SyscallResult::Proceed(fork_id)
    } else {
        SyscallResult::Proceed(0)
    }
}

} // verus!
