//! [`Thread`]: the control block of one thread.
//!
//! A thread belongs to a [`Process`], shared through an [`Arc`] by all its
//! threads. The process allocates the thread's stack in its address space;
//! that stays with the caller: a thread is built on a stack that was
//! already mapped for it.

use std::sync::Arc;
use vstd::prelude::*;
use crate::process::process::Process;
use crate::interrupt::context::{Context, thread_sstatus, with_arguments};
use crate::memory::address::VirtualAddress;
use crate::memory::range::Range;
use crate::scheduler::stride_scheduler::ThreadID;

verus! {

/// Thread control block.
pub struct Thread {
    /// Identifier, drawn from a counter; negative values are errors.
    pub id: ThreadID,
    /// Scheduling priority.
    pub priority: usize,
    /// The thread's stack.
    pub stack: Range<VirtualAddress>,
    /// The process the thread belongs to.
    pub process: Arc<Process>,
    /// Saved registers while the thread does not run.
    pub context: Option<Context>,
    /// The thread sleeps.
    pub sleeping: bool,
    /// The thread has ended.
    pub dead: bool,
}

/// Draw the next thread identifier: the counter goes up by one and its new
/// value is the identifier.
fn next_id(counter: &mut ThreadID) -> (r: ThreadID)
    requires
        *old(counter) < ThreadID::MAX,
    ensures
        *final(counter) == *old(counter) + 1,
        r == *final(counter),
{
    *counter = *counter + 1;
    *counter
}

/// Another pointer to the same process, through `Arc::clone`.
#[verifier::external_body]
fn share_process(process: &Arc<Process>) -> (r: Arc<Process>)
    ensures
        r == *process,
{
    Arc::clone(process)
}

/// Fill the stack of a forked thread: byte `i` of `child` becomes byte `i`
/// of the parent's stack, for every byte of it.
pub fn copy_stack(parent: &Vec<u8>, child: &mut Vec<u8>)
    requires
        old(child)@.len() == parent@.len(),
    ensures
        final(child)@ == parent@,
{
    let mut i: usize = 0;
    while i < parent.len()
        invariant
            child@.len() == parent@.len(),
            i <= parent@.len(),
            forall|j: int| 0 <= j < i ==> #[trigger] child@[j] == parent@[j],
        decreases parent@.len() - i,
    {
        child.set(i, parent[i]);
        i = i + 1;
    }
    assert(child@ =~= parent@);
}

impl Thread {
    /// A new thread of `process` on `stack` that starts at `entry_point`
    /// with `arguments` in its argument registers, in user mode when the
    /// process is; `sstatus` is the current value of the register, which the
    /// new context starts from.
    pub fn new(
        counter: &mut ThreadID,
        process: Arc<Process>,
        stack: Range<VirtualAddress>,
        entry_point: usize,
        arguments: Option<&[usize]>,
        sstatus: usize,
        priority: usize,
    ) -> (r: Thread)
        requires
            *old(counter) < ThreadID::MAX,
            arguments matches Some(args) ==> args@.len() <= 8,
        ensures
            *final(counter) == *old(counter) + 1,
            r.id == *final(counter),
            r.priority == priority,
            r.stack == stack,
            r.process == process,
            !r.sleeping,
            !r.dead,
            r.context matches Some(c) && {
                &&& c.x@ == with_arguments(
                    Seq::new(32, |j: int| 0usize).update(2, stack.end.0).update(1, usize::MAX),
                    match arguments {
                        Some(args) => args@,
                        None => Seq::<usize>::empty(),
                    },
                )
                &&& c.sepc == entry_point
                &&& c.sstatus == thread_sstatus(sstatus, process.is_user)
            },
    {
        let context = Context::new(stack.end.0, entry_point, arguments, process.is_user, sstatus);
        let id = next_id(counter);
        Thread { id, priority, stack, process, context: Some(context), sleeping: false, dead: false }
    }

    /// Save the context of a thread that stops running; it must hold none.
    pub fn park(&mut self, context: Context)
        requires
            old(self).context is None,
        ensures
            final(self).context == Some(context),
            final(self).id == old(self).id,
            final(self).priority == old(self).priority,
            final(self).stack == old(self).stack,
            final(self).process == old(self).process,
            final(self).sleeping == old(self).sleeping,
            final(self).dead == old(self).dead,
    {
        self.context = Some(context);
    }

    /// Take out the saved context of a thread about to run; it must hold
    /// one. Activating the address space and pushing the context on the
    /// kernel stack are left to the caller.
    pub fn prepare(&mut self) -> (r: Context)
        requires
            old(self).context is Some,
        ensures
            old(self).context == Some(r),
            final(self).context is None,
            final(self).id == old(self).id,
            final(self).priority == old(self).priority,
            final(self).stack == old(self).stack,
            final(self).process == old(self).process,
            final(self).sleeping == old(self).sleeping,
            final(self).dead == old(self).dead,
    {
        self.context.take().unwrap()
    }

    /// A copy of this thread on `new_stack`, in the same process: the
    /// registers are those of `cur_context`, but for the stack pointer,
    /// which keeps its offset into the stack. This does not touch memory:
    /// the caller allocates `new_stack` in the process's address space and
    /// fills it with the bytes of this thread's stack (see [`copy_stack`]).
    pub fn fork(&self, counter: &mut ThreadID, new_stack: Range<VirtualAddress>, cur_context: Context, priority: usize) -> (r: Thread)
        requires
            *old(counter) < ThreadID::MAX,
            new_stack.start.0 + cur_context.x@[2] <= usize::MAX,
            self.stack.start.0 <= new_stack.start.0 + cur_context.x@[2],
        ensures
            *final(counter) == *old(counter) + 1,
            r.id == *final(counter),
            r.priority == priority,
            r.stack == new_stack,
            r.process == self.process,
            !r.sleeping,
            !r.dead,
            r.context matches Some(c) && {
                &&& c.x@ == cur_context.x@.update(2, (new_stack.start.0 + cur_context.x@[2] - self.stack.start.0) as usize)
                &&& c.sstatus == cur_context.sstatus
                &&& c.sepc == cur_context.sepc
            },
    {
        let mut new_context = cur_context;
        new_context.set_sp(new_stack.start.0 + cur_context.sp() - self.stack.start.0);
        let id = next_id(counter);
        let process = share_process(&self.process);
        Thread { id, priority, stack: new_stack, process, context: Some(new_context), sleeping: false, dead: false }
    }
}

} // verus!
