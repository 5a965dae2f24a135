//! [`Context`]: the registers saved when a trap enters the kernel.

use vstd::prelude::*;
use crate::bits::usize_set_bit;

verus! {

/// Bit of `sstatus` holding the previous privilege mode (set: supervisor).
pub const SSTATUS_SPP: usize = 8;

/// Bit of `sstatus` enabling interrupts after `sret`.
pub const SSTATUS_SPIE: usize = 5;

/// Registers saved on a trap: `x0 .. x31`, `sstatus` (as its raw bits) and
/// `sepc`, the address where the trap happened.
#[derive(Clone, Copy)]
pub struct Context {
    pub x: [usize; 32],
    pub sstatus: usize,
    pub sepc: usize,
}

/// A context with all registers zero.
impl Default for Context {
    fn default() -> (r: Self)
        ensures
            forall|i: int| 0 <= i < 32 ==> #[trigger] r.x@[i] == 0,
            r.sstatus == 0,
            r.sepc == 0,
    {
        Context { x: [0usize; 32], sstatus: 0, sepc: 0 }
    }
}

impl Context {
    /// Stack pointer, `x2`.
    pub fn sp(&self) -> (r: usize)
        ensures
            r == self.x@[2],
    {
        self.x[2]
    }

    /// Set the stack pointer.
    pub fn set_sp(&mut self, value: usize) -> (r: &mut Self)
        ensures
            r.x@ == old(self).x@.update(2, value),
            r.sstatus == old(self).sstatus,
            r.sepc == old(self).sepc,
            *final(self) == *final(r),
    {
        self.x[2] = value;
        self
    }

    /// Return address, `x1`.
    pub fn ra(&self) -> (r: usize)
        ensures
            r == self.x@[1],
    {
        self.x[1]
    }

    /// Set the return address.
    pub fn set_ra(&mut self, value: usize) -> (r: &mut Self)
        ensures
            r.x@ == old(self).x@.update(1, value),
            r.sstatus == old(self).sstatus,
            r.sepc == old(self).sepc,
            *final(self) == *final(r),
    {
        self.x[1] = value;
        self
    }

    /// Put up to eight arguments in `a0 ..` (`x10 ..`); there must be at most
    /// eight.
    pub fn set_arguments(&mut self, arguments: &[usize]) -> (r: &mut Self)
        requires
            arguments@.len() <= 8,
        ensures
            r.x@ == with_arguments(old(self).x@, arguments@),
            r.sstatus == old(self).sstatus,
            r.sepc == old(self).sepc,
            *final(self) == *final(r),
    {
        let mut i: usize = 0;
        while i < arguments.len()
            invariant
                arguments@.len() <= 8,
                i <= arguments@.len(),
                self.sstatus == old(self).sstatus,
                self.sepc == old(self).sepc,
                forall|j: int| 0 <= j < 32 ==> #[trigger] self.x@[j] == if 10 <= j < 10 + i {
                    arguments@[j - 10]
                } else {
                    old(self).x@[j]
                },
            decreases arguments@.len() - i,
        {
            self.x[10 + i] = arguments[i];
            i = i + 1;
        }
        assert(self.x@ =~= with_arguments(old(self).x@, arguments@));
        self
    }

    /// Context of a new thread: stack pointer `stack_top`, return address
    /// all ones, the arguments in `a0 ..`, `sepc` at `entry_point`, and
    /// `sstatus` taken from `sstatus` (the current register) with the previous
    /// privilege set to user or supervisor and the previous interrupt enable
    /// set.
    pub fn new(stack_top: usize, entry_point: usize, arguments: Option<&[usize]>, is_user: bool, sstatus: usize) -> (r: Self)
        requires
            arguments matches Some(args) ==> args@.len() <= 8,
        ensures
            r.x@ == with_arguments(
                Seq::new(32, |j: int| 0usize).update(2, stack_top).update(1, usize::MAX),
                match arguments {
                    Some(args) => args@,
                    None => Seq::<usize>::empty(),
                },
            ),
            r.sepc == entry_point,
            r.sstatus == thread_sstatus(sstatus, is_user),
    {
        let mut context = Self::default();
        context.set_sp(stack_top).set_ra(usize::MAX);
        let ghost base = context.x@;
        assert(base =~= Seq::new(32, |j: int| 0usize).update(2, stack_top).update(1, usize::MAX));
        if let Some(args) = arguments {
            context.set_arguments(args);
        } else {
            assert(with_arguments(base, Seq::<usize>::empty()) =~= base);
        }
        context.sepc = entry_point;
        context.sstatus = sstatus;
        usize_set_bit(&mut context.sstatus, SSTATUS_SPP, !is_user);
        usize_set_bit(&mut context.sstatus, SSTATUS_SPIE, true);
        context
    }
}

/// Registers `x` with `args` written from `x10` on.
pub open spec fn with_arguments(x: Seq<usize>, args: Seq<usize>) -> Seq<usize> {
    Seq::new(x.len(), |j: int| if 10 <= j < 10 + args.len() { args[j - 10] } else { x[j] })
}

/// `sstatus` of a new thread: the previous-privilege bit says user or
/// supervisor, the previous-interrupt-enable bit is set.
pub open spec fn thread_sstatus(sstatus: usize, is_user: bool) -> usize {
    let spp = if is_user {
        sstatus & !(1usize << SSTATUS_SPP)
    } else {
        sstatus | (1usize << SSTATUS_SPP)
    };
    spp | (1usize << SSTATUS_SPIE)
}

} // verus!
