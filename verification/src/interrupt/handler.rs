//! What the trap handlers decide: which handler a trap goes to, and what an
//! external interrupt from the console asks for.

use vstd::prelude::*;
use crate::interrupt::context::Context;
use crate::interrupt::idt::IDT;

verus! {

/// The cause of a trap, as far as the handlers tell causes apart.
#[derive(Clone, Copy, PartialEq, Eq, Structural)]
pub enum TrapCause {
    /// `ebreak`.
    Breakpoint,
    /// A system call from user mode.
    UserEnvCall,
    /// Supervisor timer interrupt.
    SupervisorTimer,
    /// Supervisor external interrupt.
    SupervisorExternal,
    /// Anything else: the current thread is killed.
    Other,
}

/// Index of the handler a trap goes to, read from the interrupt descriptor
/// table: gates `0 .. 4` for the four handled causes; `None` sends the trap
/// to the fault handler.
pub fn interrupt_vector(cause: TrapCause) -> (r: Option<usize>)
    ensures
        r == match cause {
            TrapCause::Breakpoint => Some(0usize),
            TrapCause::UserEnvCall => Some(1usize),
            TrapCause::SupervisorTimer => Some(2usize),
            TrapCause::SupervisorExternal => Some(3usize),
            TrapCause::Other => None,
        },
{
    let temp_idt = IDT::new();
    let idt_id: usize = match cause {
        TrapCause::Breakpoint => 0,
        TrapCause::UserEnvCall => 1,
        TrapCause::SupervisorTimer => 2,
        TrapCause::SupervisorExternal => 3,
        TrapCause::Other => 4,
    };
    if idt_id == 4 {
        None
    } else {
        let offset = temp_idt.gates[idt_id].offset;
        Some(offset)
    }
}

/// Breakpoint: continue after the two-byte `ebreak`.
pub fn breakpoint(context: &mut Context)
    requires
        old(context).sepc + 2 <= usize::MAX,
    ensures
        final(context).sepc == old(context).sepc + 2,
        final(context).x == old(context).x,
        final(context).sstatus == old(context).sstatus,
{
    context.sepc += 2;
}

/// What a handler of the closure table reports, besides what it does to the
/// context: the address of the trap for three of them, a timer tick for
/// the fourth.
#[derive(Clone, Copy, PartialEq, Eq, Structural)]
pub enum HandleAction {
    /// A breakpoint at this address.
    Breakpoint(usize),
    /// A system call at this address.
    SystemCall(usize),
    /// A timer interrupt: count a tick.
    Tick,
    /// An external interrupt at this address.
    External(usize),
}

/// Run handler `index` of the table of four: breakpoint, system call,
/// timer and external interrupt. All but the timer handler step over the
/// two-byte trapping instruction; the table has four entries and indexing
/// past them panics.
pub fn get_handle_function(index: usize, context: &mut Context) -> (r: HandleAction)
    requires
        index < 4,
        index != 2 ==> old(context).sepc + 2 <= usize::MAX,
    ensures
        r == match index {
            0 => HandleAction::Breakpoint(old(context).sepc),
            1 => HandleAction::SystemCall(old(context).sepc),
            2 => HandleAction::Tick,
            _ => HandleAction::External(old(context).sepc),
        },
        final(context).sepc == if index == 2 { old(context).sepc as int } else { old(context).sepc + 2 },
        final(context).x == old(context).x,
        final(context).sstatus == old(context).sstatus,
{
    let at = context.sepc;
    if index == 2 {
        HandleAction::Tick
    } else {
        context.sepc = context.sepc + 2;
        if index == 0 {
            HandleAction::Breakpoint(at)
        } else if index == 1 {
            HandleAction::SystemCall(at)
        } else {
            HandleAction::External(at)
        }
    }
}

/// What a character read on an external interrupt asks for.
#[derive(Clone, Copy, PartialEq, Eq, Structural)]
pub enum ExternalAction {
    /// Nothing was read.
    Ignore,
    /// Ctrl-C: kill the current thread; the character still goes to standard
    /// input.
    KillCurrentThread(u8),
    /// `f`: fork the current thread; the character goes to standard input.
    ForkCurrentThread(u8),
    /// Any other character goes to standard input, a carriage return as a
    /// line feed.
    Input(u8),
}

/// The decision of the external interrupt handler on the value read from
/// the console: values above `255` mean nothing was read, `3` (Ctrl-C) kills
/// the current thread, `f` forks it, and every character is pushed to
/// standard input, a carriage return turned into a line feed.
pub fn supervisor_external_action(c: usize) -> (r: ExternalAction)
    ensures
        c > 255 ==> r == ExternalAction::Ignore,
        c == 3 ==> r == ExternalAction::KillCurrentThread(3),
        c == 102 ==> r == ExternalAction::ForkCurrentThread(102),
        c == 13 ==> r == ExternalAction::Input(10),
        c <= 255 && c != 3 && c != 102 && c != 13 ==> r == ExternalAction::Input(c as u8),
{
    if c <= 255 {
        if c == 3 {
            ExternalAction::KillCurrentThread(3)
        } else if c == 102 {
            ExternalAction::ForkCurrentThread(102)
        } else if c == 13 {
            ExternalAction::Input(10)
        } else {
            ExternalAction::Input(c as u8)
        }
    } else {
        ExternalAction::Ignore
    }
}

} // verus!
