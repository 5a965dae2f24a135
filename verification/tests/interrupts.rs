use rcore_lab::interrupt::context::Context;
use rcore_lab::interrupt::handler::{
    breakpoint, get_handle_function, interrupt_vector, supervisor_external_action, ExternalAction,
    HandleAction, TrapCause,
};
use rcore_lab::interrupt::idt::{Gate, DPL, GATE, IDT};
use rcore_lab::interrupt::timer::{count_tick, next_timeout, INTERVAL};

#[test]
fn idt_gates_point_at_their_handlers() {
    let idt = IDT::new();
    assert_eq!(idt.length, 10);
    for (i, g) in idt.gates.iter().enumerate() {
        assert_eq!(g.base, 0);
        assert_eq!(g.offset, i);
        assert!(g.dpl == DPL::Supervisor);
        assert!(g.gtype == GATE::Interrupt);
    }
}

#[test]
fn gate_fields() {
    let g = Gate::new(0x80, 3, DPL::User, GATE::Trap);
    assert_eq!(g.base, 0x80);
    assert_eq!(g.offset, 3);
    assert!(g.dpl == DPL::User);
    assert!(g.gtype == GATE::Trap);
}

#[test]
fn trap_causes_and_their_vectors() {
    assert_eq!(interrupt_vector(TrapCause::Breakpoint), Some(0));
    assert_eq!(interrupt_vector(TrapCause::UserEnvCall), Some(1));
    assert_eq!(interrupt_vector(TrapCause::SupervisorTimer), Some(2));
    assert_eq!(interrupt_vector(TrapCause::SupervisorExternal), Some(3));
    assert_eq!(interrupt_vector(TrapCause::Other), None);
}

#[test]
fn breakpoint_skips_the_instruction() {
    let mut c = Context::default();
    c.sepc = 0x8020_0000;
    c.x[5] = 9;
    breakpoint(&mut c);
    assert_eq!(c.sepc, 0x8020_0002);
    assert_eq!(c.x[5], 9);
}

#[test]
fn console_characters() {
    assert!(supervisor_external_action(3) == ExternalAction::KillCurrentThread(3));
    assert!(supervisor_external_action('f' as usize) == ExternalAction::ForkCurrentThread(b'f'));
    assert!(supervisor_external_action('g' as usize) == ExternalAction::Input(b'g'));
    assert!(supervisor_external_action('\r' as usize) == ExternalAction::Input(b'\n'));
    assert!(supervisor_external_action('\n' as usize) == ExternalAction::Input(b'\n'));
    assert!(supervisor_external_action(255) == ExternalAction::Input(255));
    assert!(supervisor_external_action(256) == ExternalAction::Ignore);
    assert!(supervisor_external_action(usize::MAX) == ExternalAction::Ignore);
}

#[test]
fn ticks_report_every_hundredth() {
    assert_eq!(count_tick(0), (1, false));
    assert_eq!(count_tick(98), (99, false));
    assert_eq!(count_tick(99), (100, true));
    assert_eq!(count_tick(199), (200, true));
    assert_eq!(next_timeout(5), 5 + INTERVAL);
    assert_eq!(INTERVAL, 100000);
}

#[test]
fn context_registers() {
    let mut c = Context::default();
    assert_eq!(c.sp(), 0);
    c.set_sp(0x1000).set_ra(0x2000);
    assert_eq!(c.sp(), 0x1000);
    assert_eq!(c.ra(), 0x2000);
    c.set_arguments(&[1, 2, 3]);
    assert_eq!((c.x[10], c.x[11], c.x[12], c.x[13]), (1, 2, 3, 0));
}

#[test]
fn context_of_new_kernel_thread() {
    let c = Context::new(0x9000, 0x8020_0000, Some(&[5]), false, 0);
    assert_eq!(c.sp(), 0x9000);
    assert_eq!(c.ra(), usize::MAX);
    assert_eq!(c.x[10], 5);
    assert_eq!(c.sepc, 0x8020_0000);
    assert_eq!(c.sstatus, (1 << 8) | (1 << 5));
    let u = Context::new(0x9000, 0x1000, None, true, (1 << 8) | 2);
    assert_eq!(u.sstatus, 2 | (1 << 5));
    assert_eq!(u.x[10], 0);
}

#[test]
fn handler_table() {
    let mut c = Context::default();
    c.sepc = 0x100;
    assert!(get_handle_function(0, &mut c) == HandleAction::Breakpoint(0x100));
    assert_eq!(c.sepc, 0x102);
    assert!(get_handle_function(1, &mut c) == HandleAction::SystemCall(0x102));
    assert_eq!(c.sepc, 0x104);
    assert!(get_handle_function(2, &mut c) == HandleAction::Tick);
    assert_eq!(c.sepc, 0x104);
    assert!(get_handle_function(3, &mut c) == HandleAction::External(0x104));
    assert_eq!(c.sepc, 0x106);
}
