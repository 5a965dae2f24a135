use rcore_lab::interrupt::context::Context;
use rcore_lab::kernel::process::{sys_exit, sys_fork, sys_get_tid, SyscallResult};
use rcore_lab::memory::address::VirtualAddress;
use rcore_lab::memory::range::Range;
use rcore_lab::process::process::Process;
use rcore_lab::process::processor::Processor;
use std::sync::Arc;
use rcore_lab::process::thread::{copy_stack, Thread};
use rcore_lab::scheduler::stride_scheduler::{StrideScheduler, MAX_STRIDE};

#[test]
fn empty_scheduler_has_nothing_to_run() {
    let mut s = StrideScheduler::default();
    assert_eq!(s.get_next(), None);
}

#[test]
fn stride_scheduling_favours_higher_priority() {
    let mut s = StrideScheduler::default();
    s.add_thread(1, 1);
    s.add_thread(2, 2);
    // both start at stride 0; thread 1 steps by MAX_STRIDE, thread 2 by half
    let order: Vec<isize> = (0..5).map(|_| s.get_next().unwrap()).collect();
    assert_eq!(order, vec![1, 2, 2, 2, 1]);
}

#[test]
fn first_of_equal_strides_runs_first() {
    let mut s = StrideScheduler::default();
    s.add_thread(7, 3);
    s.add_thread(8, 3);
    s.add_thread(9, 3);
    assert_eq!(s.get_next(), Some(7));
    assert_eq!(s.get_next(), Some(8));
    assert_eq!(s.get_next(), Some(9));
    assert_eq!(s.get_next(), Some(7));
}

#[test]
fn priority_zero_parks_at_max_stride() {
    let mut s = StrideScheduler::default();
    s.add_thread(1, 0);
    s.add_thread(2, 1);
    assert_eq!(s.get_next(), Some(1));
    // thread 1 now sits at MAX_STRIDE, thread 2 at 0
    assert_eq!(s.get_next(), Some(2));
    // thread 2 reached MAX_STRIDE too; thread 1 comes first in the pool
    assert_eq!(s.get_next(), Some(1));
    assert_eq!(MAX_STRIDE, 4_294_967_295);
}

#[test]
fn removed_thread_is_not_chosen() {
    let mut s = StrideScheduler::default();
    s.add_thread(1, 1);
    s.add_thread(2, 1);
    s.remove_thread(&1);
    assert_eq!(s.get_next(), Some(2));
    assert_eq!(s.get_next(), Some(2));
    s.remove_thread(&2);
    assert_eq!(s.get_next(), None);
}

#[test]
fn remove_undoes_add() {
    let mut s = StrideScheduler::default();
    s.add_thread(1, 4);
    s.add_thread(2, 4);
    s.add_thread(3, 4);
    s.remove_thread(&3);
    assert_eq!(s.get_next(), Some(1));
    assert_eq!(s.get_next(), Some(2));
    assert_eq!(s.get_next(), Some(1));
}

#[test]
fn set_priority_changes_the_step() {
    let mut s = StrideScheduler::default();
    s.add_thread(1, 1);
    s.add_thread(2, 1);
    s.set_priority(2, 4);
    assert_eq!(s.get_next(), Some(1));
    assert_eq!(s.get_next(), Some(2));
    // thread 2 steps by a quarter of MAX_STRIDE, less one: it runs four more
    // times before thread 1
    for _ in 0..4 {
        assert_eq!(s.get_next(), Some(2));
    }
    assert_eq!(s.get_next(), Some(1));
}

#[test]
fn processor_runs_first_added_thread() {
    let mut p = Processor::new();
    p.add_thread(1, 1);
    assert_eq!(p.current_thread(), 1);
    p.add_thread(2, 1);
    assert_eq!(p.current_thread(), 1);
    assert_eq!(p.prepare_next_thread(), Some(1));
    assert_eq!(p.prepare_next_thread(), Some(2));
    assert_eq!(p.current_thread(), 2);
}

#[test]
fn sleeping_thread_waits_until_woken() {
    let mut p = Processor::new();
    p.add_thread(1, 1);
    p.add_thread(2, 1);
    assert_eq!(p.prepare_next_thread(), Some(1));
    p.sleep_current_thread();
    assert_eq!(p.prepare_next_thread(), Some(2));
    assert_eq!(p.prepare_next_thread(), Some(2));
    p.wake_thread(1);
    // woken with stride 0, thread 1 runs next
    assert_eq!(p.prepare_next_thread(), Some(1));
}

#[test]
fn nothing_runnable_while_a_thread_sleeps() {
    let mut p = Processor::new();
    p.add_thread(1, 1);
    assert_eq!(p.prepare_next_thread(), Some(1));
    p.sleep_current_thread();
    assert_eq!(p.prepare_next_thread(), None);
    p.wake_thread(1);
    assert_eq!(p.prepare_next_thread(), Some(1));
}

#[test]
fn killed_thread_leaves() {
    let mut p = Processor::new();
    p.add_thread(1, 1);
    p.add_thread(2, 1);
    assert_eq!(p.prepare_next_thread(), Some(1));
    p.kill_current_thread();
    assert_eq!(p.prepare_next_thread(), Some(2));
    assert_eq!(p.prepare_next_thread(), Some(2));
}

#[test]
fn system_calls_about_the_caller() {
    let mut p = Processor::new();
    p.add_thread(5, 1);
    assert!(sys_get_tid(&p) == SyscallResult::Proceed(5));
    assert!(sys_exit(3) == SyscallResult::Kill);
}

fn process(is_user: bool) -> Arc<Process> {
    Arc::new(Process { is_user })
}

fn stack(start: usize, end: usize) -> Range<VirtualAddress> {
    Range::from(VirtualAddress(start), VirtualAddress(end))
}

#[test]
fn new_thread_context() {
    let mut counter: isize = 0;
    let args = [7usize, 8];
    let user = process(true);
    let t = Thread::new(&mut counter, Arc::clone(&user), stack(0x1000, 0x3000), 0x8000, Some(&args), 0x2, 3);
    assert_eq!(counter, 1);
    assert!(Arc::ptr_eq(&t.process, &user));
    assert_eq!(t.id, 1);
    assert_eq!(t.priority, 3);
    assert!(!t.sleeping && !t.dead);
    let c = t.context.unwrap();
    assert_eq!(c.sp(), 0x3000);
    assert_eq!(c.ra(), usize::MAX);
    assert_eq!(c.x[10], 7);
    assert_eq!(c.x[11], 8);
    assert_eq!(c.x[12], 0);
    assert_eq!(c.sepc, 0x8000);
    // user thread: previous privilege cleared, interrupts enabled after sret
    assert_eq!(c.sstatus, 0x2 | (1 << 5));
    let k = Thread::new(&mut counter, process(false), stack(0x5000, 0x6000), 0x9000, None, 0, 1);
    assert!(!k.process.is_user);
    assert_eq!(k.id, 2);
    assert_eq!(k.context.unwrap().sstatus, (1 << 8) | (1 << 5));
}

#[test]
fn park_and_prepare() {
    let mut counter: isize = 10;
    let mut t = Thread::new(&mut counter, process(false), stack(0x1000, 0x2000), 0x100, None, 0, 1);
    let c = t.prepare();
    assert!(t.context.is_none());
    assert_eq!(c.sepc, 0x100);
    let mut saved = c;
    saved.sepc = 0x104;
    t.park(saved);
    assert_eq!(t.context.unwrap().sepc, 0x104);
}

#[test]
fn fork_keeps_the_stack_offset() {
    let mut counter: isize = 0;
    let t = Thread::new(&mut counter, process(true), stack(0x1000, 0x3000), 0x100, None, 0, 1);
    let mut cur = Context::default();
    cur.set_sp(0x2800);
    cur.x[10] = 42;
    cur.sepc = 0x144;
    let child = t.fork(&mut counter, stack(0x7000, 0x9000), cur, 2);
    assert_eq!(child.id, 2);
    assert_eq!(child.priority, 2);
    assert_eq!(child.stack.start.0, 0x7000);
    // the child belongs to the parent's process
    assert!(Arc::ptr_eq(&child.process, &t.process));
    let c = child.context.unwrap();
    assert_eq!(c.sp(), 0x8800);
    assert_eq!(c.x[10], 42);
    assert_eq!(c.sepc, 0x144);
}

#[test]
fn every_thread_keeps_being_scheduled() {
    let mut s = StrideScheduler::default();
    for id in 1..=4 {
        s.add_thread(id, id as usize);
    }
    let mut seen = [false; 5];
    for _ in 0..40 {
        let id = s.get_next().unwrap();
        assert!((1..=4).contains(&id));
        seen[id as usize] = true;
    }
    assert!(seen[1] && seen[2] && seen[3] && seen[4]);
}

#[test]
fn fork_returns_the_id_to_the_parent_and_zero_to_the_child() {
    let mut p = Processor::new();
    p.add_thread(5, 1);
    p.add_thread(6, 1);
    assert!(sys_fork(&p, 5) == SyscallResult::Proceed(5));
    assert_eq!(p.prepare_next_thread(), Some(5));
    assert_eq!(p.prepare_next_thread(), Some(6));
    assert!(sys_fork(&p, 5) == SyscallResult::Proceed(0));
}

#[test]
fn copy_stack_copies_every_byte() {
    let parent: Vec<u8> = (0..64u8).collect();
    let mut child = vec![0u8; 64];
    copy_stack(&parent, &mut child);
    assert_eq!(child, parent);
}

#[test]
fn processor_answers_the_preconditions_it_asks() {
    let mut p = Processor::new();
    assert!(!p.current_held_once());
    assert!(p.next_stride_fits());
    p.add_thread(1, 1);
    assert!(p.current_held_once());
    assert!(p.next_stride_fits());
    // a second block of the running thread: no longer held once
    p.add_thread(1, 1);
    assert!(!p.current_held_once());
}

#[test]
fn scheduler_knows_when_a_stride_would_overflow() {
    let mut s = StrideScheduler::default();
    s.add_thread(1, 1);
    assert!(s.holds_once(1));
    assert!(!s.holds_once(2));
    // after one step the stride is MAX_STRIDE; on a 64-bit machine further
    // steps still fit
    assert_eq!(s.get_next(), Some(1));
    assert!(s.next_stride_fits());
}
