//! [`Processor`]: which thread runs, which are scheduled, which sleep.

use vstd::prelude::*;
use crate::scheduler::stride_scheduler::{
    first_min_stride, held_once, pool_after_next, stride_after, thread_block, StrideScheduler,
    ThreadBlock, ThreadID,
};

verus! {

#[verifier::external_type_specification]
#[verifier::external_body]
#[verifier::reject_recursive_types(T)]
#[verifier::reject_recursive_types(S)]
pub struct ExHashSet<T, S>(hashbrown::HashSet<T, S>);

#[verifier::external_type_specification]
#[verifier::external_body]
pub struct ExDefaultHashBuilder(hashbrown::hash_map::DefaultHashBuilder);

/// The thread identifiers a `hashbrown` set holds.
pub uninterp spec fn id_set_contents(s: hashbrown::HashSet<ThreadID>) -> Set<ThreadID>;

/// `hashbrown::HashSet::new`: an empty set.
#[verifier::external_body]
fn id_set_new() -> (r: hashbrown::HashSet<ThreadID>)
    ensures
        id_set_contents(r) == Set::<ThreadID>::empty(),
{
    hashbrown::HashSet::new()
}

/// `hashbrown::HashSet::insert`: adds `x`; returns whether it was absent.
#[verifier::external_body]
fn id_set_insert(s: &mut hashbrown::HashSet<ThreadID>, x: ThreadID) -> (r: bool)
    ensures
        id_set_contents(*final(s)) == id_set_contents(*old(s)).insert(x),
        r == !id_set_contents(*old(s)).contains(x),
{
    s.insert(x)
}

/// `hashbrown::HashSet::remove`: removes `x`; returns whether it was present.
#[verifier::external_body]
fn id_set_remove(s: &mut hashbrown::HashSet<ThreadID>, x: &ThreadID) -> (r: bool)
    ensures
        id_set_contents(*final(s)) == id_set_contents(*old(s)).remove(*x),
        r == id_set_contents(*old(s)).contains(*x),
{
    s.remove(x)
}

/// `hashbrown::HashSet::is_empty`: whether the set holds nothing.
#[verifier::external_body]
fn id_set_is_empty(s: &hashbrown::HashSet<ThreadID>) -> (r: bool)
    ensures
        r == (id_set_contents(*s) == Set::<ThreadID>::empty()),
{
    s.is_empty()
}

/// Waking a thread that the last sleep put among the sleeping threads
/// leaves the sleeping threads as they were before it slept.
pub proof fn lemma_wake_undoes_sleep(sleeping: Set<ThreadID>, thread: ThreadID)
    requires
        !sleeping.contains(thread),
    ensures
        sleeping.insert(thread).remove(thread) == sleeping,
{
    assert(sleeping.insert(thread).remove(thread) =~= sleeping);
}

/// Thread scheduling and management: the running thread, the scheduler of
/// runnable threads, and the sleeping threads, which the scheduler does not
/// see until they are woken.
pub struct Processor {
    current_thread: Option<ThreadID>,
    scheduler: StrideScheduler,
    sleeping_threads: hashbrown::HashSet<ThreadID>,
}

impl Processor {
    /// The running thread, if any.
    pub closed spec fn current(&self) -> Option<ThreadID> {
        self.current_thread
    }

    /// The scheduler's pool.
    pub closed spec fn pool(&self) -> Seq<ThreadBlock> {
        self.scheduler@
    }

    /// The sleeping threads.
    pub closed spec fn sleeping(&self) -> Set<ThreadID> {
        id_set_contents(self.sleeping_threads)
    }

    /// No running thread, nothing scheduled, nobody sleeping.
    pub fn new() -> (r: Self)
        ensures
            r.current() is None,
            r.pool() == Seq::<ThreadBlock>::empty(),
            r.sleeping() == Set::<ThreadID>::empty(),
    {
        Processor { current_thread: None, scheduler: StrideScheduler::default(), sleeping_threads: id_set_new() }
    }

    /// There is a running thread.
    pub fn has_current(&self) -> (r: bool)
        ensures
            r == self.current() is Some,
    {
        self.current_thread.is_some()
    }

    /// Some thread is runnable or sleeps.
    pub fn has_threads(&self) -> (r: bool)
        ensures
            r == (self.pool().len() > 0 || self.sleeping() != Set::<ThreadID>::empty()),
    {
        !self.scheduler.is_empty() || !id_set_is_empty(&self.sleeping_threads)
    }

    /// There is a running thread, and the scheduler holds it exactly once:
    /// what killing it or putting it to sleep asks.
    pub fn current_held_once(&self) -> (r: bool)
        ensures
            r == (self.current() matches Some(t) && held_once(self.pool(), t)),
    {
        match self.current_thread {
            Some(t) => self.scheduler.holds_once(t),
            None => false,
        }
    }

    /// Choosing the next thread will not overflow its stride.
    pub fn next_stride_fits(&self) -> (r: bool)
        ensures
            r == (self.pool().len() > 0 ==> stride_after(self.pool()[first_min_stride(self.pool())]) <= usize::MAX),
    {
        self.scheduler.next_stride_fits()
    }

    /// The running thread, which must exist.
    pub fn current_thread(&self) -> (r: ThreadID)
        requires
            self.current() is Some,
        ensures
            self.current() == Some(r),
    {
        self.current_thread.unwrap()
    }

    /// Pick the next thread to run: the scheduler's choice becomes the
    /// running thread. `None` means that nothing is runnable but some thread
    /// sleeps, so the caller waits for an interrupt and asks again. With
    /// nothing runnable and nobody sleeping every thread has ended, and the
    /// kernel shuts down instead of calling this.
    pub fn prepare_next_thread(&mut self) -> (r: Option<ThreadID>)
        requires
            old(self).pool().len() > 0 || old(self).sleeping() != Set::<ThreadID>::empty(),
            old(self).pool().len() > 0 ==> stride_after(old(self).pool()[first_min_stride(old(self).pool())]) <= usize::MAX,
        ensures
            old(self).pool().len() > 0 ==> {
                let next = old(self).pool()[first_min_stride(old(self).pool())].thread_id();
                &&& r == Some(next)
                &&& final(self).current() == Some(next)
                &&& final(self).pool() == pool_after_next(old(self).pool())
            },
            old(self).pool().len() == 0 ==> r is None && final(self).current() == old(self).current()
                && final(self).pool() == old(self).pool(),
            final(self).sleeping() == old(self).sleeping(),
    {
        match self.scheduler.get_next() {
            Some(next_thread) => {
                self.current_thread = Some(next_thread);
                Some(next_thread)
            },
            None => {
                let empty = id_set_is_empty(&self.sleeping_threads);
                assert(!empty);
                None
            },
        }
    }

    /// Add a thread with its priority; it becomes the running thread when
    /// there is none.
    pub fn add_thread(&mut self, thread: ThreadID, priority: usize)
        ensures
            final(self).current() == if old(self).current() is None {
                Some(thread)
            } else {
                old(self).current()
            },
            final(self).pool() == old(self).pool().push(thread_block(thread, priority, 0)),
            final(self).sleeping() == old(self).sleeping(),
    {
        if self.current_thread.is_none() {
            self.current_thread = Some(thread);
        }
        self.scheduler.add_thread(thread, priority);
    }

    /// Wake a thread: it leaves the sleeping threads and is scheduled again
    /// with priority `0`.
    pub fn wake_thread(&mut self, thread: ThreadID)
        ensures
            final(self).current() == old(self).current(),
            final(self).pool() == old(self).pool().push(thread_block(thread, 0, 0)),
            final(self).sleeping() == old(self).sleeping().remove(thread),
    {
        id_set_remove(&mut self.sleeping_threads, &thread);
        self.scheduler.add_thread(thread, 0);
    }

    /// Put the running thread to sleep: it leaves the scheduler (which must
    /// hold it exactly once) and joins the sleeping
    /// threads; it stays the running thread until the next one is prepared.
    pub fn sleep_current_thread(&mut self)
        requires
            old(self).current() matches Some(t) && held_once(old(self).pool(), t),
        ensures
            final(self).current() == old(self).current(),
            exists|i: int|
                0 <= i < old(self).pool().len() && (#[trigger] old(self).pool()[i]).thread_id()
                    == old(self).current()->0 && final(self).pool() == old(self).pool().remove(i),
            final(self).sleeping() == old(self).sleeping().insert(old(self).current()->0),
    {
        let current_thread = self.current_thread();
        self.scheduler.remove_thread(&current_thread);
        id_set_insert(&mut self.sleeping_threads, current_thread);
    }

    /// Kill the running thread: there is no running thread any more, and
    /// the scheduler (which must hold it exactly once) drops it.
    pub fn kill_current_thread(&mut self)
        requires
            old(self).current() matches Some(t) && held_once(old(self).pool(), t),
        ensures
            final(self).current() is None,
            exists|i: int|
                0 <= i < old(self).pool().len() && (#[trigger] old(self).pool()[i]).thread_id()
                    == old(self).current()->0 && final(self).pool() == old(self).pool().remove(i),
            final(self).sleeping() == old(self).sleeping(),
    {
        let thread = self.current_thread.take().unwrap();
        self.scheduler.remove_thread(&thread);
    }
}

} // verus!
