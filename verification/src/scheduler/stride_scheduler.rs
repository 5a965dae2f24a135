//! [`StrideScheduler`]: stride scheduling over a pool of threads.

use vstd::prelude::*;

verus! {

/// The stride a thread of priority `0` is parked at, and the numerator of
/// every stride step.
pub const MAX_STRIDE: usize = 4_294_967_295;

/// Threads are told apart by their identifier, as the kernel's threads are.
pub type ThreadID = isize;

/// A thread together with its scheduling state.
#[derive(Clone, Copy)]
pub struct ThreadBlock {
    thread: ThreadID,
    pub priority: usize,
    pub stride: usize,
}

/// The block of `thread` with the given priority and stride.
pub closed spec fn thread_block(thread: ThreadID, priority: usize, stride: usize) -> ThreadBlock {
    ThreadBlock { thread, priority, stride }
}

/// Stride of a block after it has been scheduled once: `MAX_STRIDE` for
/// priority `0`, otherwise the old stride plus `MAX_STRIDE / priority`.
pub open spec fn stride_after(b: ThreadBlock) -> int {
    if b.priority_of() == 0 {
        MAX_STRIDE as int
    } else {
        b.stride_of() + MAX_STRIDE / b.priority_of()
    }
}

/// `b` after being scheduled once.
pub closed spec fn scheduled(b: ThreadBlock) -> ThreadBlock {
    ThreadBlock { stride: stride_after(b) as usize, ..b }
}

impl ThreadBlock {
    /// The thread this block schedules.
    pub closed spec fn thread_id(&self) -> ThreadID {
        self.thread
    }

    /// The block's stride.
    pub closed spec fn stride_of(&self) -> usize {
        self.stride
    }

    /// The block's priority.
    pub closed spec fn priority_of(&self) -> usize {
        self.priority
    }

    fn new(thread: ThreadID, priority: usize, stride: usize) -> (r: Self)
        ensures
            r == thread_block(thread, priority, stride),
    {
        Self { thread: thread, priority: priority, stride: stride }
    }

    fn update_stride(&mut self)
        requires
            stride_after(*old(self)) <= usize::MAX,
        ensures
            *final(self) == scheduled(*old(self)),
    {
        if self.priority == 0 {
            self.stride = MAX_STRIDE;
        } else {
            self.stride += MAX_STRIDE / self.priority;
        }
    }

    fn set_priority(&mut self, priority: usize)
        ensures
            *final(self) == (ThreadBlock { priority, ..*old(self) }),
    {
        self.priority = priority;
    }
}

/// `i` is the first position of the pool that holds the smallest stride.
pub open spec fn is_first_min_stride(pool: Seq<ThreadBlock>, i: int) -> bool {
    &&& 0 <= i < pool.len()
    &&& forall|j: int| 0 <= j < pool.len() ==> pool[i].stride_of() <= (#[trigger] pool[j]).stride_of()
    &&& forall|j: int| 0 <= j < i ==> (#[trigger] pool[j]).stride_of() > pool[i].stride_of()
}

/// The first position of the pool with the smallest stride.
pub open spec fn first_min_stride(pool: Seq<ThreadBlock>) -> int {
    choose|i: int| is_first_min_stride(pool, i)
}

/// Pool after `get_next`: the chosen block moves to the back, one stride on.
pub open spec fn pool_after_next(pool: Seq<ThreadBlock>) -> Seq<ThreadBlock> {
    let i = first_min_stride(pool);
    pool.remove(i).push(scheduled(pool[i]))
}

/// `thread` is held by exactly one block of the pool.
pub open spec fn held_once(pool: Seq<ThreadBlock>, thread: ThreadID) -> bool {
    exists|i: int|
        0 <= i < pool.len() && (#[trigger] pool[i]).thread_id() == thread && forall|j: int|
            0 <= j < pool.len() && j != i ==> (#[trigger] pool[j]).thread_id() != thread
}

/// `b` with priority `priority`.
pub closed spec fn with_priority(b: ThreadBlock, priority: usize) -> ThreadBlock {
    ThreadBlock { priority, ..b }
}

/// Pool with the priority of every block of `thread` set to `priority`.
pub open spec fn pool_with_priority(pool: Seq<ThreadBlock>, thread: ThreadID, priority: usize) -> Seq<
    ThreadBlock,
> {
    pool.map_values(
        |b: ThreadBlock|
            if b.thread_id() == thread {
                with_priority(b, priority)
            } else {
                b
            },
    )
}

/// What the blocks built by the scheduler hold: a new block holds its
/// thread, priority and stride; a scheduled block keeps its thread and
/// priority and takes the stride `stride_after`; a block given a priority
/// keeps its thread and stride.
pub proof fn lemma_blocks(thread: ThreadID, priority: usize, stride: usize, b: ThreadBlock)
    ensures
        thread_block(thread, priority, stride).thread_id() == thread,
        thread_block(thread, priority, stride).priority_of() == priority,
        thread_block(thread, priority, stride).stride_of() == stride,
        scheduled(b).thread_id() == b.thread_id(),
        scheduled(b).priority_of() == b.priority_of(),
        scheduled(b).stride_of() == stride_after(b) as usize,
        with_priority(b, priority).thread_id() == b.thread_id(),
        with_priority(b, priority).priority_of() == priority,
        with_priority(b, priority).stride_of() == b.stride_of(),
{
}

/// The first minimal position is unique.
pub proof fn lemma_first_min_stride_unique(pool: Seq<ThreadBlock>, i: int, k: int)
    requires
        is_first_min_stride(pool, i),
        is_first_min_stride(pool, k),
    ensures
        i == k,
{
    if i < k {
        assert(pool[i].stride > pool[k].stride);
        assert(pool[k].stride <= pool[i].stride);
    } else if k < i {
        assert(pool[k].stride > pool[i].stride);
    }
}

/// The threads a pool schedules, in pool order.
pub open spec fn pool_threads(pool: Seq<ThreadBlock>) -> Seq<ThreadID> {
    pool.map_values(|b: ThreadBlock| b.thread_id())
}

/// Choosing the next thread keeps the pool's threads: the same threads, each
/// as many times as before.
pub proof fn lemma_next_keeps_threads(pool: Seq<ThreadBlock>)
    requires
        pool.len() > 0,
    ensures
        pool_threads(pool_after_next(pool)).to_multiset() == pool_threads(pool).to_multiset(),
{
    broadcast use vstd::seq_lib::group_to_multiset_ensures;
    let i = first_min_stride(pool);
    lemma_first_min_stride_exists(pool);
    let t = pool_threads(pool);
    assert(pool_threads(pool_after_next(pool)) =~= t.remove(i).push(pool[i].thread));
    assert(t.to_multiset().count(t[i]) > 0) by {
        assert(t.contains(t[i]));
    }
    assert(t.remove(i).push(t[i]).to_multiset() =~= t.to_multiset());
}

/// The thread chosen next has the smallest stride of the pool, no thread
/// before it has that stride, and it goes to the back of the pool with its
/// stride one step on: `MAX_STRIDE / priority`, or `MAX_STRIDE` itself for
/// priority `0`.
pub proof fn lemma_next_is_min_stride(pool: Seq<ThreadBlock>)
    requires
        pool.len() > 0,
    ensures
        forall|j: int| 0 <= j < pool.len() ==> pool[first_min_stride(pool)].stride_of() <= (#[trigger] pool[j]).stride_of(),
        forall|j: int| 0 <= j < first_min_stride(pool) ==> (#[trigger] pool[j]).stride_of() > pool[first_min_stride(pool)].stride_of(),
        pool_after_next(pool).len() == pool.len(),
        pool_after_next(pool).last().thread_id() == pool[first_min_stride(pool)].thread_id(),
        pool_after_next(pool).last().priority_of() == pool[first_min_stride(pool)].priority_of(),
        pool_after_next(pool).last().stride_of() == (if pool[first_min_stride(pool)].priority_of() == 0 {
            MAX_STRIDE as int
        } else {
            pool[first_min_stride(pool)].stride_of() + MAX_STRIDE / pool[first_min_stride(pool)].priority_of()
        }) as usize,
{
    lemma_first_min_stride_exists(pool);
}

/// Removing a thread right after adding it, when the pool did not hold
/// it, gives back the pool as it was.
pub proof fn lemma_remove_undoes_add(pool: Seq<ThreadBlock>, thread: ThreadID, priority: usize)
    requires
        forall|j: int| 0 <= j < pool.len() ==> (#[trigger] pool[j]).thread_id() != thread,
    ensures
        held_once(pool.push(thread_block(thread, priority, 0)), thread),
        forall|i: int| 0 <= i < pool.len() + 1 && (#[trigger] pool.push(thread_block(thread, priority, 0))[i]).thread_id() == thread
            ==> pool.push(thread_block(thread, priority, 0)).remove(i) == pool,
{
    let p = pool.push(thread_block(thread, priority, 0));
    let n = pool.len() as int;
    assert(p[n].thread == thread);
    assert forall|j: int| 0 <= j < p.len() && j != n implies (#[trigger] p[j]).thread != thread by {
        assert(p[j] == pool[j]);
    }
    assert forall|i: int| 0 <= i < pool.len() + 1 && (#[trigger] p[i]).thread_id() == thread implies p.remove(i) == pool by {
        if i < n {
            assert(p[i] == pool[i]);
        }
        assert(p.remove(n) =~= pool);
    }
}

/// A thread removed from a pool that held it once is not in the pool any
/// more, so the scheduler never chooses it until it is added again.
pub proof fn lemma_removed_not_chosen(pool: Seq<ThreadBlock>, i: int, thread: ThreadID)
    requires
        held_once(pool, thread),
        0 <= i < pool.len(),
        pool[i].thread_id() == thread,
    ensures
        forall|j: int| 0 <= j < pool.remove(i).len() ==> (#[trigger] pool.remove(i)[j]).thread_id() != thread,
        pool.remove(i).len() > 0 ==> pool.remove(i)[first_min_stride(pool.remove(i))].thread_id() != thread,
{
    let k = choose|k: int| 0 <= k < pool.len() && (#[trigger] pool[k]).thread == thread && forall|j: int|
        0 <= j < pool.len() && j != k ==> (#[trigger] pool[j]).thread != thread;
    assert(k == i);
    let q = pool.remove(i);
    assert forall|j: int| 0 <= j < q.len() implies (#[trigger] q[j]).thread_id() != thread by {
        if j < i {
            assert(q[j] == pool[j]);
        } else {
            assert(q[j] == pool[j + 1]);
        }
    }
    if q.len() > 0 {
        lemma_first_min_stride_exists(q);
        assert(q[first_min_stride(q)].thread_id() != thread);
    }
}

/// A non-empty pool has a first position of smallest stride.
proof fn lemma_first_min_stride_exists(pool: Seq<ThreadBlock>)
    requires
        pool.len() > 0,
    ensures
        is_first_min_stride(pool, first_min_stride(pool)),
    decreases pool.len(),
{
    if pool.len() == 1 {
        assert(is_first_min_stride(pool, 0));
    } else {
        let rest = pool.drop_last();
        lemma_first_min_stride_exists(rest);
        let k = first_min_stride(rest);
        let n = pool.len() - 1;
        assert forall|j: int| 0 <= j < n implies rest[k].stride <= (#[trigger] pool[j]).stride by {
            assert(rest[j] == pool[j]);
        }
        assert forall|j: int| 0 <= j < k implies (#[trigger] pool[j]).stride > rest[k].stride by {
            assert(rest[j] == pool[j]);
        }
        assert(rest[k] == pool[k]);
        if pool[n].stride < rest[k].stride {
            assert(is_first_min_stride(pool, n));
        } else {
            assert(is_first_min_stride(pool, k));
        }
    }
}

/// Thread scheduler based on stride scheduling.
pub struct StrideScheduler {
    pool: Vec<ThreadBlock>,
}

impl View for StrideScheduler {
    type V = Seq<ThreadBlock>;

    closed spec fn view(&self) -> Seq<ThreadBlock> {
        self.pool@
    }
}

/// `Default` creates an empty scheduler.
impl Default for StrideScheduler {
    fn default() -> (r: Self)
        ensures
            r@ == Seq::<ThreadBlock>::empty(),
    {
        Self { pool: Vec::new() }
    }
}

impl StrideScheduler {
    /// The first position of the pool with the smallest stride.
    fn get_min_stride_thread_index(&self) -> (r: Option<usize>)
        ensures
            self@.len() == 0 ==> r is None,
            self@.len() > 0 ==> (r matches Some(i) && i == first_min_stride(self@)
                && is_first_min_stride(self@, i as int)),
    {
        if self.pool.is_empty() {
            return None;
        }
        let mut min_stride_thread_index: usize = 0;
        let mut i: usize = 0;
        while i < self.pool.len()
            invariant
                0 < self@.len(),
                i <= self@.len(),
                min_stride_thread_index < self@.len(),
                min_stride_thread_index <= i || min_stride_thread_index == 0,
                forall|j: int| 0 <= j < i ==> self@[min_stride_thread_index as int].stride <= (#[trigger] self@[j]).stride,
                forall|j: int| 0 <= j < min_stride_thread_index ==> (#[trigger] self@[j]).stride
                    > self@[min_stride_thread_index as int].stride,
            decreases self@.len() - i,
        {
            if self.pool[i].stride < self.pool[min_stride_thread_index].stride {
                min_stride_thread_index = i;
            }
            i = i + 1;
        }
        proof {
            let p = self@;
            assert(is_first_min_stride(p, min_stride_thread_index as int));
            lemma_first_min_stride_unique(p, min_stride_thread_index as int, first_min_stride(p));
        }
        Some(min_stride_thread_index)
    }

    /// Exactly one block of the pool holds `thread`.
    pub fn holds_once(&self, thread: ThreadID) -> (r: bool)
        ensures
            r == held_once(self@, thread),
    {
        let mut found: Option<usize> = None;
        let mut i: usize = 0;
        while i < self.pool.len()
            invariant
                i <= self@.len(),
                found is None ==> forall|j: int| 0 <= j < i ==> (#[trigger] self@[j]).thread_id() != thread,
                found matches Some(f) ==> f < i && self@[f as int].thread_id() == thread
                    && forall|j: int| 0 <= j < i && j != f ==> (#[trigger] self@[j]).thread_id() != thread,
            decreases self@.len() - i,
        {
            if self.pool[i].thread == thread {
                if let Some(f) = found {
                    proof {
                        if held_once(self@, thread) {
                            let w = choose|w: int| 0 <= w < self@.len() && (#[trigger] self@[w]).thread_id() == thread
                                && forall|j: int| 0 <= j < self@.len() && j != w ==> (#[trigger] self@[j]).thread_id() != thread;
                            assert(self@[i as int].thread_id() == thread);
                            assert(self@[f as int].thread_id() == thread);
                        }
                    }
                    return false;
                }
                found = Some(i);
            }
            i = i + 1;
        }
        match found {
            Some(f) => {
                proof {
                    assert(0 <= f < self@.len() && self@[f as int].thread_id() == thread
                        && forall|j: int| 0 <= j < self@.len() && j != f ==> (#[trigger] self@[j]).thread_id() != thread);
                }
                true
            },
            None => false,
        }
    }

    /// The stride of the block that `get_next` would choose can take its
    /// next step without overflow (or the pool is empty).
    pub fn next_stride_fits(&self) -> (r: bool)
        ensures
            r == (self@.len() > 0 ==> stride_after(self@[first_min_stride(self@)]) <= usize::MAX),
    {
        match self.get_min_stride_thread_index() {
            None => true,
            Some(i) => {
                let b = self.pool[i];
                if b.priority == 0 {
                    true
                } else {
                    b.stride <= usize::MAX - MAX_STRIDE / b.priority
                }
            },
        }
    }

    /// The pool holds no thread.
    pub fn is_empty(&self) -> (r: bool)
        ensures
            r == (self@.len() == 0),
    {
        self.pool.len() == 0
    }

    /// Add a thread with stride `0`.
    pub fn add_thread(&mut self, thread: ThreadID, priority: usize)
        ensures
            final(self)@ == old(self)@.push(thread_block(thread, priority, 0)),
    {
        self.pool.push(ThreadBlock::new(thread, priority, 0))
    }

    /// The thread with the smallest stride (the first such one in the pool)
    /// runs next: its block moves to the back of the pool, one stride on.
    ///
    /// The stride addition must not overflow (it would panic).
    pub fn get_next(&mut self) -> (r: Option<ThreadID>)
        requires
            old(self)@.len() > 0 ==> stride_after(old(self)@[first_min_stride(old(self)@)]) <= usize::MAX,
        ensures
            old(self)@.len() == 0 ==> r is None && final(self)@ == old(self)@,
            old(self)@.len() > 0 ==> {
                &&& r == Some(old(self)@[first_min_stride(old(self)@)].thread_id())
                &&& final(self)@ == pool_after_next(old(self)@)
            },
    {
        if let Some(index) = self.get_min_stride_thread_index() {
            assert(index == first_min_stride(old(self)@));
            let mut threadblock = self.pool.remove(index);
            assert(threadblock == old(self)@[index as int]);
            threadblock.update_stride();
            let next_thread = threadblock.thread;
            self.pool.push(threadblock);
            assert(self@ =~= pool_after_next(old(self)@));
            Some(next_thread)
        } else {
            None
        }
    }

    /// Remove the block of `thread`; exactly one block must hold it (the
    /// removal asserts it).
    pub fn remove_thread(&mut self, thread: &ThreadID)
        requires
            held_once(old(self)@, *thread),
        ensures
            exists|i: int|
                0 <= i < old(self)@.len() && (#[trigger] old(self)@[i]).thread_id() == *thread
                    && final(self)@ == old(self)@.remove(i),
            forall|j: int| 0 <= j < final(self)@.len() ==> (#[trigger] final(self)@[j]).thread_id() != *thread,
    {
        let ghost k = choose|i: int|
            0 <= i < old(self)@.len() && (#[trigger] old(self)@[i]).thread == *thread && forall|j: int|
                0 <= j < old(self)@.len() && j != i ==> (#[trigger] old(self)@[j]).thread != *thread;
        let n = self.pool.len();
        let mut i: usize = 0;
        while self.pool[i].thread != *thread
            invariant
                self@ == old(self)@,
                n == self@.len(),
                0 <= k < self@.len(),
                i <= k,
                self@[k].thread == *thread,
            decreases k - i,
        {
            assert(i != k);
            i = i + 1;
        }
        proof {
            if i != k {
                assert(old(self)@[i as int].thread != *thread);
            }
        }
        self.pool.remove(i);
        proof {
            assert forall|j: int| 0 <= j < self@.len() implies (#[trigger] self@[j]).thread != *thread by {
                if j < k {
                    assert(self@[j] == old(self)@[j]);
                } else {
                    assert(self@[j] == old(self)@[j + 1]);
                }
            }
        }
    }

    /// Set the priority of every block of `thread`.
    pub fn set_priority(&mut self, thread: ThreadID, priority: usize)
        ensures
            final(self)@ == pool_with_priority(old(self)@, thread, priority),
    {
        let n = self.pool.len();
        let mut i: usize = 0;
        while i < n
            invariant
                n == old(self)@.len(),
                self@.len() == n,
                i <= n,
                forall|j: int| 0 <= j < i ==> #[trigger] self@[j] == pool_with_priority(old(self)@, thread, priority)[j],
                forall|j: int| i <= j < n ==> #[trigger] self@[j] == old(self)@[j],
            decreases n - i,
        {
            if self.pool[i].thread == thread {
                self.pool[i].set_priority(priority);
            }
            i = i + 1;
        }
        assert(self@ =~= pool_with_priority(old(self)@, thread, priority));
    }
}

} // verus!
