//! [`Mapping`]: the Sv39 page tables of one address space.
//!
//! A page table lives in a frame of its own; here each table is kept
//! together with the frame it occupies, and an entry that leads to a
//! next-level table names that table's frame.

use vstd::prelude::*;
use crate::memory::address::{vpn_level, KERNEL_MAP_OFFSET, PhysicalAddress, PhysicalPageNumber, VirtualAddress, VirtualPageNumber, PAGE_SIZE};
use crate::memory::frame_allocator::{count_free, lemma_count_give, lemma_count_none_free, lemma_count_take, FrameAllocator};
use crate::memory::frame_tracker::FrameTracker;
use crate::memory::range::Range;
use crate::memory::page_table_entry::{Flags, PageTableEntry, MAX_PAGE_NUMBER, VALID, READABLE, WRITABLE, EXECUTABLE};
use crate::memory::segment::{MapType, Segment};

verus! {

/// Entries of a page table.
pub const ENTRIES: usize = 512;

/// Result of the memory operations; the error is a message.
pub type MemoryResult<T> = Result<T, &'static str>;

/// A page table and the frame it lives in.
pub struct PageTableTracker {
    frame: FrameTracker,
    entries: Vec<PageTableEntry>,
}

impl PageTableTracker {
    /// Page number of the table's frame.
    pub closed spec fn ppn(&self) -> int {
        self.frame.0.0 as int
    }

    /// The table's entries.
    pub closed spec fn table(&self) -> Seq<PageTableEntry> {
        self.entries@
    }

    /// An empty page table in `frame`.
    pub fn new(frame: FrameTracker) -> (r: Self)
        ensures
            r.ppn() == frame.0.0,
            r.table().len() == ENTRIES,
            forall|i: int| 0 <= i < ENTRIES ==> (#[trigger] r.table()[i]).value() == 0,
    {
        let mut entries: Vec<PageTableEntry> = Vec::new();
        let mut i: usize = 0;
        while i < ENTRIES
            invariant
                i <= ENTRIES,
                entries@.len() == i,
                forall|j: int| 0 <= j < i ==> (#[trigger] entries@[j]).value() == 0,
            decreases ENTRIES - i,
        {
            entries.push(PageTableEntry::empty());
            i = i + 1;
        }
        PageTableTracker { frame, entries }
    }

    /// Page number of the table's frame.
    pub fn page_number(&self) -> (r: PhysicalPageNumber)
        ensures
            r.0 == self.ppn(),
    {
        self.frame.page_number()
    }
}

/// Mapping of the virtual pages of one address space.
pub struct Mapping {
    page_tables: Vec<PageTableTracker>,
    root_ppn: PhysicalPageNumber,
    levels: Ghost<Seq<int>>,
}

/// The raw entry that maps a page onto frame `ppn` with `flags`.
pub open spec fn entry_value(ppn: usize, flags: u8) -> usize {
    (flags as usize) | (ppn << 10usize)
}

/// What a page's mapping holds for a raw last-level entry: nothing for the
/// empty entry.
pub open spec fn entry_of(value: usize) -> Option<usize> {
    if value != 0 { Some(value) } else { None }
}

/// Some page of `start .. end` selects the same entries as `v`.
pub open spec fn in_pages(v: usize, start: int, end: int) -> bool {
    exists|p: int| start <= p < end && #[trigger] same_page(v, p as usize)
}

/// No two pages of `start .. end` select the same entries.
pub open spec fn distinct_pages(start: int, end: int) -> bool {
    forall|p: int, q: int| start <= p < end && start <= q < end && p != q ==> !#[trigger] same_page(p as usize, q as usize)
}

/// The frames of `pairs` were free in `f0`, are handed out by `frames`,
/// are distinct, and hold none of the page tables of `m`.
pub open spec fn fresh_frames(pairs: Seq<(VirtualPageNumber, FrameTracker)>, m: Mapping, frames: FrameAllocator, f0: FrameAllocator) -> bool {
    &&& forall|j: int| 0 <= j < pairs.len() ==> frames.holds(#[trigger] pairs[j].1.0.0 as int)
    &&& forall|j: int| 0 <= j < pairs.len() ==> !f0.holds(#[trigger] pairs[j].1.0.0 as int)
    &&& forall|j: int, l: int| 0 <= j < pairs.len() && 0 <= l < pairs.len() && j != l
        ==> #[trigger] pairs[j].1.0.0 != #[trigger] pairs[l].1.0.0
    &&& forall|j: int, u: int| 0 <= j < pairs.len() && 0 <= u < m.tcount() ==> #[trigger] m.tppn(u) != #[trigger] pairs[j].1.0.0
}

/// `m` and `frames` come from `m0` and `f0` by adding page tables and
/// taking the frames of `pairs`: the old tables keep their frames and
/// levels, the new ones live in frames that `f0` had free, and every frame
/// handed out since is a new table's or one of `pairs`.
pub open spec fn framed_ledger(
    pairs: Seq<(VirtualPageNumber, FrameTracker)>,
    m: Mapping,
    frames: FrameAllocator,
    m0: Mapping,
    f0: FrameAllocator,
) -> bool {
    &&& m.tcount() >= m0.tcount()
    &&& m.root() == m0.root()
    &&& forall|u: int| 0 <= u < m0.tcount() ==> #[trigger] m.tppn(u) == m0.tppn(u) && m.tlevel(u) == m0.tlevel(u)
    &&& forall|u: int| m0.tcount() <= u < m.tcount() ==> !f0.holds(#[trigger] m.tppn(u))
    &&& frames.start() == f0.start()
    &&& frames.frames().len() == f0.frames().len()
    &&& forall|j: int| 0 <= j < f0.frames().len() && f0.frames()[j] ==> #[trigger] frames.frames()[j]
    &&& forall|j: int| 0 <= j < f0.frames().len() && #[trigger] frames.frames()[j] && !f0.frames()[j]
        ==> (exists|u: int| m0.tcount() <= u < m.tcount() && #[trigger] m.tppn(u) == f0.start() + j)
            || (exists|l: int| 0 <= l < pairs.len() && #[trigger] pairs[l].1.0.0 == f0.start() + j)
}

/// Mapping the framed pages `first ..` ran out of frames at page `k`: the
/// pages before `k` were mapped, and the frames now free are at most the
/// ones of those pages, given back, and the frame taken for page `k` when a
/// table on its way was missing.
pub open spec fn framed_exhausted(m: Mapping, frames: FrameAllocator, first: int, k: int) -> bool {
    &&& forall|p: int| first <= p < k ==> (#[trigger] m.page_entry(p as usize)) is Some
    &&& count_free(frames.frames()) <= (k - first) + if m.leaf_location(k as usize) is None { 1int } else { 0int }
}

/// Taking one more frame for one more pair keeps the ledger.
proof fn lemma_ledger_take(
    pairs0: Seq<(VirtualPageNumber, FrameTracker)>,
    x: (VirtualPageNumber, FrameTracker),
    m: Mapping,
    fa: FrameAllocator,
    fb: FrameAllocator,
    m0: Mapping,
    f0: FrameAllocator,
)
    requires
        framed_ledger(pairs0, m, fa, m0, f0),
        fb.start() == fa.start(),
        0 <= x.1.0.0 - fa.start() < fa.frames().len(),
        fb.frames() == fa.frames().update(x.1.0.0 - fa.start(), true),
    ensures
        framed_ledger(pairs0.push(x), m, fb, m0, f0),
{
    let pairs = pairs0.push(x);
    assert forall|j: int| 0 <= j < f0.frames().len() && f0.frames()[j] implies #[trigger] fb.frames()[j] by {
        assert(fa.frames()[j]);
    }
    assert forall|j: int| 0 <= j < f0.frames().len() && #[trigger] fb.frames()[j] && !f0.frames()[j]
        implies (exists|u: int| m0.tcount() <= u < m.tcount() && #[trigger] m.tppn(u) == f0.start() + j)
            || (exists|l: int| 0 <= l < pairs.len() && #[trigger] pairs[l].1.0.0 == f0.start() + j) by {
        if j == x.1.0.0 - fa.start() {
            assert(pairs[pairs0.len() as int].1.0.0 == f0.start() + j);
        } else {
            assert(fa.frames()[j]);
            if exists|l: int| 0 <= l < pairs0.len() && #[trigger] pairs0[l].1.0.0 == f0.start() + j {
                let l = choose|l: int| 0 <= l < pairs0.len() && #[trigger] pairs0[l].1.0.0 == f0.start() + j;
                assert(pairs[l] == pairs0[l]);
            }
        }
    }
}

/// Adding tables keeps the ledger.
proof fn lemma_ledger_grow(
    pairs: Seq<(VirtualPageNumber, FrameTracker)>,
    m1: Mapping,
    f1: FrameAllocator,
    m2: Mapping,
    f2: FrameAllocator,
    m0: Mapping,
    f0: FrameAllocator,
)
    requires
        framed_ledger(pairs, m1, f1, m0, f0),
        m2.grown_from(f2, m1, f1),
    ensures
        framed_ledger(pairs, m2, f2, m0, f0),
{
    assert forall|u: int| 0 <= u < m0.tcount() implies #[trigger] m2.tppn(u) == m0.tppn(u) && m2.tlevel(u) == m0.tlevel(u) by {
        assert(m1.tcount() >= m0.tcount());
        assert(m1.tppn(u) == m0.tppn(u));
        assert(m1.tlevel(u) == m0.tlevel(u));
        assert(u < m1.tcount());
        assert(m2.tppn(u) == m1.tppn(u) && m2.tlevel(u) == m1.tlevel(u));
    }
    assert forall|u: int| m0.tcount() <= u < m2.tcount() implies !f0.holds(#[trigger] m2.tppn(u)) by {
        if u < m1.tcount() {
            assert(m2.tppn(u) == m1.tppn(u));
        } else {
            assert(!f1.holds(m2.tppn(u)));
            if f0.holds(m2.tppn(u)) {
                assert(f1.frames()[m2.tppn(u) - f0.start()]);
            }
        }
    }
    assert forall|j: int| 0 <= j < f0.frames().len() && f0.frames()[j] implies #[trigger] f2.frames()[j] by {
        assert(f1.frames()[j]);
    }
    assert forall|j: int| 0 <= j < f0.frames().len() && #[trigger] f2.frames()[j] && !f0.frames()[j]
        implies (exists|u: int| m0.tcount() <= u < m2.tcount() && #[trigger] m2.tppn(u) == f0.start() + j)
            || (exists|l: int| 0 <= l < pairs.len() && #[trigger] pairs[l].1.0.0 == f0.start() + j) by {
        if f1.frames()[j] {
            if exists|u: int| m0.tcount() <= u < m1.tcount() && #[trigger] m1.tppn(u) == f0.start() + j {
                let u = choose|u: int| m0.tcount() <= u < m1.tcount() && #[trigger] m1.tppn(u) == f0.start() + j;
                assert(m2.tppn(u) == m1.tppn(u));
            }
        } else {
            let u = choose|u: int| m1.tcount() <= u < m2.tcount() && #[trigger] m2.tppn(u) == f1.start() + j;
            assert(m2.tppn(u) == f0.start() + j);
        }
    }
}

/// Giving back the frames of `pairs` leaves only the new tables' frames
/// handed out since `f0`.
proof fn lemma_ledger_release(
    pairs: Seq<(VirtualPageNumber, FrameTracker)>,
    m: Mapping,
    f1: FrameAllocator,
    f2: FrameAllocator,
    m0: Mapping,
    f0: FrameAllocator,
)
    requires
        framed_ledger(pairs, m, f1, m0, f0),
        f2.start() == f1.start(),
        f2.frames().len() == f1.frames().len(),
        forall|l: int| 0 <= l < pairs.len() ==> !f0.holds(#[trigger] pairs[l].1.0.0 as int),
        forall|l: int| 0 <= l < pairs.len() ==> f0.start() <= #[trigger] pairs[l].1.0.0 < f0.start() + f0.frames().len(),
        forall|l: int| 0 <= l < pairs.len() ==> !#[trigger] f2.frames()[pairs[l].1.0.0 - f1.start()],
        forall|q: int| (forall|l: int| 0 <= l < pairs.len() ==> #[trigger] pairs[l].1.0.0 != q)
            ==> #[trigger] f2.holds(q) == f1.holds(q),
    ensures
        m.grown_from(f2, m0, f0),
{
    assert forall|j: int| 0 <= j < f0.frames().len() && f0.frames()[j] implies #[trigger] f2.frames()[j] by {
        let q = f0.start() + j;
        assert forall|l: int| 0 <= l < pairs.len() implies #[trigger] pairs[l].1.0.0 != q by {
            assert(!f0.holds(pairs[l].1.0.0 as int));
        }
        assert(f2.holds(q) == f1.holds(q));
        assert(f1.frames()[j]);
    }
    assert forall|j: int| 0 <= j < f0.frames().len() && #[trigger] f2.frames()[j] && !f0.frames()[j]
        implies exists|u: int| m0.tcount() <= u < m.tcount() && #[trigger] m.tppn(u) == f0.start() + j by {
        let q = f0.start() + j;
        if exists|l: int| 0 <= l < pairs.len() && #[trigger] pairs[l].1.0.0 == q {
            let l = choose|l: int| 0 <= l < pairs.len() && #[trigger] pairs[l].1.0.0 == q;
            assert(!f2.frames()[pairs[l].1.0.0 - f1.start()]);
            assert(false);
        }
        assert(f2.holds(q) == f1.holds(q));
        assert(f1.frames()[j]);
    }
}

/// Page that the kernel's linear mapping maps virtual page `p` to.
pub open spec fn linear_page(p: int) -> int {
    p - KERNEL_MAP_OFFSET / 4096
}

/// The two virtual page numbers select the same entries at every level.
pub open spec fn same_page(v: usize, w: usize) -> bool {
    &&& vpn_level(v, 0) == vpn_level(w, 0)
    &&& vpn_level(v, 1) == vpn_level(w, 1)
    &&& vpn_level(v, 2) == vpn_level(w, 2)
}

/// Entry `e` of an upper-level table names a table one level down: it is
/// non-empty and none of the readable, writable and executable flags is set.
pub open spec fn points_down(e: PageTableEntry) -> bool {
    e.value() != 0 && e.entry_flags() & (READABLE | WRITABLE | EXECUTABLE) == 0
}

impl Mapping {
    /// Number of page tables.
    pub closed spec fn tcount(&self) -> int {
        self.page_tables@.len() as int
    }

    /// Frame of table `t`.
    pub closed spec fn tppn(&self, t: int) -> int {
        self.page_tables@[t].ppn()
    }

    /// Entries of table `t`.
    pub closed spec fn tent(&self, t: int) -> Seq<PageTableEntry> {
        self.page_tables@[t].table()
    }

    /// Level of table `t` (`0` for the root).
    pub closed spec fn tlevel(&self, t: int) -> int {
        self.levels@[t]
    }

    /// The table that lives in frame `ppn`.
    pub closed spec fn table_of(&self, ppn: int) -> int {
        choose|t: int| 0 <= t < self.tcount() && self.tppn(t) == ppn
    }

    /// Frame of the root table.
    pub closed spec fn root(&self) -> int {
        self.root_ppn.0 as int
    }

    /// Entry `i` of table `t` leads to a next-level table.
    pub closed spec fn leads(&self, t: int, i: int) -> bool {
        &&& 0 <= t < self.tcount()
        &&& self.tlevel(t) < 2
        &&& 0 <= i < ENTRIES
        &&& self.tent(t)[i].value() != 0
    }

    /// The page tables can be walked from the root: the root is the first
    /// table, frames are distinct, and a non-empty upper-level entry either
    /// is a leaf (one of the readable, writable and executable flags set: a
    /// huge page) or names the frame of a table one level down.
    pub closed spec fn walkable(&self) -> bool {
        &&& usize::BITS == 64
        &&& self.tcount() >= 1
        &&& self.levels@.len() == self.tcount()
        &&& self.tppn(0) == self.root()
        &&& self.tlevel(0) == 0
        &&& forall|t: int| 0 <= t < self.tcount() ==> (#[trigger] self.tent(t)).len() == ENTRIES
        &&& forall|t: int| 0 <= t < self.tcount() ==> 0 <= #[trigger] self.tlevel(t) <= 2
        &&& forall|t: int, u: int| 0 <= t < self.tcount() && 0 <= u < self.tcount() && t != u ==> #[trigger] self.tppn(t) != #[trigger] self.tppn(u)
        &&& forall|t: int, i: int| #[trigger] self.leads(t, i) && points_down(self.tent(t)[i])
            ==> exists|u: int| 0 <= u < self.tcount() && #[trigger] self.tppn(u) == self.tent(t)[i].entry_page_number() && self.tlevel(u) == self.tlevel(t) + 1
    }

    /// The page tables form a three-level tree: they can be walked, a
    /// non-empty upper-level entry has only the valid flag and names the
    /// frame of a table one level down, and no two such entries name the
    /// same frame.
    pub closed spec fn well_formed(&self) -> bool {
        &&& self.walkable()
        &&& forall|t: int, i: int| #[trigger] self.leads(t, i) ==> {
            &&& self.tent(t)[i].entry_flags() == VALID
            &&& exists|u: int| 0 <= u < self.tcount() && #[trigger] self.tppn(u) == self.tent(t)[i].entry_page_number() && self.tlevel(u) == self.tlevel(t) + 1
        }
        &&& forall|t: int, i: int, t2: int, i2: int| #[trigger] self.leads(t, i) && #[trigger] self.leads(t2, i2) && (t != t2 || i != i2) ==> self.tent(t)[i].entry_page_number() != self.tent(t2)[i2].entry_page_number()
    }

    /// Every table's frame is handed out by `frames`.
    pub closed spec fn frames_held(&self, frames: FrameAllocator) -> bool {
        forall|t: int| 0 <= t < self.tcount() ==> frames.holds(#[trigger] self.tppn(t))
    }

    /// Table and entry that the walk for `vpn` ends at, when both upper-level
    /// entries on its way are non-empty.
    pub closed spec fn leaf_location(&self, vpn: usize) -> Option<(int, int)> {
        let e0 = self.tent(0)[vpn_level(vpn, 0) as int];
        if e0.value() == 0 {
            None
        } else {
            let t1 = self.table_of(e0.entry_page_number() as int);
            let e1 = self.tent(t1)[vpn_level(vpn, 1) as int];
            if e1.value() == 0 {
                None
            } else {
                Some((self.table_of(e1.entry_page_number() as int), vpn_level(vpn, 2) as int))
            }
        }
    }

    /// The last-level entry for `vpn`, when the walk reaches one.
    pub closed spec fn leaf_entry(&self, vpn: usize) -> Option<PageTableEntry> {
        match self.leaf_location(vpn) {
            Some((t, i)) => Some(self.tent(t)[i]),
            None => None,
        }
    }

    /// The raw entry that maps `vpn`, `None` when it is unmapped.
    pub closed spec fn page_entry(&self, vpn: usize) -> Option<usize> {
        match self.leaf_entry(vpn) {
            Some(e) => if e.value() != 0 {
                Some(e.value())
            } else {
                None
            },
            None => None,
        }
    }

    /// `self` and `frames` come from `m0` and `f0` by adding page tables:
    /// the old tables keep their frames and levels, each new table lives in
    /// a frame that `f0` had free, and the only frames handed out since are
    /// those of the new tables.
    pub open spec fn grown_from(&self, frames: FrameAllocator, m0: Mapping, f0: FrameAllocator) -> bool {
        &&& self.tcount() >= m0.tcount()
        &&& self.root() == m0.root()
        &&& forall|u: int| 0 <= u < m0.tcount() ==> #[trigger] self.tppn(u) == m0.tppn(u) && self.tlevel(u) == m0.tlevel(u)
        &&& forall|u: int| m0.tcount() <= u < self.tcount() ==> !f0.holds(#[trigger] self.tppn(u))
        &&& frames.start() == f0.start()
        &&& frames.frames().len() == f0.frames().len()
        &&& forall|j: int| 0 <= j < f0.frames().len() && f0.frames()[j] ==> #[trigger] frames.frames()[j]
        &&& forall|j: int| 0 <= j < f0.frames().len() && #[trigger] frames.frames()[j] && !f0.frames()[j]
            ==> exists|u: int| m0.tcount() <= u < self.tcount() && #[trigger] self.tppn(u) == f0.start() + j
    }

    /// The same page tables, in the same frames, as `m0`.
    pub open spec fn tables_kept(&self, m0: Mapping) -> bool {
        &&& self.tcount() == m0.tcount()
        &&& self.root() == m0.root()
        &&& forall|u: int| 0 <= u < m0.tcount() ==> #[trigger] self.tppn(u) == m0.tppn(u)
    }

    /// Physical address that `va` is mapped to: the walk from the root
    /// ends at the first entry that is a leaf, an upper-level entry with one
    /// of the readable, writable and executable flags (a huge page of
    /// `2^30` or `2^21` bytes) or a last-level entry, and the address is the
    /// frame of that entry plus the offset of `va` in the page it maps.
    /// `None` when the walk meets an empty entry.
    pub closed spec fn physical(&self, va: usize) -> Option<int> {
        let vpn = va / PAGE_SIZE;
        let e0 = self.tent(0)[vpn_level(vpn, 0) as int];
        if e0.value() == 0 {
            None
        } else if !points_down(e0) {
            Some(e0.entry_page_number() * PAGE_SIZE + va % 0x4000_0000)
        } else {
            let e1 = self.tent(self.table_of(e0.entry_page_number() as int))[vpn_level(vpn, 1) as int];
            if e1.value() == 0 {
                None
            } else if !points_down(e1) {
                Some(e1.entry_page_number() * PAGE_SIZE + va % 0x20_0000)
            } else {
                let e2 = self.tent(self.table_of(e1.entry_page_number() as int))[vpn_level(vpn, 2) as int];
                if e2.value() == 0 {
                    None
                } else {
                    Some(e2.entry_page_number() * PAGE_SIZE + va % PAGE_SIZE)
                }
            }
        }
    }

    /// Tables, frames and levels are those of `m0`, and only entry `i` of
    /// table `t` is now `e`.
    spec fn entry_written(&self, m0: Mapping, t: int, i: int, e: PageTableEntry) -> bool {
        &&& self.tcount() == m0.tcount()
        &&& self.root() == m0.root()
        &&& self.levels@ == m0.levels@
        &&& forall|u: int| 0 <= u < m0.tcount() ==> #[trigger] self.tppn(u) == m0.tppn(u)
        &&& forall|u: int| 0 <= u < m0.tcount() && u != t ==> #[trigger] self.tent(u) == m0.tent(u)
        &&& self.tent(t) == m0.tent(t).update(i, e)
    }

    /// The walks for two pages that select the same entries end at the same
    /// place.
    pub proof fn lemma_same_page_entry(&self, v: usize, w: usize)
        requires
            same_page(v, w),
        ensures
            self.leaf_location(v) == self.leaf_location(w),
            self.page_entry(v) == self.page_entry(w),
    {
    }

    /// Two walks that end at the same place are walks for pages that select
    /// the same entries.
    proof fn lemma_leaf_injective(&self, v: usize, w: usize)
        requires
            self.well_formed(),
            self.leaf_location(v) is Some,
            self.leaf_location(v) == self.leaf_location(w),
        ensures
            same_page(v, w),
    {
        lemma_levels_bounded(v);
        lemma_levels_bounded(w);
        let a0 = vpn_level(v, 0) as int;
        let a1 = vpn_level(v, 1) as int;
        let b0 = vpn_level(w, 0) as int;
        let b1 = vpn_level(w, 1) as int;
        assert(self.leads(0, a0));
        assert(self.leads(0, b0));
        self.lemma_leads_to(0, a0);
        self.lemma_leads_to(0, b0);
        let s1 = self.table_of(self.tent(0)[a0].entry_page_number() as int);
        let u1 = self.table_of(self.tent(0)[b0].entry_page_number() as int);
        assert(self.leads(s1, a1));
        assert(self.leads(u1, b1));
        self.lemma_leads_to(s1, a1);
        self.lemma_leads_to(u1, b1);
        if s1 != u1 || a1 != b1 {
            assert(self.tent(s1)[a1].entry_page_number() != self.tent(u1)[b1].entry_page_number());
            assert(false);
        }
        if a0 != b0 {
            assert(self.tent(0)[a0].entry_page_number() != self.tent(0)[b0].entry_page_number());
            assert(false);
        }
    }

    /// Writing entry `i` of a last-level table `t` keeps the tree and every
    /// walk; only the pages whose walk ends there see the new entry.
    proof fn lemma_write_leaf(&self, m0: Mapping, t: int, i: int, e: PageTableEntry)
        requires
            m0.well_formed(),
            0 <= t < m0.tcount(),
            m0.tlevel(t) == 2,
            0 <= i < ENTRIES,
            self.entry_written(m0, t, i, e),
        ensures
            self.well_formed(),
            forall|v: usize| #[trigger] self.leaf_location(v) == m0.leaf_location(v),
            forall|v: usize| #[trigger] self.page_entry(v) == if m0.leaf_location(v) == Some((t, i)) {
                if e.value() != 0 { Some(e.value()) } else { None }
            } else {
                m0.page_entry(v)
            },
    {
        assert forall|u: int| 0 <= u < self.tcount() implies #[trigger] self.tlevel(u) == m0.tlevel(u) by {}
        assert forall|a: int, k: int| #[trigger] self.leads(a, k) implies m0.leads(a, k) && self.tent(a)[k] == m0.tent(a)[k] by {
            assert(a != t);
        }
        assert forall|a: int, k: int| #[trigger] m0.leads(a, k) implies self.leads(a, k) by {
            assert(a != t);
        }
        assert forall|a: int, k: int| #[trigger] self.leads(a, k) implies {
            &&& self.tent(a)[k].entry_flags() == VALID
            &&& exists|u: int| 0 <= u < self.tcount() && #[trigger] self.tppn(u) == self.tent(a)[k].entry_page_number() && self.tlevel(u) == self.tlevel(a) + 1
        } by {
            assert(m0.leads(a, k));
            m0.lemma_leads_to(a, k);
            let u = m0.table_of(m0.tent(a)[k].entry_page_number() as int);
            assert(self.tppn(u) == self.tent(a)[k].entry_page_number());
        }
        assert forall|a: int, k: int, b: int, l: int| #[trigger] self.leads(a, k) && #[trigger] self.leads(b, l) && (a != b || k != l)
            implies self.tent(a)[k].entry_page_number() != self.tent(b)[l].entry_page_number() by {
            assert(m0.leads(a, k));
            assert(m0.leads(b, l));
        }
        assert forall|u: int| 0 <= u < self.tcount() implies (#[trigger] self.tent(u)).len() == ENTRIES by {
            assert(m0.tent(u).len() == ENTRIES);
        }
        assert(self.well_formed());
        assert forall|v: usize| #[trigger] self.leaf_location(v) == m0.leaf_location(v) by {
            lemma_levels_bounded(v);
            let l0 = vpn_level(v, 0) as int;
            let l1 = vpn_level(v, 1) as int;
            assert(t != 0);
            assert(self.tent(0) == m0.tent(0));
            if m0.tent(0)[l0].value() != 0 {
                assert(m0.leads(0, l0));
                m0.lemma_leads_to(0, l0);
                let t1 = m0.table_of(m0.tent(0)[l0].entry_page_number() as int);
                self.lemma_table_of(t1);
                assert(self.table_of(self.tent(0)[l0].entry_page_number() as int) == t1);
                assert(t1 != t);
                assert(self.tent(t1) == m0.tent(t1));
                if m0.tent(t1)[l1].value() != 0 {
                    assert(m0.leads(t1, l1));
                    m0.lemma_leads_to(t1, l1);
                    let t2 = m0.table_of(m0.tent(t1)[l1].entry_page_number() as int);
                    self.lemma_table_of(t2);
                }
            }
        }
        assert forall|v: usize| #[trigger] self.page_entry(v) == if m0.leaf_location(v) == Some((t, i)) {
            if e.value() != 0 { Some(e.value()) } else { None }
        } else {
            m0.page_entry(v)
        } by {
            assert(self.leaf_location(v) == m0.leaf_location(v));
            if m0.leaf_location(v) is Some {
                m0.lemma_leaf_location(v);
                let (a, k) = m0.leaf_location(v)->0;
                if a == t {
                    assert(self.tent(a)[k] == m0.tent(a).update(i, e)[k]);
                } else {
                    assert(self.tent(a) == m0.tent(a));
                }
            }
        }
    }

    /// Growing twice is growing.
    proof fn lemma_grown_trans(&self, f2: FrameAllocator, m1: Mapping, f1: FrameAllocator, m0: Mapping, f0: FrameAllocator)
        requires
            m1.grown_from(f1, m0, f0),
            self.grown_from(f2, m1, f1),
        ensures
            self.grown_from(f2, m0, f0),
    {
        assert forall|u: int| m0.tcount() <= u < self.tcount() implies !f0.holds(#[trigger] self.tppn(u)) by {
            if u < m1.tcount() {
                assert(self.tppn(u) == m1.tppn(u));
            } else {
                if f0.holds(self.tppn(u)) {
                    let j = self.tppn(u) - f0.start();
                    assert(f1.frames()[j]);
                }
            }
        }
        assert forall|j: int| 0 <= j < f0.frames().len() && #[trigger] f2.frames()[j] && !f0.frames()[j]
            implies exists|u: int| m0.tcount() <= u < self.tcount() && #[trigger] self.tppn(u) == f0.start() + j by {
            if f1.frames()[j] {
                let u = choose|u: int| m0.tcount() <= u < m1.tcount() && #[trigger] m1.tppn(u) == f0.start() + j;
                assert(self.tppn(u) == m1.tppn(u));
            } else {
                let u = choose|u: int| m1.tcount() <= u < self.tcount() && #[trigger] self.tppn(u) == f1.start() + j;
                assert(self.tppn(u) == f0.start() + j);
            }
        }
        assert forall|u: int| 0 <= u < m0.tcount() implies #[trigger] self.tppn(u) == m0.tppn(u) && self.tlevel(u) == m0.tlevel(u) by {
            assert(m1.tppn(u) == m0.tppn(u));
        }
        assert forall|j: int| 0 <= j < f0.frames().len() && f0.frames()[j] implies #[trigger] f2.frames()[j] by {
            assert(f1.frames()[j]);
        }
    }

    /// Where the walk for `v` ends: a last-level table, at the index that
    /// `v` selects there.
    proof fn lemma_leaf_location(&self, v: usize)
        requires
            self.well_formed(),
            self.leaf_location(v) is Some,
        ensures
            self.leaf_location(v) matches Some((t, i)) && 0 <= t < self.tcount() && self.tlevel(t) == 2
                && i == vpn_level(v, 2) && i < ENTRIES,
    {
        lemma_levels_bounded(v);
        let l0 = vpn_level(v, 0) as int;
        let l1 = vpn_level(v, 1) as int;
        assert(self.leads(0, l0));
        self.lemma_leads_to(0, l0);
        let t1 = self.table_of(self.tent(0)[l0].entry_page_number() as int);
        assert(self.leads(t1, l1));
        self.lemma_leads_to(t1, l1);
    }

    /// In a walkable mapping, `table_of` finds the table of a frame.
    proof fn lemma_table_of(&self, t: int)
        requires
            self.walkable(),
            0 <= t < self.tcount(),
        ensures
            self.table_of(self.tppn(t)) == t,
    {
        let u = self.table_of(self.tppn(t));
        assert(0 <= u < self.tcount() && self.tppn(u) == self.tppn(t));
    }

    /// The table an upper-level entry leads to is one level down.
    proof fn lemma_leads_to(&self, t: int, i: int)
        requires
            self.well_formed(),
            self.leads(t, i),
        ensures
            0 <= self.table_of(self.tent(t)[i].entry_page_number() as int) < self.tcount(),
            self.tppn(self.table_of(self.tent(t)[i].entry_page_number() as int)) == self.tent(t)[i].entry_page_number(),
            self.tlevel(self.table_of(self.tent(t)[i].entry_page_number() as int)) == self.tlevel(t) + 1,
    {
        let u = choose|u: int| 0 <= u < self.tcount() && #[trigger] self.tppn(u) == self.tent(t)[i].entry_page_number() && self.tlevel(u) == self.tlevel(t) + 1;
        self.lemma_table_of(u);
    }

    /// In a walkable mapping, the table that an upper-level entry that is no
    /// leaf names is one level down.
    proof fn lemma_points_to(&self, t: int, i: int)
        requires
            self.walkable(),
            self.leads(t, i),
            points_down(self.tent(t)[i]),
        ensures
            0 <= self.table_of(self.tent(t)[i].entry_page_number() as int) < self.tcount(),
            self.tppn(self.table_of(self.tent(t)[i].entry_page_number() as int)) == self.tent(t)[i].entry_page_number(),
            self.tlevel(self.table_of(self.tent(t)[i].entry_page_number() as int)) == self.tlevel(t) + 1,
    {
        let u = choose|u: int| 0 <= u < self.tcount() && #[trigger] self.tppn(u) == self.tent(t)[i].entry_page_number() && self.tlevel(u) == self.tlevel(t) + 1;
        self.lemma_table_of(u);
    }

    /// A well-formed mapping can be walked, and has no leaf above the last
    /// level: every non-empty upper-level entry names a table.
    pub proof fn lemma_well_formed_walkable(&self)
        requires
            self.well_formed(),
        ensures
            self.walkable(),
            forall|t: int, i: int| #[trigger] self.leads(t, i) ==> points_down(self.tent(t)[i]),
    {
        assert(1u8 & (2u8 | 4u8 | 8u8) == 0) by (bit_vector);
    }
}


/// An entry with the valid flag is not empty.
proof fn lemma_entry_nonzero(ppn: usize, flags: u8)
    requires
        flags & VALID == VALID,
    ensures
        entry_value(ppn, flags) != 0,
{
    assert(flags & 1u8 == 1u8 ==> (flags as usize) | (ppn << 10usize) != 0usize) by (bit_vector);
}

/// Each of the three indices of a virtual page number is below `ENTRIES`.
proof fn lemma_levels_bounded(v: usize)
    ensures
        vpn_level(v, 0) < ENTRIES,
        vpn_level(v, 1) < ENTRIES,
        vpn_level(v, 2) < ENTRIES,
{
    assert((v >> 18usize) & 511usize < 512usize) by (bit_vector);
    assert((v >> 9usize) & 511usize < 512usize) by (bit_vector);
    assert((v >> 0usize) & 511usize < 512usize) by (bit_vector);
}

/// Adding an empty table under an empty upper-level entry keeps the entry
/// of every page.
proof fn lemma_new_table_keeps_entries(m1: Mapping, m2: Mapping, t: int, slot: int)
    requires
        m1.well_formed(),
        m2.well_formed(),
        m2.tcount() == m1.tcount() + 1,
        0 <= t < m1.tcount(),
        m1.tlevel(t) < 2,
        0 <= slot < ENTRIES,
        m1.tent(t)[slot].value() == 0,
        m2.tent(t) == m1.tent(t).update(slot, m2.tent(t)[slot]),
        m2.tent(t)[slot].value() != 0,
        m2.tent(t)[slot].entry_page_number() == m2.tppn(m1.tcount()),
        forall|u: int| 0 <= u < m1.tcount() ==> m2.tppn(u) == m1.tppn(u) && m2.tlevel(u) == m1.tlevel(u),
        forall|u: int| 0 <= u < m1.tcount() && u != t ==> m2.tent(u) == m1.tent(u),
        forall|i: int| 0 <= i < ENTRIES ==> (#[trigger] m2.tent(m1.tcount())[i]).value() == 0,
    ensures
        forall|v: usize| m2.page_entry(v) == m1.page_entry(v),
{
    let n = m1.tcount();
    m2.lemma_table_of(n);
    assert forall|v: usize| m2.page_entry(v) == m1.page_entry(v) by {
        let l0 = vpn_level(v, 0) as int;
        let l1 = vpn_level(v, 1) as int;
        let l2 = vpn_level(v, 2) as int;
        lemma_levels_bounded(v);
        let e0 = m1.tent(0)[l0];
        if t == 0 && slot == l0 {
            assert(m1.leaf_location(v) is None);
            assert(m2.tent(0)[l0] == m2.tent(t)[slot]);
            assert(m2.table_of(m2.tent(0)[l0].entry_page_number() as int) == n);
            assert(m2.tent(n)[l1].value() == 0);
        } else {
            assert(m2.tent(0)[l0] == e0);
            if e0.value() != 0 {
                assert(m1.leads(0, l0));
                m1.lemma_leads_to(0, l0);
                let t1 = m1.table_of(e0.entry_page_number() as int);
                m2.lemma_table_of(t1);
                assert(m2.table_of(e0.entry_page_number() as int) == t1);
                let e1 = m1.tent(t1)[l1];
                if t1 == t && slot == l1 {
                    assert(m2.tent(t1)[l1] == m2.tent(t)[slot]);
                    assert(m2.table_of(m2.tent(t1)[l1].entry_page_number() as int) == n);
                    assert(m2.tent(n)[l2].value() == 0);
                } else {
                    assert(m2.tent(t1)[l1] == e1);
                    if e1.value() != 0 {
                        assert(m1.leads(t1, l1));
                        m1.lemma_leads_to(t1, l1);
                        let t2 = m1.table_of(e1.entry_page_number() as int);
                        m2.lemma_table_of(t2);
                        assert(m2.table_of(e1.entry_page_number() as int) == t2);
                        assert(t2 != t);
                        assert(m2.tent(t2) == m1.tent(t2));
                    }
                }
            }
        }
    }
}

impl Mapping {
    /// A mapping with an empty root table in the first free frame of
    /// `frames`; `Err` when no frame is free.
    pub fn new(frames: &mut FrameAllocator) -> (r: MemoryResult<Mapping>)
        requires
            usize::BITS == 64,
            old(frames).wf(),
        ensures
            final(frames).wf(),
            final(frames).start() == old(frames).start(),
            match r {
                Ok(m) => {
                    &&& m.well_formed()
                    &&& m.frames_held(*final(frames))
                    &&& m.tcount() == 1
                    &&& forall|v: usize| #[trigger] m.page_entry(v) is None
                    &&& old(frames).start() <= m.root() < old(frames).start() + old(frames).frames().len()
                    &&& final(frames).frames() == old(frames).frames().update(m.root() - old(frames).start(), true)
                    &&& !old(frames).frames()[m.root() - old(frames).start()]
                    &&& forall|j: int| 0 <= j < m.root() - old(frames).start() ==> #[trigger] old(frames).frames()[j]
                },
                Err(e) => e == crate::memory::frame_allocator::NO_FRAME && final(frames).frames() == old(frames).frames()
                    && forall|j: int| 0 <= j < old(frames).frames().len() ==> #[trigger] old(frames).frames()[j],
            },
    {
        let frame = match frames.allocate() {
            Ok(frame) => frame,
            Err(e) => {
                return Err(e);
            },
        };
        let root_table = PageTableTracker::new(frame);
        let root_ppn = root_table.page_number();
        let mut page_tables: Vec<PageTableTracker> = Vec::new();
        page_tables.push(root_table);
        let levels: Ghost<Seq<int>> = Ghost(Seq::empty().push(0int));
        let m = Mapping { page_tables, root_ppn, levels };
        proof {
            assert(m.tent(0) == root_table.table());
            assert forall|t: int, i: int| #[trigger] m.leads(t, i) implies false by {
                assert(t == 0);
            }
            assert forall|v: usize| #[trigger] m.page_entry(v) is None by {
                lemma_levels_bounded(v);
            }
            assert forall|t: int| 0 <= t < m.tcount() implies final(frames).holds(#[trigger] m.tppn(t)) by {
                assert(t == 0);
            }
        }
        Ok(m)
    }

    /// Index of the table in frame `ppn`.
    fn table_index(&self, ppn: PhysicalPageNumber) -> (r: usize)
        requires
            self.walkable(),
            exists|u: int| 0 <= u < self.tcount() && #[trigger] self.tppn(u) == ppn.0,
        ensures
            r == self.table_of(ppn.0 as int),
            r < self.tcount(),
    {
        let ghost u = choose|u: int| 0 <= u < self.tcount() && #[trigger] self.tppn(u) == ppn.0;
        proof {
            self.lemma_table_of(u);
        }
        let mut i: usize = 0;
        while i < self.page_tables.len()
            invariant
                self.walkable(),
                0 <= u < self.tcount(),
                self.tppn(u) == ppn.0,
                i <= u,
            decreases self.tcount() - i,
        {
            if self.page_tables[i].frame.0.0 == ppn.0 {
                proof {
                    self.lemma_table_of(i as int);
                }
                return i;
            }
            assert(i != u);
            i = i + 1;
        }
        proof {
            assert(false);
        }
        0
    }

    /// The table that entry `slot` of table `t` leads to; when the entry is
    /// empty, a new empty table is allocated and the entry pointed to it.
    fn descend(&mut self, frames: &mut FrameAllocator, t: usize, slot: usize) -> (r: MemoryResult<usize>)
        requires
            old(self).well_formed(),
            old(frames).wf(),
            old(self).frames_held(*old(frames)),
            old(frames).start() + old(frames).frames().len() <= MAX_PAGE_NUMBER + 1,
            t < old(self).tcount(),
            old(self).tlevel(t as int) < 2,
            slot < ENTRIES,
        ensures
            final(self).well_formed(),
            final(frames).wf(),
            final(self).frames_held(*final(frames)),
            final(self).grown_from(*final(frames), *old(self), *old(frames)),
            forall|v: usize| #[trigger] final(self).page_entry(v) == old(self).page_entry(v),
            forall|u: int| 0 <= u < old(self).tcount() && u != t ==> #[trigger] final(self).tent(u) == old(self).tent(u),
            old(self).tent(t as int)[slot as int].value() != 0 ==> *final(self) == *old(self) && *final(frames) == *old(frames)
                && r == Ok::<usize, &'static str>(old(self).table_of(old(self).tent(t as int)[slot as int].entry_page_number() as int) as usize),
            r matches Err(e) ==> e == crate::memory::frame_allocator::NO_FRAME
                && *final(self) == *old(self) && final(frames).frames() == old(frames).frames()
                && forall|j: int| 0 <= j < final(frames).frames().len() ==> #[trigger] final(frames).frames()[j],
            r matches Ok(u) ==> {
                &&& final(self).leads(t as int, slot as int)
                &&& u == final(self).table_of(final(self).tent(t as int)[slot as int].entry_page_number() as int)
                &&& u < final(self).tcount()
                &&& final(self).tlevel(u as int) == old(self).tlevel(t as int) + 1
            },
            count_free(final(frames).frames()) + 1 >= count_free(old(frames).frames()),
            r is Err ==> count_free(old(frames).frames()) == 0,
    {
        assert(self.tent(t as int).len() == ENTRIES);
        let entry = self.page_tables[t].entries[slot];
        if entry.is_empty() {
            let ghost m1 = *self;
            let ghost f1 = *frames;
            let frame = match frames.allocate() {
                Ok(frame) => frame,
                Err(e) => {
                    proof {
                        lemma_count_none_free(f1.frames());
                    }
                    return Err(e);
                },
            };
            proof {
                lemma_count_take(f1.frames(), frame.0.0 - f1.start());
            }
            let new_table = PageTableTracker::new(frame);
            let new_ppn = new_table.page_number();
            proof {
                assert(new_ppn.0 <= MAX_PAGE_NUMBER);
            }
            let new_entry = PageTableEntry::new(new_ppn, Flags::from_bits(VALID));
            proof {
                new_entry.lemma_flags_nonzero();
            }
            self.page_tables[t].entries[slot] = new_entry;
            self.page_tables.push(new_table);
            let new_levels: Ghost<Seq<int>> = Ghost(self.levels@.push(self.levels@[t as int] + 1));
            self.levels = new_levels;
            let u = self.page_tables.len() - 1;
            proof {
                let m2 = *self;
                let n = m1.tcount();
                assert(m2.tcount() == n + 1);
                assert forall|w: int| 0 <= w < n implies m2.tppn(w) == m1.tppn(w) && m2.tlevel(w) == m1.tlevel(w) by {
                    assert(m2.page_tables@[w].frame == m1.page_tables@[w].frame);
                }
                assert forall|w: int| 0 <= w < n && w != t implies #[trigger] m2.tent(w) == m1.tent(w) by {
                    assert(m2.page_tables@[w] == m1.page_tables@[w]);
                }
                assert(m2.tent(t as int) == m1.tent(t as int).update(slot as int, new_entry));
                assert(m2.tent(n) == new_table.table());
                // the new frame is none of the old tables' frames
                assert forall|w: int| 0 <= w < n implies m1.tppn(w) != new_ppn.0 by {
                    assert(f1.holds(m1.tppn(w)));
                }
                assert forall|w: int| 0 <= w < m2.tcount() implies #[trigger] frames.holds(m2.tppn(w)) by {
                    if w < n {
                        assert(f1.holds(m1.tppn(w)));
                    }
                }
                assert forall|w: int| 0 <= w < m2.tcount() implies (#[trigger] m2.tent(w)).len() == ENTRIES by {}
                assert forall|w: int| 0 <= w < m2.tcount() implies 0 <= #[trigger] m2.tlevel(w) <= 2 by {}
                assert forall|a: int, b: int| 0 <= a < m2.tcount() && 0 <= b < m2.tcount() && a != b implies #[trigger] m2.tppn(a) != #[trigger] m2.tppn(b) by {}
                assert forall|a: int, i: int| #[trigger] m2.leads(a, i) implies {
                    &&& m2.tent(a)[i].entry_flags() == VALID
                    &&& exists|w: int| 0 <= w < m2.tcount() && #[trigger] m2.tppn(w) == m2.tent(a)[i].entry_page_number() && m2.tlevel(w) == m2.tlevel(a) + 1
                } by {
                    if a == t && i == slot {
                        assert(m2.tppn(n) == m2.tent(a)[i].entry_page_number());
                    } else {
                        assert(a != n);
                        assert(m1.leads(a, i));
                        m1.lemma_leads_to(a, i);
                        let w = m1.table_of(m1.tent(a)[i].entry_page_number() as int);
                        assert(m2.tppn(w) == m2.tent(a)[i].entry_page_number());
                    }
                }
                assert forall|a: int, i: int, b: int, k: int| #[trigger] m2.leads(a, i) && #[trigger] m2.leads(b, k) && (a != b || i != k) implies m2.tent(a)[i].entry_page_number() != m2.tent(b)[k].entry_page_number() by {
                    if a == t && i == slot {
                        assert(m1.leads(b, k));
                        m1.lemma_leads_to(b, k);
                    } else if b == t && k == slot {
                        assert(m1.leads(a, i));
                        m1.lemma_leads_to(a, i);
                    } else {
                        assert(m1.leads(a, i));
                        assert(m1.leads(b, k));
                    }
                }
                assert(m2.well_formed());
                lemma_new_table_keeps_entries(m1, m2, t as int, slot as int);
                let j0 = new_ppn.0 - f1.start();
                assert(frames.frames() == f1.frames().update(j0, true));
                assert forall|j: int| 0 <= j < f1.frames().len() && #[trigger] frames.frames()[j] && !f1.frames()[j]
                    implies exists|w: int| n <= w < m2.tcount() && #[trigger] m2.tppn(w) == f1.start() + j by {
                    assert(j == j0);
                    assert(m2.tppn(n) == f1.start() + j);
                }
                assert(!f1.holds(m2.tppn(n)));
                m2.lemma_table_of(n);
            }
            Ok(u)
        } else {
            proof {
                assert(self.leads(t as int, slot as int));
                self.lemma_leads_to(t as int, slot as int);
            }
            let u = self.table_index(entry.page_number());
            Ok(u)
        }
    }

    /// The last-level entry for `vpn`, as its table and index; missing
    /// tables on the way are allocated from `frames` and linked in. Fails
    /// only when a table is needed and no frame is left. Once it has
    /// succeeded, asking again finds the same entry and changes nothing.
    pub fn find_entry(&mut self, frames: &mut FrameAllocator, vpn: VirtualPageNumber) -> (r: MemoryResult<(usize, usize)>)
        requires
            old(self).well_formed(),
            old(frames).wf(),
            old(self).frames_held(*old(frames)),
            old(frames).start() + old(frames).frames().len() <= MAX_PAGE_NUMBER + 1,
        ensures
            final(self).well_formed(),
            final(frames).wf(),
            final(self).frames_held(*final(frames)),
            final(self).grown_from(*final(frames), *old(self), *old(frames)),
            forall|v: usize| #[trigger] final(self).page_entry(v) == old(self).page_entry(v),
            match r {
                Ok((t, i)) => final(self).leaf_location(vpn.0) == Some((t as int, i as int)),
                Err(e) => e == crate::memory::frame_allocator::NO_FRAME
                    && forall|j: int| 0 <= j < final(frames).frames().len() ==> #[trigger] final(frames).frames()[j],
            },
            old(self).leaf_location(vpn.0) is Some ==> *final(self) == *old(self) && *final(frames) == *old(frames)
                && r is Ok,
            old(self).leaf_location(vpn.0) matches Some((t, i)) ==> r == Ok::<(usize, usize), &'static str>((t as usize, i as usize)),
            count_free(final(frames).frames()) + 2 >= count_free(old(frames).frames()),
            r is Err ==> count_free(old(frames).frames()) <= 1,
            r is Err ==> final(self).leaf_location(vpn.0) is None,
    {
        let levels = vpn.levels();
        proof {
            lemma_levels_bounded(vpn.0);
        }
        let ghost m0 = *self;
        let ghost f0 = *frames;
        let t1 = match self.descend(frames, 0, levels[0]) {
            Ok(u) => u,
            Err(e) => {
                return Err(e);
            },
        };
        let ghost m1 = *self;
        let ghost f1 = *frames;
        proof {
            let l0 = vpn_level(vpn.0, 0) as int;
            m1.lemma_leads_to(0, l0);
            if m0.leaf_location(vpn.0) is Some {
                assert(m0.tent(0)[l0].value() != 0);
            }
        }
        let t2 = match self.descend(frames, t1, levels[1]) {
            Ok(u) => u,
            Err(e) => {
                proof {
                    self.lemma_grown_trans(*frames, m1, f1, m0, f0);
                    let l0 = vpn_level(vpn.0, 0) as int;
                    assert(m1.leads(0, l0));
                }
                return Err(e);
            },
        };
        proof {
            let l0 = vpn_level(vpn.0, 0) as int;
            let l1 = vpn_level(vpn.0, 1) as int;
            let m2 = *self;
            self.lemma_grown_trans(*frames, m1, f1, m0, f0);
            assert(t1 != 0);
            assert(m2.tent(0) == m1.tent(0));
            m2.lemma_table_of(t1 as int);
            m2.lemma_leads_to(t1 as int, l1);
        }
        Ok((t2, levels[2]))
    }

    /// Overwrite entry `i` of table `t`.
    fn set_entry(&mut self, t: usize, i: usize, e: PageTableEntry)
        requires
            t < old(self).tcount(),
            i < old(self).tent(t as int).len(),
        ensures
            final(self).entry_written(*old(self), t as int, i as int, e),
    {
        let ghost m0 = *self;
        self.page_tables[t].entries[i] = e;
        proof {
            assert forall|u: int| 0 <= u < m0.tcount() implies #[trigger] self.tppn(u) == m0.tppn(u) by {
                assert(self.page_tables@[u].frame == m0.page_tables@[u].frame);
            }
            assert forall|u: int| 0 <= u < m0.tcount() && u != t implies #[trigger] self.tent(u) == m0.tent(u) by {
                assert(self.page_tables@[u] == m0.page_tables@[u]);
            }
        }
    }

    /// Map the page `vpn` onto the frame `ppn` with `flags`, allocating the
    /// tables on the way. The page must not be mapped yet.
    fn map_one(&mut self, frames: &mut FrameAllocator, vpn: VirtualPageNumber, ppn: PhysicalPageNumber, flags: Flags) -> (r: MemoryResult<()>)
        requires
            old(self).well_formed(),
            old(frames).wf(),
            old(self).frames_held(*old(frames)),
            old(frames).start() + old(frames).frames().len() <= MAX_PAGE_NUMBER + 1,
            old(self).page_entry(vpn.0) is None,
            ppn.0 as u64 <= MAX_PAGE_NUMBER,
        ensures
            final(self).well_formed(),
            final(frames).wf(),
            final(self).frames_held(*final(frames)),
            final(self).grown_from(*final(frames), *old(self), *old(frames)),
            match r {
                Ok(_) => forall|v: usize| #[trigger] final(self).page_entry(v) == if same_page(v, vpn.0) {
                    entry_of(entry_value(ppn.0, flags.bits))
                } else {
                    old(self).page_entry(v)
                },
                Err(e) => e == crate::memory::frame_allocator::NO_FRAME
                    && (forall|v: usize| #[trigger] final(self).page_entry(v) == old(self).page_entry(v))
                    && forall|j: int| 0 <= j < final(frames).frames().len() ==> #[trigger] final(frames).frames()[j],
            },
            old(self).leaf_location(vpn.0) is Some ==> r is Ok && *final(frames) == *old(frames)
                && forall|v: usize| #[trigger] final(self).leaf_location(v) == old(self).leaf_location(v),
            r is Ok ==> (final(self).leaf_entry(vpn.0) matches Some(e) && e.entry_page_number() == ppn.0
                && e.entry_flags() == flags.bits),
            count_free(final(frames).frames()) + 2 >= count_free(old(frames).frames()),
            r is Err ==> count_free(old(frames).frames()) <= 1,
            r is Err ==> final(self).leaf_location(vpn.0) is None,
    {
        let (t, i) = match self.find_entry(frames, vpn) {
            Ok(loc) => loc,
            Err(e) => {
                return Err(e);
            },
        };
        let ghost m1 = *self;
        proof {
            m1.lemma_leaf_location(vpn.0);
        }
        let entry = PageTableEntry::new(ppn, flags);
        proof {
            entry.lemma_flags_nonzero();
        }
        self.set_entry(t, i, entry);
        proof {
            self.lemma_write_leaf(m1, t as int, i as int, entry);
            assert forall|v: usize| #[trigger] self.page_entry(v) == if same_page(v, vpn.0) {
                entry_of(entry_value(ppn.0, flags.bits))
            } else {
                old(self).page_entry(v)
            } by {
                if same_page(v, vpn.0) {
                    m1.lemma_same_page_entry(v, vpn.0);
                } else if m1.leaf_location(v) == Some((t as int, i as int)) {
                    m1.lemma_leaf_injective(v, vpn.0);
                }
            }
            assert(self.frames_held(*frames));
            assert(self.leaf_location(vpn.0) == Some((t as int, i as int)));
            assert(self.leaf_entry(vpn.0) == Some(entry));
            assert forall|u: int| 0 <= u < old(self).tcount() implies #[trigger] self.tppn(u) == old(self).tppn(u) && self.tlevel(u) == old(self).tlevel(u) by {
                assert(m1.tppn(u) == old(self).tppn(u));
            }
            assert forall|u: int| old(self).tcount() <= u < self.tcount() implies !old(frames).holds(#[trigger] self.tppn(u)) by {
                assert(m1.tppn(u) == self.tppn(u));
            }
            assert forall|j: int| 0 <= j < old(frames).frames().len() && #[trigger] frames.frames()[j] && !old(frames).frames()[j]
                implies exists|u: int| old(self).tcount() <= u < self.tcount() && #[trigger] self.tppn(u) == old(frames).start() + j by {
                let u = choose|u: int| old(self).tcount() <= u < m1.tcount() && #[trigger] m1.tppn(u) == old(frames).start() + j;
                assert(self.tppn(u) == m1.tppn(u));
            }
        }
        Ok(())
    }

    /// The last-level entry for `vpn`, as its table and index, when both
    /// tables on the way exist.
    fn walk(&self, vpn: VirtualPageNumber) -> (r: Option<(usize, usize)>)
        requires
            self.well_formed(),
        ensures
            match r {
                Some((t, i)) => self.leaf_location(vpn.0) == Some((t as int, i as int)),
                None => self.leaf_location(vpn.0) is None,
            },
    {
        let levels = vpn.levels();
        proof {
            lemma_levels_bounded(vpn.0);
            assert(self.tent(0).len() == ENTRIES);
        }
        let e0 = self.page_tables[0].entries[levels[0]];
        if e0.is_empty() {
            return None;
        }
        proof {
            assert(self.leads(0, vpn_level(vpn.0, 0) as int));
            self.lemma_leads_to(0, vpn_level(vpn.0, 0) as int);
        }
        let t1 = self.table_index(e0.page_number());
        proof {
            assert(self.tent(t1 as int).len() == ENTRIES);
        }
        let e1 = self.page_tables[t1].entries[levels[1]];
        if e1.is_empty() {
            return None;
        }
        proof {
            assert(self.leads(t1 as int, vpn_level(vpn.0, 1) as int));
            self.lemma_leads_to(t1 as int, vpn_level(vpn.0, 1) as int);
        }
        let t2 = self.table_index(e1.page_number());
        Some((t2, levels[2]))
    }

    /// Remove the mapping of every page of `segment`. Each page must be
    /// mapped, and no two of them may select the same entries.
    pub fn unmap(&mut self, segment: &Segment)
        requires
            old(self).well_formed(),
            forall|p: int| segment.first_page() <= p < segment.end_page() ==> (#[trigger] old(self).page_entry(p as usize)) is Some,
            distinct_pages(segment.first_page(), segment.end_page()),
        ensures
            final(self).well_formed(),
            final(self).tables_kept(*old(self)),
            forall|v: usize| #[trigger] final(self).page_entry(v) == if in_pages(v, segment.first_page(), segment.end_page()) {
                None
            } else {
                old(self).page_entry(v)
            },
    {
        let range = segment.page_range();
        let first = range.start.0;
        let mut k = range.start.0;
        while k < range.end.0
            invariant
                self.well_formed(),
                self.tables_kept(*old(self)),
                first == segment.first_page(),
                range.end.0 == segment.end_page(),
                first <= k,
                k <= range.end.0 || k == first,
                forall|p: int| segment.first_page() <= p < segment.end_page() ==> (#[trigger] old(self).page_entry(p as usize)) is Some,
                distinct_pages(segment.first_page(), segment.end_page()),
                forall|v: usize| #[trigger] self.page_entry(v) == if in_pages(v, first as int, k as int) {
                    None
                } else {
                    old(self).page_entry(v)
                },
            decreases range.end.0 - k,
        {
            let vpn = VirtualPageNumber(k);
            proof {
                if in_pages(k, first as int, k as int) {
                    let p = choose|p: int| first <= p < k && #[trigger] same_page(k, p as usize);
                    assert(same_page(p as usize, k as int as usize));
                }
                assert(old(self).page_entry(k as int as usize) is Some);
                assert(!in_pages(k, first as int, k as int));
                assert(self.page_entry(k) is Some);
            }
            let (t, i) = match self.walk(vpn) {
                Some(loc) => loc,
                None => {
                    proof {
                        assert(false);
                    }
                    return;
                },
            };
            let ghost m1 = *self;
            proof {
                m1.lemma_leaf_location(k);
            }
            let cleared = PageTableEntry::empty();
            self.set_entry(t, i, cleared);
            proof {
                self.lemma_write_leaf(m1, t as int, i as int, cleared);
                assert forall|v: usize| #[trigger] self.page_entry(v) == if in_pages(v, first as int, k + 1) {
                    None
                } else {
                    old(self).page_entry(v)
                } by {
                    if m1.leaf_location(v) == Some((t as int, i as int)) {
                        m1.lemma_leaf_injective(v, k);
                        assert(same_page(v, k as int as usize));
                    } else if same_page(v, k) {
                        m1.lemma_same_page_entry(v, k);
                    }
                    if in_pages(v, first as int, k + 1) && !same_page(v, k) {
                        let p = choose|p: int| first <= p < k + 1 && #[trigger] same_page(v, p as usize);
                        assert(p != k);
                    }
                }
            }
            k = k + 1;
        }
    }

    /// Map each page of `segment` onto the page the kernel's linear mapping
    /// gives it.
    fn map_linear(&mut self, frames: &mut FrameAllocator, segment: &Segment, flags: Flags) -> (r: MemoryResult<()>)
        requires
            old(self).well_formed(),
            old(frames).wf(),
            old(self).frames_held(*old(frames)),
            old(frames).start() + old(frames).frames().len() <= MAX_PAGE_NUMBER + 1,
            forall|p: int| segment.first_page() <= p < segment.end_page() ==> (#[trigger] old(self).page_entry(p as usize)) is None,
            distinct_pages(segment.first_page(), segment.end_page()),
            segment.first_page() >= KERNEL_MAP_OFFSET / 4096,
            flags.bits & VALID == VALID,
        ensures
            final(self).well_formed(),
            final(frames).wf(),
            final(self).frames_held(*final(frames)),
            final(self).grown_from(*final(frames), *old(self), *old(frames)),
            forall|v: usize| !in_pages(v, segment.first_page(), segment.end_page())
                ==> #[trigger] final(self).page_entry(v) == old(self).page_entry(v),
            r is Ok ==> forall|p: int| segment.first_page() <= p < segment.end_page()
                ==> #[trigger] final(self).page_entry(p as usize) == Some(entry_value(linear_page(p) as usize, flags.bits)),
            r matches Err(e) ==> e == crate::memory::frame_allocator::NO_FRAME
                && forall|j: int| 0 <= j < final(frames).frames().len() ==> #[trigger] final(frames).frames()[j],
            (forall|p: int| segment.first_page() <= p < segment.end_page() ==> (#[trigger] old(self).leaf_location(p as usize)) is Some)
                ==> r is Ok,
            count_free(old(frames).frames()) >= 2 * segment.page_count() ==> r is Ok,
    {
        let range = segment.page_range();
        let first = range.start.0;
        let mut k = range.start.0;
        proof {
            assert(self.grown_from(*frames, *self, *frames));
        }
        while k < range.end.0
            invariant
                self.well_formed(),
                frames.wf(),
                self.frames_held(*frames),
                self.grown_from(*frames, *old(self), *old(frames)),
                old(frames).start() + old(frames).frames().len() <= MAX_PAGE_NUMBER + 1,
                usize::BITS == 64,
                first == segment.first_page(),
                range.end.0 == segment.end_page(),
                first <= k,
                k <= range.end.0 || k == first,
                first >= KERNEL_MAP_OFFSET / 4096,
                flags.bits & VALID == VALID,
                forall|p: int| segment.first_page() <= p < segment.end_page() ==> (#[trigger] old(self).page_entry(p as usize)) is None,
                distinct_pages(segment.first_page(), segment.end_page()),
                forall|v: usize| !in_pages(v, first as int, k as int) ==> #[trigger] self.page_entry(v) == old(self).page_entry(v),
                forall|p: int| first <= p < k ==> #[trigger] self.page_entry(p as usize) == Some(entry_value(linear_page(p) as usize, flags.bits)),
                (forall|p: int| segment.first_page() <= p < segment.end_page() ==> (#[trigger] old(self).leaf_location(p as usize)) is Some)
                    ==> *frames == *old(frames) && forall|p: int| k <= p < segment.end_page() ==> (#[trigger] self.leaf_location(p as usize)) is Some,
                count_free(frames.frames()) + 2 * (k - first) >= count_free(old(frames).frames()),
            decreases range.end.0 - k,
        {
            let vpn = VirtualPageNumber(k);
            proof {
                if in_pages(k, first as int, k as int) {
                    let p = choose|p: int| first <= p < k && #[trigger] same_page(k, p as usize);
                    assert(same_page(p as usize, k as int as usize));
                }
                assert(old(self).page_entry(k as int as usize) is None);
                assert(self.page_entry(k) is None);
                assert(k <= usize::MAX / 4096 + 1);
                assert(usize::MAX == 0xffff_ffff_ffff_ffff);
            }
            let ppn = PhysicalPageNumber::from_virtual(vpn);
            let ghost m1 = *self;
            let ghost f1 = *frames;
            proof {
                if forall|p: int| segment.first_page() <= p < segment.end_page() ==> (#[trigger] old(self).leaf_location(p as usize)) is Some {
                    assert(self.leaf_location(k as int as usize) is Some);
                }
            }
            match self.map_one(frames, vpn, ppn, flags) {
                Ok(()) => {},
                Err(e) => {
                    proof {
                        self.lemma_grown_trans(*frames, m1, f1, *old(self), *old(frames));
                        assert(count_free(old(frames).frames()) < 2 * segment.page_count());
                    }
                    return Err(e);
                },
            }
            proof {
                self.lemma_grown_trans(*frames, m1, f1, *old(self), *old(frames));
                lemma_entry_nonzero(ppn.0, flags.bits);
                assert forall|v: usize| !in_pages(v, first as int, k + 1) implies #[trigger] self.page_entry(v) == old(self).page_entry(v) by {
                    if same_page(v, k) {
                        assert(same_page(v, k as int as usize));
                    }
                    if in_pages(v, first as int, k as int) {
                        let p = choose|p: int| first <= p < k && #[trigger] same_page(v, p as usize);
                        assert(first <= p < k + 1 && same_page(v, p as usize));
                    }
                }
                assert forall|p: int| first <= p < k + 1 implies #[trigger] self.page_entry(p as usize) == Some(entry_value(linear_page(p) as usize, flags.bits)) by {
                    if p < k {
                        assert(!same_page(p as usize, k as int as usize));
                        assert(m1.page_entry(p as usize) == Some(entry_value(linear_page(p) as usize, flags.bits)));
                    }
                }
                if forall|p: int| segment.first_page() <= p < segment.end_page() ==> (#[trigger] old(self).leaf_location(p as usize)) is Some {
                    assert forall|p: int| k + 1 <= p < segment.end_page() implies (#[trigger] self.leaf_location(p as usize)) is Some by {
                        assert(m1.leaf_location(p as usize) is Some);
                    }
                }
            }
            k = k + 1;
        }
        Ok(())
    }

    /// Give back to `frames` the frames of `pairs`: each of them is free
    /// afterwards, and every other frame is as it was.
    fn release(frames: &mut FrameAllocator, pairs: &Vec<(VirtualPageNumber, FrameTracker)>)
        requires
            old(frames).wf(),
            forall|j: int| 0 <= j < pairs@.len() ==> old(frames).start() <= #[trigger] pairs@[j].1.0.0
                < old(frames).start() + old(frames).frames().len(),
        ensures
            final(frames).wf(),
            final(frames).start() == old(frames).start(),
            final(frames).frames().len() == old(frames).frames().len(),
            forall|j: int| 0 <= j < pairs@.len() ==> !#[trigger] final(frames).frames()[pairs@[j].1.0.0 - old(frames).start()],
            forall|q: int| (forall|j: int| 0 <= j < pairs@.len() ==> #[trigger] pairs@[j].1.0.0 != q)
                ==> #[trigger] final(frames).holds(q) == old(frames).holds(q),
            count_free(final(frames).frames()) <= count_free(old(frames).frames()) + pairs@.len(),
    {
        let mut i: usize = 0;
        while i < pairs.len()
            invariant
                frames.wf(),
                frames.start() == old(frames).start(),
                frames.frames().len() == old(frames).frames().len(),
                i <= pairs@.len(),
                forall|j: int| 0 <= j < pairs@.len() ==> old(frames).start() <= #[trigger] pairs@[j].1.0.0
                    < old(frames).start() + old(frames).frames().len(),
                forall|j: int| 0 <= j < i ==> !#[trigger] frames.frames()[pairs@[j].1.0.0 - old(frames).start()],
                forall|q: int| (forall|j: int| 0 <= j < i ==> #[trigger] pairs@[j].1.0.0 != q)
                    ==> #[trigger] frames.holds(q) == old(frames).holds(q),
                count_free(frames.frames()) <= count_free(old(frames).frames()) + i,
            decreases pairs@.len() - i,
        {
            let ghost f1 = *frames;
            frames.dealloc(&pairs[i].1);
            proof {
                lemma_count_give(f1.frames(), pairs@[i as int].1.0.0 - f1.start());
                assert forall|q: int| (forall|j: int| 0 <= j < i + 1 ==> #[trigger] pairs@[j].1.0.0 != q)
                    implies #[trigger] frames.holds(q) == old(frames).holds(q) by {
                    assert(pairs@[i as int].1.0.0 != q);
                    assert(forall|j: int| 0 <= j < i ==> #[trigger] pairs@[j].1.0.0 != q);
                    assert(f1.holds(q) == old(frames).holds(q));
                }
                assert forall|j: int| 0 <= j < i + 1 implies !#[trigger] frames.frames()[pairs@[j].1.0.0 - old(frames).start()] by {
                    if j < i {
                        assert(!f1.frames()[pairs@[j].1.0.0 - old(frames).start()]);
                    }
                }
            }
            i = i + 1;
        }
    }

    /// Map each page of `segment` onto a newly allocated frame; the pairs
    /// of page and frame come back in page order. On failure the frames
    /// allocated so far go back to `frames`.
    fn map_framed(&mut self, frames: &mut FrameAllocator, segment: &Segment, flags: Flags)
        -> (r: MemoryResult<Vec<(VirtualPageNumber, FrameTracker)>>)
        requires
            old(self).well_formed(),
            old(frames).wf(),
            old(self).frames_held(*old(frames)),
            old(frames).start() + old(frames).frames().len() <= MAX_PAGE_NUMBER + 1,
            forall|p: int| segment.first_page() <= p < segment.end_page() ==> (#[trigger] old(self).page_entry(p as usize)) is None,
            distinct_pages(segment.first_page(), segment.end_page()),
            flags.bits & VALID == VALID,
        ensures
            final(self).well_formed(),
            final(frames).wf(),
            final(self).frames_held(*final(frames)),
            final(self).root() == old(self).root(),
            final(frames).start() == old(frames).start(),
            final(frames).frames().len() == old(frames).frames().len(),
            forall|v: usize| !in_pages(v, segment.first_page(), segment.end_page())
                ==> #[trigger] final(self).page_entry(v) == old(self).page_entry(v),
            match r {
                Ok(pairs) => {
                    &&& pairs@.len() == segment.page_count()
                    &&& forall|j: int| 0 <= j < pairs@.len() ==> (#[trigger] pairs@[j]).0.0 == segment.first_page() + j
                        && final(self).page_entry((segment.first_page() + j) as usize) == Some(entry_value(pairs@[j].1.0.0, flags.bits))
                    &&& fresh_frames(pairs@, *final(self), *final(frames), *old(frames))
                    &&& framed_ledger(pairs@, *final(self), *final(frames), *old(self), *old(frames))
                },
                Err(e) => e == crate::memory::frame_allocator::NO_FRAME
                    && final(self).grown_from(*final(frames), *old(self), *old(frames))
                    && exists|k: int| segment.first_page() <= k < segment.end_page()
                        && framed_exhausted(*final(self), *final(frames), segment.first_page(), k),
            },
            count_free(old(frames).frames()) >= 3 * segment.page_count() ==> r is Ok,
    {
        let range = segment.page_range();
        let first = range.start.0;
        let mut k = range.start.0;
        let mut pairs: Vec<(VirtualPageNumber, FrameTracker)> = Vec::new();
        proof {
            assert(framed_ledger(pairs@, *self, *frames, *old(self), *old(frames)));
        }
        while k < range.end.0
            invariant
                self.well_formed(),
                frames.wf(),
                self.frames_held(*frames),
                self.root() == old(self).root(),
                frames.start() == old(frames).start(),
                frames.frames().len() == old(frames).frames().len(),
                old(frames).start() + old(frames).frames().len() <= MAX_PAGE_NUMBER + 1,
                forall|j: int| 0 <= j < old(frames).frames().len() && old(frames).frames()[j] ==> #[trigger] frames.frames()[j],
                first == segment.first_page(),
                range.end.0 == segment.end_page(),
                first <= k,
                k <= range.end.0 || k == first,
                flags.bits & VALID == VALID,
                forall|p: int| segment.first_page() <= p < segment.end_page() ==> (#[trigger] old(self).page_entry(p as usize)) is None,
                distinct_pages(segment.first_page(), segment.end_page()),
                pairs@.len() == k - first,
                forall|j: int| 0 <= j < pairs@.len() ==> (#[trigger] pairs@[j]).0.0 == first + j,
                forall|v: usize| !in_pages(v, first as int, k as int) ==> #[trigger] self.page_entry(v) == old(self).page_entry(v),
                forall|p: int| first <= p < k ==> #[trigger] self.page_entry(p as usize) == Some(entry_value(pairs@[p - first].1.0.0, flags.bits)),
                fresh_frames(pairs@, *self, *frames, *old(frames)),
                framed_ledger(pairs@, *self, *frames, *old(self), *old(frames)),
                count_free(frames.frames()) + 3 * (k - first) >= count_free(old(frames).frames()),
            decreases range.end.0 - k,
        {
            let vpn = VirtualPageNumber(k);
            proof {
                if in_pages(k, first as int, k as int) {
                    let p = choose|p: int| first <= p < k && #[trigger] same_page(k, p as usize);
                    assert(same_page(p as usize, k as int as usize));
                }
                assert(old(self).page_entry(k as int as usize) is None);
                assert(self.page_entry(k) is None);
            }
            let ghost f0 = *frames;
            let frame = match frames.allocate() {
                Ok(frame) => frame,
                Err(e) => {
                    Self::release(frames, &pairs);
                    proof {
                        assert forall|u: int| 0 <= u < self.tcount() implies frames.holds(#[trigger] self.tppn(u)) by {
                            assert(f0.holds(self.tppn(u)));
                        }
                        lemma_ledger_release(pairs@, *self, f0, *frames, *old(self), *old(frames));
                        lemma_count_none_free(f0.frames());
                        assert forall|p: int| first <= p < k implies (#[trigger] self.page_entry(p as usize)) is Some by {
                            assert(self.page_entry(p as usize) == Some(entry_value(pairs@[p - first].1.0.0, flags.bits)));
                        }
                        assert(framed_exhausted(*self, *frames, first as int, k as int));
                    }
                    return Err(e);
                },
            };
            let ppn = frame.page_number();
            let ghost m1 = *self;
            let ghost f1 = *frames;
            proof {
                lemma_count_take(f0.frames(), ppn.0 - f0.start());
                assert(f1.holds(ppn.0 as int));
                assert(!f0.holds(ppn.0 as int));
                assert forall|u: int| 0 <= u < m1.tcount() implies f1.holds(#[trigger] m1.tppn(u)) by {
                    assert(f0.holds(m1.tppn(u)));
                }
            }
            match self.map_one(frames, vpn, ppn, flags) {
                Ok(()) => {},
                Err(e) => {
                    let ghost f2 = *frames;
                    let ghost pairs0 = pairs@;
                    pairs.push((vpn, frame));
                    proof {
                        assert forall|l: int| 0 <= l < pairs@.len() implies f1.holds(#[trigger] pairs@[l].1.0.0 as int)
                            && !old(frames).holds(pairs@[l].1.0.0 as int) by {
                            if l < pairs0.len() {
                                assert(pairs@[l] == pairs0[l]);
                                assert(f0.holds(pairs0[l].1.0.0 as int));
                            } else if old(frames).holds(ppn.0 as int) {
                                assert(f0.frames()[ppn.0 - f0.start()]);
                            }
                        }
                        lemma_ledger_take(pairs0, (vpn, frame), m1, f0, f1, *old(self), *old(frames));
                        lemma_ledger_grow(pairs@, m1, f1, *self, f2, *old(self), *old(frames));
                    }
                    Self::release(frames, &pairs);
                    proof {
                        assert forall|u: int| 0 <= u < self.tcount() implies frames.holds(#[trigger] self.tppn(u)) by {
                            assert(f2.holds(self.tppn(u)));
                            assert forall|j: int| 0 <= j < pairs@.len() implies #[trigger] pairs@[j].1.0.0 != self.tppn(u) by {
                                if u < m1.tcount() {
                                    assert(self.tppn(u) == m1.tppn(u));
                                    if j < pairs0.len() {
                                        assert(pairs@[j] == pairs0[j]);
                                        assert(m1.tppn(u) != pairs0[j].1.0.0);
                                    } else {
                                        assert(m1.tppn(u) != ppn.0);
                                    }
                                } else {
                                    assert(!f1.holds(self.tppn(u)));
                                }
                            }
                        }
                        lemma_ledger_release(pairs@, *self, f2, *frames, *old(self), *old(frames));
                        lemma_count_none_free(f2.frames());
                        assert forall|p: int| first <= p < k implies (#[trigger] self.page_entry(p as usize)) is Some by {
                            assert(m1.page_entry(p as usize) == Some(entry_value(pairs0[p - first].1.0.0, flags.bits)));
                        }
                        assert(framed_exhausted(*self, *frames, first as int, k as int));
                    }
                    return Err(e);
                },
            }
            let ghost m2 = *self;
            let ghost f2 = *frames;
            let ghost pairs0 = pairs@;
            pairs.push((vpn, frame));
            proof {
                lemma_ledger_take(pairs0, (vpn, frame), m1, f0, f1, *old(self), *old(frames));
                lemma_ledger_grow(pairs@, m1, f1, m2, f2, *old(self), *old(frames));
                lemma_entry_nonzero(ppn.0, flags.bits);
                assert forall|j: int| 0 <= j < old(frames).frames().len() && old(frames).frames()[j] implies #[trigger] frames.frames()[j] by {
                    assert(f0.frames()[j]);
                    assert(f1.frames()[j]);
                }
                assert forall|v: usize| !in_pages(v, first as int, k + 1) implies #[trigger] self.page_entry(v) == old(self).page_entry(v) by {
                    if same_page(v, k) {
                        assert(same_page(v, k as int as usize));
                    }
                    if in_pages(v, first as int, k as int) {
                        let p = choose|p: int| first <= p < k && #[trigger] same_page(v, p as usize);
                        assert(first <= p < k + 1 && same_page(v, p as usize));
                    }
                }
                assert forall|p: int| first <= p < k + 1 implies #[trigger] self.page_entry(p as usize) == Some(entry_value(pairs@[p - first].1.0.0, flags.bits)) by {
                    assert(pairs@[p - first] == if p < k { pairs0[p - first] } else { (vpn, frame) });
                    if p < k {
                        assert(!same_page(p as usize, k as int as usize));
                        assert(m1.page_entry(p as usize) == Some(entry_value(pairs0[p - first].1.0.0, flags.bits)));
                    }
                }
                assert forall|j: int| 0 <= j < pairs@.len() implies (#[trigger] pairs@[j]).0.0 == first + j by {
                    if j < pairs0.len() {
                        assert(pairs@[j] == pairs0[j]);
                    }
                }
                assert forall|j: int| 0 <= j < pairs@.len() implies frames.holds(#[trigger] pairs@[j].1.0.0 as int) by {
                    if j < pairs0.len() {
                        assert(pairs@[j] == pairs0[j]);
                        assert(f0.holds(pairs0[j].1.0.0 as int));
                        assert(f1.holds(pairs0[j].1.0.0 as int));
                    }
                }
                assert forall|j: int| 0 <= j < pairs@.len() implies !old(frames).holds(#[trigger] pairs@[j].1.0.0 as int) by {
                    if j < pairs0.len() {
                        assert(pairs@[j] == pairs0[j]);
                    } else {
                        if old(frames).holds(ppn.0 as int) {
                            assert(f0.frames()[ppn.0 - f0.start()]);
                        }
                    }
                }
                assert forall|j: int, l: int| 0 <= j < pairs@.len() && 0 <= l < pairs@.len() && j != l
                    implies #[trigger] pairs@[j].1.0.0 != #[trigger] pairs@[l].1.0.0 by {
                    if j < pairs0.len() {
                        assert(pairs@[j] == pairs0[j]);
                        assert(f0.holds(pairs0[j].1.0.0 as int));
                    }
                    if l < pairs0.len() {
                        assert(pairs@[l] == pairs0[l]);
                        assert(f0.holds(pairs0[l].1.0.0 as int));
                    }
                }
                assert forall|j: int, u: int| 0 <= j < pairs@.len() && 0 <= u < self.tcount()
                    implies #[trigger] self.tppn(u) != #[trigger] pairs@[j].1.0.0 by {
                    if u < m1.tcount() {
                        assert(self.tppn(u) == m1.tppn(u));
                        if j < pairs0.len() {
                            assert(pairs@[j] == pairs0[j]);
                            assert(m1.tppn(u) != pairs0[j].1.0.0);
                        } else {
                            assert(f0.holds(m1.tppn(u)));
                        }
                    } else {
                        assert(!f1.holds(self.tppn(u)));
                        if j < pairs0.len() {
                            assert(pairs@[j] == pairs0[j]);
                            assert(f0.holds(pairs0[j].1.0.0 as int));
                            assert(f1.holds(pairs0[j].1.0.0 as int));
                        }
                    }
                }
            }
            k = k + 1;
        }
        Ok(pairs)
    }

    /// Add the mapping of `segment`: a linear one maps each page onto the
    /// page the kernel's linear mapping gives it and returns no frame; a
    /// framed one allocates a frame for each page, in page order, and
    /// returns the pairs. The segment's pages must be unmapped, and no two of
    /// them may select the same entries. Each page takes at most two new
    /// tables and, when framed, one frame: with that many frames free the
    /// mapping succeeds. Every frame taken is a new table's or, when framed,
    /// one of the returned pairs'. It fails only when frames run out: then
    /// every frame taken for a page goes back (the pages mapped so far keep
    /// their entries, as the tables added stay), and no frame is free but
    /// those. What the pages hold is the
    /// caller's business: zeroing each new frame and copying the segment's
    /// data in (see [`copy_window`]).
    pub fn map(&mut self, frames: &mut FrameAllocator, segment: &Segment)
        -> (r: MemoryResult<Vec<(VirtualPageNumber, FrameTracker)>>)
        requires
            old(self).well_formed(),
            old(frames).wf(),
            old(self).frames_held(*old(frames)),
            old(frames).start() + old(frames).frames().len() <= MAX_PAGE_NUMBER + 1,
            forall|p: int| segment.first_page() <= p < segment.end_page() ==> (#[trigger] old(self).page_entry(p as usize)) is None,
            distinct_pages(segment.first_page(), segment.end_page()),
            segment.map_type == MapType::Linear ==> segment.first_page() >= KERNEL_MAP_OFFSET / 4096,
        ensures
            final(self).well_formed(),
            final(frames).wf(),
            final(self).frames_held(*final(frames)),
            final(self).root() == old(self).root(),
            final(frames).start() == old(frames).start(),
            final(frames).frames().len() == old(frames).frames().len(),
            forall|v: usize| !in_pages(v, segment.first_page(), segment.end_page())
                ==> #[trigger] final(self).page_entry(v) == old(self).page_entry(v),
            match r {
                Ok(pairs) => if segment.map_type == MapType::Linear {
                    &&& pairs@.len() == 0
                    &&& forall|p: int| segment.first_page() <= p < segment.end_page()
                        ==> #[trigger] final(self).page_entry(p as usize)
                            == Some(entry_value(linear_page(p) as usize, segment.flags.bits | VALID))
                    &&& forall|p: int| segment.first_page() <= p < segment.end_page()
                        ==> (#[trigger] final(self).leaf_entry(p as usize) matches Some(e)
                            && e.entry_page_number() == linear_page(p)
                            && e.entry_flags() == segment.flags.bits | VALID)
                } else {
                    &&& pairs@.len() == segment.page_count()
                    &&& forall|j: int| 0 <= j < pairs@.len() ==> (#[trigger] pairs@[j]).0.0 == segment.first_page() + j
                        && final(self).page_entry((segment.first_page() + j) as usize)
                            == Some(entry_value(pairs@[j].1.0.0, segment.flags.bits | VALID))
                    &&& forall|j: int| 0 <= j < pairs@.len() ==> (#[trigger] final(self).leaf_entry((segment.first_page() + j) as usize)
                        matches Some(e) && e.entry_page_number() == pairs@[j].1.0.0
                            && e.entry_flags() == segment.flags.bits | VALID)
                    &&& fresh_frames(pairs@, *final(self), *final(frames), *old(frames))
                    &&& framed_ledger(pairs@, *final(self), *final(frames), *old(self), *old(frames))
                },
                Err(e) => e == crate::memory::frame_allocator::NO_FRAME
                    && final(self).grown_from(*final(frames), *old(self), *old(frames))
                    && if segment.map_type == MapType::Linear {
                        forall|j: int| 0 <= j < final(frames).frames().len() ==> #[trigger] final(frames).frames()[j]
                    } else {
                        exists|k: int| segment.first_page() <= k < segment.end_page()
                            && framed_exhausted(*final(self), *final(frames), segment.first_page(), k)
                    },
            },
            segment.map_type == MapType::Linear ==> final(self).grown_from(*final(frames), *old(self), *old(frames)),
            count_free(old(frames).frames()) >= (if segment.map_type == MapType::Linear { 2int } else { 3int })
                * segment.page_count() ==> r is Ok,
            segment.map_type == MapType::Linear
                && (forall|p: int| segment.first_page() <= p < segment.end_page() ==> (#[trigger] old(self).leaf_location(p as usize)) is Some)
                ==> r is Ok,
    {
        let flags = segment.flags.union(Flags::from_bits(VALID));
        proof {
            let b = segment.flags.bits;
            assert((b | 1u8) & 1u8 == 1u8) by (bit_vector);
        }
        let r = match segment.map_type {
            MapType::Linear => {
                match self.map_linear(frames, segment, flags) {
                    Ok(()) => Ok(Vec::new()),
                    Err(e) => Err(e),
                }
            },
            MapType::Framed => self.map_framed(frames, segment, flags),
        };
        proof {
            if r is Ok {
                if segment.map_type == MapType::Linear {
                    assert forall|p: int| segment.first_page() <= p < segment.end_page()
                        implies (#[trigger] self.leaf_entry(p as usize) matches Some(e)
                            && e.entry_page_number() == linear_page(p)
                            && e.entry_flags() == segment.flags.bits | VALID) by {
                        assert(p <= usize::MAX / 4096 + 1);
                        assert(usize::MAX == 0xffff_ffff_ffff_ffff);
                        lemma_page_entry_fields(*self, p as usize, linear_page(p) as usize, flags.bits);
                    }
                } else {
                    let pairs = r->Ok_0;
                    assert forall|j: int| 0 <= j < pairs@.len() implies (#[trigger] self.leaf_entry((segment.first_page() + j) as usize)
                        matches Some(e) && e.entry_page_number() == pairs@[j].1.0.0
                            && e.entry_flags() == segment.flags.bits | VALID) by {
                        assert(frames.holds(pairs@[j].1.0.0 as int));
                        lemma_page_entry_fields(*self, (segment.first_page() + j) as usize, pairs@[j].1.0.0, flags.bits);
                    }
                }
            }
        }
        r
    }

    /// The value of `satp` that activates this mapping: Sv39 mode (`8`) in
    /// the top four bits, the root table's page number below.
    pub fn satp(&self) -> (r: usize)
        requires
            self.well_formed(),
        ensures
            r == (self.root() as usize) | (8usize << 60usize),
    {
        self.root_ppn.0 | (8usize << 60usize)
    }

    /// Physical address that `va` is mapped to, following the tables from
    /// the root down to the first leaf, a huge page among them; a walk that
    /// meets an empty entry finds nothing.
    pub fn lookup(&self, va: VirtualAddress) -> (r: Option<PhysicalAddress>)
        requires
            self.walkable(),
        ensures
            match r {
                Some(pa) => self.physical(va.0) == Some(pa.0 as int),
                None => self.physical(va.0) is None,
            },
    {
        let vpn = VirtualPageNumber::floor(va);
        let levels = vpn.levels();
        proof {
            lemma_levels_bounded(vpn.0);
            assert(self.tent(0).len() == ENTRIES);
        }
        let mut entry = self.page_tables[0].entries[levels[0]];
        // bits of the address below the page the walk ends at
        let mut length: usize = 12 + 2 * 9;
        if entry.is_empty() {
            return None;
        }
        if entry.has_next_level() {
            proof {
                let l0 = vpn_level(vpn.0, 0) as int;
                assert(self.leads(0, l0));
                self.lemma_points_to(0, l0);
            }
            length = length - 9;
            let t1 = self.table_index(entry.page_number());
            proof {
                assert(self.tent(t1 as int).len() == ENTRIES);
            }
            entry = self.page_tables[t1].entries[levels[1]];
            if entry.is_empty() {
                return None;
            }
            if entry.has_next_level() {
                proof {
                    let l1 = vpn_level(vpn.0, 1) as int;
                    assert(self.leads(t1 as int, l1));
                    self.lemma_points_to(t1 as int, l1);
                }
                length = length - 9;
                let t2 = self.table_index(entry.page_number());
                proof {
                    assert(self.tent(t2 as int).len() == ENTRIES);
                }
                entry = self.page_tables[t2].entries[levels[2]];
            }
        }
        proof {
            let x = entry.value();
            assert(((((x as u64) >> 10u64) & 0xfff_ffff_ffffu64) as usize) as u64 <= 0xfff_ffff_ffffu64) by (bit_vector)
                requires usize::BITS == 64;
            let a = va.0;
            assert(1usize << 12usize == 4096) by (bit_vector);
            assert(a & 4095usize == a % 4096) by (bit_vector);
            assert((1usize << 21usize) - 1 == 0x1f_ffffusize) by (bit_vector);
            assert(a & 0x1f_ffffusize == a % 0x20_0000) by (bit_vector);
            assert((1usize << 30usize) - 1 == 0x3fff_ffffusize) by (bit_vector)
                requires usize::BITS == 64;
            assert(a & 0x3fff_ffffusize == a % 0x4000_0000) by (bit_vector);
        }
        if entry.is_empty() {
            return None;
        }
        let base = entry.address().0;
        let offset = va.0 & ((1usize << length) - 1);
        Some(PhysicalAddress(base + offset))
    }
}

/// What a page's mapping holds, field by field: when the raw entry of page
/// `v` is the one that maps it onto frame `ppn` with `flags`, the page's
/// last-level entry names frame `ppn` and carries exactly `flags`.
pub proof fn lemma_page_entry_fields(m: Mapping, v: usize, ppn: usize, flags: u8)
    requires
        m.well_formed(),
        m.page_entry(v) == Some(entry_value(ppn, flags)),
        ppn as u64 <= MAX_PAGE_NUMBER,
    ensures
        m.leaf_entry(v) matches Some(e) && e.entry_page_number() == ppn && e.entry_flags() == flags,
{
    let e = m.leaf_entry(v)->0;
    e.lemma_round_trip(ppn, flags);
}

/// A page whose entry maps it onto frame `ppn` has every one of
/// its addresses looked up in that frame, at the same offset.
pub proof fn lemma_lookup_after_map(m: Mapping, va: usize, ppn: usize, flags: u8)
    requires
        m.well_formed(),
        m.page_entry(va / PAGE_SIZE) == Some(entry_value(ppn, flags)),
        ppn as u64 <= MAX_PAGE_NUMBER,
    ensures
        m.physical(va) == Some(ppn * PAGE_SIZE + va % PAGE_SIZE),
{
    let vpn = va / PAGE_SIZE;
    m.lemma_well_formed_walkable();
    m.lemma_leaf_location(vpn);
    lemma_levels_bounded(vpn);
    let l0 = vpn_level(vpn, 0) as int;
    let l1 = vpn_level(vpn, 1) as int;
    assert(m.leads(0, l0));
    m.lemma_leads_to(0, l0);
    let t1 = m.table_of(m.tent(0)[l0].entry_page_number() as int);
    assert(m.leads(t1, l1));
    let f = flags as usize;
    assert(((((f | (ppn << 10usize)) as u64) >> 10u64) & 0xfff_ffff_ffffu64) as usize == ppn) by (bit_vector)
        requires ppn as u64 <= 0xfff_ffff_ffffu64, f < 256usize, usize::BITS == 64;
}

/// Unmapping a segment undoes mapping it: every page has the entry it had
/// before the segment was mapped. `m1` is the mapping before `map`, `m2`
/// after it, and `m3` after `unmap` of the same segment.
pub proof fn lemma_unmap_undoes_map(m1: Mapping, m2: Mapping, m3: Mapping, segment: Segment)
    requires
        forall|p: int| segment.first_page() <= p < segment.end_page() ==> (#[trigger] m1.page_entry(p as usize)) is None,
        forall|v: usize| !in_pages(v, segment.first_page(), segment.end_page())
            ==> #[trigger] m2.page_entry(v) == m1.page_entry(v),
        forall|v: usize| #[trigger] m3.page_entry(v) == if in_pages(v, segment.first_page(), segment.end_page()) {
            None
        } else {
            m2.page_entry(v)
        },
    ensures
        forall|v: usize| #[trigger] m3.page_entry(v) == m1.page_entry(v),
{
    assert forall|v: usize| #[trigger] m3.page_entry(v) == m1.page_entry(v) by {
        if in_pages(v, segment.first_page(), segment.end_page()) {
            let p = choose|p: int| segment.first_page() <= p < segment.end_page() && #[trigger] same_page(v, p as usize);
            m1.lemma_same_page_entry(v, p as usize);
            assert(m1.page_entry(p as usize) is None);
        }
    }
}

/// Where the data of a segment over `range` goes in its page `vpn`: the
/// bytes `start .. stop` of the page take the bytes `src_start .. src_stop`
/// of the data. Only the first page can start after its beginning, and only
/// the last can stop before its end.
pub fn copy_window(range: Range<VirtualAddress>, vpn: VirtualPageNumber) -> (r: (usize, usize, usize, usize))
    requires
        range.start.0 <= range.end.0,
        range.start.0 / PAGE_SIZE <= vpn.0,
        vpn.0 * PAGE_SIZE < range.end.0,
    ensures
        r.0 == if range.start.0 > vpn.0 * PAGE_SIZE { range.start.0 - vpn.0 * PAGE_SIZE } else { 0 },
        r.1 == if PAGE_SIZE <= range.end.0 - vpn.0 * PAGE_SIZE { PAGE_SIZE as int } else { range.end.0 - vpn.0 * PAGE_SIZE },
        r.2 == vpn.0 * PAGE_SIZE + r.0 - range.start.0,
        r.3 == vpn.0 * PAGE_SIZE + r.1 - range.start.0,
        r.0 <= r.1 <= PAGE_SIZE,
{
    let page_address = VirtualAddress::from_page_number(vpn).0;
    let start = if range.start.0 > page_address { range.start.0 - page_address } else { 0 };
    let stop = PAGE_SIZE.min(range.end.0 - page_address);
    proof {
        assert(range.start.0 < page_address + PAGE_SIZE) by (nonlinear_arith)
            requires range.start.0 / 4096 <= vpn.0, page_address == vpn.0 * 4096;
    }
    (start, stop, page_address + start - range.start.0, page_address + stop - range.start.0)
}

} // verus!
