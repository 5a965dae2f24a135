//! [`FreeListAllocator`]: one list of free ranges and one of handed-out items.

use vstd::prelude::*;
use vstd::set_lib::{set_int_range, lemma_int_range, lemma_len_subset};
use crate::allocator::Allocator;

verus! {

/// Frame allocator built on two lists of half-open ranges `(start, end)`:
/// `free_list` holds what can still be handed out (no range of it is
/// empty), `used_list` one `(index, index + 1)` entry per handed-out item.
pub struct FreeListAllocator {
    used_list: Vec<(usize, usize)>,
    free_list: Vec<(usize, usize)>,
}

impl FreeListAllocator {
    /// The ranges of handed-out items, oldest first.
    pub closed spec fn used(&self) -> Seq<(usize, usize)> {
        self.used_list@
    }

    /// The free ranges; the last one is handed out from first.
    pub closed spec fn free(&self) -> Seq<(usize, usize)> {
        self.free_list@
    }
}

/// Free list after taking the first item of its last range `(s, e)`: the range
/// becomes `(s + 1, e)`, or disappears when it held one item.
pub open spec fn free_after_alloc(free: Seq<(usize, usize)>) -> Seq<(usize, usize)> {
    let (s, e) = free.last();
    if e - s > 1 {
        free.drop_last().push(((s + 1) as usize, e))
    } else {
        free.drop_last()
    }
}

/// The items that the ranges of `free` cover.
pub open spec fn free_items(free: Seq<(usize, usize)>) -> Set<int> {
    Set::new(|x: int| exists|i: int| 0 <= i < free.len() && (#[trigger] free[i]).0 <= x < free[i].1)
}

/// Giving back the item that the last allocation took leaves the used list
/// as it was and the free ranges covering the same items.
pub proof fn lemma_dealloc_undoes_allocate(free: Seq<(usize, usize)>, used: Seq<(usize, usize)>)
    requires
        free.len() > 0,
        free.last().0 < free.last().1,
    ensures
        used.push((free.last().0, (free.last().0 + 1) as usize)).drop_last() == used,
        free_items(free_after_alloc(free).push((free.last().0, (free.last().0 + 1) as usize))) == free_items(free),
{
    let (s, e) = free.last();
    let n = free.len() - 1;
    let g = free_after_alloc(free).push((s, (s + 1) as usize));
    assert(used.push((s, (s + 1) as usize)).drop_last() =~= used);
    assert forall|x: int| free_items(g).contains(x) implies free_items(free).contains(x) by {
        let i = choose|i: int| 0 <= i < g.len() && (#[trigger] g[i]).0 <= x < g[i].1;
        if i < n {
            assert(g[i] == free[i]);
        } else {
            assert(free[n].0 <= x < free[n].1);
        }
    }
    assert forall|x: int| free_items(free).contains(x) implies free_items(g).contains(x) by {
        let i = choose|i: int| 0 <= i < free.len() && (#[trigger] free[i]).0 <= x < free[i].1;
        if i < n {
            assert(g[i] == free[i]);
        } else if x == s {
            assert(g[g.len() - 1] == (s, (s + 1) as usize));
        } else {
            assert(g[n] == ((s + 1) as usize, e));
        }
    }
    assert(free_items(g) =~= free_items(free));
}

/// No two ranges of `free` share an item.
pub open spec fn ranges_disjoint(free: Seq<(usize, usize)>) -> bool {
    forall|i: int, j: int| 0 <= i < free.len() && 0 <= j < free.len() && i != j
        ==> #[trigger] free[i].1 <= #[trigger] free[j].0 || free[j].1 <= free[i].0
}

/// The handed-out items.
pub open spec fn used_items(used: Seq<(usize, usize)>) -> Set<int> {
    Set::new(|x: int| exists|i: int| 0 <= i < used.len() && (#[trigger] used[i]).0 == x)
}

/// No item is counted twice: the free ranges share no item, no item is both
/// free and handed out, and no item is handed out twice.
pub open spec fn no_overlap(free: Seq<(usize, usize)>, used: Seq<(usize, usize)>) -> bool {
    &&& ranges_disjoint(free)
    &&& free_items(free).disjoint(used_items(used))
    &&& forall|i: int, j: int| 0 <= i < used.len() && 0 <= j < used.len() && i != j
        ==> (#[trigger] used[i]).0 != (#[trigger] used[j]).0
}

/// Every range of `free` holds at least one item.
pub open spec fn ranges_nonempty(free: Seq<(usize, usize)>) -> bool {
    forall|i: int| 0 <= i < free.len() ==> (#[trigger] free[i]).0 < free[i].1
}

/// The free items are finitely many.
pub proof fn lemma_free_items_finite(free: Seq<(usize, usize)>)
    ensures
        free_items(free).finite(),
{
    lemma_int_range(0, usize::MAX + 1);
    assert(free_items(free).subset_of(set_int_range(0, usize::MAX + 1)));
    lemma_len_subset(free_items(free), set_int_range(0, usize::MAX + 1));
}

/// An allocation hands out one free item and no other: when nothing is
/// counted twice, the first item `s` of the last range is free and not
/// handed out, afterwards the free items are the ones before but `s`, one
/// fewer, and still nothing is counted twice.
pub proof fn lemma_allocation_takes_one_item(free: Seq<(usize, usize)>, used: Seq<(usize, usize)>)
    requires
        free.len() > 0,
        ranges_nonempty(free),
        no_overlap(free, used),
    ensures
        ({
            let s = free.last().0;
            let after = free_after_alloc(free);
            &&& free_items(free).contains(s as int)
            &&& !used_items(used).contains(s as int)
            &&& free_items(after) == free_items(free).remove(s as int)
            &&& free_items(after).len() + 1 == free_items(free).len()
            &&& ranges_nonempty(after)
            &&& no_overlap(after, used.push((s, (s + 1) as usize)))
        }),
{
    let n = free.len() - 1;
    let (s, e) = free.last();
    let after = free_after_alloc(free);
    let nu = used.push((s, (s + 1) as usize));
    assert(free[n] == (s, e));
    assert(free_items(free).contains(s as int));
    assert forall|i: int| 0 <= i < after.len() implies (#[trigger] after[i]).0 < after[i].1
        && (i < n ==> after[i] == free[i]) && (i == n ==> after[i] == ((s + 1) as usize, e) && e - s > 1) by {
    }
    // the items of `after` are those of `free` but `s`
    assert forall|x: int| free_items(after).contains(x) <==> free_items(free).remove(s as int).contains(x) by {
        if free_items(after).contains(x) {
            let i = choose|i: int| 0 <= i < after.len() && (#[trigger] after[i]).0 <= x < after[i].1;
            if i < n {
                assert(free[i].1 <= free[n].0 || free[n].1 <= free[i].0);
            }
        }
        if free_items(free).contains(x) && x != s {
            let i = choose|i: int| 0 <= i < free.len() && (#[trigger] free[i]).0 <= x < free[i].1;
            if i < n {
                assert(after[i] == free[i]);
            } else {
                assert(after[n].0 <= x < after[n].1);
            }
        }
    }
    assert(free_items(after) =~= free_items(free).remove(s as int));
    lemma_free_items_finite(free);
    assert forall|i: int, j: int| 0 <= i < after.len() && 0 <= j < after.len() && i != j
        implies #[trigger] after[i].1 <= #[trigger] after[j].0 || after[j].1 <= after[i].0 by {
        assert(free[i].1 <= free[j].0 || free[j].1 <= free[i].0);
    }
    assert(!used_items(used).contains(s as int));
    assert forall|x: int| free_items(after).contains(x) implies !used_items(nu).contains(x) by {
        assert(free_items(free).contains(x));
        if used_items(nu).contains(x) {
            let i = choose|i: int| 0 <= i < nu.len() && (#[trigger] nu[i]).0 == x;
            if i < used.len() {
                assert(used[i] == nu[i]);
                assert(used_items(used).contains(x));
            }
        }
    }
    assert forall|i: int, j: int| 0 <= i < nu.len() && 0 <= j < nu.len() && i != j
        implies (#[trigger] nu[i]).0 != (#[trigger] nu[j]).0 by {
        if i < used.len() && j < used.len() {
            assert(nu[i] == used[i] && nu[j] == used[j]);
        } else if i < used.len() {
            assert(nu[i] == used[i]);
            assert(used_items(used).contains(used[i].0 as int));
        } else {
            assert(nu[j] == used[j]);
            assert(used_items(used).contains(used[j].0 as int));
        }
    }
}

/// Giving back a handed-out item makes exactly that item free again: when
/// nothing is counted twice and `index` is handed out, moving its entry to
/// the free list adds `index` to the free items, which did not hold it, and
/// still nothing is counted twice.
pub proof fn lemma_dealloc_returns_item(free: Seq<(usize, usize)>, used: Seq<(usize, usize)>, index: usize)
    requires
        no_overlap(free, used),
        is_used(used, index),
        forall|i: int| 0 <= i < used.len() ==> (#[trigger] used[i]).1 == used[i].0 + 1,
    ensures
        ({
            let i = first_use(used, index);
            let nf = free.push(used[i]);
            &&& !free_items(free).contains(index as int)
            &&& free_items(nf) == free_items(free).insert(index as int)
            &&& no_overlap(nf, used.remove(i))
        }),
{
    lemma_first_use_exists(used, index);
    let i = first_use(used, index);
    let nf = free.push(used[i]);
    let nu = used.remove(i);
    let n = free.len() as int;
    assert(used_items(used).contains(index as int));
    assert(nf[n] == used[i]);
    assert forall|x: int| free_items(nf).contains(x) <==> free_items(free).insert(index as int).contains(x) by {
        if free_items(nf).contains(x) {
            let k = choose|k: int| 0 <= k < nf.len() && (#[trigger] nf[k]).0 <= x < nf[k].1;
            if k < n {
                assert(nf[k] == free[k]);
            }
        }
        if free_items(free).contains(x) {
            let k = choose|k: int| 0 <= k < free.len() && (#[trigger] free[k]).0 <= x < free[k].1;
            assert(nf[k] == free[k]);
        }
        if x == index {
            assert(nf[n].0 <= x < nf[n].1);
        }
    }
    assert(free_items(nf) =~= free_items(free).insert(index as int));
    assert forall|a: int, b: int| 0 <= a < nf.len() && 0 <= b < nf.len() && a != b
        implies #[trigger] nf[a].1 <= #[trigger] nf[b].0 || nf[b].1 <= nf[a].0 by {
        if a < n && b < n {
            assert(nf[a] == free[a] && nf[b] == free[b]);
        } else if a < n {
            assert(nf[a] == free[a]);
            if !(free[a].1 <= used[i].0 || used[i].1 <= free[a].0) {
                assert(free_items(free).contains(index as int));
            }
        } else {
            assert(nf[b] == free[b]);
            if !(free[b].1 <= used[i].0 || used[i].1 <= free[b].0) {
                assert(free_items(free).contains(index as int));
            }
        }
    }
    assert forall|x: int| free_items(nf).contains(x) implies !used_items(nu).contains(x) by {
        if used_items(nu).contains(x) {
            let k = choose|k: int| 0 <= k < nu.len() && (#[trigger] nu[k]).0 == x;
            let k0 = if k < i { k } else { k + 1 };
            assert(nu[k] == used[k0]);
            assert(used_items(used).contains(x));
            if x == index {
                assert(used[k0].0 == used[i].0);
            }
        }
    }
    assert forall|a: int, b: int| 0 <= a < nu.len() && 0 <= b < nu.len() && a != b
        implies (#[trigger] nu[a]).0 != (#[trigger] nu[b]).0 by {
        let a0 = if a < i { a } else { a + 1 };
        let b0 = if b < i { b } else { b + 1 };
        assert(nu[a] == used[a0] && nu[b] == used[b0]);
    }
}

/// `i` is the first entry of `used` that records `index`.
pub open spec fn is_first_use(used: Seq<(usize, usize)>, index: usize, i: int) -> bool {
    &&& 0 <= i < used.len()
    &&& used[i].0 == index
    &&& forall|k: int| 0 <= k < i ==> (#[trigger] used[k]).0 != index
}

/// Some entry of `used` records `index`.
pub open spec fn is_used(used: Seq<(usize, usize)>, index: usize) -> bool {
    exists|i: int| 0 <= i < used.len() && (#[trigger] used[i]).0 == index
}

/// The first entry of `used` that records `index`.
pub open spec fn first_use(used: Seq<(usize, usize)>, index: usize) -> int {
    choose|i: int| is_first_use(used, index, i)
}

/// A recorded index has a first entry.
proof fn lemma_first_use_exists(used: Seq<(usize, usize)>, index: usize)
    requires
        is_used(used, index),
    ensures
        is_first_use(used, index, first_use(used, index)),
    decreases used.len(),
{
    if used.last().0 == index && !is_used(used.drop_last(), index) {
        assert forall|k: int| 0 <= k < used.len() - 1 implies (#[trigger] used[k]).0 != index by {
            assert(used.drop_last()[k] == used[k]);
        }
        assert(is_first_use(used, index, used.len() - 1));
    } else {
        let d = used.drop_last();
        if !is_used(d, index) {
            let i = choose|i: int| 0 <= i < used.len() && (#[trigger] used[i]).0 == index;
            if i < used.len() - 1 {
                assert(d[i] == used[i]);
            }
            assert(false);
        }
        lemma_first_use_exists(d, index);
        let i = first_use(d, index);
        assert forall|k: int| 0 <= k < i implies (#[trigger] used[k]).0 != index by {
            assert(d[k] == used[k]);
        }
        assert(d[i] == used[i]);
        assert(is_first_use(used, index, i));
    }
}

impl Allocator for FreeListAllocator {
    open spec fn wf(&self) -> bool {
        &&& forall|i: int| 0 <= i < self.free().len() ==> {
            let (s, e) = #[trigger] self.free()[i];
            s < e
        }
        &&& forall|i: int| 0 <= i < self.used().len() ==> {
            let (s, e) = #[trigger] self.used()[i];
            e == s + 1
        }
    }

    open spec fn new_requires(capacity: usize) -> bool {
        true
    }

    open spec fn dealloc_requires(&self, index: usize) -> bool {
        true
    }

    /// The items `0 .. capacity` free, nothing handed out.
    fn new(capacity: usize) -> (r: Self)
        ensures
            r.used() == Seq::<(usize, usize)>::empty(),
            r.free() == if capacity == 0 { Seq::<(usize, usize)>::empty() } else { seq![(0usize, capacity)] },
            no_overlap(r.free(), r.used()),
            free_items(r.free()) == set_int_range(0, capacity as int),
    {
        let mut free_list: Vec<(usize, usize)> = vec![];
        if capacity > 0 {
            free_list.push((0, capacity));
        }
        let r = Self { used_list: vec![], free_list };
        assert(r.free() =~= if capacity == 0 { Seq::<(usize, usize)>::empty() } else { seq![(0usize, capacity)] });
        proof {
            assert forall|x: int| free_items(r.free()).contains(x) <==> set_int_range(0, capacity as int).contains(x) by {
                if 0 <= x < capacity {
                    assert(r.free()[0].0 <= x < r.free()[0].1);
                }
            }
            assert(free_items(r.free()) =~= set_int_range(0, capacity as int));
            assert(used_items(r.used()) =~= Set::<int>::empty());
        }
        r
    }

    /// Takes the first item of the last free range; `None` when no item is
    /// free.
    fn allocate(&mut self) -> (r: Option<usize>)
        ensures
            old(self).free().len() == 0 ==> r is None && final(self).free() == old(self).free()
                && final(self).used() == old(self).used(),
            old(self).free().len() > 0 ==> {
                let s = old(self).free().last().0;
                &&& r == Some(s)
                &&& final(self).free() == free_after_alloc(old(self).free())
                &&& final(self).used() == old(self).used().push((s, (s + 1) as usize))
            },
            r matches Some(s) ==> free_items(old(self).free()).contains(s as int),
            r is None ==> free_items(old(self).free()) == Set::<int>::empty(),
            no_overlap(old(self).free(), old(self).used()) ==> {
                &&& no_overlap(final(self).free(), final(self).used())
                &&& r matches Some(s) ==> {
                    &&& !used_items(old(self).used()).contains(s as int)
                    &&& free_items(final(self).free()) == free_items(old(self).free()).remove(s as int)
                    &&& free_items(final(self).free()).len() + 1 == free_items(old(self).free()).len()
                }
            },
    {
        proof {
            if old(self).free().len() > 0 {
                assert(old(self).free()[old(self).free().len() - 1] == old(self).free().last());
                if no_overlap(old(self).free(), old(self).used()) {
                    lemma_allocation_takes_one_item(old(self).free(), old(self).used());
                }
            } else {
                assert(free_items(old(self).free()) =~= Set::<int>::empty());
            }
        }
        if let Some((start, end)) = self.free_list.pop() {
            proof {
                assert(old(self).free()[old(self).free().len() - 1] == (start, end));
            }
            if end - start > 1 {
                self.free_list.push((start + 1, end));
            }
            self.used_list.push((start, start + 1));
            proof {
                assert forall|i: int| 0 <= i < self.used().len() implies {
                    let (s, e) = #[trigger] self.used()[i];
                    e == s + 1
                } by {
                    if i < old(self).used().len() {
                        assert(self.used()[i] == old(self).used()[i]);
                    }
                }
                assert forall|i: int| 0 <= i < self.free().len() implies {
                    let (s, e) = #[trigger] self.free()[i];
                    s < e
                } by {
                    if i < old(self).free().len() - 1 {
                        assert(self.free()[i] == old(self).free()[i]);
                    }
                }
            }
            Some(start)
        } else {
            proof {
                assert(self.free() == old(self).free());
                assert(self.used() == old(self).used());
            }
            None
        }
    }

    /// Gives an item back: its first entry in the used list moves to the
    /// free list; an index that is not handed out leaves the allocator as it
    /// was.
    fn dealloc(&mut self, index: usize)
        ensures
            is_used(old(self).used(), index) ==> {
                let i = first_use(old(self).used(), index);
                &&& final(self).used() == old(self).used().remove(i)
                &&& final(self).free() == old(self).free().push(old(self).used()[i])
            },
            !is_used(old(self).used(), index) ==> {
                &&& final(self).used() == old(self).used()
                &&& final(self).free() == old(self).free()
            },
            no_overlap(old(self).free(), old(self).used()) ==> {
                &&& no_overlap(final(self).free(), final(self).used())
                &&& is_used(old(self).used(), index) ==> !free_items(old(self).free()).contains(index as int)
                    && free_items(final(self).free()) == free_items(old(self).free()).insert(index as int)
            },
    {
        let n = self.used_list.len();
        let mut i: usize = 0;
        while i < n
            invariant
                n == old(self).used().len(),
                i <= n,
                old(self).wf(),
                self.used() == old(self).used(),
                self.free() == old(self).free(),
                forall|k: int| 0 <= k < i ==> (#[trigger] old(self).used()[k]).0 != index,
            decreases n - i,
        {
            let (start, end) = self.used_list[i];
            if start == index {
                proof {
                    assert(is_first_use(old(self).used(), index, i as int));
                    lemma_first_use_exists(old(self).used(), index);
                    let f = first_use(old(self).used(), index);
                    if f < i {
                        assert(old(self).used()[f].0 != index);
                    }
                    if f > i {
                        assert(old(self).used()[i as int].0 != index);
                    }
                }
                self.used_list.remove(i);
                self.free_list.push((start, end));
                proof {
                    assert forall|k: int| 0 <= k < self.used().len() implies {
                        let (s, e) = #[trigger] self.used()[k];
                        e == s + 1
                    } by {
                        if k < i {
                            assert(self.used()[k] == old(self).used()[k]);
                        } else {
                            assert(self.used()[k] == old(self).used()[k + 1]);
                        }
                    }
                    assert forall|k: int| 0 <= k < self.free().len() implies {
                        let (s, e) = #[trigger] self.free()[k];
                        s < e
                    } by {
                        if k < old(self).free().len() {
                            assert(self.free()[k] == old(self).free()[k]);
                        } else {
                            assert(self.free()[k] == old(self).used()[i as int]);
                        }
                    }
                    assert(self.free() =~= old(self).free().push(old(self).used()[first_use(old(self).used(), index)]));
                    assert(self.used() =~= old(self).used().remove(first_use(old(self).used(), index)));
                    if no_overlap(old(self).free(), old(self).used()) {
                        lemma_dealloc_returns_item(old(self).free(), old(self).used(), index);
                    }
                }
                return;
            }
            i = i + 1;
        }
        proof {
            assert(!is_used(old(self).used(), index));
        }
    }
}

} // verus!
