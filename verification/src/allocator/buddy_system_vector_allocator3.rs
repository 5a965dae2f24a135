//! [`BuddySystemVectorAllocator`] over fixed tables of block slots.
//!
//! Level `k` has `MAX_BLOCK_LIST_SIZE` slots; a slot either holds a free
//! block (`start`, `size`, both bytes) or is empty. Taking a block takes the
//! one in the first occupied slot, giving one back puts it in the first
//! empty slot (and drops it when there is none).

use vstd::prelude::*;
use vstd::arithmetic::power2::{pow2, lemma_pow2_pos, lemma_pow2_unfold, lemma_pow2_strictly_increases};
use crate::allocator::VectorAllocator;
use crate::allocator::buddy_system_vector_allocator2;
use crate::allocator::buddy_system_vector_allocator2::{apart, lemma_apart_union};
use crate::bits::{
    ceil_log2, is_power_of_two, lemma_ceil_log2, lemma_ceil_log2_of_pow2, lemma_pow2_injective,
    next_power_of_two, lemma2_pow_bound, lemma_pow2_aligned_below,
};

verus! {

/// Number of levels.
pub const MAX_LIST_SIZE: usize = 10;

/// Number of slots per level.
pub const MAX_BLOCK_LIST_SIZE: usize = 512;

/// Block slot of the buddy system.
#[derive(Copy, Clone)]
pub struct Block {
    start: u8,
    size: u8,
    is_exist: bool,
}

/// What a slot holds: `(start, size)` of its block, or `None` when empty.
pub closed spec fn slot_view(b: Block) -> Option<(u8, u8)> {
    if b.is_exist {
        Some((b.start, b.size))
    } else {
        None
    }
}

impl Block {
    /// An empty slot.
    fn new() -> (r: Self)
        ensures
            slot_view(r) is None,
    {
        Self { start: 0, size: 0, is_exist: false }
    }
}

/// Buddy system vector allocator with fixed tables.
pub struct BuddySystemVectorAllocator {
    capacity: usize,
    list_size: usize,
    list: Vec<Vec<Block>>,
}

/// No slot holds a block.
pub open spec fn no_block(s: Seq<Option<(u8, u8)>>) -> bool {
    forall|i: int| 0 <= i < s.len() ==> #[trigger] s[i] is None
}

/// Slot `i` is the first that holds a block.
pub open spec fn is_first_block(s: Seq<Option<(u8, u8)>>, i: int) -> bool {
    &&& 0 <= i < s.len()
    &&& s[i] is Some
    &&& forall|j: int| 0 <= j < i ==> #[trigger] s[j] is None
}

/// Slot `i` is the first empty one.
pub open spec fn is_first_free(s: Seq<Option<(u8, u8)>>, i: int) -> bool {
    &&& 0 <= i < s.len()
    &&& s[i] is None
    &&& forall|j: int| 0 <= j < i ==> #[trigger] s[j] is Some
}

/// The first slot that holds a block.
pub open spec fn first_block(s: Seq<Option<(u8, u8)>>) -> int {
    choose|i: int| is_first_block(s, i)
}

/// The first empty slot.
pub open spec fn first_free(s: Seq<Option<(u8, u8)>>) -> int {
    choose|i: int| is_first_free(s, i)
}

/// Slots after giving back `b`: it fills the first empty slot; with none
/// empty it is dropped.
pub open spec fn push_slots(s: Seq<Option<(u8, u8)>>, b: (u8, u8)) -> Seq<Option<(u8, u8)>> {
    if exists|i: int| 0 <= i < s.len() && #[trigger] s[i] is None {
        s.update(first_free(s), Some(b))
    } else {
        s
    }
}

proof fn lemma_first_block_exists(s: Seq<Option<(u8, u8)>>)
    requires
        !no_block(s),
    ensures
        is_first_block(s, first_block(s)),
    decreases s.len(),
{
    if s[0] is Some {
        assert(is_first_block(s, 0));
    } else {
        let t = s.drop_first();
        assert(!no_block(t)) by {
            let i = choose|i: int| 0 <= i < s.len() && !(#[trigger] s[i] is None);
            assert(t[i - 1] == s[i]);
        }
        lemma_first_block_exists(t);
        let k = first_block(t);
        assert forall|j: int| 0 <= j < k + 1 implies #[trigger] s[j] is None by {
            if j > 0 {
                assert(s[j] == t[j - 1]);
            }
        }
        assert(is_first_block(s, k + 1));
    }
}

proof fn lemma_first_free_exists(s: Seq<Option<(u8, u8)>>)
    requires
        exists|i: int| 0 <= i < s.len() && #[trigger] s[i] is None,
    ensures
        is_first_free(s, first_free(s)),
    decreases s.len(),
{
    if s[0] is None {
        assert(is_first_free(s, 0));
    } else {
        let t = s.drop_first();
        let i = choose|i: int| 0 <= i < s.len() && #[trigger] s[i] is None;
        assert(t[i - 1] is None);
        lemma_first_free_exists(t);
        let k = first_free(t);
        assert forall|j: int| 0 <= j < k + 1 implies #[trigger] s[j] is Some by {
            if j > 0 {
                assert(s[j] == t[j - 1]);
            }
        }
        assert(is_first_free(s, k + 1));
    }
}

/// Slot `o` holds a block that starts at `x`.
pub open spec fn starts_at(o: Option<(u8, u8)>, x: int) -> bool {
    o matches Some(p) && p.0 == x
}

/// Start of the buddy of block `b`: the other half of the block of twice
/// its size, aligned to twice its size, that `b` is a half of.
pub open spec fn slot_buddy_start(b: (u8, u8)) -> int {
    if (b.0 as int) % (2 * b.1) == 0 {
        b.0 + b.1
    } else {
        b.0 - b.1
    }
}

/// The block of twice the size that `b` and its buddy make up.
pub open spec fn slot_parent(b: (u8, u8)) -> (u8, u8) {
    if (b.0 as int) % (2 * b.1) == 0 {
        (b.0, (2 * b.1) as u8)
    } else {
        ((b.0 - b.1) as u8, (2 * b.1) as u8)
    }
}

/// `j` is the first slot of `s` that holds the buddy of `b`.
pub open spec fn is_first_slot_buddy(s: Seq<Option<(u8, u8)>>, b: (u8, u8), j: int) -> bool {
    &&& 0 <= j < s.len()
    &&& starts_at(s[j], slot_buddy_start(b))
    &&& forall|i: int| 0 <= i < j ==> !starts_at(#[trigger] s[i], slot_buddy_start(b))
}

/// Some slot of `s` holds the buddy of `b`.
pub open spec fn has_slot_buddy(s: Seq<Option<(u8, u8)>>, b: (u8, u8)) -> bool {
    exists|j: int| 0 <= j < s.len() && starts_at(#[trigger] s[j], slot_buddy_start(b))
}

/// The first slot of `s` that holds the buddy of `b`.
pub open spec fn first_slot_buddy(s: Seq<Option<(u8, u8)>>, b: (u8, u8)) -> int {
    choose|j: int| is_first_slot_buddy(s, b, j)
}

/// The slots after giving back `b` to level `k` of an allocator that uses
/// `ls` levels. When the level holds the buddy of `b` and a level above is
/// in use, the buddy leaves its slot and the block they make up is given
/// back one level up. A block given back to the top level in use when that
/// level already holds one (the whole capacity is free) is dropped.
/// Otherwise `b` fills the first empty slot of level `k` (and is dropped
/// when there is none).
pub open spec fn slots_after_free(lists: Seq<Seq<Option<(u8, u8)>>>, b: (u8, u8), k: int, ls: int) -> Seq<
    Seq<Option<(u8, u8)>>,
>
    decreases ls - k,
{
    if k < 0 || k >= lists.len() {
        lists
    } else if k + 1 >= ls && !no_block(lists[k]) {
        lists
    } else if k + 1 >= ls || !has_slot_buddy(lists[k], b) {
        lists.update(k, push_slots(lists[k], b))
    } else {
        slots_after_free(
            lists.update(k, lists[k].update(first_slot_buddy(lists[k], b), None)),
            slot_parent(b),
            k + 1,
            ls,
        )
    }
}

proof fn lemma_first_slot_buddy_exists(s: Seq<Option<(u8, u8)>>, b: (u8, u8))
    requires
        has_slot_buddy(s, b),
    ensures
        is_first_slot_buddy(s, b, first_slot_buddy(s, b)),
    decreases s.len(),
{
    let d = s.drop_last();
    if has_slot_buddy(d, b) {
        lemma_first_slot_buddy_exists(d, b);
        let j = first_slot_buddy(d, b);
        assert forall|i: int| 0 <= i < j implies !starts_at(#[trigger] s[i], slot_buddy_start(b)) by {
            assert(d[i] == s[i]);
        }
        assert(d[j] == s[j]);
        assert(is_first_slot_buddy(s, b, j));
    } else {
        let j = choose|j: int| 0 <= j < s.len() && starts_at(#[trigger] s[j], slot_buddy_start(b));
        if j < s.len() - 1 {
            assert(d[j] == s[j]);
            assert(false);
        }
        assert forall|i: int| 0 <= i < s.len() - 1 implies !starts_at(#[trigger] s[i], slot_buddy_start(b)) by {
            assert(d[i] == s[i]);
        }
        assert(is_first_slot_buddy(s, b, s.len() - 1));
    }
}

impl BuddySystemVectorAllocator {
    /// The slots of every level.
    pub closed spec fn lists(&self) -> Seq<Seq<Option<(u8, u8)>>> {
        self.list@.map_values(|v: Vec<Block>| v@.map_values(|b: Block| slot_view(b)))
    }

    /// Every slot as stored: an empty one keeps the start and size it last
    /// held.
    closed spec fn raw(&self) -> Seq<Seq<Block>> {
        self.list@.map_values(|v: Vec<Block>| v@)
    }

    /// Number of items the allocator manages.
    pub closed spec fn capacity_spec(&self) -> nat {
        self.capacity as nat
    }

    /// Number of levels in use.
    pub closed spec fn list_count(&self) -> int {
        self.list_size as int
    }

    /// The tables' shape: the capacity is the size of a block of the top
    /// level in use, and fits in a byte with room to spare.
    pub closed spec fn well_formed(&self) -> bool {
        &&& 1 <= self.list_size <= MAX_LIST_SIZE
        &&& is_power_of_two(self.capacity as int)
        &&& self.capacity == pow2((self.list_size - 1) as nat)
        &&& self.capacity <= 128
        &&& self.list@.len() == MAX_LIST_SIZE
        &&& forall|k: int| 0 <= k < MAX_LIST_SIZE ==> (#[trigger] self.list@[k])@.len() == MAX_BLOCK_LIST_SIZE
    }

    /// What the shape gives a caller: there are `MAX_LIST_SIZE` levels of
    /// `MAX_BLOCK_LIST_SIZE` slots, of which the first `list_count()` are in
    /// use, and the capacity is the size of a block of the top level in use.
    pub proof fn lemma_well_formed(&self)
        requires
            self.well_formed(),
        ensures
            self.lists().len() == MAX_LIST_SIZE,
            forall|k: int| 0 <= k < MAX_LIST_SIZE ==> (#[trigger] self.lists()[k]).len() == MAX_BLOCK_LIST_SIZE,
            1 <= self.list_count() <= MAX_LIST_SIZE,
            self.capacity_spec() == pow2((self.list_count() - 1) as nat),
            self.capacity_spec() <= 128,
    {
    }

    /// Level `index` holds no block.
    fn is_empty_at(&self, index: usize) -> (r: bool)
        requires
            self.well_formed(),
            index < MAX_LIST_SIZE,
        ensures
            r == no_block(self.lists()[index as int]),
    {
        let ghost s = self.lists()[index as int];
        let mut i: usize = 0;
        while i < MAX_BLOCK_LIST_SIZE
            invariant
                self.well_formed(),
                index < MAX_LIST_SIZE,
                s == self.lists()[index as int],
                s.len() == MAX_BLOCK_LIST_SIZE,
                i <= MAX_BLOCK_LIST_SIZE,
                forall|j: int| 0 <= j < i ==> #[trigger] s[j] is None,
            decreases MAX_BLOCK_LIST_SIZE - i,
        {
            if self.list[index][i].is_exist {
                assert(s[i as int] is Some);
                return false;
            }
            i = i + 1;
        }
        true
    }

    /// Take the block in the first occupied slot of level `index`.
    fn pop_back_at(&mut self, index: usize) -> (r: Option<Block>)
        requires
            old(self).well_formed(),
            index < MAX_LIST_SIZE,
        ensures
            final(self).well_formed(),
            final(self).list_size == old(self).list_size,
            final(self).capacity == old(self).capacity,
            no_block(old(self).lists()[index as int]) ==> r is None && final(self).lists() == old(self).lists()
                && final(self).raw() == old(self).raw(),
            !no_block(old(self).lists()[index as int]) ==> (r matches Some(b) && {
                let s = old(self).lists()[index as int];
                let i = first_block(s);
                let slot = old(self).raw()[index as int][i];
                &&& slot_view(b) == s[i]
                &&& final(self).lists() == old(self).lists().update(index as int, s.update(i, None))
                &&& b == slot
                &&& final(self).raw() == old(self).raw().update(
                    index as int,
                    old(self).raw()[index as int].update(i, Block { start: slot.start, size: slot.size, is_exist: false }),
                )
            }),
    {
        let ghost s = self.lists()[index as int];
        let ghost l0 = self.list@;
        let mut i: usize = 0;
        while i < MAX_BLOCK_LIST_SIZE
            invariant
                self.list@ == l0,
                old(self).list@ == l0,
                self.well_formed(),
                self.list_size == old(self).list_size,
                self.capacity == old(self).capacity,
                self.lists() == old(self).lists(),
                index < MAX_LIST_SIZE,
                s == old(self).lists()[index as int],
                s.len() == MAX_BLOCK_LIST_SIZE,
                i <= MAX_BLOCK_LIST_SIZE,
                forall|j: int| 0 <= j < i ==> #[trigger] s[j] is None,
            decreases MAX_BLOCK_LIST_SIZE - i,
        {
            if self.list[index][i].is_exist {
                let new_block = Block {
                    start: self.list[index][i].start,
                    size: self.list[index][i].size,
                    is_exist: true,
                };
                self.list[index][i].is_exist = false;
                proof {
                    assert(is_first_block(s, i as int));
                    lemma_first_block_exists(s);
                    let f = first_block(s);
                    assert(f == i) by {
                        if f < i {
                        } else if f > i {
                            assert(s[i as int] is Some);
                        }
                    }
                    let target = old(self).lists().update(index as int, s.update(i as int, None));
                    assert forall|k: int| 0 <= k < MAX_LIST_SIZE implies #[trigger] self.lists()[k] =~= target[k] by {
                        if k == index {
                            assert forall|j: int| 0 <= j < MAX_BLOCK_LIST_SIZE implies #[trigger] self.lists()[k][j] == target[k][j] by {
                                if j != i {
                                    assert(self.list@[k]@[j] == l0[k]@[j]);
                                }
                            }
                        } else {
                            assert(self.list@[k] == l0[k]);
                        }
                    }
                    assert(self.lists() =~= target);
                    let slot = l0[index as int]@[i as int];
                    let rt = old(self).raw().update(
                        index as int,
                        old(self).raw()[index as int].update(i as int, Block { start: slot.start, size: slot.size, is_exist: false }),
                    );
                    assert forall|k: int| 0 <= k < MAX_LIST_SIZE implies #[trigger] self.raw()[k] =~= rt[k] by {
                        assert(self.raw()[k] == self.list@[k]@);
                        assert(old(self).raw()[k] == l0[k]@);
                        if k != index {
                            assert(self.list@[k] == l0[k]);
                        } else {
                            assert forall|j: int| 0 <= j < MAX_BLOCK_LIST_SIZE implies #[trigger] self.raw()[k][j] == rt[k][j] by {
                                if j != i {
                                    assert(self.list@[k]@[j] == l0[k]@[j]);
                                }
                            }
                        }
                    }
                    assert(self.raw() =~= rt);
                }
                return Some(new_block);
            }
            i = i + 1;
        }
        None
    }

    /// Put a block in the first empty slot of level `index`; with no empty
    /// slot the block is dropped.
    fn push_back_at(&mut self, index: usize, new_block: Block)
        requires
            old(self).well_formed(),
            index < MAX_LIST_SIZE,
        ensures
            final(self).well_formed(),
            final(self).list_size == old(self).list_size,
            final(self).capacity == old(self).capacity,
            final(self).lists() == old(self).lists().update(
                index as int,
                push_slots(old(self).lists()[index as int], (new_block.start, new_block.size)),
            ),
            ({
                let s = old(self).lists()[index as int];
                if exists|i: int| 0 <= i < s.len() && #[trigger] s[i] is None {
                    final(self).raw() == old(self).raw().update(
                        index as int,
                        old(self).raw()[index as int].update(
                            first_free(s),
                            Block { start: new_block.start, size: new_block.size, is_exist: true },
                        ),
                    )
                } else {
                    final(self).raw() == old(self).raw()
                }
            }),
    {
        let ghost s = self.lists()[index as int];
        let ghost l0 = self.list@;
        let ghost b = (new_block.start, new_block.size);
        let mut i: usize = 0;
        while i < MAX_BLOCK_LIST_SIZE
            invariant
                self.list@ == l0,
                old(self).list@ == l0,
                self.well_formed(),
                self.list_size == old(self).list_size,
                self.capacity == old(self).capacity,
                self.lists() == old(self).lists(),
                index < MAX_LIST_SIZE,
                s == old(self).lists()[index as int],
                s.len() == MAX_BLOCK_LIST_SIZE,
                b == (new_block.start, new_block.size),
                i <= MAX_BLOCK_LIST_SIZE,
                forall|j: int| 0 <= j < i ==> #[trigger] s[j] is Some,
            decreases MAX_BLOCK_LIST_SIZE - i,
        {
            if !self.list[index][i].is_exist {
                self.list[index][i].start = new_block.start;
                self.list[index][i].size = new_block.size;
                self.list[index][i].is_exist = true;
                proof {
                    assert(is_first_free(s, i as int));
                    lemma_first_free_exists(s);
                    let f = first_free(s);
                    assert(f == i) by {
                        if f < i {
                        } else if f > i {
                            assert(s[i as int] is None);
                        }
                    }
                    let target = old(self).lists().update(index as int, s.update(i as int, Some(b)));
                    assert forall|k: int| 0 <= k < MAX_LIST_SIZE implies #[trigger] self.lists()[k] =~= target[k] by {
                        if k == index {
                            assert forall|j: int| 0 <= j < MAX_BLOCK_LIST_SIZE implies #[trigger] self.lists()[k][j] == target[k][j] by {
                                if j != i {
                                    assert(self.list@[k]@[j] == l0[k]@[j]);
                                }
                            }
                        } else {
                            assert(self.list@[k] == l0[k]);
                        }
                    }
                    assert(self.lists() =~= target);
                    let rt = old(self).raw().update(
                        index as int,
                        old(self).raw()[index as int].update(
                            i as int,
                            Block { start: new_block.start, size: new_block.size, is_exist: true },
                        ),
                    );
                    assert forall|k: int| 0 <= k < MAX_LIST_SIZE implies #[trigger] self.raw()[k] =~= rt[k] by {
                        assert(self.raw()[k] == self.list@[k]@);
                        assert(old(self).raw()[k] == l0[k]@);
                        if k != index {
                            assert(self.list@[k] == l0[k]);
                        } else {
                            assert forall|j: int| 0 <= j < MAX_BLOCK_LIST_SIZE implies #[trigger] self.raw()[k][j] == rt[k][j] by {
                                if j != i {
                                    assert(self.list@[k]@[j] == l0[k]@[j]);
                                }
                            }
                        }
                    }
                    assert(self.raw() =~= rt);
                }
                return;
            }
            i = i + 1;
        }
        proof {
            assert(push_slots(s, b) == s);
            assert(old(self).lists().update(index as int, s) =~= old(self).lists());
            assert(self.raw() =~= old(self).raw());
        }
    }

    /// Give `new_block` back to level `index`; see [`slots_after_free`].
    /// The block is aligned to its size and lies inside the capacity.
    fn update(&mut self, new_block: Block, index: usize)
        requires
            old(self).well_formed(),
            index < old(self).list_size,
            new_block.size == pow2(index as nat),
            new_block.start % new_block.size == 0,
            new_block.start + new_block.size <= old(self).capacity,
        ensures
            final(self).well_formed(),
            final(self).list_size == old(self).list_size,
            final(self).capacity == old(self).capacity,
            final(self).lists() == slots_after_free(
                old(self).lists(),
                (new_block.start, new_block.size),
                index as int,
                old(self).list_size as int,
            ),
        decreases old(self).list_size - index,
    {
        let ghost ls = self.list_size as int;
        let ghost lists0 = self.lists();
        let ghost k = index as int;
        let ghost b = (new_block.start, new_block.size);
        if index + 1 >= self.list_size {
            if !self.is_empty_at(index) {
                return;
            }
            self.push_back_at(index, new_block);
            return;
        }
        let size = new_block.size;
        proof {
            lemma_pow2_pos(k as nat);
            lemma_pow2_unfold((k + 1) as nat);
            vstd::arithmetic::power2::lemma_pow2_adds((k + 1) as nat, (ls - 2 - k) as nat);
            lemma_pow2_pos((ls - 2 - k) as nat);
            let c = pow2((ls - 1) as nat) as int;
            let m = pow2((k + 1) as nat) as int;
            let t = pow2((ls - 2 - k) as nat) as int;
            assert(c == m * t);
            assert(c % m == 0) by (nonlinear_arith)
                requires c == m * t, m > 0;
            buddy_system_vector_allocator2::lemma_parent_fits(new_block.start as int, size as int, self.capacity as int);
        }
        let double = size * 2;
        let odd = new_block.start % double != 0;
        let buddy: u8 = if odd { new_block.start - size } else { new_block.start + size };
        let parent_start: u8 = if odd { new_block.start - size } else { new_block.start };
        let ghost s0 = lists0[k];
        let mut i: usize = 0;
        while i < MAX_BLOCK_LIST_SIZE && !(self.list[index][i].is_exist && self.list[index][i].start == buddy)
            invariant
                self.lists() == lists0,
                self.well_formed(),
                self.list_size == ls,
                0 <= k < ls,
                k == index,
                s0 == lists0[k],
                s0.len() == MAX_BLOCK_LIST_SIZE,
                i <= MAX_BLOCK_LIST_SIZE,
                buddy == slot_buddy_start(b),
                b == (new_block.start, new_block.size),
                forall|j: int| 0 <= j < i ==> !starts_at(#[trigger] s0[j], slot_buddy_start(b)),
            decreases MAX_BLOCK_LIST_SIZE - i,
        {
            proof {
                assert(s0[i as int] == slot_view(self.list@[k]@[i as int]));
            }
            i = i + 1;
        }
        if i < MAX_BLOCK_LIST_SIZE {
            let ghost l0 = self.list@;
            proof {
                assert(s0[i as int] == slot_view(self.list@[k]@[i as int]));
                assert(is_first_slot_buddy(s0, b, i as int));
                lemma_first_slot_buddy_exists(s0, b);
                let fb = first_slot_buddy(s0, b);
                if fb < i {
                    assert(!starts_at(s0[fb], slot_buddy_start(b)));
                }
                if fb > i {
                    assert(!starts_at(s0[i as int], slot_buddy_start(b)));
                }
            }
            self.list[index][i].is_exist = false;
            proof {
                let target = lists0.update(k, s0.update(i as int, None));
                assert forall|kk: int| 0 <= kk < MAX_LIST_SIZE implies #[trigger] self.lists()[kk] =~= target[kk] by {
                    if kk == k {
                        assert forall|j: int| 0 <= j < MAX_BLOCK_LIST_SIZE implies #[trigger] self.lists()[kk][j] == target[kk][j] by {
                            if j != i {
                                assert(self.list@[kk]@[j] == l0[kk]@[j]);
                            }
                        }
                    } else {
                        assert(self.list@[kk] == l0[kk]);
                    }
                }
                assert(self.lists() =~= target);
                lemma_pow2_strictly_increases((k + 1) as nat, ls as nat);
            }
            let parent = Block { start: parent_start, size: double, is_exist: true };
            proof {
                assert((parent.start, parent.size) == slot_parent(b));
            }
            self.update(parent, index + 1);
        } else {
            proof {
                assert(!has_slot_buddy(s0, b));
            }
            self.push_back_at(index, new_block);
        }
    }

    /// Base-two logarithm of a power of two that is at least `2`.
    pub fn log_two(num: usize) -> (r: usize)
        requires
            num % 2 == 0,
            exists|k: nat| pow2(k) == num,
        ensures
            pow2(r as nat) == num,
    {
        buddy_system_vector_allocator2::log_two(num)
    }
}

/// `z` halved `m` times.
pub open spec fn halved(z: u8, m: nat) -> u8
    decreases m,
{
    if m == 0 {
        z
    } else {
        halved(z, (m - 1) as nat) / 2
    }
}

proof fn lemma_halved_le_half(z: u8, m: nat)
    requires
        m >= 1,
    ensures
        halved(z, m) <= z / 2,
    decreases m,
{
    assert(halved(z, 0) == z);
    if m > 1 {
        lemma_halved_le_half(z, (m - 1) as nat);
    }
}

/// A block of `2^f` items halved `m` times has `2^(f - m)` items.
proof fn lemma_halved_pow2(f: nat, m: nat)
    requires
        m <= f,
        pow2(f) <= 255,
    ensures
        halved(pow2(f) as u8, m) == pow2((f - m) as nat),
    decreases m,
{
    if m > 0 {
        lemma_halved_pow2(f, (m - 1) as nat);
        lemma_pow2_unfold((f - m + 1) as nat);
    }
}

/// Between the bottom `2^g` and the end of a block of `2^f` items at `a`,
/// every item lies in the upper half `[a + 2^k, a + 2^(k + 1))` of the
/// piece split at some level `k` in `g .. f`.
proof fn lemma_upper_halves_cover(a: int, f: int, g: int, x: int)
    requires
        0 <= g <= f,
        a + pow2(g as nat) <= x < a + pow2(f as nat),
    ensures
        exists|k: int| g <= k < f && a + pow2(k as nat) <= x < #[trigger] (a + pow2((k + 1) as nat)),
    decreases f - g,
{
    if f > g {
        if x >= a + pow2((f - 1) as nat) {
            let k = f - 1;
            assert(a + pow2(k as nat) <= x < a + pow2((k + 1) as nat));
        } else {
            lemma_upper_halves_cover(a, f - 1, g, x);
        }
    }
}

/// A split shares out the block it splits exactly: when the block `(a, z)`
/// of level `f` has `2^f` items and ends inside a byte, every item of it
/// lies either in the bottom piece of level `g`, which the allocation hands
/// out, or in the upper piece of exactly one level `k` in `g .. f` that
/// stays free (see [`upper_slots`]).
pub proof fn lemma_split_shares_block(a: u8, z: u8, f: int, g: int, x: int)
    requires
        0 <= g <= f,
        z == pow2(f as nat),
        a + z <= 256,
        a <= x < a + z,
    ensures
        (x < a + halved(z, (f - g) as nat)) != exists|k: int| g <= k < f
            && a + halved(z, (f - k) as nat) <= x < #[trigger] (a + 2 * halved(z, (f - k) as nat)),
        forall|k1: int, k2: int| g <= k1 < k2 < f
            && a + halved(z, (f - k1) as nat) <= x < #[trigger] (a + 2 * halved(z, (f - k1) as nat))
            ==> !(a + halved(z, (f - k2) as nat) <= x < #[trigger] (a + 2 * halved(z, (f - k2) as nat))),
{
    assert forall|k: int| g <= k <= f implies #[trigger] halved(z, (f - k) as nat) == pow2(k as nat)
        && (k < f ==> 2 * pow2(k as nat) == pow2((k + 1) as nat)) by {
        lemma_halved_pow2(f as nat, (f - k) as nat);
        lemma_pow2_unfold((k + 1) as nat);
    }
    if x >= a + halved(z, (f - g) as nat) {
        lemma_upper_halves_cover(a as int, f, g, x);
        let k = choose|k: int| g <= k < f && a + pow2(k as nat) <= x < #[trigger] (a + pow2((k + 1) as nat));
        assert(halved(z, (f - k) as nat) == pow2(k as nat));
        assert(a + halved(z, (f - k) as nat) <= x < a + 2 * halved(z, (f - k) as nat));
    } else {
        assert forall|k: int| g <= k < f implies !(a + halved(z, (f - k) as nat) <= x < #[trigger] (a + 2 * halved(z, (f - k) as nat))) by {
            assert(halved(z, (f - k) as nat) == pow2(k as nat));
            if g < k {
                lemma_pow2_strictly_increases(g as nat, k as nat);
            }
        }
    }
    assert forall|k1: int, k2: int| g <= k1 < k2 < f
        && a + halved(z, (f - k1) as nat) <= x < #[trigger] (a + 2 * halved(z, (f - k1) as nat))
        implies !(a + halved(z, (f - k2) as nat) <= x < #[trigger] (a + 2 * halved(z, (f - k2) as nat))) by {
        assert(halved(z, (f - k1) as nat) == pow2(k1 as nat));
        assert(halved(z, (f - k2) as nat) == pow2(k2 as nat));
        if k1 + 1 < k2 {
            lemma_pow2_strictly_increases((k1 + 1) as nat, k2 as nat);
        }
    }
}

/// Level `f` is the first one at or above `g` that holds a block.
pub open spec fn is_first_block_level(lists: Seq<Seq<Option<(u8, u8)>>>, g: int, f: int, ls: int) -> bool {
    &&& g <= f < ls
    &&& f < lists.len()
    &&& !no_block(lists[f])
    &&& forall|k: int| g <= k < f ==> no_block(#[trigger] lists[k])
}

/// The first level at or above `g` that holds a block.
pub open spec fn first_block_level(lists: Seq<Seq<Option<(u8, u8)>>>, g: int, ls: int) -> int {
    choose|f: int| is_first_block_level(lists, g, f, ls)
}

/// The block an allocation at level `g` splits: the first block of the first
/// level at or above `g` that holds one.
pub open spec fn split_source(lists: Seq<Seq<Option<(u8, u8)>>>, g: int, ls: int) -> (u8, u8) {
    let f = first_block_level(lists, g, ls);
    lists[f][first_block(lists[f])]->0
}

/// Level `k` after a block `(a, z)` of level `f` was split down past `k`:
/// its second slot holds the upper half of the piece split at level `k + 1`.
pub open spec fn upper_slots(a: u8, z: u8, f: int, k: int) -> Seq<Option<(u8, u8)>> {
    let h = halved(z, (f - k) as nat);
    Seq::new(
        MAX_BLOCK_LIST_SIZE as nat,
        |j: int| if j == 1 { Some(((a + h) as u8, h)) } else { None::<(u8, u8)> },
    )
}

/// The slots after an allocation at level `g` served from level `f`.
pub open spec fn slots_after_alloc(lists: Seq<Seq<Option<(u8, u8)>>>, g: int, f: int) -> Seq<Seq<Option<(u8, u8)>>> {
    let fb = first_block(lists[f]);
    let (a, z) = lists[f][fb]->0;
    Seq::new(
        lists.len(),
        |k: int|
            if k == f {
                lists[f].update(fb, None)
            } else if g <= k < f {
                upper_slots(a, z, f, k)
            } else {
                lists[k]
            },
    )
}

proof fn lemma_first_block_level_exists(lists: Seq<Seq<Option<(u8, u8)>>>, g: int, ls: int)
    requires
        0 <= g,
        ls <= lists.len(),
        exists|f: int| g <= f < ls && !no_block(#[trigger] lists[f]),
    ensures
        is_first_block_level(lists, g, first_block_level(lists, g, ls), ls),
    decreases ls - g,
{
    if !no_block(lists[g]) {
        assert(is_first_block_level(lists, g, g, ls));
    } else {
        let f = choose|f: int| g <= f < ls && !no_block(#[trigger] lists[f]);
        assert(f != g);
        assert(exists|f: int| g + 1 <= f < ls && !no_block(#[trigger] lists[f]));
        lemma_first_block_level_exists(lists, g + 1, ls);
        assert(is_first_block_level(lists, g, first_block_level(lists, g + 1, ls), ls));
    }
}

/// Exponent of the largest power of two that is at most `capacity`: the
/// top level that `new(capacity)` uses.
pub open spec fn array_level(capacity: usize) -> nat {
    if pow2(ceil_log2(capacity as nat)) > capacity {
        (ceil_log2(capacity as nat) - 1) as nat
    } else {
        ceil_log2(capacity as nat)
    }
}

/// Some level in `g .. ls` holds a block.
pub open spec fn has_block_level(lists: Seq<Seq<Option<(u8, u8)>>>, g: int, ls: int) -> bool {
    exists|f: int| g <= f < ls && !no_block(#[trigger] lists[f])
}

/// First item of the block a slot holds.
pub open spec fn slot_start(o: Option<(u8, u8)>) -> int {
    match o {
        Some(p) => p.0 as int,
        None => 0,
    }
}

/// One past the last item of the block a slot holds.
pub open spec fn slot_end(o: Option<(u8, u8)>) -> int {
    match o {
        Some(p) => p.0 + p.1,
        None => 0,
    }
}

/// A block that slot `o` of level `k` holds has `2^k` items, starts at a
/// multiple of its size and ends inside a byte.
pub open spec fn slot_fits(o: Option<(u8, u8)>, k: int) -> bool {
    match o {
        Some(p) => p.1 == pow2(k as nat) && p.0 + p.1 <= 256 && (p.0 as int) % (p.1 as int) == 0,
        None => true,
    }
}


/// Every slot fits its level.
pub open spec fn slots_fit(lists: Seq<Seq<Option<(u8, u8)>>>) -> bool {
    forall|k: int, i: int| 0 <= k < lists.len() && 0 <= i < lists[k].len() ==> slot_fits(#[trigger] lists[k][i], k)
}

/// No two free blocks share an item.
pub open spec fn slots_disjoint(lists: Seq<Seq<Option<(u8, u8)>>>) -> bool {
    forall|k1: int, i1: int, k2: int, i2: int|
        0 <= k1 < lists.len() && 0 <= i1 < lists[k1].len() && 0 <= k2 < lists.len() && 0 <= i2 < lists[k2].len()
            && (k1 != k2 || i1 != i2) && (#[trigger] lists[k1][i1]) is Some && (#[trigger] lists[k2][i2]) is Some
            ==> apart(slot_start(lists[k1][i1]), slot_end(lists[k1][i1]), slot_start(lists[k2][i2]), slot_end(lists[k2][i2]))
}

/// The run `[s, e)` shares no item with a free block.
pub open spec fn apart_from_slots(lists: Seq<Seq<Option<(u8, u8)>>>, s: int, e: int) -> bool {
    forall|k: int, i: int| 0 <= k < lists.len() && 0 <= i < lists[k].len() && (#[trigger] lists[k][i]) is Some
        ==> apart(slot_start(lists[k][i]), slot_end(lists[k][i]), s, e)
}

/// The free blocks and the runs handed out, `live` as pairs of start and
/// size, share no item: no free block overlaps another or a live run, and
/// no live run overlaps another.
pub open spec fn runs_apart(lists: Seq<Seq<Option<(u8, u8)>>>, live: Set<(int, int)>) -> bool {
    &&& slots_disjoint(lists)
    &&& forall|q: (int, int)| #[trigger] live.contains(q) ==> q.1 > 0 && apart_from_slots(lists, q.0, q.0 + q.1)
    &&& forall|q1: (int, int), q2: (int, int)| #[trigger] live.contains(q1) && #[trigger] live.contains(q2) && q1 != q2
        ==> apart(q1.0, q1.0 + q1.1, q2.0, q2.0 + q2.1)
}

/// The pieces a split of `2^f` items at `a` leaves, `[a + 2^k, a + 2^(k + 1))`
/// on level `k`, lie above the run it hands out, inside the split block, and
/// below one another level by level.
proof fn lemma_upper_pieces(a: int, f: int, g: int, k: int)
    requires
        0 <= g <= k < f,
    ensures
        a + pow2(g as nat) <= a + pow2(k as nat),
        a + pow2((k + 1) as nat) <= a + pow2(f as nat),
        pow2((k + 1) as nat) == 2 * pow2(k as nat),
        pow2(k as nat) > 0,
        forall|k2: int| k < k2 < f ==> a + pow2((k + 1) as nat) <= a + #[trigger] pow2(k2 as nat),
{
    lemma_pow2_unfold((k + 1) as nat);
    lemma_pow2_pos(k as nat);
    if k + 1 < f {
        lemma_pow2_strictly_increases((k + 1) as nat, f as nat);
    }
    if g < k {
        lemma_pow2_strictly_increases(g as nat, k as nat);
    }
    assert forall|k2: int| k < k2 < f implies a + pow2((k + 1) as nat) <= a + #[trigger] pow2(k2 as nat) by {
        if k + 1 < k2 {
            lemma_pow2_strictly_increases((k + 1) as nat, k2 as nat);
        }
    }
}

/// An allocation keeps every slot fitting its level, and the block it
/// splits, `(a, z)` of level `f`, has `2^f` items and ends inside a byte.
proof fn lemma_alloc_keeps_fit(lists: Seq<Seq<Option<(u8, u8)>>>, g: int, ls: int)
    requires
        0 <= g,
        ls <= lists.len(),
        slots_fit(lists),
        has_block_level(lists, g, ls),
    ensures
        ({
            let f = first_block_level(lists, g, ls);
            let src = split_source(lists, g, ls);
            &&& is_first_block_level(lists, g, f, ls)
            &&& src.1 == pow2(f as nat)
            &&& src.0 + src.1 <= 256
            &&& f > g ==> src.0 + src.1 / 2 <= 255
            &&& (src.0 as int) % (pow2(g as nat) as int) == 0
            &&& slots_fit(slots_after_alloc(lists, g, f))
        }),
{
    lemma_first_block_level_exists(lists, g, ls);
    let f = first_block_level(lists, g, ls);
    lemma_first_block_exists(lists[f]);
    let fb = first_block(lists[f]);
    let src = lists[f][fb];
    let a = slot_start(src);
    let z = slot_end(src) - a;
    let nl = slots_after_alloc(lists, g, f);
    assert(slot_fits(src, f));
    if f > g {
        lemma_pow2_unfold(f as nat);
        lemma_pow2_pos((f - 1) as nat);
    }
    lemma_pow2_aligned_below(a, f as nat, g as nat);
    assert forall|k: int, i: int| 0 <= k < nl.len() && 0 <= i < nl[k].len() implies slot_fits(#[trigger] nl[k][i], k) by {
        if g <= k < f {
            if i == 1 {
                lemma_upper_pieces(a, f, g, k);
                lemma_halved_pow2(f as nat, (f - k) as nat);
                assert(halved(z as u8, (f - k) as nat) == pow2(k as nat));
                lemma_pow2_aligned_below(a, f as nat, k as nat);
            }
        } else if !(k == f && i == fb) {
            assert(nl[k][i] == lists[k][i]);
        }
    }
}

/// The block that a block `(s, 2^k)` aligned to its size makes up with its
/// buddy, inside a byte, is aligned to twice the size.
proof fn lemma_parent_aligned(s: int, k: int)
    requires
        0 <= k,
        0 <= s,
        s % (pow2(k as nat) as int) == 0,
        s + pow2(k as nat) <= 256,
        2 * pow2(k as nat) <= 128,
    ensures
        s % (2 * pow2(k as nat) as int) != 0 ==> s >= pow2(k as nat) && (s - pow2(k as nat)) % (2 * pow2(k as nat) as int) == 0,
{
    let z = pow2(k as nat) as int;
    lemma_pow2_pos(k as nat);
    lemma_pow2_unfold((k + 1) as nat);
    vstd::arithmetic::power2::lemma2_to64();
    if k + 1 > 7 {
        lemma_pow2_strictly_increases(7, (k + 1) as nat);
    }
    vstd::arithmetic::power2::lemma_pow2_adds((7 - k) as nat, (k + 1) as nat);
    assert(((7 - k) as nat + (k + 1) as nat) as nat == 8);
    assert(pow2(8) == 256);
    assert(256 == pow2((7 - k) as nat) * (2 * z));
    vstd::arithmetic::div_mod::lemma_mod_multiples_basic(pow2((7 - k) as nat) as int, 2 * z);
    assert(256int % (2 * z) == 0);
    buddy_system_vector_allocator2::lemma_parent_fits(s, z, 256);
}

/// Giving back a block that fits level `k`, to an allocator of `ls` levels
/// whose top block fits in a byte, keeps every slot fitting its level.
proof fn lemma_free_keeps_fit(lists: Seq<Seq<Option<(u8, u8)>>>, b: (u8, u8), k: int, ls: int)
    requires
        slots_fit(lists),
        0 <= k < ls <= lists.len(),
        pow2((ls - 1) as nat) <= 128,
        slot_fits(Some(b), k),
    ensures
        slots_fit(slots_after_free(lists, b, k, ls)),
    decreases ls - k,
{
    if k + 1 >= ls && !no_block(lists[k]) {
    } else if k + 1 >= ls || !has_slot_buddy(lists[k], b) {
        let s0 = lists[k];
        if exists|i: int| 0 <= i < s0.len() && #[trigger] s0[i] is None {
            lemma_first_free_exists(s0);
            let m = first_free(s0);
            let nl = lists.update(k, s0.update(m, Some(b)));
            assert forall|kk: int, i: int| 0 <= kk < nl.len() && 0 <= i < nl[kk].len() implies slot_fits(#[trigger] nl[kk][i], kk) by {
                if !(kk == k && i == m) {
                    assert(nl[kk][i] == lists[kk][i]);
                }
            }
        } else {
            assert(slots_after_free(lists, b, k, ls) =~= lists);
        }
    } else {
        lemma_first_slot_buddy_exists(lists[k], b);
        let j = first_slot_buddy(lists[k], b);
        let bb = lists[k][j];
        let l1 = lists.update(k, lists[k].update(j, None));
        let p = slot_parent(b);
        let z = b.1 as int;
        assert(slot_fits(bb, k));
        lemma_pow2_unfold((k + 1) as nat);
        if k + 1 < ls - 1 {
            lemma_pow2_strictly_increases((k + 1) as nat, (ls - 1) as nat);
        }
        assert(2 * z <= 128);
        lemma_parent_aligned(b.0 as int, k);
        if (b.0 as int) % (2 * z) == 0 {
            assert(p.0 == b.0 && p.1 == 2 * z);
        } else {
            assert(p.0 == b.0 - z && p.1 == 2 * z);
        }
        assert(slot_fits(Some(p), k + 1));
        assert forall|kk: int, i: int| 0 <= kk < l1.len() && 0 <= i < l1[kk].len() implies slot_fits(#[trigger] l1[kk][i], kk) by {
            if !(kk == k && i == j) {
                assert(l1[kk][i] == lists[kk][i]);
            }
        }
        lemma_free_keeps_fit(l1, p, k + 1, ls);
    }
}

/// A handed-out run never overlaps another: when the free blocks and the
/// live runs share no item, the run that an allocation of level `g` hands
/// out starts at a multiple of its size `2^g` and shares no item with a live
/// run, and afterwards the free blocks and the live runs, the new one among
/// them, still share none (and every slot still fits its level).
pub proof fn lemma_allocation_keeps_runs_apart(
    lists: Seq<Seq<Option<(u8, u8)>>>,
    g: int,
    ls: int,
    live: Set<(int, int)>,
)
    requires
        0 <= g,
        ls <= lists.len(),
        slots_fit(lists),
        has_block_level(lists, g, ls),
        runs_apart(lists, live),
    ensures
        ({
            let f = first_block_level(lists, g, ls);
            let r = split_source(lists, g, ls).0 as int;
            &&& r % (pow2(g as nat) as int) == 0
            &&& forall|q: (int, int)| #[trigger] live.contains(q) ==> apart(r, r + pow2(g as nat), q.0, q.0 + q.1)
            &&& runs_apart(slots_after_alloc(lists, g, f), live.insert((r, pow2(g as nat) as int)))
            &&& slots_fit(slots_after_alloc(lists, g, f))
        }),
{
    lemma_first_block_level_exists(lists, g, ls);
    let f = first_block_level(lists, g, ls);
    lemma_first_block_exists(lists[f]);
    let fb = first_block(lists[f]);
    let src = lists[f][fb];
    let a = slot_start(src);
    let z = slot_end(src) - a;
    let r = a;
    let zg = pow2(g as nat) as int;
    let nl = slots_after_alloc(lists, g, f);
    let live2 = live.insert((r, zg));
    assert(slot_fits(src, f));
    assert(z == pow2(f as nat) && a + z <= 256);
    lemma_pow2_pos(g as nat);
    if g < f {
        lemma_pow2_strictly_increases(g as nat, f as nat);
    }
    assert(zg <= z);
    // the pieces, one on each level of `g .. f`, in slot 1
    assert forall|k: int| g <= k < f implies {
        &&& (#[trigger] nl[k]).len() == MAX_BLOCK_LIST_SIZE
        &&& nl[k][1] is Some
        &&& slot_start(nl[k][1]) == a + pow2(k as nat)
        &&& slot_end(nl[k][1]) == a + pow2((k + 1) as nat)
        &&& slot_fits(nl[k][1], k)
        &&& forall|i: int| 0 <= i < nl[k].len() && i != 1 ==> nl[k][i] is None
    } by {
        lemma_upper_pieces(a, f, g, k);
        lemma_halved_pow2(f as nat, (f - k) as nat);
        lemma_pow2_unfold(f as nat);
        lemma_pow2_aligned_below(a, f as nat, k as nat);
        let h = halved(z as u8, (f - k) as nat);
        assert(h == pow2(k as nat));
        assert(a + h <= 255);
    }
    // every other slot of the new tables is the old slot at its place
    assert forall|k: int, i: int| 0 <= k < nl.len() && 0 <= i < nl[k].len() && !(g <= k < f) && !(k == f && i == fb)
        implies #[trigger] nl[k][i] == lists[k][i] by {
    }
    assert(nl[f][fb] is None);
    lemma_alloc_keeps_fit(lists, g, ls);
    assert forall|q: (int, int)| #[trigger] live.contains(q) implies apart(r, r + zg, q.0, q.0 + q.1) by {
        assert(apart_from_slots(lists, q.0, q.0 + q.1));
        assert(apart(slot_start(lists[f][fb]), slot_end(lists[f][fb]), q.0, q.0 + q.1));
    }
    assert forall|k1: int, i1: int, k2: int, i2: int|
        0 <= k1 < nl.len() && 0 <= i1 < nl[k1].len() && 0 <= k2 < nl.len() && 0 <= i2 < nl[k2].len()
            && (k1 != k2 || i1 != i2) && (#[trigger] nl[k1][i1]) is Some && (#[trigger] nl[k2][i2]) is Some
            implies apart(slot_start(nl[k1][i1]), slot_end(nl[k1][i1]), slot_start(nl[k2][i2]), slot_end(nl[k2][i2])) by {
        let p1 = g <= k1 < f;
        let p2 = g <= k2 < f;
        if p1 {
            assert(i1 == 1);
        }
        if p2 {
            assert(i2 == 1);
        }
        if !p1 && !p2 {
            assert(!(k1 == f && i1 == fb) && !(k2 == f && i2 == fb));
            assert(nl[k1][i1] == lists[k1][i1]);
            assert(nl[k2][i2] == lists[k2][i2]);
        } else if p1 && p2 {
            if k1 < k2 {
                lemma_upper_pieces(a, f, g, k1);
            } else {
                lemma_upper_pieces(a, f, g, k2);
            }
        } else if p1 {
            lemma_upper_pieces(a, f, g, k1);
            assert(!(k2 == f && i2 == fb));
            assert(nl[k2][i2] == lists[k2][i2]);
            assert(apart(slot_start(lists[k2][i2]), slot_end(lists[k2][i2]), slot_start(lists[f][fb]), slot_end(lists[f][fb])));
        } else {
            lemma_upper_pieces(a, f, g, k2);
            assert(!(k1 == f && i1 == fb));
            assert(nl[k1][i1] == lists[k1][i1]);
            assert(apart(slot_start(lists[k1][i1]), slot_end(lists[k1][i1]), slot_start(lists[f][fb]), slot_end(lists[f][fb])));
        }
    }
    assert forall|q: (int, int)| #[trigger] live2.contains(q) implies q.1 > 0 && apart_from_slots(nl, q.0, q.0 + q.1) by {
        assert forall|k: int, i: int| 0 <= k < nl.len() && 0 <= i < nl[k].len() && (#[trigger] nl[k][i]) is Some
            implies apart(slot_start(nl[k][i]), slot_end(nl[k][i]), q.0, q.0 + q.1) by {
            if g <= k < f {
                assert(i == 1);
                lemma_upper_pieces(a, f, g, k);
                if q != (r, zg) {
                    assert(live.contains(q));
                    assert(apart_from_slots(lists, q.0, q.0 + q.1));
                    assert(apart(slot_start(lists[f][fb]), slot_end(lists[f][fb]), q.0, q.0 + q.1));
                }
            } else {
                assert(nl[k][i] == lists[k][i]);
                if q == (r, zg) {
                    assert(apart(slot_start(lists[k][i]), slot_end(lists[k][i]), slot_start(lists[f][fb]), slot_end(lists[f][fb])));
                } else {
                    assert(live.contains(q));
                    assert(apart_from_slots(lists, q.0, q.0 + q.1));
                }
            }
        }
    }
    assert forall|q1: (int, int), q2: (int, int)| #[trigger] live2.contains(q1) && #[trigger] live2.contains(q2) && q1 != q2
        implies apart(q1.0, q1.0 + q1.1, q2.0, q2.0 + q2.1) by {
        if q1 == (r, zg) {
            assert(live.contains(q2));
        } else if q2 == (r, zg) {
            assert(live.contains(q1));
        } else {
            assert(live.contains(q1) && live.contains(q2));
        }
    }
}

/// Giving back a block that no free block and no other live run overlaps,
/// to level `k` of `ls` levels in use, leaves the free blocks and the other
/// live runs `live` sharing no item.
proof fn lemma_free_slots_rec(
    lists: Seq<Seq<Option<(u8, u8)>>>,
    b: (u8, u8),
    k: int,
    ls: int,
    live: Set<(int, int)>,
)
    requires
        slots_fit(lists),
        0 <= k < ls <= lists.len(),
        pow2((ls - 1) as nat) <= 128,
        slot_fits(Some(b), k),
        slots_disjoint(lists),
        apart_from_slots(lists, b.0 as int, b.0 + b.1),
        forall|q: (int, int)| #[trigger] live.contains(q) ==> q.1 > 0 && apart_from_slots(lists, q.0, q.0 + q.1)
            && apart(q.0, q.0 + q.1, b.0 as int, b.0 + b.1),
        forall|q1: (int, int), q2: (int, int)| #[trigger] live.contains(q1) && #[trigger] live.contains(q2) && q1 != q2
            ==> apart(q1.0, q1.0 + q1.1, q2.0, q2.0 + q2.1),
    ensures
        runs_apart(slots_after_free(lists, b, k, ls), live),
    decreases ls - k,
{
    lemma_pow2_pos(k as nat);
    if k + 1 >= ls && !no_block(lists[k]) {
        // the block is dropped and the tables stay as they are
    } else if k + 1 >= ls || !has_slot_buddy(lists[k], b) {
        let s0 = lists[k];
        if exists|i: int| 0 <= i < s0.len() && #[trigger] s0[i] is None {
            lemma_first_free_exists(s0);
            let m = first_free(s0);
            let nl = lists.update(k, s0.update(m, Some(b)));
            assert(slots_after_free(lists, b, k, ls) == nl);
            assert forall|kk: int, i: int| 0 <= kk < nl.len() && 0 <= i < nl[kk].len() && !(kk == k && i == m)
                implies #[trigger] nl[kk][i] == lists[kk][i] by {
            }
            assert(nl[k][m] == Some(b));
            assert forall|k1: int, i1: int, k2: int, i2: int|
                0 <= k1 < nl.len() && 0 <= i1 < nl[k1].len() && 0 <= k2 < nl.len() && 0 <= i2 < nl[k2].len()
                    && (k1 != k2 || i1 != i2) && (#[trigger] nl[k1][i1]) is Some && (#[trigger] nl[k2][i2]) is Some
                    implies apart(slot_start(nl[k1][i1]), slot_end(nl[k1][i1]), slot_start(nl[k2][i2]), slot_end(nl[k2][i2])) by {
                let n1 = k1 == k && i1 == m;
                let n2 = k2 == k && i2 == m;
                if !n1 && !n2 {
                    assert(nl[k1][i1] == lists[k1][i1] && nl[k2][i2] == lists[k2][i2]);
                } else if n1 {
                    assert(nl[k2][i2] == lists[k2][i2]);
                    assert(apart(slot_start(lists[k2][i2]), slot_end(lists[k2][i2]), b.0 as int, b.0 + b.1));
                } else {
                    assert(nl[k1][i1] == lists[k1][i1]);
                    assert(apart(slot_start(lists[k1][i1]), slot_end(lists[k1][i1]), b.0 as int, b.0 + b.1));
                }
            }
            assert forall|q: (int, int)| #[trigger] live.contains(q) implies q.1 > 0 && apart_from_slots(nl, q.0, q.0 + q.1) by {
                assert forall|kk: int, i: int| 0 <= kk < nl.len() && 0 <= i < nl[kk].len() && (#[trigger] nl[kk][i]) is Some
                    implies apart(slot_start(nl[kk][i]), slot_end(nl[kk][i]), q.0, q.0 + q.1) by {
                    if !(kk == k && i == m) {
                        assert(nl[kk][i] == lists[kk][i]);
                        assert(apart_from_slots(lists, q.0, q.0 + q.1));
                    }
                }
            }
        } else {
            // no empty slot: the block is dropped and the tables stay as they are
            assert(slots_after_free(lists, b, k, ls) =~= lists);
        }
    } else {
        lemma_first_slot_buddy_exists(lists[k], b);
        let j = first_slot_buddy(lists[k], b);
        let bb = lists[k][j];
        let l1 = lists.update(k, lists[k].update(j, None));
        let p = slot_parent(b);
        let sb = b.0 as int;
        let z = b.1 as int;
        assert(slot_fits(bb, k));
        assert(slot_start(bb) == slot_buddy_start(b) && slot_end(bb) == slot_buddy_start(b) + z);
        lemma_pow2_unfold((k + 1) as nat);
        if k + 1 < ls - 1 {
            lemma_pow2_strictly_increases((k + 1) as nat, (ls - 1) as nat);
        }
        assert(2 * z <= 128);
        let lo = if sb % (2 * z) == 0 { sb } else { sb - z };
        assert(p.0 == lo && p.1 == 2 * z);
        lemma_parent_aligned(sb, k);
        assert(slot_fits(Some(p), k + 1));
        assert(slots_after_free(lists, b, k, ls) == slots_after_free(l1, p, k + 1, ls));
        assert forall|kk: int, i: int| 0 <= kk < l1.len() && 0 <= i < l1[kk].len() && !(kk == k && i == j)
            implies #[trigger] l1[kk][i] == lists[kk][i] by {
        }
        assert(l1[k][j] is None);
        assert forall|kk: int, i: int| 0 <= kk < l1.len() && 0 <= i < l1[kk].len() implies slot_fits(#[trigger] l1[kk][i], kk) by {
            if !(kk == k && i == j) {
                assert(l1[kk][i] == lists[kk][i]);
            }
        }
        assert forall|k1: int, i1: int, k2: int, i2: int|
            0 <= k1 < l1.len() && 0 <= i1 < l1[k1].len() && 0 <= k2 < l1.len() && 0 <= i2 < l1[k2].len()
                && (k1 != k2 || i1 != i2) && (#[trigger] l1[k1][i1]) is Some && (#[trigger] l1[k2][i2]) is Some
                implies apart(slot_start(l1[k1][i1]), slot_end(l1[k1][i1]), slot_start(l1[k2][i2]), slot_end(l1[k2][i2])) by {
            assert(!(k1 == k && i1 == j) && !(k2 == k && i2 == j));
            assert(l1[k1][i1] == lists[k1][i1] && l1[k2][i2] == lists[k2][i2]);
        }
        assert forall|kk: int, i: int| 0 <= kk < l1.len() && 0 <= i < l1[kk].len() && (#[trigger] l1[kk][i]) is Some
            implies apart(slot_start(l1[kk][i]), slot_end(l1[kk][i]), p.0 as int, p.0 + p.1) by {
            assert(!(kk == k && i == j));
            assert(l1[kk][i] == lists[kk][i]);
            let o = lists[kk][i];
            assert(apart(slot_start(o), slot_end(o), slot_start(bb), slot_end(bb)));
            assert(apart(slot_start(o), slot_end(o), sb, sb + z));
            assert(slot_fits(o, kk));
            lemma_pow2_pos(kk as nat);
            if sb % (2 * z) == 0 {
                lemma_apart_union(slot_start(o), slot_end(o), sb, sb + z, sb + 2 * z);
            } else {
                lemma_apart_union(slot_start(o), slot_end(o), sb - z, sb, sb + z);
            }
        }
        assert forall|q: (int, int)| #[trigger] live.contains(q) implies q.1 > 0 && apart_from_slots(l1, q.0, q.0 + q.1)
            && apart(q.0, q.0 + q.1, p.0 as int, p.0 + p.1) by {
            assert(apart_from_slots(lists, q.0, q.0 + q.1));
            assert forall|kk: int, i: int| 0 <= kk < l1.len() && 0 <= i < l1[kk].len() && (#[trigger] l1[kk][i]) is Some
                implies apart(slot_start(l1[kk][i]), slot_end(l1[kk][i]), q.0, q.0 + q.1) by {
                assert(!(kk == k && i == j));
                assert(l1[kk][i] == lists[kk][i]);
            }
            assert(apart(slot_start(lists[k][j]), slot_end(lists[k][j]), q.0, q.0 + q.1));
            if sb % (2 * z) == 0 {
                lemma_apart_union(q.0, q.0 + q.1, sb, sb + z, sb + 2 * z);
            } else {
                lemma_apart_union(q.0, q.0 + q.1, sb - z, sb, sb + z);
            }
        }
        assert(l1.len() == lists.len());
        lemma_free_slots_rec(l1, p, k + 1, ls, live);
    }
}

/// A run given back no longer counts as handed out: when the free blocks
/// and the live runs share no item, giving back a live run `b` (a block
/// that fits level `k`) leaves the free blocks and the other live runs
/// sharing none, and every slot fitting its level.
pub proof fn lemma_free_keeps_runs_apart(
    lists: Seq<Seq<Option<(u8, u8)>>>,
    b: (u8, u8),
    k: int,
    ls: int,
    live: Set<(int, int)>,
)
    requires
        slots_fit(lists),
        0 <= k < ls <= lists.len(),
        pow2((ls - 1) as nat) <= 128,
        slot_fits(Some(b), k),
        live.contains((b.0 as int, b.1 as int)),
        runs_apart(lists, live),
    ensures
        runs_apart(slots_after_free(lists, b, k, ls), live.remove((b.0 as int, b.1 as int))),
        slots_fit(slots_after_free(lists, b, k, ls)),
{
    let me = (b.0 as int, b.1 as int);
    let rest = live.remove(me);
    assert forall|q: (int, int)| #[trigger] rest.contains(q) implies q.1 > 0 && apart_from_slots(lists, q.0, q.0 + q.1)
        && apart(q.0, q.0 + q.1, b.0 as int, b.0 + b.1) by {
        assert(live.contains(q) && live.contains(me) && q != me);
    }
    assert forall|q1: (int, int), q2: (int, int)| #[trigger] rest.contains(q1) && #[trigger] rest.contains(q2) && q1 != q2
        implies apart(q1.0, q1.0 + q1.1, q2.0, q2.0 + q2.1) by {
        assert(live.contains(q1) && live.contains(q2));
    }
    assert(live.contains(me));
    lemma_free_slots_rec(lists, b, k, ls, rest);
    lemma_free_keeps_fit(lists, b, k, ls);
}

/// The free items: those of some block that a slot holds.
pub open spec fn free_items(lists: Seq<Seq<Option<(u8, u8)>>>) -> Set<int> {
    Set::new(
        |x: int|
            exists|k: int, i: int|
                0 <= k < lists.len() && 0 <= i < lists[k].len() && (#[trigger] lists[k][i]) is Some
                    && slot_start(lists[k][i]) <= x < slot_end(lists[k][i]),
    )
}

/// Some slot of `s` is empty.
pub open spec fn has_empty_slot(s: Seq<Option<(u8, u8)>>) -> bool {
    exists|i: int| 0 <= i < s.len() && #[trigger] s[i] is None
}

/// The items `s .. e`.
pub open spec fn items_of(s: int, e: int) -> Set<int> {
    Set::new(|x: int| s <= x < e)
}

/// Giving back a run adds exactly its items to the free ones: with `b`
/// fitting level `k` of `ls` levels in use, the top level in use holding no
/// block and every level from `k` up having an empty slot, the free items
/// after giving `b` back are the free items before and those of `b`.
pub proof fn lemma_free_adds_items(lists: Seq<Seq<Option<(u8, u8)>>>, b: (u8, u8), k: int, ls: int)
    requires
        slots_fit(lists),
        0 <= k < ls <= lists.len(),
        pow2((ls - 1) as nat) <= 128,
        slot_fits(Some(b), k),
        no_block(lists[ls - 1]),
        forall|kk: int| k <= kk < ls ==> has_empty_slot(#[trigger] lists[kk]),
    ensures
        free_items(slots_after_free(lists, b, k, ls)) == free_items(lists).union(items_of(b.0 as int, b.0 + b.1)),
    decreases ls - k,
{
    if k + 1 >= ls || !has_slot_buddy(lists[k], b) {
        let s0 = lists[k];
        assert(has_empty_slot(s0));
        lemma_first_free_exists(s0);
        let m = first_free(s0);
        let nl = lists.update(k, s0.update(m, Some(b)));
        if k + 1 >= ls {
            assert(k == ls - 1);
        }
        assert(slots_after_free(lists, b, k, ls) == nl);
        assert forall|kk: int, i: int| 0 <= kk < nl.len() && 0 <= i < nl[kk].len() && !(kk == k && i == m)
            implies #[trigger] nl[kk][i] == lists[kk][i] by {
        }
        assert(nl[k][m] == Some(b));
        let u = free_items(lists).union(items_of(b.0 as int, b.0 + b.1));
        assert forall|x: int| free_items(nl).contains(x) <==> u.contains(x) by {
            if free_items(nl).contains(x) {
                let (kk, i) = choose|kk: int, i: int|
                    0 <= kk < nl.len() && 0 <= i < nl[kk].len() && (#[trigger] nl[kk][i]) is Some
                        && slot_start(nl[kk][i]) <= x < slot_end(nl[kk][i]);
                if !(kk == k && i == m) {
                    assert(nl[kk][i] == lists[kk][i]);
                }
            }
            if free_items(lists).contains(x) {
                let (kk, i) = choose|kk: int, i: int|
                    0 <= kk < lists.len() && 0 <= i < lists[kk].len() && (#[trigger] lists[kk][i]) is Some
                        && slot_start(lists[kk][i]) <= x < slot_end(lists[kk][i]);
                assert(!(kk == k && i == m));
                assert(nl[kk][i] == lists[kk][i]);
            }
            if items_of(b.0 as int, b.0 + b.1).contains(x) {
                assert(nl[k][m] is Some && slot_start(nl[k][m]) <= x < slot_end(nl[k][m]));
            }
        }
        assert(free_items(nl) =~= u);
    } else {
        lemma_first_slot_buddy_exists(lists[k], b);
        let j = first_slot_buddy(lists[k], b);
        let bb = lists[k][j];
        let l1 = lists.update(k, lists[k].update(j, None));
        let p = slot_parent(b);
        let sb = b.0 as int;
        let z = b.1 as int;
        assert(slot_fits(bb, k));
        lemma_pow2_pos(k as nat);
        lemma_pow2_unfold((k + 1) as nat);
        if k + 1 < ls - 1 {
            lemma_pow2_strictly_increases((k + 1) as nat, (ls - 1) as nat);
        }
        assert(2 * z <= 128);
        let lo = if sb % (2 * z) == 0 { sb } else { sb - z };
        assert(p.0 == lo && p.1 == 2 * z);
        lemma_parent_aligned(sb, k);
        assert(slot_fits(Some(p), k + 1));
        assert(slots_after_free(lists, b, k, ls) == slots_after_free(l1, p, k + 1, ls));
        assert forall|kk: int, i: int| 0 <= kk < l1.len() && 0 <= i < l1[kk].len() && !(kk == k && i == j)
            implies #[trigger] l1[kk][i] == lists[kk][i] by {
        }
        assert(l1[k][j] is None);
        assert forall|kk: int, i: int| 0 <= kk < l1.len() && 0 <= i < l1[kk].len() implies slot_fits(#[trigger] l1[kk][i], kk) by {
            if !(kk == k && i == j) {
                assert(l1[kk][i] == lists[kk][i]);
            }
        }
        assert(l1[ls - 1] == lists[ls - 1]);
        assert forall|kk: int| k + 1 <= kk < ls implies has_empty_slot(#[trigger] l1[kk]) by {
            assert(has_empty_slot(lists[kk]));
            assert(l1[kk] == lists[kk]);
        }
        lemma_free_adds_items(l1, p, k + 1, ls);
        // the buddy's items are free before, and the parent is `b` and its buddy
        let bi = items_of(slot_start(bb), slot_end(bb));
        assert forall|x: int| free_items(lists).contains(x) <==> (free_items(l1).contains(x) || bi.contains(x)) by {
            if free_items(lists).contains(x) {
                let (kk, i) = choose|kk: int, i: int|
                    0 <= kk < lists.len() && 0 <= i < lists[kk].len() && (#[trigger] lists[kk][i]) is Some
                        && slot_start(lists[kk][i]) <= x < slot_end(lists[kk][i]);
                if !(kk == k && i == j) {
                    assert(l1[kk][i] == lists[kk][i]);
                }
            }
            if free_items(l1).contains(x) {
                let (kk, i) = choose|kk: int, i: int|
                    0 <= kk < l1.len() && 0 <= i < l1[kk].len() && (#[trigger] l1[kk][i]) is Some
                        && slot_start(l1[kk][i]) <= x < slot_end(l1[kk][i]);
                assert(!(kk == k && i == j));
                assert(l1[kk][i] == lists[kk][i]);
            }
            if bi.contains(x) {
                assert(lists[k][j] is Some && slot_start(lists[k][j]) <= x < slot_end(lists[k][j]));
            }
        }
        let after = slots_after_free(l1, p, k + 1, ls);
        let u = free_items(lists).union(items_of(sb, sb + z));
        assert(slot_start(bb) == slot_buddy_start(b) && slot_end(bb) == slot_buddy_start(b) + z);
        assert forall|x: int| free_items(after).contains(x) <==> u.contains(x) by {
            assert(free_items(after).contains(x) == (free_items(l1).contains(x) || items_of(p.0 as int, p.0 + p.1).contains(x)));
            assert(items_of(p.0 as int, p.0 + p.1).contains(x) == (items_of(sb, sb + z).contains(x) || bi.contains(x)));
        }
        assert(free_items(after) =~= u);
    }
}

impl VectorAllocator for BuddySystemVectorAllocator {
    open spec fn wf(&self) -> bool {
        self.well_formed() && slots_fit(self.lists())
    }

    /// The capacity must be at least one item and fit in a byte.
    open spec fn new_requires(capacity: usize) -> bool {
        1 <= capacity <= 255
    }

    /// Any request is admitted: one larger than the capacity, or one that
    /// finds no block at its rounded-up level or above among the levels in
    /// use, gets `None`.
    open spec fn alloc_requires(&self, size: usize) -> bool {
        true
    }

    /// The size must be a power of two, the run aligned to it and inside
    /// the capacity, as every run the allocator hands out is. Whether the
    /// run is still handed out is not checked: the laws on freeing
    /// (`lemma_free_keeps_runs_apart`) assume it.
    open spec fn dealloc_requires(&self, start: usize, size: usize) -> bool {
        &&& is_power_of_two(size as int)
        &&& start % size == 0
        &&& start + size <= self.capacity_spec()
    }

    /// The capacity rounded down to a power of two, `2^c`; the top level in
    /// use, `c`, holds one block at `0` of that size.
    fn new(capacity: usize) -> (r: Self)
        ensures
            r.capacity_spec() == pow2(array_level(capacity)),
            r.list_count() == array_level(capacity) + 1,
            r.lists() == Seq::new(
                MAX_LIST_SIZE as nat,
                |k: int|
                    Seq::new(
                        MAX_BLOCK_LIST_SIZE as nat,
                        |j: int|
                            if k == array_level(capacity) && j == 0 {
                                Some((0u8, pow2(array_level(capacity)) as u8))
                            } else {
                                None::<(u8, u8)>
                            },
                    ),
            ),
    {
        let ghost c = ceil_log2(capacity as nat);
        let ghost lv = array_level(capacity);
        proof {
            lemma_ceil_log2(capacity as nat);
            if c > 0 {
                lemma_pow2_unfold(c);
                lemma_pow2_pos((c - 1) as nat);
            } else {
                vstd::arithmetic::power2::lemma2_to64();
            }
            // the power of two that is kept is at most 128, so its exponent at most 7
            vstd::arithmetic::power2::lemma2_to64();
            if lv > 7 {
                lemma_pow2_strictly_increases(7, lv);
            }
            if lv == 8 {
            }
        }
        let mut total_size = next_power_of_two(capacity);
        if total_size > capacity {
            total_size = total_size / 2;
        }
        proof {
            assert(total_size == pow2(lv));
            if lv >= 8 {
                if lv > 8 {
                    lemma_pow2_strictly_increases(8, lv);
                }
                assert(false);
            }
        }
        let log_total = if total_size == 1 { 0 } else { Self::log_two(total_size) };
        proof {
            if total_size != 1 {
                lemma_pow2_injective(log_total as nat, lv);
            } else if lv > 0 {
                lemma_pow2_strictly_increases(0, lv);
            }
        }
        let list_size = (log_total + 1).min(MAX_LIST_SIZE);
        let mut new_list: Vec<Vec<Block>> = Vec::new();
        let mut k: usize = 0;
        while k < MAX_LIST_SIZE
            invariant
                k <= MAX_LIST_SIZE,
                new_list@.len() == k,
                forall|i: int| 0 <= i < k ==> (#[trigger] new_list@[i])@.len() == MAX_BLOCK_LIST_SIZE,
                forall|i: int, j: int| 0 <= i < k && 0 <= j < MAX_BLOCK_LIST_SIZE ==> slot_view(
                    #[trigger] new_list@[i]@[j],
                ) is None,
            decreases MAX_LIST_SIZE - k,
        {
            let row: Vec<Block> = vec![Block { start: 0, size: 0, is_exist: false }; MAX_BLOCK_LIST_SIZE];
            proof {
                assert forall|j: int| 0 <= j < MAX_BLOCK_LIST_SIZE implies slot_view(#[trigger] row@[j]) is None by {
                    assert(cloned(Block { start: 0, size: 0, is_exist: false }, row@[j]));
                }
            }
            new_list.push(row);
            k = k + 1;
        }
        new_list[list_size - 1][0].start = 0;
        new_list[list_size - 1][0].size = total_size as u8;
        new_list[list_size - 1][0].is_exist = true;
        let r = Self { capacity: total_size, list_size: list_size, list: new_list };
        proof {
            assert(is_power_of_two(total_size as int));
            let target = Seq::new(
                MAX_LIST_SIZE as nat,
                |k: int|
                    Seq::new(
                        MAX_BLOCK_LIST_SIZE as nat,
                        |j: int|
                            if k == lv && j == 0 {
                                Some((0u8, pow2(lv) as u8))
                            } else {
                                None::<(u8, u8)>
                            },
                    ),
            );
            assert forall|k: int| 0 <= k < MAX_LIST_SIZE implies #[trigger] r.lists()[k] =~= target[k] by {
                assert forall|j: int| 0 <= j < MAX_BLOCK_LIST_SIZE implies #[trigger] r.lists()[k][j] == target[k][j] by {
                    if k == list_size - 1 && j == 0 {
                    } else {
                    }
                }
            }
            assert(r.lists() =~= target);
        }
        r
    }

    /// A request above the capacity gets `None`. Otherwise, with `2^g` the
    /// rounded-up request, the first block `(a, z)` of the first level
    /// `f >= g` holding one is taken and halved down to level `g`, each
    /// split keeping its lower half; the caller gets `a`, a multiple of
    /// `2^g`, and each level in between keeps the upper half of the piece
    /// split into it.
    fn allocate(&mut self, size: usize, _align: usize) -> (r: Option<usize>)
        ensures
            final(self).capacity_spec() == old(self).capacity_spec(),
            final(self).list_count() == old(self).list_count(),
            size > old(self).capacity_spec() ==> r is None && final(self).lists() == old(self).lists(),
            size <= old(self).capacity_spec() && !has_block_level(old(self).lists(), ceil_log2(size as nat) as int, old(self).list_count())
                ==> r is None && final(self).lists() == old(self).lists(),
            size <= old(self).capacity_spec() && has_block_level(old(self).lists(), ceil_log2(size as nat) as int, old(self).list_count()) ==> {
                let g = ceil_log2(size as nat) as int;
                let f = first_block_level(old(self).lists(), g, old(self).list_count());
                &&& r == Some(split_source(old(self).lists(), g, old(self).list_count()).0 as usize)
                &&& (split_source(old(self).lists(), g, old(self).list_count()).0 as int) % (pow2(g as nat) as int) == 0
                &&& final(self).lists() == slots_after_alloc(old(self).lists(), g, f)
            },
    {
        if size > self.capacity {
            return None;
        }
        let ghost l0 = self.lists();
        let ghost ls = self.list_size as int;
        let ghost g = ceil_log2(size as nat) as int;
        proof {
            lemma_ceil_log2(size as nat);
            lemma_ceil_log2_of_pow2(g as nat);
            if g > 0 {
                lemma_pow2_unfold(g as nat);
            } else {
                vstd::arithmetic::power2::lemma2_to64();
            }
            // the rounded-up request is at most the capacity, `2^(ls - 1)`
            if g > ls - 1 {
                if g - 1 > ls - 1 {
                    lemma_pow2_strictly_increases((ls - 1) as nat, (g - 1) as nat);
                }
                assert(false);
            }
            if g < ls - 1 {
                lemma_pow2_strictly_increases(g as nat, (ls - 1) as nat);
            }
        }
        let get_index = if size <= 1 {
            0
        } else {
            let npot = next_power_of_two(size);
            Self::log_two(npot)
        };
        proof {
            if size > 1 {
                lemma_pow2_injective(get_index as nat, g as nat);
            }
        }
        let mut find_index = get_index;
        while find_index < self.list_size && self.is_empty_at(find_index)
            invariant
                g == get_index,
                g <= find_index <= ls,
                ls <= MAX_LIST_SIZE,
                self.lists() == l0,
                self.well_formed(),
                self.list_size == ls,
                forall|k: int| g <= k < find_index ==> no_block(#[trigger] l0[k]),
            decreases ls - find_index,
        {
            find_index += 1;
        }
        if find_index >= self.list_size {
            proof {
                if has_block_level(l0, g, ls) {
                    let f = choose|f: int| g <= f < ls && !no_block(#[trigger] l0[f]);
                    assert(no_block(l0[f]));
                }
            }
            return None;
        }
        proof {
            assert(is_first_block_level(l0, g, find_index as int, ls));
            lemma_first_block_level_exists(l0, g, ls);
            let f = first_block_level(l0, g, ls);
            if f < find_index {
                assert(no_block(l0[f]));
            }
            if f > find_index {
                assert(no_block(l0[find_index as int]));
            }
        }
        let ghost f = first_block_level(l0, g, ls);
        let ghost fb = first_block(l0[f]);
        let ghost source = l0[f][fb]->0;
        proof {
            lemma_alloc_keeps_fit(l0, g, ls);
        }
        let ghost a = source.0;
        let ghost z = source.1;
        proof {
            lemma_first_block_exists(l0[f]);
        }
        let mut i: usize = 0;
        while i < find_index - get_index
            invariant
                find_index == f,
                get_index == g,
                0 <= g <= f < ls,
                ls <= MAX_LIST_SIZE,
                i <= f - g,
                self.well_formed(),
                self.list_size == ls,
                self.capacity == old(self).capacity,
                is_first_block_level(l0, g, f, ls),
                is_first_block(l0[f], fb),
                l0[f][fb] == Some((a, z)),
                f > g ==> a + z / 2 <= 255,
                l0.len() == MAX_LIST_SIZE,
                forall|k: int| 0 <= k < MAX_LIST_SIZE && (k > f || k < f - i) ==> #[trigger] self.lists()[k] == l0[k],
                forall|k: int| f - i < k < f ==> #[trigger] self.lists()[k] == upper_slots(a, z, f, k),
                i == 0 ==> self.lists()[f] == l0[f],
                i > 0 ==> self.lists()[f] == l0[f].update(fb, None),
                i > 0 ==> self.lists()[f - i] == Seq::new(
                    MAX_BLOCK_LIST_SIZE as nat,
                    |j: int|
                        if j == 0 {
                            Some((a, halved(z, i as nat)))
                        } else if j == 1 {
                            Some(((a + halved(z, i as nat)) as u8, halved(z, i as nat)))
                        } else {
                            None::<(u8, u8)>
                        },
                ),
            decreases f - g - i,
        {
            let ghost lv = f - i;
            let ghost cur = self.lists();
            proof {
                assert(l0[lv - 1] == cur[lv - 1]);
                assert(no_block(l0[lv - 1]));
                lemma_halved_le_half(z, (i + 1) as nat);
                if i > 0 {
                    lemma_halved_le_half(z, i as nat);
                    let s = cur[lv];
                    assert(is_first_block(s, 0));
                    lemma_first_block_exists(s);
                    assert(first_block(s) == 0) by {
                        if first_block(s) > 0 {
                            assert(s[0] is Some);
                        }
                    }
                } else {
                    lemma_first_block_exists(l0[f]);
                    assert(first_block(l0[f]) == fb) by {
                        if first_block(l0[f]) < fb {
                            assert(l0[f][first_block(l0[f])] is None);
                        } else if first_block(l0[f]) > fb {
                            assert(l0[f][fb] is Some);
                        }
                    }
                }
            }
            let temp_block = self.pop_back_at(find_index - i);
            match temp_block {
                None => {
                    proof {
                        assert(!no_block(cur[lv]));
                        assert(false);
                    }
                },
                Some(tblock) => {
                    proof {
                        assert(tblock.start == a);
                        assert(tblock.size == halved(z, i as nat));
                    }
                    let ghost popped = self.lists();
                    let lower = Block { start: tblock.start, size: tblock.size / 2, is_exist: true };
                    let upper = Block { start: tblock.start + tblock.size / 2, size: tblock.size / 2, is_exist: true };
                    self.push_back_at(find_index - i - 1, lower);
                    let ghost pushed1 = self.lists();
                    proof {
                        let s0 = popped[lv - 1];
                        assert(s0 == l0[lv - 1]);
                        assert(is_first_free(s0, 0));
                        lemma_first_free_exists(s0);
                        assert(first_free(s0) == 0) by {
                            if first_free(s0) > 0 {
                                assert(s0[0] is None);
                            }
                        }
                    }
                    self.push_back_at(find_index - i - 1, upper);
                    proof {
                        let s1 = pushed1[lv - 1];
                        assert(is_first_free(s1, 1));
                        lemma_first_free_exists(s1);
                        assert(first_free(s1) == 1) by {
                            if first_free(s1) < 1 {
                                assert(s1[0] is Some);
                            } else if first_free(s1) > 1 {
                                assert(s1[1] is None);
                            }
                        }
                        let nl = self.lists();
                        let h = halved(z, (i + 1) as nat);
                        assert(nl[lv - 1] =~= Seq::new(
                            MAX_BLOCK_LIST_SIZE as nat,
                            |j: int|
                                if j == 0 {
                                    Some((a, h))
                                } else if j == 1 {
                                    Some(((a + h) as u8, h))
                                } else {
                                    None::<(u8, u8)>
                                },
                        ));
                        if i > 0 {
                            assert(nl[lv] =~= upper_slots(a, z, f, lv));
                        } else {
                            assert(nl[lv] == l0[f].update(fb, None));
                        }
                    }
                },
            }
            i += 1;
        }
        let ghost before = self.lists();
        proof {
            if f > g {
                let s = before[g];
                assert(is_first_block(s, 0));
                lemma_first_block_exists(s);
                assert(first_block(s) == 0) by {
                    if first_block(s) > 0 {
                        assert(s[0] is Some);
                    }
                }
            } else {
                lemma_first_block_exists(l0[f]);
                assert(first_block(l0[f]) == fb) by {
                    if first_block(l0[f]) < fb {
                        assert(l0[f][first_block(l0[f])] is None);
                    } else if first_block(l0[f]) > fb {
                        assert(l0[f][fb] is Some);
                    }
                }
            }
        }
        let alloc_block = self.pop_back_at(get_index);
        match alloc_block {
            None => {
                proof {
                    assert(false);
                }
                None
            },
            Some(get_block) => {
                proof {
                    assert(get_block.start == a);
                    let nl = self.lists();
                    let target = slots_after_alloc(l0, g, f);
                    assert forall|k: int| 0 <= k < MAX_LIST_SIZE implies #[trigger] nl[k] =~= target[k] by {
                        if k == g && f > g {
                            assert(nl[k] =~= upper_slots(a, z, f, k));
                        }
                    }
                    assert(nl =~= target);
                }
                Some(get_block.start as usize)
            },
        }
    }

    /// Gives back the block of `size` items at `start` to level `log2(size)`.
    /// Give back the run of `size` items at `start`; see
    /// [`slots_after_free`].
    fn dealloc(&mut self, start: usize, size: usize, _align: usize)
        ensures
            final(self).capacity_spec() == old(self).capacity_spec(),
            final(self).list_count() == old(self).list_count(),
            final(self).lists() == slots_after_free(
                old(self).lists(),
                (start as u8, size as u8),
                ceil_log2(size as nat) as int,
                old(self).list_count(),
            ),
    {
        let ghost k = choose|k: nat| pow2(k) == size;
        let ghost ls = self.list_size as int;
        proof {
            lemma_ceil_log2_of_pow2(k);
            if k == 0 {
                vstd::arithmetic::power2::lemma2_to64();
            } else {
                lemma_pow2_unfold(k);
            }
            if k > ls - 1 {
                lemma_pow2_strictly_increases((ls - 1) as nat, k);
            }
        }
        let get_index = if size == 1 { 0 } else { Self::log_two(size) };
        proof {
            if size != 1 {
                lemma_pow2_injective(get_index as nat, k);
            } else if k > 0 {
                lemma_pow2_pos((k - 1) as nat);
                lemma_pow2_strictly_increases(0, k);
                vstd::arithmetic::power2::lemma2_to64();
            }
        }
        let new_block = Block { start: start as u8, size: size as u8, is_exist: true };
        self.update(new_block, get_index);
        proof {
            lemma_free_keeps_fit(old(self).lists(), (start as u8, size as u8), k as int, ls);
        }
    }
}

} // verus!
