//! [`BuddySystemVectorAllocator`] over growable lists of blocks.
//!
//! `list[k]` holds the free blocks of size `2^k`; allocation splits a larger
//! block down to the requested level, and freeing a block whose buddy is
//! free takes the buddy out of its list and frees the block the two make up
//! one level up, so that no item is ever free twice.

use vstd::prelude::*;
use vstd::arithmetic::power2::{pow2, lemma_pow2, lemma_pow2_pos, lemma_pow2_unfold, lemma_pow2_strictly_increases, lemma_pow2_adds};
use crate::allocator::VectorAllocator;
use crate::bits::{
    ceil_log2, is_power_of_two, lemma_ceil_log2, lemma_ceil_log2_of_pow2, lemma_pow2_injective,
    next_power_of_two, usize_pow, lemma2_pow_bound, lemma_pow2_gt,
    lemma_pow2_aligned_below, lemma_aligned_sub, lemma_upper_half,
};

verus! {

/// Block of the buddy system: `size` items starting at `start`.
#[derive(Copy, Clone)]
pub struct Block {
    start: usize,
    size: usize,
}

/// The block of `size` items that starts at `start`.
pub closed spec fn block(start: int, size: int) -> Block {
    Block { start: start as usize, size: size as usize }
}

/// First item of a block.
pub closed spec fn block_start(b: Block) -> int {
    b.start as int
}

/// Number of items of a block.
pub closed spec fn block_size(b: Block) -> int {
    b.size as int
}

/// Buddy system vector allocator.
pub struct BuddySystemVectorAllocator {
    capacity: usize,
    list_size: usize,
    list: Vec<Vec<Block>>,
}

/// Base-two logarithm of a power of two that is at least `2`.
///
/// Odd numbers (`1` among them), `0` and even numbers that are not powers of
/// two would make the search give up with a panic, so they are left out.
pub fn log_two(num: usize) -> (r: usize)
    requires
        num % 2 == 0,
        exists|k: nat| pow2(k) == num,
    ensures
        pow2(r as nat) == num,
{
    let ghost k = choose|k: nat| pow2(k) == num;
    proof { lemma2_pow_bound(k, num as nat); }
    let mut i: usize = 0;
    while i < num
        invariant
            pow2(k) == num,
            k < 64,
            i <= k,
            i <= num,
        decreases num - i,
    {
        proof {
            lemma_pow2(i as nat);
            if i < k { lemma_pow2_strictly_increases(i as nat, k); }
        }
        if usize_pow(2, i as u32) == num {
            return i;
        }
        proof {
            if i == k { assert(false); }
        }
        i = i + 1;
    }
    proof {
        lemma_pow2_gt(k);
        assert(false);
    }
    0
}

/// Block `b` may sit in list `k`: it has `2^k` items and ends inside the
/// address space.
pub open spec fn block_fits(b: Block, k: int) -> bool {
    &&& block_size(b) == pow2(k as nat)
    &&& block_start(b) + block_size(b) <= usize::MAX + 1
}

/// List `f` is the first non-empty one at or above `g`.
pub open spec fn is_first_free_level(lists: Seq<Seq<Block>>, g: int, f: int) -> bool {
    &&& g <= f < lists.len()
    &&& lists[f].len() > 0
    &&& forall|k: int| g <= k < f ==> (#[trigger] lists[k]).len() == 0
}

/// Some list at or above `g` is non-empty.
pub open spec fn has_free_level(lists: Seq<Seq<Block>>, g: int) -> bool {
    exists|f: int| g <= f < lists.len() && (#[trigger] lists[f]).len() > 0
}

/// The first non-empty list at or above `g`.
pub open spec fn first_free_level(lists: Seq<Seq<Block>>, g: int) -> int {
    choose|f: int| is_first_free_level(lists, g, f)
}

/// Start of the top `2^k` items of the `2^f` items that start at `a`.
pub open spec fn upper_start(a: int, f: int, k: int) -> int {
    a + pow2(f as nat) - pow2(k as nat)
}

/// Below the top `2^g` items of a block of `2^f` items at `a`, every item
/// lies in the piece of some level `k` in `g .. f` that a split leaves free.
proof fn lemma_pieces_cover(a: int, f: int, g: int, x: int)
    requires
        0 <= g <= f,
        a <= x < upper_start(a, f, g),
    ensures
        exists|k: int| g <= k < f && upper_start(a, f, k + 1) <= x < #[trigger] upper_start(a, f, k + 1) + pow2(k as nat),
    decreases f - g,
{
    lemma_pow2_unfold(f as nat);
    if f == g {
    } else if x < a + pow2((f - 1) as nat) {
        let k = f - 1;
        assert(upper_start(a, f, k + 1) <= x < upper_start(a, f, k + 1) + pow2(k as nat));
    } else {
        let a1 = a + pow2((f - 1) as nat);
        lemma_pieces_cover(a1, f - 1, g, x);
        let k = choose|k: int| g <= k < f - 1 && upper_start(a1, f - 1, k + 1) <= x < #[trigger] upper_start(a1, f - 1, k + 1) + pow2(k as nat);
        assert(upper_start(a1, f - 1, k + 1) == upper_start(a, f, k + 1));
    }
}

/// A split shares out the block it splits exactly: every item of the
/// `2^f` items at `a` lies either in the top `2^g` items, which the
/// allocation hands out, or in the piece of exactly one level `k` in
/// `g .. f` that stays on the free lists (see [`split_level`]).
pub proof fn lemma_split_shares_block(a: int, f: int, g: int, x: int)
    requires
        0 <= g <= f,
        a <= x < a + pow2(f as nat),
    ensures
        (upper_start(a, f, g) <= x) != exists|k: int| g <= k < f
            && upper_start(a, f, k + 1) <= x < #[trigger] upper_start(a, f, k + 1) + pow2(k as nat),
        forall|k1: int, k2: int| g <= k1 < k2 < f
            && upper_start(a, f, k1 + 1) <= x < #[trigger] upper_start(a, f, k1 + 1) + pow2(k1 as nat)
            ==> !(upper_start(a, f, k2 + 1) <= x < #[trigger] upper_start(a, f, k2 + 1) + pow2(k2 as nat)),
{
    if x < upper_start(a, f, g) {
        lemma_pieces_cover(a, f, g, x);
    } else {
        assert forall|k: int| g <= k < f implies !(upper_start(a, f, k + 1) <= x < #[trigger] upper_start(a, f, k + 1) + pow2(k as nat)) by {
            lemma_pow2_unfold((k + 1) as nat);
            if g < k {
                lemma_pow2_strictly_increases(g as nat, k as nat);
            }
        }
    }
    assert forall|k1: int, k2: int| g <= k1 < k2 < f
        && upper_start(a, f, k1 + 1) <= x < #[trigger] upper_start(a, f, k1 + 1) + pow2(k1 as nat)
        implies !(upper_start(a, f, k2 + 1) <= x < #[trigger] upper_start(a, f, k2 + 1) + pow2(k2 as nat)) by {
        lemma_pow2_unfold((k1 + 1) as nat);
        lemma_pow2_unfold((k2 + 1) as nat);
        if k1 + 1 < k2 {
            lemma_pow2_strictly_increases((k1 + 1) as nat, k2 as nat);
        }
    }
}

/// What list `k` holds after a block of level `f` was split down to level
/// `g`: the top list lost its last block, each list in between holds the
/// lower half of the block split into it.
pub open spec fn split_level(lists: Seq<Seq<Block>>, g: int, f: int, a: int, k: int) -> Seq<Block> {
    if k == f {
        lists[f].drop_last()
    } else {
        seq![block(upper_start(a, f, k + 1), pow2(k as nat) as int)]
    }
}

/// The lists after serving a request of level `g` from the first free
/// level `f`.
pub open spec fn lists_after_alloc(lists: Seq<Seq<Block>>, g: int, f: int) -> Seq<Seq<Block>> {
    let a = block_start(lists[f].last());
    Seq::new(
        lists.len(),
        |k: int|
            if g <= k <= f {
                split_level(lists, g, f, a, k)
            } else {
                lists[k]
            },
    )
}

proof fn lemma_first_free_level_exists(lists: Seq<Seq<Block>>, g: int)
    requires
        0 <= g,
        has_free_level(lists, g),
    ensures
        is_first_free_level(lists, g, first_free_level(lists, g)),
    decreases lists.len() - g,
{
    if lists[g].len() > 0 {
        assert(is_first_free_level(lists, g, g));
    } else {
        let f = choose|f: int| g <= f < lists.len() && (#[trigger] lists[f]).len() > 0;
        assert(g + 1 <= f);
        assert(has_free_level(lists, g + 1));
        lemma_first_free_level_exists(lists, g + 1);
        assert(is_first_free_level(lists, g, first_free_level(lists, g + 1)));
    }
}

/// Start of the buddy of `b`: the other half of the block of twice its
/// size, aligned to twice its size, that `b` is a half of.
pub open spec fn buddy_start(b: Block) -> int {
    if block_start(b) % (2 * block_size(b)) == 0 {
        block_start(b) + block_size(b)
    } else {
        block_start(b) - block_size(b)
    }
}

/// The block of twice the size that `b` and its buddy make up.
pub open spec fn parent_block(b: Block) -> Block {
    if block_start(b) % (2 * block_size(b)) == 0 {
        block(block_start(b), 2 * block_size(b))
    } else {
        block(block_start(b) - block_size(b), 2 * block_size(b))
    }
}

/// `i` is the first position of `list` that holds the buddy of `b`.
pub open spec fn is_first_buddy(list: Seq<Block>, b: Block, i: int) -> bool {
    &&& 0 <= i < list.len()
    &&& block_start(list[i]) == buddy_start(b)
    &&& forall|j: int| 0 <= j < i ==> block_start(#[trigger] list[j]) != buddy_start(b)
}

/// `list` holds the buddy of `b`.
pub open spec fn has_buddy(list: Seq<Block>, b: Block) -> bool {
    exists|i: int| 0 <= i < list.len() && block_start(#[trigger] list[i]) == buddy_start(b)
}

/// The first position of `list` that holds the buddy of `b`.
pub open spec fn first_buddy(list: Seq<Block>, b: Block) -> int {
    choose|i: int| is_first_buddy(list, b, i)
}

/// The lists after freeing block `b` into list `k` of `n` lists. When the
/// list holds the buddy of `b` and a list above exists, the buddy leaves its
/// list and the block they make up is freed one list up; otherwise `b` is
/// appended to list `k`.
pub open spec fn lists_after_free(lists: Seq<Seq<Block>>, b: Block, k: int, n: int) -> Seq<Seq<Block>>
    decreases n - k,
{
    if k < 0 || k >= lists.len() {
        lists
    } else if k + 1 >= n || !has_buddy(lists[k], b) {
        lists.update(k, lists[k].push(b))
    } else {
        lists_after_free(lists.update(k, lists[k].remove(first_buddy(lists[k], b))), parent_block(b), k + 1, n)
    }
}

proof fn lemma_first_buddy_exists(list: Seq<Block>, b: Block)
    requires
        has_buddy(list, b),
    ensures
        is_first_buddy(list, b, first_buddy(list, b)),
    decreases list.len(),
{
    let d = list.drop_last();
    if has_buddy(d, b) {
        lemma_first_buddy_exists(d, b);
        let i = first_buddy(d, b);
        assert forall|j: int| 0 <= j < i implies block_start(#[trigger] list[j]) != buddy_start(b) by {
            assert(d[j] == list[j]);
        }
        assert(d[i] == list[i]);
        assert(is_first_buddy(list, b, i));
    } else {
        let i = choose|i: int| 0 <= i < list.len() && block_start(#[trigger] list[i]) == buddy_start(b);
        if i < list.len() - 1 {
            assert(d[i] == list[i]);
            assert(false);
        }
        assert forall|j: int| 0 <= j < list.len() - 1 implies block_start(#[trigger] list[j]) != buddy_start(b) by {
            assert(d[j] == list[j]);
        }
        assert(is_first_buddy(list, b, list.len() - 1));
    }
}

/// A block aligned to its size, ending inside a capacity that is a multiple
/// of twice its size, has its parent aligned to twice its size and ending
/// inside the capacity; when it is the upper half it starts at or above its
/// size.
pub(crate) proof fn lemma_parent_fits(s: int, z: int, c: int)
    requires
        z > 0,
        s >= 0,
        s % z == 0,
        s + z <= c,
        c % (2 * z) == 0,
    ensures
        s % (2 * z) != 0 ==> s >= z && (s - z) % (2 * z) == 0 && s - z + 2 * z <= c,
        s % (2 * z) == 0 ==> s + 2 * z <= c,
{
    let q = s / z;
    assert(s == z * q) by (nonlinear_arith)
        requires s % z == 0, z > 0, q == s / z;
    let t = c / (2 * z);
    assert(c == 2 * z * t) by (nonlinear_arith)
        requires c % (2 * z) == 0, z > 0, t == c / (2 * z);
    let r = q / 2;
    assert(q == 2 * r + q % 2) by (nonlinear_arith)
        requires r == q / 2;
    if q % 2 == 0 {
        assert(s == 2 * z * r) by (nonlinear_arith)
            requires s == z * q, q == 2 * r + q % 2, q % 2 == 0;
        assert(s % (2 * z) == 0) by (nonlinear_arith)
            requires s == 2 * z * r, z > 0, r >= 0;
        assert(r < t) by (nonlinear_arith)
            requires s == 2 * z * r, c == 2 * z * t, s + z <= c, z > 0;
        assert(s + 2 * z <= c) by (nonlinear_arith)
            requires s == 2 * z * r, c == 2 * z * t, r < t, z > 0;
    } else {
        assert(s == 2 * z * r + z) by (nonlinear_arith)
            requires s == z * q, q == 2 * r + q % 2, q % 2 == 1;
        assert(s % (2 * z) == z) by (nonlinear_arith)
            requires s == 2 * z * r + z, z > 0, r >= 0;
        assert((s - z) % (2 * z) == 0) by (nonlinear_arith)
            requires s == 2 * z * r + z, z > 0, r >= 0;
        assert(s >= z) by (nonlinear_arith)
            requires s == 2 * z * r + z, z > 0, r >= 0;
    }
}

/// A block aligned to its own size ends inside the address space.
proof fn lemma_aligned_block_fits(x: int, k: nat)
    requires
        0 <= x <= usize::MAX,
        x % (pow2(k) as int) == 0,
        pow2(k) <= usize::MAX,
    ensures
        x + pow2(k) <= usize::MAX + 1,
{
    vstd::layout::unsigned_int_max_values();
    let bits = usize::BITS as nat;
    let p = pow2(k) as int;
    if k >= bits {
        if k > bits {
            lemma_pow2_strictly_increases(bits, k);
        }
        assert(false);
    }
    lemma_pow2_adds(k, (bits - k) as nat);
    let m = usize::MAX + 1;
    let r = pow2((bits - k) as nat) as int;
    assert(m == p * r);
    lemma_pow2_pos(k);
    let q = x / p;
    assert(x == p * q) by (nonlinear_arith)
        requires x % p == 0, p > 0, q == x / p;
    assert(q + 1 <= r) by (nonlinear_arith)
        requires x == p * q, x < m, m == p * r, p > 0;
    assert(x + p <= m) by (nonlinear_arith)
        requires x == p * q, q + 1 <= r, m == p * r, p > 0;
}

/// A block is rebuilt from its start and size.
pub proof fn lemma_block_roundtrip(b: Block)
    ensures
        block(block_start(b), block_size(b)) == b,
{
}

/// The pieces cut from the top of a block stay inside it.
proof fn lemma_upper_start_bounds(a: int, f: int, k: int)
    requires
        0 <= a,
        0 <= k <= f,
        a + pow2(f as nat) <= usize::MAX + 1,
        pow2(f as nat) <= usize::MAX,
    ensures
        a <= upper_start(a, f, k),
        upper_start(a, f, k) + pow2(k as nat) == a + pow2(f as nat),
        0 < pow2(k as nat) <= pow2(f as nat),
        k > 0 ==> upper_start(a, f, k) + pow2((k - 1) as nat) <= usize::MAX,
        block_start(block(upper_start(a, f, k), pow2(k as nat) as int)) == upper_start(a, f, k),
        block_size(block(upper_start(a, f, k), pow2(k as nat) as int)) == pow2(k as nat),
{
    lemma_pow2_pos(k as nat);
    if k < f {
        lemma_pow2_strictly_increases(k as nat, f as nat);
    }
    if k > 0 {
        lemma_pow2_unfold(k as nat);
        lemma_pow2_pos((k - 1) as nat);
    }
}

/// End of a block: one past its last item.
pub open spec fn block_end(b: Block) -> int {
    block_start(b) + block_size(b)
}

/// The runs `[s1, e1)` and `[s2, e2)` share no item.
pub open spec fn apart(s1: int, e1: int, s2: int, e2: int) -> bool {
    e1 <= s2 || e2 <= s1
}

/// Every block of list `k` fits list `k`.
pub open spec fn lists_fit(lists: Seq<Seq<Block>>) -> bool {
    forall|k: int, i: int| 0 <= k < lists.len() && 0 <= i < lists[k].len() ==> block_fits(#[trigger] lists[k][i], k)
}

/// No two free blocks share an item.
pub open spec fn free_disjoint(lists: Seq<Seq<Block>>) -> bool {
    forall|k1: int, i1: int, k2: int, i2: int|
        0 <= k1 < lists.len() && 0 <= i1 < lists[k1].len() && 0 <= k2 < lists.len() && 0 <= i2 < lists[k2].len()
            && (k1 != k2 || i1 != i2) ==> apart(
            block_start(#[trigger] lists[k1][i1]),
            block_end(lists[k1][i1]),
            block_start(#[trigger] lists[k2][i2]),
            block_end(lists[k2][i2]),
        )
}

/// The run `[s, e)` shares no item with a free block.
pub open spec fn apart_from_free(lists: Seq<Seq<Block>>, s: int, e: int) -> bool {
    forall|k: int, i: int| 0 <= k < lists.len() && 0 <= i < lists[k].len() ==> apart(
        block_start(#[trigger] lists[k][i]),
        block_end(lists[k][i]),
        s,
        e,
    )
}

/// The free blocks and the runs handed out, `live` as pairs of start and
/// size, share no item: no free block overlaps another or a live run, and
/// no live run overlaps another.
pub open spec fn live_apart(lists: Seq<Seq<Block>>, live: Set<(int, int)>) -> bool {
    &&& free_disjoint(lists)
    &&& forall|q: (int, int)| #[trigger] live.contains(q) ==> q.1 > 0 && apart_from_free(lists, q.0, q.0 + q.1)
    &&& forall|q1: (int, int), q2: (int, int)| #[trigger] live.contains(q1) && #[trigger] live.contains(q2) && q1 != q2
        ==> apart(q1.0, q1.0 + q1.1, q2.0, q2.0 + q2.1)
}

/// A block built from a start and a size that both fit a `usize` has that
/// start and that size.
pub proof fn lemma_block_of(x: int, y: int)
    requires
        0 <= x <= usize::MAX,
        0 <= y <= usize::MAX,
    ensures
        block_start(block(x, y)) == x,
        block_size(block(x, y)) == y,
{
}

/// The pieces a split leaves lie below the run it hands out, inside the
/// split block, and below one another level by level.
proof fn lemma_split_pieces(a: int, f: int, g: int, k: int)
    requires
        0 <= g <= k < f,
    ensures
        a <= upper_start(a, f, k + 1),
        upper_start(a, f, k + 1) + pow2(k as nat) <= upper_start(a, f, g),
        forall|k2: int| k < k2 < f ==> upper_start(a, f, k2 + 1) + #[trigger] pow2(k2 as nat) <= upper_start(a, f, k + 1),
        pow2(k as nat) > 0,
{
    lemma_pow2_unfold((k + 1) as nat);
    lemma_pow2_pos(k as nat);
    if k + 1 < f {
        lemma_pow2_strictly_increases((k + 1) as nat, f as nat);
    }
    if g < k {
        lemma_pow2_strictly_increases(g as nat, k as nat);
    }
    assert forall|k2: int| k < k2 < f implies upper_start(a, f, k2 + 1) + #[trigger] pow2(k2 as nat) <= upper_start(a, f, k + 1) by {
        lemma_pow2_unfold((k2 + 1) as nat);
        if k + 1 < k2 {
            lemma_pow2_strictly_increases((k + 1) as nat, k2 as nat);
        }
    }
}

/// A handed-out run never overlaps another: when the free blocks and the
/// live runs share no item, the run that an allocation of level `g` hands
/// out shares no item with a live run, and afterwards the free blocks and
/// the live runs, the new one among them, still share none.
pub proof fn lemma_allocation_keeps_runs_apart(lists: Seq<Seq<Block>>, g: int, live: Set<(int, int)>)
    requires
        0 <= g,
        lists_fit(lists),
        has_free_level(lists, g),
        live_apart(lists, live),
    ensures
        ({
            let f = first_free_level(lists, g);
            let r = upper_start(block_start(lists[f].last()), f, g);
            &&& forall|q: (int, int)| #[trigger] live.contains(q) ==> apart(r, r + pow2(g as nat), q.0, q.0 + q.1)
            &&& live_apart(lists_after_alloc(lists, g, f), live.insert((r, pow2(g as nat) as int)))
        }),
{
    lemma_first_free_level_exists(lists, g);
    let f = first_free_level(lists, g);
    let n = lists[f].len() - 1;
    let src = lists[f].last();
    let a = block_start(src);
    let e = a + pow2(f as nat);
    let r = upper_start(a, f, g);
    let z = pow2(g as nat) as int;
    let nl = lists_after_alloc(lists, g, f);
    let live2 = live.insert((r, z));
    assert(src == lists[f][n]);
    assert(block_fits(src, f));
    lemma_pow2_pos(g as nat);
    lemma_upper_start_bounds(a, f, g);
    assert(a <= r && r + z == e);
    // the pieces, one on each level of `g .. f`
    assert forall|k: int| g <= k < f implies {
        &&& nl[k].len() == 1
        &&& block_start(#[trigger] nl[k][0]) == upper_start(a, f, k + 1)
        &&& block_end(nl[k][0]) == upper_start(a, f, k + 1) + pow2(k as nat)
        &&& a <= upper_start(a, f, k + 1)
        &&& upper_start(a, f, k + 1) + pow2(k as nat) <= r
        &&& pow2(k as nat) > 0
    } by {
        lemma_split_pieces(a, f, g, k);
        lemma_upper_start_bounds(a, f, k + 1);
        lemma_block_of(upper_start(a, f, k + 1), pow2(k as nat) as int);
    }
    // every other block of the new lists is the old block at its place
    assert forall|k: int, i: int| 0 <= k < nl.len() && 0 <= i < nl[k].len() && !(g <= k < f)
        implies #[trigger] nl[k][i] == lists[k][i] && (k != f || i != n) by {
    }
    assert forall|q: (int, int)| #[trigger] live.contains(q) implies apart(r, r + z, q.0, q.0 + q.1) by {
        assert(apart_from_free(lists, q.0, q.0 + q.1));
        assert(apart(block_start(lists[f][n]), block_end(lists[f][n]), q.0, q.0 + q.1));
    }
    assert forall|k1: int, i1: int, k2: int, i2: int|
        0 <= k1 < nl.len() && 0 <= i1 < nl[k1].len() && 0 <= k2 < nl.len() && 0 <= i2 < nl[k2].len()
            && (k1 != k2 || i1 != i2) implies apart(
            block_start(#[trigger] nl[k1][i1]),
            block_end(nl[k1][i1]),
            block_start(#[trigger] nl[k2][i2]),
            block_end(nl[k2][i2]),
        ) by {
        let p1 = g <= k1 < f;
        let p2 = g <= k2 < f;
        if !p1 && !p2 {
            assert(nl[k1][i1] == lists[k1][i1]);
            assert(nl[k2][i2] == lists[k2][i2]);
        } else if p1 && p2 {
            assert(i1 == 0 && i2 == 0);
            if k1 < k2 {
                lemma_split_pieces(a, f, g, k1);
            } else {
                lemma_split_pieces(a, f, g, k2);
            }
        } else if p1 {
            assert(nl[k2][i2] == lists[k2][i2]);
            assert(apart(block_start(lists[k2][i2]), block_end(lists[k2][i2]), block_start(lists[f][n]), block_end(lists[f][n])));
            assert(i1 == 0);
        } else {
            assert(nl[k1][i1] == lists[k1][i1]);
            assert(apart(block_start(lists[k1][i1]), block_end(lists[k1][i1]), block_start(lists[f][n]), block_end(lists[f][n])));
            assert(i2 == 0);
        }
    }
    assert forall|q: (int, int)| #[trigger] live2.contains(q) implies q.1 > 0 && apart_from_free(nl, q.0, q.0 + q.1) by {
        assert forall|k: int, i: int| 0 <= k < nl.len() && 0 <= i < nl[k].len() implies apart(
            block_start(#[trigger] nl[k][i]),
            block_end(nl[k][i]),
            q.0,
            q.0 + q.1,
        ) by {
            if g <= k < f {
                assert(i == 0);
                if q != (r, z) {
                    assert(live.contains(q));
                    assert(apart_from_free(lists, q.0, q.0 + q.1));
                    assert(apart(block_start(lists[f][n]), block_end(lists[f][n]), q.0, q.0 + q.1));
                }
            } else {
                assert(nl[k][i] == lists[k][i]);
                if q == (r, z) {
                    assert(apart(block_start(lists[k][i]), block_end(lists[k][i]), block_start(lists[f][n]), block_end(lists[f][n])));
                } else {
                    assert(live.contains(q));
                    assert(apart_from_free(lists, q.0, q.0 + q.1));
                }
            }
        }
    }
    assert forall|q1: (int, int), q2: (int, int)| #[trigger] live2.contains(q1) && #[trigger] live2.contains(q2) && q1 != q2
        implies apart(q1.0, q1.0 + q1.1, q2.0, q2.0 + q2.1) by {
        if q1 == (r, z) {
            assert(live.contains(q2));
        } else if q2 == (r, z) {
            assert(live.contains(q1));
        } else {
            assert(live.contains(q1) && live.contains(q2));
        }
    }
}

/// A run that shares no item with two adjacent runs shares none with
/// their union.
pub(crate) proof fn lemma_apart_union(qs: int, qe: int, l: int, m: int, h: int)
    requires
        qs < qe,
        l <= m <= h,
        apart(qs, qe, l, m),
        apart(qs, qe, m, h),
    ensures
        apart(qs, qe, l, h),
{
}

/// Freeing a block that no free block and no other live run overlaps, into
/// list `k`, leaves the free blocks and the other live runs `live` sharing
/// no item.
proof fn lemma_free_rec(lists: Seq<Seq<Block>>, b: Block, k: int, n: int, live: Set<(int, int)>)
    requires
        lists_fit(lists),
        0 <= k < n <= lists.len(),
        pow2(n as nat) <= usize::MAX,
        block_fits(b, k),
        free_disjoint(lists),
        apart_from_free(lists, block_start(b), block_end(b)),
        forall|q: (int, int)| #[trigger] live.contains(q) ==> q.1 > 0 && apart_from_free(lists, q.0, q.0 + q.1)
            && apart(q.0, q.0 + q.1, block_start(b), block_end(b)),
        forall|q1: (int, int), q2: (int, int)| #[trigger] live.contains(q1) && #[trigger] live.contains(q2) && q1 != q2
            ==> apart(q1.0, q1.0 + q1.1, q2.0, q2.0 + q2.1),
    ensures
        live_apart(lists_after_free(lists, b, k, n), live),
    decreases n - k,
{
    lemma_pow2_pos(k as nat);
    if k + 1 >= n || !has_buddy(lists[k], b) {
        let nl = lists.update(k, lists[k].push(b));
        let m = lists[k].len() as int;
        assert forall|kk: int, i: int| 0 <= kk < nl.len() && 0 <= i < nl[kk].len() && !(kk == k && i == m)
            implies #[trigger] nl[kk][i] == lists[kk][i] by {
        }
        assert(nl[k][m] == b);
        assert forall|k1: int, i1: int, k2: int, i2: int|
            0 <= k1 < nl.len() && 0 <= i1 < nl[k1].len() && 0 <= k2 < nl.len() && 0 <= i2 < nl[k2].len()
                && (k1 != k2 || i1 != i2) implies apart(
                block_start(#[trigger] nl[k1][i1]),
                block_end(nl[k1][i1]),
                block_start(#[trigger] nl[k2][i2]),
                block_end(nl[k2][i2]),
            ) by {
            let n1 = k1 == k && i1 == m;
            let n2 = k2 == k && i2 == m;
            if !n1 && !n2 {
                assert(nl[k1][i1] == lists[k1][i1] && nl[k2][i2] == lists[k2][i2]);
            } else if n1 {
                assert(nl[k2][i2] == lists[k2][i2]);
                assert(apart(block_start(lists[k2][i2]), block_end(lists[k2][i2]), block_start(b), block_end(b)));
            } else {
                assert(nl[k1][i1] == lists[k1][i1]);
                assert(apart(block_start(lists[k1][i1]), block_end(lists[k1][i1]), block_start(b), block_end(b)));
            }
        }
        assert forall|q: (int, int)| #[trigger] live.contains(q) implies q.1 > 0 && apart_from_free(nl, q.0, q.0 + q.1) by {
            assert forall|kk: int, i: int| 0 <= kk < nl.len() && 0 <= i < nl[kk].len() implies apart(
                block_start(#[trigger] nl[kk][i]),
                block_end(nl[kk][i]),
                q.0,
                q.0 + q.1,
            ) by {
                if !(kk == k && i == m) {
                    assert(nl[kk][i] == lists[kk][i]);
                    assert(apart_from_free(lists, q.0, q.0 + q.1));
                }
            }
        }
    } else {
        lemma_first_buddy_exists(lists[k], b);
        let j = first_buddy(lists[k], b);
        let bb = lists[k][j];
        let l1 = lists.update(k, lists[k].remove(j));
        let p = parent_block(b);
        let sb = block_start(b);
        let z = block_size(b);
        assert(block_fits(bb, k));
        lemma_pow2_unfold((k + 1) as nat);
        lemma_pow2_strictly_increases((k + 1) as nat, n as nat);
        let lo = if sb % (2 * z) == 0 { sb } else { sb - z };
        lemma_block_of(lo, 2 * z);
        assert(block_start(p) == lo && block_size(p) == 2 * z);
        assert(block_start(bb) == buddy_start(b) && block_size(bb) == z);
        // the parent is the union of `b` and its buddy
        assert(block_fits(p, k + 1));
        assert forall|kk: int, i: int| 0 <= kk < l1.len() && 0 <= i < l1[kk].len()
            implies #[trigger] l1[kk][i] == lists[kk][if kk == k && i >= j { i + 1 } else { i }] by {
        }
        assert forall|kk: int, i: int| 0 <= kk < l1.len() && 0 <= i < l1[kk].len() implies block_fits(#[trigger] l1[kk][i], kk) by {
            let i0 = if kk == k && i >= j { i + 1 } else { i };
            assert(l1[kk][i] == lists[kk][i0]);
        }
        assert forall|k1: int, i1: int, k2: int, i2: int|
            0 <= k1 < l1.len() && 0 <= i1 < l1[k1].len() && 0 <= k2 < l1.len() && 0 <= i2 < l1[k2].len()
                && (k1 != k2 || i1 != i2) implies apart(
                block_start(#[trigger] l1[k1][i1]),
                block_end(l1[k1][i1]),
                block_start(#[trigger] l1[k2][i2]),
                block_end(l1[k2][i2]),
            ) by {
            let a1 = if k1 == k && i1 >= j { i1 + 1 } else { i1 };
            let a2 = if k2 == k && i2 >= j { i2 + 1 } else { i2 };
            assert(l1[k1][i1] == lists[k1][a1] && l1[k2][i2] == lists[k2][a2]);
        }
        assert forall|kk: int, i: int| 0 <= kk < l1.len() && 0 <= i < l1[kk].len() implies apart(
            block_start(#[trigger] l1[kk][i]),
            block_end(l1[kk][i]),
            block_start(p),
            block_end(p),
        ) by {
            let i0 = if kk == k && i >= j { i + 1 } else { i };
            assert(l1[kk][i] == lists[kk][i0]);
            assert(apart(block_start(lists[kk][i0]), block_end(lists[kk][i0]), block_start(bb), block_end(bb)));
            assert(apart(block_start(lists[kk][i0]), block_end(lists[kk][i0]), sb, sb + z));
            assert(block_fits(lists[kk][i0], kk));
            lemma_pow2_pos(kk as nat);
            if sb % (2 * z) == 0 {
                lemma_apart_union(block_start(lists[kk][i0]), block_end(lists[kk][i0]), sb, sb + z, sb + 2 * z);
            } else {
                lemma_apart_union(block_start(lists[kk][i0]), block_end(lists[kk][i0]), sb - z, sb, sb + z);
            }
        }
        assert forall|q: (int, int)| #[trigger] live.contains(q) implies q.1 > 0 && apart_from_free(l1, q.0, q.0 + q.1)
            && apart(q.0, q.0 + q.1, block_start(p), block_end(p)) by {
            assert(apart_from_free(lists, q.0, q.0 + q.1));
            assert forall|kk: int, i: int| 0 <= kk < l1.len() && 0 <= i < l1[kk].len() implies apart(
                block_start(#[trigger] l1[kk][i]),
                block_end(l1[kk][i]),
                q.0,
                q.0 + q.1,
            ) by {
                let i0 = if kk == k && i >= j { i + 1 } else { i };
                assert(l1[kk][i] == lists[kk][i0]);
            }
            assert(apart(block_start(lists[k][j]), block_end(lists[k][j]), q.0, q.0 + q.1));
            if sb % (2 * z) == 0 {
                lemma_apart_union(q.0, q.0 + q.1, sb, sb + z, sb + 2 * z);
            } else {
                lemma_apart_union(q.0, q.0 + q.1, sb - z, sb, sb + z);
            }
        }
        assert(l1.len() == lists.len());
        lemma_free_rec(l1, p, k + 1, n, live);
    }
}

/// A run given back no longer counts as handed out: when the free blocks
/// and the live runs share no item, freeing a live run (a block of list
/// `k`) leaves the free blocks and the other live runs sharing none.
pub proof fn lemma_free_keeps_runs_apart(lists: Seq<Seq<Block>>, b: Block, k: int, n: int, live: Set<(int, int)>)
    requires
        lists_fit(lists),
        0 <= k < n <= lists.len(),
        pow2(n as nat) <= usize::MAX,
        block_fits(b, k),
        live.contains((block_start(b), block_size(b))),
        live_apart(lists, live),
    ensures
        live_apart(lists_after_free(lists, b, k, n), live.remove((block_start(b), block_size(b)))),
{
    let me = (block_start(b), block_size(b));
    let rest = live.remove(me);
    assert forall|q: (int, int)| #[trigger] rest.contains(q) implies q.1 > 0 && apart_from_free(lists, q.0, q.0 + q.1)
        && apart(q.0, q.0 + q.1, block_start(b), block_end(b)) by {
        assert(live.contains(q) && live.contains(me) && q != me);
    }
    assert forall|q1: (int, int), q2: (int, int)| #[trigger] rest.contains(q1) && #[trigger] rest.contains(q2) && q1 != q2
        implies apart(q1.0, q1.0 + q1.1, q2.0, q2.0 + q2.1) by {
        assert(live.contains(q1) && live.contains(q2));
    }
    assert(live.contains(me));
    lemma_free_rec(lists, b, k, n, rest);
}

/// Every free block starts at a multiple of its size.
pub open spec fn lists_aligned(lists: Seq<Seq<Block>>) -> bool {
    forall|k: int, i: int| 0 <= k < lists.len() && 0 <= i < lists[k].len()
        ==> block_start(#[trigger] lists[k][i]) % block_size(lists[k][i]) == 0
}

/// Handed-out runs are aligned to their size: when every free block starts
/// at a multiple of its size, the run that an allocation of level `g` hands
/// out starts at a multiple of `2^g`, and the free blocks afterwards are
/// still aligned to their sizes.
pub proof fn lemma_allocation_aligned(lists: Seq<Seq<Block>>, g: int)
    requires
        0 <= g,
        lists_fit(lists),
        lists_aligned(lists),
        has_free_level(lists, g),
    ensures
        ({
            let f = first_free_level(lists, g);
            let r = upper_start(block_start(lists[f].last()), f, g);
            &&& r % (pow2(g as nat) as int) == 0
            &&& lists_aligned(lists_after_alloc(lists, g, f))
        }),
{
    lemma_first_free_level_exists(lists, g);
    let f = first_free_level(lists, g);
    let n = lists[f].len() - 1;
    let src = lists[f].last();
    let a = block_start(src);
    assert(src == lists[f][n]);
    assert(block_fits(src, f));
    let x = a + pow2(f as nat);
    lemma_pow2_aligned_below(a, f as nat, f as nat);
    lemma_upper_start_bounds(a, f, g);
    lemma_pow2_aligned_below(x, f as nat, g as nat);
    lemma_aligned_sub(x, pow2(g as nat) as int);
    let nl = lists_after_alloc(lists, g, f);
    assert forall|k: int, i: int| 0 <= k < nl.len() && 0 <= i < nl[k].len()
        implies block_start(#[trigger] nl[k][i]) % block_size(nl[k][i]) == 0 by {
        if g <= k < f {
            assert(i == 0);
            lemma_upper_start_bounds(a, f, k + 1);
            lemma_block_of(upper_start(a, f, k + 1), pow2(k as nat) as int);
            lemma_pow2_aligned_below(x, f as nat, (k + 1) as nat);
            lemma_aligned_sub(x, pow2((k + 1) as nat) as int);
            lemma_pow2_aligned_below(upper_start(a, f, k + 1), (k + 1) as nat, k as nat);
        } else if k == f {
            assert(nl[k][i] == lists[f][i]);
        } else {
            assert(nl[k][i] == lists[k][i]);
        }
    }
}

/// Freeing keeps the free blocks aligned: with every free block and `b`
/// starting at a multiple of its size, so does every free block after `b`
/// is freed into list `k` of `n` lists.
pub proof fn lemma_free_keeps_aligned(lists: Seq<Seq<Block>>, b: Block, k: int, n: int)
    requires
        lists_fit(lists),
        lists_aligned(lists),
        0 <= k < n <= lists.len(),
        pow2(n as nat) <= usize::MAX,
        block_fits(b, k),
        block_start(b) % block_size(b) == 0,
    ensures
        lists_aligned(lists_after_free(lists, b, k, n)),
    decreases n - k,
{
    lemma_pow2_pos(k as nat);
    if k + 1 >= n || !has_buddy(lists[k], b) {
        let nl = lists.update(k, lists[k].push(b));
        let m = lists[k].len() as int;
        assert forall|kk: int, i: int| 0 <= kk < nl.len() && 0 <= i < nl[kk].len()
            implies block_start(#[trigger] nl[kk][i]) % block_size(nl[kk][i]) == 0 by {
            if !(kk == k && i == m) {
                assert(nl[kk][i] == lists[kk][i]);
            }
        }
    } else {
        lemma_first_buddy_exists(lists[k], b);
        let j = first_buddy(lists[k], b);
        let bb = lists[k][j];
        let l1 = lists.update(k, lists[k].remove(j));
        let p = parent_block(b);
        let sb = block_start(b);
        let z = block_size(b);
        assert(block_fits(bb, k));
        lemma_pow2_unfold((k + 1) as nat);
        lemma_pow2_strictly_increases((k + 1) as nat, n as nat);
        let lo = if sb % (2 * z) == 0 { sb } else { sb - z };
        lemma_block_of(lo, 2 * z);
        assert(block_start(p) == lo && block_size(p) == 2 * z);
        assert(block_start(bb) == buddy_start(b) && block_size(bb) == z);
        assert(block_fits(p, k + 1));
        if sb % (2 * z) != 0 {
            lemma_upper_half(sb, z);
        }
        assert forall|kk: int, i: int| 0 <= kk < l1.len() && 0 <= i < l1[kk].len()
            implies #[trigger] l1[kk][i] == lists[kk][if kk == k && i >= j { i + 1 } else { i }] by {
        }
        assert forall|kk: int, i: int| 0 <= kk < l1.len() && 0 <= i < l1[kk].len() implies block_fits(#[trigger] l1[kk][i], kk)
            && block_start(l1[kk][i]) % block_size(l1[kk][i]) == 0 by {
            let i0 = if kk == k && i >= j { i + 1 } else { i };
            assert(l1[kk][i] == lists[kk][i0]);
        }
        assert(l1.len() == lists.len());
        lemma_free_keeps_aligned(l1, p, k + 1, n);
    }
}

/// The free items: those of some block of the free lists.
pub open spec fn free_items(lists: Seq<Seq<Block>>) -> Set<int> {
    Set::new(
        |x: int|
            exists|k: int, i: int|
                0 <= k < lists.len() && 0 <= i < lists[k].len()
                    && block_start(#[trigger] lists[k][i]) <= x < block_end(lists[k][i]),
    )
}

/// The items of block `b`.
pub open spec fn block_items(b: Block) -> Set<int> {
    Set::new(|x: int| block_start(b) <= x < block_end(b))
}

/// Freeing a block adds exactly its items to the free ones: with `b` a
/// block of list `k` of `n` lists, the free items after freeing it are the
/// free items before and those of `b`.
pub proof fn lemma_free_adds_items(lists: Seq<Seq<Block>>, b: Block, k: int, n: int)
    requires
        lists_fit(lists),
        0 <= k < n <= lists.len(),
        pow2(n as nat) <= usize::MAX,
        block_fits(b, k),
    ensures
        free_items(lists_after_free(lists, b, k, n)) == free_items(lists).union(block_items(b)),
    decreases n - k,
{
    lemma_pow2_pos(k as nat);
    if k + 1 >= n || !has_buddy(lists[k], b) {
        let nl = lists.update(k, lists[k].push(b));
        let m = lists[k].len() as int;
        assert forall|kk: int, i: int| 0 <= kk < nl.len() && 0 <= i < nl[kk].len() && !(kk == k && i == m)
            implies #[trigger] nl[kk][i] == lists[kk][i] by {
        }
        assert(nl[k][m] == b);
        let u = free_items(lists).union(block_items(b));
        assert forall|x: int| free_items(nl).contains(x) <==> u.contains(x) by {
            if free_items(nl).contains(x) {
                let (kk, i) = choose|kk: int, i: int| 0 <= kk < nl.len() && 0 <= i < nl[kk].len()
                    && block_start(#[trigger] nl[kk][i]) <= x < block_end(nl[kk][i]);
                if !(kk == k && i == m) {
                    assert(nl[kk][i] == lists[kk][i]);
                }
            }
            if free_items(lists).contains(x) {
                let (kk, i) = choose|kk: int, i: int| 0 <= kk < lists.len() && 0 <= i < lists[kk].len()
                    && block_start(#[trigger] lists[kk][i]) <= x < block_end(lists[kk][i]);
                assert(nl[kk][i] == lists[kk][i]);
            }
            if block_items(b).contains(x) {
                assert(block_start(nl[k][m]) <= x < block_end(nl[k][m]));
            }
        }
        assert(free_items(nl) =~= u);
    } else {
        lemma_first_buddy_exists(lists[k], b);
        let j = first_buddy(lists[k], b);
        let bb = lists[k][j];
        let l1 = lists.update(k, lists[k].remove(j));
        let p = parent_block(b);
        let sb = block_start(b);
        let z = block_size(b);
        assert(block_fits(bb, k));
        lemma_pow2_unfold((k + 1) as nat);
        lemma_pow2_strictly_increases((k + 1) as nat, n as nat);
        let lo = if sb % (2 * z) == 0 { sb } else { sb - z };
        lemma_block_of(lo, 2 * z);
        assert(block_start(p) == lo && block_size(p) == 2 * z);
        assert(block_start(bb) == buddy_start(b) && block_size(bb) == z);
        assert(block_fits(p, k + 1));
        assert forall|kk: int, i: int| 0 <= kk < l1.len() && 0 <= i < l1[kk].len()
            implies #[trigger] l1[kk][i] == lists[kk][if kk == k && i >= j { i + 1 } else { i }] by {
        }
        assert forall|kk: int, i: int| 0 <= kk < l1.len() && 0 <= i < l1[kk].len() implies block_fits(#[trigger] l1[kk][i], kk) by {
            let i0 = if kk == k && i >= j { i + 1 } else { i };
            assert(l1[kk][i] == lists[kk][i0]);
        }
        assert(l1.len() == lists.len());
        lemma_free_adds_items(l1, p, k + 1, n);
        let bi = block_items(bb);
        assert forall|x: int| free_items(lists).contains(x) <==> (free_items(l1).contains(x) || bi.contains(x)) by {
            if free_items(lists).contains(x) {
                let (kk, i) = choose|kk: int, i: int| 0 <= kk < lists.len() && 0 <= i < lists[kk].len()
                    && block_start(#[trigger] lists[kk][i]) <= x < block_end(lists[kk][i]);
                if kk == k && i > j {
                    assert(l1[kk][i - 1] == lists[kk][i]);
                } else if !(kk == k && i == j) {
                    assert(l1[kk][i] == lists[kk][i]);
                }
            }
            if free_items(l1).contains(x) {
                let (kk, i) = choose|kk: int, i: int| 0 <= kk < l1.len() && 0 <= i < l1[kk].len()
                    && block_start(#[trigger] l1[kk][i]) <= x < block_end(l1[kk][i]);
                let i0 = if kk == k && i >= j { i + 1 } else { i };
                assert(l1[kk][i] == lists[kk][i0]);
            }
            if bi.contains(x) {
                assert(block_start(lists[k][j]) <= x < block_end(lists[k][j]));
            }
        }
        let after = lists_after_free(l1, p, k + 1, n);
        let u = free_items(lists).union(block_items(b));
        assert forall|x: int| free_items(after).contains(x) <==> u.contains(x) by {
            assert(free_items(after).contains(x) == (free_items(l1).contains(x) || block_items(p).contains(x)));
            assert(block_items(p).contains(x) == (block_items(b).contains(x) || bi.contains(x)));
        }
        assert(free_items(after) =~= u);
    }
}

impl BuddySystemVectorAllocator {
    /// The free lists: entry `k` lists the free blocks of `2^k` items.
    pub closed spec fn lists(&self) -> Seq<Seq<Block>> {
        self.list@.map_values(|v: Vec<Block>| v@)
    }

    /// Number of items the allocator manages.
    pub closed spec fn capacity_spec(&self) -> nat {
        self.capacity as nat
    }

    /// The allocator's invariant.
    pub closed spec fn well_formed(&self) -> bool {
        &&& 1 <= self.list_size
        &&& self.list@.len() == self.list_size
        &&& pow2(self.list_size as nat) <= usize::MAX
        &&& self.capacity == pow2((self.list_size - 1) as nat)
        &&& forall|k: int, i: int|
            0 <= k < self.list_size && 0 <= i < self.lists()[k].len() ==> block_fits(
                #[trigger] self.lists()[k][i],
                k,
            )
    }

    /// What the invariant gives a caller: every block fits its list, and the
    /// capacity is the size of a block of the top list.
    pub proof fn lemma_well_formed(&self)
        requires
            self.well_formed(),
        ensures
            lists_fit(self.lists()),
            self.lists().len() == self.list_count(),
            1 <= self.list_count(),
            pow2(self.list_count() as nat) <= usize::MAX,
            self.capacity_spec() == pow2((self.list_count() - 1) as nat),
    {
    }

    /// Number of free lists.
    pub closed spec fn list_count(&self) -> int {
        self.list_size as int
    }

    /// Free `new_block` into list `index`; see [`lists_after_free`]. The
    /// block is aligned to its size and lies inside the capacity.
    fn update(&mut self, new_block: Block, index: usize)
        requires
            old(self).well_formed(),
            index < old(self).list_size,
            block_fits(new_block, index as int),
            block_start(new_block) % block_size(new_block) == 0,
            block_start(new_block) + block_size(new_block) <= old(self).capacity,
        ensures
            final(self).well_formed(),
            final(self).list_size == old(self).list_size,
            final(self).capacity == old(self).capacity,
            final(self).lists() == lists_after_free(old(self).lists(), new_block, index as int, old(self).list_size as int),
        decreases old(self).list_size - index,
    {
        let ghost ls = self.list_size as int;
        let ghost lists0 = self.lists();
        let ghost k = index as int;
        if index + 1 >= self.list_size {
            let ghost l0 = self.list@;
            self.list[index].push(new_block);
            proof {
                assert(self.lists() =~= lists0.update(k, lists0[k].push(new_block)));
                assert forall|kk: int, j: int| 0 <= kk < ls && 0 <= j < self.lists()[kk].len() implies block_fits(
                    #[trigger] self.lists()[kk][j],
                    kk,
                ) by {
                    if kk != k || j < lists0[k].len() {
                        assert(self.lists()[kk][j] == lists0[kk][j]);
                    }
                }
            }
            return;
        }
        let size = new_block.size;
        proof {
            lemma_pow2_pos(k as nat);
            lemma_pow2_unfold((k + 1) as nat);
            lemma_pow2_adds((k + 1) as nat, (ls - 2 - k) as nat);
            assert(pow2((ls - 1) as nat) == pow2((k + 1) as nat) * pow2((ls - 2 - k) as nat));
            lemma_pow2_pos((ls - 2 - k) as nat);
            let c = pow2((ls - 1) as nat) as int;
            let m = pow2((k + 1) as nat) as int;
            let t = pow2((ls - 2 - k) as nat) as int;
            assert(c % m == 0) by (nonlinear_arith)
                requires c == m * t, m > 0;
            lemma_parent_fits(new_block.start as int, size as int, self.capacity as int);
        }
        let double = size * 2;
        let odd = new_block.start % double != 0;
        let buddy = if odd { new_block.start - size } else { new_block.start + size };
        let parent_start = if odd { new_block.start - size } else { new_block.start };
        let n = self.list[index].len();
        let mut i: usize = 0;
        while i < n && self.list[index][i].start != buddy
            invariant
                self.lists() == lists0,
                self.well_formed(),
                self.list_size == ls,
                0 <= k < ls,
                k == index,
                n == lists0[k].len(),
                i <= n,
                buddy == buddy_start(new_block),
                forall|j: int| 0 <= j < i ==> block_start(#[trigger] lists0[k][j]) != buddy_start(new_block),
            decreases n - i,
        {
            i = i + 1;
        }
        if i < n {
            proof {
                assert(is_first_buddy(lists0[k], new_block, i as int));
                lemma_first_buddy_exists(lists0[k], new_block);
                let fb = first_buddy(lists0[k], new_block);
                if fb < i {
                    assert(block_start(lists0[k][fb]) != buddy_start(new_block));
                }
                if fb > i {
                    assert(block_start(lists0[k][i as int]) != buddy_start(new_block));
                }
            }
            self.list[index].remove(i);
            let parent = Block { start: parent_start, size: double };
            proof {
                let l1 = self.lists();
                assert(l1 =~= lists0.update(k, lists0[k].remove(i as int)));
                assert forall|kk: int, j: int| 0 <= kk < ls && 0 <= j < l1[kk].len() implies block_fits(
                    #[trigger] l1[kk][j],
                    kk,
                ) by {
                    if kk != k {
                        assert(l1[kk][j] == lists0[kk][j]);
                    } else if j < i {
                        assert(l1[kk][j] == lists0[kk][j]);
                    } else {
                        assert(l1[kk][j] == lists0[kk][j + 1]);
                    }
                }
                assert(parent == parent_block(new_block));
                lemma_pow2_strictly_increases((k + 1) as nat, ls as nat);
            }
            self.update(parent, index + 1);
        } else {
            self.list[index].push(new_block);
            proof {
                assert(!has_buddy(lists0[k], new_block));
                assert(self.lists() =~= lists0.update(k, lists0[k].push(new_block)));
                assert forall|kk: int, j: int| 0 <= kk < ls && 0 <= j < self.lists()[kk].len() implies block_fits(
                    #[trigger] self.lists()[kk][j],
                    kk,
                ) by {
                    if kk != k || j < lists0[k].len() {
                        assert(self.lists()[kk][j] == lists0[kk][j]);
                    }
                }
            }
        }
    }
}

/// The level that `new(capacity)` builds its lists up to (exclusive).
pub open spec fn buddy_list_count(capacity: usize) -> nat {
    ceil_log2(capacity as nat)
}

impl VectorAllocator for BuddySystemVectorAllocator {
    open spec fn wf(&self) -> bool {
        self.well_formed()
    }

    /// The capacity is rounded up to a power of two and halved; that must
    /// leave at least `2` items (anything else would panic).
    open spec fn new_requires(capacity: usize) -> bool {
        &&& buddy_list_count(capacity) >= 2
        &&& pow2(buddy_list_count(capacity)) <= usize::MAX
    }

    /// Any request is admitted: one larger than the capacity, or one that
    /// finds no free block of its rounded-up size or larger, gets `None`.
    open spec fn alloc_requires(&self, size: usize) -> bool {
        true
    }

    /// The size must be a power of two, the run aligned to it and inside
    /// the capacity, as every run the allocator hands out is. Whether the
    /// run is still handed out is not checked: the laws on freeing
    /// (`lemma_free_keeps_runs_apart`) assume it.
    open spec fn dealloc_requires(&self, start: usize, size: usize) -> bool {
        &&& is_power_of_two(size as int)
        &&& start % size == 0
        &&& start + size <= self.capacity_spec()
    }

    /// One free block of `2^(c - 1)` items at `0`, where `2^c` is the
    /// capacity rounded up to a power of two.
    fn new(capacity: usize) -> (r: Self)
        ensures
            r.capacity_spec() == pow2((buddy_list_count(capacity) - 1) as nat),
            r.lists() == Seq::new(
                buddy_list_count(capacity),
                |k: int|
                    if k == buddy_list_count(capacity) - 1 {
                        seq![block(0, pow2((buddy_list_count(capacity) - 1) as nat) as int)]
                    } else {
                        Seq::<Block>::empty()
                    },
            ),
            lists_aligned(r.lists()),
    {
        let ghost c = buddy_list_count(capacity);
        proof {
            lemma_pow2_unfold(c);
        }
        let total_size = next_power_of_two(capacity) / 2;
        proof {
            lemma_pow2_pos((c - 1) as nat);
            lemma_pow2_unfold((c - 1) as nat);
        }
        let log_total = log_two(total_size);
        proof {
            lemma2_pow_bound(log_total as nat, total_size as nat);
        }
        let list_size = log_total + 1;
        proof {
            lemma_pow2_injective((list_size - 1) as nat, (c - 1) as nat);
        }
        let mut new_list: Vec<Vec<Block>> = Vec::new();
        let mut k: usize = 0;
        while k < list_size
            invariant
                k <= list_size,
                new_list@.len() == k,
                forall|j: int| 0 <= j < k ==> (#[trigger] new_list@[j])@ == Seq::<Block>::empty(),
            decreases list_size - k,
        {
            new_list.push(Vec::new());
            k = k + 1;
        }
        let first_block = Block { start: 0, size: total_size };
        new_list[list_size - 1].push(first_block);
        let r = Self { capacity: total_size, list_size: list_size, list: new_list };
        proof {
            assert(r.lists() =~= Seq::new(
                c,
                |k: int|
                    if k == c - 1 {
                        seq![block(0, pow2((c - 1) as nat) as int)]
                    } else {
                        Seq::<Block>::empty()
                    },
            ));
            assert forall|k: int, i: int| 0 <= k < r.list_size && 0 <= i < r.lists()[k].len() implies block_fits(
                #[trigger] r.lists()[k][i],
                k,
            ) by {
                assert(k == c - 1);
            }
            assert forall|k: int, i: int| 0 <= k < r.lists().len() && 0 <= i < r.lists()[k].len()
                implies block_start(#[trigger] r.lists()[k][i]) % block_size(r.lists()[k][i]) == 0 by {
                assert(k == c - 1 && i == 0);
                assert(r.lists()[k][i] == first_block);
            }
        }
        r
    }

    /// A request above the capacity, or one for which no list at or above its
    /// level holds a block, gets `None`. Otherwise the request is
    /// rounded up to `2^g` items, the first non-empty list `f >= g` gives up
    /// its last block (of `2^f` items at `a`), which is split in halves down
    /// to level `g`; the caller gets the top `2^g` items, `a + 2^f - 2^g`.
    fn allocate(&mut self, size: usize, _align: usize) -> (r: Option<usize>)
        ensures
            final(self).capacity_spec() == old(self).capacity_spec(),
            size > old(self).capacity_spec() ==> r is None && final(self).lists() == old(self).lists(),
            size <= old(self).capacity_spec() && !has_free_level(old(self).lists(), ceil_log2(size as nat) as int)
                ==> r is None && final(self).lists() == old(self).lists(),
            size <= old(self).capacity_spec() && has_free_level(old(self).lists(), ceil_log2(size as nat) as int) ==> {
                let g = ceil_log2(size as nat) as int;
                let f = first_free_level(old(self).lists(), g);
                let a = block_start(old(self).lists()[f].last());
                &&& r == Some(upper_start(a, f, g) as usize)
                &&& final(self).lists() == lists_after_alloc(old(self).lists(), g, f)
            },
    {
        if size > self.capacity {
            return None;
        }
        let ghost lists0 = self.lists();
        let ghost ls = self.list_size as int;
        let ghost g = ceil_log2(size as nat) as int;
        proof {
            lemma_ceil_log2(size as nat);
            // the rounded-up size is at most the capacity, a power of two
            if g > ls - 1 {
                if g - 1 > ls - 1 {
                    lemma_pow2_strictly_increases((ls - 1) as nat, (g - 1) as nat);
                }
                assert(false);
            }
            if g < ls - 1 {
                lemma_pow2_strictly_increases(g as nat, (ls - 1) as nat);
            }
            if g > 0 {
                lemma_pow2_unfold(g as nat);
            }
            lemma_ceil_log2_of_pow2(g as nat);
        }
        let get_index = if size <= 1 {
            0
        } else {
            let npot = next_power_of_two(size);
            log_two(npot)
        };
        proof {
            if size > 1 {
                lemma_pow2_injective(get_index as nat, g as nat);
            }
        }
        let mut find_index = get_index;
        while find_index < self.list_size && self.list[find_index].is_empty()
            invariant
                g == get_index,
                g <= find_index <= ls,
                self.lists() == lists0,
                self.well_formed(),
                self.list_size == ls,
                forall|k: int| g <= k < find_index ==> (#[trigger] lists0[k]).len() == 0,
            decreases ls - find_index,
        {
            find_index += 1;
        }
        if find_index >= self.list_size {
            proof {
                if has_free_level(lists0, g) {
                    let f = choose|f: int| g <= f < lists0.len() && (#[trigger] lists0[f]).len() > 0;
                    assert(lists0[f].len() == 0);
                }
            }
            return None;
        }
        proof {
            assert(is_first_free_level(lists0, g, find_index as int));
            assert(has_free_level(lists0, g));
            lemma_first_free_level_exists(lists0, g);
            let f = first_free_level(lists0, g);
            if f < find_index {
                assert(lists0[f].len() == 0);
            }
            if f > find_index {
                assert(lists0[find_index as int].len() == 0);
            }
        }
        let ghost f = first_free_level(lists0, g);
        let ghost a = block_start(lists0[f].last());
        proof {
            assert(block_fits(lists0[f][lists0[f].len() - 1], f));
            lemma_block_roundtrip(lists0[f].last());
        }
        let mut i: usize = 0;
        while i < find_index - get_index
            invariant
                find_index == f,
                get_index == g,
                0 <= g <= f < ls,
                i <= f - g,
                self.list_size == ls,
                self.list@.len() == ls,
                self.capacity == old(self).capacity,
                pow2(ls as nat) <= usize::MAX,
                self.capacity == pow2((ls - 1) as nat),
                is_first_free_level(lists0, g, f),
                a == block_start(lists0[f].last()),
                block_fits(lists0[f].last(), f),
                lists0.len() == ls,
                forall|k: int| 0 <= k < ls && (k > f || k < f - i) ==> #[trigger] self.lists()[k] == lists0[k],
                forall|k: int| f - i < k <= f ==> #[trigger] self.lists()[k] == split_level(lists0, g, f, a, k),
                i == 0 ==> self.lists()[f] == lists0[f],
                i > 0 ==> self.lists()[f - i] == seq![
                    block(upper_start(a, f, f - i + 1), pow2((f - i) as nat) as int),
                    block(upper_start(a, f, f - i), pow2((f - i) as nat) as int),
                ],
            decreases f - g - i,
        {
            let ghost lv = f - i;
            let ghost cur = self.lists();
            let temp_block = self.list[find_index - i].pop();
            let ghost popped = self.lists();
            proof {
                assert(popped =~= cur.update(lv, cur[lv].drop_last()));
            }
            match temp_block {
                None => {
                    proof {
                        assert(cur[lv].len() > 0);
                        assert(false);
                    }
                },
                Some(tblock) => {
                    proof {
                        lemma_upper_start_bounds(a, f, lv);
                        lemma_upper_start_bounds(a, f, lv - 1);
                        if i > 0 {
                            lemma_upper_start_bounds(a, f, lv + 1);
                        }
                        lemma_pow2_unfold(lv as nat);
                        if i == 0 {
                            assert(tblock == lists0[f].last());
                        } else {
                            assert(tblock == block(upper_start(a, f, lv), pow2(lv as nat) as int));
                        }
                        assert(block_start(tblock) == upper_start(a, f, lv));
                        assert(block_size(tblock) == pow2(lv as nat));
                    }
                    let lower = Block { start: tblock.start, size: tblock.size / 2 };
                    let upper = Block { start: tblock.start + tblock.size / 2, size: tblock.size / 2 };
                    self.list[find_index - i - 1].push(lower);
                    self.list[find_index - i - 1].push(upper);
                    proof {
                        assert(self.lists() =~= popped.update(lv - 1, popped[lv - 1].push(lower).push(upper)));
                        assert(popped[lv - 1] == lists0[lv - 1]);
                        assert(lists0[lv - 1].len() == 0);
                        assert(lower == block(upper_start(a, f, lv), pow2((lv - 1) as nat) as int));
                        assert(upper == block(upper_start(a, f, lv - 1), pow2((lv - 1) as nat) as int));
                    }
                },
            }
            proof {
                let nl = self.lists();
                assert forall|k: int| f - (i + 1) < k <= f implies #[trigger] nl[k] == split_level(lists0, g, f, a, k) by {
                    if k == lv {
                        if i == 0 {
                            assert(nl[k] =~= lists0[f].drop_last());
                        } else {
                            assert(nl[k] =~= seq![block(upper_start(a, f, lv + 1), pow2(lv as nat) as int)]);
                        }
                    }
                }
                assert(nl[lv - 1] =~= seq![
                    block(upper_start(a, f, lv), pow2((lv - 1) as nat) as int),
                    block(upper_start(a, f, lv - 1), pow2((lv - 1) as nat) as int),
                ]);
            }
            i += 1;
        }
        let ghost before = self.lists();
        let alloc_block = self.list[get_index].pop();
        proof {
            assert(self.lists() =~= before.update(g, before[g].drop_last()));
        }
        match alloc_block {
            None => {
                proof {
                    assert(false);
                }
                None
            },
            Some(get_block) => {
                proof {
                    let nl = self.lists();
                    let target = lists_after_alloc(lists0, g, f);
                    lemma_upper_start_bounds(a, f, g);
                    if f > g {
                        lemma_upper_start_bounds(a, f, g + 1);
                        assert(before[g] == seq![
                            block(upper_start(a, f, g + 1), pow2(g as nat) as int),
                            block(upper_start(a, f, g), pow2(g as nat) as int),
                        ]);
                        assert(nl[g] =~= split_level(lists0, g, f, a, g));
                        assert(get_block == block(upper_start(a, f, g), pow2(g as nat) as int));
                    } else {
                        assert(nl[g] =~= split_level(lists0, g, f, a, g));
                        assert(get_block == lists0[f].last());
                    }
                    assert forall|k: int| 0 <= k < ls implies #[trigger] nl[k] == target[k] by {
                        if g < k <= f {
                            assert(nl[k] == before[k]);
                        }
                    }
                    assert(nl =~= target);
                    assert forall|k: int, j: int| 0 <= k < ls && 0 <= j < nl[k].len() implies block_fits(
                        #[trigger] nl[k][j],
                        k,
                    ) by {
                        if g <= k <= f {
                            if k == f {
                                assert(nl[k][j] == lists0[k][j]);
                                assert(block_fits(lists0[k][j], k));
                            } else {
                                lemma_upper_start_bounds(a, f, k);
                                lemma_upper_start_bounds(a, f, k + 1);
                            }
                        } else {
                            assert(block_fits(lists0[k][j], k));
                        }
                    }
                }
                Some(get_block.start)
            },
        }
    }

    /// Gives back the run of `size` items at `start` into list
    /// `log2(size)`, merging it with its buddy where the buddy is free; see
    /// [`lists_after_free`].
    fn dealloc(&mut self, start: usize, size: usize, _align: usize)
        ensures
            final(self).capacity_spec() == old(self).capacity_spec(),
            final(self).lists() == lists_after_free(
                old(self).lists(),
                block(start as int, size as int),
                ceil_log2(size as nat) as int,
                old(self).list_count(),
            ),
    {
        let ghost k = choose|k: nat| pow2(k) == size;
        let ghost ls = self.list_size as int;
        proof {
            lemma_ceil_log2_of_pow2(k);
            if k == 0 {
                vstd::arithmetic::power2::lemma2_to64();
            } else {
                lemma_pow2_unfold(k);
            }
            if k > ls - 1 {
                lemma_pow2_strictly_increases((ls - 1) as nat, k);
            }
        }
        let get_index = if size == 1 { 0 } else { log_two(size) };
        proof {
            if size != 1 {
                lemma_pow2_injective(get_index as nat, k);
            } else if k > 0 {
                lemma_pow2_pos((k - 1) as nat);
            }
        }
        let new_block = Block { start: start, size: size };
        self.update(new_block, get_index);
    }
}

} // verus!
