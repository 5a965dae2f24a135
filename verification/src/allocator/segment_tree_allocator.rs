//! [`SegmentTreeAllocator`]: a bit-packed segment tree over the items.

use vstd::prelude::*;
use vstd::arithmetic::power2::{pow2, lemma_pow2_unfold, lemma_pow2_pos, lemma_pow2_adds, lemma2_to64};
use crate::allocator::Allocator;
use crate::bits::{
    byte_bit, bytes_get_bit, bytes_set_bit, ceil_log2, is_power_of_two, lemma_bytes_set_bit,
    lemma_ceil_log2, lemma_full_and_empty_bytes, next_power_of_two,
};

verus! {

/// Segment tree allocator.
///
/// Node `i` of the tree is bit `i` of `tree`; node `1` is the root, nodes `2i`
/// and `2i + 1` are the children of `i`, and the `n` leaves are the nodes
/// `n .. 2n`. A set bit means that every item below the node is taken.
pub struct SegmentTreeAllocator {
    tree: Vec<u8>,
}

/// The node reached from `l` after `k` steps towards the root.
pub open spec fn ancestor(l: int, k: nat) -> int
    decreases k,
{
    if k == 0 {
        l
    } else {
        ancestor(l, (k - 1) as nat) / 2
    }
}

/// `a` lies strictly above `x` on the path from `x` to the root.
pub open spec fn is_strict_ancestor(a: int, x: int) -> bool
    decreases x,
{
    if x <= 1 {
        false
    } else {
        x / 2 == a || is_strict_ancestor(a, x / 2)
    }
}

/// Being a strict ancestor is transitive.
proof fn lemma_strict_ancestor_trans(a: int, b: int, x: int)
    requires
        is_strict_ancestor(a, b),
        is_strict_ancestor(b, x),
    ensures
        is_strict_ancestor(a, x),
    decreases x,
{
    if x / 2 != b {
        lemma_strict_ancestor_trans(a, b, x / 2);
    }
}

/// Internal node `i` is set exactly when both of its children are.
pub open spec fn node_consistent(t: Seq<u8>, i: int) -> bool {
    byte_bit(t, i) == (byte_bit(t, 2 * i) && byte_bit(t, 2 * i + 1))
}

/// Every internal node of a tree with `n` leaves is consistent.
pub open spec fn tree_consistent(t: Seq<u8>, n: int) -> bool {
    forall|i: int| 1 <= i < n ==> #[trigger] node_consistent(t, i)
}

/// Leaf `j` of a tree with `n` leaves is taken.
pub open spec fn leaf_taken(t: Seq<u8>, n: int, j: int) -> bool {
    byte_bit(t, n + j)
}

proof fn lemma_ancestor_le(l: int, k: nat)
    requires
        0 <= l,
    ensures
        0 <= ancestor(l, k) <= l,
    decreases k,
{
    if k > 0 {
        lemma_ancestor_le(l, (k - 1) as nat);
    }
}

/// On a tree of height `h`, the ancestor of a leaf `k` levels up lies on
/// level `h - k`.
proof fn lemma_ancestor_level(l: int, h: nat, k: nat)
    requires
        pow2(h) <= l < 2 * pow2(h),
        k <= h,
    ensures
        pow2((h - k) as nat) <= ancestor(l, k) < 2 * pow2((h - k) as nat),
    decreases k,
{
    if k > 0 {
        lemma_ancestor_level(l, h, (k - 1) as nat);
        lemma_pow2_unfold((h - k + 1) as nat);
    }
}

/// Below a taken node, every leaf is taken.
proof fn lemma_descendant_taken(t: Seq<u8>, n: int, i: int, l: int, k: nat)
    requires
        tree_consistent(t, n),
        1 <= i,
        byte_bit(t, i),
        n <= l < 2 * n,
        ancestor(l, k) == i,
    ensures
        byte_bit(t, l),
    decreases k,
{
    if k > 0 {
        let c = ancestor(l, (k - 1) as nat);
        lemma_ancestor_le(l, (k - 1) as nat);
        assert(c / 2 == i);
        assert(i < n);
        assert(node_consistent(t, i));
        assert(c == 2 * i || c == 2 * i + 1);
        lemma_descendant_taken(t, n, c, l, (k - 1) as nat);
    }
}

/// Recomputing the parent of `x` moves the only possibly inconsistent nodes
/// one level up.
proof fn lemma_refresh_step(t1: Seq<u8>, n: int, x: int, v: bool)
    requires
        1 < x < 2 * n,
        t1.len() == 2 * n,
        v == (byte_bit(t1, 2 * (x / 2)) && byte_bit(t1, 2 * (x / 2) + 1)),
        forall|i: int| 1 <= i < n && !is_strict_ancestor(i, x) ==> #[trigger] node_consistent(t1, i),
    ensures
        forall|i: int| 1 <= i < n && !is_strict_ancestor(i, x / 2) ==> #[trigger] node_consistent(
            t1.update(x / 2 / 8, crate::bits::with_bit(t1[x / 2 / 8], x / 2 % 8, v)),
            i,
        ),
{
    let p = x / 2;
    let t = t1.update(p / 8, crate::bits::with_bit(t1[p / 8], p % 8, v));
    assert forall|i: int| 1 <= i < n && !is_strict_ancestor(i, p) implies #[trigger] node_consistent(t, i) by {
        lemma_bytes_set_bit(t1, p, v, i);
        lemma_bytes_set_bit(t1, p, v, 2 * i);
        lemma_bytes_set_bit(t1, p, v, 2 * i + 1);
        if i != p {
            assert(is_strict_ancestor(i, x) == (p == i || is_strict_ancestor(i, p)));
            assert(node_consistent(t1, i));
            if 2 * i == p || 2 * i + 1 == p {
                assert(p / 2 == i);
                assert(is_strict_ancestor(i, p));
            }
        }
    }
}

/// Giving back the item that an allocation took leaves the items as they
/// were before the allocation.
pub proof fn lemma_dealloc_undoes_allocate(items: Seq<bool>, j: int)
    requires
        0 <= j < items.len(),
        !items[j],
    ensures
        items.update(j, true).update(j, false) == items,
{
    assert(items.update(j, true).update(j, false) =~= items);
}

/// Two allocations with no item given back in between take different
/// items: the second picks a free item of the items after the first.
pub proof fn lemma_allocations_distinct(items: Seq<bool>, j: int, k: int)
    requires
        0 <= j < items.len(),
        0 <= k < items.len(),
        !items.update(j, true)[k],
    ensures
        j != k,
{
}

impl SegmentTreeAllocator {
    /// Number of leaves.
    pub closed spec fn leaf_count(&self) -> nat {
        (self.tree@.len() / 2) as nat
    }

    /// The bytes of the tree: bit `i` of them is node `i` (`1` the root,
    /// `2 * i` and `2 * i + 1` the children of `i`, the leaves from
    /// `leaf_count()` on).
    pub closed spec fn bits(&self) -> Seq<u8> {
        self.tree@
    }

    /// The items, `true` for a taken one.
    pub closed spec fn items(&self) -> Seq<bool> {
        Seq::new(self.leaf_count(), |j: int| leaf_taken(self.tree@, self.leaf_count() as int, j))
    }

    /// There is one item per leaf.
    pub proof fn lemma_items_len(&self)
        ensures
            self.items().len() == self.leaf_count(),
    {
    }

    /// The tree's invariant.
    pub closed spec fn well_formed(&self) -> bool {
        &&& is_power_of_two(self.leaf_count() as int)
        &&& self.tree@.len() == 2 * self.leaf_count()
        &&& tree_consistent(self.tree@, self.leaf_count() as int)
    }

    /// Set leaf `index` to `truth` and bring its ancestors up to date: every
    /// internal node is again set exactly when both its children are, and
    /// only the leaf and the nodes on its path to the root may change.
    pub fn refresh_tree(&mut self, index: usize, truth: bool)
        requires
            old(self).well_formed(),
            old(self).leaf_count() <= index < 2 * old(self).leaf_count(),
        ensures
            final(self).well_formed(),
            final(self).leaf_count() == old(self).leaf_count(),
            final(self).items() == old(self).items().update(
                index - old(self).leaf_count(),
                truth,
            ),
            final(self).bits().len() == old(self).bits().len(),
            tree_consistent(final(self).bits(), final(self).leaf_count() as int),
            byte_bit(final(self).bits(), index as int) == truth,
            forall|l: int| 0 <= l < 8 * old(self).bits().len() && l != index && !is_strict_ancestor(l, index as int)
                ==> byte_bit(final(self).bits(), l) == byte_bit(old(self).bits(), l),
    {
        let ghost n = self.leaf_count() as int;
        let ghost t0 = self.tree@;
        let ghost leaf = index as int;
        let mut index = index;
        bytes_set_bit(&mut self.tree, index, truth);
        proof {
            let t = self.tree@;
            assert forall|l: int| n <= l < 2 * n implies byte_bit(t, l) == (if l == leaf {
                truth
            } else {
                byte_bit(t0, l)
            }) by {
                lemma_bytes_set_bit(t0, leaf, truth, l);
            }
            assert forall|l: int| 0 <= l < 16 * n && l != leaf && !is_strict_ancestor(l, leaf)
                implies byte_bit(t, l) == byte_bit(t0, l) by {
                lemma_bytes_set_bit(t0, leaf, truth, l);
            }
            assert forall|i: int| 1 <= i < n && !is_strict_ancestor(i, leaf) implies #[trigger] node_consistent(t, i) by {
                assert(node_consistent(t0, i));
                lemma_bytes_set_bit(t0, leaf, truth, i);
                lemma_bytes_set_bit(t0, leaf, truth, 2 * i);
                lemma_bytes_set_bit(t0, leaf, truth, 2 * i + 1);
                if 2 * i == leaf || 2 * i + 1 == leaf {
                    assert(leaf / 2 == i);
                }
            }
        }
        while index > 1
            invariant
                1 <= index < 2 * n,
                n <= leaf < 2 * n,
                n >= 1,
                self.tree@.len() == 2 * n,
                forall|l: int| n <= l < 2 * n ==> byte_bit(self.tree@, l) == (if l == leaf {
                    truth
                } else {
                    byte_bit(t0, l)
                }),
                forall|i: int| 1 <= i < n && !is_strict_ancestor(i, index as int)
                    ==> #[trigger] node_consistent(self.tree@, i),
                index == leaf || is_strict_ancestor(index as int, leaf),
                forall|l: int| 0 <= l < 16 * n && l != leaf && !is_strict_ancestor(l, leaf)
                    ==> byte_bit(self.tree@, l) == byte_bit(t0, l),
            decreases index,
        {
            let ghost t1 = self.tree@;
            let ghost old_index = index as int;
            index = index / 2;
            let left = bytes_get_bit(&self.tree, index * 2);
            let right = bytes_get_bit(&self.tree, index * 2 + 1);
            if left && right {
                bytes_set_bit(&mut self.tree, index, true);
            } else {
                bytes_set_bit(&mut self.tree, index, false);
            }
            proof {
                let p = index as int;
                let v = left && right;
                assert forall|l: int| n <= l < 2 * n implies byte_bit(self.tree@, l) == (if l == leaf {
                    truth
                } else {
                    byte_bit(t0, l)
                }) by {
                    lemma_bytes_set_bit(t1, p, v, l);
                }
                lemma_refresh_step(t1, n, old_index, v);
                assert(is_strict_ancestor(p, old_index));
                if old_index != leaf {
                    lemma_strict_ancestor_trans(p, old_index, leaf);
                }
                assert forall|l: int| 0 <= l < 16 * n && l != leaf && !is_strict_ancestor(l, leaf)
                    implies byte_bit(self.tree@, l) == byte_bit(t0, l) by {
                    lemma_bytes_set_bit(t1, p, v, l);
                }
            }
        }
        proof {
            let t = self.tree@;
            assert forall|i: int| 1 <= i < n implies #[trigger] node_consistent(t, i) by {
                assert(!is_strict_ancestor(i, index as int));
            }
            assert(self.items() =~= old(self).items().update(leaf - n, truth));
        }
    }
}

/// A power of two that is at least `8` is a multiple of `8`.
proof fn lemma_pow2_multiple_of_8(k: nat)
    requires
        pow2(k) >= 8,
    ensures
        pow2(k) % 8 == 0,
{
    lemma2_to64();
    if k < 3 {
        if k == 0 {} else if k == 1 {} else {}
        assert(false);
    }
    lemma_pow2_adds(3, (k - 3) as nat);
    assert(pow2(k) == 8 * pow2((k - 3) as nat));
}

/// The leaf count that `new(capacity)` builds.
pub open spec fn segment_leaf_count(capacity: usize) -> nat {
    pow2(ceil_log2(capacity as nat))
}

impl Allocator for SegmentTreeAllocator {
    open spec fn wf(&self) -> bool {
        self.well_formed()
    }

    open spec fn new_requires(capacity: usize) -> bool {
        2 * segment_leaf_count(capacity) + 8 <= usize::MAX
    }

    open spec fn dealloc_requires(&self, index: usize) -> bool {
        index < self.leaf_count()
    }

    /// The leaf count is the capacity rounded up to a power of two; the
    /// items past `capacity` start out taken.
    fn new(capacity: usize) -> (r: Self)
        ensures
            r.leaf_count() == segment_leaf_count(capacity),
            r.items() == Seq::new(segment_leaf_count(capacity), |j: int| j >= capacity),
    {
        proof {
            lemma_ceil_log2(capacity as nat);
            lemma_pow2_pos(ceil_log2(capacity as nat));
        }
        let leaf_num = next_power_of_two(capacity);
        let ghost n = leaf_num as int;
        let mut tree: Vec<u8> = vec![0u8; leaf_num * 2];
        let ghost c8 = (capacity as int + 7) / 8;
        // byte-level picture after the first loop
        let ghost first = |p: int| n / 8 + c8 <= p / 8 < 2 * (n / 8);
        let mut i: usize = (capacity + 7) / 8;
        while i < leaf_num / 8
            invariant
                n == leaf_num,
                n >= 1,
                capacity <= n,
                c8 == (capacity as int + 7) / 8,
                c8 <= i,
                i <= n / 8 || i == c8,
                tree@.len() == 2 * n,
                forall|b: int| 0 <= b < 2 * n ==> #[trigger] tree@[b] == (if n / 8 + c8 <= b < n / 8 + i {
                    0xffu8
                } else {
                    0u8
                }),
            decreases n / 8 - i,
        {
            tree.set(leaf_num / 8 + i, 255u8);
            i = i + 1;
        }
        proof {
            assert forall|p: int| 0 <= p < 16 * n implies byte_bit(tree@, p) == first(p) by {
                lemma_full_and_empty_bytes(p % 8);
                if c8 <= n / 8 {
                    assert(i == n / 8 || i == c8);
                }
            }
        }
        let mut bit_offset: usize = capacity;
        while bit_offset < capacity + 8
            invariant
                n == leaf_num,
                n >= 1,
                capacity <= n,
                2 * n + 8 <= usize::MAX,
                capacity <= bit_offset <= capacity + 8,
                tree@.len() == 2 * n,
                forall|p: int| 0 <= p < 16 * n ==> byte_bit(tree@, p) == (first(p) || (n + capacity <= p < n + bit_offset)),
            decreases capacity + 8 - bit_offset,
        {
            let ghost t1 = tree@;
            bytes_set_bit(&mut tree, leaf_num + bit_offset, true);
            proof {
                assert forall|p: int| 0 <= p < 16 * n implies byte_bit(tree@, p) == (first(p) || (n + capacity <= p < n + bit_offset + 1)) by {
                    lemma_bytes_set_bit(t1, n + bit_offset, true, p);
                }
            }
            bit_offset = bit_offset + 1;
        }
        let ghost t2 = tree@;
        let mut bit: usize = leaf_num;
        while bit > 1
            invariant
                n == leaf_num,
                n >= 1,
                1 <= bit <= n,
                2 * n + 8 <= usize::MAX,
                tree@.len() == 2 * n,
                forall|p: int| n <= p < 16 * n ==> byte_bit(tree@, p) == byte_bit(t2, p),
                forall|i: int| bit <= i < n ==> #[trigger] node_consistent(tree@, i),
            decreases bit,
        {
            let ghost t1 = tree@;
            bit = bit - 1;
            let left = bytes_get_bit(&tree, bit * 2);
            let right = bytes_get_bit(&tree, bit * 2 + 1);
            if left && right {
                bytes_set_bit(&mut tree, bit, true);
            } else {
                bytes_set_bit(&mut tree, bit, false);
            }
            proof {
                let v = left && right;
                let b = bit as int;
                assert forall|p: int| n <= p < 16 * n implies byte_bit(tree@, p) == byte_bit(t2, p) by {
                    lemma_bytes_set_bit(t1, b, v, p);
                }
                assert forall|i: int| bit <= i < n implies #[trigger] node_consistent(tree@, i) by {
                    lemma_bytes_set_bit(t1, b, v, i);
                    lemma_bytes_set_bit(t1, b, v, 2 * i);
                    lemma_bytes_set_bit(t1, b, v, 2 * i + 1);
                    if i != b {
                        assert(node_consistent(t1, i));
                    }
                }
            }
        }
        let r = SegmentTreeAllocator { tree };
        proof {
            assert(r.leaf_count() == n);
            assert forall|j: int| 0 <= j < n implies leaf_taken(r.tree@, n, j) == (j >= capacity) by {
                assert(byte_bit(r.tree@, n + j) == byte_bit(t2, n + j));
                if n >= 8 {
                    lemma_pow2_multiple_of_8(ceil_log2(capacity as nat));
                    assert((n + j) / 8 == n / 8 + j / 8) by (nonlinear_arith)
                        requires n % 8 == 0, 0 <= j;
                    if j >= capacity + 8 {
                        assert(j / 8 >= c8) by (nonlinear_arith)
                            requires j >= capacity + 8, c8 == (capacity + 7) / 8;
                        assert(j / 8 < n / 8) by (nonlinear_arith)
                            requires j < n, n % 8 == 0;
                    }
                    if j < capacity {
                        assert(j / 8 < c8) by (nonlinear_arith)
                            requires j < capacity, c8 == (capacity + 7) / 8, 0 <= j;
                    }
                }
            }
            assert(r.items() =~= Seq::new(segment_leaf_count(capacity), |j: int| j >= capacity));
            assert forall|i: int| 1 <= i < r.leaf_count() implies #[trigger] node_consistent(r.tree@, i) by {}
            assert(is_power_of_two(n));
        }
        r
    }

    /// Takes the first free item, if there is one.
    fn allocate(&mut self) -> (r: Option<usize>)
        ensures
            final(self).leaf_count() == old(self).leaf_count(),
            match r {
                None => {
                    &&& forall|j: int| 0 <= j < old(self).leaf_count() ==> #[trigger] old(self).items()[j]
                    &&& final(self).items() == old(self).items()
                },
                Some(j) => {
                    &&& j < old(self).leaf_count()
                    &&& !old(self).items()[j as int]
                    &&& forall|i: int| 0 <= i < j ==> #[trigger] old(self).items()[i]
                    &&& final(self).items() == old(self).items().update(j as int, true)
                },
            },
    {
        let ghost n = self.leaf_count() as int;
        let ghost t = self.tree@;
        let ghost h = choose|h: nat| pow2(h) == n;
        proof {
            lemma_pow2_pos(h);
            lemma2_to64();
        }
        let root_taken = bytes_get_bit(&self.tree, 1);
        if root_taken {
            proof {
                assert forall|j: int| 0 <= j < n implies #[trigger] old(self).items()[j] by {
                    lemma_ancestor_level(n + j, h, h);
                    lemma2_to64();
                    lemma_descendant_taken(t, n, 1, n + j, h);
                }
            }
            return None;
        }
        let ghost mut k: nat = h;
        proof {
            assert forall|l: int| n <= l < 2 * n && !byte_bit(t, l) implies ancestor(l, k) >= 1 by {
                lemma_ancestor_level(l, h, h);
                lemma2_to64();
            }
        }
        let mut temp_node: usize = 1;
        while temp_node < self.tree.len() / 2
            invariant
                self.tree@ == t,
                self.well_formed(),
                n == self.leaf_count(),
                pow2(h) == n,
                k <= h,
                1 <= temp_node < 2 * n,
                pow2((h - k) as nat) <= temp_node,
                !byte_bit(t, temp_node as int),
                forall|l: int| n <= l < 2 * n && !byte_bit(t, l) ==> ancestor(l, k) >= temp_node,
            decreases 2 * n - temp_node,
        {
            proof {
                if k == 0 {
                    assert(false);
                }
                assert(node_consistent(t, temp_node as int));
                lemma_pow2_unfold((h - k + 1) as nat);
            }
            let ghost cur = temp_node as int;
            let left_taken = bytes_get_bit(&self.tree, temp_node * 2);
            if !left_taken {
                temp_node = temp_node * 2;
            } else {
                let right_taken = bytes_get_bit(&self.tree, temp_node * 2 + 1);
                assert(!right_taken);
                temp_node = temp_node * 2 + 1;
            }
            proof {
                let k1 = (k - 1) as nat;
                assert forall|l: int| n <= l < 2 * n && !byte_bit(t, l) implies ancestor(l, k1) >= temp_node by {
                    let a = ancestor(l, k1);
                    assert(ancestor(l, k) == a / 2);
                    if left_taken && a / 2 == cur && a == 2 * cur {
                        lemma_descendant_taken(t, n, 2 * cur, l, k1);
                    }
                }
                k = k1;
            }
        }
        proof {
            assert forall|l: int| n <= l < 2 * n && !byte_bit(t, l) implies l >= temp_node by {
                lemma_ancestor_le(l, k);
            }
        }
        self.refresh_tree(temp_node, true);
        let j = temp_node - self.tree.len() / 2;
        proof {
            assert forall|i: int| 0 <= i < j implies #[trigger] old(self).items()[i] by {
                assert(n + i < temp_node);
            }
        }
        Some(j)
    }

    /// Marks the item free again.
    fn dealloc(&mut self, index: usize)
        ensures
            final(self).leaf_count() == old(self).leaf_count(),
            final(self).items() == old(self).items().update(index as int, false),
    {
        let change_node = self.tree.len() / 2 + index;
        self.refresh_tree(change_node, false);
    }
}

} // verus!
