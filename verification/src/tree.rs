//! The mathematical model of the block index: a complete binary tree
//! stored as a flat sequence, the geometry of each node, and the
//! spec-level transitions that allocation and freeing perform on it.

use crate::block::BlockDesc;
use crate::math::{
    is_pow2, lemma_heap_min_ratio_is_pow2, lemma_pow2_adds, lemma_pow2_div, lemma_pow2_increases,
    lemma_pow2_pos, lemma_pow2_strictly_increases, log2, pow2,
};
use vstd::prelude::*;

verus! {

/// Index of the parent of node `i` in the flat tree layout.
pub open spec fn parent_index(i: int) -> int {
    (i - 1) / 2
}

/// Index of the buddy (sibling) of node `i`: the other half of the same
/// parent block. Buddies are identified purely by tree position.
pub open spec fn sibling_index(i: int) -> int {
    if i % 2 == 1 {
        i + 1
    } else {
        i - 1
    }
}

pub open spec fn left_child(p: int) -> int {
    2 * p + 1
}

pub open spec fn right_child(p: int) -> int {
    2 * p + 2
}

/// Depth of node `i` in the tree: 0 at the root, one more per halving.
pub open spec fn depth(i: int) -> nat
    decreases i,
{
    if i <= 0 {
        0
    } else {
        1 + depth(parent_index(i))
    }
}

/// `a` is a strict ancestor of `i` (its parent, or higher).
pub open spec fn is_ancestor(a: int, i: int) -> bool
    decreases i,
{
    if i <= 0 {
        false
    } else {
        parent_index(i) == a || is_ancestor(a, parent_index(i))
    }
}

/// Byte size of the region node `i` covers in an arena of `heap` bytes.
pub open spec fn node_size(heap: nat, i: int) -> nat {
    heap / pow2(depth(i))
}

/// Position of node `i` among the nodes of its own level, left to right.
pub open spec fn node_offset(i: int) -> int {
    i + 1 - pow2(depth(i))
}

/// Inclusive first byte offset of the region node `i` covers.
pub open spec fn node_start(heap: nat, i: int) -> int {
    node_offset(i) * node_size(heap, i)
}

/// Inclusive last byte offset of the region node `i` covers.
pub open spec fn node_end(heap: nat, i: int) -> int {
    node_start(heap, i) + node_size(heap, i) - 1
}

/// The descriptor node `i` carries in a freshly built tree: free, with the
/// geometry the flat layout assigns to it.
pub open spec fn fresh_node(heap: nat, i: int) -> BlockDesc {
    BlockDesc {
        is_free: true,
        size: node_size(heap, i) as usize,
        start: node_start(heap, i) as usize,
        end: node_end(heap, i) as usize,
    }
}

/// The block index as construction leaves it: `2 * (heap / min) - 1`
/// nodes, every one free.
pub open spec fn fresh_tree(heap: nat, min: nat) -> Seq<BlockDesc> {
    Seq::new((2 * (heap / min) - 1) as nat, |i: int| fresh_node(heap, i))
}

/// The depth of the deepest level, whose nodes have the minimum block
/// size.
pub open spec fn leaf_level(heap: nat, min: nat) -> nat {
    (log2(heap) - log2(min)) as nat
}

/// The depth of the level whose nodes cover `size` bytes each.
pub open spec fn level_for_size(heap: nat, size: nat) -> nat {
    (log2(heap) - log2(size)) as nat
}

/// A `(heap, min)` pair the allocator accepts: two powers of two that fit
/// the machine, with the minimum block no larger than the arena and at
/// most 2^30 minimum blocks, so that every node index fits in a `u32`.
pub open spec fn valid_config(heap: nat, min: nat) -> bool {
    &&& is_pow2(heap)
    &&& is_pow2(min)
    &&& 1 <= min <= heap
    &&& heap <= usize::MAX
    &&& heap / min <= pow2(30)
}

/// The number of nodes a tree for this configuration holds.
pub open spec fn tree_len(heap: nat, min: nat) -> int {
    2 * (heap / min) - 1
}

/// Node `i` of `tree` carries exactly the geometry the flat layout
/// assigns to it (its free bit is unconstrained).
pub open spec fn wf_node(tree: Seq<BlockDesc>, heap: nat, i: int) -> bool {
    &&& tree[i].size == node_size(heap, i)
    &&& tree[i].start == node_start(heap, i)
    &&& tree[i].end == node_end(heap, i)
}

/// The block index is a complete binary tree for the given configuration:
/// the right number of nodes, each with its layout geometry.
pub open spec fn wf_tree(tree: Seq<BlockDesc>, heap: nat, min: nat) -> bool {
    &&& valid_config(heap, min)
    &&& tree.len() == tree_len(heap, min)
    &&& forall|i: int| 0 <= i < tree.len() ==> #[trigger] wf_node(tree, heap, i)
}

/// Two trees with the same geometry everywhere; only free bits may
/// differ. Allocation and freeing never change a tree's structure.
pub open spec fn same_structure(a: Seq<BlockDesc>, b: Seq<BlockDesc>) -> bool {
    &&& a.len() == b.len()
    &&& forall|i: int|
        0 <= i < a.len() ==> {
            &&& (#[trigger] a[i]).size == b[i].size
            &&& a[i].start == b[i].start
            &&& a[i].end == b[i].end
        }
}

/// `b` with its free bit set to `f` and all else kept.
pub open spec fn set_free(b: BlockDesc, f: bool) -> BlockDesc {
    BlockDesc { is_free: f, ..b }
}

/// The lowest index in `[i, last]` holding a free node, if any: the
/// first-fit scan of one tree level.
pub open spec fn find_free_in(tree: Seq<BlockDesc>, i: int, last: int) -> Option<int>
    decreases last - i + 1,
{
    if i > last {
        None
    } else if 0 <= i < tree.len() && tree[i].is_free {
        Some(i)
    } else {
        find_free_in(tree, i + 1, last)
    }
}

/// Mark every strict ancestor of node `i` used, walking up to the root.
pub open spec fn mark_ancestors_used(tree: Seq<BlockDesc>, i: int) -> Seq<BlockDesc>
    decreases i,
{
    if i <= 0 {
        tree
    } else {
        let p = parent_index(i);
        mark_ancestors_used(tree.update(p, set_free(tree[p], false)), p)
    }
}

/// What allocating node `i` does to the tree: the node itself and every
/// ancestor become used.
pub open spec fn alloc_step(tree: Seq<BlockDesc>, i: int) -> Seq<BlockDesc> {
    mark_ancestors_used(tree.update(i, set_free(tree[i], false)), i)
}

/// The coalescing walk from node `i` upward: while the buddy is also
/// free, the shared parent becomes free and the walk moves up; the first
/// used buddy stops it.
pub open spec fn coalesce_up(tree: Seq<BlockDesc>, i: int) -> Seq<BlockDesc>
    decreases i,
{
    if i <= 0 {
        tree
    } else {
        let s = sibling_index(i);
        if 0 <= s < tree.len() && tree[s].is_free {
            let p = parent_index(i);
            coalesce_up(tree.update(p, set_free(tree[p], true)), p)
        } else {
            tree
        }
    }
}

/// What freeing node `i` does to the tree: the node becomes free again
/// and buddies coalesce as far up as possible.
pub open spec fn free_step(tree: Seq<BlockDesc>, i: int) -> Seq<BlockDesc> {
    coalesce_up(tree.update(i, set_free(tree[i], true)), i)
}

/// Every parent is free exactly when both children are: the state of a
/// tree in which no block larger than a leaf is individually granted, and
/// the precondition under which freeing inverts allocating exactly.
pub open spec fn coalesced(tree: Seq<BlockDesc>) -> bool {
    forall|p: int|
        #![trigger tree[left_child(p)]]
        0 <= p && right_child(p) < tree.len() ==> (tree[p].is_free <==> (tree[left_child(
            p,
        )].is_free && tree[right_child(p)].is_free))
}

/// `tree` with every strict ancestor of `i` marked used: the shape a tree
/// has right after granting node `i` and taking its own free bit back.
pub open spec fn with_ancestors_used(tree: Seq<BlockDesc>, i: int) -> Seq<BlockDesc> {
    Seq::new(
        tree.len(),
        |m: int|
            if is_ancestor(m, i) {
                set_free(tree[m], false)
            } else {
                tree[m]
            },
    )
}

/// The result of `alloc_step`, written pointwise.
pub open spec fn alloc_result(tree: Seq<BlockDesc>, i: int) -> Seq<BlockDesc> {
    Seq::new(
        tree.len(),
        |m: int|
            if m == i || is_ancestor(m, i) {
                set_free(tree[m], false)
            } else {
                tree[m]
            },
    )
}

pub proof fn lemma_ancestor_bounds(a: int, i: int)
    requires
        is_ancestor(a, i),
    ensures
        0 <= a <= parent_index(i),
        a < i,
    decreases i,
{
    if parent_index(i) != a {
        lemma_ancestor_bounds(a, parent_index(i));
    }
}

/// Relations between a node, its parent, its sibling and their depths.
pub proof fn lemma_child_relation(i: int)
    requires
        i >= 1,
    ensures
        0 <= parent_index(i) < i,
        i % 2 == 1 ==> i == left_child(parent_index(i)) && sibling_index(i) == right_child(
            parent_index(i),
        ),
        i % 2 == 0 ==> i == right_child(parent_index(i)) && sibling_index(i) == left_child(
            parent_index(i),
        ),
        parent_index(sibling_index(i)) == parent_index(i),
        sibling_index(i) >= 1,
        sibling_index(i) != i,
        depth(i) == depth(parent_index(i)) + 1,
        depth(sibling_index(i)) == depth(i),
{
    assert(depth(sibling_index(i)) == 1 + depth(parent_index(sibling_index(i))));
}

/// A strict ancestor is never the sibling.
pub proof fn lemma_sibling_not_ancestor(a: int, i: int)
    requires
        i >= 1,
        is_ancestor(a, i),
    ensures
        a != sibling_index(i),
{
    lemma_ancestor_bounds(a, i);
}

/// Nothing is its own strict ancestor.
pub proof fn lemma_not_self_ancestor(i: int)
    ensures
        !is_ancestor(i, i),
{
    if is_ancestor(i, i) {
        lemma_ancestor_bounds(i, i);
    }
}

/// Siblings have the same strict ancestors.
pub proof fn lemma_sibling_same_ancestors(i: int, m: int)
    requires
        i >= 1,
    ensures
        is_ancestor(m, i) == is_ancestor(m, sibling_index(i)),
{
    lemma_child_relation(i);
}

/// Every index in the block of level `l` has depth `l`.
pub proof fn lemma_depth_of_level_index(l: nat, j: int)
    requires
        0 <= j < pow2(l),
    ensures
        depth(pow2(l) - 1 + j) == l,
    decreases l,
{
    if l == 0 {
    } else {
        let i = pow2(l) - 1 + j;
        lemma_pow2_pos((l - 1) as nat);
        assert(pow2(l) == 2 * pow2((l - 1) as nat));
        assert(i >= 1);
        assert(parent_index(i) == pow2((l - 1) as nat) - 1 + j / 2);
        lemma_depth_of_level_index((l - 1) as nat, j / 2);
    }
}

/// Every index lies within its own level's block of indices.
pub proof fn lemma_depth_range(i: int)
    requires
        i >= 0,
    ensures
        pow2(depth(i)) - 1 <= i < 2 * pow2(depth(i)) - 1,
    decreases i,
{
    if i == 0 {
    } else {
        let p = parent_index(i);
        lemma_depth_range(p);
        assert(pow2(depth(i)) == 2 * pow2(depth(p)));
    }
}

/// The depth of every node index of a valid configuration is at most the
/// leaf level, which itself is at most 30.
pub proof fn lemma_depth_le_leaf(heap: nat, min: nat, i: int)
    requires
        valid_config(heap, min),
        0 <= i < tree_len(heap, min),
    ensures
        depth(i) <= leaf_level(heap, min),
        leaf_level(heap, min) <= 30,
        pow2(leaf_level(heap, min)) == heap / min,
{
    let ll = leaf_level(heap, min);
    lemma_heap_min_ratio_is_pow2(heap, min);
    lemma_depth_range(i);
    if depth(i) > ll {
        lemma_pow2_increases((ll + 1) as nat, depth(i));
        assert(pow2((ll + 1) as nat) == 2 * pow2(ll));
        assert(false);
    }
    if ll > 30 {
        lemma_pow2_strictly_increases(30, ll);
        assert(false);
    }
}

/// Every non-root node index of a valid configuration has its sibling in
/// the tree as well: the tree is complete, so its length is odd.
pub proof fn lemma_sibling_in_range(heap: nat, min: nat, i: int)
    requires
        valid_config(heap, min),
        1 <= i < tree_len(heap, min),
    ensures
        1 <= sibling_index(i) < tree_len(heap, min),
{
    lemma_heap_min_ratio_is_pow2(heap, min);
    lemma_child_relation(i);
}

/// Geometry facts about one node of a valid configuration: its size is a
/// power of two between the minimum block and the arena, and its byte
/// range lies inside the arena.
pub proof fn lemma_node_geometry(heap: nat, min: nat, i: int)
    requires
        valid_config(heap, min),
        0 <= i < tree_len(heap, min),
    ensures
        min <= node_size(heap, i) <= heap,
        node_size(heap, i) == pow2((log2(heap) - depth(i)) as nat),
        is_pow2(node_size(heap, i)),
        0 <= node_offset(i) < pow2(depth(i)),
        0 <= node_start(heap, i),
        node_end(heap, i) < heap,
        node_start(heap, i) + node_size(heap, i) <= heap,
        pow2(depth(i)) * node_size(heap, i) == heap,
{
    let d = depth(i);
    let h = log2(heap);
    let m = log2(min);
    let ll = leaf_level(heap, min);
    lemma_depth_le_leaf(heap, min, i);
    lemma_heap_min_ratio_is_pow2(heap, min);
    // d <= ll == h - m, so m <= h - d <= h.
    lemma_pow2_div(d, h);
    assert(node_size(heap, i) == pow2((h - d) as nat));
    crate::math::lemma_pow2_is_pow2((h - d) as nat);
    lemma_pow2_increases(m, (h - d) as nat);
    lemma_pow2_increases((h - d) as nat, h);
    lemma_depth_range(i);
    lemma_pow2_pos(d);
    let sz = node_size(heap, i);
    assert(pow2(d) * sz == heap) by {
        lemma_pow2_adds((h - d) as nat, d);
        assert(pow2(d) * pow2((h - d) as nat) == pow2((h - d) as nat) * pow2(d));
    }
    assert((node_offset(i) + 1) * sz <= pow2(d) * sz) by (nonlinear_arith)
        requires
            node_offset(i) + 1 <= pow2(d),
            sz >= 0,
    ;
    assert(node_offset(i) * sz >= 0) by (nonlinear_arith)
        requires
            node_offset(i) >= 0,
            sz >= 0,
    ;
    assert((node_offset(i) + 1) * sz == node_offset(i) * sz + sz) by (nonlinear_arith);
}

/// Instantiates `coalesced` at one parent node.
pub proof fn lemma_coalesced_at(tree: Seq<BlockDesc>, p: int)
    requires
        coalesced(tree),
        0 <= p,
        right_child(p) < tree.len(),
    ensures
        tree[p].is_free <==> (tree[left_child(p)].is_free && tree[right_child(p)].is_free),
{
    assert(tree[left_child(p)] == tree[left_child(p)]);
}

/// Marking ancestors used is, pointwise, setting the free bit of every
/// strict ancestor.
pub proof fn lemma_mark_ancestors_pointwise(tree: Seq<BlockDesc>, i: int)
    requires
        0 <= i < tree.len(),
    ensures
        mark_ancestors_used(tree, i) == with_ancestors_used(tree, i),
    decreases i,
{
    if i == 0 {
        assert(mark_ancestors_used(tree, 0) == tree);
        assert(with_ancestors_used(tree, 0) =~= tree);
    } else {
        let p = parent_index(i);
        lemma_child_relation(i);
        let t1 = tree.update(p, set_free(tree[p], false));
        lemma_mark_ancestors_pointwise(t1, p);
        lemma_not_self_ancestor(p);
        assert forall|m: int| 0 <= m < tree.len() implies with_ancestors_used(t1, p)[m]
            == with_ancestors_used(tree, i)[m] by {
            if is_ancestor(m, p) {
                lemma_ancestor_bounds(m, p);
            }
        }
        assert(with_ancestors_used(t1, p) =~= with_ancestors_used(tree, i));
    }
}

/// Allocation is, pointwise, setting the free bit of the granted node and
/// of every strict ancestor.
pub proof fn lemma_alloc_step_pointwise(tree: Seq<BlockDesc>, i: int)
    requires
        0 <= i < tree.len(),
    ensures
        alloc_step(tree, i) == alloc_result(tree, i),
{
    let t1 = tree.update(i, set_free(tree[i], false));
    lemma_mark_ancestors_pointwise(t1, i);
    lemma_not_self_ancestor(i);
    assert forall|m: int| 0 <= m < tree.len() implies with_ancestors_used(t1, i)[m]
        == alloc_result(tree, i)[m] by {
        if is_ancestor(m, i) {
            lemma_ancestor_bounds(m, i);
        }
    }
    assert(with_ancestors_used(t1, i) =~= alloc_result(tree, i));
}

/// Marking ancestors preserves the tree's geometry.
pub proof fn lemma_mark_ancestors_structure(tree: Seq<BlockDesc>, i: int)
    requires
        0 <= i < tree.len(),
    ensures
        same_structure(tree, mark_ancestors_used(tree, i)),
    decreases i,
{
    if i > 0 {
        let p = parent_index(i);
        lemma_child_relation(i);
        let t1 = tree.update(p, set_free(tree[p], false));
        lemma_mark_ancestors_structure(t1, p);
        let r = mark_ancestors_used(t1, p);
        assert forall|m: int| 0 <= m < tree.len() implies {
            &&& (#[trigger] tree[m]).size == r[m].size
            &&& tree[m].start == r[m].start
            &&& tree[m].end == r[m].end
        } by {
            assert(t1[m].size == r[m].size && t1[m].start == r[m].start && t1[m].end == r[m].end);
        }
    }
}

/// Allocation preserves the tree's geometry.
pub proof fn lemma_alloc_step_structure(tree: Seq<BlockDesc>, i: int)
    requires
        0 <= i < tree.len(),
    ensures
        same_structure(tree, alloc_step(tree, i)),
        alloc_step(tree, i).len() == tree.len(),
{
    let t1 = tree.update(i, set_free(tree[i], false));
    lemma_mark_ancestors_structure(t1, i);
    let r = alloc_step(tree, i);
    assert forall|m: int| 0 <= m < tree.len() implies {
        &&& (#[trigger] tree[m]).size == r[m].size
        &&& tree[m].start == r[m].start
        &&& tree[m].end == r[m].end
    } by {
        assert(t1[m].size == r[m].size && t1[m].start == r[m].start && t1[m].end == r[m].end);
    }
}

/// The coalescing walk preserves the tree's geometry.
pub proof fn lemma_coalesce_up_structure(tree: Seq<BlockDesc>, i: int)
    requires
        0 <= i < tree.len(),
    ensures
        same_structure(tree, coalesce_up(tree, i)),
    decreases i,
{
    if i > 0 {
        let s = sibling_index(i);
        if 0 <= s < tree.len() && tree[s].is_free {
            let p = parent_index(i);
            lemma_child_relation(i);
            let t1 = tree.update(p, set_free(tree[p], true));
            lemma_coalesce_up_structure(t1, p);
            let r = coalesce_up(t1, p);
            assert forall|m: int| 0 <= m < tree.len() implies {
                &&& (#[trigger] tree[m]).size == r[m].size
                &&& tree[m].start == r[m].start
                &&& tree[m].end == r[m].end
            } by {
                assert(t1[m].size == r[m].size && t1[m].start == r[m].start && t1[m].end
                    == r[m].end);
            }
        }
    }
}

/// Freeing preserves the tree's geometry.
pub proof fn lemma_free_step_structure(tree: Seq<BlockDesc>, i: int)
    requires
        0 <= i < tree.len(),
    ensures
        same_structure(tree, free_step(tree, i)),
        free_step(tree, i).len() == tree.len(),
{
    let t1 = tree.update(i, set_free(tree[i], true));
    lemma_coalesce_up_structure(t1, i);
    let r = free_step(tree, i);
    assert forall|m: int| 0 <= m < tree.len() implies {
        &&& (#[trigger] tree[m]).size == r[m].size
        &&& tree[m].start == r[m].start
        &&& tree[m].end == r[m].end
    } by {
        assert(t1[m].size == r[m].size && t1[m].start == r[m].start && t1[m].end == r[m].end);
    }
}

/// A tree with the geometry of a well-formed tree is well formed.
pub proof fn lemma_wf_same_structure(a: Seq<BlockDesc>, b: Seq<BlockDesc>, heap: nat, min: nat)
    requires
        wf_tree(a, heap, min),
        same_structure(a, b),
    ensures
        wf_tree(b, heap, min),
{
    assert forall|i: int| 0 <= i < b.len() implies #[trigger] wf_node(b, heap, i) by {
        assert(wf_node(a, heap, i));
        assert(a[i].size == b[i].size && a[i].start == b[i].start && a[i].end == b[i].end);
    }
}

/// Skipping a used prefix does not change what the first-fit scan finds.
pub proof fn lemma_find_free_skip(tree: Seq<BlockDesc>, first: int, i: int, last: int)
    requires
        0 <= first <= i <= last + 1,
        forall|k: int| first <= k < i ==> !(#[trigger] tree[k]).is_free,
        last < tree.len(),
    ensures
        find_free_in(tree, first, last) == find_free_in(tree, i, last),
    decreases i - first,
{
    if first < i {
        lemma_find_free_skip(tree, first + 1, i, last);
    }
}

/// What a successful or failed first-fit scan says of the tree.
pub proof fn lemma_find_free_props(tree: Seq<BlockDesc>, i: int, last: int)
    requires
        0 <= i,
        last < tree.len(),
    ensures
        match find_free_in(tree, i, last) {
            Some(j) => i <= j <= last && tree[j].is_free && forall|k: int|
                i <= k < j ==> !(#[trigger] tree[k]).is_free,
            None => forall|k: int| i <= k <= last ==> !(#[trigger] tree[k]).is_free,
        },
    decreases last - i + 1,
{
    if i <= last {
        if !tree[i].is_free {
            lemma_find_free_props(tree, i + 1, last);
        }
    }
}

/// The parent of a strict ancestor is itself a strict ancestor.
pub proof fn lemma_ancestor_parent_ancestor(c: int, i: int)
    requires
        is_ancestor(c, i),
        c >= 1,
    ensures
        is_ancestor(parent_index(c), i),
    decreases i,
{
    if parent_index(i) == c {
        assert(is_ancestor(parent_index(c), c));
    } else {
        lemma_ancestor_parent_ancestor(c, parent_index(i));
    }
}

/// The ancestor chain from `i` up to a strict ancestor `p` enters `p`
/// through one of `p`'s two children: that child is `i` itself or again a
/// strict ancestor of `i`.
pub proof fn lemma_ancestor_child_on_path(p: int, i: int)
    requires
        is_ancestor(p, i),
    ensures
        left_child(p) == i || is_ancestor(left_child(p), i) || right_child(p) == i
            || is_ancestor(right_child(p), i),
    decreases i,
{
    if parent_index(i) == p {
        lemma_child_relation(i);
    } else {
        lemma_ancestor_child_on_path(p, parent_index(i));
    }
}

/// The coalescing walk writes only strict ancestors of its start node.
pub proof fn lemma_coalesce_up_touches_ancestors(tree: Seq<BlockDesc>, j: int, m: int)
    requires
        0 <= m < tree.len(),
        !is_ancestor(m, j),
        0 <= j,
    ensures
        coalesce_up(tree, j)[m] == tree[m],
    decreases j,
{
    if j > 0 {
        let s = sibling_index(j);
        if 0 <= s < tree.len() && tree[s].is_free {
            let p = parent_index(j);
            lemma_child_relation(j);
            lemma_coalesce_up_touches_ancestors(tree.update(p, set_free(tree[p], true)), p, m);
        }
    }
}

/// After freeing node `i`, the node itself is free: the walk above it
/// writes only its ancestors.
pub proof fn lemma_free_step_frees(tree: Seq<BlockDesc>, i: int)
    requires
        0 <= i < tree.len(),
    ensures
        free_step(tree, i)[i].is_free,
{
    lemma_not_self_ancestor(i);
    lemma_coalesce_up_touches_ancestors(tree.update(i, set_free(tree[i], true)), i, i);
}

/// In a coalesced tree every ancestor of a used node is used.
pub proof fn lemma_used_ancestors(tree: Seq<BlockDesc>, heap: nat, min: nat, x: int, a: int)
    requires
        wf_tree(tree, heap, min),
        coalesced(tree),
        0 <= x < tree.len(),
        !tree[x].is_free,
        is_ancestor(a, x),
    ensures
        !tree[a].is_free,
    decreases x,
{
    lemma_ancestor_bounds(a, x);
    let p = parent_index(x);
    lemma_child_relation(x);
    lemma_sibling_in_range(heap, min, x);
    assert(right_child(p) < tree.len());
    lemma_coalesced_at(tree, p);
    if a != p {
        lemma_used_ancestors(tree, heap, min, p, a);
    }
}

/// The heart of the round-trip law: from a coalesced tree in which node
/// `j` is free, marking `j`'s strict ancestors used and then running the
/// coalescing walk from `j` gives back exactly the starting tree.
pub proof fn lemma_coalesce_restores(tree: Seq<BlockDesc>, heap: nat, min: nat, j: int)
    requires
        wf_tree(tree, heap, min),
        coalesced(tree),
        0 <= j < tree.len(),
        tree[j].is_free,
    ensures
        coalesce_up(with_ancestors_used(tree, j), j) == tree,
    decreases j,
{
    let w = with_ancestors_used(tree, j);
    if j == 0 {
        assert(w =~= tree);
    } else {
        let s = sibling_index(j);
        let p = parent_index(j);
        lemma_child_relation(j);
        lemma_sibling_in_range(heap, min, j);
        assert(right_child(p) < tree.len());
        assert(!is_ancestor(s, j)) by {
            if is_ancestor(s, j) {
                lemma_sibling_not_ancestor(s, j);
            }
        }
        assert(w[s] == tree[s]);
        if tree[s].is_free {
            lemma_coalesced_at(tree, p);
            assert(tree[p].is_free);
            assert(is_ancestor(p, j));
            assert(w[p] == set_free(tree[p], false));
            let w1 = w.update(p, set_free(w[p], true));
            assert(set_free(set_free(tree[p], false), true) == tree[p]);
            assert forall|m: int| 0 <= m < tree.len() implies w1[m] == with_ancestors_used(
                tree,
                p,
            )[m] by {
                if m == p {
                    lemma_not_self_ancestor(p);
                }
            }
            assert(w1 =~= with_ancestors_used(tree, p));
            lemma_coalesce_restores(tree, heap, min, p);
            assert(coalesce_up(w, j) == coalesce_up(w1, p));
        } else {
            assert(coalesce_up(w, j) == w);
            assert forall|m: int| 0 <= m < tree.len() implies w[m] == tree[m] by {
                if is_ancestor(m, j) {
                    if m == p {
                        lemma_coalesced_at(tree, p);
                    } else {
                        lemma_sibling_same_ancestors(j, m);
                        lemma_used_ancestors(tree, heap, min, s, m);
                    }
                    assert(!tree[m].is_free);
                }
            }
            assert(w =~= tree);
        }
    }
}

/// The fresh tree is well formed, fully free, and coalesced.
pub proof fn lemma_fresh_tree_wf(heap: nat, min: nat)
    requires
        valid_config(heap, min),
    ensures
        wf_tree(fresh_tree(heap, min), heap, min),
        coalesced(fresh_tree(heap, min)),
        forall|i: int|
            0 <= i < fresh_tree(heap, min).len() ==> (#[trigger] fresh_tree(heap, min)[i]).is_free,
{
    let t = fresh_tree(heap, min);
    lemma_heap_min_ratio_is_pow2(heap, min);
    assert forall|i: int| 0 <= i < t.len() implies #[trigger] wf_node(t, heap, i) by {
        lemma_node_geometry(heap, min, i);
        assert(t[i] == fresh_node(heap, i));
    }
}

} // verus!
