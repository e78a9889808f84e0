//! Laws that relate several allocator operations, proved over the tree
//! model that the executable operations are specified against.

use crate::block::BlockDesc;
use crate::math::{lemma_heap_min_ratio_is_pow2, lemma_pow2_pos, pow2};
use crate::tree::{
    alloc_step, coalesce_up, coalesced, depth, find_free_in, free_step, fresh_tree, is_ancestor,
    leaf_level, left_child, lemma_alloc_step_pointwise, lemma_ancestor_bounds,
    lemma_ancestor_child_on_path, lemma_ancestor_parent_ancestor, lemma_child_relation,
    lemma_coalesce_restores, lemma_coalesced_at, lemma_depth_of_level_index, lemma_depth_range,
    lemma_fresh_tree_wf, lemma_not_self_ancestor, lemma_sibling_same_ancestors, parent_index,
    right_child, set_free, sibling_index, valid_config, wf_tree, with_ancestors_used,
};
use vstd::prelude::*;

verus! {

/// Round-trip law: allocating any free node of a well-formed, coalesced
/// tree and then immediately freeing it restores the tree to the exact
/// free/used state it had before the allocation. A coalesced tree is one
/// whose every parent is free exactly when both children are; every tree
/// reachable by leaf-sized grants alone is of this shape.
pub proof fn lemma_alloc_free_round_trip(tree: Seq<BlockDesc>, heap: nat, min: nat, i: int)
    requires
        wf_tree(tree, heap, min),
        coalesced(tree),
        0 <= i < tree.len(),
        tree[i].is_free,
    ensures
        free_step(alloc_step(tree, i), i) == tree,
{
    lemma_alloc_step_pointwise(tree, i);
    let t1 = alloc_step(tree, i);
    let t2 = t1.update(i, set_free(t1[i], true));
    assert forall|m: int| 0 <= m < tree.len() implies t2[m] == with_ancestors_used(tree, i)[m] by {
        if m == i {
            lemma_not_self_ancestor(i);
        }
    }
    assert(t2 =~= with_ancestors_used(tree, i));
    lemma_coalesce_restores(tree, heap, min, i);
}

/// Granting a minimum-size (leaf) block keeps the tree coalesced: a leaf
/// has no children to fall out of step with, and every ancestor that
/// becomes used has its newly used child below it. Together with the
/// fresh tree being coalesced, this is why the round-trip law covers
/// every tree reached by leaf-sized grants.
pub proof fn lemma_leaf_alloc_preserves_coalesced(
    tree: Seq<BlockDesc>,
    heap: nat,
    min: nat,
    i: int,
)
    requires
        wf_tree(tree, heap, min),
        coalesced(tree),
        0 <= i < tree.len(),
        depth(i) == leaf_level(heap, min),
    ensures
        coalesced(alloc_step(tree, i)),
{
    lemma_alloc_step_pointwise(tree, i);
    let t1 = alloc_step(tree, i);
    lemma_depth_range(i);
    lemma_heap_min_ratio_is_pow2(heap, min);
    assert(left_child(i) >= tree.len());
    assert forall|p: int|
        0 <= p && right_child(p) < t1.len() implies (t1[p].is_free <==> (t1[left_child(p)].is_free && t1[right_child(p)].is_free)) by {
        lemma_coalesced_at(tree, p);
        let lc = left_child(p);
        let rc = right_child(p);
        assert(parent_index(lc) == p);
        assert(parent_index(rc) == p);
        if p == i || is_ancestor(p, i) {
            assert(p != i);
            lemma_ancestor_child_on_path(p, i);
            assert(!t1[p].is_free);
            assert(!t1[lc].is_free || !t1[rc].is_free);
        } else {
            assert(!(lc == i || is_ancestor(lc, i))) by {
                if lc == i {
                    assert(is_ancestor(p, i));
                } else if is_ancestor(lc, i) {
                    lemma_ancestor_parent_ancestor(lc, i);
                }
            }
            assert(!(rc == i || is_ancestor(rc, i))) by {
                if rc == i {
                    assert(is_ancestor(p, i));
                } else if is_ancestor(rc, i) {
                    lemma_ancestor_parent_ancestor(rc, i);
                }
            }
            assert(t1[p] == tree[p] && t1[lc] == tree[lc] && t1[rc] == tree[rc]);
        }
    }
}

/// Coalescing law: on a freshly built tree with at least two levels, the
/// first two minimum-block grants take the two leftmost leaves — two
/// buddies — and freeing both of them, in grant order, coalesces all the
/// way up: the tree is exactly the fresh tree again, its root free.
pub proof fn lemma_sibling_frees_coalesce_to_root(heap: nat, min: nat)
    requires
        valid_config(heap, min),
        min < heap,
    ensures
        ({
            let t0 = fresh_tree(heap, min);
            let lf = pow2(leaf_level(heap, min)) - 1;
            let last = 2 * pow2(leaf_level(heap, min)) - 2;
            &&& find_free_in(t0, lf, last) == Option::Some(lf)
            &&& find_free_in(alloc_step(t0, lf), lf, last) == Option::Some(lf + 1)
            &&& free_step(free_step(alloc_step(alloc_step(t0, lf), lf + 1), lf), lf + 1) == t0
            &&& t0[0].is_free
        }),
{
    let t0 = fresh_tree(heap, min);
    let ll = leaf_level(heap, min);
    let lf = pow2(ll) - 1;
    let last = 2 * pow2(ll) - 2;
    lemma_fresh_tree_wf(heap, min);
    lemma_heap_min_ratio_is_pow2(heap, min);
    assert(ll >= 1) by {
        if ll == 0 {
            assert(heap / min == pow2(0));
            assert(min * pow2(0) == heap);
            assert(false);
        }
    }
    lemma_pow2_pos((ll - 1) as nat);
    assert(pow2(ll) == 2 * pow2((ll - 1) as nat));
    assert(t0.len() == 2 * pow2(ll) - 1);
    lemma_depth_of_level_index(ll, 0);
    lemma_depth_of_level_index(ll, 1);
    lemma_child_relation(lf);
    assert(lf % 2 == 1);
    assert(sibling_index(lf) == lf + 1);

    // The first grant takes the leftmost leaf.
    assert(find_free_in(t0, lf, last) == Option::Some(lf));

    // The second grant takes its buddy.
    let t1 = alloc_step(t0, lf);
    lemma_alloc_step_pointwise(t0, lf);
    assert(!is_ancestor(lf + 1, lf)) by {
        if is_ancestor(lf + 1, lf) {
            lemma_ancestor_bounds(lf + 1, lf);
        }
    }
    assert(!t1[lf].is_free);
    assert(t1[lf + 1].is_free);
    assert(find_free_in(t1, lf, last) == find_free_in(t1, lf + 1, last));
    assert(find_free_in(t1, lf + 1, last) == Option::Some(lf + 1));

    let t2 = alloc_step(t1, lf + 1);
    lemma_alloc_step_pointwise(t1, lf + 1);
    assert(!is_ancestor(lf, lf + 1)) by {
        if is_ancestor(lf, lf + 1) {
            lemma_ancestor_bounds(lf, lf + 1);
            lemma_child_relation(lf + 1);
        }
    }

    // Freeing the first buddy stops at once: its sibling is still used.
    let t2u = t2.update(lf, set_free(t2[lf], true));
    assert(!t2u[lf + 1].is_free);
    assert(coalesce_up(t2u, lf) == t2u);
    let t3 = free_step(t2, lf);
    assert(t3 == t2u);

    // Freeing the second buddy coalesces all the way to the root.
    let t3u = t3.update(lf + 1, set_free(t3[lf + 1], true));
    lemma_not_self_ancestor(lf + 1);
    assert forall|m: int| 0 <= m < t0.len() implies t3u[m] == with_ancestors_used(
        t0,
        lf + 1,
    )[m] by {
        lemma_sibling_same_ancestors(lf, m);
        if is_ancestor(m, lf + 1) {
            lemma_ancestor_bounds(m, lf + 1);
            lemma_child_relation(lf + 1);
        }
    }
    assert(t3u =~= with_ancestors_used(t0, lf + 1));
    lemma_coalesce_restores(t0, heap, min, lf + 1);
    assert(free_step(t3, lf + 1) == t0);
}

} // verus!
