//! The buddy allocator: a byte arena plus the block index, with
//! allocation, freeing with coalescing, and bounded access to granted
//! blocks.

use crate::block::{AllocError, BlockDesc, BlockHandle};
use crate::math::{
    is_pow2, lemma_heap_min_ratio_is_pow2, lemma_is_pow2_even_step, lemma_is_pow2_halves,
    lemma_log2_monotonic, lemma_odd_not_pow2, lemma_pow2_30, lemma_pow2_adds,
    lemma_pow2_div, lemma_pow2_increases, lemma_pow2_is_pow2, lemma_pow2_pos,
    lemma_pow2_strictly_increases, lemma_pow2_usize_bound, lemma_pow2_usize_half,
    lemma_round_up_ge, lemma_round_up_unique, lemma_small_pow2, log2, pow2, round_up_to_order,
};
use crate::tree::{
    alloc_step, coalesce_up, depth, find_free_in, free_step, fresh_node, fresh_tree, leaf_level,
    lemma_alloc_step_structure, lemma_depth_le_leaf, lemma_depth_of_level_index,
    lemma_find_free_skip, lemma_free_step_structure, lemma_fresh_tree_wf, lemma_node_geometry,
    lemma_sibling_in_range, lemma_wf_same_structure, level_for_size, mark_ancestors_used,
    node_offset, node_size, node_start, parent_index, set_free, sibling_index, tree_len,
    valid_config, wf_node, wf_tree,
};
use vstd::prelude::*;

verus! {

/// A fixed-size buddy allocator: the arena it hands blocks out of, the
/// two sizes fixed at construction, the block index, and one grant
/// generation per node.
pub struct BuddyAllocator {
    /// The backing storage; all access goes through handles.
    pub arena: Vec<u8>,
    /// Total arena size in bytes; a power of two.
    pub heap_size: usize,
    /// Smallest allocatable block size in bytes; a power of two dividing
    /// `heap_size`.
    pub min_block_size: usize,
    /// The complete binary tree of block descriptors, in level order.
    pub blocks_tree: Vec<BlockDesc>,
    /// Grant generation of each node, incremented on every allocation of
    /// that node; lets `free` reject handles from an earlier grant cycle.
    pub block_gens: Vec<u64>,
}

impl BuddyAllocator {
    /// The allocator's invariant: a well-formed block index for its
    /// configuration, an arena of exactly `heap_size` bytes, and one
    /// generation per node.
    pub open spec fn wf(&self) -> bool {
        &&& wf_tree(self.blocks_tree@, self.heap_size as nat, self.min_block_size as nat)
        &&& self.arena@.len() == self.heap_size
        &&& self.block_gens@.len() == self.blocks_tree@.len()
    }

    /// `h` names the node it claims to name: the index is in the tree,
    /// the byte range is that node's, and the generation is current.
    pub open spec fn handle_matches(&self, h: BlockHandle) -> bool {
        &&& h.node_index < self.blocks_tree@.len()
        &&& h.start == self.blocks_tree@[h.node_index as int].start
        &&& h.end == self.blocks_tree@[h.node_index as int].end
        &&& h.size == self.blocks_tree@[h.node_index as int].size
        &&& h.generation == self.block_gens@[h.node_index as int]
    }

    /// `h` names a currently granted block.
    pub open spec fn handle_live(&self, h: BlockHandle) -> bool {
        &&& self.handle_matches(h)
        &&& !self.blocks_tree@[h.node_index as int].is_free
    }
}

/// The exact base-2 logarithm of a power of two.
fn log2_usize(n: usize) -> (level: u32)
    requires
        is_pow2(n as nat),
    ensures
        level as nat == log2(n as nat),
{
    let mut m = n;
    let mut level: u32 = 0;
    proof {
        lemma_pow2_usize_bound(log2(n as nat));
    }
    while m > 1
        invariant
            1 <= m,
            is_pow2(m as nat),
            log2(n as nat) == level + log2(m as nat),
            log2(n as nat) <= 63,
        decreases m,
    {
        proof {
            lemma_is_pow2_halves(m as nat);
        }
        m = m / 2;
        level = level + 1;
    }
    level
}

/// Whether `n` is an exact power of two.
fn is_power_of_two(n: usize) -> (r: bool)
    ensures
        r == is_pow2(n as nat),
{
    if n == 0 {
        proof {
            lemma_small_pow2();
        }
        return false;
    }
    let mut m = n;
    while m > 1 && m % 2 == 0
        invariant
            1 <= m,
            is_pow2(n as nat) == is_pow2(m as nat),
        decreases m,
    {
        proof {
            lemma_is_pow2_even_step(m as nat);
        }
        m = m / 2;
    }
    proof {
        lemma_small_pow2();
        if m > 1 {
            lemma_odd_not_pow2(m as nat);
        }
    }
    m == 1
}

/// `2^e` as a machine word.
fn pow2_usize(e: u32) -> (r: usize)
    requires
        pow2(e as nat) <= usize::MAX,
    ensures
        r as nat == pow2(e as nat),
{
    let mut r: usize = 1;
    let mut k: u32 = 0;
    while k < e
        invariant
            k <= e,
            r as nat == pow2(k as nat),
            pow2(e as nat) <= usize::MAX,
        decreases e - k,
    {
        proof {
            lemma_pow2_increases((k + 1) as nat, e as nat);
        }
        r = r * 2;
        k = k + 1;
    }
    r
}

impl BuddyAllocator {
    /// The smallest order whose power of two holds `size` bytes, clamped
    /// up to order 2 (the 4-byte size class): how a request is rounded to
    /// a size class. A pure function of the request alone.
    pub fn get_adjusted_order(size: usize) -> (order: u8)
        requires
            size as nat <= usize::MAX / 2 + 1,
        ensures
            order as nat == round_up_to_order(size as nat),
    {
        let mut order: u8 = 2;
        let mut d: usize = 4;
        proof {
            lemma_small_pow2();
        }
        while d < size
            invariant
                2 <= order,
                d as nat == pow2(order as nat),
                order == 2 || pow2((order - 1) as nat) < size as nat,
                size as nat <= usize::MAX / 2 + 1,
                order <= 63,
            decreases 64 - order,
        {
            d = d * 2;
            order = order + 1;
            proof {
                lemma_pow2_usize_bound(order as nat);
            }
        }
        proof {
            lemma_round_up_unique(size as nat, order as nat);
        }
        order
    }

    /// The tree level whose nodes cover `block_size` bytes each: the
    /// number of halvings from the whole arena down to that size.
    ///
    /// A `block_size` that is not a power-of-two divisor of the arena
    /// size is a caller error, excluded by contract.
    pub fn get_level(&self, block_size: usize) -> (level: u32)
        requires
            self.wf(),
            is_pow2(block_size as nat),
            block_size <= self.heap_size,
        ensures
            level as nat == level_for_size(self.heap_size as nat, block_size as nat),
            pow2(level as nat) * block_size as nat == self.heap_size as nat,
    {
        let mut a = self.heap_size;
        let mut level: u32 = 0;
        proof {
            lemma_pow2_usize_bound(log2(self.heap_size as nat));
            lemma_small_pow2();
        }
        while a != block_size
            invariant
                1 <= block_size <= a,
                is_pow2(a as nat),
                is_pow2(block_size as nat),
                a as nat * pow2(level as nat) == self.heap_size as nat,
                level as nat + log2(a as nat) == log2(self.heap_size as nat),
                log2(self.heap_size as nat) <= 63,
            decreases a,
        {
            proof {
                lemma_is_pow2_halves(a as nat);
                lemma_is_pow2_halves_keeps_above(a as nat, block_size as nat);
                assert((a as nat / 2) * pow2((level + 1) as nat) == a as nat * pow2(level as nat))
                    by (nonlinear_arith)
                    requires
                        a as nat % 2 == 0,
                        pow2((level + 1) as nat) == 2 * pow2(level as nat),
                ;
            }
            a = a / 2;
            level = level + 1;
        }
        level
    }

    /// The inclusive range of tree-node indices that make up one level:
    /// `2^level - 1` through `2 * (2^level - 1)`.
    pub fn get_block_range_start_end(level: u32) -> (r: (u32, u32))
        requires
            level <= 30,
        ensures
            r.0 as nat == pow2(level as nat) - 1,
            r.1 as nat == 2 * (pow2(level as nat) - 1),
    {
        let mut p: u32 = 1;
        let mut k: u32 = 0;
        proof {
            lemma_pow2_30();
        }
        while k < level
            invariant
                k <= level <= 30,
                p as nat == pow2(k as nat),
                pow2(30) == 0x4000_0000,
            decreases level - k,
        {
            proof {
                lemma_pow2_increases((k + 1) as nat, 30);
            }
            p = p * 2;
            k = k + 1;
        }
        proof {
            lemma_pow2_pos(k as nat);
            lemma_pow2_increases(k as nat, 30);
        }
        let start = p - 1;
        (start, start * 2)
    }
}

/// Builds the block index for a valid configuration, level by level:
/// `2^level` free nodes per level, each level bisecting the one above,
/// down to the minimum block size. Construction runs exactly once, at
/// allocator construction, so repeated allocation can never rebuild the
/// tree and silently leak granted blocks back as free.
fn build_tree(heap_size: usize, min_block_size: usize) -> (tree: Vec<BlockDesc>)
    requires
        valid_config(heap_size as nat, min_block_size as nat),
    ensures
        tree@ == fresh_tree(heap_size as nat, min_block_size as nat),
{
    let h = log2_usize(heap_size);
    let m = log2_usize(min_block_size);
    proof {
        lemma_log2_monotonic(min_block_size as nat, heap_size as nat);
        lemma_heap_min_ratio_is_pow2(heap_size as nat, min_block_size as nat);
        if (h - m) as nat > 30 {
            lemma_pow2_strictly_increases(30, (h - m) as nat);
            assert(false);
        }
        lemma_pow2_30();
    }
    let l_max = h - m;
    let mut tree: Vec<BlockDesc> = Vec::new();
    let mut size: usize = heap_size;
    let mut level: u32 = 0;
    while level <= l_max
        invariant
            valid_config(heap_size as nat, min_block_size as nat),
            h as nat == log2(heap_size as nat),
            l_max as nat == leaf_level(heap_size as nat, min_block_size as nat),
            l_max <= h,
            l_max <= 30,
            pow2(30) == 0x4000_0000,
            level <= l_max + 1,
            level <= l_max ==> size as nat == pow2((h - level) as nat),
            tree@.len() == pow2(level as nat) - 1,
            forall|k: int|
                0 <= k < tree@.len() ==> tree@[k] == fresh_node(heap_size as nat, k),
        decreases l_max + 1 - level,
    {
        proof {
            lemma_pow2_increases(level as nat, 30);
        }
        let count = pow2_usize(level);
        let mut start: usize = 0;
        let mut j: usize = 0;
        proof {
            lemma_pow2_adds(level as nat, (h - level) as nat);
            assert(pow2(level as nat) * pow2((h - level) as nat) == pow2(h as nat));
        }
        while j < count
            invariant
                valid_config(heap_size as nat, min_block_size as nat),
                h as nat == log2(heap_size as nat),
                l_max as nat == leaf_level(heap_size as nat, min_block_size as nat),
                level <= l_max <= h,
                count as nat == pow2(level as nat),
                size as nat == pow2((h - level) as nat),
                count as nat * size as nat == heap_size as nat,
                j <= count,
                start as nat == j as nat * size as nat,
                tree@.len() == pow2(level as nat) - 1 + j,
                forall|k: int|
                    0 <= k < tree@.len() ==> tree@[k] == fresh_node(heap_size as nat, k),
            decreases count - j,
        {
            let ghost k = tree@.len() as int;
            proof {
                lemma_depth_of_level_index(level as nat, j as int);
                assert(depth(k) == level as nat);
                assert((j as nat + 1) * size as nat <= count as nat * size as nat)
                    by (nonlinear_arith)
                    requires
                        j as nat + 1 <= count as nat,
                        size as nat >= 0,
                ;
                assert((j as nat + 1) * size as nat == j as nat * size as nat + size as nat)
                    by (nonlinear_arith);
                lemma_pow2_pos((h - level) as nat);
                lemma_pow2_div(level as nat, h as nat);
                assert(node_size(heap_size as nat, k) == size as nat);
                assert(node_offset(k) == j);
                assert(node_start(heap_size as nat, k) == start as nat);
            }
            tree.push(BlockDesc::new(true, size, start, start + size - 1));
            proof {
                assert(tree@[k] == fresh_node(heap_size as nat, k));
            }
            start = start + size;
            j = j + 1;
        }
        proof {
            assert(pow2((level + 1) as nat) == 2 * pow2(level as nat));
            if level + 1 <= l_max {
                assert(pow2((h - level) as nat) == 2 * pow2((h - (level + 1)) as nat));
            }
        }
        size = size / 2;
        level = level + 1;
    }
    proof {
        lemma_heap_min_ratio_is_pow2(heap_size as nat, min_block_size as nat);
        assert(pow2((l_max + 1) as nat) == 2 * pow2(l_max as nat));
        assert(tree@.len() == 2 * (heap_size as nat / min_block_size as nat) - 1);
        assert(tree@ =~= fresh_tree(heap_size as nat, min_block_size as nat));
    }
    tree
}

/// Builds a whole allocator for a valid configuration: a zeroed arena,
/// the fresh block index, and all generations at zero.
fn construct(heap_size: usize, min_block_size: usize) -> (a: BuddyAllocator)
    requires
        valid_config(heap_size as nat, min_block_size as nat),
    ensures
        a.wf(),
        a.heap_size == heap_size,
        a.min_block_size == min_block_size,
        a.blocks_tree@ == fresh_tree(heap_size as nat, min_block_size as nat),
        a.blocks_tree@.len() == 2 * (heap_size as nat / min_block_size as nat) - 1,
        a.arena@ == Seq::new(heap_size as nat, |i: int| 0u8),
        a.block_gens@ == Seq::new(a.blocks_tree@.len(), |i: int| 0u64),
{
    let mut arena: Vec<u8> = Vec::with_capacity(heap_size);
    let mut i: usize = 0;
    while i < heap_size
        invariant
            i <= heap_size,
            arena@.len() == i,
            forall|k: int| 0 <= k < i ==> arena@[k] == 0u8,
        decreases heap_size - i,
    {
        arena.push(0);
        i = i + 1;
    }
    let tree = build_tree(heap_size, min_block_size);
    let mut gens: Vec<u64> = Vec::new();
    let mut g: usize = 0;
    let n = tree.len();
    while g < n
        invariant
            g <= n,
            gens@.len() == g,
            forall|k: int| 0 <= k < g ==> gens@[k] == 0u64,
        decreases n - g,
    {
        gens.push(0);
        g = g + 1;
    }
    proof {
        lemma_fresh_tree_wf(heap_size as nat, min_block_size as nat);
        lemma_heap_min_ratio_is_pow2(heap_size as nat, min_block_size as nat);
    }
    let a = BuddyAllocator { arena, heap_size, min_block_size, blocks_tree: tree, block_gens: gens };
    proof {
        assert(a.arena@ =~= Seq::new(heap_size as nat, |i: int| 0u8));
        assert(a.block_gens@ =~= Seq::new(a.blocks_tree@.len(), |i: int| 0u64));
    }
    a
}

impl BuddyAllocator {
    /// A new allocator over a zero-initialised arena of `heap_size`
    /// bytes, with the 4-byte minimum block size. The block index is
    /// built here, once: `2 * (heap_size / 4) - 1` nodes, all free.
    pub fn new(heap_size: usize) -> (a: BuddyAllocator)
        requires
            valid_config(heap_size as nat, 4),
        ensures
            a.wf(),
            a.heap_size == heap_size,
            a.min_block_size == 4,
            a.blocks_tree@ == fresh_tree(heap_size as nat, 4),
            a.blocks_tree@.len() == 2 * (heap_size as nat / 4) - 1,
            a.arena@ == Seq::new(heap_size as nat, |i: int| 0u8),
            a.block_gens@ == Seq::new(a.blocks_tree@.len(), |i: int| 0u64),
    {
        construct(heap_size, 4)
    }

    /// A new allocator for an arbitrary configuration. Rejects, with
    /// `InvalidConfiguration`, sizes that are not powers of two, a
    /// minimum block larger than the arena, and configurations of more
    /// than 2^30 minimum blocks (whose node indices would not fit the
    /// index arithmetic).
    pub fn create(heap_size: usize, min_block_size: usize) -> (r: Result<
        BuddyAllocator,
        AllocError,
    >)
        ensures
            match r {
                Ok(a) => {
                    &&& valid_config(heap_size as nat, min_block_size as nat)
                    &&& a.wf()
                    &&& a.heap_size == heap_size
                    &&& a.min_block_size == min_block_size
                    &&& a.blocks_tree@ == fresh_tree(heap_size as nat, min_block_size as nat)
                    &&& a.blocks_tree@.len() == 2 * (heap_size as nat / min_block_size as nat) - 1
                    &&& a.arena@ == Seq::new(heap_size as nat, |i: int| 0u8)
                    &&& a.block_gens@ == Seq::new(a.blocks_tree@.len(), |i: int| 0u64)
                },
                Err(e) => {
                    &&& e == AllocError::InvalidConfiguration
                    &&& !valid_config(heap_size as nat, min_block_size as nat)
                },
            },
    {
        if !is_power_of_two(heap_size) || !is_power_of_two(min_block_size)
            || min_block_size > heap_size {
            return Err(AllocError::InvalidConfiguration);
        }
        proof {
            lemma_pow2_30();
        }
        let threshold = pow2_usize(30);
        if heap_size / min_block_size > threshold {
            return Err(AllocError::InvalidConfiguration);
        }
        Ok(construct(heap_size, min_block_size))
    }
}

/// The generation a node gets when it is granted again.
pub open spec fn next_generation(g: u64) -> u64 {
    if g == u64::MAX {
        0
    } else {
        (g + 1) as u64
    }
}

/// The byte size class a request is actually served from: the request
/// rounded up to a power of two, but never below the minimum block size.
pub open spec fn granted_size(size: nat, min: nat) -> nat {
    if pow2(round_up_to_order(size)) >= min {
        pow2(round_up_to_order(size))
    } else {
        min
    }
}

/// The handle a successful allocation of node `i` returns, given the
/// tree and generations before the grant.
pub open spec fn granted_handle(tree: Seq<BlockDesc>, gens: Seq<u64>, i: int) -> BlockHandle {
    BlockHandle {
        node_index: i as usize,
        start: tree[i].start,
        end: tree[i].end,
        size: tree[i].size,
        generation: next_generation(gens[i]),
    }
}

impl BuddyAllocator {
    /// First-fit search at the level whose blocks are `requested_size`
    /// bytes: scans that level left to right for a free node; if one is
    /// found, marks it and all its ancestors used, bumps its generation,
    /// and returns its handle. Returns `None`, changing nothing, when
    /// every node of the level is used. The block index itself was built
    /// at construction and is never rebuilt here.
    ///
    /// `requested_size` must be one of the tree's size classes; arbitrary
    /// byte counts are rounded by `alloc_with_size`.
    pub fn get_block(&mut self, requested_size: usize) -> (r: Option<BlockHandle>)
        requires
            old(self).wf(),
            is_pow2(requested_size as nat),
            old(self).min_block_size <= requested_size <= old(self).heap_size,
        ensures
            final(self).wf(),
            final(self).heap_size == old(self).heap_size,
            final(self).min_block_size == old(self).min_block_size,
            final(self).arena@ == old(self).arena@,
            ({
                let heap = old(self).heap_size as nat;
                let lvl = level_for_size(heap, requested_size as nat);
                let first = pow2(lvl) - 1;
                let last = 2 * pow2(lvl) - 2;
                match find_free_in(old(self).blocks_tree@, first, last) {
                    Option::None => {
                        &&& r == Option::<BlockHandle>::None
                        &&& *final(self) == *old(self)
                    },
                    Option::Some(i) => {
                        &&& r == Option::Some(
                            granted_handle(old(self).blocks_tree@, old(self).block_gens@, i),
                        )
                        &&& final(self).blocks_tree@ == alloc_step(old(self).blocks_tree@, i)
                        &&& final(self).block_gens@ == old(self).block_gens@.update(
                            i,
                            next_generation(old(self).block_gens@[i]),
                        )
                    },
                }
            }),
    {
        let ghost heap = old(self).heap_size as nat;
        let ghost minb = old(self).min_block_size as nat;
        let level = self.get_level(requested_size);
        proof {
            lemma_heap_min_ratio_is_pow2(heap, minb);
            lemma_pow2_pos(leaf_level(heap, minb));
            lemma_depth_le_leaf(heap, minb, 0);
            lemma_log2_monotonic(minb, requested_size as nat);
            lemma_log2_monotonic(requested_size as nat, heap);
            lemma_pow2_increases(level as nat, leaf_level(heap, minb));
            lemma_pow2_increases(level as nat, 30);
            lemma_pow2_30();
        }
        let range = Self::get_block_range_start_end(level);
        let first = range.0 as usize;
        let last = range.1 as usize;
        let ghost t0 = old(self).blocks_tree@;
        proof {
            assert(last < t0.len());
            lemma_pow2_pos(level as nat);
        }
        let mut i = first;
        while i <= last && !self.blocks_tree[i].is_free
            invariant
                first <= i <= last + 1,
                last < usize::MAX,
                last < self.blocks_tree@.len(),
                *self == *old(self),
                forall|k: int| first <= k < i ==> !(#[trigger] old(self).blocks_tree@[k]).is_free,
            decreases last + 1 - i,
        {
            i = i + 1;
        }
        proof {
            lemma_find_free_skip(t0, first as int, i as int, last as int);
        }
        if i > last {
            return None;
        }
        let desc = self.blocks_tree[i];
        let mut nb = desc;
        nb.is_free = false;
        self.blocks_tree[i] = nb;
        let ghost t_alloc = alloc_step(t0, i as int);
        proof {
            assert(nb == set_free(t0[i as int], false));
            assert(self.blocks_tree@ == t0.update(i as int, set_free(t0[i as int], false)));
        }
        let mut j = i;
        while j != 0
            invariant
                j < self.blocks_tree@.len(),
                self.blocks_tree@.len() == old(self).blocks_tree@.len(),
                mark_ancestors_used(self.blocks_tree@, j as int) == t_alloc,
                self.arena@ == old(self).arena@,
                self.block_gens@ == old(self).block_gens@,
                self.heap_size == old(self).heap_size,
                self.min_block_size == old(self).min_block_size,
            decreases j,
        {
            let p = (j - 1) / 2;
            proof {
                assert(p as int == parent_index(j as int));
                let cur = self.blocks_tree@;
                assert(mark_ancestors_used(cur, j as int) == mark_ancestors_used(
                    cur.update(p as int, set_free(cur[p as int], false)),
                    p as int,
                ));
            }
            let mut pb = self.blocks_tree[p];
            pb.is_free = false;
            self.blocks_tree[p] = pb;
            j = p;
        }
        proof {
            assert(self.blocks_tree@ == t_alloc);
            lemma_alloc_step_structure(t0, i as int);
            lemma_wf_same_structure(t0, self.blocks_tree@, heap, minb);
        }
        let gen = self.block_gens[i];
        let new_gen = if gen == u64::MAX {
            0
        } else {
            gen + 1
        };
        self.block_gens[i] = new_gen;
        Some(
            BlockHandle {
                node_index: i,
                start: desc.start,
                end: desc.end,
                size: desc.size,
                generation: new_gen,
            },
        )
    }

    /// Allocates a block of at least `size` bytes: rounds the request up
    /// to the arena's size classes (a zero-byte request rounds up to the
    /// minimum block) and serves it first-fit from the matching tree
    /// level. Fails with `OutOfMemory`, changing nothing, when the
    /// rounded request exceeds the whole arena or no node of the
    /// matching level is free.
    pub fn alloc_with_size(&mut self, size: usize) -> (r: Result<BlockHandle, AllocError>)
        requires
            old(self).wf(),
        ensures
            final(self).wf(),
            final(self).heap_size == old(self).heap_size,
            final(self).min_block_size == old(self).min_block_size,
            final(self).arena@ == old(self).arena@,
            ({
                let heap = old(self).heap_size as nat;
                let minb = old(self).min_block_size as nat;
                let g = granted_size(size as nat, minb);
                if g > heap {
                    &&& r == Result::<BlockHandle, AllocError>::Err(AllocError::OutOfMemory)
                    &&& *final(self) == *old(self)
                } else {
                    let lvl = level_for_size(heap, g);
                    let first = pow2(lvl) - 1;
                    let last = 2 * pow2(lvl) - 2;
                    match find_free_in(old(self).blocks_tree@, first, last) {
                        Option::None => {
                            &&& r == Result::<BlockHandle, AllocError>::Err(
                                AllocError::OutOfMemory,
                            )
                            &&& *final(self) == *old(self)
                        },
                        Option::Some(i) => {
                            &&& r == Result::<BlockHandle, AllocError>::Ok(
                                granted_handle(old(self).blocks_tree@, old(self).block_gens@, i),
                            )
                            &&& final(self).blocks_tree@ == alloc_step(old(self).blocks_tree@, i)
                            &&& final(self).block_gens@ == old(self).block_gens@.update(
                                i,
                                next_generation(old(self).block_gens@[i]),
                            )
                        },
                    }
                }
            }),
    {
        let ghost heap = old(self).heap_size as nat;
        let ghost minb = old(self).min_block_size as nat;
        proof {
            lemma_round_up_ge(size as nat);
        }
        if size > self.heap_size {
            return Err(AllocError::OutOfMemory);
        }
        proof {
            assert(is_pow2(heap));
            lemma_pow2_usize_half(log2(heap));
        }
        let order = Self::get_adjusted_order(size);
        let mut d: usize = 1;
        let mut k: u8 = 0;
        proof {
            lemma_small_pow2();
        }
        while k < order && d < self.heap_size
            invariant
                k <= order,
                d as nat == pow2(k as nat),
                d <= self.heap_size,
                heap == old(self).heap_size as nat,
                *self == *old(self),
                is_pow2(heap),
            decreases order - k,
        {
            proof {
                lemma_pow2_is_pow2(k as nat);
                lemma_is_pow2_halves_keeps_above(heap, d as nat);
                lemma_is_pow2_halves(heap);
            }
            d = d * 2;
            k = k + 1;
        }
        if k < order {
            proof {
                assert(d == self.heap_size);
                lemma_pow2_increases((k + 1) as nat, order as nat);
                assert(pow2(order as nat) >= 2 * heap);
            }
            return Err(AllocError::OutOfMemory);
        }
        let req = if d < self.min_block_size {
            self.min_block_size
        } else {
            d
        };
        proof {
            assert(req as nat == granted_size(size as nat, minb));
            assert(is_pow2(req as nat)) by {
                lemma_pow2_is_pow2(order as nat);
            }
        }
        match self.get_block(req) {
            Some(h) => Ok(h),
            None => Err(AllocError::OutOfMemory),
        }
    }

    /// Takes back the block a handle names: rejects handles that name no
    /// currently tracked node (`InvalidHandle`) and blocks that are
    /// already free (`DoubleFree`), both without changing anything; on
    /// success marks the node free and coalesces buddies up the tree as
    /// far as both halves are free.
    pub fn free(&mut self, handle: BlockHandle) -> (r: Result<(), AllocError>)
        requires
            old(self).wf(),
        ensures
            final(self).wf(),
            final(self).heap_size == old(self).heap_size,
            final(self).min_block_size == old(self).min_block_size,
            final(self).arena@ == old(self).arena@,
            final(self).block_gens@ == old(self).block_gens@,
            !old(self).handle_matches(handle) ==> r == Result::<(), AllocError>::Err(
                AllocError::InvalidHandle,
            ) && *final(self) == *old(self),
            old(self).handle_matches(handle) && old(self).blocks_tree@[handle.node_index as int].is_free
                ==> r == Result::<(), AllocError>::Err(AllocError::DoubleFree) && *final(self)
                == *old(self),
            old(self).handle_live(handle) ==> r == Result::<(), AllocError>::Ok(())
                && final(self).blocks_tree@ == free_step(
                old(self).blocks_tree@,
                handle.node_index as int,
            ),
    {
        let ghost heap = old(self).heap_size as nat;
        let ghost minb = old(self).min_block_size as nat;
        let ghost t0 = old(self).blocks_tree@;
        let idx = handle.node_index;
        if idx >= self.blocks_tree.len() {
            return Err(AllocError::InvalidHandle);
        }
        let b = self.blocks_tree[idx];
        let gen = self.block_gens[idx];
        if b.start != handle.start || b.end != handle.end || b.size != handle.size || gen
            != handle.generation {
            return Err(AllocError::InvalidHandle);
        }
        if b.is_free {
            return Err(AllocError::DoubleFree);
        }
        let mut nb = b;
        nb.is_free = true;
        self.blocks_tree[idx] = nb;
        let ghost t_free = free_step(t0, idx as int);
        proof {
            assert(nb == set_free(t0[idx as int], true));
            assert(self.blocks_tree@ == t0.update(idx as int, set_free(t0[idx as int], true)));
        }
        let mut j = idx;
        while j != 0
            invariant_except_break
                j < self.blocks_tree@.len(),
                self.blocks_tree@.len() <= usize::MAX,
                self.blocks_tree@.len() == old(self).blocks_tree@.len(),
                coalesce_up(self.blocks_tree@, j as int) == t_free,
                self.arena@ == old(self).arena@,
                self.block_gens@ == old(self).block_gens@,
                self.heap_size == old(self).heap_size,
                self.min_block_size == old(self).min_block_size,
                valid_config(heap, minb),
                self.blocks_tree@.len() == tree_len(heap, minb),
            ensures
                self.blocks_tree@ == t_free,
                self.blocks_tree@.len() == old(self).blocks_tree@.len(),
                self.arena@ == old(self).arena@,
                self.block_gens@ == old(self).block_gens@,
                self.heap_size == old(self).heap_size,
                self.min_block_size == old(self).min_block_size,
            decreases j,
        {
            let sib = if j % 2 == 1 {
                j + 1
            } else {
                j - 1
            };
            proof {
                lemma_sibling_in_range(heap, minb, j as int);
                assert(sib as int == sibling_index(j as int));
            }
            if self.blocks_tree[sib].is_free {
                let p = (j - 1) / 2;
                proof {
                    assert(p as int == parent_index(j as int));
                    let cur = self.blocks_tree@;
                    assert(coalesce_up(cur, j as int) == coalesce_up(
                        cur.update(p as int, set_free(cur[p as int], true)),
                        p as int,
                    ));
                }
                let mut pb = self.blocks_tree[p];
                pb.is_free = true;
                self.blocks_tree[p] = pb;
                j = p;
            } else {
                proof {
                    assert(coalesce_up(self.blocks_tree@, j as int) == self.blocks_tree@);
                }
                break;
            }
        }
        proof {
            lemma_free_step_structure(t0, idx as int);
            lemma_wf_same_structure(t0, self.blocks_tree@, heap, minb);
        }
        Ok(())
    }
}

/// The value of four little-endian bytes.
pub open spec fn u32_of_le_bytes(b0: u8, b1: u8, b2: u8, b3: u8) -> u32 {
    (b0 + 256 * (b1 as nat) + 65536 * (b2 as nat) + 16777216 * (b3 as nat)) as u32
}

pub open spec fn le_byte0(v: u32) -> u8 {
    (v % 256) as u8
}

pub open spec fn le_byte1(v: u32) -> u8 {
    ((v / 256) % 256) as u8
}

pub open spec fn le_byte2(v: u32) -> u8 {
    ((v / 65536) % 256) as u8
}

pub open spec fn le_byte3(v: u32) -> u8 {
    (v / 16777216) as u8
}

/// Reassembling the four little-endian bytes of a value gives the value
/// back.
pub proof fn lemma_u32_le_round_trip(v: u32)
    ensures
        u32_of_le_bytes(le_byte0(v), le_byte1(v), le_byte2(v), le_byte3(v)) == v,
{
    let x = v as int;
    vstd::arithmetic::div_mod::lemma_fundamental_div_mod(x, 256);
    vstd::arithmetic::div_mod::lemma_fundamental_div_mod(x / 256, 256);
    vstd::arithmetic::div_mod::lemma_fundamental_div_mod(x / 65536, 256);
    vstd::arithmetic::div_mod::lemma_div_denominator(x, 256, 256);
    vstd::arithmetic::div_mod::lemma_div_denominator(x, 65536, 256);
}

impl BuddyAllocator {
    /// One byte of a granted block, at `offset` within its range. The
    /// handle must be live and the offset within the block: access never
    /// leaves the granted range.
    pub fn read_byte(&self, handle: BlockHandle, offset: usize) -> (r: u8)
        requires
            self.wf(),
            self.handle_live(handle),
            offset < handle.size,
        ensures
            r == self.arena@[handle.start + offset],
    {
        proof {
            self.lemma_handle_range(handle);
        }
        self.arena[handle.start + offset]
    }

    /// Writes one byte of a granted block, at `offset` within its range;
    /// no other arena byte and no tree state changes.
    pub fn write_byte(&mut self, handle: BlockHandle, offset: usize, value: u8)
        requires
            old(self).wf(),
            old(self).handle_live(handle),
            offset < handle.size,
        ensures
            final(self).wf(),
            final(self).arena@ == old(self).arena@.update(handle.start + offset, value),
            final(self).blocks_tree@ == old(self).blocks_tree@,
            final(self).block_gens@ == old(self).block_gens@,
            final(self).heap_size == old(self).heap_size,
            final(self).min_block_size == old(self).min_block_size,
    {
        proof {
            self.lemma_handle_range(handle);
        }
        self.arena[handle.start + offset] = value;
    }

    /// Reads a 32-bit value stored little-endian at `offset` within a
    /// granted block.
    pub fn read_u32_le(&self, handle: BlockHandle, offset: usize) -> (r: u32)
        requires
            self.wf(),
            self.handle_live(handle),
            offset + 4 <= handle.size,
        ensures
            r == u32_of_le_bytes(
                self.arena@[handle.start + offset],
                self.arena@[handle.start + offset + 1],
                self.arena@[handle.start + offset + 2],
                self.arena@[handle.start + offset + 3],
            ),
    {
        let b0 = self.read_byte(handle, offset);
        let b1 = self.read_byte(handle, offset + 1);
        let b2 = self.read_byte(handle, offset + 2);
        let b3 = self.read_byte(handle, offset + 3);
        b0 as u32 + 256 * (b1 as u32) + 65536 * (b2 as u32) + 16777216 * (b3 as u32)
    }

    /// Stores a 32-bit value little-endian at `offset` within a granted
    /// block: four bytes change, lowest first, and nothing else.
    pub fn write_u32_le(&mut self, handle: BlockHandle, offset: usize, value: u32)
        requires
            old(self).wf(),
            old(self).handle_live(handle),
            offset + 4 <= handle.size,
        ensures
            final(self).wf(),
            final(self).arena@ == old(self).arena@.update(
                handle.start + offset,
                le_byte0(value),
            ).update((handle.start + offset + 1) as int, le_byte1(value)).update(
                (handle.start + offset + 2) as int,
                le_byte2(value),
            ).update((handle.start + offset + 3) as int, le_byte3(value)),
            final(self).blocks_tree@ == old(self).blocks_tree@,
            final(self).block_gens@ == old(self).block_gens@,
            final(self).heap_size == old(self).heap_size,
            final(self).min_block_size == old(self).min_block_size,
    {
        self.write_byte(handle, offset, (value % 256) as u8);
        self.write_byte(handle, offset + 1, ((value / 256) % 256) as u8);
        self.write_byte(handle, offset + 2, ((value / 65536) % 256) as u8);
        self.write_byte(handle, offset + 3, (value / 16777216) as u8);
    }

    /// The byte range of a live handle lies inside the arena.
    proof fn lemma_handle_range(&self, handle: BlockHandle)
        requires
            self.wf(),
            self.handle_matches(handle),
        ensures
            handle.start + handle.size <= self.arena@.len(),
            handle.size >= 1,
    {
        let i = handle.node_index as int;
        let heap = self.heap_size as nat;
        let minb = self.min_block_size as nat;
        assert(wf_node(self.blocks_tree@, heap, i));
        lemma_node_geometry(heap, minb, i);
        lemma_pow2_pos(depth(i));
    }
}

/// Halving a power of two does not drop below a smaller power of two.
proof fn lemma_is_pow2_halves_keeps_above(a: nat, b: nat)
    requires
        is_pow2(a),
        is_pow2(b),
        b < a,
    ensures
        b <= a / 2,
{
    lemma_is_pow2_halves(a);
    lemma_log2_monotonic(b, a);
    if log2(b) == log2(a) {
        assert(false);
    }
    lemma_pow2_increases(log2(b), (log2(a) - 1) as nat);
}

} // verus!
