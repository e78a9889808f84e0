//! The data carried per tree node, the opaque handle returned by
//! allocation, and the allocator's error kinds.

use vstd::prelude::*;

verus! {

/// One node of the block index: the power-of-two-sized region of the arena
/// it covers and whether that whole region is available.
///
/// A node is free only when it and its entire subtree are available; it is
/// marked not-free both when it is itself the granted block and when any
/// descendant is granted (every ancestor of a granted node is eagerly
/// marked used).
#[derive(Clone, Copy, PartialEq, Eq, Structural, Debug)]
pub struct BlockDesc {
    pub is_free: bool,
    /// Byte size of the region; always `heap_size / 2^level`.
    pub size: usize,
    /// Inclusive first byte offset into the arena.
    pub start: usize,
    /// Inclusive last byte offset; `end - start + 1 == size`.
    pub end: usize,
}

impl BlockDesc {
    pub fn new(is_free: bool, size: usize, start: usize, end: usize) -> (b: BlockDesc)
        ensures
            b == (BlockDesc { is_free, size, start, end }),
    {
        BlockDesc { is_free, size, start, end }
    }
}

/// A handle to a granted block: the proof of an allocation that `free`
/// takes back. It records which tree node was granted, the byte range the
/// caller may use, and the generation of the grant, so that a stale handle
/// kept across a free/reallocate cycle is rejected instead of corrupting
/// the tree.
#[derive(Clone, Copy, PartialEq, Eq, Structural, Debug)]
pub struct BlockHandle {
    /// Index of the granted node in the block index.
    pub node_index: usize,
    /// Inclusive first byte offset of the granted range.
    pub start: usize,
    /// Inclusive last byte offset of the granted range.
    pub end: usize,
    /// Byte size of the granted range.
    pub size: usize,
    /// Generation of the grant; incremented on every allocation of the
    /// same node.
    pub generation: u64,
}

/// Every failure the allocator reports. All are recoverable by the caller;
/// no operation mutates the allocator when it fails.
#[derive(Clone, Copy, PartialEq, Eq, Structural, Debug)]
pub enum AllocError {
    /// No free block of the required size class, or the request exceeds
    /// the whole arena.
    OutOfMemory,
    /// The sizes handed to `create` are not powers of two, are inverted,
    /// or ask for more tree levels than the index supports.
    InvalidConfiguration,
    /// The handle does not denote a currently granted block.
    InvalidHandle,
    /// The handle's block has already been freed.
    DoubleFree,
}

} // verus!
