//! A fixed-size buddy memory allocator.
//!
//! The allocator owns a contiguous byte arena and a complete binary tree of
//! block descriptors (the block index). Level 0 of the tree covers the whole
//! arena; each deeper level halves the block size, down to the minimum block
//! size. Allocation rounds a request up to a power-of-two size class, scans
//! the matching tree level for a free node, and marks that node and all of
//! its ancestors used. Freeing marks the node free again and coalesces with
//! its buddy (sibling) as far up the tree as both halves are free.

pub mod allocator;
pub mod block;
pub mod laws;
pub mod math;
pub mod tree;
