use buddy_alloc::allocator::BuddyAllocator;
use buddy_alloc::block::{AllocError, BlockHandle};

fn tree_free_bits(ba: &BuddyAllocator) -> Vec<bool> {
    let mut bits = Vec::new();
    for node in &ba.blocks_tree {
        bits.push(node.is_free);
    }
    bits
}

#[test]
fn test_tree_node_count_formula() {
    let ba = BuddyAllocator::new(16);
    assert_eq!(ba.blocks_tree.len(), 2 * (16 / 4) - 1);
    let ba = BuddyAllocator::new(1024);
    assert_eq!(ba.blocks_tree.len(), 2 * (1024 / 4) - 1);
    let ba = BuddyAllocator::create(64, 16).unwrap();
    assert_eq!(ba.blocks_tree.len(), 2 * (64 / 16) - 1);
    let ba = BuddyAllocator::create(8, 8).unwrap();
    assert_eq!(ba.blocks_tree.len(), 1);
}

#[test]
fn test_adjusted_order_exact_on_powers() {
    assert_eq!(BuddyAllocator::get_adjusted_order(4), 2);
    assert_eq!(BuddyAllocator::get_adjusted_order(8), 3);
    assert_eq!(BuddyAllocator::get_adjusted_order(16), 4);
    assert_eq!(BuddyAllocator::get_adjusted_order(1024), 10);
    assert_eq!(BuddyAllocator::get_adjusted_order(5), 3);
    assert_eq!(BuddyAllocator::get_adjusted_order(17), 5);
}

#[test]
fn test_alloc_free_round_trip_restores_state() {
    let mut ba = BuddyAllocator::new(32);
    let before = tree_free_bits(&ba);
    let h = ba.alloc_with_size(8).unwrap();
    assert_ne!(tree_free_bits(&ba), before);
    ba.free(h).unwrap();
    assert_eq!(tree_free_bits(&ba), before);
}

#[test]
fn test_two_min_allocs_disjoint_ranges() {
    let mut ba = BuddyAllocator::new(16);
    let a = ba.alloc_with_size(4).unwrap();
    let b = ba.alloc_with_size(4).unwrap();
    assert_eq!((a.start, a.end), (0, 3));
    assert_eq!((b.start, b.end), (4, 7));
    assert!(a.end < b.start);
    assert!(!ba.blocks_tree[3].is_free);
    assert!(!ba.blocks_tree[4].is_free);
    assert!(!ba.blocks_tree[1].is_free);
    assert!(!ba.blocks_tree[0].is_free);
}

#[test]
fn test_free_both_buddies_coalesces_to_root() {
    let mut ba = BuddyAllocator::new(16);
    let a = ba.alloc_with_size(4).unwrap();
    let b = ba.alloc_with_size(4).unwrap();
    assert_eq!(a.node_index, 3);
    assert_eq!(b.node_index, 4);
    ba.free(a).unwrap();
    ba.free(b).unwrap();
    for i in 0..7 {
        assert!(ba.blocks_tree[i].is_free);
    }
}

#[test]
fn test_alloc_larger_than_heap_fails_without_mutation() {
    let mut ba = BuddyAllocator::new(16);
    let before = tree_free_bits(&ba);
    assert_eq!(ba.alloc_with_size(32), Err(AllocError::OutOfMemory));
    assert_eq!(ba.alloc_with_size(17), Err(AllocError::OutOfMemory));
    assert_eq!(tree_free_bits(&ba), before);
}

#[test]
fn test_double_free_detected_and_harmless() {
    let mut ba = BuddyAllocator::new(16);
    let a = ba.alloc_with_size(4).unwrap();
    let b = ba.alloc_with_size(4).unwrap();
    ba.free(a).unwrap();
    let before = tree_free_bits(&ba);
    assert_eq!(ba.free(a), Err(AllocError::DoubleFree));
    assert_eq!(tree_free_bits(&ba), before);
    assert!(!ba.blocks_tree[b.node_index].is_free);
}

#[test]
fn test_exhausting_leaves_then_one_more_fails() {
    let mut ba = BuddyAllocator::new(16);
    for _ in 0..4 {
        ba.alloc_with_size(4).unwrap();
    }
    assert_eq!(ba.alloc_with_size(4), Err(AllocError::OutOfMemory));
}

#[test]
fn test_create_rejects_bad_configurations() {
    assert_eq!(
        BuddyAllocator::create(15, 4).err().unwrap(),
        AllocError::InvalidConfiguration
    );
    assert_eq!(
        BuddyAllocator::create(16, 3).err().unwrap(),
        AllocError::InvalidConfiguration
    );
    assert_eq!(
        BuddyAllocator::create(4, 8).err().unwrap(),
        AllocError::InvalidConfiguration
    );
    assert_eq!(
        BuddyAllocator::create(16, 0).err().unwrap(),
        AllocError::InvalidConfiguration
    );
    assert_eq!(
        BuddyAllocator::create(0, 4).err().unwrap(),
        AllocError::InvalidConfiguration
    );
    assert!(BuddyAllocator::create(16, 4).is_ok());
}

#[test]
fn test_custom_min_block_size() {
    let mut ba = BuddyAllocator::create(32, 8).unwrap();
    assert_eq!(ba.blocks_tree.len(), 7);
    assert_eq!(ba.get_level(8), 2);
    let h = ba.alloc_with_size(1).unwrap();
    assert_eq!(h.size, 8);
    assert_eq!((h.start, h.end), (0, 7));
}

#[test]
fn test_zero_size_request_rounds_to_minimum() {
    let mut ba = BuddyAllocator::new(16);
    let h = ba.alloc_with_size(0).unwrap();
    assert_eq!(h.size, 4);
}

#[test]
fn test_free_rejects_forged_handle() {
    let mut ba = BuddyAllocator::new(16);
    let _ = ba.alloc_with_size(4).unwrap();
    let forged = BlockHandle {
        node_index: 42,
        start: 0,
        end: 3,
        size: 4,
        generation: 1,
    };
    assert_eq!(ba.free(forged), Err(AllocError::InvalidHandle));
    let wrong_range = BlockHandle {
        node_index: 3,
        start: 4,
        end: 7,
        size: 4,
        generation: 1,
    };
    assert_eq!(ba.free(wrong_range), Err(AllocError::InvalidHandle));
}

#[test]
fn test_free_rejects_stale_generation() {
    let mut ba = BuddyAllocator::new(16);
    let first = ba.alloc_with_size(4).unwrap();
    ba.free(first).unwrap();
    let second = ba.alloc_with_size(4).unwrap();
    assert_eq!(second.node_index, first.node_index);
    assert_eq!(ba.free(first), Err(AllocError::InvalidHandle));
    assert!(!ba.blocks_tree[second.node_index].is_free);
    ba.free(second).unwrap();
}

#[test]
fn test_u32_little_endian_bytes() {
    let mut ba = BuddyAllocator::new(16);
    let h = ba.alloc_with_size(4).unwrap();
    ba.write_u32_le(h, 0, 0x1122_3344);
    assert_eq!(ba.read_byte(h, 0), 0x44);
    assert_eq!(ba.read_byte(h, 1), 0x33);
    assert_eq!(ba.read_byte(h, 2), 0x22);
    assert_eq!(ba.read_byte(h, 3), 0x11);
    assert_eq!(ba.read_u32_le(h, 0), 0x1122_3344);
    ba.write_byte(h, 0, 0x45);
    assert_eq!(ba.read_u32_le(h, 0), 0x1122_3345);
}

#[test]
fn test_arena_starts_zeroed() {
    let mut ba = BuddyAllocator::new(16);
    let h = ba.alloc_with_size(16).unwrap();
    for i in 0..16 {
        assert_eq!(ba.read_byte(h, i), 0);
    }
}

#[test]
fn test_whole_arena_alloc_uses_root() {
    let mut ba = BuddyAllocator::new(16);
    let h = ba.alloc_with_size(16).unwrap();
    assert_eq!(h.node_index, 0);
    assert_eq!((h.start, h.end, h.size), (0, 15, 16));
    assert_eq!(ba.alloc_with_size(16), Err(AllocError::OutOfMemory));
    ba.free(h).unwrap();
    assert!(ba.blocks_tree[0].is_free);
}
