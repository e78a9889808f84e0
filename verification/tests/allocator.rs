use buddy_alloc::allocator::BuddyAllocator;

#[test]
fn test_get_adjusted_order() {
    assert_eq!(BuddyAllocator::get_adjusted_order(19usize), 5u8);
    assert_eq!(BuddyAllocator::get_adjusted_order(32usize), 5u8);
    assert_eq!(BuddyAllocator::get_adjusted_order(1usize), 2u8);
    assert_eq!(BuddyAllocator::get_adjusted_order(0usize), 2u8);
}

#[test]
fn test_get_level() {
    let ba = BuddyAllocator::new(16);
    assert_eq!(ba.get_level(2), 3);
    assert_eq!(ba.get_level(4), 2);
    assert_eq!(ba.get_level(8), 1);
    assert_eq!(ba.get_level(16), 0);
}

#[test]
fn test_get_block_range_start_end() {
    let ba = BuddyAllocator::new(16);
    assert_eq!(BuddyAllocator::get_block_range_start_end(ba.get_level(2)), (7, 14));
    assert_eq!(BuddyAllocator::get_block_range_start_end(ba.get_level(4)), (3, 6));
    assert_eq!(BuddyAllocator::get_block_range_start_end(ba.get_level(8)), (1, 2));
    assert_eq!(BuddyAllocator::get_block_range_start_end(ba.get_level(16)), (0, 0));
}

#[test]
fn test_get_block() {
    let mut ba = BuddyAllocator::new(16);
    let _ = ba.get_block(16);
    assert_eq!(ba.blocks_tree.len(), 7);
}

#[test]
fn test_blocks_tree_creation() {
    let mut ba = BuddyAllocator::new(16);
    let _ = ba.get_block(16);
    assert_eq!(ba.blocks_tree.len(), 7);
    assert_eq!(ba.blocks_tree[0].start, 0);
    assert_eq!(ba.blocks_tree[0].end, 15);
    assert_eq!(ba.blocks_tree[1].start, 0);
    assert_eq!(ba.blocks_tree[1].end, 7);
    assert_eq!(ba.blocks_tree[2].start, 8);
    assert_eq!(ba.blocks_tree[2].end, 15);
    assert_eq!(ba.blocks_tree[3].start, 0);
    assert_eq!(ba.blocks_tree[3].end, 3);
    assert_eq!(ba.blocks_tree[4].start, 4);
    assert_eq!(ba.blocks_tree[4].end, 7);

    let mut ba = BuddyAllocator::new(32);
    let _ = ba.get_block(16);
    assert_eq!(ba.blocks_tree.len(), 15);
}

#[test]
fn test_data_store_i32() {
    let mut ba = BuddyAllocator::new(16);

    let p = ba.alloc_with_size(4).unwrap();
    assert!(!ba.blocks_tree[3].is_free);
    assert!(ba.blocks_tree[4].is_free);
    ba.write_u32_le(p, 0, 4);
    assert_eq!(ba.read_u32_le(p, 0), 4);
}

#[test]
fn test_data_store_2_i32() {
    let mut ba = BuddyAllocator::new(16);

    let p = ba.alloc_with_size(4).unwrap();
    assert!(!ba.blocks_tree[3].is_free);
    assert!(ba.blocks_tree[4].is_free);
    ba.write_u32_le(p, 0, 4);
    assert_eq!(ba.read_u32_le(p, 0), 4);

    let _p2 = ba.alloc_with_size(4).unwrap();
    assert!(!ba.blocks_tree[4].is_free);
}

#[test]
fn test_allocation_causes_parents_marked() {
    let mut ba = BuddyAllocator::new(16);

    let _p = ba.alloc_with_size(4).unwrap();
    assert!(!ba.blocks_tree[3].is_free);
    assert!(!ba.blocks_tree[1].is_free);
    assert!(!ba.blocks_tree[0].is_free);
}

#[test]
fn test_free() {
    let mut ba = BuddyAllocator::new(16);
    let p = ba.alloc_with_size(4).unwrap();
    assert!(!ba.blocks_tree[3].is_free);
    ba.free(p).unwrap();
    assert!(ba.blocks_tree[3].is_free);
    let p2 = ba.alloc_with_size(4).unwrap();
    assert!(!ba.blocks_tree[3].is_free);
    ba.free(p2).unwrap();
    assert!(ba.blocks_tree[3].is_free);
}

#[test]
fn test_little_endianness() {
    let mut ba = BuddyAllocator::new(16);
    let p = ba.alloc_with_size(4).unwrap();
    ba.write_u32_le(p, 0, 4);
    assert_eq!(ba.read_byte(p, 0), 4);
    assert_eq!(ba.read_byte(p, 1), 0);
    assert_eq!(ba.read_byte(p, 2), 0);
    assert_eq!(ba.read_byte(p, 3), 0);
}

#[test]
fn test_free_traverse_till_root_clubbing_buddies() {
    let mut ba = BuddyAllocator::new(16);
    let p = ba.alloc_with_size(4).unwrap();
    assert!(!ba.blocks_tree[3].is_free);
    assert!(!ba.blocks_tree[1].is_free);
    assert!(!ba.blocks_tree[0].is_free);

    ba.free(p).unwrap();

    assert!(ba.blocks_tree[3].is_free);
    assert!(ba.blocks_tree[1].is_free);
    assert!(ba.blocks_tree[0].is_free);
}
