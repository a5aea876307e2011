use systems::buddy_allocator::{Allocator, BuddyAllocator};

#[test]
fn test_initialization() {
    let allocator = BuddyAllocator::new(1024, 16);
    assert_eq!(allocator.total_size, 1024);
    assert_eq!(allocator.min_block_size, 16);
    assert_eq!(allocator.max_order, 6); // 1024 / 16 = 64 = 2^6

    // Only the max order should have a free block
    for i in 0..6 {
        assert!(allocator.free_lists[i].is_empty());
    }
    assert_eq!(allocator.free_lists[6].len(), 1);
    assert!(allocator.free_lists[6].contains(&0));
}

#[test]
fn buddy_allocator_test_basic_allocation() {
    let mut allocator = BuddyAllocator::new(1024, 16);

    // Allocate 16 bytes. It should split the 1024 block all the way down to order 0.
    let offset = allocator.allocate(16).unwrap();
    assert_eq!(offset, 0);

    // Check the state of the free lists.
    // Order 0 (16b): block at 16
    // Order 1 (32b): block at 32
    // Order 2 (64b): block at 64
    // Order 3 (128b): block at 128
    // Order 4 (256b): block at 256
    // Order 5 (512b): block at 512
    // Order 6 (1024b): empty
    assert_eq!(allocator.free_lists[0].len(), 1);
    assert!(allocator.free_lists[0].contains(&16));

    assert_eq!(allocator.free_lists[1].len(), 1);
    assert!(allocator.free_lists[1].contains(&32));

    assert_eq!(allocator.free_lists[5].len(), 1);
    assert!(allocator.free_lists[5].contains(&512));

    assert!(allocator.free_lists[6].is_empty());
}

#[test]
fn test_allocation_rounding() {
    let mut allocator = BuddyAllocator::new(1024, 16);

    // Requesting 20 bytes should round up to the next power of 2 (32 bytes).
    let offset = allocator.allocate(20).unwrap();
    assert_eq!(offset, 0);

    // Check that order 0 (16 bytes) is empty because we consumed a 32-byte block directly.
    assert!(allocator.free_lists[0].is_empty());

    // The remaining 32-byte buddy should be in order 1.
    assert_eq!(allocator.free_lists[1].len(), 1);
    assert!(allocator.free_lists[1].contains(&32));
}

#[test]
fn test_multiple_allocations() {
    let mut allocator = BuddyAllocator::new(128, 16);

    let mut offsets = vec![];
    for _ in 0..8 {
        offsets.push(allocator.allocate(16).unwrap());
    }

    // Must sort because HashSet iteration order is non-deterministic,
    // so the actual offsets returned might come in a random order from the tree.
    offsets.sort_unstable();

    assert_eq!(offsets, vec![0, 16, 32, 48, 64, 80, 96, 112]);

    // The allocator should now be full
    assert!(allocator.allocate(16).is_none());

    for i in 0..=allocator.max_order {
        assert!(allocator.free_lists[i].is_empty());
    }
}

#[test]
fn test_deallocation_and_coalescing() {
    let mut allocator = BuddyAllocator::new(64, 16);

    let o1 = allocator.allocate(16).unwrap();
    let o2 = allocator.allocate(16).unwrap();
    let o3 = allocator.allocate(16).unwrap();
    let o4 = allocator.allocate(16).unwrap();

    assert!(allocator.allocate(16).is_none());

    // Deallocate o1 (0) and o2 (16). They are buddies, so they should coalesce into a 32-byte block.
    allocator.deallocate(o1, 16);
    allocator.deallocate(o2, 16);

    // We should now have a 32-byte block free.
    assert_eq!(allocator.free_lists[1].len(), 1);

    // Deallocate o3 and o4. They should coalesce to 32, and then the two 32s should coalesce to 64.
    allocator.deallocate(o3, 16);
    allocator.deallocate(o4, 16);

    assert!(allocator.free_lists[0].is_empty());
    assert!(allocator.free_lists[1].is_empty());
    assert_eq!(allocator.free_lists[2].len(), 1);
    assert!(allocator.free_lists[2].contains(&0));
}

#[test]
fn test_request_larger_than_arena_fails() {
    let mut allocator = BuddyAllocator::new(64, 16);
    assert_eq!(allocator.allocate(65), None);
    assert_eq!(allocator.free_lists[2].len(), 1);
}

#[test]
fn test_zero_size_takes_smallest_block() {
    let mut allocator = BuddyAllocator::new(64, 16);
    assert_eq!(allocator.allocate(0), Some(0));
    assert!(allocator.free_lists[0].contains(&16));
    assert!(allocator.free_lists[1].contains(&32));
}

#[test]
fn test_free_after_alloc_restores_whole_arena() {
    let mut allocator = BuddyAllocator::new(256, 16);
    let off = allocator.allocate(40).unwrap();
    assert_eq!(off, 0);
    assert!(allocator.free_lists[1].is_empty());
    assert!(allocator.free_lists[2].contains(&64));
    assert!(allocator.free_lists[3].contains(&128));
    allocator.deallocate(off, 40);
    for i in 0..4 {
        assert!(allocator.free_lists[i].is_empty());
    }
    assert_eq!(allocator.free_lists[4], vec![0]);
}
