use rcore_lab::allocator::buddy_system_vector_allocator2::{log_two, BuddySystemVectorAllocator};
use rcore_lab::allocator::buddy_system_vector_allocator3::BuddySystemVectorAllocator as ArrayBuddyAllocator;
use rcore_lab::allocator::free_list_allocator::FreeListAllocator;
use rcore_lab::allocator::segment_tree_allocator::SegmentTreeAllocator;
use rcore_lab::allocator::{Allocator, VectorAllocator};

#[test]
fn log_two_of_powers() {
    assert_eq!(log_two(2), 1);
    assert_eq!(log_two(4), 2);
    assert_eq!(log_two(4096), 12);
}

#[test]
fn segment_tree_hands_out_lowest_free_item() {
    let mut a = SegmentTreeAllocator::new(5);
    assert_eq!(a.allocate(), Some(0));
    assert_eq!(a.allocate(), Some(1));
    assert_eq!(a.allocate(), Some(2));
    assert_eq!(a.allocate(), Some(3));
    assert_eq!(a.allocate(), Some(4));
    assert_eq!(a.allocate(), None);
    a.dealloc(2);
    assert_eq!(a.allocate(), Some(2));
    assert_eq!(a.allocate(), None);
}

#[test]
fn segment_tree_dealloc_then_alloc_round_trip() {
    let mut a = SegmentTreeAllocator::new(16);
    for i in 0..16 {
        assert_eq!(a.allocate(), Some(i));
    }
    a.dealloc(9);
    a.dealloc(3);
    assert_eq!(a.allocate(), Some(3));
    assert_eq!(a.allocate(), Some(9));
    assert_eq!(a.allocate(), None);
}

#[test]
fn segment_tree_zero_capacity_is_full() {
    let mut a = SegmentTreeAllocator::new(0);
    assert_eq!(a.allocate(), None);
}

#[test]
fn segment_tree_large_capacity() {
    let mut a = SegmentTreeAllocator::new(1000);
    for i in 0..1000 {
        assert_eq!(a.allocate(), Some(i));
    }
    assert_eq!(a.allocate(), None);
    a.dealloc(517);
    assert_eq!(a.allocate(), Some(517));
}

#[test]
fn free_list_allocates_in_order() {
    let mut a = FreeListAllocator::new(3);
    assert_eq!(a.allocate(), Some(0));
    assert_eq!(a.allocate(), Some(1));
    assert_eq!(a.allocate(), Some(2));
    assert_eq!(a.allocate(), None);
    a.dealloc(2);
    assert_eq!(a.allocate(), Some(2));
}

#[test]
fn free_list_dealloc_of_unknown_index_changes_nothing() {
    let mut a = FreeListAllocator::new(2);
    assert_eq!(a.allocate(), Some(0));
    a.dealloc(7);
    assert_eq!(a.allocate(), Some(1));
    assert_eq!(a.allocate(), None);
}

#[test]
fn free_list_zero_capacity_gives_none() {
    let mut a = FreeListAllocator::new(0);
    assert_eq!(a.allocate(), None);
}

#[test]
fn free_list_dealloc_of_any_item() {
    let mut a = FreeListAllocator::new(3);
    assert_eq!(a.allocate(), Some(0));
    assert_eq!(a.allocate(), Some(1));
    assert_eq!(a.allocate(), Some(2));
    a.dealloc(0);
    assert_eq!(a.allocate(), Some(0));
    a.dealloc(1);
    assert_eq!(a.allocate(), Some(1));
    assert_eq!(a.allocate(), None);
}

#[test]
fn buddy_splits_and_hands_out_top_piece() {
    // capacity 16 rounds to 16, halved: one free block of 8 at level 3
    let mut a = BuddySystemVectorAllocator::new(16);
    assert_eq!(a.allocate(2, 1), Some(6));
    assert_eq!(a.allocate(2, 1), Some(4));
    assert_eq!(a.allocate(4, 1), Some(0));
}

#[test]
fn buddy_refuses_requests_above_capacity() {
    let mut a = BuddySystemVectorAllocator::new(16);
    assert_eq!(a.allocate(9, 1), None);
    assert_eq!(a.allocate(8, 1), Some(0));
}

#[test]
fn buddy_rounds_request_up() {
    let mut a = BuddySystemVectorAllocator::new(32);
    // 16 items; a request of 3 takes a block of 4 from the top
    assert_eq!(a.allocate(3, 1), Some(12));
}

#[test]
fn buddy_dealloc_makes_block_available_again() {
    let mut a = BuddySystemVectorAllocator::new(16);
    assert_eq!(a.allocate(8, 1), Some(0));
    a.dealloc(0, 8, 1);
    assert_eq!(a.allocate(8, 1), Some(0));
}

#[test]
fn buddy_dealloc_merges_back_to_whole_block() {
    let mut a = BuddySystemVectorAllocator::new(16);
    assert_eq!(a.allocate(2, 1), Some(6));
    // 6 merges with its free buddy 4 into 4..8, which merges with 0..4 into
    // the whole block 0..8; no half stays behind
    a.dealloc(6, 2, 1);
    assert_eq!(a.allocate(4, 1), Some(4));
    assert_eq!(a.allocate(2, 1), Some(2));
    assert_eq!(a.allocate(2, 1), Some(0));
    assert_eq!(a.allocate(2, 1), None);
}

#[test]
fn buddy_no_double_handout_after_merge() {
    // 32 rounds to 32, halved: one free block of 16 items
    let mut a = BuddySystemVectorAllocator::new(32);
    assert_eq!(a.allocate(2, 1), Some(14));
    a.dealloc(14, 2, 1);
    assert_eq!(a.allocate(16, 1), Some(0));
    // the live run 0..16 covers everything: nothing else may be handed out
    assert_eq!(a.allocate(8, 1), None);
    assert_eq!(a.allocate(1, 1), None);
}

#[test]
fn buddy_full_allocator_gives_none() {
    let mut a = BuddySystemVectorAllocator::new(16);
    assert_eq!(a.allocate(8, 1), Some(0));
    assert_eq!(a.allocate(8, 1), None);
    assert_eq!(a.allocate(1, 1), None);
}

#[test]
fn buddy_serves_single_items() {
    let mut a = BuddySystemVectorAllocator::new(8);
    assert_eq!(a.allocate(1, 1), Some(3));
    assert_eq!(a.allocate(1, 1), Some(2));
    a.dealloc(3, 1, 1);
    a.dealloc(2, 1, 1);
    assert_eq!(a.allocate(4, 1), Some(0));
}

#[test]
fn array_buddy_log_two() {
    assert_eq!(ArrayBuddyAllocator::log_two(2), 1);
    assert_eq!(ArrayBuddyAllocator::log_two(512), 9);
}

#[test]
fn array_buddy_splits_and_hands_out_first_piece() {
    // capacity 16: one free block of 16 at level 4
    let mut a = ArrayBuddyAllocator::new(16);
    assert_eq!(a.allocate(2, 1), Some(0));
    assert_eq!(a.allocate(2, 1), Some(2));
    assert_eq!(a.allocate(4, 1), Some(4));
    assert_eq!(a.allocate(8, 1), Some(8));
}

#[test]
fn array_buddy_refuses_requests_above_capacity() {
    let mut a = ArrayBuddyAllocator::new(16);
    assert_eq!(a.allocate(17, 1), None);
    assert_eq!(a.allocate(16, 1), Some(0));
}

#[test]
fn array_buddy_rounds_request_up() {
    let mut a = ArrayBuddyAllocator::new(16);
    assert_eq!(a.allocate(3, 1), Some(0));
    assert_eq!(a.allocate(3, 1), Some(4));
}

#[test]
fn array_buddy_merges_freed_buddies() {
    let mut a = ArrayBuddyAllocator::new(16);
    assert_eq!(a.allocate(2, 1), Some(0));
    assert_eq!(a.allocate(2, 1), Some(2));
    assert_eq!(a.allocate(4, 1), Some(4));
    assert_eq!(a.allocate(8, 1), Some(8));
    a.dealloc(2, 2, 1);
    // 0 merges with its free buddy 2 into 0..4; both halves leave level 1
    a.dealloc(0, 2, 1);
    assert_eq!(a.allocate(4, 1), Some(0));
    assert_eq!(a.allocate(2, 1), None);
}

#[test]
fn array_buddy_no_double_handout() {
    let mut a = ArrayBuddyAllocator::new(16);
    assert_eq!(a.allocate(2, 1), Some(0));
    a.dealloc(0, 2, 1);
    assert_eq!(a.allocate(16, 1), Some(0));
    assert_eq!(a.allocate(8, 1), None);
}

#[test]
fn array_buddy_drops_a_block_given_back_to_a_full_top_level() {
    let mut a = ArrayBuddyAllocator::new(16);
    // everything is free already: the block given back is dropped
    a.dealloc(0, 16, 1);
    assert_eq!(a.allocate(16, 1), Some(0));
    assert_eq!(a.allocate(16, 1), None);
    assert_eq!(a.allocate(1, 1), None);
}

#[test]
fn array_buddy_coalesces_everything() {
    let mut a = ArrayBuddyAllocator::new(16);
    assert_eq!(a.allocate(2, 1), Some(0));
    assert_eq!(a.allocate(2, 1), Some(2));
    a.dealloc(0, 2, 1);
    a.dealloc(2, 2, 1);
    assert_eq!(a.allocate(16, 1), Some(0));
}

#[test]
fn array_buddy_keeps_inside_its_capacity() {
    // 10 items: the allocator manages the 8 at the bottom
    let mut a = ArrayBuddyAllocator::new(10);
    assert_eq!(a.allocate(16, 1), None);
    assert_eq!(a.allocate(8, 1), Some(0));
    assert_eq!(a.allocate(1, 1), None);
}

#[test]
fn array_buddy_serves_single_items() {
    let mut a = ArrayBuddyAllocator::new(16);
    assert_eq!(a.allocate(1, 1), Some(0));
    assert_eq!(a.allocate(1, 1), Some(1));
    assert_eq!(a.allocate(16, 1), None);
}

#[test]
fn array_buddy_full_allocator_gives_none() {
    let mut a = ArrayBuddyAllocator::new(16);
    assert_eq!(a.allocate(16, 1), Some(0));
    assert_eq!(a.allocate(16, 1), None);
}

#[test]
fn array_buddy_whole_block_round_trip() {
    let mut a = ArrayBuddyAllocator::new(16);
    assert_eq!(a.allocate(16, 1), Some(0));
    a.dealloc(0, 16, 1);
    assert_eq!(a.allocate(16, 1), Some(0));
}

#[test]
fn segment_tree_dealloc_undoes_allocate() {
    let mut a = SegmentTreeAllocator::new(4);
    assert_eq!(a.allocate(), Some(0));
    let second = a.allocate();
    assert_eq!(second, Some(1));
    a.dealloc(1);
    // the state is as before the second allocation
    assert_eq!(a.allocate(), Some(1));
    assert_eq!(a.allocate(), Some(2));
}

#[test]
fn free_list_dealloc_undoes_allocate() {
    let mut a = FreeListAllocator::new(3);
    assert_eq!(a.allocate(), Some(0));
    a.dealloc(0);
    // the free items are 0, 1, 2 again: the last range (0, 1) goes first
    assert_eq!(a.allocate(), Some(0));
    assert_eq!(a.allocate(), Some(1));
    assert_eq!(a.allocate(), Some(2));
    assert_eq!(a.allocate(), None);
}


#[test]
fn segment_tree_refresh_marks_a_leaf_and_its_path() {
    let mut a = SegmentTreeAllocator::new(8);
    a.refresh_tree(8, true);
    assert_eq!(a.allocate(), Some(1));
    a.refresh_tree(8, false);
    assert_eq!(a.allocate(), Some(0));
    assert_eq!(a.allocate(), Some(2));
}

#[test]
fn array_buddy_hands_out_runs_aligned_to_their_size() {
    let mut a = ArrayBuddyAllocator::new(64);
    let one = a.allocate(1, 1).unwrap();
    let four = a.allocate(3, 1).unwrap();
    let eight = a.allocate(8, 1).unwrap();
    assert_eq!(four % 4, 0);
    assert_eq!(eight % 8, 0);
    assert!(one + 1 <= four || four + 4 <= one);
}

#[test]
fn buddy_hands_out_runs_aligned_to_their_size() {
    let mut a = BuddySystemVectorAllocator::new(64);
    let one = a.allocate(1, 1).unwrap();
    let four = a.allocate(3, 1).unwrap();
    let eight = a.allocate(8, 1).unwrap();
    assert_eq!(four % 4, 0);
    assert_eq!(eight % 8, 0);
    assert!(one + 1 <= four || four + 4 <= one);
    assert!(eight + 8 <= four || four + 4 <= eight);
}
