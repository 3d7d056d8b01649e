use inference_core::block_manager::{AllocationError, BlockManager};

#[test]
fn new_manager_has_every_block_free_and_no_tables() {
    let bm = BlockManager::new(3, 2);
    assert_eq!(bm.num_free_blocks(), 3);
    assert!(bm.get(7).is_none());
    assert_eq!(bm.block_size, 2);
}

#[test]
fn can_allocate_counts_partial_blocks() {
    let bm = BlockManager::new(2, 4);
    assert!(bm.can_allocate(0));
    assert!(bm.can_allocate(8));
    assert!(!bm.can_allocate(9));
}

#[test]
fn can_allocate_then_allocate_succeeds() {
    let mut bm = BlockManager::new(3, 4);
    let prompt = vec![9u32; 12];
    assert!(bm.can_allocate(prompt.len()));
    assert!(bm.allocate(5, &prompt).is_ok());
    assert_eq!(bm.num_free_blocks(), 0);
}

#[test]
fn table_takes_blocks_from_front_of_free_list() {
    let mut bm = BlockManager::new(4, 2);
    bm.allocate(1, &[1, 2, 3]).unwrap();
    assert_eq!(bm.get(1).unwrap(), &vec![0usize, 1]);
    bm.allocate(2, &[4, 5]).unwrap();
    assert_eq!(bm.get(2).unwrap(), &vec![2usize]);
}

#[test]
fn empty_prompt_gets_empty_table() {
    let mut bm = BlockManager::new(2, 4);
    bm.allocate(1, &[]).unwrap();
    assert_eq!(bm.get(1).unwrap().len(), 0);
    assert_eq!(bm.num_free_blocks(), 2);
}

#[test]
fn table_length_is_ceiling_of_tokens_over_block_size() {
    let mut bm = BlockManager::new(10, 3);
    bm.allocate(1, &[1, 2, 3, 4, 5, 6, 7]).unwrap();
    assert_eq!(bm.get(1).unwrap().len(), 3);
}

#[test]
fn failed_allocation_gives_no_table_and_keeps_what_it_took() {
    let mut bm = BlockManager::new(1, 2);
    let result = bm.allocate(1, &[1, 2, 3]);
    assert!(matches!(result, Err(AllocationError::OutOfMemory)));
    assert!(bm.get(1).is_none());
    assert_eq!(bm.num_free_blocks(), 0);
}

#[test]
fn cached_full_blocks_are_shared_partial_block_is_not() {
    let mut bm = BlockManager::new(10, 2);
    bm.allocate(1, &[1, 2, 3, 4]).unwrap();
    bm.mark_computed(1, &[1, 2, 3, 4]).unwrap();
    bm.allocate(2, &[1, 2, 3, 4, 5]).unwrap();
    let t1 = bm.get(1).unwrap().clone();
    let t2 = bm.get(2).unwrap().clone();
    assert_eq!(t2.len(), 3);
    assert_eq!(&t2[0..2], &t1[..]);
    assert_eq!(t2[2], 2);
    assert_eq!(bm.num_free_blocks(), 7);
}

#[test]
fn different_content_misses_the_cache() {
    let mut bm = BlockManager::new(10, 2);
    bm.allocate(1, &[1, 2]).unwrap();
    bm.mark_computed(1, &[1, 2]).unwrap();
    bm.allocate(2, &[2, 1]).unwrap();
    assert_eq!(bm.num_free_blocks(), 8);
    assert_ne!(bm.get(1).unwrap(), bm.get(2).unwrap());
}

#[test]
fn uncomputed_blocks_are_not_shared() {
    let mut bm = BlockManager::new(10, 2);
    bm.allocate(1, &[1, 2]).unwrap();
    bm.allocate(2, &[1, 2]).unwrap();
    assert_eq!(bm.num_free_blocks(), 8);
}

#[test]
fn mark_computed_unknown_request_is_not_found() {
    let mut bm = BlockManager::new(2, 2);
    let result = bm.mark_computed(3, &[1, 2]);
    assert!(matches!(result, Err(AllocationError::RequestNotFound)));
}

#[test]
fn mark_computed_only_covers_full_blocks() {
    let mut bm = BlockManager::new(10, 2);
    bm.allocate(1, &[1, 2, 3]).unwrap();
    bm.mark_computed(1, &[1, 2, 3]).unwrap();
    // the partial block [3] is not in the cache: a request for [3, 4] misses
    bm.allocate(2, &[3, 4]).unwrap();
    assert_eq!(bm.num_free_blocks(), 7);
    // the full block [1, 2] is
    bm.allocate(3, &[1, 2]).unwrap();
    assert_eq!(bm.num_free_blocks(), 7);
}

#[test]
fn append_token_unknown_request_is_not_found() {
    let mut bm = BlockManager::new(2, 2);
    assert!(matches!(bm.append_token(4), Err(AllocationError::RequestNotFound)));
}

#[test]
fn append_token_on_empty_table_is_not_found() {
    let mut bm = BlockManager::new(2, 2);
    bm.allocate(1, &[]).unwrap();
    assert!(matches!(bm.append_token(1), Err(AllocationError::RequestNotFound)));
}

#[test]
fn append_token_keeps_private_uncomputed_last_block() {
    let mut bm = BlockManager::new(4, 4);
    bm.allocate(1, &[1, 2]).unwrap();
    bm.append_token(1).unwrap();
    assert_eq!(bm.num_free_blocks(), 3);
    assert_eq!(bm.get(1).unwrap().len(), 1);
}

#[test]
fn append_token_allocates_when_last_block_shared() {
    let mut bm = BlockManager::new(4, 2);
    bm.allocate(1, &[1, 2]).unwrap();
    bm.mark_computed(1, &[1, 2]).unwrap();
    bm.allocate(2, &[1, 2]).unwrap();
    bm.append_token(2).unwrap();
    assert_eq!(bm.get(2).unwrap(), &vec![0usize, 1]);
    assert_eq!(bm.num_free_blocks(), 2);
}

#[test]
fn append_token_out_of_memory_changes_nothing() {
    let mut bm = BlockManager::new(1, 2);
    bm.allocate(1, &[1, 2]).unwrap();
    bm.mark_computed(1, &[1, 2]).unwrap();
    assert!(matches!(bm.append_token(1), Err(AllocationError::OutOfMemory)));
    assert_eq!(bm.get(1).unwrap(), &vec![0usize]);
}

#[test]
fn free_unknown_request_changes_nothing() {
    let mut bm = BlockManager::new(3, 2);
    bm.allocate(1, &[1, 2]).unwrap();
    bm.free(9);
    assert_eq!(bm.num_free_blocks(), 2);
    assert!(bm.get(1).is_some());
}

#[test]
fn freed_blocks_go_to_back_of_free_list() {
    let mut bm = BlockManager::new(3, 2);
    bm.allocate(1, &[1, 2]).unwrap();
    bm.free(1);
    bm.allocate(2, &[3, 4, 5, 6, 7, 8]).unwrap();
    assert_eq!(bm.get(2).unwrap(), &vec![1usize, 2, 0]);
}

#[test]
fn free_removes_table_and_cache_entry() {
    let mut bm = BlockManager::new(3, 2);
    bm.allocate(1, &[1, 2]).unwrap();
    bm.mark_computed(1, &[1, 2]).unwrap();
    bm.free(1);
    assert!(bm.get(1).is_none());
    assert_eq!(bm.num_free_blocks(), 3);
    // the block left the cache: the same content now takes a fresh block
    bm.allocate(2, &[1, 2]).unwrap();
    assert_eq!(bm.num_free_blocks(), 2);
}

#[test]
fn repeated_chunk_in_one_prompt_shares_after_compute() {
    let mut bm = BlockManager::new(10, 2);
    let prompt = vec![7u32, 7, 7, 7];
    bm.allocate(1, &prompt).unwrap();
    assert_eq!(bm.num_free_blocks(), 8);
    bm.mark_computed(1, &prompt).unwrap();
    bm.allocate(2, &prompt).unwrap();
    let t2 = bm.get(2).unwrap().clone();
    assert_eq!(t2[0], t2[1]);
    assert_eq!(bm.num_free_blocks(), 8);
    // the block is held twice by request 2: freeing 1 keeps both alive
    bm.free(1);
    assert_eq!(bm.num_free_blocks(), 9);
    bm.free(2);
    assert_eq!(bm.num_free_blocks(), 10);
}

#[test]
fn reallocating_a_request_replaces_its_table() {
    let mut bm = BlockManager::new(5, 2);
    bm.allocate(1, &[1, 2]).unwrap();
    bm.allocate(1, &[3, 4, 5]).unwrap();
    assert_eq!(bm.get(1).unwrap(), &vec![1usize, 2]);
    assert_eq!(bm.num_free_blocks(), 2);
}

#[test]
fn block_size_accessor_reports_block_size() {
    let bm = BlockManager::new(3, 5);
    assert_eq!(bm.block_size(), 5);
}

#[test]
fn ref_counts_fit_for_ordinary_prompts() {
    let mut bm = BlockManager::new(4, 2);
    assert!(bm.ref_counts_fit(&[1, 2, 3]));
    bm.allocate(1, &[1, 2]).unwrap();
    bm.mark_computed(1, &[1, 2]).unwrap();
    assert!(bm.ref_counts_fit(&[1, 2, 1, 2, 1, 2]));
}

#[test]
fn free_undoes_allocate_with_cache_hits() {
    let mut bm = BlockManager::new(6, 2);
    bm.allocate(1, &[1, 2, 3, 4]).unwrap();
    bm.mark_computed(1, &[1, 2, 3, 4]).unwrap();
    let before = bm.num_free_blocks();
    bm.allocate(2, &[1, 2, 3, 4, 5]).unwrap();
    assert_eq!(bm.num_free_blocks(), before - 1);
    bm.free(2);
    assert_eq!(bm.num_free_blocks(), before);
    assert!(bm.get(2).is_none());
    assert_eq!(bm.get(1).unwrap(), &vec![0usize, 1]);
}

#[test]
fn free_and_held_blocks_cover_all_blocks() {
    let mut bm = BlockManager::new(8, 2);
    bm.allocate(1, &[1, 2, 3]).unwrap();
    bm.mark_computed(1, &[1, 2, 3]).unwrap();
    bm.allocate(2, &[1, 2, 9]).unwrap();
    bm.append_token(2).unwrap();
    let mut held: Vec<usize> = Vec::new();
    for r in [1u64, 2] {
        for &b in bm.get(r).unwrap() {
            if !held.contains(&b) {
                held.push(b);
            }
        }
    }
    assert_eq!(held.len(), 3);
    assert_eq!(bm.num_free_blocks() + held.len(), 8);
}

#[test]
fn prefix_reuse_takes_the_computed_blocks() {
    let mut bm = BlockManager::new(8, 2);
    bm.allocate(1, &[5, 6, 7, 8, 9]).unwrap();
    bm.mark_computed(1, &[5, 6, 7, 8, 9]).unwrap();
    let free_before = bm.num_free_blocks();
    bm.allocate(2, &[5, 6, 7, 8, 9]).unwrap();
    assert_eq!(bm.num_free_blocks(), free_before - 1);
    let t1 = bm.get(1).unwrap().clone();
    let t2 = bm.get(2).unwrap().clone();
    assert_eq!(&t2[..2], &t1[..2]);
    assert_ne!(t2[2], t1[2]);
}

#[test]
fn get_follows_allocate_append_and_free() {
    let mut bm = BlockManager::new(6, 2);
    bm.allocate(3, &[1, 2]).unwrap();
    bm.mark_computed(3, &[1, 2]).unwrap();
    bm.append_token(3).unwrap();
    assert_eq!(bm.get(3).unwrap(), &vec![0usize, 1]);
    bm.free(3);
    assert!(bm.get(3).is_none());
    bm.allocate(3, &[7]).unwrap();
    assert_eq!(bm.get(3).unwrap().len(), 1);
}

#[test]
fn cache_keeps_entries_of_blocks_still_held() {
    let mut bm = BlockManager::new(6, 2);
    bm.allocate(1, &[1, 2]).unwrap();
    bm.mark_computed(1, &[1, 2]).unwrap();
    bm.allocate(2, &[1, 2]).unwrap();
    bm.free(1);
    // block 0 is still held by request 2, so it stays in the prefix cache
    let before = bm.num_free_blocks();
    bm.allocate(3, &[1, 2]).unwrap();
    assert_eq!(bm.num_free_blocks(), before);
    assert_eq!(bm.get(3).unwrap(), &vec![0usize]);
}
