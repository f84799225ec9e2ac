use hetero_infer::kv_cache::BlockPool;
use hetero_infer::{KVCacheManager, KVCacheManagerTrait, MemoryError};

#[test]
fn test_block_pool_allocation() {
    let mut pool = BlockPool::new(10, 16);
    assert_eq!(pool.num_free_blocks(), 10);
    assert_eq!(pool.num_used_blocks(), 0);

    let block = pool.allocate().unwrap();
    assert_eq!(pool.num_free_blocks(), 9);
    assert_eq!(pool.num_used_blocks(), 1);

    pool.free(block).unwrap();
    assert_eq!(pool.num_free_blocks(), 10);
    assert_eq!(pool.num_used_blocks(), 0);
}

#[test]
fn test_block_pool_exhaustion() {
    let mut pool = BlockPool::new(2, 16);

    let _b1 = pool.allocate().unwrap();
    let _b2 = pool.allocate().unwrap();

    assert!(pool.allocate().is_err());
}

#[test]
fn test_kv_cache_manager_allocate_sequence() {
    let mut manager = KVCacheManager::new(100, 16);

    manager.allocate_sequence(1, 32).unwrap();

    let stats = manager.get_memory_stats();
    assert_eq!(stats.used_blocks, 2);
    assert_eq!(stats.num_sequences, 1);

    let block_table = manager.get_block_table(1).unwrap();
    assert_eq!(block_table.len(), 2);
}

#[test]
fn test_kv_cache_manager_free_sequence() {
    let mut manager = KVCacheManager::new(100, 16);

    manager.allocate_sequence(1, 32).unwrap();
    manager.allocate_sequence(2, 48).unwrap();

    let stats = manager.get_memory_stats();
    assert_eq!(stats.used_blocks, 5);
    assert_eq!(stats.num_sequences, 2);

    manager.free_sequence(1);

    let stats = manager.get_memory_stats();
    assert_eq!(stats.used_blocks, 3);
    assert_eq!(stats.num_sequences, 1);
}

#[test]
fn test_kv_cache_manager_allocate_block() {
    let mut manager = KVCacheManager::new(100, 16);

    manager.allocate_sequence(1, 16).unwrap();
    assert_eq!(manager.get_sequence_blocks(1), 1);

    manager.allocate_block(1).unwrap();
    assert_eq!(manager.get_sequence_blocks(1), 2);
}

#[test]
fn kv_cache_test_blocks_for_tokens() {
    let manager = KVCacheManager::new(100, 16);

    assert_eq!(manager.blocks_for_tokens(0), 0);
    assert_eq!(manager.blocks_for_tokens(1), 1);
    assert_eq!(manager.blocks_for_tokens(16), 1);
    assert_eq!(manager.blocks_for_tokens(17), 2);
    assert_eq!(manager.blocks_for_tokens(32), 2);
    assert_eq!(manager.blocks_for_tokens(33), 3);
}

#[test]
fn kv_blocks_come_from_the_front_of_the_free_list() {
    let mut manager = KVCacheManager::new(10, 4);
    manager.allocate_sequence(1, 9).unwrap();
    assert_eq!(manager.get_block_table(1).unwrap(), vec![0, 1, 2]);
    manager.allocate_sequence(2, 4).unwrap();
    assert_eq!(manager.get_block_table(2).unwrap(), vec![3]);
    manager.free_sequence(1);
    // Freed blocks go to the back of the free list.
    manager.allocate_block(2).unwrap();
    assert_eq!(manager.get_block_table(2).unwrap(), vec![3, 4]);
}

#[test]
fn kv_free_returns_every_block() {
    let mut manager = KVCacheManager::new(8, 4);
    manager.allocate_sequence(1, 17).unwrap();
    manager.allocate_block(1).unwrap();
    assert_eq!(manager.get_memory_stats().used_blocks, 6);
    manager.free_sequence(1);
    let stats = manager.get_memory_stats();
    assert_eq!(stats.used_blocks, 0);
    assert_eq!(stats.free_blocks, 8);
    assert_eq!(stats.used_blocks + stats.free_blocks, stats.total_blocks);
    assert!(!manager.has_sequence(1));
}

#[test]
fn kv_errors() {
    let mut manager = KVCacheManager::new(2, 4);
    assert_eq!(manager.allocate_sequence(1, 9), Err(MemoryError::OutOfBlocks));
    assert_eq!(manager.allocate_block(5), Err(MemoryError::SequenceNotFound(5)));
    manager.allocate_sequence(1, 8).unwrap();
    assert_eq!(manager.allocate_block(1), Err(MemoryError::OutOfBlocks));
    // Allocating an active sequence again changes nothing.
    assert_eq!(manager.allocate_sequence(1, 100), Ok(()));
    assert_eq!(manager.get_sequence_blocks(1), 2);
    assert!(manager.get_block_table(9).is_none());
}

#[test]
fn kv_pool_free_errors() {
    let mut pool = BlockPool::new(2, 4);
    let b = pool.allocate().unwrap();
    assert_eq!(b.block_idx, 0);
    assert!(pool.free(b).is_ok());
    // Freeing a free block changes nothing; one outside the pool is refused.
    assert!(pool.free(b).is_ok());
    assert_eq!(pool.num_free_blocks(), 2);
    assert!(pool
        .free(hetero_infer::PhysicalBlockRef { block_idx: 7 })
        .is_err());
    assert!(pool.can_allocate(2));
    assert!(!pool.can_allocate(3));
    assert_eq!(pool.total_blocks(), 2);
    assert_eq!(pool.block_size(), 4);
}

#[test]
fn kv_manager_with_zero_block_size_still_reports() {
    let manager = KVCacheManager::new(4, 0);
    let stats = manager.get_memory_stats();
    assert_eq!(stats.total_blocks, 4);
    assert_eq!(stats.free_blocks, 4);
    assert_eq!(stats.used_blocks, 0);
    assert_eq!(manager.block_size(), 0);
    assert!(manager.can_allocate(4));
    assert!(manager.get_block_table(1).is_none());
}

#[test]
fn kv_used_blocks_equal_the_held_table_entries() {
    let mut manager = KVCacheManager::new(20, 4);
    manager.allocate_sequence(1, 9).unwrap();
    manager.allocate_sequence(2, 4).unwrap();
    manager.allocate_block(2).unwrap();
    let held: usize = [1u64, 2]
        .iter()
        .map(|s| manager.get_block_table(*s).unwrap().len())
        .sum();
    assert_eq!(held, 5);
    assert_eq!(manager.get_memory_stats().used_blocks as usize, held);
    manager.free_sequence(1);
    assert_eq!(manager.get_memory_stats().used_blocks, 2);
}
