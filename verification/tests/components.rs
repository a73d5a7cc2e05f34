use virtual_list_index::cache::CacheEvictionManager;
use virtual_list_index::chunk::Chunk;
use virtual_list_index::{CachePolicy, VirtualListError};

#[test]
fn chunk_prefix_sums_track_updates() {
    let mut chunk = Chunk::new(4, 10);
    assert_eq!(chunk.len(), 4);
    assert_eq!(chunk.total_size(), 40);
    assert_eq!(chunk.prefix_at(0), 0);
    assert_eq!(chunk.prefix_at(4), 40);
    let diff = chunk.update_size(1, 25).unwrap();
    assert_eq!(diff, 15);
    assert_eq!(chunk.total_size(), 55);
    assert_eq!(chunk.prefix_at(1), 10);
    assert_eq!(chunk.prefix_at(2), 35);
    assert_eq!(chunk.size_at(1), 25);
    let diff = chunk.update_size(1, 5).unwrap();
    assert_eq!(diff, -20);
    assert_eq!(chunk.total_size(), 35);
}

#[test]
fn chunk_update_rejects_bad_arguments() {
    let mut chunk = Chunk::new(3, 10);
    assert_eq!(
        chunk.update_size(3, 5).unwrap_err(),
        VirtualListError::IndexOutOfBounds
    );
    assert_eq!(
        chunk.update_size(0, u64::MAX).unwrap_err(),
        VirtualListError::InvalidSize
    );
    assert_eq!(chunk.total_size(), 30);
}

#[test]
fn chunk_locate_prefers_the_higher_cut_at_boundaries() {
    let mut chunk = Chunk::new(5, 10);
    chunk.update_size(1, 0).unwrap();
    chunk.update_size(2, 0).unwrap();
    // Sizes are [10, 0, 0, 10, 10]: prefix sums [0, 10, 10, 10, 20, 30].
    // At the shared boundary 10 the search answers the highest cut, the
    // first item with any width at or past it.
    let (j, off) = chunk.find_item_at_position(10).unwrap();
    assert_eq!(j, 3);
    assert_eq!(off, 0);
    let (j, off) = chunk.find_item_at_position(15).unwrap();
    assert_eq!(j, 3);
    assert_eq!(off, 5);
    assert_eq!(
        chunk.find_item_at_position(31).unwrap_err(),
        VirtualListError::InvalidSize
    );
}

#[test]
fn lru_manager_evicts_the_least_recently_accessed() {
    let mut manager = CacheEvictionManager::new(CachePolicy::Lru);
    manager.on_access(7);
    manager.on_access(3);
    manager.on_access(9);
    // A repeat access moves 7 to the most recent end.
    manager.on_access(7);
    assert_eq!(manager.len(), 3);
    assert_eq!(manager.evict(), Some(3));
    assert_eq!(manager.evict(), Some(9));
    assert_eq!(manager.evict(), Some(7));
    assert_eq!(manager.evict(), None);
}

#[test]
fn lfu_manager_evicts_the_least_counted_oldest_first() {
    let mut manager = CacheEvictionManager::new(CachePolicy::Lfu);
    manager.on_access(1);
    manager.on_access(1);
    manager.on_access(2);
    manager.on_access(3);
    // Counts: 1 has two, 2 and 3 have one each; 2 grew least recently.
    assert_eq!(manager.evict(), Some(2));
    assert_eq!(manager.evict(), Some(3));
    assert_eq!(manager.evict(), Some(1));
}

#[test]
fn forget_drops_only_the_named_chunk() {
    let mut manager = CacheEvictionManager::new(CachePolicy::Lru);
    manager.on_access(4);
    manager.on_access(5);
    manager.forget(4);
    assert_eq!(manager.len(), 1);
    manager.forget(0);
    assert_eq!(manager.len(), 1);
    assert_eq!(manager.evict(), Some(5));
}
