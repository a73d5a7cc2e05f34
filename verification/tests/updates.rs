use virtual_list_index::{
    CachePolicy, Orientation, VirtualList, VirtualListConfig, VirtualListError,
};

/// One display unit is a thousandth of a pixel: tests write pixel
/// values and convert at the boundary, as a host would.
fn units(x: f64) -> u64 {
    (x * 1000.0).round() as u64
}

fn px(u: u64) -> f64 {
    (u as f64) / 1000.0
}

fn make_list(total_items: u64, estimated_px: f64, chunk_size: u64) -> VirtualList {
    VirtualList::new(
        total_items,
        chunk_size,
        units(estimated_px),
        Orientation::Vertical,
        VirtualListConfig::new(),
    )
    .unwrap()
}

#[test]
fn uniform_list_totals_and_positions() {
    let mut list = make_list(100, 50.0, 10);
    assert_eq!(px(list.total_size()), 5000.0);
    assert_eq!(list.total_items(), 100);
    assert_eq!(px(list.get_position(5)), 250.0);
    let range = list.get_visible_range(0, units(200.0)).unwrap();
    assert_eq!(range.start(), 0);
    assert!(range.end() >= 4);
    assert_eq!(range.start_offset(), 0);
}

#[test]
fn single_update_moves_later_positions_only() {
    let mut list = make_list(100, 50.0, 10);
    list.update_item_size(5, units(100.0)).unwrap();
    assert_eq!(px(list.total_size()), 5050.0);
    assert_eq!(px(list.get_position(5)), 250.0);
    assert_eq!(px(list.get_position(6)), 350.0);
    assert_eq!(px(list.get_item_size(5).unwrap()), 100.0);
}

#[test]
fn batched_updates_match_positions() {
    let mut list = make_list(5, 10.0, 2);
    list.batch_update_sizes(&vec![
        (0, units(20.0)),
        (2, units(30.0)),
        (4, units(15.0)),
    ])
    .unwrap();
    assert_eq!(px(list.get_position(0)), 0.0);
    assert_eq!(px(list.get_position(1)), 20.0);
    assert_eq!(px(list.get_position(2)), 30.0);
    assert_eq!(px(list.get_position(3)), 60.0);
    assert_eq!(px(list.get_position(4)), 70.0);
    assert_eq!(px(list.total_size()), 85.0);
}

#[test]
fn batched_updates_match_one_at_a_time() {
    let mut batched = make_list(5, 10.0, 2);
    batched
        .batch_update_sizes(&vec![(0, units(20.0)), (2, units(30.0)), (4, units(15.0))])
        .unwrap();
    let mut one_at_a_time = make_list(5, 10.0, 2);
    one_at_a_time.update_item_size(0, units(20.0)).unwrap();
    one_at_a_time.update_item_size(2, units(30.0)).unwrap();
    one_at_a_time.update_item_size(4, units(15.0)).unwrap();
    assert_eq!(batched.total_size(), one_at_a_time.total_size());
    let mut i: u64 = 0;
    while i < 5 {
        assert_eq!(batched.get_position(i), one_at_a_time.get_position(i));
        assert_eq!(
            batched.get_item_size(i).unwrap(),
            one_at_a_time.get_item_size(i).unwrap()
        );
        i += 1;
    }
}

#[test]
fn visible_range_offsets_at_updated_sizes() {
    let mut list = make_list(5, 10.0, 2);
    list.batch_update_sizes(&vec![
        (0, units(20.0)),
        (2, units(30.0)),
        (4, units(15.0)),
    ])
    .unwrap();
    let range = list.get_visible_range(units(25.0), units(20.0)).unwrap();
    assert!(range.start() <= 2);
    assert!(range.end() >= 4);
    assert_eq!(px(range.start_offset()), 5.0);
    assert_eq!(px(range.end_offset()), 15.0);
}

#[test]
fn chunk_boundary_locates_next_chunks_first_item() {
    let mut config = VirtualListConfig::new();
    config.set_buffer_size(1);
    config.set_overscan_items(1);
    let mut list =
        VirtualList::new(10, 3, units(10.0), Orientation::Vertical, config).unwrap();
    // Position 30.0 is the boundary between chunk 0 and chunk 1: the
    // locate answers item 3 with a zero offset.
    let range = list.get_visible_range(units(30.0), units(1.0)).unwrap();
    assert_eq!(range.start(), 1);
    assert_eq!(range.start_offset(), 0);
    assert_eq!(range.end(), 6);
    assert_eq!(range.end_offset(), units(1.0));
}

#[test]
fn lru_eviction_keeps_the_recently_touched_chunks() {
    let mut config = VirtualListConfig::new();
    config.set_max_loaded_chunks(Some(10));
    let mut list =
        VirtualList::new(10000, 100, units(10.0), Orientation::Vertical, config).unwrap();
    let mut c: u64 = 0;
    while c < 20 {
        list.update_item_size(c * 100, units(11.0)).unwrap();
        c += 1;
    }
    assert_eq!(list.loaded_count(), 10);
    // Under LRU the first ten chunks were evicted: their updates
    // reverted to the estimate; the last ten kept theirs.
    let mut early: u64 = 0;
    while early < 10 {
        assert_eq!(list.get_item_size(early * 100).unwrap(), units(10.0));
        early += 1;
    }
    let mut late: u64 = 10;
    while late < 20 {
        assert_eq!(list.get_item_size(late * 100).unwrap(), units(11.0));
        late += 1;
    }
}

#[test]
fn lfu_eviction_drops_the_least_counted_chunk() {
    let mut config = VirtualListConfig::new();
    config.set_max_loaded_chunks(Some(2));
    config.set_cache_eviction_policy(CachePolicy::Lfu);
    let mut list =
        VirtualList::new(30, 10, units(10.0), Orientation::Vertical, config).unwrap();
    // Chunk 0 twice, chunk 1 once; touching chunk 2 evicts chunk 1.
    list.update_item_size(0, units(20.0)).unwrap();
    list.update_item_size(1, units(20.0)).unwrap();
    list.update_item_size(10, units(30.0)).unwrap();
    list.update_item_size(20, units(40.0)).unwrap();
    assert_eq!(list.loaded_count(), 2);
    assert_eq!(list.get_item_size(0).unwrap(), units(20.0));
    assert_eq!(list.get_item_size(10).unwrap(), units(10.0));
    assert_eq!(list.get_item_size(20).unwrap(), units(40.0));
}

#[test]
fn update_roundtrip_is_a_no_op() {
    let mut list = make_list(20, 10.0, 5);
    list.update_item_size(7, units(25.0)).unwrap();
    let before_total = list.total_size();
    let size = list.get_item_size(7).unwrap();
    list.update_item_size(7, size).unwrap();
    assert_eq!(list.total_size(), before_total);
    assert_eq!(list.get_item_size(7).unwrap(), size);
    assert_eq!(px(list.get_position(8)), 95.0);
}

#[test]
fn queue_update_flushes_at_the_batch_threshold() {
    let mut config = VirtualListConfig::new();
    config.set_update_batch_size(3);
    let mut list =
        VirtualList::new(10, 2, units(10.0), Orientation::Vertical, config).unwrap();
    list.queue_update(0, units(20.0)).unwrap();
    list.queue_update(1, units(20.0)).unwrap();
    // Not yet applied.
    assert_eq!(list.get_item_size(0).unwrap(), units(10.0));
    // The third queued update flushes all three.
    list.queue_update(2, units(20.0)).unwrap();
    assert_eq!(list.get_item_size(0).unwrap(), units(20.0));
    assert_eq!(list.get_item_size(1).unwrap(), units(20.0));
    assert_eq!(list.get_item_size(2).unwrap(), units(20.0));
    assert_eq!(px(list.total_size()), 130.0);
}

#[test]
fn process_pending_updates_drains_the_queue() {
    let mut list = make_list(10, 10.0, 2);
    list.queue_update(4, units(50.0)).unwrap();
    assert_eq!(list.get_item_size(4).unwrap(), units(10.0));
    list.process_pending_updates().unwrap();
    assert_eq!(list.get_item_size(4).unwrap(), units(50.0));
    list.process_pending_updates().unwrap();
    assert_eq!(list.get_item_size(4).unwrap(), units(50.0));
}

#[test]
fn resize_grows_with_estimates_and_shrinks_exactly() {
    let mut list = make_list(5, 10.0, 2);
    list.update_item_size(4, units(30.0)).unwrap();
    assert_eq!(px(list.total_size()), 70.0);
    list.set_total_items(8).unwrap();
    assert_eq!(list.total_items(), 8);
    assert_eq!(px(list.total_size()), 100.0);
    assert_eq!(list.get_item_size(4).unwrap(), units(30.0));
    assert_eq!(list.get_item_size(7).unwrap(), units(10.0));
    list.set_total_items(3).unwrap();
    assert_eq!(list.total_items(), 3);
    assert_eq!(px(list.total_size()), 30.0);
    list.set_total_items(0).unwrap();
    assert_eq!(list.total_size(), 0);
}

#[test]
fn add_and_remove_items_adjust_the_tail() {
    let mut list = make_list(4, 10.0, 3);
    list.add_items(5).unwrap();
    assert_eq!(list.total_items(), 9);
    assert_eq!(px(list.total_size()), 90.0);
    list.remove_items(6).unwrap();
    assert_eq!(list.total_items(), 3);
    assert_eq!(px(list.total_size()), 30.0);
    assert!(list.remove_items(4).is_err());
}

#[test]
fn unload_chunk_reverts_to_estimates() {
    let mut list = make_list(10, 10.0, 2);
    list.update_item_size(4, units(50.0)).unwrap();
    assert_eq!(px(list.total_size()), 140.0);
    list.unload_chunk(2).unwrap();
    assert_eq!(list.get_item_size(4).unwrap(), units(10.0));
    assert_eq!(px(list.total_size()), 100.0);
    assert_eq!(list.loaded_count(), 0);
    assert!(list.unload_chunk(5).is_err());
    // Unloading an absent chunk is a no-op.
    list.unload_chunk(1).unwrap();
}

#[test]
fn clear_cache_restores_all_estimates() {
    let mut list = make_list(10, 10.0, 2);
    list.update_item_size(0, units(99.0)).unwrap();
    list.update_item_size(9, units(1.0)).unwrap();
    list.clear_cache();
    assert_eq!(list.loaded_count(), 0);
    assert_eq!(px(list.total_size()), 100.0);
    assert_eq!(list.get_item_size(0).unwrap(), units(10.0));
    assert_eq!(list.get_item_size(9).unwrap(), units(10.0));
}

#[test]
fn construction_rejects_bad_arguments() {
    let config = VirtualListConfig::new();
    let err =
        VirtualList::new(10, 0, units(10.0), Orientation::Vertical, config).unwrap_err();
    assert_eq!(err, VirtualListError::InvalidConfiguration);
    assert_eq!(err.kind(), "InvalidConfiguration");

    let config = VirtualListConfig::new();
    let err = VirtualList::new(
        10,
        5,
        virtual_list_index::MAX_TOTAL_SIZE + 1,
        Orientation::Vertical,
        config,
    )
    .unwrap_err();
    assert_eq!(err, VirtualListError::InvalidSize);

    let config = VirtualListConfig::new();
    let err = VirtualList::new(
        virtual_list_index::MAX_ITEM_COUNT,
        5,
        virtual_list_index::MAX_TOTAL_SIZE,
        Orientation::Vertical,
        config,
    )
    .unwrap_err();
    assert_eq!(err, VirtualListError::PrecisionLimitExceeded);
    assert_eq!(err.kind(), "PrecisionLimitExceeded");
}

#[test]
fn query_errors_carry_their_kinds() {
    let mut empty = make_list(0, 10.0, 4);
    let err = empty.get_visible_range(0, units(10.0)).unwrap_err();
    assert_eq!(err, VirtualListError::EmptyList);
    assert_eq!(err.kind(), "EmptyList");

    let mut list = make_list(5, 10.0, 4);
    let err = list.get_visible_range(0, 0).unwrap_err();
    assert_eq!(err, VirtualListError::InvalidViewport);
    assert_eq!(err.kind(), "InvalidViewport");

    let err = list.update_item_size(5, units(10.0)).unwrap_err();
    assert_eq!(err, VirtualListError::IndexOutOfBounds);
    assert_eq!(err.kind(), "IndexOutOfBounds");

    let err = list
        .update_item_sizes(&vec![0, 1], &vec![units(10.0)])
        .unwrap_err();
    assert_eq!(err, VirtualListError::InvalidOperation);
    assert_eq!(err.kind(), "InvalidOperation");
}

#[test]
fn totals_are_capped_at_the_precision_threshold() {
    let mut list = VirtualList::new(
        2,
        1,
        0,
        Orientation::Vertical,
        VirtualListConfig::new(),
    )
    .unwrap();
    list.update_item_size(0, virtual_list_index::MAX_TOTAL_SIZE).unwrap();
    let err = list.update_item_size(1, 1).unwrap_err();
    assert_eq!(err, VirtualListError::PrecisionLimitExceeded);
    assert_eq!(list.total_size(), virtual_list_index::MAX_TOTAL_SIZE);
}

#[test]
fn config_setters_clamp_to_positive_values() {
    let mut config = VirtualListConfig::new();
    assert_eq!(config.buffer_size(), 5);
    assert_eq!(config.overscan_items(), 3);
    assert_eq!(config.update_batch_size(), 10);
    assert_eq!(config.max_loaded_chunks(), Some(100));
    assert_eq!(config.cache_eviction_policy(), CachePolicy::Lru);
    config.set_buffer_size(0);
    config.set_overscan_items(0);
    config.set_update_batch_size(0);
    config.set_max_loaded_chunks(Some(0));
    assert_eq!(config.buffer_size(), 1);
    assert_eq!(config.overscan_items(), 1);
    assert_eq!(config.update_batch_size(), 1);
    assert_eq!(config.max_loaded_chunks(), Some(1));
    config.set_max_loaded_chunks(None);
    assert_eq!(config.max_loaded_chunks(), None);
    let list =
        VirtualList::new(5, 2, units(10.0), Orientation::Horizontal, config).unwrap();
    assert_eq!(list.orientation(), Orientation::Horizontal);
    assert_eq!(px(list.get_position(3)), 30.0);
}
