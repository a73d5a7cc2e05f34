use virtual_list_index::{Orientation, VirtualList, VirtualListConfig};

/// One display unit is a thousandth of a pixel: tests write pixel
/// values and convert at the boundary, as a host would.
fn units(x: f64) -> u64 {
    (x * 1000.0).round() as u64
}

fn px(u: u64) -> f64 {
    (u as f64) / 1000.0
}

fn units_i(x: f64) -> i64 {
    (x * 1000.0).round() as i64
}

fn make_list(total_items: u64, estimated_px: f64, chunk_size: u64) -> VirtualList {
    VirtualList::new(
        total_items,
        chunk_size,
        units(estimated_px),
        Orientation::Vertical,
        VirtualListConfig::new(),
    )
    .unwrap()
}

#[test]
fn test_chunk_boundary() {
    // A list with 3 items per chunk.
    let list = make_list(10, 10.0, 3);
    // Items at chunk boundaries are positioned correctly.
    assert_eq!(px(list.get_position(2)), 20.0, "Last item in first chunk");
    assert_eq!(px(list.get_position(3)), 30.0, "First item in second chunk");
}

#[test]
fn test_variable_sizes() {
    let mut list = make_list(5, 10.0, 2);

    // Update item sizes.
    list.update_item_sizes(
        &vec![0, 2, 4],
        &vec![units(20.0), units(30.0), units(15.0)],
    )
    .unwrap();

    // Check positions.
    assert_eq!(px(list.get_position(0)), 0.0, "First item starts at 0");
    assert_eq!(
        px(list.get_position(1)),
        20.0,
        "Second item starts after first item (size 20)"
    );
    assert_eq!(
        px(list.get_position(2)),
        30.0,
        "Third item starts after second item (size 10)"
    );
    assert_eq!(
        px(list.get_position(3)),
        60.0,
        "Fourth item starts after third item (size 30)"
    );
    assert_eq!(
        px(list.get_position(4)),
        70.0,
        "Fifth item starts after fourth item (size 10)"
    );

    // Check the visible range.
    let visible = list.compute_visible_range(units_i(25.0), units(20.0), 0);
    assert_eq!(
        visible.len(),
        2,
        "Should see 2 items in a viewport of size 20 starting at position 25"
    );
    assert_eq!(visible[0].index(), 2, "First visible item should be item 2");
    assert_eq!(
        visible[1].index(),
        3,
        "Second visible item should be item 3"
    );
}

#[test]
fn test_error_handling() {
    let mut list = make_list(5, 10.0, 2);

    // Index out of bounds.
    let result = list.update_item_sizes(&vec![6], &vec![units(20.0)]);
    assert!(
        result.is_err(),
        "Update with out of bounds index should return error"
    );

    // A size the engine cannot represent.
    let result = list.update_item_sizes(&vec![1], &vec![u64::MAX]);
    assert!(
        result.is_err(),
        "Update with negative size should return error"
    );

    // Mismatched arrays.
    let result = list.update_item_sizes(&vec![1, 2], &vec![units(20.0)]);
    assert!(
        result.is_err(),
        "Update with mismatched arrays should return error"
    );

    // checked_get_position past the end.
    let result = list.checked_get_position(10);
    assert!(
        result.is_err(),
        "checked_get_position with invalid index should return error"
    );
}

#[test]
fn test_binary_search_edge_cases() {
    // Very small sizes.
    let mut list = make_list(10, 0.1, 5);

    // All items are size 0.1, so 10 items total size is 1.0.
    let idx = list.find_smallest_i_where_prefix_sum_ge(units(0.95));
    assert_eq!(
        idx, 9,
        "Should find the correct index even with small sizes"
    );

    // Some zero-sized items.
    list.update_item_sizes(&vec![2, 3, 4], &vec![0, 0, 0]).unwrap();

    let idx = list.find_smallest_i_where_prefix_sum_ge(units(0.3));
    assert_eq!(idx, 6, "Should handle zero-sized items correctly");
}

#[test]
fn position_queries_agree_with_item_sizes() {
    let mut list = make_list(7, 4.0, 3);
    list.update_item_size(0, units(1.0)).unwrap();
    list.update_item_size(6, units(9.0)).unwrap();
    let mut running: u64 = 0;
    let mut i: u64 = 0;
    while i < 7 {
        assert_eq!(list.get_position(i), running);
        assert_eq!(list.checked_get_position(i).unwrap(), running);
        running += list.get_item_size(i).unwrap();
        i += 1;
    }
    assert_eq!(list.total_size(), running);
}

#[test]
fn prefix_lower_bound_inverts_positions() {
    // Every item at least one unit wide: the lower bound at an item's
    // own position answers that item, and one unit past it answers the
    // next (clamped to the last item).
    let mut list = make_list(9, 3.0, 4);
    list.update_item_size(4, units(7.0)).unwrap();
    let mut i: u64 = 0;
    while i < 9 {
        let p = list.get_position(i);
        assert_eq!(list.find_smallest_i_where_prefix_sum_ge(p), i);
        let next = if i + 1 < 9 { i + 1 } else { 8 };
        assert_eq!(list.find_smallest_i_where_prefix_sum_ge(p + 1), next);
        i += 1;
    }
}
