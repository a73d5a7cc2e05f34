use virtual_list_index::{Orientation, VirtualList, VirtualListConfig};

/// One display unit is a thousandth of a pixel: tests write pixel
/// values and convert at the boundary, as a host would.
fn units(x: f64) -> u64 {
    (x * 1000.0).round() as u64
}

fn units_i(x: f64) -> i64 {
    (x * 1000.0).round() as i64
}

fn make_list(total_items: u64, estimated_px: f64, chunk_size: u64) -> VirtualList {
    VirtualList::new(
        total_items,
        chunk_size,
        units(estimated_px),
        Orientation::Vertical,
        VirtualListConfig::new(),
    )
    .unwrap()
}

#[test]
fn test_empty_list() {
    let list = make_list(0, 10.0, 10);
    let visible = list.compute_visible_range(units_i(0.0), units(100.0), 0);
    assert_eq!(
        visible.len(),
        0,
        "Empty list should return empty visible items"
    );
}

#[test]
fn test_zero_viewport() {
    let list = make_list(100, 10.0, 10);
    let visible = list.compute_visible_range(units_i(0.0), units(0.0), 0);
    assert_eq!(
        visible.len(),
        0,
        "Zero viewport should return empty visible items"
    );
}

#[test]
fn test_negative_scroll() {
    let list = make_list(100, 10.0, 10);
    let visible = list.compute_visible_range(units_i(-50.0), units(100.0), 0);
    assert!(
        visible.len() > 0,
        "Negative scroll should be handled gracefully"
    );
    assert_eq!(
        visible[0].index(),
        0,
        "First visible item should be at index 0"
    );
}

#[test]
fn test_scroll_beyond_end() {
    let list = make_list(100, 10.0, 10);
    // Scroll beyond the end of the list (100 items of size 10.0 make a
    // total size of 1000.0).
    let visible = list.compute_visible_range(units_i(1500.0), units(100.0), 0);
    assert_eq!(
        visible.len(),
        0,
        "Scrolling beyond the end should return empty visible items"
    );
}

#[test]
fn test_overscan() {
    let list = make_list(100, 10.0, 10);
    // The viewport shows items 10 to 19 (scroll 100.0, viewport 100.0).
    let no_overscan = list.compute_visible_range(units_i(100.0), units(100.0), 0);
    let with_overscan = list.compute_visible_range(units_i(100.0), units(100.0), 2);

    assert!(
        with_overscan.len() > no_overscan.len(),
        "Overscan should increase visible items"
    );
    assert!(
        with_overscan[0].index() < no_overscan[0].index(),
        "Overscan should include items before visible range"
    );
    assert!(
        with_overscan[with_overscan.len() - 1].index()
            > no_overscan[no_overscan.len() - 1].index(),
        "Overscan should include items after visible range"
    );
}

#[test]
fn test_single_item_chunk() {
    // Each chunk holds just one item.
    let list = make_list(5, 10.0, 1);

    assert_eq!(list.get_position(0), units(0.0));
    assert_eq!(list.get_position(1), units(10.0));
    assert_eq!(list.get_position(4), units(40.0));

    let visible = list.compute_visible_range(units_i(15.0), units(20.0), 0);
    assert_eq!(visible.len(), 2, "Should see 2 items");
    assert_eq!(visible[0].index(), 2, "First visible item should be item 2");
}

#[test]
fn test_large_chunk() {
    // All items sit in a single chunk.
    let list = make_list(100, 10.0, 100);

    let visible = list.compute_visible_range(units_i(250.0), units(50.0), 0);
    assert_eq!(visible.len(), 5, "Should see 5 items with viewport size 50");
    assert_eq!(
        visible[0].index(),
        25,
        "First visible item should be item 25"
    );
}

#[test]
fn visible_items_carry_positions_and_sizes() {
    let mut list = make_list(6, 10.0, 2);
    list.update_item_size(2, units(25.0)).unwrap();
    let visible = list.compute_visible_range(units_i(0.0), units(100.0), 0);
    assert_eq!(visible.len(), 6);
    assert_eq!(visible[2].index(), 2);
    assert_eq!(visible[2].position(), units(20.0));
    assert_eq!(visible[2].size(), units(25.0));
    assert_eq!(visible[3].position(), units(45.0));
}
