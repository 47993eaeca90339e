use spatial_index::{string_to_color, MemoryTracker};

#[test]
fn colour_of_strings() {
    assert_eq!(string_to_color(""), (64, 64, 64));
    assert_eq!(string_to_color("a"), (64, 64, 97));
    assert_eq!(string_to_color("element-1"), (151, 85, 160));
    assert_eq!(string_to_color("hello world"), (192, 192, 192));
    assert_eq!(string_to_color("element-1"), string_to_color("element-1"));
}

#[test]
fn memory_tracker_counts_per_category() {
    let mut t = MemoryTracker::new();
    assert_eq!(t.get_total_usage(), 0);
    t.track_allocation("grid", 100);
    t.track_allocation("items", 40);
    t.track_allocation("grid", 60);
    assert_eq!(t.get_total_usage(), 200);
    t.track_deallocation("grid", 500);
    t.track_deallocation("unknown", 5);
    t.track_deallocation("items", 15);
    assert_eq!(t.get_total_usage(), 25);
    let usage = t.get_usage_by_category();
    assert_eq!(usage, &vec![("grid".to_string(), 0), ("items".to_string(), 25)]);
}
