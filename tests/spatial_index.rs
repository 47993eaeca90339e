use spatial_index::{
    calculate_optimal_cell_size, should_optimize, ItemRecord, Rect, SpatialIndexManager,
    SpatialIndexStats,
};

fn item(id: &str, x: i32, y: i32, w: u32, h: u32) -> ItemRecord {
    ItemRecord::new(id.to_string(), Rect::new(x, y, w, h))
}

fn universe() -> SpatialIndexManager {
    SpatialIndexManager::new(Rect::new(0, 0, 1000, 1000), 100)
}

fn ids(records: &[ItemRecord]) -> Vec<String> {
    let mut v: Vec<String> = records.iter().map(|r| r.id.clone()).collect();
    v.sort();
    v
}

#[test]
fn region_query_finds_overlapping_item() {
    let mut m = universe();
    assert!(m.add_element(&item("e1", 50, 50, 40, 40)));
    let hits = m.query_region(0, 0, 100, 100);
    assert_eq!(ids(&hits), vec!["e1".to_string()]);
    assert_eq!(hits[0].bounds, Rect::new(50, 50, 40, 40));
    assert!(m.query_region(200, 200, 50, 50).is_empty());
}

#[test]
fn collisions_are_found_both_ways() {
    let mut m = universe();
    let e1 = item("e1", 50, 50, 40, 40);
    let e2 = item("e2", 25, 25, 50, 50);
    m.add_element(&e1);
    m.add_element(&e2);
    assert_eq!(ids(&m.detect_collisions(&e1)), vec!["e2".to_string()]);
    assert_eq!(ids(&m.detect_collisions(&e2)), vec!["e1".to_string()]);
}

#[test]
fn nearest_on_empty_grid_is_none() {
    let m = universe();
    assert!(m.find_nearest(500, 500, 100).is_none());
}

#[test]
fn nearest_within_and_beyond_reach() {
    let mut m = universe();
    m.add_element(&item("e3", 500, 500, 10, 10));
    let found = m.find_nearest(500, 500, 50).expect("e3 is at distance zero");
    assert_eq!(found.id, "e3");
    assert!(m.find_nearest(1000, 1000, 50).is_none());
}

#[test]
fn point_query_boundary_is_inclusive() {
    let mut m = universe();
    m.add_element(&item("e1", 50, 50, 40, 40));
    assert_eq!(ids(&m.find_at_point(90, 90)), vec!["e1".to_string()]);
    assert!(m.find_at_point(91, 91).is_empty());
    assert_eq!(ids(&m.find_at_point(50, 50)), vec!["e1".to_string()]);
}

#[test]
fn crowded_cell_triggers_auto_optimize() {
    let mut m = universe();
    for i in 0..1200 {
        let x = 10 + (i % 40) * 2;
        let y = 10 + (i / 40) * 2;
        m.add_element(&item(&format!("item-{}", i), x, y, 2, 2));
    }
    let before = m.get_stats();
    assert_eq!(before.total_elements, 1200);
    assert_eq!(before.total_cells, 100);
    assert_eq!(before.max_elements_per_cell, 1200);
    assert!(m.auto_optimize());
    let after = m.get_stats();
    assert_eq!(after.total_elements, 1200);
    assert_eq!(m.cell_size(), 50);
    assert_eq!(m.bounds(), Rect::new(0, 0, 2000, 2000));
    assert_eq!(after.total_cells, 1600);
    assert_ne!(after.total_cells, before.total_cells);
}

#[test]
fn auto_optimize_needs_more_than_a_thousand_items() {
    let mut m = universe();
    for i in 0..1000 {
        m.add_element(&item(&format!("item-{}", i), 10, 10, 2, 2));
    }
    let before = m.get_stats();
    assert_eq!(before.max_elements_per_cell, 1000);
    assert!(!m.auto_optimize());
    assert_eq!(m.get_stats(), before);
    assert_eq!(m.cell_size(), 100);
    assert_eq!(m.bounds(), Rect::new(0, 0, 1000, 1000));
}

#[test]
fn auto_optimize_skips_sparse_index() {
    let mut m = universe();
    for i in 0..1100 {
        let x = (i % 33) * 30;
        let y = (i / 33) * 30;
        m.add_element(&item(&format!("item-{}", i), x, y, 5, 5));
    }
    let st = m.get_stats();
    assert!(st.max_elements_per_cell <= 200);
    assert!(!m.auto_optimize());
    assert_eq!(m.cell_size(), 100);
}

#[test]
fn region_query_contains_each_items_own_box() {
    let mut m = universe();
    let items = vec![
        item("a", 0, 0, 10, 10),
        item("b", 95, 95, 20, 20),
        item("c", 990, 990, 50, 50),
        item("d", -20, 300, 40, 1),
        item("e", 400, 400, 300, 300),
    ];
    for it in &items {
        m.add_element(it);
    }
    for it in &items {
        let b = it.bounds;
        let hits = m.query_region(b.x, b.y, b.width, b.height);
        assert!(hits.iter().any(|h| h.id == it.id), "{} not found", it.id);
    }
}

#[test]
fn region_query_excludes_touching_boxes() {
    let mut m = universe();
    m.add_element(&item("left", 0, 0, 100, 100));
    m.add_element(&item("right", 100, 0, 100, 100));
    let hits = m.query_region(100, 0, 50, 50);
    assert_eq!(ids(&hits), vec!["right".to_string()]);
    let hits = m.query_region(0, 100, 200, 10);
    assert!(hits.is_empty());
}

#[test]
fn region_query_lists_spanning_item_once() {
    let mut m = universe();
    m.add_element(&item("wide", 50, 50, 500, 500));
    let hits = m.query_region(0, 0, 1000, 1000);
    assert_eq!(hits.len(), 1);
}

#[test]
fn point_query_matches_inclusive_test() {
    let mut m = universe();
    m.add_element(&item("p", 120, 130, 30, 40));
    for (x, y) in [(120, 130), (150, 170), (135, 150), (119, 150), (151, 150), (135, 171)] {
        let inside = x >= 120 && x <= 150 && y >= 130 && y <= 170;
        let hit = !m.find_at_point(x, y).is_empty();
        assert_eq!(hit, inside, "point ({}, {})", x, y);
    }
}

#[test]
fn point_outside_grid_finds_nothing() {
    let mut m = universe();
    m.add_element(&item("big", -100, -100, 300, 300));
    assert!(m.find_at_point(-50, -50).is_empty());
    assert!(m.find_at_point(1000, 10).is_empty());
    assert_eq!(ids(&m.find_at_point(0, 0)), vec!["big".to_string()]);
}

#[test]
fn collision_relation_is_symmetric() {
    let mut m = universe();
    let items = vec![
        item("a", 0, 0, 60, 60),
        item("b", 50, 50, 60, 60),
        item("c", 105, 105, 10, 10),
        item("d", 300, 300, 10, 10),
        item("e", 60, 0, 40, 40),
    ];
    for it in &items {
        m.add_element(it);
    }
    for a in &items {
        for b in &items {
            let a_in_b = m.detect_collisions(b).iter().any(|r| r.id == a.id);
            let b_in_a = m.detect_collisions(a).iter().any(|r| r.id == b.id);
            assert_eq!(a_in_b, b_in_a, "{} / {}", a.id, b.id);
        }
    }
    assert!(m.detect_collisions(&items[0]).iter().all(|r| r.id != "a"));
}

#[test]
fn rebuild_keeps_exactly_the_items() {
    let mut m = universe();
    m.add_element(&item("old", 1, 1, 1, 1));
    let items = vec![item("x", 10, 10, 30, 30), item("y", 700, 20, 5, 80), item("z", 0, 900, 100, 100)];
    for cs in [0, 25, 100, 400] {
        m.rebuild(&items, Rect::new(0, 0, 1000, 1000), cs);
        let all = m.all_items();
        assert_eq!(all.len(), items.len());
        for (a, b) in all.iter().zip(items.iter()) {
            assert_eq!(a.id, b.id);
            assert_eq!(a.bounds, b.bounds);
        }
    }
}

#[test]
fn rebuild_overwrites_repeated_identifier() {
    let mut m = universe();
    let items = vec![item("x", 10, 10, 30, 30), item("x", 500, 500, 5, 5)];
    m.rebuild(&items, Rect::new(0, 0, 1000, 1000), 100);
    let all = m.all_items();
    assert_eq!(all.len(), 1);
    assert_eq!(all[0].bounds, Rect::new(500, 500, 5, 5));
    assert!(m.query_region(0, 0, 100, 100).is_empty());
}

#[test]
fn tuned_cell_size_stays_in_bounds() {
    let mut m = universe();
    let tiny = vec![item("t", 0, 0, 1, 1)];
    m.rebuild(&tiny, Rect::new(0, 0, 1000, 1000), 0);
    assert_eq!(m.cell_size(), 50);
    let huge = vec![item("h", 0, 0, 100000, 100000)];
    m.rebuild(&huge, Rect::new(0, 0, 1000, 1000), -5);
    assert_eq!(m.cell_size(), 500);
    m.rebuild(&[], Rect::new(0, 0, 1000, 1000), 0);
    assert_eq!(m.cell_size(), 100);
}

#[test]
fn optimal_cell_size_formula() {
    // Average area 10000, ten of them per cell: side sqrt(100000) = 316.2.
    let items = vec![item("a", 0, 0, 100, 100), item("b", 0, 0, 50, 200)];
    assert_eq!(calculate_optimal_cell_size(&items), 316);
    // Average area 400: side sqrt(4000) = 63.2.
    let items = vec![item("a", 0, 0, 20, 20)];
    assert_eq!(calculate_optimal_cell_size(&items), 63);
    assert_eq!(calculate_optimal_cell_size(&[]), 100);
    let items = vec![item("a", 0, 0, u32::MAX, u32::MAX)];
    assert_eq!(calculate_optimal_cell_size(&items), 500);
}

#[test]
fn non_positive_cell_size_falls_back_to_default() {
    let m = SpatialIndexManager::new(Rect::new(0, 0, 1000, 1000), 0);
    assert_eq!(m.cell_size(), 100);
    assert_eq!(m.get_stats().total_cells, 100);
    let m = SpatialIndexManager::new(Rect::new(0, 0, 1000, 1000), -3);
    assert_eq!(m.cell_size(), 100);
}

#[test]
fn update_moves_item_between_cells() {
    let mut m = universe();
    m.add_element(&item("e", 10, 10, 10, 10));
    assert!(m.update_element("e", Rect::new(800, 800, 10, 10)));
    assert!(m.query_region(0, 0, 100, 100).is_empty());
    assert_eq!(ids(&m.query_region(790, 790, 50, 50)), vec!["e".to_string()]);
    assert_eq!(m.get_stats().occupied_cells, 1);
}

#[test]
fn update_of_unknown_item_fails() {
    let mut m = universe();
    m.add_element(&item("e", 10, 10, 10, 10));
    assert!(!m.update_element("ghost", Rect::new(800, 800, 10, 10)));
    assert_eq!(m.all_items().len(), 1);
    assert!(m.query_region(790, 790, 50, 50).is_empty());
}

#[test]
fn remove_clears_item_and_unknown_fails() {
    let mut m = universe();
    m.add_element(&item("e", 10, 10, 150, 10));
    m.add_element(&item("f", 10, 10, 5, 5));
    assert!(m.remove_element("e"));
    assert!(!m.remove_element("e"));
    assert!(!m.remove_element("nobody"));
    assert_eq!(ids(&m.query_region(0, 0, 1000, 1000)), vec!["f".to_string()]);
    let st = m.get_stats();
    assert_eq!(st.total_elements, 1);
    assert_eq!(st.occupied_cells, 1);
    assert_eq!(st.total_memberships, 1);
}

#[test]
fn re_adding_an_identifier_moves_it() {
    let mut m = universe();
    m.add_element(&item("e", 10, 10, 10, 10));
    m.add_element(&item("e", 510, 510, 10, 10));
    assert_eq!(m.all_items().len(), 1);
    assert!(m.query_region(0, 0, 100, 100).is_empty());
    assert_eq!(m.get_stats().total_memberships, 1);
}

#[test]
fn stats_count_memberships() {
    let mut m = universe();
    m.add_element(&item("span", 50, 50, 100, 100));
    m.add_element(&item("one", 10, 10, 10, 10));
    let st = m.get_stats();
    assert_eq!(st.total_elements, 2);
    assert_eq!(st.total_cells, 100);
    assert_eq!(st.occupied_cells, 4);
    assert_eq!(st.total_memberships, 5);
    assert_eq!(st.max_elements_per_cell, 2);
    assert_eq!(st.memory_usage_bytes, 800);
    // Five memberships over four occupied cells: 1.25 on average.
    assert!(st.average_exceeds(1));
    assert!(!st.average_exceeds(2));
}

#[test]
fn query_time_is_recorded() {
    let mut m = universe();
    m.record_query_time(1234);
    assert_eq!(m.get_stats().last_query_time_micros, 1234);
}

#[test]
fn policy_thresholds() {
    let base = SpatialIndexStats {
        total_elements: 1001,
        total_cells: 100,
        occupied_cells: 10,
        total_memberships: 1000,
        max_elements_per_cell: 200,
        memory_usage_bytes: 800,
        last_query_time_micros: 0,
    };
    assert!(!should_optimize(&base));
    assert!(should_optimize(&SpatialIndexStats { total_memberships: 1001, ..base }));
    assert!(should_optimize(&SpatialIndexStats { max_elements_per_cell: 201, ..base }));
    assert!(!should_optimize(&SpatialIndexStats {
        total_elements: 1000,
        max_elements_per_cell: 5000,
        ..base
    }));
}

#[test]
fn update_bounds_keeps_items_and_cell_size() {
    let mut m = universe();
    m.add_element(&item("a", 10, 10, 10, 10));
    m.add_element(&item("b", 1500, 1500, 10, 10));
    assert!(m.query_region(1400, 1400, 200, 200).is_empty());
    m.update_bounds(Rect::new(0, 0, 2000, 2000));
    assert_eq!(m.cell_size(), 100);
    assert_eq!(m.get_stats().total_cells, 400);
    assert_eq!(ids(&m.query_region(1400, 1400, 200, 200)), vec!["b".to_string()]);
    assert_eq!(m.all_items().len(), 2);
}

#[test]
fn nearest_picks_closest_in_ring() {
    let mut m = universe();
    m.add_element(&item("far", 560, 500, 10, 10));
    m.add_element(&item("near", 530, 500, 10, 10));
    let found = m.find_nearest(505, 505, 100).unwrap();
    assert_eq!(found.id, "near");
}

#[test]
fn nearest_searches_outer_rings() {
    let mut m = universe();
    m.add_element(&item("out", 720, 505, 10, 10));
    let found = m.find_nearest(505, 505, 300).unwrap();
    assert_eq!(found.id, "out");
    assert!(m.find_nearest(505, 505, 200).is_none());
}

#[test]
fn nearest_accepts_item_at_exact_bound() {
    let mut m = universe();
    m.add_element(&item("edge", 550, 500, 10, 10));
    assert_eq!(m.find_nearest(500, 505, 50).unwrap().id, "edge");
    assert!(m.find_nearest(500, 505, 49).is_none());
}

#[test]
fn empty_universe_answers_nothing() {
    let mut m = SpatialIndexManager::new(Rect::new(0, 0, 0, 500), 100);
    m.add_element(&item("a", 0, 0, 10, 10));
    assert_eq!(m.get_stats().total_cells, 0);
    assert!(m.query_region(0, 0, 100, 100).is_empty());
    assert!(m.find_at_point(5, 5).is_empty());
    assert!(m.find_nearest(5, 5, 100).is_none());
}

#[test]
fn query_results_come_sorted_by_identifier() {
    let mut m = universe();
    for id in ["delta", "alpha", "Charlie", "bravo", "alpha2"] {
        m.add_element(&item(id, 100, 100, 50, 50));
    }
    let order: Vec<String> = m.query_region(0, 0, 500, 500).iter().map(|r| r.id.clone()).collect();
    assert_eq!(order, vec!["Charlie", "alpha", "alpha2", "bravo", "delta"]);
    let at: Vec<String> = m.find_at_point(120, 120).iter().map(|r| r.id.clone()).collect();
    assert_eq!(at, vec!["Charlie", "alpha", "alpha2", "bravo", "delta"]);
    let hits: Vec<String> = m
        .detect_collisions(&item("bravo", 100, 100, 50, 50))
        .iter()
        .map(|r| r.id.clone())
        .collect();
    assert_eq!(hits, vec!["Charlie", "alpha", "alpha2", "delta"]);
}
