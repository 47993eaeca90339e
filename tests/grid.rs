use spatial_index::{GridCell, Rect, SpatialGrid};

#[test]
fn grid_dimensions_round_up() {
    let g = SpatialGrid::new(Rect::new(0, 0, 1050, 999), 100);
    assert_eq!(g.cols, 11);
    assert_eq!(g.rows, 10);
    assert_eq!(g.cells.len(), 10);
    assert_eq!(g.cells[0].len(), 11);
}

#[test]
fn cell_coordinates_of_points() {
    let g = SpatialGrid::new(Rect::new(100, 200, 1000, 1000), 100);
    assert_eq!(g.get_cell_coords(100, 200), Some((0, 0)));
    assert_eq!(g.get_cell_coords(355, 410), Some((2, 2)));
    assert_eq!(g.get_cell_coords(99, 250), None);
    assert_eq!(g.get_cell_coords(1100, 250), None);
    assert_eq!(g.get_cell_coords(1099, 1199), Some((9, 9)));
}

#[test]
fn intersecting_cells_in_row_major_order() {
    let g = SpatialGrid::new(Rect::new(0, 0, 1000, 1000), 100);
    assert_eq!(g.get_intersecting_cells(150, 50, 100, 100), vec![(0, 1), (0, 2), (1, 1), (1, 2)]);
    assert_eq!(g.get_intersecting_cells(-50, -50, 100, 100), vec![(0, 0)]);
    assert_eq!(g.get_intersecting_cells(950, 950, 500, 10), vec![(9, 9)]);
    assert_eq!(g.get_intersecting_cells(100, 100, 100, 100), vec![(1, 1)]);
    assert!(g.get_intersecting_cells(2000, 2000, 10, 10).is_empty());
}

#[test]
fn membership_add_update_remove() {
    let mut g = SpatialGrid::new(Rect::new(0, 0, 400, 400), 100);
    g.add_element("a", 50, 50, 100, 10);
    assert_eq!(g.cells[0][0].elements, vec!["a".to_string()]);
    assert_eq!(g.cells[0][1].elements, vec!["a".to_string()]);
    g.add_element("a", 50, 50, 100, 10);
    assert_eq!(g.cells[0][0].elements.len(), 1);
    g.update_element("a", 50, 50, 100, 10, 350, 350, 10, 10);
    assert!(g.cells[0][0].elements.is_empty());
    assert!(g.cells[0][1].elements.is_empty());
    assert_eq!(g.cells[3][3].elements, vec!["a".to_string()]);
    g.add_element("b", 0, 0, 400, 400);
    g.remove_element("b");
    for row in &g.cells {
        for cell in row {
            assert!(cell.elements.iter().all(|e| e != "b"));
        }
    }
    assert_eq!(g.cells[3][3].elements, vec!["a".to_string()]);
}

#[test]
fn grid_cell_starts_empty() {
    let mut c = GridCell::new();
    assert!(c.elements.is_empty());
    c.insert(&"x".to_string());
    c.insert(&"x".to_string());
    assert!(c.contains(&"x".to_string()));
    assert_eq!(c.elements.len(), 1);
    c.remove(&"x".to_string());
    assert!(!c.contains(&"x".to_string()));
}
