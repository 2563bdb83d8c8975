use exterminator_wizard::grid::{GridCoords, OccupancySet};

#[test]
fn insert_holds_each_cell_once() {
    let mut occ = OccupancySet::new();
    assert!(occ.insert(GridCoords::new(1, 2)));
    assert!(!occ.insert(GridCoords::new(1, 2)));
    assert!(occ.insert(GridCoords::new(2, 1)));
    assert_eq!(occ.len(), 2);
    assert!(occ.contains(GridCoords::new(2, 1)));
    assert!(!occ.contains(GridCoords::new(2, 2)));
    assert_eq!(occ.get(0), GridCoords::new(1, 2));
}

#[test]
fn from_cells_drops_repeats() {
    let cells = vec![GridCoords::new(0, 0), GridCoords::new(3, -4), GridCoords::new(0, 0)];
    let occ = OccupancySet::from_cells(&cells);
    assert_eq!(occ.len(), 2);
    assert!(occ.contains(GridCoords::new(3, -4)));
}

#[test]
fn bounds_of_cells() {
    assert_eq!(OccupancySet::new().bounds(), None);
    let occ = OccupancySet::from_cells(&vec![
        GridCoords::new(3, -4),
        GridCoords::new(-2, 5),
        GridCoords::new(0, 1),
    ]);
    assert_eq!(occ.bounds(), Some((GridCoords::new(-2, -4), GridCoords::new(3, 5))));
}
