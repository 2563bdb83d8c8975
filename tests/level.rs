use exterminator_wizard::components::GRID_SIZE;
use exterminator_wizard::grid::{GridCoords, OccupancySet};
use exterminator_wizard::level::{cells_in, level_cells, walls_by_level, LevelWalls};

#[test]
fn test_in_wall() {
    let mut level_walls = LevelWalls::new(OccupancySet::new(), 10, 10);
    level_walls.add_wall(GridCoords::new(5, 5));

    assert!(!level_walls.in_wall(&GridCoords::new(1, 1))); // Inside the level and not a wall
    assert!(level_walls.in_wall(&GridCoords::new(5, 5))); // Wall location
    assert!(level_walls.in_wall(&GridCoords::new(-1, 0))); // Outside the level boundaries
    assert!(level_walls.in_wall(&GridCoords::new(10, 10))); // Outside the level boundaries
}

#[test]
fn outside_the_level_is_blocked() {
    let level_walls = LevelWalls::new(OccupancySet::new(), 4, 3);
    assert!(level_walls.in_wall(&GridCoords::new(0, -1)));
    assert!(level_walls.in_wall(&GridCoords::new(4, 0)));
    assert!(level_walls.in_wall(&GridCoords::new(0, 3)));
    assert!(level_walls.in_wall(&GridCoords::new(i32::MIN, i32::MAX)));
    assert!(!level_walls.in_wall(&GridCoords::new(3, 2)));
    assert!(!level_walls.in_wall(&GridCoords::new(0, 0)));
}

#[test]
fn empty_level_blocks_everything() {
    let level_walls = LevelWalls::empty();
    assert!(level_walls.in_wall(&GridCoords::new(0, 0)));
    assert_eq!(level_walls.level_width(), 0);
    assert_eq!(level_walls.level_height(), 0);
    assert_eq!(level_walls.wall_locations().len(), 0);
}

#[test]
fn level_size_from_pixels() {
    let mut walls = OccupancySet::new();
    walls.insert(GridCoords::new(2, 3));
    let level_walls = LevelWalls::from_level(walls, 320, 250, GRID_SIZE);
    assert_eq!(level_walls.level_width(), 20);
    assert_eq!(level_walls.level_height(), 15);
    assert!(level_walls.in_wall(&GridCoords::new(2, 3)));
    assert!(!level_walls.in_wall(&GridCoords::new(19, 14)));
    assert!(level_walls.in_wall(&GridCoords::new(20, 14)));
    assert_eq!(cells_in(-17, 16), -1);
    assert_eq!(cells_in(15, 16), 0);
}

#[test]
fn walls_split_by_level() {
    let tiles = vec![
        (7u64, GridCoords::new(0, 0)),
        (9u64, GridCoords::new(1, 1)),
        (7u64, GridCoords::new(2, 0)),
        (7u64, GridCoords::new(0, 0)),
    ];
    let levels = walls_by_level(&tiles);
    assert_eq!(levels.len(), 2);
    assert_eq!(levels[0].0, 7);
    assert_eq!(levels[0].1.len(), 2);
    assert!(levels[0].1.contains(GridCoords::new(0, 0)));
    assert!(levels[0].1.contains(GridCoords::new(2, 0)));
    assert!(!levels[0].1.contains(GridCoords::new(1, 1)));
    assert_eq!(levels[1].0, 9);
    assert_eq!(levels[1].1.len(), 1);
    assert!(levels[1].1.contains(GridCoords::new(1, 1)));
    assert_eq!(walls_by_level(&Vec::new()).len(), 0);
    assert_eq!(level_cells(&tiles, 8).len(), 0);
}
