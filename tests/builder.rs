use exterminator_wizard::builder::{build_rects, build_wall_rects, unit_rects, ColliderStrategy};
use exterminator_wizard::collider::{rect_collider, rect_colliders, ColliderBox};
use exterminator_wizard::components::GRID_SIZE;
use exterminator_wizard::grid::{GridCoords, OccupancySet};
use exterminator_wizard::plates::{row_plates, Plate};
use exterminator_wizard::rects::{merge_plates, Rect};

fn occupancy(cells: &[(i32, i32)]) -> OccupancySet {
    let mut occ = OccupancySet::new();
    for &(x, y) in cells {
        occ.insert(GridCoords::new(x, y));
    }
    occ
}

fn rect(left: i32, right: i32, bottom: i32, top: i32) -> Rect {
    Rect { left, right, top, bottom }
}

fn covered_cells(rects: &[Rect]) -> Vec<(i32, i32)> {
    let mut cells = Vec::new();
    for r in rects {
        for y in r.bottom..=r.top {
            for x in r.left..=r.right {
                cells.push((x, y));
            }
        }
    }
    cells.sort();
    cells
}

fn sorted(mut rects: Vec<Rect>) -> Vec<(i32, i32, i32, i32)> {
    let mut v: Vec<(i32, i32, i32, i32)> = rects.drain(..).map(|r| (r.left, r.right, r.bottom, r.top)).collect();
    v.sort();
    v
}

#[test]
fn plates_of_one_row() {
    let occ = occupancy(&[(2, 0), (3, 0), (4, 0), (7, 0)]);
    let plates = row_plates(&occ, 0, 0, 9);
    assert_eq!(
        plates,
        vec![Plate { row: 0, left: 2, right: 4 }, Plate { row: 0, left: 7, right: 7 }]
    );
}

#[test]
fn plate_open_at_window_end_is_closed() {
    let occ = occupancy(&[(2, 1), (3, 1), (4, 1), (7, 1)]);
    let plates = row_plates(&occ, 1, 2, 7);
    assert_eq!(
        plates,
        vec![Plate { row: 1, left: 2, right: 4 }, Plate { row: 1, left: 7, right: 7 }]
    );
    let cut = row_plates(&occ, 1, 3, 3);
    assert_eq!(cut, vec![Plate { row: 1, left: 3, right: 3 }]);
}

#[test]
fn empty_row_and_empty_window_give_no_plates() {
    let occ = occupancy(&[(2, 0)]);
    assert!(row_plates(&occ, 1, 0, 9).is_empty());
    assert!(row_plates(&occ, 0, 5, 4).is_empty());
    assert!(row_plates(&OccupancySet::new(), 0, 0, 9).is_empty());
}

#[test]
fn stacked_plates_merge_into_one_rect() {
    let p = |row: i32| Plate { row, left: 2, right: 4 };
    let rows = vec![vec![p(0)], vec![p(1)], vec![p(2)], vec![]];
    assert_eq!(merge_plates(&rows, 0), vec![rect(2, 4, 0, 2)]);
}

#[test]
fn different_columns_do_not_merge() {
    let rows = vec![
        vec![Plate { row: 5, left: 0, right: 3 }],
        vec![Plate { row: 6, left: 0, right: 2 }],
        vec![Plate { row: 7, left: 0, right: 2 }, Plate { row: 7, left: 4, right: 4 }],
    ];
    let rects = merge_plates(&rows, 5);
    assert_eq!(
        sorted(rects),
        vec![(0, 2, 6, 7), (0, 3, 5, 5), (4, 4, 7, 7)]
    );
    assert!(merge_plates(&Vec::new(), 0).is_empty());
}

#[test]
fn a_gap_row_starts_a_new_rect() {
    let p = |row: i32| Plate { row, left: 1, right: 1 };
    let rows = vec![vec![p(0)], vec![], vec![p(2)], vec![p(3)]];
    assert_eq!(sorted(merge_plates(&rows, 0)), vec![(1, 1, 0, 0), (1, 1, 2, 3)]);
}

#[test]
fn builder_merges_a_block_and_a_column() {
    // A 3x2 block and a separate column of three cells.
    let occ = occupancy(&[(0, 0), (1, 0), (2, 0), (0, 1), (1, 1), (2, 1), (5, 0), (5, 1), (5, 2)]);
    let rects = build_wall_rects(&occ);
    assert_eq!(sorted(rects), vec![(0, 2, 0, 1), (5, 5, 0, 2)]);
}

#[test]
fn builder_covers_exactly_the_cells_without_overlap() {
    let cells = [(0, 0), (1, 0), (2, 0), (0, 1), (2, 1), (0, 2), (1, 2), (2, 2), (4, 4), (-3, -1), (-2, -1)];
    let occ = occupancy(&cells);
    let rects = build_wall_rects(&occ);
    let covered = covered_cells(&rects);
    let mut expected: Vec<(i32, i32)> = cells.to_vec();
    expected.sort();
    // Sorted with no repeats: every cell once, so no two rects overlap.
    assert_eq!(covered, expected);
    assert_eq!(
        sorted(rects),
        vec![(-3, -2, -1, -1), (0, 0, 1, 1), (0, 2, 0, 0), (0, 2, 2, 2), (2, 2, 1, 1), (4, 4, 4, 4)]
    );
}

#[test]
fn builder_is_deterministic() {
    let occ = occupancy(&[(1, 1), (2, 1), (1, 2), (2, 2), (3, 3), (1, 4), (2, 4)]);
    let first = build_wall_rects(&occ);
    let second = build_wall_rects(&occ);
    assert_eq!(first, second);
    assert_eq!(covered_cells(&first), covered_cells(&second));
}

#[test]
fn builder_on_no_cells_gives_no_rects() {
    assert!(build_wall_rects(&OccupancySet::new()).is_empty());
    assert!(unit_rects(&OccupancySet::new()).is_empty());
}

#[test]
fn per_cell_strategy_gives_unit_rects() {
    let occ = occupancy(&[(4, 1), (5, 1)]);
    assert_eq!(unit_rects(&occ), vec![rect(4, 4, 1, 1), rect(5, 5, 1, 1)]);
    assert_eq!(build_rects(&occ, ColliderStrategy::PerCell), vec![rect(4, 4, 1, 1), rect(5, 5, 1, 1)]);
    assert_eq!(build_rects(&occ, ColliderStrategy::PlateMerge), vec![rect(4, 5, 1, 1)]);
}

#[test]
fn collider_of_a_two_cell_rect() {
    // Half-pixels: half extent (16, 8) px and centre (16, 8) px.
    let c = rect_collider(&rect(0, 1, 0, 0), GRID_SIZE, GRID_SIZE, 0, 0);
    assert_eq!(c, ColliderBox { center_x: 32, center_y: 16, half_width: 32, half_height: 16 });
}

#[test]
fn collider_with_anchor_and_odd_cells() {
    let c = rect_collider(&rect(2, 4, -1, 1), 3, 5, 10, -7);
    // centre x = 10 + 7 * 3 / 2 = 20.5 px, y = -7 + 1 * 5 / 2 = -4.5 px
    assert_eq!(c.center_x, 41);
    assert_eq!(c.center_y, -9);
    // half extents: 3 * 3 / 2 = 4.5 px, 3 * 5 / 2 = 7.5 px
    assert_eq!(c.half_width, 9);
    assert_eq!(c.half_height, 15);
    let all = rect_colliders(&vec![rect(0, 1, 0, 0), rect(2, 4, -1, 1)], 3, 5, 10, -7);
    assert_eq!(all.len(), 2);
    assert_eq!(all[1], c);
    assert_eq!(all[0], ColliderBox { center_x: 26, center_y: -9, half_width: 6, half_height: 5 });
}

#[test]
fn collider_at_coordinate_extremes() {
    let c = rect_collider(&rect(i32::MIN, i32::MAX, i32::MIN, i32::MAX), i32::MAX, i32::MAX, i32::MAX, i32::MIN);
    assert_eq!(c.half_width, (1i64 << 32) * (i32::MAX as i64));
    assert_eq!(c.center_x, 2 * (i32::MAX as i64));
    assert_eq!(c.center_y, 2 * (i32::MIN as i64));
}
