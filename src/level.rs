//! The walls of a loaded level and the "is this cell blocked" query.
use vstd::prelude::*;
use crate::grid::{GridCoords, OccupancySet};

verus! {

/// The wall cells of the current level, with the level's size in cells.
pub struct LevelWalls {
    wall_locations: OccupancySet,
    level_width: i32,
    level_height: i32,
}

/// Whether cell `(x, y)` lies outside a level of `width` by `height` cells.
pub open spec fn outside_level(width: int, height: int, x: int, y: int) -> bool {
    x < 0 || y < 0 || x >= width || y >= height
}

impl LevelWalls {
    /// The wall cells.
    pub closed spec fn walls(&self) -> Set<(int, int)> {
        self.wall_locations@
    }

    /// The level's width in cells.
    pub closed spec fn width(&self) -> int {
        self.level_width as int
    }

    /// The level's height in cells.
    pub closed spec fn height(&self) -> int {
        self.level_height as int
    }

    pub closed spec fn wf(&self) -> bool {
        self.wall_locations.wf()
    }

    /// A level of `level_width` by `level_height` cells with the given walls.
    pub fn new(wall_locations: OccupancySet, level_width: i32, level_height: i32) -> (r: LevelWalls)
        requires
            wall_locations.wf(),
        ensures
            r.wf(),
            r.walls() == wall_locations@,
            r.width() == level_width,
            r.height() == level_height,
    {
        LevelWalls { wall_locations, level_width, level_height }
    }

    /// The walls of a level of `px_width` by `px_height` pixels, cut into
    /// cells of `grid_size` pixels.
    pub fn from_level(wall_locations: OccupancySet, px_width: i32, px_height: i32, grid_size: i32) -> (r: LevelWalls)
        requires
            wall_locations.wf(),
            grid_size > 0,
        ensures
            r.wf(),
            r.walls() == wall_locations@,
            r.width() == div_toward_zero(px_width as int, grid_size as int),
            r.height() == div_toward_zero(px_height as int, grid_size as int),
    {
        let level_width = cells_in(px_width, grid_size);
        let level_height = cells_in(px_height, grid_size);
        LevelWalls { wall_locations, level_width, level_height }
    }

    /// A level with no cell and no wall.
    pub fn empty() -> (r: LevelWalls)
        ensures
            r.wf(),
            r.walls() == Set::<(int, int)>::empty(),
            r.width() == 0,
            r.height() == 0,
    {
        LevelWalls { wall_locations: OccupancySet::new(), level_width: 0, level_height: 0 }
    }

    /// Whether `grid_coords` is blocked: a wall cell, or any cell outside the
    /// level.
    pub fn in_wall(&self, grid_coords: &GridCoords) -> (r: bool)
        ensures
            r == (outside_level(self.width(), self.height(), grid_coords.x as int, grid_coords.y as int)
                || self.walls().contains(grid_coords@)),
            outside_level(self.width(), self.height(), grid_coords.x as int, grid_coords.y as int) ==> r,
    {
        grid_coords.x < 0 || grid_coords.y < 0 || grid_coords.x >= self.level_width
            || grid_coords.y >= self.level_height || self.wall_locations.contains(*grid_coords)
    }

    /// Adds a wall cell.
    pub fn add_wall(&mut self, c: GridCoords)
        requires
            old(self).wf(),
        ensures
            final(self).wf(),
            final(self).walls() == old(self).walls().insert(c@),
            final(self).width() == old(self).width(),
            final(self).height() == old(self).height(),
    {
        self.wall_locations.insert(c);
    }

    /// The level's width in cells.
    pub fn level_width(&self) -> (r: i32)
        ensures
            r == self.width(),
    {
        self.level_width
    }

    /// The level's height in cells.
    pub fn level_height(&self) -> (r: i32)
        ensures
            r == self.height(),
    {
        self.level_height
    }

    /// The wall cells.
    pub fn wall_locations(&self) -> (r: &OccupancySet)
        ensures
            r@ == self.walls(),
            r.wf() == self.wf(),
    {
        &self.wall_locations
    }
}

/// `a / b` rounded toward zero.
pub open spec fn div_toward_zero(a: int, b: int) -> int {
    if a >= 0 { a / b } else { -((-a) / b) }
}

/// The number of whole cells of `grid_size` pixels in `pixels` pixels
/// (rounded toward zero).
pub fn cells_in(pixels: i32, grid_size: i32) -> (r: i32)
    requires
        grid_size > 0,
    ensures
        r == div_toward_zero(pixels as int, grid_size as int),
{
    pixels / grid_size
}

/// The cells that `tiles` place in level `level`.
pub open spec fn cells_of_level(tiles: Seq<(u64, GridCoords)>, level: u64) -> Set<(int, int)> {
    Set::new(|p: (int, int)| exists|i: int| 0 <= i < tiles.len() && (#[trigger] tiles[i]).0 == level && tiles[i].1@ == p)
}

/// Whether `tiles` place some cell in level `level`.
pub open spec fn has_level(tiles: Seq<(u64, GridCoords)>, level: u64) -> bool {
    exists|i: int| 0 <= i < tiles.len() && (#[trigger] tiles[i]).0 == level
}

/// Whether some entry of `r` is for level `level`.
pub open spec fn lists_level(r: Seq<(u64, OccupancySet)>, level: u64) -> bool {
    exists|k: int| 0 <= k < r.len() && (#[trigger] r[k]).0 == level
}

/// The cells that `tiles` place in level `level`, as an occupancy set.
pub fn level_cells(tiles: &Vec<(u64, GridCoords)>, level: u64) -> (r: OccupancySet)
    ensures
        r.wf(),
        r@ == cells_of_level(tiles@, level),
{
    let mut r = OccupancySet::new();
    let mut i: usize = 0;
    while i < tiles.len()
        invariant
            i <= tiles@.len(),
            r.wf(),
            r@ == Set::new(|p: (int, int)| exists|k: int| 0 <= k < i && (#[trigger] tiles@[k]).0 == level && tiles@[k].1@ == p),
        decreases tiles@.len() - i,
    {
        let ghost before = r@;
        if tiles[i].0 == level {
            r.insert(tiles[i].1);
        }
        assert(r@ =~= Set::new(|p: (int, int)| exists|k: int| 0 <= k < i + 1 && (#[trigger] tiles@[k]).0 == level && tiles@[k].1@ == p)) by {
            assert forall|p: (int, int)| before.contains(p) implies
                exists|k: int| 0 <= k < i + 1 && (#[trigger] tiles@[k]).0 == level && tiles@[k].1@ == p by {
                let k = choose|k: int| 0 <= k < i && (#[trigger] tiles@[k]).0 == level && tiles@[k].1@ == p;
                assert(tiles@[k].0 == level);
            }
            assert forall|p: (int, int)| (exists|k: int| 0 <= k < i + 1 && (#[trigger] tiles@[k]).0 == level && tiles@[k].1@ == p)
                implies r@.contains(p) by {
                let k = choose|k: int| 0 <= k < i + 1 && (#[trigger] tiles@[k]).0 == level && tiles@[k].1@ == p;
                if k < i {
                    assert(before.contains(p));
                }
            }
        }
        i = i + 1;
    }
    assert(r@ =~= cells_of_level(tiles@, level));
    r
}

/// Splits wall tiles, each tagged with the level it belongs to, into one
/// occupancy set per level, so that no level's walls mix with another's.
/// Each level that some tile names comes once.
pub fn walls_by_level(tiles: &Vec<(u64, GridCoords)>) -> (r: Vec<(u64, OccupancySet)>)
    ensures
        forall|a: int, b: int| 0 <= a < r@.len() && 0 <= b < r@.len() && a != b
            ==> (#[trigger] r@[a]).0 != (#[trigger] r@[b]).0,
        forall|k: int| 0 <= k < r@.len() ==> {
            &&& (#[trigger] r@[k]).1.wf()
            &&& r@[k].1@ == cells_of_level(tiles@, r@[k].0)
            &&& has_level(tiles@, r@[k].0)
        },
        forall|i: int| 0 <= i < tiles@.len() ==> lists_level(r@, (#[trigger] tiles@[i]).0),
{
    let mut r: Vec<(u64, OccupancySet)> = Vec::new();
    let mut i: usize = 0;
    while i < tiles.len()
        invariant
            i <= tiles@.len(),
            forall|a: int, b: int| 0 <= a < r@.len() && 0 <= b < r@.len() && a != b
                ==> (#[trigger] r@[a]).0 != (#[trigger] r@[b]).0,
            forall|k: int| 0 <= k < r@.len() ==> {
                &&& (#[trigger] r@[k]).1.wf()
                &&& r@[k].1@ == cells_of_level(tiles@, r@[k].0)
                &&& has_level(tiles@, r@[k].0)
            },
            forall|j: int| 0 <= j < i ==> lists_level(r@, (#[trigger] tiles@[j]).0),
        decreases tiles@.len() - i,
    {
        let level = tiles[i].0;
        let mut seen = false;
        let mut k: usize = 0;
        while k < r.len()
            invariant
                k <= r@.len(),
                seen == exists|m: int| 0 <= m < k && (#[trigger] r@[m]).0 == level,
            decreases r@.len() - k,
        {
            if r[k].0 == level {
                seen = true;
            }
            k = k + 1;
        }
        if !seen {
            let cells = level_cells(tiles, level);
            let ghost before = r@;
            assert(has_level(tiles@, level)) by {
                assert(tiles@[i as int].0 == level);
            }
            r.push((level, cells));
            assert forall|j: int| 0 <= j < i + 1 implies lists_level(r@, (#[trigger] tiles@[j]).0) by {
                if j < i {
                    assert(lists_level(before, tiles@[j].0));
                    let k = choose|k: int| 0 <= k < before.len() && (#[trigger] before[k]).0 == tiles@[j].0;
                    assert(r@[k] == before[k]);
                } else {
                    assert(r@[r@.len() - 1].0 == level);
                }
            }
            assert forall|k: int| 0 <= k < r@.len() implies {
                &&& (#[trigger] r@[k]).1.wf()
                &&& r@[k].1@ == cells_of_level(tiles@, r@[k].0)
                &&& has_level(tiles@, r@[k].0)
            } by {
                if k < before.len() {
                    assert(r@[k] == before[k]);
                }
            }
        }
        i = i + 1;
    }
    r
}

} // verus!
