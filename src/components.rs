//! The game's plugin and component markers, and its grid size.
use vstd::prelude::*;

verus! {

/// Size of each grid cell of the map, in pixels.
pub const GRID_SIZE: i32 = 16;

/// Plugin that adds the player's systems.
#[derive(Clone, Copy, Debug, PartialEq, Eq, Structural, Default)]
pub struct PlayerPlugin;

/// Marks the player entity.
#[derive(Clone, Copy, Debug, PartialEq, Eq, Structural, Default)]
pub struct Player;

/// Plugin that adds the map's systems.
#[derive(Clone, Copy, Debug, PartialEq, Eq, Structural, Default)]
pub struct MapPlugin;

/// Marks a wall tile.
#[derive(Clone, Copy, Debug, PartialEq, Eq, Structural, Default)]
pub struct Wall;

/// The components of a wall tile.
#[derive(Clone, Copy, Debug, PartialEq, Eq, Structural, Default)]
pub struct WallBundle {
    pub wall: Wall,
}

/// Plugin that adds the spell-fire systems.
#[derive(Clone, Copy, Debug, PartialEq, Eq, Structural, Default)]
pub struct SpellFirePlugin;

/// Marks a spell-fire entity.
#[derive(Clone, Copy, Debug, PartialEq, Eq, Structural, Default)]
pub struct SpellFire;

} // verus!
