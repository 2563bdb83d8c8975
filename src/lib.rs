//! Wall geometry for a tile-based 2D game: the set of wall cells of a level,
//! the "is this cell blocked" query, and the consolidation of wall cells into
//! a small number of rectangles that a physics engine can take as colliders.
use vstd::prelude::*;

pub mod grid;
pub mod plates;
pub mod rects;
pub mod builder;
pub mod collider;
pub mod level;
pub mod components;
pub mod animation;
pub mod input;
