//! What the pressed keys ask for: a step of the player, a direction to cast.
use vstd::prelude::*;

verus! {

/// 1 for a pressed key, 0 for a released one.
pub open spec fn key_value(pressed: bool) -> int {
    if pressed { 1 } else { 0 }
}

/// The direction of the player's step, one unit per axis: up and right count
/// positive, down and left negative, and opposite keys cancel.
pub fn move_step(up: bool, left: bool, down: bool, right: bool) -> (r: (i32, i32))
    ensures
        r.0 == key_value(right) - key_value(left),
        r.1 == key_value(up) - key_value(down),
{
    let mut dx: i32 = 0;
    let mut dy: i32 = 0;
    if up {
        dy = dy + 1;
    }
    if left {
        dx = dx - 1;
    }
    if down {
        dy = dy - 1;
    }
    if right {
        dx = dx + 1;
    }
    (dx, dy)
}

/// A direction on the screen.
#[derive(Clone, Copy, Debug, PartialEq, Eq, Structural, Hash)]
pub enum Direction {
    Up,
    Down,
    Left,
    Right,
}

/// The direction in which to cast a spell given the keys just pressed: up
/// wins over down, down over left, left over right; `None` when none is.
pub fn spell_direction(up: bool, down: bool, left: bool, right: bool) -> (r: Option<Direction>)
    ensures
        up ==> r == Some(Direction::Up),
        !up && down ==> r == Some(Direction::Down),
        !up && !down && left ==> r == Some(Direction::Left),
        !up && !down && !left && right ==> r == Some(Direction::Right),
        !up && !down && !left && !right ==> r is None,
{
    if up {
        Some(Direction::Up)
    } else if down {
        Some(Direction::Down)
    } else if left {
        Some(Direction::Left)
    } else if right {
        Some(Direction::Right)
    } else {
        None
    }
}

} // verus!
