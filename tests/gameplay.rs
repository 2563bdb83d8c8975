use exterminator_wizard::animation::next_frame;
use exterminator_wizard::components::{Player, Wall, WallBundle};
use exterminator_wizard::input::{move_step, spell_direction, Direction};

#[test]
fn next_frame_cycles() {
    let frames = vec![136, 137, 138];
    assert_eq!(next_frame(&frames, 136), Some(137));
    assert_eq!(next_frame(&frames, 138), Some(136));
    // A frame not in the list counts as the first one.
    assert_eq!(next_frame(&frames, 5), Some(137));
    assert_eq!(next_frame(&vec![], 5), None);
    assert_eq!(next_frame(&vec![9], 9), Some(9));
    // The first occurrence decides.
    assert_eq!(next_frame(&vec![1, 2, 1, 3], 1), Some(2));
}

#[test]
fn move_step_from_keys() {
    assert_eq!(move_step(true, false, false, false), (0, 1));
    assert_eq!(move_step(false, true, false, false), (-1, 0));
    assert_eq!(move_step(false, false, true, true), (1, -1));
    assert_eq!(move_step(true, true, true, true), (0, 0));
}

#[test]
fn spell_direction_priority() {
    assert_eq!(spell_direction(true, true, true, true), Some(Direction::Up));
    assert_eq!(spell_direction(false, true, true, false), Some(Direction::Down));
    assert_eq!(spell_direction(false, false, true, true), Some(Direction::Left));
    assert_eq!(spell_direction(false, false, false, true), Some(Direction::Right));
    assert_eq!(spell_direction(false, false, false, false), None);
}

#[test]
fn markers_have_defaults() {
    assert_eq!(WallBundle::default(), WallBundle { wall: Wall });
    assert_eq!(Player::default(), Player);
}
