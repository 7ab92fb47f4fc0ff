//! The player's moves: the four directions and the jump counter that allows
//! one jump per window.
use vstd::prelude::*;

verus! {

/// The four directions a player walks in.
#[derive(Debug, Clone, Copy, PartialEq, Eq)]
pub enum Direction {
    UP,
    DOWN,
    RIGHT,
    LEFT,
}

/// What a press of the jump key gives: the new count of presses since the
/// player last stood on ground, and whether the player jumps.
pub open spec fn spec_press_jump(jump_number: u8, within_window: bool) -> (u8, bool) {
    ((jump_number + 1) as u8, within_window && jump_number + 1 < 2)
}

/// What a press of the jump key does: the count of presses since the player
/// last stood on ground goes up by one, and the jump is given when the press
/// comes within the jump window and is the first since landing.
pub fn press_jump(jump_number: u8, within_window: bool) -> (res: (u8, bool))
    requires
        jump_number < u8::MAX,
    ensures
        res == spec_press_jump(jump_number, within_window),
        res.0 == jump_number + 1,
{
    let count = jump_number + 1;
    (count, within_window && count < 2)
}

/// A jump is given only on the first press since landing, and only within the
/// window; once a press has been counted, no further press before landing
/// gives a jump.
pub proof fn law_one_jump_per_landing(jump_number: u8, first_window: bool, second_window: bool)
    requires
        jump_number < u8::MAX - 1,
    ensures
        spec_press_jump(jump_number, first_window).1 ==> jump_number == 0 && first_window,
        !spec_press_jump(spec_press_jump(jump_number, first_window).0, second_window).1,
{
}

} // verus!
