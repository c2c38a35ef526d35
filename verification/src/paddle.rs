//! Steering the paddle.

use vstd::prelude::*;
use crate::direction::{Direction, pull};

verus! {

/// The paddle, as far as the rules know it: the player steers it with two
/// keys, one for each way.
#[derive(Clone, Copy, Debug, PartialEq, Eq, Structural)]
pub struct Paddle;

impl Paddle {
    /// The way the paddle moves in this tick, from the state of the two
    /// keys. Each key pulls its own way, the left one towards the negative
    /// side, and the two together cancel.
    pub fn move_paddle(left_pressed: bool, right_pressed: bool) -> (d: Direction)
        ensures
            d.sign() == pull(right_pressed) - pull(left_pressed),
    {
        Direction::from_signs(left_pressed, right_pressed)
    }
}

} // verus!
