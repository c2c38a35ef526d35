//! The rules of a Breakout-style game, apart from the engine that draws and
//! runs it: how a ball turns when it meets a wall, the paddle or a block, how
//! the score follows the blocks it destroys, where the paddle is steered, and
//! how the score reads on screen.
//!
//! Nothing here holds a position or a speed. The engine measures; this crate
//! decides, on what the engine found: which side of a collider the ball met,
//! and which way the ball was going.

pub mod direction;
pub mod collision;
pub mod scoreboard;
pub mod ball;
pub mod paddle;
pub mod blocks;
