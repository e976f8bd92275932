//! Shared constants and the command vocabulary of the engine.
//!
//! All geometry is expressed in whole board cells: the grid origin is the
//! top-left corner and `y` grows downward.

use vstd::prelude::*;

verus! {

/// Number of distinct tetromino shapes.
pub const NUMBER_OF_SHAPES: u8 = 7;

/// Board width, in cells, of a standard game.
pub const DEFAULT_BOARD_WIDTH: i32 = 10;

/// Board height, in cells, of a standard game.
pub const DEFAULT_BOARD_HEIGHT: i32 = 22;

/// Number of fair groups the piece queue is seeded and refilled with.
pub const QUEUE_GROUPS: usize = 3;

/// Upper bound accepted for board width and height. It keeps every
/// coordinate and score computation comfortably inside the machine
/// integer types.
pub const MAX_BOARD_DIM: i32 = 1000;

/// Bound on the magnitude of any cell coordinate the piece operations
/// accept; it keeps the integer transforms free of overflow.
pub const COORD_LIMIT: i32 = 1000000;

/// One-cell movement of the active piece. `UP` is accepted as a command
/// but moves nothing: pieces never travel upward.
#[derive(Copy, Clone, PartialEq, Eq, Structural, Debug)]
pub enum Movement {
    UP,
    RIGHT,
    DOWN,
    LEFT,
}

/// Direction of a quarter-turn rotation.
#[derive(Copy, Clone, PartialEq, Eq, Structural, Debug)]
pub enum Rotation {
    CW,
    CCW,
}

} // verus!
