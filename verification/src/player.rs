//! The player's place in the level.

use crate::grid::{Direction, Pos};
use vstd::prelude::*;

verus! {

/// Where the player stands and which way the player looks.
pub struct Player {
    pub pos: Pos,
    pub facing: Direction,
}

impl Player {
    /// A player at `pos` who looks east.
    pub fn new(pos: Pos) -> (res: Self)
        ensures
            res.pos == pos,
            res.facing == Direction::East,
    {
        Player { pos, facing: Direction::East }
    }
}

} // verus!
