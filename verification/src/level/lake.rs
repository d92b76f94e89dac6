//! What water may cover.

use super::tile::Terrain;
use crate::grid::{Grid, Pos};
use vstd::prelude::*;

verus! {

/// Whether the terrain at `pos` counts for the size of the level: floor,
/// and the stairs up and down.
pub fn floodable(pos: Pos, level: &Grid<Terrain>) -> (res: bool)
    requires
        level.spec_contains(pos),
    ensures
        res == (level.spec_at(pos) == Terrain::Floor || level.spec_at(pos) == Terrain::Entrance
            || level.spec_at(pos) == Terrain::Exit),
{
    match *level.get(pos) {
        Terrain::Floor | Terrain::Entrance | Terrain::Exit => true,
        _ => false,
    }
}

} // verus!
