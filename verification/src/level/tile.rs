//! What a level is made of.

use crate::world::mob::{Mob, MobId};
use vstd::prelude::*;

verus! {

/// What lies at a position: the terrain, and the creature that stands on it.
#[derive(Copy, Clone)]
pub struct Tile {
    pub terrain: Terrain,
    pub mob_id: Option<MobId>,
}

/// The ground at a position.
#[derive(PartialEq, Eq, Structural, Debug, Copy, Clone)]
pub enum Terrain {
    Wall,
    Floor,
    ShortGrass,
    TallGrass,
    Brownberry,
    Exit,
    Entrance,
    Water,
    Chasm,
}

/// What the player knows of a position.
#[derive(PartialEq, Eq, Structural, Debug, Copy, Clone)]
pub enum TileView {
    Visible,
    Remembered(Terrain),
    Unseen,
}

impl Terrain {
    /// Whether a creature on foot can stand here.
    pub open spec fn spec_passable(self) -> bool {
        !(self == Terrain::Wall || self == Terrain::Entrance || self == Terrain::Exit || self
            == Terrain::Water)
    }

    /// Whether sight passes through.
    pub open spec fn spec_transparent(self) -> bool {
        !(self == Terrain::Wall || self == Terrain::TallGrass)
    }

    /// Whether a flying creature can be here.
    pub open spec fn spec_flyable(self) -> bool {
        !(self == Terrain::Wall || self == Terrain::Entrance || self == Terrain::Exit)
    }

    /// Whether a creature on foot can stand here.
    pub fn passable(self) -> (res: bool)
        ensures
            res == self.spec_passable(),
    {
        match self {
            Terrain::Wall | Terrain::Entrance | Terrain::Exit | Terrain::Water => false,
            _ => true,
        }
    }

    /// Whether sight passes through.
    pub fn transparent(self) -> (res: bool)
        ensures
            res == self.spec_transparent(),
    {
        match self {
            Terrain::Wall | Terrain::TallGrass => false,
            _ => true,
        }
    }

    /// Whether a flying creature can be here.
    pub fn flyable(self) -> (res: bool)
        ensures
            res == self.spec_flyable(),
    {
        match self {
            Terrain::Wall | Terrain::Entrance | Terrain::Exit => false,
            _ => true,
        }
    }

    /// Whether `mob` can move here: by flying if it can fly, else on foot.
    pub fn can_move(self, mob: &Mob) -> (res: bool)
        ensures
            res == (if mob.spec_can_fly() {
                self.spec_flyable()
            } else {
                self.spec_passable()
            }),
    {
        if mob.can_fly() {
            self.flyable()
        } else {
            self.passable()
        }
    }
}

impl TileView {
    /// Whether the position is in sight now.
    pub fn is_visible(&self) -> (res: bool)
        ensures
            res == (*self == TileView::Visible),
    {
        match self {
            TileView::Visible => true,
            _ => false,
        }
    }
}

} // verus!
