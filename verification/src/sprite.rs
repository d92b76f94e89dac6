//! Which picture stands for what.

use crate::level::tile::Terrain;
use crate::world::mob::{Mob, Species};
use vstd::prelude::*;

verus! {

/// A picture of the sprite sheet.
#[derive(PartialEq, Eq, Structural, Debug, Copy, Clone)]
pub enum Sprite {
    Wall,
    Floor,
    Player,
    Archer,
    ShortGrass,
    TallGrass,
    Brownberry,
    Entrance,
    Exit,
    Water,
    Chasm,
}

/// The picture of `terrain`.
pub open spec fn spec_sprite_from_terrain(terrain: Terrain) -> Sprite {
    match terrain {
        Terrain::Wall => Sprite::Wall,
        Terrain::Floor => Sprite::Floor,
        Terrain::ShortGrass => Sprite::ShortGrass,
        Terrain::TallGrass => Sprite::TallGrass,
        Terrain::Brownberry => Sprite::Brownberry,
        Terrain::Exit => Sprite::Exit,
        Terrain::Entrance => Sprite::Entrance,
        Terrain::Water => Sprite::Water,
        Terrain::Chasm => Sprite::Chasm,
    }
}

/// The picture of `terrain`.
pub fn sprite_from_terrain(terrain: Terrain) -> (res: Sprite)
    ensures
        res == spec_sprite_from_terrain(terrain),
{
    match terrain {
        Terrain::Wall => Sprite::Wall,
        Terrain::Floor => Sprite::Floor,
        Terrain::ShortGrass => Sprite::ShortGrass,
        Terrain::TallGrass => Sprite::TallGrass,
        Terrain::Brownberry => Sprite::Brownberry,
        Terrain::Exit => Sprite::Exit,
        Terrain::Entrance => Sprite::Entrance,
        Terrain::Water => Sprite::Water,
        Terrain::Chasm => Sprite::Chasm,
    }
}

/// The picture of `mob`: the hero is drawn as the player, every other
/// creature as an archer.
pub fn sprite_from_mob(mob: &Mob) -> (res: Sprite)
    ensures
        res == (if mob.species == Species::Hero {
            Sprite::Player
        } else {
            Sprite::Archer
        }),
{
    match mob.species {
        Species::Hero => Sprite::Player,
        _ => Sprite::Archer,
    }
}

} // verus!
