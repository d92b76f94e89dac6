//! Creatures and the names by which the game knows them.

use super::ai::AIState;
use crate::grid::{Direction, Pos};
use vstd::prelude::*;

verus! {

/// A creature.
pub struct Mob {
    pub pos: Pos,
    pub facing: Direction,
    pub species: Species,
    pub guard: u32,
    pub guard_recovery: u32,
    pub health: u32,
    pub alive: bool,
    pub path: Option<Vec<Pos>>,
    pub ai_state: AIState,
}

/// The name of a creature: the player, or the place of a creature among the others.
#[derive(PartialEq, Eq, Structural, Copy, Clone)]
pub struct MobId {
    inner: InnerMobId,
}

/// Every creature but the player.
pub struct Npcs {
    npcs: Vec<Mob>,
}

/// The player together with every other creature.
pub struct Mobs {
    pub player: Mob,
    pub npcs: Vec<Mob>,
}

/// The kind of a creature.
#[derive(PartialEq, Eq, Structural, Copy, Clone)]
pub enum Species {
    Hero,
    Bat,
    Rat,
}

#[derive(PartialEq, Eq, Structural, Copy, Clone)]
enum InnerMobId {
    Player,
    Npc(usize),
}

/// The health with which a creature of `species` begins.
pub open spec fn spec_mob_health(species: Species) -> u32 {
    match species {
        Species::Hero => 100,
        Species::Bat => 40,
        Species::Rat => 40,
    }
}

/// The guard with which a creature of `species` begins.
pub open spec fn spec_mob_guard(species: Species) -> u32 {
    match species {
        Species::Hero => 100,
        Species::Bat => 40,
        Species::Rat => 40,
    }
}

impl Mob {
    /// A creature of `species` at `pos`, hale and facing east.
    pub fn new(pos: Pos, species: Species, ai_state: AIState) -> (res: Self)
        ensures
            res.pos == pos,
            res.facing == Direction::East,
            res.species == species,
            res.guard == spec_mob_guard(species),
            res.guard_recovery == 0,
            res.health == spec_mob_health(species),
            res.alive,
            res.path is None,
            res.ai_state == ai_state,
    {
        Mob {
            pos,
            facing: Direction::East,
            species,
            guard: mob_guard(species),
            guard_recovery: 0,
            health: mob_health(species),
            alive: true,
            path: None,
            ai_state,
        }
    }

    /// Whether this creature flies.
    pub open spec fn spec_can_fly(&self) -> bool {
        self.species == Species::Bat
    }

    /// Whether this creature flies.
    pub fn can_fly(&self) -> (res: bool)
        ensures
            res == self.spec_can_fly(),
    {
        match self.species {
            Species::Bat => true,
            _ => false,
        }
    }
}

impl MobId {
    /// Whether this is the name of the player.
    pub closed spec fn spec_is_player(self) -> bool {
        self.inner == InnerMobId::Player
    }

    /// The place among the other creatures that this name stands for; it
    /// means nothing for the name of the player.
    pub closed spec fn place(self) -> int {
        match self.inner {
            InnerMobId::Player => 0,
            InnerMobId::Npc(index) => index as int,
        }
    }

    /// The name of the player.
    pub fn player() -> (res: Self)
        ensures
            res.spec_is_player(),
    {
        MobId { inner: InnerMobId::Player }
    }

    /// Whether this is the name of the player.
    pub fn is_player(&self) -> (res: bool)
        ensures
            res == self.spec_is_player(),
    {
        match self.inner {
            InnerMobId::Player => true,
            InnerMobId::Npc(_) => false,
        }
    }

    fn new(index: usize) -> (res: Self)
        ensures
            !res.spec_is_player(),
            res.place() == index,
    {
        MobId { inner: InnerMobId::Npc(index) }
    }

    /// The place among the other creatures that this name stands for, or
    /// nothing for the name of the player.
    pub fn index(&self) -> (res: Option<usize>)
        ensures
            res == (if self.spec_is_player() {
                None
            } else {
                Some(self.place() as usize)
            }),
    {
        match self.inner {
            InnerMobId::Player => None,
            InnerMobId::Npc(index) => Some(index),
        }
    }
}

impl View for Npcs {
    type V = Seq<Mob>;

    closed spec fn view(&self) -> Seq<Mob> {
        self.npcs@
    }
}

impl Npcs {
    /// No creatures.
    pub fn new() -> (res: Self)
        ensures
            res@ == Seq::<Mob>::empty(),
    {
        Npcs { npcs: Vec::new() }
    }

    /// Adds a creature and returns the name that it goes by from now on.
    pub fn insert(&mut self, mob: Mob) -> (id: MobId)
        ensures
            final(self)@ == old(self)@.push(mob),
            !id.spec_is_player(),
            id.place() == old(self)@.len(),
    {
        let id = MobId::new(self.npcs.len());
        self.npcs.push(mob);
        id
    }

    /// The creature that goes by the name `id`.
    pub fn get(&self, id: MobId) -> (res: &Mob)
        requires
            !id.spec_is_player(),
            id.place() < self@.len(),
        ensures
            *res == self@[id.place()],
    {
        match id.inner {
            InnerMobId::Player => &self.npcs[0],
            InnerMobId::Npc(index) => &self.npcs[index],
        }
    }
}

impl Mobs {
    /// The player and the other creatures.
    pub fn new(player: Mob, npcs: Vec<Mob>) -> (res: Self)
        ensures
            res.player == player,
            res.npcs == npcs,
    {
        Mobs { player, npcs }
    }

    /// Adds a creature and returns the name that it goes by from now on.
    pub fn insert(&mut self, npc: Mob) -> (id: MobId)
        ensures
            final(self).npcs@ == old(self).npcs@.push(npc),
            final(self).player == old(self).player,
            !id.spec_is_player(),
            id.place() == old(self).npcs@.len(),
    {
        let id = MobId::new(self.npcs.len());
        self.npcs.push(npc);
        id
    }

    /// The creature that goes by the name `id`.
    pub fn get(&self, id: MobId) -> (res: &Mob)
        requires
            id.spec_is_player() || id.place() < self.npcs@.len(),
        ensures
            *res == (if id.spec_is_player() {
                self.player
            } else {
                self.npcs@[id.place()]
            }),
    {
        match id.inner {
            InnerMobId::Player => &self.player,
            InnerMobId::Npc(index) => &self.npcs[index],
        }
    }
}

/// The health with which a creature of `species` begins.
pub fn mob_health(species: Species) -> (res: u32)
    ensures
        res == spec_mob_health(species),
{
    match species {
        Species::Hero => 100,
        Species::Bat => 40,
        Species::Rat => 40,
    }
}

/// The guard with which a creature of `species` begins.
pub fn mob_guard(species: Species) -> (res: u32)
    ensures
        res == spec_mob_guard(species),
{
    match species {
        Species::Hero => 100,
        Species::Bat => 40,
        Species::Rat => 40,
    }
}

} // verus!
