//! Add stairs between levels (entrances & exits).

use super::basic::{
    calc_shuffled_positions, count_neighbor_groups, count_neighbors, groups, marked, marks,
};
use super::tile::Terrain;
use crate::grid::{direction_at, Grid, Pos};
use crate::predicate::answers;
use rand_xoshiro::Xoshiro256StarStar;
use vstd::prelude::*;

verus! {

/// The rule that holds of wall.
pub open spec fn is_wall() -> spec_fn(Terrain) -> bool {
    |t: Terrain| t == Terrain::Wall
}

/// The rule that holds of an entrance.
pub open spec fn is_entrance() -> spec_fn(Terrain) -> bool {
    |t: Terrain| t == Terrain::Entrance
}

/// Whether stairs down can stand at `pos`: it is a wall with four walls
/// around it, all in one group, and no entrance among its neighbors.
pub open spec fn valid_exit(level: Grid<Terrain>, pos: Pos) -> bool {
    &&& level.spec_at(pos) == Terrain::Wall
    &&& groups(marks(level, pos, is_wall())) == 1
    &&& marked(marks(level, pos, is_wall()), 6) == 4
    &&& marked(marks(level, pos, is_entrance()), 6) == 0
}

/// Whether stairs up can stand at `pos`: it is a wall with four walls
/// around it, all in one group.
pub open spec fn valid_entrance(level: Grid<Terrain>, pos: Pos) -> bool {
    &&& level.spec_at(pos) == Terrain::Wall
    &&& groups(marks(level, pos, is_wall())) == 1
    &&& marked(marks(level, pos, is_wall()), 6) == 4
}

/// Whether every floor next to `pos` in `level` is a floor in `next_level` too.
pub open spec fn stairs_aligned(level: Grid<Terrain>, next_level: Grid<Terrain>, pos: Pos) -> bool {
    forall|i: int|
        0 <= i < 6 ==> !(level.spec_at(#[trigger] pos.spec_neighbor(direction_at(i)))
            == Terrain::Floor && next_level.spec_at(pos.spec_neighbor(direction_at(i)))
            != Terrain::Floor)
}

fn wall_groups(pos: Pos, level: &Grid<Terrain>) -> (res: i32)
    requires
        level.spec_inner(pos),
    ensures
        res == groups(marks(*level, pos, is_wall())),
{
    let wall = |t: Terrain| -> (r: bool)
        ensures
            r == (t == Terrain::Wall),
        { t == Terrain::Wall };
    let res = count_neighbor_groups(pos, level, wall);
    proof {
        assert(answers(wall, is_wall()));
    }
    res
}

fn wall_count(pos: Pos, level: &Grid<Terrain>) -> (res: usize)
    requires
        level.spec_inner(pos),
    ensures
        res == marked(marks(*level, pos, is_wall()), 6),
{
    let wall = |t: Terrain| -> (r: bool)
        ensures
            r == (t == Terrain::Wall),
        { t == Terrain::Wall };
    let res = count_neighbors(pos, level, wall);
    proof {
        assert(answers(wall, is_wall()));
    }
    res
}

fn entrance_count(pos: Pos, level: &Grid<Terrain>) -> (res: usize)
    requires
        level.spec_inner(pos),
    ensures
        res == marked(marks(*level, pos, is_entrance()), 6),
{
    let entrance = |t: Terrain| -> (r: bool)
        ensures
            r == (t == Terrain::Entrance),
        { t == Terrain::Entrance };
    let res = count_neighbors(pos, level, entrance);
    proof {
        assert(answers(entrance, is_entrance()));
    }
    res
}

/// Whether stairs down can stand at `pos`.
pub fn is_valid_exit(pos: Pos, level: &Grid<Terrain>) -> (res: bool)
    requires
        level.spec_inner(pos),
    ensures
        res == valid_exit(*level, pos),
{
    *level.get(pos) == Terrain::Wall && wall_groups(pos, level) == 1 && wall_count(pos, level) == 4
        && entrance_count(pos, level) == 0
}

/// Whether stairs up can stand at `pos`.
pub fn is_valid_entrance(pos: Pos, level: &Grid<Terrain>) -> (res: bool)
    requires
        level.spec_inner(pos),
    ensures
        res == valid_entrance(*level, pos),
{
    *level.get(pos) == Terrain::Wall && wall_groups(pos, level) == 1 && wall_count(pos, level) == 4
}

/// Whether every floor next to `pos` in `level` is a floor in `next_level` too.
pub fn is_stairs_aligned(pos: Pos, level: &Grid<Terrain>, next_level: &Grid<Terrain>) -> (res: bool)
    requires
        level.spec_inner(pos),
        next_level.same_size(*level),
    ensures
        res == stairs_aligned(*level, *next_level, pos),
{
    let neighbors = level.neighbors(pos);
    let mut i: usize = 0;
    while i < 6
        invariant
            i <= 6,
            neighbors@.len() == 6,
            next_level.same_size(*level),
            forall|j: int| 0 <= j < 6 ==> level.spec_contains(#[trigger] neighbors@[j]),
            forall|j: int|
                0 <= j < 6 ==> #[trigger] neighbors@[j] == pos.spec_neighbor(direction_at(j)),
            forall|j: int|
                0 <= j < i ==> !(level.spec_at(#[trigger] pos.spec_neighbor(direction_at(j)))
                    == Terrain::Floor && next_level.spec_at(pos.spec_neighbor(direction_at(j)))
                    != Terrain::Floor),
        decreases 6 - i,
    {
        let neighbor = neighbors[i];
        if *level.get(neighbor) == Terrain::Floor && *next_level.get(neighbor) != Terrain::Floor {
            proof {
                assert(neighbor == pos.spec_neighbor(direction_at(i as int)));
            }
            return false;
        }
        i += 1;
    }
    true
}

/// Whether stairs can lead down from `level` to `next_level` at `pos`.
pub open spec fn valid_stairs(level: Grid<Terrain>, next_level: Grid<Terrain>, pos: Pos) -> bool {
    valid_exit(level, pos) && valid_entrance(next_level, pos) && stairs_aligned(
        level,
        next_level,
        pos,
    )
}

/// Looks, in a random order, for a position at which stairs can lead down
/// from `level` to `next_level`. There is none only if no position inside
/// the levels will do.
pub fn find_stair_pos(
    level: &Grid<Terrain>,
    next_level: &Grid<Terrain>,
    rng: &mut Xoshiro256StarStar,
) -> (res: Option<Pos>)
    requires
        level.spec_width() >= 2,
        level.spec_height() >= 2,
        next_level.same_size(*level),
    ensures
        match res {
            Some(pos) => level.spec_inner(pos) && valid_stairs(*level, *next_level, pos),
            None => forall|pos: Pos|
                level.spec_inner(pos) ==> !#[trigger] valid_stairs(*level, *next_level, pos),
        },
{
    let positions = calc_shuffled_positions(level, rng);
    let mut k: usize = 0;
    while k < positions.len()
        invariant
            k <= positions@.len(),
            next_level.same_size(*level),
            forall|j: int| 0 <= j < positions@.len() ==> level.spec_inner(#[trigger] positions@[j]),
            forall|pos: Pos| level.spec_inner(pos) ==> #[trigger] positions@.contains(pos),
            forall|j: int|
                0 <= j < k ==> !valid_stairs(*level, *next_level, #[trigger] positions@[j]),
        decreases positions@.len() - k,
    {
        let pos = positions[k];
        if is_valid_exit(pos, level) && is_valid_entrance(pos, next_level) && is_stairs_aligned(
            pos,
            level,
            next_level,
        ) {
            return Some(pos);
        }
        k += 1;
    }
    proof {
        assert forall|pos: Pos| level.spec_inner(pos) implies !#[trigger] valid_stairs(
            *level,
            *next_level,
            pos,
        ) by {
            assert(positions@.contains(pos));
            let j = choose|j: int| 0 <= j < positions@.len() && positions@[j] == pos;
            assert(!valid_stairs(*level, *next_level, positions@[j]));
        }
    }
    None
}

/// Add an entrance to a basic level, at a position chosen at random among
/// those that will do. This is used for the first level only. Returns the
/// position, or nothing if no position inside the level will do.
pub fn generate_entrance(level: &mut Grid<Terrain>, rng: &mut Xoshiro256StarStar) -> (res: Option<
    Pos,
>)
    requires
        old(level).spec_width() >= 2,
        old(level).spec_height() >= 2,
    ensures
        final(level).same_size(*old(level)),
        match res {
            Some(pos) => {
                &&& old(level).spec_inner(pos)
                &&& valid_entrance(*old(level), pos)
                &&& final(level)@ == old(level)@.update(old(level).place(pos), Terrain::Entrance)
            },
            None => {
                &&& final(level)@ == old(level)@
                &&& forall|pos: Pos|
                    old(level).spec_inner(pos) ==> !#[trigger] valid_entrance(*old(level), pos)
            },
        },
{
    let positions = calc_shuffled_positions(level, rng);
    let mut k: usize = 0;
    while k < positions.len()
        invariant
            k <= positions@.len(),
            *level == *old(level),
            forall|j: int| 0 <= j < positions@.len() ==> level.spec_inner(#[trigger] positions@[j]),
            forall|pos: Pos| level.spec_inner(pos) ==> #[trigger] positions@.contains(pos),
            forall|j: int| 0 <= j < k ==> !valid_entrance(*level, #[trigger] positions@[j]),
        decreases positions@.len() - k,
    {
        let pos = positions[k];
        if is_valid_entrance(pos, level) {
            level.set(pos, Terrain::Entrance);
            return Some(pos);
        }
        k += 1;
    }
    proof {
        assert forall|pos: Pos| old(level).spec_inner(pos) implies !#[trigger] valid_entrance(
            *old(level),
            pos,
        ) by {
            assert(positions@.contains(pos));
            let j = choose|j: int| 0 <= j < positions@.len() && positions@[j] == pos;
            assert(!valid_entrance(*level, positions@[j]));
        }
    }
    None
}

} // verus!
