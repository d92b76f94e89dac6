//! Generate a connected level of only wall and floor tiles.

use super::edge::{holds_on_edge, lemma_edge_is_long, on_edge};
use super::joined::{joined_floors, lemma_cave_filled, lemma_component_floors};
use super::tile::Terrain;
use crate::floodfill::flood;
use crate::grid::dense::{lemma_inner_listed, spec_col, spec_inner_positions, spec_row, MAX_SIDE};
use crate::grid::{direction_at, Grid, Pos};
use crate::posset::PosSet;
use crate::predicate::{
    answers, component, connected, lemma_component_apart, lemma_component_closed,
    lemma_connected_satisfies, lemma_connected_self, lemma_same_component, total,
};
use crate::util::self_zip;
use rand::seq::SliceRandom;
use rand_xoshiro::Xoshiro256StarStar;
use vstd::prelude::*;

verus! {

/// How many of `cells` are floor.
pub open spec fn floors(cells: Seq<Terrain>) -> nat
    decreases cells.len(),
{
    if cells.len() == 0 {
        0
    } else {
        floors(cells.drop_last()) + if cells.last() == Terrain::Floor {
            1nat
        } else {
            0nat
        }
    }
}

/// Turning one floor into something else leaves one floor fewer.
pub proof fn lemma_floor_lost(cells: Seq<Terrain>, i: int, terrain: Terrain)
    requires
        0 <= i < cells.len(),
        cells[i] == Terrain::Floor,
        terrain != Terrain::Floor,
    ensures
        floors(cells.update(i, terrain)) + 1 == floors(cells),
    decreases cells.len(),
{
    let changed = cells.update(i, terrain);
    if i == cells.len() - 1 {
        assert(changed.drop_last() =~= cells.drop_last());
    } else {
        lemma_floor_lost(cells.drop_last(), i, terrain);
        assert(changed.drop_last() =~= cells.drop_last().update(i, terrain));
    }
}

/// What `rule` says of the values at the six neighbors of `pos`, in the
/// order of the directions.
pub open spec fn marks<T>(grid: Grid<T>, pos: Pos, rule: spec_fn(T) -> bool) -> Seq<bool> {
    Seq::new(6, |i: int| rule(grid.spec_at(pos.spec_neighbor(direction_at(i)))))
}

/// How many of the first `n` neighbors are marked with the next one around
/// the position not marked.
pub open spec fn falls(marks: Seq<bool>, n: int) -> int
    decreases n,
{
    if n <= 0 {
        0
    } else {
        falls(marks, n - 1) + if marks[n - 1] && !marks[n % 6] {
            1int
        } else {
            0int
        }
    }
}

/// How many of the first `n` neighbors are marked.
pub open spec fn marked(marks: Seq<bool>, n: int) -> int
    decreases n,
{
    if n <= 0 {
        0
    } else {
        marked(marks, n - 1) + if marks[n - 1] {
            1int
        } else {
            0int
        }
    }
}

/// Into how many groups the marked neighbors fall: the number of places
/// around the position where a group ends, or one where all six are marked.
pub open spec fn groups(marks: Seq<bool>) -> int {
    if falls(marks, 6) > 0 {
        falls(marks, 6)
    } else if marks[0] {
        1
    } else {
        0
    }
}

/// The rule that holds of floor.
pub open spec fn is_floor() -> spec_fn(Terrain) -> bool {
    |t: Terrain| t == Terrain::Floor
}

/// Whether all that lies on the edge of `grid` is wall.
pub open spec fn walled(grid: Grid<Terrain>) -> bool {
    forall|pos: Pos|
        grid.spec_contains(pos) && !grid.spec_inner(pos) ==> #[trigger] grid.spec_at(pos)
            == Terrain::Wall
}

/// Whether `pos` is a floor with a single group of floors around it.
pub open spec fn spec_is_cave(grid: Grid<Terrain>, pos: Pos) -> bool {
    grid.spec_at(pos) == Terrain::Floor && groups(marks(grid, pos, is_floor())) == 1
}

/// Whether `pos` is a cave with no cave next to it.
pub open spec fn spec_is_dead_end(grid: Grid<Terrain>, pos: Pos) -> bool {
    spec_is_cave(grid, pos) && forall|i: int|
        0 <= i < 6 ==> !spec_is_cave(grid, #[trigger] pos.spec_neighbor(direction_at(i)))
}

/// Counts the groups into which the neighbors that `predicate` holds of
/// fall around `pos`.
pub fn count_neighbor_groups<T: Copy, F: Fn(T) -> bool>(pos: Pos, grid: &Grid<T>, predicate: F) -> (res:
    i32)
    requires
        total(predicate),
        grid.spec_inner(pos),
    ensures
        forall|rule: spec_fn(T) -> bool| #[trigger]
            answers(predicate, rule) ==> res == groups(marks(*grid, pos, rule)),
{
    let mut group_count: i32 = 0;
    let neighbors = grid.neighbors(pos);
    let neighbor_pairs = self_zip(neighbors.as_slice());
    let mut i: usize = 0;
    while i < 6
        invariant
            total(predicate),
            i <= 6,
            0 <= group_count <= i,
            neighbor_pairs@.len() == 6,
            neighbors@.len() == 6,
            forall|j: int| 0 <= j < 6 ==> grid.spec_contains(#[trigger] neighbors@[j]),
            forall|j: int|
                0 <= j < 6 ==> #[trigger] neighbors@[j] == pos.spec_neighbor(direction_at(j)),
            forall|j: int|
                0 <= j < 6 ==> #[trigger] neighbor_pairs@[j] == (
                    neighbors@[j],
                    neighbors@[(j + 1) % 6],
                ),
            forall|rule: spec_fn(T) -> bool| #[trigger]
                answers(predicate, rule) ==> group_count == falls(
                    marks(*grid, pos, rule),
                    i as int,
                ),
        decreases 6 - i,
    {
        let (curr_pos, next_pos) = neighbor_pairs[i];
        proof {
            assert(neighbor_pairs@[i as int] == (neighbors@[i as int], neighbors@[(i + 1) % 6]));
            assert(grid.spec_contains(neighbors@[(i + 1) % 6]));
        }
        let here = predicate(*grid.get(curr_pos));
        let there = predicate(*grid.get(next_pos));
        let ghost before = group_count;
        if here && !there {
            group_count += 1;
        }
        proof {
            assert forall|rule: spec_fn(T) -> bool| #[trigger]
                answers(predicate, rule) implies group_count == falls(
                marks(*grid, pos, rule),
                i + 1,
            ) by {
                let m = marks(*grid, pos, rule);
                assert(m[i as int] == here);
                assert(m[(i + 1) % 6] == there);
                assert(before == falls(m, i as int));
            }
        }
        i += 1;
    }
    if group_count > 0 {
        group_count
    } else {
        let first = predicate(*grid.get(neighbors[0]));
        proof {
            assert forall|rule: spec_fn(T) -> bool| #[trigger]
                answers(predicate, rule) implies first == marks(*grid, pos, rule)[0] by {
            }
        }
        if first {
            1
        } else {
            0
        }
    }
}

/// Counts the groups into which the floors fall around `pos`.
pub fn count_floor_groups(pos: Pos, grid: &Grid<Terrain>) -> (res: i32)
    requires
        grid.spec_inner(pos),
    ensures
        res == groups(marks(*grid, pos, is_floor())),
{
    let floor = |terrain: Terrain| -> (r: bool)
        ensures
            r == (terrain == Terrain::Floor),
        { terrain == Terrain::Floor };
    let res = count_neighbor_groups(pos, grid, floor);
    proof {
        assert(answers(floor, is_floor()));
    }
    res
}

/// Counts the neighbors of `pos` that `predicate` holds of.
pub fn count_neighbors<T: Copy, F: Fn(T) -> bool>(pos: Pos, level: &Grid<T>, predicate: F) -> (res:
    usize)
    requires
        total(predicate),
        level.spec_inner(pos),
    ensures
        forall|rule: spec_fn(T) -> bool| #[trigger]
            answers(predicate, rule) ==> res == marked(marks(*level, pos, rule), 6),
{
    let neighbors = level.neighbors(pos);
    let mut count: usize = 0;
    let mut i: usize = 0;
    while i < 6
        invariant
            total(predicate),
            i <= 6,
            count <= i,
            neighbors@.len() == 6,
            forall|j: int| 0 <= j < 6 ==> level.spec_contains(#[trigger] neighbors@[j]),
            forall|j: int|
                0 <= j < 6 ==> #[trigger] neighbors@[j] == pos.spec_neighbor(direction_at(j)),
            forall|rule: spec_fn(T) -> bool| #[trigger]
                answers(predicate, rule) ==> count == marked(marks(*level, pos, rule), i as int),
        decreases 6 - i,
    {
        let here = predicate(*level.get(neighbors[i]));
        let ghost before = count;
        if here {
            count += 1;
        }
        proof {
            assert forall|rule: spec_fn(T) -> bool| #[trigger]
                answers(predicate, rule) implies count == marked(
                marks(*level, pos, rule),
                i + 1,
            ) by {
                let m = marks(*level, pos, rule);
                assert(m[i as int] == here);
                assert(before == marked(m, i as int));
            }
        }
        i += 1;
    }
    count
}

/// Whether `pos` is a floor with a single group of floors around it.
pub fn is_cave(pos: Pos, grid: &Grid<Terrain>) -> (res: bool)
    requires
        grid.spec_contains(pos),
        walled(*grid),
    ensures
        res == spec_is_cave(*grid, pos),
{
    match *grid.get(pos) {
        Terrain::Floor => count_floor_groups(pos, grid) == 1,
        _ => false,
    }
}

/// Whether `pos` is a cave with no cave next to it.
pub fn is_dead_end(pos: Pos, grid: &Grid<Terrain>) -> (res: bool)
    requires
        grid.spec_contains(pos),
        walled(*grid),
    ensures
        res == spec_is_dead_end(*grid, pos),
{
    if !is_cave(pos, grid) {
        return false;
    }
    let neighbors = grid.neighbors(pos);
    let mut i: usize = 0;
    while i < 6
        invariant
            i <= 6,
            walled(*grid),
            neighbors@.len() == 6,
            forall|j: int| 0 <= j < 6 ==> grid.spec_contains(#[trigger] neighbors@[j]),
            forall|j: int|
                0 <= j < 6 ==> #[trigger] neighbors@[j] == pos.spec_neighbor(direction_at(j)),
            forall|j: int|
                0 <= j < i ==> !spec_is_cave(*grid, #[trigger] pos.spec_neighbor(direction_at(j))),
        decreases 6 - i,
    {
        if is_cave(neighbors[i], grid) {
            proof {
                assert(spec_is_cave(*grid, pos.spec_neighbor(direction_at(i as int))));
            }
            return false;
        }
        i += 1;
    }
    true
}

/// Whether `after` is `before` with some floors turned into walls.
pub open spec fn filled(before: Grid<Terrain>, after: Grid<Terrain>) -> bool {
    &&& after.same_size(before)
    &&& floors(after@) <= floors(before@)
    &&& forall|q: Pos|
        before.spec_contains(q) ==> #[trigger] after.spec_at(q) == before.spec_at(q) || (
        before.spec_at(q) == Terrain::Floor && after.spec_at(q) == Terrain::Wall)
}

/// Whether `after` is `before` with `terrain` at `pos`.
pub open spec fn put(
    before: Grid<Terrain>,
    after: Grid<Terrain>,
    pos: Pos,
    terrain: Terrain,
) -> bool {
    after.same_size(before) && after@ == before@.update(before.place(pos), terrain)
}

/// Whether `after` holds what `before` holds.
pub open spec fn kept<T>(before: Grid<T>, after: Grid<T>) -> bool {
    after.same_size(before) && after@ == before@
}

/// Whether `after` is what filling the dead ends from `pos` on makes of
/// `before`: nothing changes unless `pos` is a dead end; a dead end is
/// turned into wall, and then the dead ends are filled from each of its six
/// neighbors on, in the order of the directions. `steps` holds the level
/// as it stands before each of the six neighbors is taken up, and at the end.
pub open spec fn drained(before: Grid<Terrain>, after: Grid<Terrain>, pos: Pos) -> bool
    decreases floors(before@),
{
    if spec_is_dead_end(before, pos) {
        exists|steps: Seq<Grid<Terrain>>|
            {
                &&& steps.len() == 7
                &&& #[trigger] put(before, steps[0], pos, Terrain::Wall)
                &&& steps[6] == after
                &&& forall|i: int|
                    0 <= i < 6 ==> floors((#[trigger] steps[i])@) < floors(before@) && drained(
                        steps[i],
                        steps[i + 1],
                        pos.spec_neighbor(direction_at(i)),
                    )
            }
    } else {
        kept(before, after)
    }
}

/// Turns `pos` into wall if it is a dead end, and then does the same for
/// each of its neighbors.
fn fill_dead_end(pos: Pos, grid: &mut Grid<Terrain>)
    requires
        old(grid).spec_contains(pos),
        walled(*old(grid)),
        old(grid).spec_width() <= MAX_SIDE,
        old(grid).spec_height() <= MAX_SIDE,
    ensures
        drained(*old(grid), *final(grid), pos),
        walled(*final(grid)),
        filled(*old(grid), *final(grid)),
        joined_floors(*old(grid)) ==> joined_floors(*final(grid)),
    decreases floors(old(grid)@),
{
    if is_dead_end(pos, grid) {
        grid.set(pos, Terrain::Wall);
        let ghost walled_up = *grid;
        let ghost mut steps: Seq<Grid<Terrain>> = seq![walled_up];
        proof {
            lemma_floor_lost(old(grid)@, old(grid).place(pos), Terrain::Wall);
            if joined_floors(*old(grid)) {
                lemma_cave_filled(*old(grid), walled_up, pos);
            }
        }
        let neighbors = grid.neighbors(pos);
        let mut i: usize = 0;
        while i < 6
            invariant
                i <= 6,
                neighbors@.len() == 6,
                forall|j: int| 0 <= j < 6 ==> walled_up.spec_contains(#[trigger] neighbors@[j]),
                forall|j: int|
                    0 <= j < 6 ==> #[trigger] neighbors@[j] == pos.spec_neighbor(direction_at(j)),
                walled(*grid),
                filled(walled_up, *grid),
                filled(*old(grid), walled_up),
                floors(walled_up@) < floors(old(grid)@),
                joined_floors(*old(grid)) ==> joined_floors(*grid),
                grid.spec_width() <= MAX_SIDE,
                grid.spec_height() <= MAX_SIDE,
                steps.len() == i + 1,
                steps[0] == walled_up,
                steps[i as int] == *grid,
                forall|j: int|
                    0 <= j < i ==> floors((#[trigger] steps[j])@) < floors(old(grid)@) && drained(
                        steps[j],
                        steps[j + 1],
                        pos.spec_neighbor(direction_at(j)),
                    ),
            decreases 6 - i,
        {
            let ghost before = *grid;
            fill_dead_end(neighbors[i], grid);
            proof {
                assert forall|q: Pos| walled_up.spec_contains(q) implies #[trigger] grid.spec_at(q)
                    == walled_up.spec_at(q) || (walled_up.spec_at(q) == Terrain::Floor
                    && grid.spec_at(q) == Terrain::Wall) by {
                    assert(before.spec_at(q) == walled_up.spec_at(q) || (walled_up.spec_at(q)
                        == Terrain::Floor && before.spec_at(q) == Terrain::Wall));
                }
                let ghost earlier = steps;
                steps = steps.push(*grid);
                assert forall|j: int| 0 <= j < i + 1 implies floors((#[trigger] steps[j])@)
                    < floors(old(grid)@) && drained(
                    steps[j],
                    steps[j + 1],
                    pos.spec_neighbor(direction_at(j)),
                ) by {
                    if j < i {
                        assert(floors(earlier[j]@) < floors(old(grid)@));
                        assert(steps[j + 1] == earlier[j + 1]);
                    } else {
                        assert(steps[j] == before);
                        assert(steps[j + 1] == *grid);
                    }
                }
            }
            i += 1;
        }
        proof {
            assert forall|q: Pos| old(grid).spec_contains(q) implies #[trigger] grid.spec_at(q)
                == old(grid).spec_at(q) || (old(grid).spec_at(q) == Terrain::Floor && grid.spec_at(
                q,
            ) == Terrain::Wall) by {
                assert(walled_up.spec_at(q) == old(grid).spec_at(q) || (old(grid).spec_at(q)
                    == Terrain::Floor && walled_up.spec_at(q) == Terrain::Wall));
            }
            assert(put(*old(grid), steps[0], pos, Terrain::Wall));
        }
    }
}

/// Whether `after` is `before` with `pos` turned into floor, unless `pos`
/// had a single group of floors around it: then nothing has changed.
pub open spec fn carved_at(before: Grid<Terrain>, after: Grid<Terrain>, pos: Pos) -> bool {
    if groups(marks(before, pos, is_floor())) != 1 {
        put(before, after, pos, Terrain::Floor)
    } else {
        kept(before, after)
    }
}

/// Whether `after` is what carving at each of `positions`, in turn, makes
/// of `before`.
pub open spec fn carved(before: Grid<Terrain>, after: Grid<Terrain>, positions: Seq<Pos>) -> bool
    decreases positions.len(),
{
    if positions.len() == 0 {
        kept(before, after)
    } else {
        exists|mid: Grid<Terrain>|
            carved(before, mid, positions.drop_last()) && #[trigger] carved_at(
                mid,
                after,
                positions.last(),
            )
    }
}

/// Turns into floor each of `positions`, in turn, that does not have a
/// single group of floors around it.
fn carve_caves(positions: &Vec<Pos>, grid: &mut Grid<Terrain>)
    requires
        walled(*old(grid)),
        forall|k: int| 0 <= k < positions@.len() ==> old(grid).spec_inner(#[trigger] positions@[k]),
    ensures
        carved(*old(grid), *final(grid), positions@),
        walled(*final(grid)),
        final(grid).same_size(*old(grid)),
{
    let mut k: usize = 0;
    while k < positions.len()
        invariant
            k <= positions@.len(),
            walled(*grid),
            grid.same_size(*old(grid)),
            carved(*old(grid), *grid, positions@.take(k as int)),
            forall|j: int|
                0 <= j < positions@.len() ==> old(grid).spec_inner(#[trigger] positions@[j]),
        decreases positions@.len() - k,
    {
        let pos = positions[k];
        let ghost mid = *grid;
        if count_floor_groups(pos, grid) != 1 {
            grid.set(pos, Terrain::Floor);
        }
        proof {
            let done = positions@.take(k + 1);
            assert(done.drop_last() =~= positions@.take(k as int));
            assert(done.last() == pos);
            assert(carved(*old(grid), mid, done.drop_last()) && carved_at(mid, *grid, done.last()));
        }
        k += 1;
    }
    proof {
        assert(positions@.take(k as int) =~= positions@);
    }
}

/// The rule that holds of the positions of `grid` at which `terrain` lies.
pub open spec fn lies_at(grid: Grid<Terrain>, terrain: Terrain) -> spec_fn(Pos) -> bool {
    |p: Pos| grid.spec_contains(p) && grid.spec_at(p) == terrain
}

/// The positions of `grid` that a chain of neighboring positions with the
/// same terrain joins to `pos`.
fn flood_terrain(pos: Pos, terrain: Terrain, grid: &Grid<Terrain>) -> (res: PosSet)
    ensures
        res@ == component(lies_at(*grid, terrain), pos),
        forall|p: Pos| #[trigger]
            res@.contains(p) ==> grid.spec_contains(p) && grid.spec_at(p) == terrain
                && p.in_bounds(),
{
    let same = |p: Pos| -> (r: bool)
        ensures
            r == (grid.spec_contains(p) && grid.spec_at(p) == terrain),
            r ==> p.in_bounds(),
        { grid.contains(p) && *grid.get(p) == terrain };
    let res = flood(pos, same);
    proof {
        assert(answers(same, lies_at(*grid, terrain)));
        assert forall|p: Pos| #[trigger] res@.contains(p) implies grid.spec_contains(p)
            && grid.spec_at(p) == terrain && p.in_bounds() by {
            lemma_connected_satisfies(lies_at(*grid, terrain), pos, p);
        }
    }
    res
}

/// Remove all but the largest group of floor tiles.
fn remove_isolated_floors(grid: &mut Grid<Terrain>)
    requires
        walled(*old(grid)),
        2 <= old(grid).spec_width() <= MAX_SIDE,
        2 <= old(grid).spec_height() <= MAX_SIDE,
    ensures
        walled(*final(grid)),
        final(grid).same_size(*old(grid)),
        joined_floors(*final(grid)),
{
    let mut largest_floor_set = PosSet::new();
    let ghost mut source = *grid;
    let ghost mut start = Pos { x: 0, y: 0 };
    let positions = grid.inner_positions();
    let mut k: usize = 0;
    while k < positions.len()
        invariant
            k <= positions@.len(),
            walled(*grid),
            grid.same_size(*old(grid)),
            source.same_size(*grid),
            positions@ == spec_inner_positions(grid.spec_width(), grid.spec_height()),
            forall|j: int| 0 <= j < positions@.len() ==> grid.spec_contains(#[trigger] positions@[j]),
            forall|j: int| 0 <= j < k ==> grid.spec_at(#[trigger] positions@[j]) != Terrain::Floor,
            forall|p: Pos| #[trigger] largest_floor_set@.contains(p) ==> grid.spec_inner(p),
            largest_floor_set@ == Set::<Pos>::empty() || largest_floor_set@ == component(
                lies_at(source, Terrain::Floor),
                start,
            ),
        decreases positions@.len() - k,
    {
        let pos = positions[k];
        if *grid.get(pos) == Terrain::Floor {
            let floor_set = flood_terrain(pos, Terrain::Floor, grid);
            let ghost flooded_from = *grid;
            let members = floor_set.positions();
            proof {
                assert forall|j: int| 0 <= j < members@.len() implies flooded_from.spec_inner(
                    #[trigger] members@[j],
                ) by {
                    assert(members@.contains(members@[j]));
                    assert(floor_set@.contains(members@[j]));
                }
            }
            let mut m: usize = 0;
            while m < members.len()
                invariant
                    m <= members@.len(),
                    walled(*grid),
                    grid.same_size(*old(grid)),
                    grid.same_size(flooded_from),
                    forall|j: int|
                        0 <= j < members@.len() ==> flooded_from.spec_inner(#[trigger] members@[j]),
                    forall|j: int| 0 <= j < m ==> grid.spec_at(#[trigger] members@[j]) != Terrain::Floor,
                    forall|q: Pos|
                        grid.spec_contains(q) && #[trigger] grid.spec_at(q) == Terrain::Floor
                            ==> flooded_from.spec_at(q) == Terrain::Floor,
                decreases members@.len() - m,
            {
                grid.set(members[m], Terrain::Wall);
                m += 1;
            }
            proof {
                lemma_component_closed(lies_at(flooded_from, Terrain::Floor), pos);
                assert(floor_set@.contains(pos));
                assert(members@.to_set().contains(pos));
                let j = choose|j: int| 0 <= j < members@.len() && members@[j] == pos;
                assert(grid.spec_at(members@[j]) != Terrain::Floor);
            }
            if floor_set.len() > largest_floor_set.len() {
                largest_floor_set = floor_set;
                proof {
                    source = flooded_from;
                    start = pos;
                }
            }
        }
        k += 1;
    }
    let ghost cleared = *grid;
    let members = largest_floor_set.positions();
    proof {
        assert forall|j: int| 0 <= j < members@.len() implies grid.spec_inner(
            #[trigger] members@[j],
        ) by {
            assert(members@.contains(members@[j]));
            assert(largest_floor_set@.contains(members@[j]));
        }
        assert forall|q: Pos| grid.spec_contains(q) implies #[trigger] grid.spec_at(q)
            != Terrain::Floor by {
            if grid.spec_inner(q) {
                let j = lemma_inner_listed(q, grid.spec_width(), grid.spec_height());
                assert(grid.spec_at(positions@[j]) != Terrain::Floor);
            }
        }
    }
    let mut m: usize = 0;
    while m < members.len()
        invariant
            m <= members@.len(),
            walled(*grid),
            grid.same_size(*old(grid)),
            grid.same_size(cleared),
            forall|j: int| 0 <= j < members@.len() ==> grid.spec_inner(#[trigger] members@[j]),
            forall|j: int| 0 <= j < m ==> grid.spec_at(#[trigger] members@[j]) == Terrain::Floor,
            forall|q: Pos|
                grid.spec_contains(q) && #[trigger] grid.spec_at(q) == Terrain::Floor
                    ==> members@.contains(q),
        decreases members@.len() - m,
    {
        grid.set(members[m], Terrain::Floor);
        m += 1;
    }
    proof {
        let rule = lies_at(source, Terrain::Floor);
        assert forall|q: Pos| #[trigger]
            largest_floor_set@.contains(q) <==> lies_at(*grid, Terrain::Floor)(q) by {
            if largest_floor_set@.contains(q) {
                assert(members@.to_set().contains(q));
                let j = choose|j: int| 0 <= j < members@.len() && members@[j] == q;
                assert(grid.spec_at(members@[j]) == Terrain::Floor);
                assert(grid.spec_inner(members@[j]));
            }
            if lies_at(*grid, Terrain::Floor)(q) {
                assert(members@.contains(q));
                assert(members@.to_set().contains(q));
            }
        }
        if largest_floor_set@ == Set::<Pos>::empty() {
            assert forall|a: Pos, b: Pos| #[trigger]
                lies_at(*grid, Terrain::Floor)(a) && #[trigger] lies_at(*grid, Terrain::Floor)(
                    b,
                ) implies connected(lies_at(*grid, Terrain::Floor), a, b) by {
                assert(largest_floor_set@.contains(a));
            }
        } else {
            lemma_component_floors(*grid, rule, start);
        }
    }
}

/// The rule that holds of the caves of `grid` that are not marked in `visited`.
pub open spec fn unseen_cave(grid: Grid<Terrain>, visited: Grid<bool>) -> spec_fn(Pos) -> bool {
    |p: Pos| grid.spec_contains(p) && !visited.spec_at(p) && spec_is_cave(grid, p)
}

/// The caves of `grid`, not marked in `visited`, that a chain of such caves
/// joins to `pos`.
pub fn flood_caves(pos: Pos, grid: &Grid<Terrain>, visited: &Grid<bool>) -> (res: PosSet)
    requires
        walled(*grid),
        visited.same_size(*grid),
    ensures
        res@ == component(unseen_cave(*grid, *visited), pos),
        forall|p: Pos| #[trigger] res@.contains(p) ==> grid.spec_contains(p) && p.in_bounds(),
{
    let unseen = |p: Pos| -> (r: bool)
        ensures
            r == (grid.spec_contains(p) && !visited.spec_at(p) && spec_is_cave(*grid, p)),
            r ==> p.in_bounds(),
        { grid.contains(p) && !*visited.get(p) && is_cave(p, grid) };
    let res = flood(pos, unseen);
    proof {
        assert(answers(unseen, unseen_cave(*grid, *visited)));
        assert forall|p: Pos| #[trigger] res@.contains(p) implies grid.spec_contains(p)
            && p.in_bounds() by {
            lemma_connected_satisfies(unseen_cave(*grid, *visited), pos, p);
        }
    }
    res
}

/// Whether `after` is what filling the dead ends from each of `order` on,
/// in turn, makes of `before`.
pub open spec fn drained_all(before: Grid<Terrain>, after: Grid<Terrain>, order: Seq<Pos>) -> bool
    decreases order.len(),
{
    if order.len() == 0 {
        kept(before, after)
    } else {
        exists|mid: Grid<Terrain>|
            drained_all(before, mid, order.drop_last()) && #[trigger] drained(
                mid,
                after,
                order.last(),
            )
    }
}

/// Whether `after` is `before` with the positions of `group` marked too.
pub open spec fn marked_off(before: Grid<bool>, after: Grid<bool>, group: Set<Pos>) -> bool {
    &&& after.same_size(before)
    &&& forall|q: Pos|
        before.spec_contains(q) ==> #[trigger] after.spec_at(q) == (before.spec_at(q)
            || group.contains(q))
}

/// Whether `after` and `seen_after` are what looking at the caves around
/// `pos` makes of `before` and `seen`. The caves not yet seen that are
/// joined to `pos` are counted. More than three are marked as seen. Two or
/// three are removed: `pos` is turned into wall, and the dead ends are
/// filled from each of them on, in some order. Else nothing changes.
pub open spec fn culled_around(
    before: Grid<Terrain>,
    seen: Grid<bool>,
    after: Grid<Terrain>,
    seen_after: Grid<bool>,
    pos: Pos,
) -> bool {
    let group = component(unseen_cave(before, seen), pos);
    if group.len() > 3 {
        kept(before, after) && marked_off(seen, seen_after, group)
    } else if group.len() >= 2 {
        kept(seen, seen_after) && exists|walled_up: Grid<Terrain>, order: Seq<Pos>|
            {
                &&& put(before, walled_up, pos, Terrain::Wall)
                &&& order.no_duplicates()
                &&& order.to_set() == group
                &&& #[trigger] drained_all(walled_up, after, order)
            }
    } else {
        kept(before, after) && kept(seen, seen_after)
    }
}

/// Whether `after` and `seen_after` are what one step of the removal of
/// small caves makes of `before` and `seen`: the dead ends are filled from
/// `pos` on, and then the caves around `pos` are looked at.
pub open spec fn culled_at(
    before: Grid<Terrain>,
    seen: Grid<bool>,
    after: Grid<Terrain>,
    seen_after: Grid<bool>,
    pos: Pos,
) -> bool {
    exists|mid: Grid<Terrain>|
        drained(before, mid, pos) && #[trigger] culled_around(mid, seen, after, seen_after, pos)
}

/// Whether `after` and `seen_after` are what the steps of the removal of
/// small caves at each of `positions`, in turn, make of `before` and `seen`.
pub open spec fn culled(
    before: Grid<Terrain>,
    seen: Grid<bool>,
    after: Grid<Terrain>,
    seen_after: Grid<bool>,
    positions: Seq<Pos>,
) -> bool
    decreases positions.len(),
{
    if positions.len() == 0 {
        kept(before, after) && kept(seen, seen_after)
    } else {
        exists|mid: Grid<Terrain>, seen_mid: Grid<bool>|
            culled(before, seen, mid, seen_mid, positions.drop_last()) && #[trigger] culled_at(
                mid,
                seen_mid,
                after,
                seen_after,
                positions.last(),
            )
    }
}

/// Whether nothing is marked in `seen`, a grid of the size of `grid`.
pub open spec fn unmarked(seen: Grid<bool>, grid: Grid<Terrain>) -> bool {
    seen.same_size(grid) && forall|q: Pos| seen.spec_contains(q) ==> !#[trigger] seen.spec_at(q)
}

/// Remove caves of less than 4 tiles in size: with nothing marked as seen
/// at first, the inner positions are taken up row by row.
fn remove_small_caves(grid: &mut Grid<Terrain>)
    requires
        walled(*old(grid)),
        old(grid).spec_width() >= 2,
        old(grid).spec_height() >= 2,
    ensures
        exists|seen: Grid<bool>, seen_after: Grid<bool>|
            unmarked(seen, *old(grid)) && #[trigger] culled(
                *old(grid),
                seen,
                *final(grid),
                seen_after,
                spec_inner_positions(old(grid).spec_width(), old(grid).spec_height()),
            ),
        walled(*final(grid)),
        final(grid).same_size(*old(grid)),
        joined_floors(*old(grid)) ==> joined_floors(*final(grid)),
{
    let mut visited = Grid::new(grid.width(), grid.height(), |_pos: Pos| -> (r: bool)
        ensures
            !r,
        { false });
    let ghost unseen = visited;
    let positions = grid.inner_positions();
    let mut k: usize = 0;
    while k < positions.len()
        invariant
            k <= positions@.len(),
            walled(*grid),
            grid.same_size(*old(grid)),
            visited.same_size(*grid),
            grid.spec_width() <= MAX_SIDE,
            grid.spec_height() <= MAX_SIDE,
            joined_floors(*old(grid)) ==> joined_floors(*grid),
            forall|j: int| 0 <= j < positions@.len() ==> grid.spec_contains(#[trigger] positions@[j]),
            culled(*old(grid), unseen, *grid, visited, positions@.take(k as int)),
        decreases positions@.len() - k,
    {
        let pos = positions[k];
        let ghost start = *grid;
        let ghost seen = visited;
        fill_dead_end(pos, grid);
        let ghost mid = *grid;
        let flooded = flood_caves(pos, grid, &visited);
        let members = flooded.positions();
        proof {
            assert forall|j: int| 0 <= j < members@.len() implies grid.spec_contains(
                #[trigger] members@[j],
            ) by {
                assert(members@.contains(members@[j]));
                assert(flooded@.contains(members@[j]));
            }
        }
        let count = flooded.len();
        if count > 3 {
            let mut m: usize = 0;
            while m < members.len()
                invariant
                    m <= members@.len(),
                    visited.same_size(*grid),
                    visited.same_size(seen),
                    members@.to_set() == flooded@,
                    forall|j: int|
                        0 <= j < members@.len() ==> grid.spec_contains(#[trigger] members@[j]),
                    forall|j: int| 0 <= j < m ==> visited.spec_at(#[trigger] members@[j]),
                    forall|q: Pos|
                        seen.spec_contains(q) ==> #[trigger] visited.spec_at(q) == seen.spec_at(q)
                            || (flooded@.contains(q) && visited.spec_at(q)),
                decreases members@.len() - m,
            {
                proof {
                    assert(members@.contains(members@[m as int]));
                    assert(members@.to_set().contains(members@[m as int]));
                }
                visited.set(members[m], true);
                m += 1;
            }
            proof {
                assert forall|q: Pos| seen.spec_contains(q) implies #[trigger] visited.spec_at(q) == (
                seen.spec_at(q) || flooded@.contains(q)) by {
                    if flooded@.contains(q) {
                        assert(members@.to_set().contains(q));
                        let j = choose|j: int| 0 <= j < members@.len() && members@[j] == q;
                        assert(visited.spec_at(members@[j]));
                    }
                }
                assert(marked_off(seen, visited, flooded@));
            }
        } else if count == 3 || count == 2 {
            grid.set(pos, Terrain::Wall);
            let ghost walled_up = *grid;
            proof {
                assert(members@.to_set().contains(members@[0]));
                lemma_connected_satisfies(unseen_cave(mid, visited), pos, members@[0]);
                if joined_floors(mid) {
                    lemma_cave_filled(mid, *grid, pos);
                }
            }
            let mut m: usize = 0;
            while m < members.len()
                invariant
                    m <= members@.len(),
                    walled(*grid),
                    grid.same_size(*old(grid)),
                    visited.same_size(*grid),
                    grid.spec_width() <= MAX_SIDE,
                    grid.spec_height() <= MAX_SIDE,
                    joined_floors(*old(grid)) ==> joined_floors(*grid),
                    forall|j: int|
                        0 <= j < members@.len() ==> grid.spec_contains(#[trigger] members@[j]),
                    drained_all(walled_up, *grid, members@.take(m as int)),
                decreases members@.len() - m,
            {
                let ghost earlier = *grid;
                fill_dead_end(members[m], grid);
                proof {
                    let done = members@.take(m + 1);
                    assert(done.drop_last() =~= members@.take(m as int));
                    assert(drained_all(walled_up, earlier, done.drop_last()) && drained(
                        earlier,
                        *grid,
                        done.last(),
                    ));
                }
                m += 1;
            }
            proof {
                assert(members@.take(m as int) =~= members@);
                assert(put(mid, walled_up, pos, Terrain::Wall) && members@.no_duplicates()
                    && members@.to_set() == flooded@ && drained_all(walled_up, *grid, members@));
            }
        }
        proof {
            let done = positions@.take(k + 1);
            assert(done.drop_last() =~= positions@.take(k as int));
            assert(culled_around(mid, seen, *grid, visited, pos));
            assert(drained(start, mid, pos) && culled_around(mid, seen, *grid, visited, pos));
            assert(culled(*old(grid), unseen, start, seen, done.drop_last()) && culled_at(
                start,
                seen,
                *grid,
                visited,
                done.last(),
            ));
        }
        k += 1;
    }
    proof {
        assert(positions@.take(k as int) =~= positions@);
        assert(unmarked(unseen, *old(grid)) && culled(
            *old(grid),
            unseen,
            *grid,
            visited,
            spec_inner_positions(old(grid).spec_width(), old(grid).spec_height()),
        ));
    }
}

/// Whether `pos` is one of at most five walls of `grid` that are joined to
/// each other and to no other wall.
pub open spec fn isolated_wall(grid: Grid<Terrain>, pos: Pos) -> bool {
    lies_at(grid, Terrain::Wall)(pos) && component(lies_at(grid, Terrain::Wall), pos).len() <= 5
}

/// Whether `after` is `before` with some of its isolated walls turned into floor.
pub open spec fn thinned(before: Grid<Terrain>, after: Grid<Terrain>) -> bool {
    &&& after.same_size(before)
    &&& forall|q: Pos|
        before.spec_contains(q) ==> #[trigger] after.spec_at(q) == before.spec_at(q) || (
        isolated_wall(before, q) && after.spec_at(q) == Terrain::Floor)
}

/// Whether each wall of `after` is joined to the walls to which it was
/// joined in `before`.
pub open spec fn intact(before: Grid<Terrain>, after: Grid<Terrain>) -> bool {
    forall|q: Pos| #[trigger]
        lies_at(after, Terrain::Wall)(q) ==> component(lies_at(after, Terrain::Wall), q)
            == component(lies_at(before, Terrain::Wall), q)
}

/// Turning a whole group of isolated walls into floor leaves the other
/// groups of walls as they were.
proof fn lemma_group_removed(
    before: Grid<Terrain>,
    mid: Grid<Terrain>,
    after: Grid<Terrain>,
    pos: Pos,
)
    requires
        thinned(before, mid),
        intact(before, mid),
        after.same_size(mid),
        component(lies_at(mid, Terrain::Wall), pos).len() <= 5,
        forall|q: Pos|
            mid.spec_contains(q) ==> #[trigger] after.spec_at(q) == if component(
                lies_at(mid, Terrain::Wall),
                pos,
            ).contains(q) {
                Terrain::Floor
            } else {
                mid.spec_at(q)
            },
    ensures
        thinned(before, after),
        intact(before, after),
        isolated_wall(before, pos) ==> after.spec_at(pos) != Terrain::Wall,
{
    let first = lies_at(before, Terrain::Wall);
    let rule = lies_at(mid, Terrain::Wall);
    let lesser = lies_at(after, Terrain::Wall);
    let group = component(rule, pos);
    assert forall|r: Pos| #[trigger] rule(r) implies first(r) by {
        assert(mid.spec_at(r) == before.spec_at(r) || mid.spec_at(r) == Terrain::Floor);
    }
    assert forall|r: Pos| #[trigger] lesser(r) <==> rule(r) && !group.contains(r) by {
        if mid.spec_contains(r) {
            assert(after.spec_at(r) == if group.contains(r) {
                Terrain::Floor
            } else {
                mid.spec_at(r)
            });
        }
    }
    assert forall|q: Pos| before.spec_contains(q) implies #[trigger] after.spec_at(q)
        == before.spec_at(q) || (isolated_wall(before, q) && after.spec_at(q)
        == Terrain::Floor) by {
        assert(mid.spec_at(q) == before.spec_at(q) || (isolated_wall(before, q) && mid.spec_at(q)
            == Terrain::Floor));
        if group.contains(q) {
            lemma_connected_satisfies(rule, pos, q);
            assert(rule(pos) && rule(q));
            assert(component(rule, pos) == component(first, pos));
            assert(component(rule, q) == component(first, q));
            lemma_same_component(rule, pos, q);
        }
    }
    assert forall|q: Pos| #[trigger] lesser(q) implies component(lesser, q) == component(
        first,
        q,
    ) by {
        assert(rule(q));
        lemma_component_apart(rule, lesser, pos, q);
    }
    if isolated_wall(before, pos) && after.spec_at(pos) == Terrain::Wall {
        assert(lesser(pos));
        assert(rule(pos));
        lemma_connected_self(rule, pos);
        assert(group.contains(pos));
    }
}

/// Remove groups of 5 walls or less.
fn remove_isolated_walls(grid: &mut Grid<Terrain>)
    requires
        walled(*old(grid)),
        old(grid).spec_width() >= 3,
        old(grid).spec_height() >= 2,
    ensures
        walled(*final(grid)),
        final(grid).same_size(*old(grid)),
        forall|q: Pos|
            old(grid).spec_contains(q) ==> #[trigger] final(grid).spec_at(q) == if isolated_wall(
                *old(grid),
                q,
            ) {
                Terrain::Floor
            } else {
                old(grid).spec_at(q)
            },
{
    let positions = grid.positions();
    let width = grid.width();
    let height = grid.height();
    let mut k: usize = 0;
    while k < positions.len()
        invariant
            k <= positions@.len(),
            walled(*grid),
            grid.same_size(*old(grid)),
            width == grid.spec_width(),
            height == grid.spec_height(),
            3 <= width <= MAX_SIDE,
            2 <= height <= MAX_SIDE,
            thinned(*old(grid), *grid),
            intact(*old(grid), *grid),
            forall|j: int| 0 <= j < positions@.len() ==> grid.spec_contains(#[trigger] positions@[j]),
            forall|j: int|
                0 <= j < k && isolated_wall(*old(grid), positions@[j]) ==> grid.spec_at(
                    #[trigger] positions@[j],
                ) == Terrain::Floor,
        decreases positions@.len() - k,
    {
        let pos = positions[k];
        let wall_positions = flood_terrain(pos, Terrain::Wall, grid);
        let ghost flooded_from = *grid;
        if wall_positions.len() <= 5 {
            let members = wall_positions.positions();
            proof {
                let rule = lies_at(flooded_from, Terrain::Wall);
                assert(holds_on_edge(rule, width as int, height as int)) by {
                    assert forall|row: int, col: int|
                        on_edge(row, col, width as int, height as int) implies rule(
                        #[trigger] crate::grid::dense::spec_index_to_pos(row, col),
                    ) by {
                        crate::grid::dense::lemma_index_round_trip(row, col);
                        let p = crate::grid::dense::spec_index_to_pos(row, col);
                        assert(flooded_from.spec_contains(p) && !flooded_from.spec_inner(p));
                    }
                }
                assert forall|j: int| 0 <= j < members@.len() implies flooded_from.spec_inner(
                    #[trigger] members@[j],
                ) by {
                    let p = members@[j];
                    assert(members@.contains(p));
                    assert(wall_positions@.contains(p));
                    if !flooded_from.spec_inner(p) {
                        lemma_edge_is_long(
                            rule,
                            width as int,
                            height as int,
                            pos,
                            p,
                            wall_positions@,
                        );
                    }
                }
            }
            let mut m: usize = 0;
            while m < members.len()
                invariant
                    m <= members@.len(),
                    walled(*grid),
                    grid.same_size(*old(grid)),
                    grid.same_size(flooded_from),
                    members@.to_set() == wall_positions@,
                    forall|j: int|
                        0 <= j < members@.len() ==> flooded_from.spec_inner(#[trigger] members@[j]),
                    forall|j: int|
                        0 <= j < m ==> grid.spec_at(#[trigger] members@[j]) == Terrain::Floor,
                    forall|q: Pos|
                        grid.spec_contains(q) ==> #[trigger] grid.spec_at(q)
                            == flooded_from.spec_at(q) || (wall_positions@.contains(q)
                            && grid.spec_at(q) == Terrain::Floor),
                decreases members@.len() - m,
            {
                proof {
                    assert(members@.contains(members@[m as int]));
                    assert(members@.to_set().contains(members@[m as int]));
                }
                grid.set(members[m], Terrain::Floor);
                m += 1;
            }
            proof {
                assert forall|q: Pos| flooded_from.spec_contains(q) implies #[trigger] grid.spec_at(
                    q,
                ) == if wall_positions@.contains(q) {
                    Terrain::Floor
                } else {
                    flooded_from.spec_at(q)
                } by {
                    if wall_positions@.contains(q) {
                        assert(members@.to_set().contains(q));
                        let j = choose|j: int| 0 <= j < members@.len() && members@[j] == q;
                        assert(grid.spec_at(members@[j]) == Terrain::Floor);
                    }
                }
                lemma_group_removed(*old(grid), flooded_from, *grid, pos);
            }
        } else {
            proof {
                if isolated_wall(*old(grid), pos) {
                    if lies_at(flooded_from, Terrain::Wall)(pos) {
                        assert(component(lies_at(flooded_from, Terrain::Wall), pos) == component(
                            lies_at(*old(grid), Terrain::Wall),
                            pos,
                        ));
                    }
                }
            }
        }
        k += 1;
    }
    proof {
        assert forall|q: Pos| old(grid).spec_contains(q) implies #[trigger] grid.spec_at(q)
            == if isolated_wall(*old(grid), q) {
            Terrain::Floor
        } else {
            old(grid).spec_at(q)
        } by {
            assert(positions@[grid.place(q)] == q);
            assert(grid.spec_at(q) == old(grid).spec_at(q) || (isolated_wall(*old(grid), q)
                && grid.spec_at(q) == Terrain::Floor));
        }
    }
}

/// The random number generator from which levels are made.
#[verifier::external_type_specification]
#[verifier::external_body]
pub struct ExXoshiro256StarStar(rand_xoshiro::Xoshiro256StarStar);

/// Shuffles `positions` with `SliceRandom::shuffle`. Whatever order comes
/// out, the positions are those that went in, each as often as before.
#[verifier::external_body]
pub(crate) fn shuffle(positions: &mut Vec<Pos>, rng: &mut Xoshiro256StarStar)
    ensures
        final(positions)@.to_multiset() == old(positions)@.to_multiset(),
{
    positions.shuffle(rng);
}

/// The positions of `grid` that are not on its edge, in a random order.
pub fn calc_shuffled_positions<T>(grid: &Grid<T>, rng: &mut Xoshiro256StarStar) -> (res: Vec<Pos>)
    requires
        grid.spec_width() >= 2,
        grid.spec_height() >= 2,
    ensures
        res@.len() == (grid.spec_width() - 2) * (grid.spec_height() - 2),
        forall|k: int| 0 <= k < res@.len() ==> grid.spec_inner(#[trigger] res@[k]),
        forall|pos: Pos| grid.spec_inner(pos) ==> #[trigger] res@.contains(pos),
{
    let mut positions = grid.inner_positions();
    let ghost sorted = positions@;
    shuffle(&mut positions, rng);
    proof {
        sorted.to_multiset_ensures();
        positions@.to_multiset_ensures();
        assert forall|pos: Pos| grid.spec_inner(pos) implies #[trigger] positions@.contains(
            pos,
        ) by {
            let row = spec_row(pos);
            let col = spec_col(pos);
            crate::grid::dense::lemma_pos_round_trip(pos);
            crate::grid::dense::lemma_cell_order(
                row - 1,
                col - 1,
                grid.spec_height() - 2,
                grid.spec_width() - 2,
            );
            let at = (row - 1) * (grid.spec_width() - 2) + (col - 1);
            assert(sorted[at] == crate::grid::dense::spec_index_to_pos(row - 1 + 1, col - 1 + 1));
            assert(sorted.contains(pos));
            assert(sorted.to_multiset().count(pos) > 0);
            assert(positions@.to_multiset().count(pos) > 0);
        }
        assert forall|k: int| 0 <= k < positions@.len() implies grid.spec_inner(
            #[trigger] positions@[k],
        ) by {
            let p = positions@[k];
            assert(positions@.contains(p));
            assert(positions@.to_multiset().count(p) > 0);
            assert(sorted.to_multiset().count(p) > 0);
            assert(sorted.contains(p));
            let j = choose|j: int| 0 <= j < sorted.len() && sorted[j] == p;
            assert(grid.spec_inner(sorted[j]));
        }
    }
    positions
}

/// Generates a level of `width` columns and `height` rows: caves are
/// carved into solid rock at random, and then small groups of walls, all
/// but the largest group of floors, and small caves are removed. The edge
/// of the level stays wall, and the floors of the level are in one piece.
pub fn generate(width: usize, height: usize, rng: &mut Xoshiro256StarStar) -> (grid: Grid<Terrain>)
    requires
        3 <= width <= MAX_SIDE,
        2 <= height <= MAX_SIDE,
    ensures
        grid.spec_width() == width,
        grid.spec_height() == height,
        walled(grid),
        joined_floors(grid),
{
    let mut grid = Grid::new(width, height, |_pos: Pos| -> (r: Terrain)
        ensures
            r == Terrain::Wall,
        { Terrain::Wall });
    let positions = calc_shuffled_positions(&grid, rng);
    carve_caves(&positions, &mut grid);
    remove_isolated_walls(&mut grid);
    remove_isolated_floors(&mut grid);
    remove_small_caves(&mut grid);
    grid
}

} // verus!
