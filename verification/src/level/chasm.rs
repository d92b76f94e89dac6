//! Open chasms where the level below has large caves.

use super::basic::{flood_caves, spec_is_cave, unseen_cave, walled};
use super::tile::Terrain;
use crate::grid::dense::{index_to_pos, spec_index_to_pos, spec_inner_positions};
use crate::grid::{Grid, Index2d, Pos};
use crate::posset::PosSet;
use crate::predicate::{
    component, connected, is_walk, lemma_connected_satisfies, lemma_connected_self,
    lemma_connected_symmetric, lemma_connected_transitive, lemma_connected_weaken,
    lemma_walk_joined,
};
use rand_xoshiro::Xoshiro256StarStar;
use vstd::prelude::*;

verus! {

/// The rule that holds of the caves of `below`.
pub open spec fn cave_rule(below: Grid<Terrain>) -> spec_fn(Pos) -> bool {
    |p: Pos| below.spec_contains(p) && spec_is_cave(below, p)
}

/// The last of the first `k` of `positions` at which `terrain` lies in
/// `level`, or the corner of the level if there is none.
pub open spec fn last_with(
    level: Grid<Terrain>,
    positions: Seq<Pos>,
    terrain: Terrain,
    k: int,
) -> Pos
    decreases k,
{
    if k <= 0 {
        spec_index_to_pos(0, 0)
    } else if level.spec_at(positions[k - 1]) == terrain {
        positions[k - 1]
    } else {
        last_with(level, positions, terrain, k - 1)
    }
}

/// Whether `p` is one of the stairs or next to one.
pub open spec fn near_stairs(p: Pos, entrance: Pos, exit: Pos) -> bool {
    p.spec_distance(entrance) < 2 || p.spec_distance(exit) < 2
}

/// Whether a chasm opens at `q`: it is a cave of `below`, the caves joined
/// to it are `least` or more, and none of them is near the stairs.
pub open spec fn chasm_over(
    below: Grid<Terrain>,
    entrance: Pos,
    exit: Pos,
    least: int,
    q: Pos,
) -> bool {
    &&& cave_rule(below)(q)
    &&& component(cave_rule(below), q).len() >= least
    &&& forall|p: Pos| #[trigger]
        component(cave_rule(below), q).contains(p) ==> !near_stairs(p, entrance, exit)
}

/// Whether `after` is `before` with a chasm wherever one opens over a cave
/// of `below`, as far as the stairs of `before` allow.
pub open spec fn opened(before: Grid<Terrain>, after: Grid<Terrain>, below: Grid<Terrain>) -> bool {
    let inner = spec_inner_positions(before.spec_width(), before.spec_height());
    let entrance = last_with(before, inner, Terrain::Entrance, inner.len() as int);
    let exit = last_with(before, inner, Terrain::Exit, inner.len() as int);
    let least = before.spec_width() + before.spec_height();
    &&& after.same_size(before)
    &&& forall|q: Pos|
        before.spec_contains(q) ==> #[trigger] after.spec_at(q) == (if chasm_over(
            below,
            entrance,
            exit,
            least,
            q,
        ) {
            Terrain::Chasm
        } else {
            before.spec_at(q)
        })
}

/// Whether `p` is joined, by caves of `below`, to one of the first `k` of `positions`.
pub open spec fn swept(below: Grid<Terrain>, positions: Seq<Pos>, k: int, p: Pos) -> bool {
    exists|j: int| 0 <= j < k && connected(cave_rule(below), #[trigger] positions[j], p)
}

/// What is joined to a position is what is joined to anything joined to it.
proof fn lemma_same_component(rule: spec_fn(Pos) -> bool, a: Pos, b: Pos)
    requires
        connected(rule, a, b),
    ensures
        component(rule, a) == component(rule, b),
{
    lemma_connected_symmetric(rule, a, b);
    assert forall|p: Pos| component(rule, a).contains(p) <==> component(rule, b).contains(p) by {
        if connected(rule, a, p) {
            lemma_connected_transitive(rule, b, a, p);
        }
        if connected(rule, b, p) {
            lemma_connected_transitive(rule, a, b, p);
        }
    }
    assert(component(rule, a) =~= component(rule, b));
}

/// The caves that have not been swept and are joined to `pos` are all the
/// caves joined to `pos`, or none if `pos` has been swept or is no cave.
proof fn lemma_unswept(
    below: Grid<Terrain>,
    visited: Grid<bool>,
    positions: Seq<Pos>,
    k: int,
    pos: Pos,
)
    requires
        visited.same_size(below),
        forall|p: Pos|
            below.spec_contains(p) ==> #[trigger] visited.spec_at(p) == swept(
                below,
                positions,
                k,
                p,
            ),
    ensures
        component(unseen_cave(below, visited), pos) == (if cave_rule(below)(pos) && !swept(
            below,
            positions,
            k,
            pos,
        ) {
            component(cave_rule(below), pos)
        } else {
            Set::empty()
        }),
{
    let unseen = unseen_cave(below, visited);
    let cave = cave_rule(below);
    if cave(pos) && !swept(below, positions, k, pos) {
        assert forall|p: Pos| component(unseen, pos).contains(p) <==> component(cave, pos).contains(
            p,
        ) by {
            if connected(unseen, pos, p) {
                lemma_connected_weaken(unseen, cave, pos, p);
            }
            if connected(cave, pos, p) {
                let walk = choose|walk: Seq<Pos>| #[trigger]
                    is_walk(cave, walk) && walk.first() == pos && walk.last() == p;
                assert forall|i: int| 0 <= i < walk.len() implies unseen(#[trigger] walk[i]) by {
                    let w = walk[i];
                    assert(cave(w));
                    if visited.spec_at(w) {
                        let j = choose|j: int|
                            0 <= j < k && connected(cave, #[trigger] positions[j], w);
                        lemma_walk_joined(cave, walk, i);
                        lemma_connected_symmetric(cave, pos, w);
                        lemma_connected_transitive(cave, positions[j], w, pos);
                    }
                }
                assert(is_walk(unseen, walk));
            }
        }
        assert(component(unseen, pos) =~= component(cave, pos));
    } else {
        assert forall|p: Pos| !component(unseen, pos).contains(p) by {
            if connected(unseen, pos, p) {
                lemma_connected_satisfies(unseen, pos, p);
            }
        }
        assert(component(unseen, pos) =~= Set::<Pos>::empty());
    }
}

/// Sweeping from one more position sweeps what was swept and what is joined
/// to that position.
proof fn lemma_swept_more(below: Grid<Terrain>, positions: Seq<Pos>, k: int, p: Pos)
    requires
        0 <= k < positions.len(),
    ensures
        swept(below, positions, k + 1, p) <==> swept(below, positions, k, p) || connected(
            cave_rule(below),
            positions[k],
            p,
        ),
{
    if swept(below, positions, k, p) {
        let j = choose|j: int| 0 <= j < k && connected(cave_rule(below), #[trigger] positions[j], p);
        assert(0 <= j < k + 1);
    }
    if connected(cave_rule(below), positions[k], p) {
        assert(0 <= k < k + 1 && connected(cave_rule(below), positions[k], p));
    }
}

/// Opens a chasm over every cave of `next_level` that is as large as the
/// level is wide and high together and keeps away from the stairs.
pub fn add_chasms(
    level: &mut Grid<Terrain>,
    next_level: &Grid<Terrain>,
    rng: &mut Xoshiro256StarStar,
)
    requires
        old(level).spec_width() >= 2,
        old(level).spec_height() >= 2,
        next_level.same_size(*old(level)),
        walled(*next_level),
    ensures
        opened(*old(level), *final(level), *next_level),
{
    let min_chasm_size = level.width() + level.height();
    let mut visited = Grid::new(level.width(), level.height(), |_pos: Pos| -> (r: bool)
        ensures
            !r,
        { false });
    let positions = level.inner_positions();
    let mut entrance_pos = index_to_pos(Index2d { row: 0, col: 0 });
    let mut exit_pos = index_to_pos(Index2d { row: 0, col: 0 });
    let mut k: usize = 0;
    while k < positions.len()
        invariant
            k <= positions@.len(),
            *level == *old(level),
            entrance_pos.in_bounds(),
            exit_pos.in_bounds(),
            entrance_pos == last_with(*level, positions@, Terrain::Entrance, k as int),
            exit_pos == last_with(*level, positions@, Terrain::Exit, k as int),
            forall|j: int|
                0 <= j < positions@.len() ==> level.spec_contains(#[trigger] positions@[j])
                    && positions@[j].in_bounds(),
        decreases positions@.len() - k,
    {
        let pos = positions[k];
        match *level.get(pos) {
            Terrain::Entrance => {
                entrance_pos = pos;
            },
            Terrain::Exit => {
                exit_pos = pos;
            },
            _ => {},
        }
        k += 1;
    }
    let ghost cave = cave_rule(*next_level);
    let mut k: usize = 0;
    proof {
        assert forall|p: Pos| level.spec_contains(p) implies #[trigger] visited.spec_at(p)
            == swept(*next_level, positions@, 0, p) by {
        }
    }
    while k < positions.len()
        invariant
            k <= positions@.len(),
            positions@ == spec_inner_positions(old(level).spec_width(), old(level).spec_height()),
            entrance_pos.in_bounds(),
            exit_pos.in_bounds(),
            level.same_size(*old(level)),
            next_level.same_size(*level),
            visited.same_size(*level),
            walled(*next_level),
            cave == cave_rule(*next_level),
            min_chasm_size == level.spec_width() + level.spec_height(),
            forall|p: Pos|
                level.spec_contains(p) ==> #[trigger] visited.spec_at(p) == swept(
                    *next_level,
                    positions@,
                    k as int,
                    p,
                ),
            forall|q: Pos|
                level.spec_contains(q) ==> #[trigger] level.spec_at(q) == (if swept(
                    *next_level,
                    positions@,
                    k as int,
                    q,
                ) && chasm_over(*next_level, entrance_pos, exit_pos, min_chasm_size as int, q) {
                    Terrain::Chasm
                } else {
                    old(level).spec_at(q)
                }),
        decreases positions@.len() - k,
    {
        let pos = positions[k];
        let found = flood_caves(pos, next_level, &visited);
        let ghost seen = visited;
        let ghost before = *level;
        proof {
            lemma_unswept(*next_level, seen, positions@, k as int, pos);
        }
        let members = found.positions();
        let count = found.len();
        let mut overlaps_stairs = false;
        let mut m: usize = 0;
        while m < members.len()
            invariant
                m <= members@.len(),
                entrance_pos.in_bounds(),
                exit_pos.in_bounds(),
                visited.same_size(*level),
                next_level.same_size(*level),
                members@.to_set() == found@,
                forall|p: Pos| #[trigger]
                    found@.contains(p) ==> next_level.spec_contains(p) && p.in_bounds(),
                overlaps_stairs == exists|j: int|
                    0 <= j < m && near_stairs(#[trigger] members@[j], entrance_pos, exit_pos),
                forall|p: Pos|
                    level.spec_contains(p) ==> #[trigger] visited.spec_at(p) == (seen.spec_at(p)
                        || exists|j: int| 0 <= j < m && #[trigger] members@[j] == p),
            decreases members@.len() - m,
        {
            let member = members[m];
            proof {
                assert(members@.contains(member));
                assert(found@.contains(member));
            }
            let ghost marked = visited;
            visited.set(member, true);
            // make sure we don't overlap neighborhood of entrance/exit
            if member.distance(entrance_pos) < 2 || member.distance(exit_pos) < 2 {
                overlaps_stairs = true;
            }
            proof {
                assert forall|p: Pos| level.spec_contains(p) implies #[trigger] visited.spec_at(p)
                    == (seen.spec_at(p) || exists|j: int|
                    0 <= j < m + 1 && #[trigger] members@[j] == p) by {
                    if p == member {
                        assert(members@[m as int] == p);
                    } else {
                        assert(visited.spec_at(p) == marked.spec_at(p));
                        if exists|j: int| 0 <= j < m + 1 && #[trigger] members@[j] == p {
                            let j = choose|j: int| 0 <= j < m + 1 && #[trigger] members@[j] == p;
                            assert(j < m);
                        }
                    }
                }
                if near_stairs(member, entrance_pos, exit_pos) {
                    assert(near_stairs(members@[m as int], entrance_pos, exit_pos));
                }
            }
            m += 1;
        }
        let open_here = !overlaps_stairs && count >= min_chasm_size;
        if open_here {
            add_chasm(level, &found, rng);
        }
        proof {
            let least = min_chasm_size as int;
            assert forall|p: Pos| level.spec_contains(p) implies #[trigger] visited.spec_at(p)
                == swept(*next_level, positions@, k + 1, p) by {
                lemma_swept_more(*next_level, positions@, k as int, p);
                if exists|j: int| 0 <= j < members@.len() && #[trigger] members@[j] == p {
                    let j = choose|j: int| 0 <= j < members@.len() && #[trigger] members@[j] == p;
                    assert(members@.contains(p));
                    assert(found@.contains(p));
                }
                if found@.contains(p) {
                    assert(members@.to_set().contains(p));
                    assert(members@.contains(p));
                }
                if connected(cave, pos, p) && swept(*next_level, positions@, k as int, pos) {
                    let j = choose|j: int|
                        0 <= j < k && connected(cave, #[trigger] positions@[j], pos);
                    lemma_connected_transitive(cave, positions@[j], pos, p);
                }
                if connected(cave, pos, p) {
                    lemma_connected_satisfies(cave, pos, p);
                }
            }
            assert forall|q: Pos| level.spec_contains(q) implies #[trigger] level.spec_at(q) == (
            if swept(*next_level, positions@, k + 1, q) && chasm_over(
                *next_level,
                entrance_pos,
                exit_pos,
                least,
                q,
            ) {
                Terrain::Chasm
            } else {
                old(level).spec_at(q)
            }) by {
                lemma_swept_more(*next_level, positions@, k as int, q);
                if found@.contains(q) {
                    assert(connected(cave, pos, q));
                    lemma_same_component(cave, pos, q);
                    lemma_connected_satisfies(cave, pos, q);
                    if swept(*next_level, positions@, k as int, q) {
                        let j = choose|j: int|
                            0 <= j < k && connected(cave, #[trigger] positions@[j], q);
                        lemma_connected_symmetric(cave, pos, q);
                        lemma_connected_transitive(cave, positions@[j], q, pos);
                    }
                    if overlaps_stairs {
                        let j = choose|j: int|
                            0 <= j < members@.len() && near_stairs(
                                #[trigger] members@[j],
                                entrance_pos,
                                exit_pos,
                            );
                        assert(members@.contains(members@[j]));
                        assert(found@.contains(members@[j]));
                    } else {
                        assert forall|p: Pos| #[trigger]
                            component(cave, q).contains(p) implies !near_stairs(
                            p,
                            entrance_pos,
                            exit_pos,
                        ) by {
                            assert(members@.to_set().contains(p));
                            assert(members@.contains(p));
                            let j = choose|j: int| 0 <= j < members@.len() && members@[j] == p;
                            assert(!near_stairs(members@[j], entrance_pos, exit_pos));
                        }
                    }
                } else {
                    assert(level.spec_at(q) == before.spec_at(q));
                    if connected(cave, pos, q) {
                        let j = choose|j: int|
                            0 <= j < k && connected(cave, #[trigger] positions@[j], pos);
                        lemma_connected_transitive(cave, positions@[j], pos, q);
                    }
                }
            }
        }
        k += 1;
    }
    proof {
        let least = min_chasm_size as int;
        assert forall|q: Pos| old(level).spec_contains(q) implies #[trigger] level.spec_at(q) == (
        if chasm_over(*next_level, entrance_pos, exit_pos, least, q) {
            Terrain::Chasm
        } else {
            old(level).spec_at(q)
        }) by {
            if chasm_over(*next_level, entrance_pos, exit_pos, least, q) {
                assert(next_level.spec_inner(q));
                let row = crate::grid::dense::spec_row(q);
                let col = crate::grid::dense::spec_col(q);
                crate::grid::dense::lemma_pos_round_trip(q);
                crate::grid::dense::lemma_cell_order(
                    row - 1,
                    col - 1,
                    level.spec_height() - 2,
                    level.spec_width() - 2,
                );
                let at = (row - 1) * (level.spec_width() - 2) + (col - 1);
                crate::grid::dense::lemma_split(
                    at,
                    level.spec_width() - 2,
                    level.spec_height() - 2,
                );
                assert(at / (level.spec_width() - 2) == row - 1 && at % (level.spec_width() - 2)
                    == col - 1) by (nonlinear_arith)
                    requires
                        at == (row - 1) * (level.spec_width() - 2) + (col - 1),
                        0 <= col - 1 < level.spec_width() - 2,
                        0 <= row - 1,
                ;
                assert(positions@[at] == q);
                lemma_connected_self(cave, q);
                assert(swept(*next_level, positions@, positions@.len() as int, q));
            }
        }
    }
}

/// Turns every position of `cave` into chasm.
fn add_chasm(level: &mut Grid<Terrain>, cave: &PosSet, rng: &mut Xoshiro256StarStar)
    requires
        forall|p: Pos| #[trigger] cave@.contains(p) ==> old(level).spec_contains(p),
    ensures
        final(level).same_size(*old(level)),
        forall|q: Pos|
            old(level).spec_contains(q) ==> #[trigger] final(level).spec_at(q) == (if cave@.contains(
                q,
            ) {
                Terrain::Chasm
            } else {
                old(level).spec_at(q)
            }),
{
    let members = cave.positions();
    let mut m: usize = 0;
    while m < members.len()
        invariant
            m <= members@.len(),
            level.same_size(*old(level)),
            members@.to_set() == cave@,
            forall|p: Pos| #[trigger] cave@.contains(p) ==> old(level).spec_contains(p),
            forall|q: Pos|
                old(level).spec_contains(q) ==> #[trigger] level.spec_at(q) == (if exists|j: int|
                    0 <= j < m && #[trigger] members@[j] == q {
                    Terrain::Chasm
                } else {
                    old(level).spec_at(q)
                }),
        decreases members@.len() - m,
    {
        let ghost step = *level;
        let member = members[m];
        proof {
            assert(members@.contains(member));
            assert(cave@.contains(member));
        }
        level.set(member, Terrain::Chasm);
        proof {
            assert forall|q: Pos| old(level).spec_contains(q) implies #[trigger] level.spec_at(q)
                == (if exists|j: int| 0 <= j < m + 1 && #[trigger] members@[j] == q {
                Terrain::Chasm
            } else {
                old(level).spec_at(q)
            }) by {
                if q == member {
                    assert(members@[m as int] == q);
                } else {
                    assert(level.spec_at(q) == step.spec_at(q));
                    if exists|j: int| 0 <= j < m + 1 && #[trigger] members@[j] == q {
                        let j = choose|j: int| 0 <= j < m + 1 && #[trigger] members@[j] == q;
                        assert(j < m);
                    }
                }
            }
        }
        m += 1;
    }
    proof {
        assert forall|q: Pos| old(level).spec_contains(q) implies #[trigger] level.spec_at(q) == (
        if cave@.contains(q) {
            Terrain::Chasm
        } else {
            old(level).spec_at(q)
        }) by {
            if cave@.contains(q) {
                assert(members@.to_set().contains(q));
                assert(members@.contains(q));
                let j = choose|j: int| 0 <= j < members@.len() && members@[j] == q;
                assert(members@[j] == q);
            }
            if exists|j: int| 0 <= j < members@.len() && #[trigger] members@[j] == q {
                let j = choose|j: int| 0 <= j < members@.len() && #[trigger] members@[j] == q;
                assert(members@.contains(q));
            }
        }
    }
}

} // verus!
