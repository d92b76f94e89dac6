//! The floors of a level stay in one piece when a cave is walled up.
//!
//! A cave is a floor whose neighboring floors form a single group around
//! it. A walk over floors that passes through the cave can go around it
//! instead, from neighbor to neighbor along that group.

use super::basic::{falls, groups, is_floor, lies_at, marks, spec_is_cave, walled};
use super::tile::Terrain;
use crate::grid::laws::lemma_adjacent_is_step;
use crate::grid::dense::MAX_SIDE;
use crate::grid::{direction_at, Grid, Pos};
use crate::predicate::{
    component, connected, is_walk, lemma_connected_self, lemma_connected_step,
    lemma_connected_symmetric, lemma_connected_transitive, lemma_within_component,
};
use vstd::prelude::*;

verus! {

/// Whether all floors of `grid` are joined to each other by floors.
pub open spec fn joined_floors(grid: Grid<Terrain>) -> bool {
    forall|a: Pos, b: Pos|
        #[trigger] lies_at(grid, Terrain::Floor)(a) && #[trigger] lies_at(grid, Terrain::Floor)(b)
            ==> connected(lies_at(grid, Terrain::Floor), a, b)
}

/// Whether `after` is `before` with the floor at `p` walled up.
#[verifier::opaque]
spec fn walled_up(before: Grid<Terrain>, after: Grid<Terrain>, p: Pos) -> bool {
    &&& after.same_size(before)
    &&& before.spec_inner(p)
    &&& after.spec_at(p) != Terrain::Floor
    &&& forall|q: Pos|
        before.spec_contains(q) && q != p ==> #[trigger] after.spec_at(q) == before.spec_at(q)
}

/// Whether the marks at the `k + 1` places from `u` on around the position are all set.
spec fn arc(m: Seq<bool>, u: int, k: int) -> bool
    decreases k,
{
    m[(u + k) % 6] && (k <= 0 || arc(m, u, k - 1))
}

/// Marks that fall into a single group lie side by side: from one of two
/// of them the other is reached over marks, one way around or the other.
/// Returns whether the way leads from `u` to `v`, and its length.
proof fn lemma_single_group(m: Seq<bool>, u: int, v: int) -> (way: (bool, int))
    requires
        m.len() == 6,
        groups(m) == 1,
        0 <= u < 6,
        0 <= v < 6,
        m[u],
        m[v],
    ensures
        0 <= way.1 < 6,
        way.0 ==> arc(m, u, way.1) && (u + way.1) % 6 == v,
        !way.0 ==> arc(m, v, way.1) && (v + way.1) % 6 == u,
{
    if arc(m, u, (v - u) % 6) {
        (true, (v - u) % 6)
    } else {
        reveal_with_fuel(falls, 7);
        reveal_with_fuel(arc, 7);
        let f0 = m[0] && !m[1];
        let f1 = m[1] && !m[2];
        let f2 = m[2] && !m[3];
        let f3 = m[3] && !m[4];
        let f4 = m[4] && !m[5];
        let f5 = m[5] && !m[0];
        assert(falls(m, 6) == (if f0 { 1int } else { 0 }) + (if f1 { 1int } else { 0 }) + (if f2 {
            1int
        } else {
            0
        }) + (if f3 { 1int } else { 0 }) + (if f4 { 1int } else { 0 }) + (if f5 {
            1int
        } else {
            0
        }));
        if u == 0 {
            lemma_single_group_from(m, 0, v);
        } else if u == 1 {
            lemma_single_group_from(m, 1, v);
        } else if u == 2 {
            lemma_single_group_from(m, 2, v);
        } else if u == 3 {
            lemma_single_group_from(m, 3, v);
        } else if u == 4 {
            lemma_single_group_from(m, 4, v);
        } else {
            lemma_single_group_from(m, 5, v);
        }
        (false, (u - v) % 6)
    }
}

proof fn lemma_single_group_from(m: Seq<bool>, u: int, v: int)
    requires
        m.len() == 6,
        groups(m) == 1,
        0 <= u < 6,
        0 <= v < 6,
        m[u],
        m[v],
    ensures
        arc(m, u, (v - u) % 6) || arc(m, v, (u - v) % 6),
{
    reveal_with_fuel(falls, 7);
    reveal_with_fuel(arc, 7);
    if v == 0 {
        assert(arc(m, u, (0 - u) % 6) || arc(m, 0, (u - 0) % 6));
    } else if v == 1 {
        assert(arc(m, u, (1 - u) % 6) || arc(m, 1, (u - 1) % 6));
    } else if v == 2 {
        assert(arc(m, u, (2 - u) % 6) || arc(m, 2, (u - 2) % 6));
    } else if v == 3 {
        assert(arc(m, u, (3 - u) % 6) || arc(m, 3, (u - 3) % 6));
    } else if v == 4 {
        assert(arc(m, u, (4 - u) % 6) || arc(m, 4, (u - 4) % 6));
    } else {
        assert(arc(m, u, (5 - u) % 6) || arc(m, 5, (u - 5) % 6));
    }
}

/// A neighbor of `p` that is marked as a floor is a floor still when `p` is
/// walled up.
proof fn lemma_neighbor_floor(before: Grid<Terrain>, after: Grid<Terrain>, p: Pos, t: int)
    requires
        walled_up(before, after, p),
        before.spec_width() <= MAX_SIDE,
        before.spec_height() <= MAX_SIDE,
        0 <= t < 6,
        marks(before, p, is_floor())[t],
    ensures
        lies_at(after, Terrain::Floor)(p.spec_neighbor(direction_at(t))),
        lies_at(before, Terrain::Floor)(p.spec_neighbor(direction_at(t))),
{
    reveal(walled_up);
    crate::grid::dense::lemma_inner_neighbors(p, before.spec_width(), before.spec_height());
    let n = p.spec_neighbor(direction_at(t));
    assert(before.spec_contains(n));
    assert(n != p);
    assert(after.spec_at(n) == before.spec_at(n));
}

/// Two neighbors of a position in directions a turn apart are neighbors.
proof fn lemma_neighbors_adjacent(p: Pos, t: int)
    requires
        0 <= t < 6,
        p.in_bounds(),
    ensures
        p.spec_neighbor(direction_at(t)).adjacent(p.spec_neighbor(direction_at((t + 1) % 6))),
{
}

/// Which neighbor of `p` the position `a` is.
proof fn lemma_which_neighbor(p: Pos, a: Pos) -> (t: int)
    requires
        p.adjacent(a),
        p.in_bounds(),
    ensures
        0 <= t < 6,
        a == p.spec_neighbor(direction_at(t)),
{
    lemma_adjacent_is_step(p, a);
    let t = choose|i: int|
        0 <= i < 6 && a.x == p.x + #[trigger] direction_at(i).spec_x() && a.y == p.y
            + direction_at(i).spec_y();
    t
}

/// The neighbors of `p` at the places of an arc of marks are joined under
/// a rule that holds of every marked neighbor.
proof fn lemma_arc_joined(rule: spec_fn(Pos) -> bool, m: Seq<bool>, p: Pos, u: int, k: int)
    requires
        p.in_bounds(),
        0 <= u < 6,
        0 <= k < 6,
        arc(m, u, k),
        forall|t: int| 0 <= t < 6 && m[t] ==> rule(#[trigger] p.spec_neighbor(direction_at(t))),
    ensures
        connected(rule, p.spec_neighbor(direction_at(u)), p.spec_neighbor(direction_at((u + k) % 6))),
    decreases k,
{
    let first = p.spec_neighbor(direction_at(u));
    let last = (u + k) % 6;
    assert(m[last]);
    assert(rule(p.spec_neighbor(direction_at(last))));
    if k == 0 {
        lemma_connected_self(rule, first);
    } else {
        let near = (u + k - 1) % 6;
        lemma_arc_joined(rule, m, p, u, k - 1);
        lemma_neighbors_adjacent(p, near);
        assert((near + 1) % 6 == last);
        lemma_connected_step(
            rule,
            first,
            p.spec_neighbor(direction_at(near)),
            p.spec_neighbor(direction_at(last)),
        );
    }
}

/// Two floors next to a cave are joined by floors other than the cave.
proof fn lemma_around_cave(
    before: Grid<Terrain>,
    after: Grid<Terrain>,
    p: Pos,
    u: int,
    v: int,
)
    requires
        walled_up(before, after, p),
        before.spec_width() <= MAX_SIDE,
        before.spec_height() <= MAX_SIDE,
        p.in_bounds(),
        groups(marks(before, p, is_floor())) == 1,
        0 <= u < 6,
        0 <= v < 6,
        marks(before, p, is_floor())[u],
        marks(before, p, is_floor())[v],
    ensures
        connected(
            lies_at(after, Terrain::Floor),
            p.spec_neighbor(direction_at(u)),
            p.spec_neighbor(direction_at(v)),
        ),
{
    let m = marks(before, p, is_floor());
    let rule = lies_at(after, Terrain::Floor);
    let way = lemma_single_group(m, u, v);
    assert forall|t: int| 0 <= t < 6 && m[t] implies rule(
        #[trigger] p.spec_neighbor(direction_at(t)),
    ) by {
        lemma_neighbor_floor(before, after, p, t);
    }
    if way.0 {
        lemma_arc_joined(rule, m, p, u, way.1);
    } else {
        lemma_arc_joined(rule, m, p, v, way.1);
        lemma_connected_symmetric(
            rule,
            p.spec_neighbor(direction_at(v)),
            p.spec_neighbor(direction_at(u)),
        );
    }
}

/// A floor next to `p` is marked among the neighbors of `p`.
proof fn lemma_marked(before: Grid<Terrain>, p: Pos, t: int)
    requires
        0 <= t < 6,
        lies_at(before, Terrain::Floor)(p.spec_neighbor(direction_at(t))),
    ensures
        marks(before, p, is_floor())[t],
{
}

/// A walk over floors that does not begin at a cave leads to each of its
/// positions, but for the cave, over floors other than the cave too.
proof fn lemma_walk_around(
    before: Grid<Terrain>,
    after: Grid<Terrain>,
    p: Pos,
    walk: Seq<Pos>,
    i: int,
)
    requires
        walled_up(before, after, p),
        before.spec_width() <= MAX_SIDE,
        before.spec_height() <= MAX_SIDE,
        spec_is_cave(before, p),
        p.in_bounds(),
        is_walk(lies_at(before, Terrain::Floor), walk),
        walk.first() != p,
        0 <= i < walk.len(),
        walk[i] != p,
    ensures
        connected(lies_at(after, Terrain::Floor), walk.first(), walk[i]),
    decreases i,
{
    reveal(walled_up);
    let old_rule = lies_at(before, Terrain::Floor);
    let rule = lies_at(after, Terrain::Floor);
    assert(old_rule(walk[i]));
    assert(rule(walk[i]));
    if i == 0 {
        lemma_connected_self(rule, walk.first());
    } else {
        assert(walk[i - 1].adjacent(walk[i - 1 + 1]));
        if walk[i - 1] != p {
            lemma_walk_around(before, after, p, walk, i - 1);
            lemma_connected_step(rule, walk.first(), walk[i - 1], walk[i]);
        } else {
            assert(walk[i - 2].adjacent(walk[i - 2 + 1]));
            crate::grid::laws::lemma_distance_symmetric(walk[i - 2], p);
            crate::grid::laws::lemma_distance_positive(walk[i - 2], p);
            assert(old_rule(walk[i - 2]));
            lemma_walk_around(before, after, p, walk, i - 2);
            let u = lemma_which_neighbor(p, walk[i - 2]);
            let v = lemma_which_neighbor(p, walk[i]);
            lemma_marked(before, p, u);
            lemma_marked(before, p, v);
            lemma_around_cave(before, after, p, u, v);
            lemma_connected_transitive(rule, walk.first(), walk[i - 2], walk[i]);
        }
    }
}

/// Walling up a cave that is not on the edge leaves the floors of a level
/// in one piece.
proof fn lemma_cave_walled_up(before: Grid<Terrain>, after: Grid<Terrain>, p: Pos)
    requires
        walled_up(before, after, p),
        before.spec_width() <= MAX_SIDE,
        before.spec_height() <= MAX_SIDE,
        spec_is_cave(before, p),
        p.in_bounds(),
        joined_floors(before),
    ensures
        joined_floors(after),
{
    reveal(walled_up);
    let old_rule = lies_at(before, Terrain::Floor);
    let rule = lies_at(after, Terrain::Floor);
    assert forall|a: Pos, b: Pos| #[trigger] rule(a) && #[trigger] rule(b) implies connected(
        rule,
        a,
        b,
    ) by {
        assert(old_rule(a) && old_rule(b));
        let walk = choose|walk: Seq<Pos>| #[trigger]
            is_walk(old_rule, walk) && walk.first() == a && walk.last() == b;
        lemma_walk_around(before, after, p, walk, walk.len() - 1);
    }
}

/// A level whose floors are all that was joined to one position, under
/// some rule, has its floors in one piece.
pub proof fn lemma_component_floors(grid: Grid<Terrain>, rule: spec_fn(Pos) -> bool, origin: Pos)
    requires
        forall|q: Pos| #[trigger]
            component(rule, origin).contains(q) <==> lies_at(grid, Terrain::Floor)(q),
    ensures
        joined_floors(grid),
{
    let floor = lies_at(grid, Terrain::Floor);
    assert forall|a: Pos, b: Pos| #[trigger] floor(a) && #[trigger] floor(b) implies connected(
        floor,
        a,
        b,
    ) by {
        assert(component(rule, origin).contains(a));
        assert(component(rule, origin).contains(b));
        lemma_within_component(rule, floor, origin, a);
        lemma_within_component(rule, floor, origin, b);
        lemma_connected_symmetric(floor, origin, a);
        lemma_connected_transitive(floor, a, origin, b);
    }
}

/// Turning a cave of a walled level into wall leaves the floors in one piece.
pub proof fn lemma_cave_filled(before: Grid<Terrain>, after: Grid<Terrain>, p: Pos)
    requires
        walled(before),
        before.spec_contains(p),
        spec_is_cave(before, p),
        after.same_size(before),
        after.spec_at(p) == Terrain::Wall,
        forall|q: Pos|
            before.spec_contains(q) && q != p ==> #[trigger] after.spec_at(q) == before.spec_at(q),
        before.spec_width() <= MAX_SIDE,
        before.spec_height() <= MAX_SIDE,
        joined_floors(before),
    ensures
        joined_floors(after),
{
    reveal(walled_up);
    assert(before.spec_inner(p));
    assert(p.in_bounds());
    assert(walled_up(before, after, p));
    lemma_cave_walled_up(before, after, p);
}

} // verus!
