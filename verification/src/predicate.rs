//! Position predicates handed in by callers, and what can be reached under them.
//!
//! A search takes its rules as functions from a position to an answer. Such a
//! function must accept every position and give one answer per position.
//! The same is asked of the functions that judge what a grid holds.

use crate::grid::{direction_at, Pos, MAX_COORD};
use vstd::prelude::*;

verus! {

/// Whether `f` accepts every argument and answers each in one way only.
pub open spec fn is_pure<A, R, F: Fn(A) -> R>(f: F) -> bool {
    &&& forall|p: A| #[trigger] call_requires(f, (p,))
    &&& forall|p: A, a: R, b: R|
        #[trigger] call_ensures(f, (p,), a) && #[trigger] call_ensures(f, (p,), b) ==> a == b
}

/// Whether `f` accepts every argument.
pub open spec fn total<A, R, F: Fn(A) -> R>(f: F) -> bool {
    forall|p: A| #[trigger] call_requires(f, (p,))
}

/// Whether `f` gives no answer but that of `rule`.
pub open spec fn answers<A, R, F: Fn(A) -> R>(f: F, rule: spec_fn(A) -> R) -> bool {
    forall|p: A, r: R| #[trigger] call_ensures(f, (p,), r) ==> r == rule(p)
}

/// A function that answers each argument in one way only answers by the
/// rule of the arguments on which it answers `true`.
pub proof fn lemma_pure_answers<A, F: Fn(A) -> bool>(f: F)
    requires
        is_pure(f),
    ensures
        answers(f, truth(f)),
{
    assert forall|p: A, r: bool| #[trigger] call_ensures(f, (p,), r) implies r == truth(f)(p) by {
        if !r && call_ensures(f, (p,), true) {
            assert(r == true);
        }
    }
}

/// The positions on which `f` does not answer `false`, as a predicate.
pub open spec fn undenied<F: Fn(Pos) -> bool>(f: F) -> spec_fn(Pos) -> bool {
    |p: Pos| !call_ensures(f, (p,), false)
}

/// The arguments on which `f` answers `true`, as a predicate.
pub open spec fn truth<A, F: Fn(A) -> bool>(f: F) -> spec_fn(A) -> bool {
    |p: A| call_ensures(f, (p,), true)
}

/// Whether `pred` holds only of positions within `MAX_COORD` of the origin
/// of the coordinates.
pub open spec fn bounded(pred: spec_fn(Pos) -> bool) -> bool {
    forall|p: Pos| #[trigger] pred(p) ==> p.in_bounds()
}

/// Whether `walk` is a non-empty chain of neighboring positions that all
/// satisfy `pred`.
pub open spec fn is_walk(pred: spec_fn(Pos) -> bool, walk: Seq<Pos>) -> bool {
    &&& walk.len() > 0
    &&& forall|i: int| 0 <= i < walk.len() ==> pred(#[trigger] walk[i])
    &&& forall|i: int| 0 <= i < walk.len() - 1 ==> (#[trigger] walk[i]).adjacent(walk[i + 1])
}

/// Whether a chain of neighboring positions that all satisfy `pred` leads
/// from `from` to `to`.
pub open spec fn connected(pred: spec_fn(Pos) -> bool, from: Pos, to: Pos) -> bool {
    exists|walk: Seq<Pos>| #[trigger]
        is_walk(pred, walk) && walk.first() == from && walk.last() == to
}

/// Every position that a chain of neighboring positions satisfying `pred`
/// joins to `origin`. It is empty where `origin` does not satisfy `pred`.
pub open spec fn component(pred: spec_fn(Pos) -> bool, origin: Pos) -> Set<Pos> {
    Set::new(|p: Pos| connected(pred, origin, p))
}

/// All positions within `MAX_COORD` of the origin of the coordinates.
pub open spec fn bounds() -> Set<Pos> {
    Set::new(|p: Pos| p.in_bounds())
}

/// A position that satisfies `pred` is joined to itself.
pub proof fn lemma_connected_self(pred: spec_fn(Pos) -> bool, origin: Pos)
    requires
        pred(origin),
    ensures
        connected(pred, origin, origin),
{
    let walk = seq![origin];
    assert(is_walk(pred, walk));
    assert(walk.first() == origin && walk.last() == origin);
}

/// A chain can be extended by a neighbor that satisfies `pred`.
pub proof fn lemma_connected_step(pred: spec_fn(Pos) -> bool, origin: Pos, p: Pos, q: Pos)
    requires
        connected(pred, origin, p),
        p.adjacent(q),
        pred(q),
    ensures
        connected(pred, origin, q),
{
    let walk = choose|walk: Seq<Pos>| #[trigger]
        is_walk(pred, walk) && walk.first() == origin && walk.last() == p;
    let longer = walk.push(q);
    assert forall|i: int| 0 <= i < longer.len() implies pred(#[trigger] longer[i]) by {
        if i < walk.len() {
            assert(longer[i] == walk[i]);
        }
    }
    assert forall|i: int| 0 <= i < longer.len() - 1 implies (#[trigger] longer[i]).adjacent(
        longer[i + 1],
    ) by {
        if i < walk.len() - 1 {
            assert(longer[i] == walk[i]);
            assert(longer[i + 1] == walk[i + 1]);
        } else {
            assert(longer[i] == walk.last());
        }
    }
    assert(is_walk(pred, longer));
    assert(longer.first() == walk.first());
    assert(longer.last() == q);
}

/// What is joined under a predicate is joined under every predicate that
/// holds wherever the first does.
pub proof fn lemma_connected_weaken(
    pred: spec_fn(Pos) -> bool,
    weaker: spec_fn(Pos) -> bool,
    origin: Pos,
    p: Pos,
)
    requires
        connected(pred, origin, p),
        forall|q: Pos| #[trigger] pred(q) ==> weaker(q),
    ensures
        connected(weaker, origin, p),
{
    let walk = choose|walk: Seq<Pos>| #[trigger]
        is_walk(pred, walk) && walk.first() == origin && walk.last() == p;
    assert forall|i: int| 0 <= i < walk.len() implies weaker(#[trigger] walk[i]) by {
        assert(pred(walk[i]));
    }
    assert(is_walk(weaker, walk));
}

/// What is joined one way is joined the other way.
pub proof fn lemma_connected_symmetric(pred: spec_fn(Pos) -> bool, a: Pos, b: Pos)
    requires
        connected(pred, a, b),
    ensures
        connected(pred, b, a),
{
    let walk = choose|walk: Seq<Pos>| #[trigger]
        is_walk(pred, walk) && walk.first() == a && walk.last() == b;
    let back = walk.reverse();
    let n = walk.len() as int;
    assert forall|i: int| 0 <= i < back.len() implies pred(#[trigger] back[i]) by {
        assert(back[i] == walk[n - 1 - i]);
    }
    assert forall|i: int| 0 <= i < back.len() - 1 implies (#[trigger] back[i]).adjacent(
        back[i + 1],
    ) by {
        assert(back[i] == walk[n - 1 - i]);
        assert(back[i + 1] == walk[n - 2 - i]);
        assert(walk[n - 2 - i].adjacent(walk[(n - 2 - i) + 1]));
        crate::grid::laws::lemma_distance_symmetric(walk[n - 2 - i], walk[n - 1 - i]);
    }
    assert(is_walk(pred, back));
    assert(back.first() == b && back.last() == a);
}

/// What is joined to something that is joined to a third is joined to the third.
pub proof fn lemma_connected_transitive(pred: spec_fn(Pos) -> bool, a: Pos, b: Pos, c: Pos)
    requires
        connected(pred, a, b),
        connected(pred, b, c),
    ensures
        connected(pred, a, c),
{
    let first = choose|walk: Seq<Pos>| #[trigger]
        is_walk(pred, walk) && walk.first() == a && walk.last() == b;
    let second = choose|walk: Seq<Pos>| #[trigger]
        is_walk(pred, walk) && walk.first() == b && walk.last() == c;
    lemma_walk_extends(pred, a, first, second, second.len() as int);
}

/// A walk that ends where another begins goes on along the first `n`
/// positions of the other.
proof fn lemma_walk_extends(
    pred: spec_fn(Pos) -> bool,
    a: Pos,
    first: Seq<Pos>,
    second: Seq<Pos>,
    n: int,
)
    requires
        is_walk(pred, first),
        is_walk(pred, second),
        first.first() == a,
        first.last() == second.first(),
        1 <= n <= second.len(),
    ensures
        connected(pred, a, second[n - 1]),
    decreases n,
{
    if n == 1 {
        assert(is_walk(pred, first) && first.first() == a && first.last() == second[0]);
    } else {
        lemma_walk_extends(pred, a, first, second, n - 1);
        assert(second[n - 2].adjacent(second[n - 2 + 1]));
        assert(pred(second[n - 1]));
        lemma_connected_step(pred, a, second[n - 2], second[n - 1]);
    }
}

/// Every position of a walk is joined to the first.
pub proof fn lemma_walk_joined(pred: spec_fn(Pos) -> bool, walk: Seq<Pos>, i: int)
    requires
        is_walk(pred, walk),
        0 <= i < walk.len(),
    ensures
        connected(pred, walk.first(), walk[i]),
    decreases i,
{
    if i == 0 {
        assert(pred(walk[0]));
        lemma_connected_self(pred, walk.first());
    } else {
        lemma_walk_joined(pred, walk, i - 1);
        assert(walk[i - 1].adjacent(walk[i - 1 + 1]));
        assert(pred(walk[i]));
        lemma_connected_step(pred, walk.first(), walk[i - 1], walk[i]);
    }
}

/// Whatever is joined to `origin` satisfies `pred`, and so does `origin`.
pub proof fn lemma_connected_satisfies(pred: spec_fn(Pos) -> bool, origin: Pos, p: Pos)
    requires
        connected(pred, origin, p),
    ensures
        pred(p),
        pred(origin),
{
    let walk = choose|walk: Seq<Pos>| #[trigger]
        is_walk(pred, walk) && walk.first() == origin && walk.last() == p;
    assert(pred(walk[0]));
    assert(pred(walk[walk.len() - 1]));
}

/// What is joined to `origin` under `rule` is joined to it under any rule
/// that holds of all that is joined to `origin`.
pub proof fn lemma_within_component(
    rule: spec_fn(Pos) -> bool,
    weaker: spec_fn(Pos) -> bool,
    origin: Pos,
    p: Pos,
)
    requires
        connected(rule, origin, p),
        forall|q: Pos| #[trigger] component(rule, origin).contains(q) ==> weaker(q),
    ensures
        connected(weaker, origin, p),
{
    let walk = choose|walk: Seq<Pos>| #[trigger]
        is_walk(rule, walk) && walk.first() == origin && walk.last() == p;
    assert forall|i: int| 0 <= i < walk.len() implies weaker(#[trigger] walk[i]) by {
        lemma_walk_joined(rule, walk, i);
        assert(component(rule, origin).contains(walk[i]));
    }
    assert(is_walk(weaker, walk));
}

/// Two positions that are joined have the same positions joined to them.
pub proof fn lemma_same_component(pred: spec_fn(Pos) -> bool, a: Pos, b: Pos)
    requires
        connected(pred, a, b),
    ensures
        component(pred, a) == component(pred, b),
{
    lemma_connected_symmetric(pred, a, b);
    assert forall|q: Pos| component(pred, a).contains(q) <==> component(pred, b).contains(q) by {
        if connected(pred, a, q) {
            lemma_connected_transitive(pred, b, a, q);
        }
        if connected(pred, b, q) {
            lemma_connected_transitive(pred, a, b, q);
        }
    }
    assert(component(pred, a) =~= component(pred, b));
}

/// Taking all that is joined to `gone` out of a rule changes nothing in
/// what is joined to a position that is left.
pub proof fn lemma_component_apart(
    pred: spec_fn(Pos) -> bool,
    lesser: spec_fn(Pos) -> bool,
    gone: Pos,
    q: Pos,
)
    requires
        forall|r: Pos| #[trigger] lesser(r) <==> pred(r) && !component(pred, gone).contains(r),
        lesser(q),
    ensures
        component(lesser, q) == component(pred, q),
{
    assert forall|s: Pos| #[trigger] component(pred, q).contains(s) implies lesser(s) by {
        lemma_connected_satisfies(pred, q, s);
        if component(pred, gone).contains(s) {
            lemma_connected_symmetric(pred, q, s);
            lemma_connected_transitive(pred, gone, s, q);
            assert(component(pred, gone).contains(q));
        }
    }
    assert forall|r: Pos| component(lesser, q).contains(r) <==> component(pred, q).contains(
        r,
    ) by {
        if connected(lesser, q, r) {
            lemma_connected_weaken(lesser, pred, q, r);
        }
        if connected(pred, q, r) {
            lemma_within_component(pred, lesser, q, r);
        }
    }
    assert(component(lesser, q) =~= component(pred, q));
}

/// Whether `set` holds every neighbor, satisfying `pred`, of each of its members.
pub open spec fn closed(pred: spec_fn(Pos) -> bool, set: Set<Pos>) -> bool {
    forall|p: Pos, q: Pos| #[trigger]
        set.contains(p) && #[trigger] p.adjacent(q) && pred(q) ==> set.contains(q)
}

/// What is joined to `origin` is what a flood that walks from neighbor to
/// neighbor finds: it holds `origin` if `origin` satisfies `pred`, and every
/// satisfying neighbor of each of its members. By `lemma_closed_holds_component`
/// it is the least such set.
pub proof fn lemma_component_closed(pred: spec_fn(Pos) -> bool, origin: Pos)
    ensures
        component(pred, origin).contains(origin) <==> pred(origin),
        closed(pred, component(pred, origin)),
{
    if pred(origin) {
        lemma_connected_self(pred, origin);
    }
    if connected(pred, origin, origin) {
        lemma_connected_satisfies(pred, origin, origin);
    }
    assert forall|p: Pos, q: Pos| #[trigger]
        component(pred, origin).contains(p) && #[trigger] p.adjacent(q) && pred(q) implies component(
        pred,
        origin,
    ).contains(q) by {
        lemma_connected_step(pred, origin, p, q);
    }
}

/// A set that holds `origin` and every satisfying neighbor of its members
/// holds all that is joined to `origin`.
pub proof fn lemma_closed_holds_component(pred: spec_fn(Pos) -> bool, origin: Pos, set: Set<Pos>)
    requires
        set.contains(origin),
        closed(pred, set),
    ensures
        component(pred, origin).subset_of(set),
{
    assert forall|p: Pos| component(pred, origin).contains(p) implies set.contains(p) by {
        let walk = choose|walk: Seq<Pos>| #[trigger]
            is_walk(pred, walk) && walk.first() == origin && walk.last() == p;
        lemma_walk_stays(pred, set, walk, walk.len() - 1);
    }
}

proof fn lemma_walk_stays(pred: spec_fn(Pos) -> bool, set: Set<Pos>, walk: Seq<Pos>, k: int)
    requires
        is_walk(pred, walk),
        set.contains(walk.first()),
        closed(pred, set),
        0 <= k < walk.len(),
    ensures
        set.contains(walk[k]),
    decreases k,
{
    if k > 0 {
        lemma_walk_stays(pred, set, walk, k - 1);
        assert(walk[k - 1].adjacent(walk[k - 1 + 1]));
        assert(pred(walk[k]));
    }
}

/// The positions within bounds are finitely many.
pub proof fn lemma_bounds_finite()
    ensures
        bounds().finite(),
{
    // 8193 positions lie on a line between -MAX_COORD and MAX_COORD, and
    // 67125249 is the square of that.
    assert(2 * MAX_COORD + 1 == 8193);
    let range = vstd::set_lib::set_int_range(0, 67125249);
    let decode = |i: int| Pos { x: (i / 8193 - MAX_COORD) as i32, y: (i % 8193 - MAX_COORD) as i32 };
    vstd::set_lib::lemma_int_range(0, 67125249);
    assert forall|p: Pos| bounds().contains(p) implies #[trigger] range.map(decode).contains(p) by {
        let i: int = (p.x + MAX_COORD) * 8193 + (p.y + MAX_COORD);
        assert(range.contains(i));
        assert(decode(i) == p);
    }
    assert forall|p: Pos| #[trigger] range.map(decode).contains(p) implies bounds().contains(p) by {
        let i = choose|i: int| range.contains(i) && decode(i) == p;
        assert(0 <= i / 8193 < 8193);
    }
    assert(range.map(decode) =~= bounds());
    vstd::set_lib::lemma_map_size_bound(range, bounds(), decode);
}

} // verus!
