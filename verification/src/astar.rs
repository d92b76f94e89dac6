//! Jump point search on the hexagonal grid.
//!
//! A jump point is a position together with the direction in which the
//! search travels from it, its stem, and the side to which it may turn
//! off the stem. From a jump point the search scans the stem, and from each
//! position of the stem the leaf: the line in the direction one turn from
//! the stem. It stops where it meets the goal, and it opens a new jump
//! point where a corner forces a turn.

use crate::grid::laws::{lemma_decompose_solves, lemma_decompose_unique, lemma_unit_times};
use crate::grid::{decompose, direction_at, direction_of_index, independent, spec_decompose};
use crate::grid::{Direction, Displacement, Pos, MAX_COORD};
use crate::minheap::MinHeap;
use crate::posmap::PosMap;
use crate::predicate::{answers, bounded, is_pure, lemma_pure_answers, total, truth};
use progress::{
    advanced, cost_at, cost_limit, fanout, frontier_weight, lemma_frontier_push,
    lemma_frontier_remove, lemma_frontier_weight_positive, lemma_recorded_push,
    lemma_total_cost_lowered, lemma_total_cost_positive, lemma_unrecorded_falls, lemma_weight,
    lemma_weight_falls, recorded, total_cost, unrecorded, weight,
};
use vstd::prelude::*;

pub mod progress;

verus! {

/// A node of the search frontier.
#[derive(PartialEq, Eq, Structural, Debug, Copy, Clone)]
pub enum OpenNode {
    Goal(Pos),
    JumpPoint(JumpPoint),
}

/// A position from which the search scans on, the direction of its stem and
/// the side to which it turns.
#[derive(PartialEq, Eq, Structural, Debug, Copy, Clone)]
pub struct JumpPoint {
    pub pos: Pos,
    pub direction: Direction,
    pub chirality: Chirality,
}

/// The side to which a jump point turns off its stem.
#[derive(PartialEq, Eq, Structural, Debug, Copy, Clone)]
pub enum Chirality {
    Clockwise,
    Counterclockwise,
}

/// The position `a` steps in direction `d1` and `b` steps in direction `d2` from `p`.
pub open spec fn offset(p: Pos, d1: Direction, a: int, d2: Direction, b: int) -> Pos {
    Pos::at(
        p.x + d1.spec_x() * a + d2.spec_x() * b,
        p.y + d1.spec_y() * a + d2.spec_y() * b,
    )
}

/// Whether a scan from `jp` comes to `q`: `q` lies one step or more along the
/// stem and then none or more along the leaf, and every position on the way,
/// `q` among them, is passable and within bounds.
#[verifier::opaque]
pub open spec fn reaches(passable: spec_fn(Pos) -> bool, jp: JumpPoint, q: Pos) -> bool {
    let stem = jp.direction;
    let leaf = jp.leaf_direction();
    let (a, b) = spec_decompose(Displacement::of(q.x - jp.pos.x, q.y - jp.pos.y), stem, leaf);
    &&& jp.pos.in_bounds()
    &&& q.in_bounds()
    &&& a >= 1
    &&& b >= 0
    &&& forall|i: int|
        1 <= i <= a ==> passable(#[trigger] offset(jp.pos, stem, i, leaf, 0)) && offset(
            jp.pos,
            stem,
            i,
            leaf,
            0,
        ).in_bounds()
    &&& forall|j: int|
        1 <= j <= b ==> passable(#[trigger] offset(jp.pos, stem, a, leaf, j)) && offset(
            jp.pos,
            stem,
            a,
            leaf,
            j,
        ).in_bounds()
}

/// Whether `node` is what a scan from `jp` may find: the scan comes to its
/// position, a goal node stands on a goal, and a jump point does not.
pub open spec fn found_from(
    is_goal: spec_fn(Pos) -> bool,
    passable: spec_fn(Pos) -> bool,
    jp: JumpPoint,
    node: OpenNode,
) -> bool {
    &&& reaches(passable, jp, node.spec_pos())
    &&& node matches OpenNode::Goal(p) ==> is_goal(p)
    &&& node matches OpenNode::JumpPoint(j) ==> !is_goal(j.pos)
}

/// Whether `path` leads from `origin` to a goal by steps between neighbors,
/// over passable positions from the first step on.
pub open spec fn is_path(
    is_goal: spec_fn(Pos) -> bool,
    passable: spec_fn(Pos) -> bool,
    origin: Pos,
    path: Seq<Pos>,
) -> bool {
    &&& path.len() >= 1
    &&& path.first() == origin
    &&& is_goal(path.last())
    &&& forall|i: int| 0 <= i < path.len() - 1 ==> (#[trigger] path[i]).adjacent(path[i + 1])
    &&& forall|i: int| 1 <= i < path.len() ==> passable(#[trigger] path[i])
}

impl Chirality {
    /// `direction` turned by `n` steps to this side.
    pub open spec fn spec_rotate(self, direction: Direction, n: int) -> Direction {
        match self {
            Chirality::Clockwise => direction.spec_rotate(n),
            Chirality::Counterclockwise => direction.spec_rotate(-n),
        }
    }

    /// Turns `direction` by `n` steps to this side.
    pub fn rotate(&self, direction: Direction, n: i32) -> (res: Direction)
        requires
            n != i32::MIN,
        ensures
            res == self.spec_rotate(direction, n as int),
    {
        match self {
            Chirality::Clockwise => direction.rotate(n),
            Chirality::Counterclockwise => direction.rotate(-n),
        }
    }

    /// The other side.
    pub fn flip(self) -> (res: Self)
        ensures
            res != self,
    {
        match self {
            Chirality::Clockwise => Chirality::Counterclockwise,
            Chirality::Counterclockwise => Chirality::Clockwise,
        }
    }
}

impl OpenNode {
    /// The position on which this node stands.
    pub open spec fn spec_pos(self) -> Pos {
        match self {
            OpenNode::Goal(pos) => pos,
            OpenNode::JumpPoint(jp) => jp.pos,
        }
    }

    /// The jump point with which a search sets out from `pos` in `direction`.
    pub fn initial(pos: Pos, direction: Direction) -> (res: Self)
        ensures
            res == OpenNode::JumpPoint(
                JumpPoint { pos, direction, chirality: Chirality::Clockwise },
            ),
    {
        OpenNode::JumpPoint(JumpPoint { pos, direction, chirality: Chirality::Clockwise })
    }

    /// The position on which this node stands.
    pub fn pos(&self) -> (res: Pos)
        ensures
            res == self.spec_pos(),
    {
        match *self {
            OpenNode::Goal(pos) => pos,
            OpenNode::JumpPoint(JumpPoint { pos, .. }) => pos,
        }
    }
}

/// The position `n` steps from `p` in direction `dir`.
fn along(p: Pos, dir: Direction, n: i32) -> (res: Pos)
    requires
        -0x10000 <= p.x <= 0x10000,
        -0x10000 <= p.y <= 0x10000,
        -0x10000 <= n <= 0x10000,
    ensures
        res == p.spec_along(dir, n as int),
        res.x == p.x + dir.spec_x() * n,
        res.y == p.y + dir.spec_y() * n,
{
    proof {
        lemma_unit_times(dir.spec_x(), n as int);
        lemma_unit_times(dir.spec_y(), n as int);
    }
    p + dir * n
}

/// A position `n` steps along a line from a position within bounds is within
/// bounds only if `n` is at most twice `MAX_COORD`.
proof fn lemma_along_bound(p: Pos, dir: Direction, n: int)
    requires
        p.in_bounds(),
        n >= 0,
        -MAX_COORD <= p.x + dir.spec_x() * n <= MAX_COORD,
        -MAX_COORD <= p.y + dir.spec_y() * n <= MAX_COORD,
    ensures
        n <= 2 * MAX_COORD,
{
    lemma_unit_times(dir.spec_x(), n);
    lemma_unit_times(dir.spec_y(), n);
}

impl JumpPoint {
    /// The direction of the leaves of this jump point: one turn from its
    /// stem, to its side.
    pub open spec fn leaf_direction(self) -> Direction {
        self.chirality.spec_rotate(self.direction, 1)
    }

    /// Whether a corner forces a turn here: the position one turn back from
    /// the direction of this jump point is blocked, and the one ahead is open.
    pub open spec fn forced(self, passable: spec_fn(Pos) -> bool) -> bool {
        !passable(self.pos.spec_neighbor(self.chirality.spec_rotate(self.direction, -1)))
            && passable(self.pos.spec_neighbor(self.direction))
    }

    /// The direction of this jump point turned by `n` steps to its side.
    pub fn rotated_dir(&self, n: i32) -> (res: Direction)
        requires
            n != i32::MIN,
        ensures
            res == self.chirality.spec_rotate(self.direction, n as int),
    {
        self.chirality.rotate(self.direction, n)
    }

    /// The position `x` steps along the stem of this jump point and `y`
    /// steps along its leaf.
    pub fn pos(&self, x: i32, y: i32) -> (res: Pos)
        requires
            self.pos.in_bounds(),
            -0x8000 <= x <= 0x8000,
            -0x8000 <= y <= 0x8000,
        ensures
            res == offset(self.pos, self.direction, x as int, self.leaf_direction(), y as int),
    {
        let tip = along(self.pos, self.direction, x);
        proof {
            lemma_unit_times(self.direction.spec_x(), x as int);
            lemma_unit_times(self.direction.spec_y(), x as int);
            lemma_unit_times(self.leaf_direction().spec_x(), y as int);
            lemma_unit_times(self.leaf_direction().spec_y(), y as int);
        }
        along(tip, self.rotated_dir(1), y)
    }

    /// The jump point at `pos` that turns off a scan in `old_direction` to
    /// the side `new_chirality`.
    pub fn neighbor_of(pos: Pos, old_direction: Direction, new_chirality: Chirality) -> (res: Self)
        ensures
            res == (JumpPoint {
                pos,
                direction: new_chirality.spec_rotate(old_direction, -1),
                chirality: new_chirality,
            }),
    {
        JumpPoint {
            pos,
            direction: new_chirality.rotate(old_direction, -1),
            chirality: new_chirality,
        }
    }

    /// Whether a corner forces a turn here. What is passable is what
    /// `passable` says: the result is stated for every rule that it answers by.
    pub fn is_forced<FP: Fn(Pos) -> bool>(&self, passable: &FP) -> (res: bool)
        requires
            total(*passable),
            self.pos.in_bounds(),
        ensures
            forall|rule: spec_fn(Pos) -> bool| #[trigger]
                answers(*passable, rule) ==> res == self.forced(rule),
    {
        let corner = self.pos + self.chirality.rotate(self.direction, -1);
        !passable(corner) && passable(self.pos + self.direction)
    }
}

/// What the scan of a leaf finds from the position `len` steps from `root`
/// on: nothing from the first position that is not passable on; a goal node
/// at the first goal, and nothing beyond it; before that, at each position,
/// the jump points at which a corner forces a turn, the clockwise one first.
pub open spec fn leaf_nodes(
    is_goal: spec_fn(Pos) -> bool,
    passable: spec_fn(Pos) -> bool,
    root: Pos,
    direction: Direction,
    len: int,
) -> Seq<OpenNode>
    decreases 2 * MAX_COORD + 2 - len,
{
    let pos = root.spec_along(direction, len);
    if len < 1 || len > 2 * MAX_COORD + 1 || !passable(pos) {
        Seq::empty()
    } else if is_goal(pos) {
        seq![OpenNode::Goal(pos)]
    } else {
        turn_nodes(passable, pos, direction, Chirality::Clockwise) + turn_nodes(
            passable,
            pos,
            direction,
            Chirality::Counterclockwise,
        ) + leaf_nodes(is_goal, passable, root, direction, len + 1)
    }
}

/// The jump point at `pos` that turns off a scan in `direction` to the side
/// `chirality`, if a corner forces that turn.
pub open spec fn turn_nodes(
    passable: spec_fn(Pos) -> bool,
    pos: Pos,
    direction: Direction,
    chirality: Chirality,
) -> Seq<OpenNode> {
    let turn = JumpPoint { pos, direction: chirality.spec_rotate(direction, -1), chirality };
    if turn.forced(passable) {
        seq![OpenNode::JumpPoint(turn)]
    } else {
        Seq::empty()
    }
}

/// What the scan of the stem of `jp` finds from the position `len` steps
/// from `jp` on: nothing from the first position that is not passable on; a
/// goal node at the first goal, and nothing beyond it; before that, at each
/// position, the jump point at which a corner forces a turn to the side of
/// `jp`, and then what the scan of the leaf at that position finds.
pub open spec fn stem_nodes(
    is_goal: spec_fn(Pos) -> bool,
    passable: spec_fn(Pos) -> bool,
    jp: JumpPoint,
    len: int,
) -> Seq<OpenNode>
    decreases 2 * MAX_COORD + 2 - len,
{
    let pos = jp.pos.spec_along(jp.direction, len);
    if len < 1 || len > 2 * MAX_COORD + 1 || !passable(pos) {
        Seq::empty()
    } else if is_goal(pos) {
        seq![OpenNode::Goal(pos)]
    } else {
        turn_nodes(passable, pos, jp.direction, jp.chirality) + leaf_nodes(
            is_goal,
            passable,
            pos,
            jp.leaf_direction(),
            1,
        ) + stem_nodes(is_goal, passable, jp, len + 1)
    }
}

/// Whether a goal node is among `nodes`.
pub open spec fn has_goal(nodes: Seq<OpenNode>) -> bool {
    exists|k: int| 0 <= k < nodes.len() && (#[trigger] nodes[k]) is Goal
}

/// A goal node among some nodes is among them with others before and after.
proof fn lemma_has_goal_within(before: Seq<OpenNode>, nodes: Seq<OpenNode>, after: Seq<OpenNode>)
    requires
        has_goal(nodes),
    ensures
        has_goal(before + nodes + after),
{
    let k = choose|k: int| 0 <= k < nodes.len() && (#[trigger] nodes[k]) is Goal;
    assert((before + nodes + after)[before.len() + k] == nodes[k]);
}

/// The scan of a leaf finds a goal node where a goal lies on the leaf with
/// passable positions only before it.
proof fn lemma_leaf_finds_goal(
    is_goal: spec_fn(Pos) -> bool,
    passable: spec_fn(Pos) -> bool,
    root: Pos,
    direction: Direction,
    from: int,
    b: int,
)
    requires
        1 <= from <= b <= 2 * MAX_COORD + 1,
        forall|j: int| from <= j <= b ==> passable(#[trigger] root.spec_along(direction, j)),
        is_goal(root.spec_along(direction, b)),
    ensures
        has_goal(leaf_nodes(is_goal, passable, root, direction, from)),
    decreases b - from,
{
    let pos = root.spec_along(direction, from);
    assert(passable(pos));
    if is_goal(pos) {
        assert(seq![OpenNode::Goal(pos)][0] is Goal);
    } else {
        lemma_leaf_finds_goal(is_goal, passable, root, direction, from + 1, b);
        lemma_has_goal_within(
            turn_nodes(passable, pos, direction, Chirality::Clockwise) + turn_nodes(
                passable,
                pos,
                direction,
                Chirality::Counterclockwise,
            ),
            leaf_nodes(is_goal, passable, root, direction, from + 1),
            Seq::empty(),
        );
        assert(leaf_nodes(is_goal, passable, root, direction, from) =~= turn_nodes(
            passable,
            pos,
            direction,
            Chirality::Clockwise,
        ) + turn_nodes(passable, pos, direction, Chirality::Counterclockwise) + leaf_nodes(
            is_goal,
            passable,
            root,
            direction,
            from + 1,
        ) + Seq::empty());
    }
}

/// The scan of a stem finds a goal node where a goal lies `a` steps along
/// the stem and `b` along the leaf, with passable positions only before it.
proof fn lemma_stem_finds_goal(
    is_goal: spec_fn(Pos) -> bool,
    passable: spec_fn(Pos) -> bool,
    jp: JumpPoint,
    from: int,
    a: int,
    b: int,
)
    requires
        jp.pos.in_bounds(),
        1 <= from <= a <= 2 * MAX_COORD,
        0 <= b <= 2 * MAX_COORD,
        jp.pos.spec_along(jp.direction, a).in_bounds(),
        forall|i: int| from <= i <= a ==> passable(#[trigger] jp.pos.spec_along(jp.direction, i)),
        forall|j: int|
            1 <= j <= b ==> passable(
                #[trigger] jp.pos.spec_along(jp.direction, a).spec_along(jp.leaf_direction(), j),
            ),
        is_goal(jp.pos.spec_along(jp.direction, a).spec_along(jp.leaf_direction(), b)),
    ensures
        has_goal(stem_nodes(is_goal, passable, jp, from)),
    decreases a - from,
{
    let pos = jp.pos.spec_along(jp.direction, from);
    let leaf = jp.leaf_direction();
    assert(passable(pos));
    if is_goal(pos) {
        assert(seq![OpenNode::Goal(pos)][0] is Goal);
    } else {
        let turns = turn_nodes(passable, pos, jp.direction, jp.chirality);
        let leaves = leaf_nodes(is_goal, passable, pos, leaf, 1);
        let rest = stem_nodes(is_goal, passable, jp, from + 1);
        if from == a {
            lemma_unit_times(leaf.spec_x(), 0);
            lemma_unit_times(leaf.spec_y(), 0);
            assert(pos.spec_along(leaf, 0) == pos);
            lemma_leaf_finds_goal(is_goal, passable, pos, leaf, 1, b);
            lemma_has_goal_within(turns, leaves, rest);
        } else {
            lemma_stem_finds_goal(is_goal, passable, jp, from + 1, a, b);
            lemma_has_goal_within(turns + leaves, rest, Seq::empty());
            assert(turns + leaves + rest + Seq::empty() =~= turns + leaves + rest);
        }
    }
}

/// A scan from `jp` finds a goal node where it comes to a goal.
pub proof fn lemma_scan_finds_goal(
    is_goal: spec_fn(Pos) -> bool,
    passable: spec_fn(Pos) -> bool,
    jp: JumpPoint,
    q: Pos,
)
    requires
        reaches(passable, jp, q),
        is_goal(q),
    ensures
        has_goal(stem_nodes(is_goal, passable, jp, 1)),
{
    lemma_reach_runs(passable, jp, q);
    let (a, b) = spec_decompose(
        Displacement::of(q.x - jp.pos.x, q.y - jp.pos.y),
        jp.direction,
        jp.leaf_direction(),
    );
    lemma_stem_finds_goal(is_goal, passable, jp, 1, a, b);
}

/// The most nodes that the scan of one stem and its leaves finds: for each
/// position that the stem can have within bounds one, and two for each
/// position that its leaf can have.
pub const STEM_NODES: usize = 134258691;

/// The stem and the leaf of a jump point span the plane.
proof fn lemma_leaf_independent(jp: JumpPoint)
    ensures
        independent(jp.direction, jp.leaf_direction()),
{
}

/// A position that lies `a` steps along the stem and `b` along the leaf of
/// `jp`, past passable positions only, is one that a scan from `jp` comes to.
proof fn lemma_reaches(passable: spec_fn(Pos) -> bool, jp: JumpPoint, a: int, b: int)
    requires
        bounded(passable),
        jp.pos.in_bounds(),
        a >= 1,
        b >= 0,
        offset(jp.pos, jp.direction, a, jp.leaf_direction(), b).in_bounds(),
        -MAX_COORD <= jp.pos.x + jp.direction.spec_x() * a + jp.leaf_direction().spec_x() * b
            <= MAX_COORD,
        -MAX_COORD <= jp.pos.y + jp.direction.spec_y() * a + jp.leaf_direction().spec_y() * b
            <= MAX_COORD,
        forall|i: int|
            1 <= i <= a ==> passable(
                #[trigger] offset(jp.pos, jp.direction, i, jp.leaf_direction(), 0),
            ),
        forall|j: int|
            1 <= j <= b ==> passable(
                #[trigger] offset(jp.pos, jp.direction, a, jp.leaf_direction(), j),
            ),
    ensures
        reaches(passable, jp, offset(jp.pos, jp.direction, a, jp.leaf_direction(), b)),
{
    reveal(reaches);
    let q = offset(jp.pos, jp.direction, a, jp.leaf_direction(), b);
    let d = Displacement::of(q.x - jp.pos.x, q.y - jp.pos.y);
    lemma_leaf_independent(jp);
    lemma_decompose_unique(d, jp.direction, jp.leaf_direction(), a, b);
}

/// Whether each of `nodes` is what a scan from `jp` may find.
pub open spec fn all_found(
    is_goal: spec_fn(Pos) -> bool,
    passable: spec_fn(Pos) -> bool,
    jp: JumpPoint,
    nodes: Seq<OpenNode>,
) -> bool {
    forall|k: int| 0 <= k < nodes.len() ==> found_from(is_goal, passable, jp, #[trigger] nodes[k])
}

/// Nodes that a scan may find, followed by more such nodes, are such nodes.
proof fn lemma_all_found_joined(
    is_goal: spec_fn(Pos) -> bool,
    passable: spec_fn(Pos) -> bool,
    jp: JumpPoint,
    first: Seq<OpenNode>,
    second: Seq<OpenNode>,
)
    requires
        all_found(is_goal, passable, jp, first),
        all_found(is_goal, passable, jp, second),
    ensures
        all_found(is_goal, passable, jp, first + second),
{
    assert forall|k: int| 0 <= k < (first + second).len() implies found_from(
        is_goal,
        passable,
        jp,
        #[trigger] (first + second)[k],
    ) by {
        if k < first.len() {
            assert((first + second)[k] == first[k]);
        } else {
            assert((first + second)[k] == second[k - first.len()]);
        }
    }
}

/// A goal that a scan comes to is found as a goal node.
proof fn lemma_goal_found(
    is_goal: spec_fn(Pos) -> bool,
    passable: spec_fn(Pos) -> bool,
    jp: JumpPoint,
    pos: Pos,
)
    requires
        reaches(passable, jp, pos),
        is_goal(pos),
    ensures
        all_found(is_goal, passable, jp, seq![OpenNode::Goal(pos)]),
{
}

/// A jump point at a position that a scan comes to, which is no goal, is a
/// node that the scan may find.
proof fn lemma_turn_found(
    is_goal: spec_fn(Pos) -> bool,
    passable: spec_fn(Pos) -> bool,
    jp: JumpPoint,
    pos: Pos,
    direction: Direction,
    chirality: Chirality,
)
    requires
        reaches(passable, jp, pos),
        !is_goal(pos),
    ensures
        all_found(is_goal, passable, jp, turn_nodes(passable, pos, direction, chirality)),
{
}

/// The position `a` steps along the stem of `jp` and then `b` along its leaf.
proof fn lemma_leaf_position(jp: JumpPoint, a: int, b: int)
    requires
        jp.pos.in_bounds(),
        0 <= a <= 2 * MAX_COORD + 2,
        0 <= b <= 2 * MAX_COORD + 2,
    ensures
        jp.pos.spec_along(jp.direction, a).spec_along(jp.leaf_direction(), b) == offset(
            jp.pos,
            jp.direction,
            a,
            jp.leaf_direction(),
            b,
        ),
        offset(jp.pos, jp.direction, a, jp.leaf_direction(), b).x == jp.pos.x
            + jp.direction.spec_x() * a + jp.leaf_direction().spec_x() * b,
        offset(jp.pos, jp.direction, a, jp.leaf_direction(), b).y == jp.pos.y
            + jp.direction.spec_y() * a + jp.leaf_direction().spec_y() * b,
        jp.pos.spec_along(jp.direction, a) == offset(
            jp.pos,
            jp.direction,
            a,
            jp.leaf_direction(),
            0,
        ),
{
    lemma_unit_times(jp.direction.spec_x(), a);
    lemma_unit_times(jp.direction.spec_y(), a);
    lemma_unit_times(jp.leaf_direction().spec_x(), b);
    lemma_unit_times(jp.leaf_direction().spec_y(), b);
    lemma_unit_times(jp.leaf_direction().spec_x(), 0);
    lemma_unit_times(jp.leaf_direction().spec_y(), 0);
}

/// The scan of a leaf finds no more than two nodes for each position that
/// is left on the leaf.
proof fn lemma_leaf_count(
    is_goal: spec_fn(Pos) -> bool,
    passable: spec_fn(Pos) -> bool,
    root: Pos,
    direction: Direction,
    from: int,
)
    requires
        1 <= from,
    ensures
        from <= 2 * MAX_COORD + 2 ==> leaf_nodes(is_goal, passable, root, direction, from).len()
            <= 2 * (2 * MAX_COORD + 2 - from),
        from > 2 * MAX_COORD + 1 ==> leaf_nodes(is_goal, passable, root, direction, from).len()
            == 0,
    decreases 2 * MAX_COORD + 2 - from,
{
    let pos = root.spec_along(direction, from);
    if from > 2 * MAX_COORD + 1 || !passable(pos) || is_goal(pos) {
    } else {
        lemma_leaf_count(is_goal, passable, root, direction, from + 1);
    }
}

/// The scan of a stem finds no more than `STEM_NODES` nodes.
proof fn lemma_stem_count(
    is_goal: spec_fn(Pos) -> bool,
    passable: spec_fn(Pos) -> bool,
    jp: JumpPoint,
    from: int,
)
    requires
        1 <= from,
    ensures
        from <= 2 * MAX_COORD + 2 ==> stem_nodes(is_goal, passable, jp, from).len() <= (2
            * MAX_COORD + 2 - from) * 16387,
        from > 2 * MAX_COORD + 1 ==> stem_nodes(is_goal, passable, jp, from).len() == 0,
    decreases 2 * MAX_COORD + 2 - from,
{
    let pos = jp.pos.spec_along(jp.direction, from);
    if from > 2 * MAX_COORD + 1 || !passable(pos) || is_goal(pos) {
    } else {
        lemma_leaf_count(is_goal, passable, pos, jp.leaf_direction(), 1);
        lemma_stem_count(is_goal, passable, jp, from + 1);
    }
}

/// What the scan of a leaf of `jp` finds are nodes that a scan from `jp` may find.
proof fn lemma_leaf_nodes(
    is_goal: spec_fn(Pos) -> bool,
    passable: spec_fn(Pos) -> bool,
    jp: JumpPoint,
    a: int,
    from: int,
)
    requires
        bounded(passable),
        jp.pos.in_bounds(),
        1 <= a <= 2 * MAX_COORD,
        1 <= from,
        forall|i: int|
            1 <= i <= a ==> passable(
                #[trigger] offset(jp.pos, jp.direction, i, jp.leaf_direction(), 0),
            ),
        forall|j: int|
            1 <= j < from ==> passable(
                #[trigger] offset(jp.pos, jp.direction, a, jp.leaf_direction(), j),
            ),
    ensures
        all_found(
            is_goal,
            passable,
            jp,
            leaf_nodes(
                is_goal,
                passable,
                jp.pos.spec_along(jp.direction, a),
                jp.leaf_direction(),
                from,
            ),
        ),
    decreases 2 * MAX_COORD + 2 - from,
{
    let leaf = jp.leaf_direction();
    let root = jp.pos.spec_along(jp.direction, a);
    let pos = root.spec_along(leaf, from);
    if from > 2 * MAX_COORD + 1 || !passable(pos) {
    } else {
        lemma_leaf_position(jp, a, from);
        lemma_reaches(passable, jp, a, from);
        if is_goal(pos) {
            lemma_goal_found(is_goal, passable, jp, pos);
        } else {
            let cw = turn_nodes(passable, pos, leaf, Chirality::Clockwise);
            let ccw = turn_nodes(passable, pos, leaf, Chirality::Counterclockwise);
            lemma_turn_found(is_goal, passable, jp, pos, leaf, Chirality::Clockwise);
            lemma_turn_found(is_goal, passable, jp, pos, leaf, Chirality::Counterclockwise);
            lemma_leaf_nodes(is_goal, passable, jp, a, from + 1);
            lemma_all_found_joined(is_goal, passable, jp, cw, ccw);
            lemma_all_found_joined(
                is_goal,
                passable,
                jp,
                cw + ccw,
                leaf_nodes(is_goal, passable, root, leaf, from + 1),
            );
        }
    }
}

/// What the scan of the stem of `jp` finds are nodes that a scan from `jp` may find.
proof fn lemma_stem_nodes(
    is_goal: spec_fn(Pos) -> bool,
    passable: spec_fn(Pos) -> bool,
    jp: JumpPoint,
    from: int,
)
    requires
        bounded(passable),
        jp.pos.in_bounds(),
        1 <= from,
        forall|i: int|
            1 <= i < from ==> passable(
                #[trigger] offset(jp.pos, jp.direction, i, jp.leaf_direction(), 0),
            ),
    ensures
        all_found(is_goal, passable, jp, stem_nodes(is_goal, passable, jp, from)),
    decreases 2 * MAX_COORD + 2 - from,
{
    let leaf = jp.leaf_direction();
    let pos = jp.pos.spec_along(jp.direction, from);
    if from > 2 * MAX_COORD + 1 || !passable(pos) {
    } else {
        lemma_leaf_position(jp, from, 0);
        lemma_along_bound(jp.pos, jp.direction, from);
        lemma_reaches(passable, jp, from, 0);
        if is_goal(pos) {
            lemma_goal_found(is_goal, passable, jp, pos);
        } else {
            let turns = turn_nodes(passable, pos, jp.direction, jp.chirality);
            let leaves = leaf_nodes(is_goal, passable, pos, leaf, 1);
            lemma_turn_found(is_goal, passable, jp, pos, jp.direction, jp.chirality);
            lemma_leaf_nodes(is_goal, passable, jp, from, 1);
            lemma_stem_nodes(is_goal, passable, jp, from + 1);
            lemma_all_found_joined(is_goal, passable, jp, turns, leaves);
            lemma_all_found_joined(
                is_goal,
                passable,
                jp,
                turns + leaves,
                stem_nodes(is_goal, passable, jp, from + 1),
            );
        }
    }
}

/// Scans the leaf that begins next to `root` and adds to `found` the goal,
/// if the scan meets one, and the jump points at which a corner forces a
/// turn, to either side.
fn for_each_leaf_neighbor<FG: Fn(Pos) -> bool, FP: Fn(Pos) -> bool>(
    root: Pos,
    direction: Direction,
    found: &mut Vec<OpenNode>,
    is_goal: &FG,
    passable: &FP,
)
    requires
        total(*is_goal),
        total(*passable),
        bounded(truth(*passable)),
        root.in_bounds(),
    ensures
        forall|goal: spec_fn(Pos) -> bool, pass: spec_fn(Pos) -> bool|
            #[trigger] answers(*is_goal, goal) && #[trigger] answers(*passable, pass) ==> final(found)@ == old(found)@ + leaf_nodes(goal, pass, root, direction, 1),
{
    let mut len: i32 = 1;
    loop
        invariant_except_break
            forall|goal: spec_fn(Pos) -> bool, pass: spec_fn(Pos) -> bool|
                #[trigger] answers(*is_goal, goal) && #[trigger] answers(*passable, pass)
                    ==> found@ + leaf_nodes(goal, pass, root, direction, len as int) == old(found)@ + leaf_nodes(goal, pass, root, direction, 1),
        invariant
            total(*is_goal),
            total(*passable),
            bounded(truth(*passable)),
            root.in_bounds(),
            1 <= len <= 2 * MAX_COORD + 1,
        ensures
            forall|goal: spec_fn(Pos) -> bool, pass: spec_fn(Pos) -> bool|
                #[trigger] answers(*is_goal, goal) && #[trigger] answers(*passable, pass)
                    ==> found@ == old(found)@ + leaf_nodes(goal, pass, root, direction, 1),
        decreases 2 * MAX_COORD + 2 - len,
    {
        let ghost before = found@;
        let pos = along(root, direction, len);
        if !passable(pos) {
            proof {
                assert forall|goal: spec_fn(Pos) -> bool, pass: spec_fn(Pos) -> bool|
                    #[trigger] answers(*is_goal, goal) && #[trigger] answers(
                        *passable,
                        pass,
                    ) implies found@ == old(found)@ + leaf_nodes(goal, pass, root, direction, 1) by {
                    assert(!pass(pos));
                    assert(before + leaf_nodes(goal, pass, root, direction, len as int)
                        =~= before);
                }
            }
            break ;
        }
        proof {
            assert(truth(*passable)(pos));
            lemma_along_bound(root, direction, len as int);
        }
        if is_goal(pos) {
            found.push(OpenNode::Goal(pos));
            proof {
                assert forall|goal: spec_fn(Pos) -> bool, pass: spec_fn(Pos) -> bool|
                    #[trigger] answers(*is_goal, goal) && #[trigger] answers(
                        *passable,
                        pass,
                    ) implies found@ == old(found)@ + leaf_nodes(goal, pass, root, direction, 1) by {
                    assert(pass(pos) && goal(pos));
                    assert(found@ =~= before + leaf_nodes(goal, pass, root, direction, len as int));
                }
            }
            break ;
        }
        let neighbor1 = JumpPoint::neighbor_of(pos, direction, Chirality::Clockwise);
        let neighbor2 = JumpPoint::neighbor_of(pos, direction, Chirality::Counterclockwise);
        let forced1 = neighbor1.is_forced(passable);
        if forced1 {
            found.push(OpenNode::JumpPoint(neighbor1));
        }
        let forced2 = neighbor2.is_forced(passable);
        if forced2 {
            found.push(OpenNode::JumpPoint(neighbor2));
        }
        proof {
            assert forall|goal: spec_fn(Pos) -> bool, pass: spec_fn(Pos) -> bool|
                #[trigger] answers(*is_goal, goal) && #[trigger] answers(
                    *passable,
                    pass,
                ) implies found@ + leaf_nodes(goal, pass, root, direction, len + 1) == old(found)@
                + leaf_nodes(goal, pass, root, direction, 1) by {
                assert(pass(pos) && !goal(pos));
                assert(forced1 == neighbor1.forced(pass));
                assert(forced2 == neighbor2.forced(pass));
                assert(found@ + leaf_nodes(goal, pass, root, direction, len + 1) =~= before
                    + leaf_nodes(goal, pass, root, direction, len as int));
            }
        }
        len += 1;
    }
}

impl JumpPoint {
    /// Adds to `found` what the scan of the stem finds at `pos`, a passable
    /// position of the stem that is no goal: the jump point at which a
    /// corner forces a turn, and what the scan of the leaf at `pos` finds.
    fn scan_from_stem<FG: Fn(Pos) -> bool, FP: Fn(Pos) -> bool>(
        &self,
        pos: Pos,
        found: &mut Vec<OpenNode>,
        is_goal: &FG,
        passable: &FP,
    )
        requires
            total(*is_goal),
            total(*passable),
            bounded(truth(*passable)),
            pos.in_bounds(),
        ensures
            forall|goal: spec_fn(Pos) -> bool, pass: spec_fn(Pos) -> bool|
                #[trigger] answers(*is_goal, goal) && #[trigger] answers(*passable, pass)
                    ==> final(found)@ == old(found)@ + turn_nodes(
                    pass,
                    pos,
                    self.direction,
                    self.chirality,
                ) + leaf_nodes(goal, pass, pos, self.leaf_direction(), 1),
    {
        let leaf_direction = self.chirality.rotate(self.direction, 1);
        let neighbor = JumpPoint::neighbor_of(pos, self.direction, self.chirality);
        let forced = neighbor.is_forced(passable);
        if forced {
            found.push(OpenNode::JumpPoint(neighbor));
        }
        let ghost turned = found@;
        proof {
            assert forall|pass: spec_fn(Pos) -> bool| #[trigger]
                answers(*passable, pass) implies turned == old(found)@ + turn_nodes(
                pass,
                pos,
                self.direction,
                self.chirality,
            ) by {
                assert(forced == neighbor.forced(pass));
                assert(turned =~= old(found)@ + turn_nodes(
                    pass,
                    pos,
                    self.direction,
                    self.chirality,
                ));
            }
        }
        for_each_leaf_neighbor(pos, leaf_direction, found, is_goal, passable);
    }

    /// Scans the stem of this jump point and the leaves off it, and adds to
    /// `found` what the scan finds: the goal, where the scan meets one, and
    /// the jump points at which a corner forces a turn. What is a goal and
    /// what is passable is what `is_goal` and `passable` say: the result is
    /// stated for every pair of rules that they answer by.
    pub fn for_each_neighbor<FG: Fn(Pos) -> bool, FP: Fn(Pos) -> bool>(
        &self,
        found: &mut Vec<OpenNode>,
        is_goal: &FG,
        passable: &FP,
    )
        requires
            total(*is_goal),
            total(*passable),
            bounded(truth(*passable)),
            self.pos.in_bounds(),
        ensures
            forall|goal: spec_fn(Pos) -> bool, pass: spec_fn(Pos) -> bool|
                #[trigger] answers(*is_goal, goal) && #[trigger] answers(*passable, pass)
                    ==> final(found)@ == old(found)@ + stem_nodes(goal, pass, *self, 1),
    {
        let ghost jp = *self;
        let mut len: i32 = 1;
        loop
            invariant_except_break
                forall|goal: spec_fn(Pos) -> bool, pass: spec_fn(Pos) -> bool|
                    #[trigger] answers(*is_goal, goal) && #[trigger] answers(*passable, pass)
                        ==> found@ + stem_nodes(goal, pass, jp, len as int) == old(found)@
                        + stem_nodes(goal, pass, jp, 1),
            invariant
                total(*is_goal),
                total(*passable),
                bounded(truth(*passable)),
                jp == *self,
                self.pos.in_bounds(),
                1 <= len <= 2 * MAX_COORD + 1,
            ensures
                forall|goal: spec_fn(Pos) -> bool, pass: spec_fn(Pos) -> bool|
                    #[trigger] answers(*is_goal, goal) && #[trigger] answers(*passable, pass)
                        ==> found@ == old(found)@ + stem_nodes(goal, pass, jp, 1),
            decreases 2 * MAX_COORD + 2 - len,
        {
            let ghost before = found@;
            let pos = along(self.pos, self.direction, len);
            if !passable(pos) {
                proof {
                    assert forall|goal: spec_fn(Pos) -> bool, pass: spec_fn(Pos) -> bool|
                        #[trigger] answers(*is_goal, goal) && #[trigger] answers(
                            *passable,
                            pass,
                        ) implies found@ == old(found)@ + stem_nodes(goal, pass, jp, 1) by {
                        assert(!pass(pos));
                        assert(before + stem_nodes(goal, pass, jp, len as int) =~= before);
                    }
                }
                break ;
            }
            proof {
                assert(truth(*passable)(pos));
                lemma_along_bound(self.pos, self.direction, len as int);
            }
            if is_goal(pos) {
                found.push(OpenNode::Goal(pos));
                proof {
                    assert forall|goal: spec_fn(Pos) -> bool, pass: spec_fn(Pos) -> bool|
                        #[trigger] answers(*is_goal, goal) && #[trigger] answers(
                            *passable,
                            pass,
                        ) implies found@ == old(found)@ + stem_nodes(goal, pass, jp, 1) by {
                        assert(pass(pos) && goal(pos));
                        assert(found@ =~= before + stem_nodes(goal, pass, jp, len as int));
                    }
                }
                break ;
            }
            self.scan_from_stem(pos, found, is_goal, passable);
            proof {
                assert forall|goal: spec_fn(Pos) -> bool, pass: spec_fn(Pos) -> bool|
                    #[trigger] answers(*is_goal, goal) && #[trigger] answers(
                        *passable,
                        pass,
                    ) implies found@ + stem_nodes(goal, pass, jp, len + 1) == old(found)@
                    + stem_nodes(goal, pass, jp, 1) by {
                    assert(pass(pos) && !goal(pos));
                    let turns = turn_nodes(pass, pos, jp.direction, jp.chirality);
                    let leaves = leaf_nodes(goal, pass, pos, jp.leaf_direction(), 1);
                    let next = stem_nodes(goal, pass, jp, len + 1);
                    assert(stem_nodes(goal, pass, jp, len as int) == turns + leaves + next);
                    assert(found@ + next =~= before + stem_nodes(goal, pass, jp, len as int));
                }
            }
            len += 1;
        }
    }
}

/// What a scan from a jump point within bounds finds are nodes that a scan
/// from it may find, and no more than `STEM_NODES` of them.
pub proof fn lemma_scan_sound(
    is_goal: spec_fn(Pos) -> bool,
    passable: spec_fn(Pos) -> bool,
    jp: JumpPoint,
)
    requires
        bounded(passable),
        jp.pos.in_bounds(),
    ensures
        all_found(is_goal, passable, jp, stem_nodes(is_goal, passable, jp, 1)),
        stem_nodes(is_goal, passable, jp, 1).len() <= STEM_NODES,
{
    lemma_stem_nodes(is_goal, passable, jp, 1);
    lemma_stem_count(is_goal, passable, jp, 1);
}

/// What the search has recorded so far. The origin costs nothing and has no
/// parent. Every other recorded position has a parent: a jump point of
/// smaller cost from which a scan comes to it.
pub open spec fn linked(
    passable: spec_fn(Pos) -> bool,
    origin: Pos,
    costs: Map<Pos, u32>,
    parents: Map<Pos, JumpPoint>,
) -> bool {
    &&& origin.in_bounds()
    &&& costs.contains_key(origin)
    &&& costs[origin] == 0
    &&& !parents.contains_key(origin)
    &&& forall|q: Pos| #[trigger]
        parents.contains_key(q) ==> {
            &&& costs.contains_key(q)
            &&& costs.contains_key(parents[q].pos)
            &&& costs[parents[q].pos] < costs[q]
            &&& reaches(passable, parents[q], q)
        }
    &&& forall|q: Pos| #[trigger] costs.contains_key(q) ==> q == origin || parents.contains_key(q)
}

/// Whether every node of the frontier can be expanded: a goal node stands on
/// a goal that has a parent, and a jump point stands on a recorded position
/// within bounds.
pub open spec fn frontier_ok(
    is_goal: spec_fn(Pos) -> bool,
    costs: Map<Pos, u32>,
    parents: Map<Pos, JumpPoint>,
    open: Seq<(OpenNode, u32)>,
) -> bool {
    forall|k: int|
        0 <= k < open.len() ==> match (#[trigger] open[k]).0 {
            OpenNode::Goal(p) => is_goal(p) && parents.contains_key(p),
            OpenNode::JumpPoint(jp) => costs.contains_key(jp.pos) && jp.pos.in_bounds(),
        }
}

/// A scan from a jump point does not come back to its own position.
proof fn lemma_reaches_elsewhere(passable: spec_fn(Pos) -> bool, jp: JumpPoint, q: Pos)
    requires
        reaches(passable, jp, q),
    ensures
        q != jp.pos,
        jp.pos.spec_distance(q) >= 1,
        passable(q),
        jp.pos.in_bounds(),
        q.in_bounds(),
{
    reveal(reaches);
    let stem = jp.direction;
    let leaf = jp.leaf_direction();
    let d = Displacement::of(q.x - jp.pos.x, q.y - jp.pos.y);
    let (a, b) = spec_decompose(d, stem, leaf);
    lemma_leaf_independent(jp);
    if q == jp.pos {
        lemma_unit_times(stem.spec_x(), 0);
        lemma_unit_times(stem.spec_y(), 0);
        lemma_unit_times(leaf.spec_x(), 0);
        lemma_unit_times(leaf.spec_y(), 0);
        lemma_decompose_unique(d, stem, leaf, 0, 0);
    }
    crate::grid::laws::lemma_distance_positive(jp.pos, q);
    lemma_decompose_solves(d, stem, leaf);
    lemma_unit_times(leaf.spec_x(), 0);
    lemma_unit_times(leaf.spec_y(), 0);
    if b >= 1 {
        assert(q == offset(jp.pos, stem, a, leaf, b));
    } else {
        assert(q == offset(jp.pos, stem, a, leaf, 0));
    }
}

/// How the frontier and the costs stand after a node that a scan from `curr`
/// found has been weighed. The frontier is as it was, or the node has joined
/// it at the end. No position but that of the node is newly recorded, and
/// that only with the node in the frontier. Unless its cost is too large to
/// be held, the node has joined the frontier or its position was recorded
/// before.
pub open spec fn considered(
    old_open: Seq<(OpenNode, u32)>,
    old_costs: Map<Pos, u32>,
    open: Seq<(OpenNode, u32)>,
    costs: Map<Pos, u32>,
    curr: JumpPoint,
    neighbor: OpenNode,
) -> bool {
    let joined = open.len() == old_open.len() + 1 && open.last().0 == neighbor;
    &&& open.len() >= old_open.len()
    &&& forall|k: int| 0 <= k < old_open.len() ==> #[trigger] open[k] == old_open[k]
    &&& open.len() == old_open.len() || joined
    &&& forall|q: Pos| #[trigger]
        costs.contains_key(q) ==> old_costs.contains_key(q) || (q == neighbor.spec_pos()
            && joined)
    &&& cost_at(old_costs, curr.pos) + curr.pos.spec_distance(neighbor.spec_pos()) <= u32::MAX
        ==> joined || old_costs.contains_key(neighbor.spec_pos())
}

/// Whether a goal node is in the frontier.
pub open spec fn pending_goal(open: Seq<(OpenNode, u32)>) -> bool {
    exists|k: int| 0 <= k < open.len() && (#[trigger] open[k]).0 is Goal
}

/// Whether a goal node is in the frontier if a goal is recorded.
pub open spec fn goals_pending(
    is_goal: spec_fn(Pos) -> bool,
    costs: Map<Pos, u32>,
    open: Seq<(OpenNode, u32)>,
) -> bool {
    forall|q: Pos| #[trigger] costs.contains_key(q) && is_goal(q) ==> pending_goal(open)
}

/// Whether the jump point `jp` is in the frontier.
pub open spec fn waiting(open: Seq<(OpenNode, u32)>, jp: JumpPoint) -> bool {
    exists|k: int| 0 <= k < open.len() && (#[trigger] open[k]).0 == OpenNode::JumpPoint(jp)
}

/// The jump point with which the search sets out from `origin` in the
/// direction at place `i`.
pub open spec fn first_jump(origin: Pos, i: int) -> JumpPoint {
    JumpPoint { pos: origin, direction: direction_at(i), chirality: Chirality::Clockwise }
}

/// Whether each of the six jump points with which the search sets out is
/// still in the frontier, or has been scanned from with a goal node in the
/// frontier if its scan finds one.
pub open spec fn first_scans(
    is_goal: spec_fn(Pos) -> bool,
    passable: spec_fn(Pos) -> bool,
    origin: Pos,
    open: Seq<(OpenNode, u32)>,
) -> bool {
    forall|i: int|
        0 <= i < 6 ==> waiting(open, #[trigger] first_jump(origin, i)) || (has_goal(
            stem_nodes(is_goal, passable, first_jump(origin, i), 1),
        ) ==> pending_goal(open))
}

/// Weighing a node keeps a goal node in the frontier for every recorded
/// goal, and puts one there if the node stands on a goal and its cost can
/// be held.
proof fn lemma_considered(
    is_goal: spec_fn(Pos) -> bool,
    passable: spec_fn(Pos) -> bool,
    old_open: Seq<(OpenNode, u32)>,
    old_costs: Map<Pos, u32>,
    open: Seq<(OpenNode, u32)>,
    costs: Map<Pos, u32>,
    curr: JumpPoint,
    neighbor: OpenNode,
)
    requires
        considered(old_open, old_costs, open, costs, curr, neighbor),
        goals_pending(is_goal, old_costs, old_open),
        found_from(is_goal, passable, curr, neighbor),
    ensures
        goals_pending(is_goal, costs, open),
        pending_goal(old_open) ==> pending_goal(open),
        neighbor is Goal && cost_at(old_costs, curr.pos) + curr.pos.spec_distance(
            neighbor.spec_pos(),
        ) <= u32::MAX ==> pending_goal(open),
        forall|jp: JumpPoint| waiting(old_open, jp) ==> waiting(open, jp),
{
    let joined = open.len() == old_open.len() + 1 && open.last().0 == neighbor;
    if pending_goal(old_open) {
        let k = choose|k: int| 0 <= k < old_open.len() && (#[trigger] old_open[k]).0 is Goal;
        assert(open[k].0 is Goal);
    }
    if joined && neighbor is Goal {
        assert(open[open.len() - 1].0 is Goal);
    }
    assert forall|q: Pos| #[trigger] costs.contains_key(q) && is_goal(q) implies pending_goal(
        open,
    ) by {
        if old_costs.contains_key(q) {
            assert(pending_goal(old_open));
        }
    }
    if neighbor is Goal && old_costs.contains_key(neighbor.spec_pos()) {
        assert(pending_goal(old_open));
    }
    assert forall|jp: JumpPoint| waiting(old_open, jp) implies waiting(open, jp) by {
        let k = choose|k: int|
            0 <= k < old_open.len() && (#[trigger] old_open[k]).0 == OpenNode::JumpPoint(jp);
        assert(open[k].0 == OpenNode::JumpPoint(jp));
    }
}

/// Taking a node from the frontier leaves every other jump point in it.
proof fn lemma_still_waiting(open: Seq<(OpenNode, u32)>, at: int, jp: JumpPoint)
    requires
        0 <= at < open.len(),
        waiting(open, jp),
        open[at].0 != OpenNode::JumpPoint(jp),
    ensures
        waiting(open.remove(at), jp),
{
    let k = choose|k: int| 0 <= k < open.len() && (#[trigger] open[k]).0 == OpenNode::JumpPoint(jp);
    if k < at {
        assert(open.remove(at)[k] == open[k]);
    } else {
        assert(open.remove(at)[k - 1] == open[k]);
    }
}

/// Taking a jump point from the frontier leaves every goal node in it.
proof fn lemma_still_pending(open: Seq<(OpenNode, u32)>, at: int)
    requires
        0 <= at < open.len(),
        pending_goal(open),
        !(open[at].0 is Goal),
    ensures
        pending_goal(open.remove(at)),
{
    let k = choose|k: int| 0 <= k < open.len() && (#[trigger] open[k]).0 is Goal;
    if k < at {
        assert(open.remove(at)[k] == open[k]);
    } else {
        assert(open.remove(at)[k - 1] == open[k]);
    }
}

/// Weighs a node that a scan from `curr` found. The node joins the frontier
/// unless its position is already recorded at a strictly smaller cost; a
/// node of equal cost does join it. Returns the list of recorded positions.
fn consider<FH: Fn(Pos) -> u32>(
    neighbor: OpenNode,
    curr: JumpPoint,
    open: &mut MinHeap<OpenNode>,
    costs: &mut PosMap<u32>,
    parents: &mut PosMap<JumpPoint>,
    heuristic: &FH,
    Ghost(origin): Ghost<Pos>,
    Ghost(is_goal): Ghost<spec_fn(Pos) -> bool>,
    Ghost(passable): Ghost<spec_fn(Pos) -> bool>,
    Ghost(order): Ghost<Seq<Pos>>,
) -> (listed: Ghost<Seq<Pos>>)
    requires
        total(*heuristic),
        linked(passable, origin, old(costs)@, old(parents)@),
        frontier_ok(is_goal, old(costs)@, old(parents)@, old(open)@),
        recorded(old(costs)@, order),
        found_from(is_goal, passable, curr, neighbor),
        old(costs)@.contains_key(curr.pos),
    ensures
        linked(passable, origin, final(costs)@, final(parents)@),
        frontier_ok(is_goal, final(costs)@, final(parents)@, final(open)@),
        recorded(final(costs)@, listed@),
        final(costs)@.contains_key(curr.pos),
        final(costs)@[curr.pos] == old(costs)@[curr.pos],
        advanced(listed@, final(costs)@, order, old(costs)@) || (final(costs)@ == old(costs)@
            && listed@ == order && frontier_weight(final(open)@, final(costs)@)
            <= frontier_weight(old(open)@, old(costs)@) + weight(
            cost_at(old(costs)@, curr.pos) + 1,
        )),
        considered(old(open)@, old(costs)@, final(open)@, final(costs)@, curr, neighbor),
{
    let neighbor_pos = neighbor.pos();
    proof {
        lemma_reaches_elsewhere(passable, curr, neighbor_pos);
        crate::grid::laws::lemma_distance_symmetric(curr.pos, neighbor_pos);
        lemma_weight_falls(cost_at(costs@, curr.pos) + 1, cost_limit());
    }
    let base = match costs.get(curr.pos) {
        Some(cost) => cost,
        None => {
            return Ghost(order);
        },
    };
    let step = neighbor_pos.distance(curr.pos);
    let new_cost = match base.checked_add(step) {
        Some(cost) => cost,
        None => {
            return Ghost(order);
        },
    };
    let known = costs.get(neighbor_pos);
    match known {
        Some(cost) => {
            // normally we would skip a neighbor if its cost was equal to the cost found already
            // here we don't because in this implementation of jps,
            // multiple neighbors can be created for a single position
            if new_cost > cost {
                return Ghost(order);
            }
        },
        None => {},
    }
    let priority = new_cost.saturating_add(heuristic(neighbor_pos));
    let ghost old_open = open@;
    let ghost old_costs = costs@;
    open.push(neighbor, priority);
    parents.insert(neighbor_pos, curr);
    costs.insert(neighbor_pos, new_cost);
    proof {
        assert forall|k: int| 0 <= k < open@.len() implies match (#[trigger] open@[k]).0 {
            OpenNode::Goal(p) => is_goal(p) && parents@.contains_key(p),
            OpenNode::JumpPoint(jp) => costs@.contains_key(jp.pos) && jp.pos.in_bounds(),
        } by {
            if k < old_open.len() {
                assert(open@[k] == old_open[k]);
            }
        }
    }
    let ghost listed = match known {
        Some(cost) => order,
        None => order.push(neighbor_pos),
    };
    proof {
        match known {
            Some(cost) => {
                assert(order.contains(neighbor_pos));
                if new_cost < cost {
                    lemma_total_cost_lowered(order, old_costs, neighbor_pos, new_cost);
                } else {
                    assert(costs@ =~= old_costs);
                    lemma_frontier_push(old_open, old_costs, (neighbor, priority));
                    lemma_weight_falls(base + 1, new_cost as int);
                }
            },
            None => {
                lemma_recorded_push(old_costs, order, neighbor_pos, new_cost);
                lemma_unrecorded_falls(order, neighbor_pos);
            },
        }
    }
    Ghost(listed)
}

/// How far along its stem and its leaf a scan from the parent of `q` goes to
/// come to `q`: neither is farther than twice `MAX_COORD`.
proof fn lemma_reach_lengths(passable: spec_fn(Pos) -> bool, jp: JumpPoint, q: Pos)
    requires
        reaches(passable, jp, q),
    ensures
        ({
            let (a, b) = spec_decompose(
                Displacement::of(q.x - jp.pos.x, q.y - jp.pos.y),
                jp.direction,
                jp.leaf_direction(),
            );
            &&& 1 <= a <= 2 * MAX_COORD
            &&& 0 <= b <= 2 * MAX_COORD
            &&& q == offset(jp.pos, jp.direction, a, jp.leaf_direction(), b)
            &&& offset(jp.pos, jp.direction, a, jp.leaf_direction(), 0).in_bounds()
        }),
{
    reveal(reaches);
    let stem = jp.direction;
    let leaf = jp.leaf_direction();
    let d = Displacement::of(q.x - jp.pos.x, q.y - jp.pos.y);
    let (a, b) = spec_decompose(d, stem, leaf);
    lemma_leaf_independent(jp);
    lemma_decompose_solves(d, stem, leaf);
    lemma_unit_times(leaf.spec_y(), d.x as int);
    lemma_unit_times(leaf.spec_x(), d.y as int);
    lemma_unit_times(stem.spec_x(), d.y as int);
    lemma_unit_times(stem.spec_y(), d.x as int);
    lemma_unit_times(
        crate::grid::basis_det(stem, leaf),
        leaf.spec_y() * d.x - leaf.spec_x() * d.y,
    );
    lemma_unit_times(
        crate::grid::basis_det(stem, leaf),
        stem.spec_x() * d.y - stem.spec_y() * d.x,
    );
    assert(a <= 4 * MAX_COORD && b <= 4 * MAX_COORD);
    lemma_unit_times(stem.spec_x(), a);
    lemma_unit_times(stem.spec_y(), a);
    let tip = offset(jp.pos, stem, a, leaf, 0);
    assert(passable(tip));
    lemma_unit_times(leaf.spec_x(), 0);
    lemma_unit_times(leaf.spec_y(), 0);
    lemma_along_bound(jp.pos, stem, a);
    if b >= 1 {
        lemma_unit_times(stem.spec_x(), a);
        lemma_unit_times(stem.spec_y(), a);
        lemma_along_bound(tip, leaf, b);
    }
}

/// The positions of `path` in the opposite order.
fn reversed(path: &Vec<Pos>) -> (res: Vec<Pos>)
    ensures
        res@ == path@.reverse(),
{
    let mut res: Vec<Pos> = Vec::with_capacity(path.len());
    let mut i: usize = path.len();
    while i > 0
        invariant
            i <= path@.len(),
            res@.len() == path@.len() - i,
            forall|k: int| 0 <= k < res@.len() ==> res@[k] == path@[path@.len() - 1 - k],
        decreases i,
    {
        i -= 1;
        res.push(path[i]);
    }
    assert(res@ =~= path@.reverse());
    res
}

/// Whether `steps` is a walk between neighbors on which every position but
/// the last is passable.
pub open spec fn is_trail(passable: spec_fn(Pos) -> bool, steps: Seq<Pos>) -> bool {
    &&& steps.len() >= 1
    &&& forall|i: int| 0 <= i < steps.len() - 1 ==> (#[trigger] steps[i + 1]).adjacent(steps[i])
    &&& forall|i: int| 0 <= i < steps.len() - 1 ==> passable(#[trigger] steps[i])
}

/// A trail whose last position is passable goes on to a neighbor of that position.
proof fn lemma_trail_grows(passable: spec_fn(Pos) -> bool, steps: Seq<Pos>, next: Pos)
    requires
        is_trail(passable, steps),
        passable(steps.last()),
        next.adjacent(steps.last()),
    ensures
        is_trail(passable, steps.push(next)),
{
    let longer = steps.push(next);
    assert forall|i: int| 0 <= i < longer.len() - 1 implies (#[trigger] longer[i + 1]).adjacent(
        longer[i],
    ) by {
        if i < steps.len() - 1 {
            assert(longer[i + 1] == steps[i + 1]);
            assert(longer[i] == steps[i]);
        }
    }
    assert forall|i: int| 0 <= i < longer.len() - 1 implies passable(#[trigger] longer[i]) by {
        assert(longer[i] == steps[i]);
    }
}

/// Lays out the run of `count` positions that leads back to `from` against
/// `direction`, from the position next to the last one of `trail` down to
/// `from` itself.
fn lay_run(
    trail: &mut Vec<Pos>,
    from: Pos,
    direction: Direction,
    count: i32,
    Ghost(passable): Ghost<spec_fn(Pos) -> bool>,
)
    requires
        is_trail(passable, old(trail)@),
        from.in_bounds(),
        0 <= count <= 2 * MAX_COORD,
        old(trail)@.last() == from.spec_along(direction, count as int),
        forall|j: int| 1 <= j <= count ==> passable(#[trigger] from.spec_along(direction, j)),
    ensures
        is_trail(passable, final(trail)@),
        final(trail)@.len() == old(trail)@.len() + count,
        final(trail)@[0] == old(trail)@[0],
        final(trail)@.last() == (if count == 0 {
            old(trail)@.last()
        } else {
            from
        }),
{
    let mut x: i32 = count;
    while x > 0
        invariant
            is_trail(passable, trail@),
            from.in_bounds(),
            0 <= x <= count <= 2 * MAX_COORD,
            trail@.len() == old(trail)@.len() + count - x,
            trail@[0] == old(trail)@[0],
            trail@.last() == from.spec_along(direction, x as int),
            forall|j: int| 1 <= j <= count ==> passable(#[trigger] from.spec_along(direction, j)),
        decreases x,
    {
        proof {
            lemma_unit_times(direction.spec_x(), x as int);
            lemma_unit_times(direction.spec_y(), x as int);
            lemma_unit_times(direction.spec_x(), x - 1);
            lemma_unit_times(direction.spec_y(), x - 1);
            assert(passable(from.spec_along(direction, x as int)));
        }
        x -= 1;
        let tile = along(from, direction, x);
        proof {
            lemma_trail_grows(passable, trail@, tile);
        }
        trail.push(tile);
    }
    proof {
        lemma_unit_times(direction.spec_x(), 0);
        lemma_unit_times(direction.spec_y(), 0);
    }
}

/// What a scan from `jp` passes on its way to `q`, in terms of single lines:
/// the positions along the stem up to its tip, and those along the leaf from
/// the tip to `q`.
proof fn lemma_reach_runs(passable: spec_fn(Pos) -> bool, jp: JumpPoint, q: Pos)
    requires
        reaches(passable, jp, q),
    ensures
        ({
            let (a, b) = spec_decompose(
                Displacement::of(q.x - jp.pos.x, q.y - jp.pos.y),
                jp.direction,
                jp.leaf_direction(),
            );
            let tip = jp.pos.spec_along(jp.direction, a);
            &&& jp.pos.in_bounds()
            &&& q.in_bounds()
            &&& 1 <= a <= 2 * MAX_COORD
            &&& 0 <= b <= 2 * MAX_COORD
            &&& tip.in_bounds()
            &&& q == tip.spec_along(jp.leaf_direction(), b)
            &&& forall|i: int|
                1 <= i <= a ==> passable(#[trigger] jp.pos.spec_along(jp.direction, i))
            &&& forall|j: int|
                1 <= j <= b ==> passable(#[trigger] tip.spec_along(jp.leaf_direction(), j))
        }),
{
    reveal(reaches);
    let stem = jp.direction;
    let leaf = jp.leaf_direction();
    let (a, b) = spec_decompose(Displacement::of(q.x - jp.pos.x, q.y - jp.pos.y), stem, leaf);
    let tip = jp.pos.spec_along(stem, a);
    lemma_reach_lengths(passable, jp, q);
    lemma_unit_times(leaf.spec_x(), 0);
    lemma_unit_times(leaf.spec_y(), 0);
    lemma_unit_times(stem.spec_x(), a);
    lemma_unit_times(stem.spec_y(), a);
    assert(tip == offset(jp.pos, stem, a, leaf, 0));
    assert forall|i: int| 1 <= i <= a implies passable(#[trigger] jp.pos.spec_along(stem, i)) by {
        assert(jp.pos.spec_along(stem, i) == offset(jp.pos, stem, i, leaf, 0));
    }
    assert forall|j: int| 1 <= j <= b implies passable(#[trigger] tip.spec_along(leaf, j)) by {
        assert(tip.spec_along(leaf, j) == offset(jp.pos, stem, a, leaf, j));
    }
    assert(q == tip.spec_along(leaf, b));
}

/// Walks the parents back from `goal` to the origin and lays out every
/// position on the way: for each parent the leaf run first, then the stem
/// run. Returns the positions from the origin to `goal`.
fn construct_path(
    parents: &PosMap<JumpPoint>,
    goal: Pos,
    Ghost(costs): Ghost<Map<Pos, u32>>,
    Ghost(origin): Ghost<Pos>,
    Ghost(passable): Ghost<spec_fn(Pos) -> bool>,
) -> (path: Vec<Pos>)
    requires
        bounded(passable),
        linked(passable, origin, costs, parents@),
        parents@.contains_key(goal),
    ensures
        path@.len() >= 1,
        path@.first() == origin,
        path@.last() == goal,
        forall|i: int| 0 <= i < path@.len() - 1 ==> (#[trigger] path@[i]).adjacent(path@[i + 1]),
        forall|i: int| 1 <= i < path@.len() ==> passable(#[trigger] path@[i]),
{
    let mut backwards: Vec<Pos> = Vec::new();
    backwards.push(goal);
    let mut pos = goal;
    loop
        invariant
            bounded(passable),
            linked(passable, origin, costs, parents@),
            costs.contains_key(pos),
            is_trail(passable, backwards@),
            backwards@[0] == goal,
            backwards@.last() == pos,
        ensures
            pos == origin,
            is_trail(passable, backwards@),
            backwards@[0] == goal,
            backwards@.last() == pos,
        decreases costs[pos],
    {
        let jp = match parents.get(pos) {
            Some(jp) => jp,
            None => {
                break ;
            },
        };
        let stem_direction = jp.direction;
        let leaf_direction = jp.chirality.rotate(stem_direction, 1);
        proof {
            lemma_reach_runs(passable, jp, pos);
        }
        let (stem_cost, leaf_cost) = decompose(pos - jp.pos, stem_direction, leaf_direction);
        let stem_tip = along(jp.pos, stem_direction, stem_cost);
        lay_run(&mut backwards, stem_tip, leaf_direction, leaf_cost, Ghost(passable));
        lay_run(&mut backwards, jp.pos, stem_direction, stem_cost, Ghost(passable));
        pos = jp.pos;
    }
    let path = reversed(&backwards);
    proof {
        let n = backwards@.len() as int;
        assert forall|i: int| 0 <= i < path@.len() - 1 implies (#[trigger] path@[i]).adjacent(
            path@[i + 1],
        ) by {
            assert(path@[i] == backwards@[n - 1 - i]);
            assert(path@[i + 1] == backwards@[n - 2 - i]);
            assert(backwards@[(n - 2 - i) + 1].adjacent(backwards@[n - 2 - i]));
        }
        assert forall|i: int| 1 <= i < path@.len() implies passable(#[trigger] path@[i]) by {
            assert(path@[i] == backwards@[n - 1 - i]);
        }
    }
    path
}

/// What `find_path` owes where the goals are those of `is_goal` and the
/// passable positions those of `passable`. Where `origin` is a goal the
/// path is `origin` alone. A path leads from `origin` to a goal by steps
/// between neighbors, over passable positions from the first step on. And
/// there is a path where a goal can be reached from `origin` by a run in one
/// direction and then a run in the direction one turn clockwise from it,
/// over passable positions within bounds.
pub open spec fn found_path(
    is_goal: spec_fn(Pos) -> bool,
    passable: spec_fn(Pos) -> bool,
    origin: Pos,
    res: Option<Vec<Pos>>,
) -> bool {
    &&& is_goal(origin) ==> (res matches Some(path) && path@ == seq![origin])
    &&& res matches Some(path) ==> is_path(is_goal, passable, origin, path@)
    &&& res is None ==> forall|direction: Direction, q: Pos| #[trigger]
        reaches(passable, JumpPoint { pos: origin, direction, chirality: Chirality::Clockwise }, q)
            ==> !is_goal(q)
}

/// A path under two rules is a path under rules that hold wherever those do.
proof fn lemma_path_weaken(
    is_goal: spec_fn(Pos) -> bool,
    passable: spec_fn(Pos) -> bool,
    goal_rule: spec_fn(Pos) -> bool,
    pass_rule: spec_fn(Pos) -> bool,
    origin: Pos,
    path: Seq<Pos>,
)
    requires
        is_path(is_goal, passable, origin, path),
        forall|p: Pos| #[trigger] is_goal(p) ==> goal_rule(p),
        forall|p: Pos| #[trigger] passable(p) ==> pass_rule(p),
    ensures
        is_path(goal_rule, pass_rule, origin, path),
{
    assert(is_goal(path.last()));
    assert forall|i: int| 1 <= i < path.len() implies pass_rule(#[trigger] path[i]) by {
        assert(passable(path[i]));
    }
}

/// Finds a path from `origin` to a position that satisfies `is_goal`, by
/// steps between neighbors over positions that satisfy `passable`.
///
/// Where `origin` is a goal the path is `origin` alone. Otherwise the search
/// goes on until it takes a goal from its frontier, and returns the path to
/// it; it returns `None` when the frontier is empty. It does not return
/// `None` where a goal can be reached from `origin` by a run in one
/// direction and then a run in the direction one turn clockwise from it.
/// What is a goal and what is passable is what `is_goal` and `passable`
/// say: the result is stated for every pair of rules that they answer by.
pub fn find_path<FG: Fn(Pos) -> bool, FP: Fn(Pos) -> bool, FH: Fn(Pos) -> u32>(
    origin: Pos,
    is_goal: FG,
    passable: FP,
    heuristic: FH,
) -> (res: Option<Vec<Pos>>)
    requires
        is_pure(is_goal),
        is_pure(passable),
        total(heuristic),
        bounded(truth(passable)),
        origin.in_bounds(),
    ensures
        forall|goal_rule: spec_fn(Pos) -> bool, pass_rule: spec_fn(Pos) -> bool|
            #[trigger] answers(is_goal, goal_rule) && #[trigger] answers(passable, pass_rule)
                ==> found_path(goal_rule, pass_rule, origin, res),
{
    let ghost goal = truth(is_goal);
    let ghost pass = truth(passable);
    proof {
        lemma_pure_answers(is_goal);
        lemma_pure_answers(passable);
    }
    if is_goal(origin) {
        let mut path: Vec<Pos> = Vec::new();
        path.push(origin);
        proof {
            assert(path@ =~= seq![origin]);
            assert forall|goal_rule: spec_fn(Pos) -> bool, pass_rule: spec_fn(Pos) -> bool|
                #[trigger] answers(is_goal, goal_rule) && #[trigger] answers(
                    passable,
                    pass_rule,
                ) implies found_path(goal_rule, pass_rule, origin, Some(path)) by {
                assert(goal_rule(origin));
            }
        }
        return Some(path);
    }
    let mut open: MinHeap<OpenNode> = MinHeap::new();
    let mut costs: PosMap<u32> = PosMap::new();
    let mut parents: PosMap<JumpPoint> = PosMap::new();
    let initial_priority = heuristic(origin);
    costs.insert(origin, 0);
    let ghost mut order: Seq<Pos> = seq![origin];
    proof {
        lemma_recorded_push(Map::<Pos, u32>::empty(), Seq::<Pos>::empty(), origin, 0);
        assert(Seq::<Pos>::empty().push(origin) =~= order);
    }
    let mut i: usize = 0;
    while i < 6
        invariant
            i <= 6,
            origin.in_bounds(),
            costs@.contains_key(origin),
            frontier_ok(goal, costs@, parents@, open@),
            open@.len() == i,
            forall|j: int|
                0 <= j < i ==> (#[trigger] open@[j]).0 == OpenNode::JumpPoint(first_jump(origin, j)),
        decreases 6 - i,
    {
        let ghost old_open = open@;
        open.push(OpenNode::initial(origin, direction_of_index(i)), initial_priority);
        proof {
            assert forall|k: int| 0 <= k < open@.len() implies match (#[trigger] open@[k]).0 {
                OpenNode::Goal(p) => goal(p) && parents@.contains_key(p),
                OpenNode::JumpPoint(jp) => costs@.contains_key(jp.pos) && jp.pos.in_bounds(),
            } by {
                if k < old_open.len() {
                    assert(open@[k] == old_open[k]);
                }
            }
            assert forall|j: int| 0 <= j < i + 1 implies (#[trigger] open@[j]).0
                == OpenNode::JumpPoint(first_jump(origin, j)) by {
                if j < i {
                    assert(open@[j] == old_open[j]);
                }
            }
        }
        i += 1;
    }
    proof {
        assert forall|j: int| 0 <= j < 6 implies waiting(
            open@,
            #[trigger] first_jump(origin, j),
        ) by {
            assert(open@[j].0 == OpenNode::JumpPoint(first_jump(origin, j)));
        }
        assert forall|q: Pos| #[trigger] costs@.contains_key(q) && goal(q) implies pending_goal(
            open@,
        ) by {
            assert(q == origin);
        }
    }
    loop
        invariant
            is_pure(is_goal),
            is_pure(passable),
            total(heuristic),
            bounded(pass),
            goal == truth(is_goal),
            pass == truth(passable),
            answers(is_goal, goal),
            answers(passable, pass),
            !goal(origin),
            call_ensures(is_goal, (origin,), false),
            linked(pass, origin, costs@, parents@),
            frontier_ok(goal, costs@, parents@, open@),
            recorded(costs@, order),
            goals_pending(goal, costs@, open@),
            forall|goal_rule: spec_fn(Pos) -> bool, pass_rule: spec_fn(Pos) -> bool|
                #[trigger] answers(is_goal, goal_rule) && #[trigger] answers(passable, pass_rule)
                    ==> first_scans(goal_rule, pass_rule, origin, open@),
        decreases
            unrecorded(order),
            total_cost(order, costs@) as nat,
            frontier_weight(open@, costs@) as nat,
    {
        let ghost old_open = open@;
        let ghost old_costs = costs@;
        let ghost old_order = order;
        let node = match open.pop() {
            Some(node) => node,
            None => {
                proof {
                    assert forall|goal_rule: spec_fn(Pos) -> bool, pass_rule: spec_fn(Pos) -> bool|
                        #[trigger] answers(is_goal, goal_rule) && #[trigger] answers(
                            passable,
                            pass_rule,
                        ) implies found_path(goal_rule, pass_rule, origin, None) by {
                        assert(!goal_rule(origin));
                        lemma_nowhere_to_go(goal_rule, pass_rule, origin, open@);
                    }
                }
                return None;
            },
        };
        let ghost at = crate::minheap::first_min(old_open, old_open.len() as int);
        let ghost popped = open@;
        proof {
            crate::minheap::lemma_first_min(old_open, old_open.len() as int);
            assert(old_open[at].0 == node);
            assert forall|k: int| 0 <= k < open@.len() implies match (#[trigger] open@[k]).0 {
                OpenNode::Goal(p) => goal(p) && parents@.contains_key(p),
                OpenNode::JumpPoint(jp) => costs@.contains_key(jp.pos) && jp.pos.in_bounds(),
            } by {
                if k < at {
                    assert(open@[k] == old_open[k]);
                } else {
                    assert(open@[k] == old_open[k + 1]);
                }
            }
            lemma_frontier_remove(old_open, old_costs, at);
            lemma_frontier_weight_positive(old_open, old_costs);
            lemma_total_cost_positive(old_order, old_costs);
        }
        match node {
            OpenNode::Goal(pos) => {
                let path = construct_path(&parents, pos, Ghost(costs@), Ghost(origin), Ghost(pass));
                proof {
                    assert forall|goal_rule: spec_fn(Pos) -> bool, pass_rule: spec_fn(Pos) -> bool|
                        #[trigger] answers(is_goal, goal_rule) && #[trigger] answers(
                            passable,
                            pass_rule,
                        ) implies found_path(goal_rule, pass_rule, origin, Some(path)) by {
                        assert(!goal_rule(origin));
                        lemma_path_weaken(goal, pass, goal_rule, pass_rule, origin, path@);
                    }
                }
                return Some(path);
            },
            OpenNode::JumpPoint(curr) => {
                let mut found: Vec<OpenNode> = Vec::new();
                curr.for_each_neighbor(&mut found, &is_goal, &passable);
                let ghost base = cost_at(old_costs, curr.pos);
                proof {
                    lemma_scan_sound(goal, pass, curr);
                    assert(found@ =~= stem_nodes(goal, pass, curr, 1));
                    lemma_popped(goal, pass, origin, old_open, old_costs, at, curr);
                    assert forall|goal_rule: spec_fn(Pos) -> bool, pass_rule: spec_fn(Pos) -> bool|
                        #[trigger] answers(is_goal, goal_rule) && #[trigger] answers(
                            passable,
                            pass_rule,
                        ) implies found@ == stem_nodes(goal_rule, pass_rule, curr, 1) by {
                        assert(found@ =~= stem_nodes(goal_rule, pass_rule, curr, 1));
                    }
                }
                let mut k: usize = 0;
                while k < found.len()
                    invariant
                        total(heuristic),
                        k <= found@.len(),
                        linked(pass, origin, costs@, parents@),
                        frontier_ok(goal, costs@, parents@, open@),
                        recorded(costs@, order),
                        goals_pending(goal, costs@, open@),
                        costs@.contains_key(curr.pos),
                        old_costs.contains_key(curr.pos),
                        costs@[curr.pos] == old_costs[curr.pos],
                        curr.pos.in_bounds(),
                        base == cost_at(old_costs, curr.pos),
                        0 <= base < cost_limit(),
                        forall|j: int|
                            0 <= j < found@.len() ==> found_from(goal, pass, curr, #[trigger] found@[j]),
                        advanced(order, costs@, old_order, old_costs) || (costs@ == old_costs
                            && order == old_order && frontier_weight(open@, costs@)
                            <= frontier_weight(popped, old_costs) + k * weight(base + 1)),
                        forall|jp: JumpPoint| waiting(popped, jp) ==> waiting(open@, jp),
                        pending_goal(popped) ==> pending_goal(open@),
                        base == 0 ==> forall|j: int|
                            0 <= j < k && (#[trigger] found@[j]) is Goal ==> pending_goal(open@),
                    decreases found@.len() - k,
                {
                    let ghost step_costs = costs@;
                    let ghost step_open = open@;
                    let Ghost(listed) = consider(
                        found[k],
                        curr,
                        &mut open,
                        &mut costs,
                        &mut parents,
                        &heuristic,
                        Ghost(origin),
                        Ghost(goal),
                        Ghost(pass),
                        Ghost(order),
                    );
                    proof {
                        order = listed;
                        assert((k + 1) * weight(base + 1) == k * weight(base + 1) + weight(base + 1))
                            by (nonlinear_arith);
                        lemma_reaches_elsewhere(pass, curr, found@[k as int].spec_pos());
                        lemma_considered(
                            goal,
                            pass,
                            step_open,
                            step_costs,
                            open@,
                            costs@,
                            curr,
                            found@[k as int],
                        );
                        assert(curr.pos.spec_distance(found@[k as int].spec_pos()) <= 4
                            * MAX_COORD);
                        assert(cost_at(step_costs, curr.pos) == base);
                    }
                    k += 1;
                }
                proof {
                    lemma_weight(base);
                    lemma_frontier_weight_positive(open@, costs@);
                    lemma_total_cost_positive(order, costs@);
                    if !advanced(order, costs@, old_order, old_costs) {
                        let w = weight(base + 1);
                        assert(k * w <= (fanout() - 1) * w) by (nonlinear_arith)
                            requires
                                0 <= k <= fanout() - 1,
                                w >= 1,
                        ;
                        assert((fanout() - 1) * w == fanout() * w - w) by (nonlinear_arith);
                    }
                    assert forall|goal_rule: spec_fn(Pos) -> bool, pass_rule: spec_fn(Pos) -> bool|
                        #[trigger] answers(is_goal, goal_rule) && #[trigger] answers(
                            passable,
                            pass_rule,
                        ) implies first_scans(goal_rule, pass_rule, origin, open@) by {
                        lemma_popped(goal_rule, pass_rule, origin, old_open, old_costs, at, curr);
                        assert forall|i: int| 0 <= i < 6 implies waiting(
                            open@,
                            #[trigger] first_jump(origin, i),
                        ) || (has_goal(stem_nodes(goal_rule, pass_rule, first_jump(origin, i), 1))
                            ==> pending_goal(open@)) by {
                            let jp = first_jump(origin, i);
                            if waiting(popped, jp) {
                            } else if curr == jp {
                                assert(found@ == stem_nodes(goal_rule, pass_rule, curr, 1));
                                if has_goal(found@) {
                                    let j = choose|j: int|
                                        0 <= j < found@.len() && (#[trigger] found@[j]) is Goal;
                                    assert(pending_goal(open@));
                                }
                            } else {
                            }
                        }
                    }
                }
            },
        }
    }
}

/// With nothing left in the frontier, no scan from any of the six jump
/// points with which the search set out comes to a goal.
proof fn lemma_nowhere_to_go(
    is_goal: spec_fn(Pos) -> bool,
    passable: spec_fn(Pos) -> bool,
    origin: Pos,
    open: Seq<(OpenNode, u32)>,
)
    requires
        open.len() == 0,
        first_scans(is_goal, passable, origin, open),
    ensures
        forall|direction: Direction, q: Pos| #[trigger]
            reaches(
                passable,
                JumpPoint { pos: origin, direction, chirality: Chirality::Clockwise },
                q,
            ) ==> !is_goal(q),
{
    assert forall|direction: Direction, q: Pos| #[trigger]
        reaches(
            passable,
            JumpPoint { pos: origin, direction, chirality: Chirality::Clockwise },
            q,
        ) implies !is_goal(q) by {
        let jp = JumpPoint { pos: origin, direction, chirality: Chirality::Clockwise };
        if is_goal(q) {
            lemma_scan_finds_goal(is_goal, passable, jp, q);
            crate::grid::laws::lemma_rotate_zero(direction);
            assert(jp == first_jump(origin, direction.spec_index()));
            assert(!waiting(open, first_jump(origin, direction.spec_index())));
            assert(!pending_goal(open));
        }
    }
}

/// After a jump point is taken from the frontier, a goal node is still in
/// it for every recorded goal, and each of the six first jump points is
/// still in it, or is the one taken, or has been scanned from before.
proof fn lemma_popped(
    is_goal: spec_fn(Pos) -> bool,
    passable: spec_fn(Pos) -> bool,
    origin: Pos,
    open: Seq<(OpenNode, u32)>,
    costs: Map<Pos, u32>,
    at: int,
    curr: JumpPoint,
)
    requires
        0 <= at < open.len(),
        open[at].0 == OpenNode::JumpPoint(curr),
        first_scans(is_goal, passable, origin, open),
    ensures
        goals_pending(is_goal, costs, open) ==> goals_pending(is_goal, costs, open.remove(at)),
        pending_goal(open) ==> pending_goal(open.remove(at)),
        forall|i: int|
            0 <= i < 6 ==> waiting(open.remove(at), #[trigger] first_jump(origin, i)) || curr
                == first_jump(origin, i) || (has_goal(
                stem_nodes(is_goal, passable, first_jump(origin, i), 1),
            ) ==> pending_goal(open.remove(at))),
{
    if pending_goal(open) {
        lemma_still_pending(open, at);
    }
    assert forall|i: int| 0 <= i < 6 implies waiting(
        open.remove(at),
        #[trigger] first_jump(origin, i),
    ) || curr == first_jump(origin, i) || (has_goal(
        stem_nodes(is_goal, passable, first_jump(origin, i), 1),
    ) ==> pending_goal(open.remove(at))) by {
        let jp = first_jump(origin, i);
        if waiting(open, jp) && curr != jp {
            lemma_still_waiting(open, at, jp);
        }
    }
}

} // verus!
