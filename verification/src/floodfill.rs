//! Function for performing an efficient floodfill.
//!
//! The fill works on rows of the grid, which run from east to west. A row is
//! named by the sum of the two coordinates of its positions, and a position
//! on a row by its first coordinate, which grows towards the east.

use crate::grid::laws::lemma_adjacent_is_step;
use crate::grid::{Direction, Pos};
use crate::posset::PosSet;
use crate::predicate::{
    answers, bounded, bounds, closed, component, connected, lemma_bounds_finite,
    lemma_closed_holds_component, lemma_connected_satisfies, lemma_connected_self,
    lemma_connected_step, lemma_connected_weaken, total, truth, undenied,
};
use vstd::prelude::*;

verus! {

/// A horizontal segment of positions from start to end inclusive.
///
/// The start lies to the east and the end to the west (like the sun).
#[derive(Clone, Copy)]
struct Segment {
    start: Pos,
    end: Pos,
}

/// Describes whether the current `flood_vert` call is headed north or south.
#[derive(Clone, Copy)]
enum FloodDirection {
    North,
    South,
}

/// The row on which `p` lies.
spec fn row_of(p: Pos) -> int {
    p.x + p.y
}

/// The position on row `row` whose first coordinate is `x`.
spec fn at_row(row: int, x: int) -> Pos {
    Pos::at(x, row - x)
}

/// Whether nothing is left to do at `c`: it is flooded, or `pred`, which
/// holds of every position that may yet prove floodable, does not hold of it.
spec fn done(pred: spec_fn(Pos) -> bool, flooded: Set<Pos>, c: Pos) -> bool {
    !pred(c) || flooded.contains(c)
}

/// Whether nothing is left to do at any of the six neighbors of `p`.
#[verifier::opaque]
spec fn closed_at(pred: spec_fn(Pos) -> bool, flooded: Set<Pos>, p: Pos) -> bool {
    let row = row_of(p);
    &&& done(pred, flooded, at_row(row, p.x + 1))
    &&& done(pred, flooded, at_row(row, p.x - 1))
    &&& done(pred, flooded, at_row(row - 1, p.x as int))
    &&& done(pred, flooded, at_row(row - 1, p.x - 1))
    &&& done(pred, flooded, at_row(row + 1, p.x + 1))
    &&& done(pred, flooded, at_row(row + 1, p.x as int))
}

/// What holds between calls: `root` is floodable, every flooded position is
/// floodable and joined to `root`, and no rejected position may yet prove
/// floodable. Here `pred` holds of what is known to be floodable and
/// `open_to` of what may yet prove floodable.
spec fn sound(
    pred: spec_fn(Pos) -> bool,
    open_to: spec_fn(Pos) -> bool,
    root: Pos,
    flooded: Set<Pos>,
    rejected: Set<Pos>,
) -> bool {
    &&& pred(root)
    &&& forall|p: Pos| #[trigger]
        flooded.contains(p) ==> pred(p) && p.in_bounds() && connected(pred, root, p)
    &&& forall|p: Pos| #[trigger] rejected.contains(p) ==> !open_to(p)
}

impl FloodDirection {
    /// By how much the row changes in this direction.
    spec fn row_step(self) -> int {
        match self {
            FloodDirection::North => -1,
            FloodDirection::South => 1,
        }
    }

    /// The neighbors in this direction of the position at `x` are those at
    /// `x - 1 + shift` and `x + shift` of the next row.
    spec fn shift(self) -> int {
        match self {
            FloodDirection::North => 0,
            FloodDirection::South => 1,
        }
    }

    spec fn spec_opposite(self) -> FloodDirection {
        match self {
            FloodDirection::North => FloodDirection::South,
            FloodDirection::South => FloodDirection::North,
        }
    }

    fn opposite(&self) -> (res: Self)
        ensures
            res == self.spec_opposite(),
    {
        match *self {
            FloodDirection::North => FloodDirection::South,
            FloodDirection::South => FloodDirection::North,
        }
    }
}

impl Segment {
    /// Whether both ends lie on one row, within bounds, the start not west of the end.
    spec fn aligned(self) -> bool {
        &&& row_of(self.start) == row_of(self.end)
        &&& self.end.x <= self.start.x
        &&& self.start.in_bounds()
        &&& self.end.in_bounds()
    }

    /// Whether `p` is one of the positions of this segment.
    spec fn holds(self, p: Pos) -> bool {
        row_of(p) == row_of(self.start) && self.end.x <= p.x <= self.start.x
    }

    /// Whether the segment is flooded and nothing is left to do beyond its two ends.
    spec fn ready(self, pred: spec_fn(Pos) -> bool, flooded: Set<Pos>) -> bool {
        let row = row_of(self.start);
        &&& self.aligned()
        &&& forall|x: int|
            self.end.x <= x <= self.start.x ==> flooded.contains(#[trigger] at_row(row, x))
        &&& done(pred, flooded, at_row(row, self.start.x + 1))
        &&& done(pred, flooded, at_row(row, self.end.x - 1))
    }

    /// Expand a segment north or south.
    /// The resulting segment is longer by 1 than the segment that it comes from.
    fn expand(&self, direction: FloodDirection) -> (res: Self)
        requires
            self.aligned(),
        ensures
            res.start == at_row(
                row_of(self.start) + direction.row_step(),
                self.start.x + direction.shift(),
            ),
            res.end == at_row(
                row_of(self.start) + direction.row_step(),
                self.end.x - 1 + direction.shift(),
            ),
    {
        let (start_dir, end_dir) = match direction {
            FloodDirection::North => (Direction::Northeast, Direction::Northwest),
            FloodDirection::South => (Direction::Southeast, Direction::Southwest),
        };
        Segment { start: self.start + start_dir, end: self.end + end_dir }
    }
}

/// Whether `p` lies on the row of `a` and `b`, between the two or on one of them.
spec fn between(a: Pos, b: Pos, p: Pos) -> bool {
    row_of(p) == row_of(a) && (a.x <= p.x <= b.x || b.x <= p.x <= a.x)
}

/// Whether `p` lies in one of `segments`.
spec fn covered(segments: Seq<Segment>, p: Pos) -> bool {
    exists|k: int| 0 <= k < segments.len() && (#[trigger] segments[k]).holds(p)
}

/// Flooding a position within bounds that was not flooded leaves fewer
/// positions to flood.
proof fn lemma_progress(before: Set<Pos>, after: Set<Pos>, p: Pos)
    requires
        before.subset_of(after),
        after.contains(p),
        !before.contains(p),
        p.in_bounds(),
    ensures
        bounds().difference(after).len() < bounds().difference(before).len(),
{
    lemma_bounds_finite();
    let rest = bounds().difference(before);
    assert(rest.contains(p));
    assert(bounds().difference(after).subset_of(rest.remove(p)));
    vstd::set_lib::lemma_len_subset(bounds().difference(after), rest.remove(p));
}

/// Whether `pos` is still to be flooded: it is neither flooded nor known to
/// be unfloodable, and the predicate accepts it. The predicate is asked at
/// most once about any position.
fn is_candidate<F: Fn(Pos) -> bool>(
    pos: Pos,
    flooded: &PosSet,
    rejected: &mut PosSet,
    floodable: &F,
) -> (res: bool)
    requires
        total(*floodable),
        forall|p: Pos| #[trigger] old(rejected)@.contains(p) ==> !undenied(*floodable)(p),
    ensures
        res ==> truth(*floodable)(pos) && !flooded@.contains(pos),
        !res ==> done(undenied(*floodable), flooded@, pos),
        old(rejected)@.subset_of(final(rejected)@),
        forall|p: Pos| #[trigger] final(rejected)@.contains(p) ==> !undenied(*floodable)(p),
{
    if flooded.contains(pos) || rejected.contains(pos) {
        return false;
    }
    if floodable(pos) {
        true
    } else {
        rejected.insert(pos);
        false
    }
}

/// Flood a ray of positions, beginning at origin (not inclusive)
/// and continuing east or west until a position is reached that is not to be
/// flooded. Returns the last position flooded, or origin if there is none.
fn flood_ray<F: Fn(Pos) -> bool>(
    origin: Pos,
    direction: Direction,
    flooded: &mut PosSet,
    rejected: &mut PosSet,
    floodable: &F,
    Ghost(root): Ghost<Pos>,
) -> (res: Pos)
    requires
        total(*floodable),
        bounded(truth(*floodable)),
        sound(truth(*floodable), undenied(*floodable), root, old(flooded)@, old(rejected)@),
        old(flooded)@.contains(origin),
        direction == Direction::East || direction == Direction::West,
    ensures
        sound(truth(*floodable), undenied(*floodable), root, final(flooded)@, final(rejected)@),
        old(flooded)@.subset_of(final(flooded)@),
        row_of(res) == row_of(origin),
        res.in_bounds(),
        direction == Direction::East ==> origin.x <= res.x,
        direction == Direction::West ==> res.x <= origin.x,
        forall|p: Pos| #[trigger]
            final(flooded)@.contains(p) <==> old(flooded)@.contains(p) || between(origin, res, p),
        forall|p: Pos|
            between(origin, res, p) && p != origin ==> !(#[trigger] old(flooded)@.contains(p)),
        done(
            undenied(*floodable),
            final(flooded)@,
            at_row(row_of(origin), res.x + direction.spec_x()),
        ),
{
    let ghost yes = truth(*floodable);
    let ghost pred = undenied(*floodable);
    let mut last = origin;
    let mut pos = origin + direction;
    loop
        invariant
            total(*floodable),
            bounded(yes),
            yes == truth(*floodable),
            pred == undenied(*floodable),
            sound(yes, pred, root, flooded@, rejected@),
            old(flooded)@.subset_of(flooded@),
            direction == Direction::East || direction == Direction::West,
            flooded@.contains(last),
            row_of(last) == row_of(origin),
            pos == at_row(row_of(origin), last.x + direction.spec_x()),
            direction == Direction::East ==> origin.x <= last.x,
            direction == Direction::West ==> last.x <= origin.x,
            forall|p: Pos| #[trigger]
                flooded@.contains(p) <==> old(flooded)@.contains(p) || between(origin, last, p),
            forall|p: Pos|
                between(origin, last, p) && p != origin ==> !(#[trigger] old(flooded)@.contains(
                    p,
                )),
        ensures
            sound(yes, pred, root, flooded@, rejected@),
            old(flooded)@.subset_of(flooded@),
            flooded@.contains(last),
            row_of(last) == row_of(origin),
            direction == Direction::East ==> origin.x <= last.x,
            direction == Direction::West ==> last.x <= origin.x,
            forall|p: Pos| #[trigger]
                flooded@.contains(p) <==> old(flooded)@.contains(p) || between(origin, last, p),
            forall|p: Pos|
                between(origin, last, p) && p != origin ==> !(#[trigger] old(flooded)@.contains(
                    p,
                )),
            done(pred, flooded@, at_row(row_of(origin), last.x + direction.spec_x())),
        decreases bounds().difference(flooded@).len(),
    {
        if !is_candidate(pos, &*flooded, rejected, floodable) {
            break ;
        }
        let ghost before = flooded@;
        proof {
            assert(last.adjacent(pos));
            lemma_connected_step(yes, root, last, pos);
            lemma_progress(before, before.insert(pos), pos);
        }
        flooded.insert(pos);
        last = pos;
        pos = pos + direction;
    }
    last
}

/// Whether some flooded position is a neighbor of `c`.
spec fn supported(flooded: Set<Pos>, c: Pos) -> bool {
    exists|q: Pos| flooded.contains(q) && #[trigger] q.adjacent(c)
}

impl Segment {
    /// Whether the segment lies on one row within bounds and is flooded.
    spec fn flooded_in(self, flooded: Set<Pos>) -> bool {
        &&& self.aligned()
        &&& forall|x: int|
            self.end.x <= x <= self.start.x ==> flooded.contains(
                #[trigger] at_row(row_of(self.start), x),
            )
    }

    /// Whether the ends lie on one row, at most one step out of bounds.
    spec fn scannable(self) -> bool {
        &&& row_of(self.start) == row_of(self.end)
        &&& self.end.x <= self.start.x
        &&& -4097 <= self.start.x <= 4097
        &&& -4097 <= self.start.y <= 4097
        &&& -4097 <= self.end.x <= 4097
        &&& -4097 <= self.end.y <= 4097
    }
}

/// What a scan of `whole` has reached when the positions east of `x` are
/// dealt with: `runs` are the finished runs of newly flooded positions and
/// `open` is the eastern end of a run that is still growing.
spec fn scan_state(
    before: Set<Pos>,
    now: Set<Pos>,
    runs: Seq<Segment>,
    open: Option<Pos>,
    whole: Segment,
    x: int,
) -> bool {
    let row = row_of(whole.start);
    &&& before.subset_of(now)
    &&& forall|p: Pos| #[trigger]
        now.contains(p) && !before.contains(p) ==> whole.holds(p) && p.x > x && (covered(runs, p)
            || (open is Some && p.x <= open->Some_0.x))
    &&& open matches Some(s) ==> {
        &&& row_of(s) == row
        &&& x < s.x <= whole.start.x
        &&& s.in_bounds()
        &&& !before.contains(s)
        &&& forall|i: int| x < i <= s.x ==> now.contains(#[trigger] at_row(row, i))
        &&& forall|k: int| 0 <= k < runs.len() ==> s.x < (#[trigger] runs[k]).end.x - 1
    }
    &&& forall|k: int|
        0 <= k < runs.len() ==> {
            &&& (#[trigger] runs[k]).flooded_in(now)
            &&& row_of(runs[k].start) == row
            &&& x + 2 <= runs[k].end.x
            &&& runs[k].start.x <= whole.start.x
            &&& !before.contains(runs[k].start)
            &&& (k >= 1 ==> runs[k].start.x < whole.start.x)
        }
}

/// What a finished scan of `whole` hands back.
#[verifier::opaque]
spec fn scan_result(before: Set<Pos>, now: Set<Pos>, runs: Seq<Segment>, whole: Segment) -> bool {
    &&& before.subset_of(now)
    &&& forall|p: Pos| #[trigger]
        now.contains(p) && !before.contains(p) ==> whole.holds(p) && covered(runs, p)
    &&& forall|k: int|
        0 <= k < runs.len() ==> {
            &&& (#[trigger] runs[k]).flooded_in(now)
            &&& row_of(runs[k].start) == row_of(whole.start)
            &&& whole.end.x <= runs[k].end.x
            &&& runs[k].start.x <= whole.start.x
            &&& !before.contains(runs[k].start)
            &&& (k >= 1 ==> runs[k].start.x < whole.start.x)
            &&& (k < runs.len() - 1 ==> runs[k].end.x > whole.end.x)
        }
}

/// The scan floods the position it stands on.
proof fn lemma_scan_mark(
    before: Set<Pos>,
    now: Set<Pos>,
    runs: Seq<Segment>,
    open: Option<Pos>,
    whole: Segment,
    pos: Pos,
)
    requires
        scan_state(before, now, runs, open, whole, pos.x as int),
        whole.holds(pos),
        pos.in_bounds(),
        !now.contains(pos),
    ensures
        scan_state(
            before,
            now.insert(pos),
            runs,
            if open is None {
                Some(pos)
            } else {
                open
            },
            whole,
            pos.x - 1,
        ),
{
    let row = row_of(whole.start);
    let after = now.insert(pos);
    assert(pos == at_row(row, pos.x as int));
    assert forall|k: int| 0 <= k < runs.len() implies (#[trigger] runs[k]).flooded_in(after) by {
        assert(runs[k].flooded_in(now));
    }
}

/// The scan passes a position that is not to be flooded and ends the run, if
/// one is growing, just east of it.
proof fn lemma_scan_pass(
    before: Set<Pos>,
    now: Set<Pos>,
    runs: Seq<Segment>,
    open: Option<Pos>,
    whole: Segment,
    pos: Pos,
)
    requires
        scan_state(before, now, runs, open, whole, pos.x as int),
        whole.holds(pos),
        whole.scannable(),
    ensures
        scan_state(
            before,
            now,
            match open {
                Some(s) => runs.push(Segment { start: s, end: at_row(row_of(pos), pos.x + 1) }),
                None => runs,
            },
            None,
            whole,
            pos.x - 1,
        ),
{
    let row = row_of(whole.start);
    match open {
        Some(s) => {
            let run = Segment { start: s, end: at_row(row, pos.x + 1) };
            let longer = runs.push(run);
            assert(now.contains(at_row(row, pos.x + 1)));
            assert(run.flooded_in(now));
            assert forall|p: Pos| #[trigger] now.contains(p) && !before.contains(p) implies covered(
                longer,
                p,
            ) by {
                if covered(runs, p) {
                    let k = choose|k: int| 0 <= k < runs.len() && (#[trigger] runs[k]).holds(p);
                    assert(longer[k].holds(p));
                } else {
                    assert(longer[runs.len() as int].holds(p));
                }
            }
            assert forall|k: int| 0 <= k < longer.len() implies {
                &&& (#[trigger] longer[k]).flooded_in(now)
                &&& row_of(longer[k].start) == row
                &&& pos.x - 1 + 2 <= longer[k].end.x
                &&& longer[k].start.x <= whole.start.x
                &&& !before.contains(longer[k].start)
                &&& (k >= 1 ==> longer[k].start.x < whole.start.x)
            } by {
                if k < runs.len() {
                    assert(longer[k] == runs[k]);
                } else if k >= 1 {
                    assert(s.x < runs[0].end.x - 1);
                    assert(runs[0].flooded_in(now));
                }
            }
        },
        None => {},
    }
}

/// The scan has passed the western end; a run that is still growing ends there.
proof fn lemma_scan_finish(
    before: Set<Pos>,
    now: Set<Pos>,
    runs: Seq<Segment>,
    open: Option<Pos>,
    whole: Segment,
)
    requires
        scan_state(before, now, runs, open, whole, whole.end.x - 1),
        whole.scannable(),
        forall|p: Pos| #[trigger] now.contains(p) ==> p.in_bounds(),
    ensures
        scan_result(
            before,
            now,
            match open {
                Some(s) => runs.push(Segment { start: s, end: whole.end }),
                None => runs,
            },
            whole,
        ),
{
    reveal(scan_result);
    let row = row_of(whole.start);
    match open {
        Some(s) => {
            let run = Segment { start: s, end: whole.end };
            let longer = runs.push(run);
            assert(now.contains(at_row(row, whole.end.x as int)));
            assert(whole.end == at_row(row, whole.end.x as int));
            assert(run.flooded_in(now));
            assert forall|p: Pos| #[trigger] now.contains(p) && !before.contains(p) implies covered(
                longer,
                p,
            ) by {
                if covered(runs, p) {
                    let k = choose|k: int| 0 <= k < runs.len() && (#[trigger] runs[k]).holds(p);
                    assert(longer[k].holds(p));
                } else {
                    assert(longer[runs.len() as int].holds(p));
                }
            }
            assert forall|k: int| 0 <= k < longer.len() implies {
                &&& (#[trigger] longer[k]).flooded_in(now)
                &&& row_of(longer[k].start) == row
                &&& whole.end.x <= longer[k].end.x
                &&& longer[k].start.x <= whole.start.x
                &&& !before.contains(longer[k].start)
                &&& (k >= 1 ==> longer[k].start.x < whole.start.x)
                &&& (k < longer.len() - 1 ==> longer[k].end.x > whole.end.x)
            } by {
                if k < runs.len() {
                    assert(longer[k] == runs[k]);
                } else if k >= 1 {
                    assert(s.x < runs[0].end.x - 1);
                    assert(runs[0].flooded_in(now));
                }
            }
        },
        None => {},
    }
}

impl Segment {
    /// Flood an entire segment.
    /// This skips over positions that are not to be flooded instead of
    /// stopping at them. Returns the runs of newly flooded positions, from
    /// east to west.
    fn flood<F: Fn(Pos) -> bool>(
        self,
        flooded: &mut PosSet,
        rejected: &mut PosSet,
        floodable: &F,
        Ghost(root): Ghost<Pos>,
    ) -> (res: Vec<Segment>)
        requires
            total(*floodable),
            bounded(truth(*floodable)),
            sound(truth(*floodable), undenied(*floodable), root, old(flooded)@, old(rejected)@),
            self.scannable(),
            forall|x: int|
                self.end.x <= x <= self.start.x ==> supported(
                    old(flooded)@,
                    #[trigger] at_row(row_of(self.start), x),
                ),
        ensures
            sound(truth(*floodable), undenied(*floodable), root, final(flooded)@, final(rejected)@),
            forall|x: int|
                self.end.x <= x <= self.start.x ==> done(
                    undenied(*floodable),
                    final(flooded)@,
                    #[trigger] at_row(row_of(self.start), x),
                ),
            scan_result(old(flooded)@, final(flooded)@, res@, self),
            old(flooded)@.subset_of(final(flooded)@),
    {
        let ghost yes = truth(*floodable);
    let ghost pred = undenied(*floodable);
        let ghost row = row_of(self.start);
        let mut open: Option<Pos> = None;
        let mut segments: Vec<Segment> = Vec::new();
        let end = self.end;
        let stop = end + Direction::West;
        let mut pos = self.start;
        while pos != stop
            invariant
                total(*floodable),
                bounded(yes),
                yes == truth(*floodable),
            pred == undenied(*floodable),
                row == row_of(self.start),
                end == self.end,
                stop == at_row(row, self.end.x - 1),
                self.scannable(),
                row_of(pos) == row,
                self.end.x - 1 <= pos.x <= self.start.x,
                sound(yes, pred, root, flooded@, rejected@),
                forall|x: int|
                    self.end.x <= x <= self.start.x ==> supported(
                        old(flooded)@,
                        #[trigger] at_row(row, x),
                    ),
                forall|x: int|
                    pos.x < x <= self.start.x ==> done(pred, flooded@, #[trigger] at_row(row, x)),
                scan_state(old(flooded)@, flooded@, segments@, open, self, pos.x as int),
            decreases pos.x - self.end.x + 1,
        {
            let ghost before = flooded@;
            let ghost runs = segments@;
            let ghost was_open = open;
            proof {
                assert(pos == at_row(row, pos.x as int));
            }
            if is_candidate(pos, &*flooded, rejected, floodable) {
                proof {
                    let q = choose|q: Pos| old(flooded)@.contains(q) && #[trigger] q.adjacent(pos);
                    assert(before.contains(q));
                    lemma_connected_step(yes, root, q, pos);
                    lemma_scan_mark(old(flooded)@, before, runs, was_open, self, pos);
                }
                flooded.insert(pos);
                if open.is_none() {
                    open = Some(pos);
                }
            } else {
                proof {
                    lemma_scan_pass(old(flooded)@, before, runs, was_open, self, pos);
                }
                match open {
                    Some(start_pos) => {
                        segments.push(Segment { start: start_pos, end: pos - Direction::West });
                        open = None;
                    },
                    None => {},
                }
            }
            pos = pos + Direction::West;
        }
        proof {
            lemma_scan_finish(old(flooded)@, flooded@, segments@, open, self);
        }
        match open {
            Some(start_pos) => {
                segments.push(Segment { start: start_pos, end });
            },
            None => {},
        }
        segments
    }
}

/// What holds inside `flood_vert` once the expanded segment on row `row` is
/// scanned. A position flooded since the start of the call either has
/// nothing left to do around it, or lies on `row` between `lo` and `hi` in
/// one of `runs`. On the row that the call came from nothing is left to do
/// from `blo` to `bhi`. Nothing is left to do east of a run that begins west
/// of `hi`, nor of any run once `east` is set; likewise to the west.
#[verifier::opaque]
spec fn frame(
    pred: spec_fn(Pos) -> bool,
    before: Set<Pos>,
    now: Set<Pos>,
    runs: Seq<Segment>,
    row: int,
    direction: FloodDirection,
    lo: int,
    hi: int,
    blo: int,
    bhi: int,
    east: bool,
    west: bool,
) -> bool {
    &&& before.subset_of(now)
    &&& runs.len() > 0
    &&& forall|p: Pos| #[trigger]
        now.contains(p) && !before.contains(p) ==> closed_at(pred, now, p) || (row_of(p) == row
            && lo <= p.x <= hi && covered(runs, p))
    &&& forall|x: int|
        blo <= x <= bhi ==> done(pred, now, #[trigger] at_row(row - direction.row_step(), x))
    &&& forall|k: int|
        0 <= k < runs.len() ==> {
            &&& (#[trigger] runs[k]).flooded_in(now)
            &&& row_of(runs[k].start) == row
            &&& lo <= runs[k].end.x
            &&& runs[k].start.x <= hi
            &&& (k >= 1 ==> runs[k].start.x < hi)
            &&& (k < runs.len() - 1 ==> runs[k].end.x > lo)
            &&& (east || runs[k].start.x < hi ==> done(pred, now, at_row(row, runs[k].start.x + 1)))
            &&& (west || runs[k].end.x > lo ==> done(pred, now, at_row(row, runs[k].end.x - 1)))
        }
}

/// Whether nothing is left to do on the row after `row` next to the first `count` of `runs`.
#[verifier::opaque]
spec fn beyond_done(
    pred: spec_fn(Pos) -> bool,
    now: Set<Pos>,
    runs: Seq<Segment>,
    row: int,
    direction: FloodDirection,
    count: int,
) -> bool {
    forall|k: int, x: int|
        0 <= k < count && (#[trigger] runs[k]).end.x - 1 + direction.shift() <= x
            <= runs[k].start.x + direction.shift() ==> done(
            pred,
            now,
            #[trigger] at_row(row + direction.row_step(), x),
        )
}

/// Nothing that is left to do at `p` comes back when more is flooded.
proof fn lemma_closed_at_stays(pred: spec_fn(Pos) -> bool, mid: Set<Pos>, now: Set<Pos>, p: Pos)
    requires
        closed_at(pred, mid, p),
        mid.subset_of(now),
    ensures
        closed_at(pred, now, p),
{
    reveal(closed_at);
}

/// Every position of the expansion of a flooded segment has a flooded neighbor.
proof fn lemma_expand_supported(origin: Segment, direction: FloodDirection, flooded: Set<Pos>)
    requires
        origin.flooded_in(flooded),
    ensures
        forall|x: int|
            origin.end.x - 1 + direction.shift() <= x <= origin.start.x + direction.shift()
                ==> supported(
                flooded,
                #[trigger] at_row(row_of(origin.start) + direction.row_step(), x),
            ),
{
    let row = row_of(origin.start);
    assert forall|x: int|
        origin.end.x - 1 + direction.shift() <= x <= origin.start.x
            + direction.shift() implies supported(
        flooded,
        #[trigger] at_row(row + direction.row_step(), x),
    ) by {
        let c = at_row(row + direction.row_step(), x);
        let bx = if x - direction.shift() >= origin.end.x {
            x - direction.shift()
        } else {
            x + 1 - direction.shift()
        };
        let q = at_row(row, bx);
        assert(flooded.contains(q));
        assert(q.adjacent(c));
    }
}

/// A scan that found no run flooded nothing.
proof fn lemma_frame_empty(
    pred: spec_fn(Pos) -> bool,
    before: Set<Pos>,
    now: Set<Pos>,
    runs: Seq<Segment>,
    whole: Segment,
)
    requires
        scan_result(before, now, runs, whole),
        runs.len() == 0,
    ensures
        forall|p: Pos| #[trigger] now.contains(p) && !before.contains(p) ==> closed_at(pred, now, p),
{
    reveal(scan_result);
    assert forall|p: Pos| #[trigger] now.contains(p) && !before.contains(p) implies closed_at(
        pred,
        now,
        p,
    ) by {
        assert(covered(runs, p));
    }
}

/// The state right after a scan of the expanded segment that found a run.
proof fn lemma_frame_start(
    pred: spec_fn(Pos) -> bool,
    before: Set<Pos>,
    now: Set<Pos>,
    runs: Seq<Segment>,
    origin: Segment,
    whole: Segment,
    direction: FloodDirection,
)
    requires
        origin.ready(pred, before),
        whole.start == at_row(
            row_of(origin.start) + direction.row_step(),
            origin.start.x + direction.shift(),
        ),
        whole.end == at_row(
            row_of(origin.start) + direction.row_step(),
            origin.end.x - 1 + direction.shift(),
        ),
        scan_result(before, now, runs, whole),
        forall|x: int|
            whole.end.x <= x <= whole.start.x ==> done(
                pred,
                now,
                #[trigger] at_row(row_of(whole.start), x),
            ),
        forall|p: Pos| #[trigger] now.contains(p) ==> p.in_bounds(),
        runs.len() > 0,
    ensures
        frame(
            pred,
            before,
            now,
            runs,
            row_of(whole.start),
            direction,
            whole.end.x as int,
            whole.start.x as int,
            origin.end.x - 1,
            origin.start.x + 1,
            false,
            false,
        ),
        bounds().difference(now).len() < bounds().difference(before).len(),
{
    reveal(scan_result);
    reveal(frame);
    let below = row_of(origin.start);
    let row = row_of(whole.start);
    assert forall|x: int| origin.end.x - 1 <= x <= origin.start.x + 1 implies done(
        pred,
        now,
        #[trigger] at_row(row - direction.row_step(), x),
    ) by {
        if origin.end.x <= x <= origin.start.x {
            assert(before.contains(at_row(below, x)));
        }
    }
    let fresh = runs[0].start;
    assert(runs[0].flooded_in(now));
    assert(fresh == at_row(row, fresh.x as int));
    lemma_progress(before, now, fresh);
    assert forall|k: int| 0 <= k < runs.len() implies {
        &&& (runs[k].start.x < whole.start.x ==> done(pred, now, at_row(row, runs[k].start.x + 1)))
        &&& (runs[k].end.x > whole.end.x ==> done(pred, now, at_row(row, runs[k].end.x - 1)))
    } by {
        assert(runs[k].flooded_in(now));
    }
}

/// The state survives further flooding that leaves nothing to do around what
/// it floods, and may take in more of the row that the call came from.
proof fn lemma_frame_grow(
    pred: spec_fn(Pos) -> bool,
    before: Set<Pos>,
    mid: Set<Pos>,
    now: Set<Pos>,
    runs: Seq<Segment>,
    row: int,
    direction: FloodDirection,
    lo: int,
    hi: int,
    blo: int,
    bhi: int,
    east: bool,
    west: bool,
    new_blo: int,
    new_bhi: int,
)
    requires
        frame(pred, before, mid, runs, row, direction, lo, hi, blo, bhi, east, west),
        mid.subset_of(now),
        forall|p: Pos| #[trigger] now.contains(p) && !mid.contains(p) ==> closed_at(pred, now, p),
        forall|x: int|
            new_blo <= x <= new_bhi && !(blo <= x <= bhi) ==> done(
                pred,
                now,
                #[trigger] at_row(row - direction.row_step(), x),
            ),
        bounds().difference(mid).len() < bounds().difference(before).len(),
    ensures
        frame(pred, before, now, runs, row, direction, lo, hi, new_blo, new_bhi, east, west),
        bounds().difference(now).len() < bounds().difference(before).len(),
{
    reveal(frame);
    lemma_bounds_finite();
    vstd::set_lib::lemma_len_subset(bounds().difference(now), bounds().difference(mid));
    assert forall|k: int| 0 <= k < runs.len() implies (#[trigger] runs[k]).flooded_in(now) by {
        assert(runs[k].flooded_in(mid));
    }
    assert forall|p: Pos| #[trigger] now.contains(p) && !before.contains(p) implies closed_at(
        pred,
        now,
        p,
    ) || (row_of(p) == row && lo <= p.x <= hi && covered(runs, p)) by {
        if mid.contains(p) {
            if closed_at(pred, mid, p) {
                lemma_closed_at_stays(pred, mid, now, p);
            }
        }
    }
    assert forall|x: int| new_blo <= x <= new_bhi implies done(
        pred,
        now,
        #[trigger] at_row(row - direction.row_step(), x),
    ) by {
        if blo <= x <= bhi {
            assert(done(pred, mid, at_row(row - direction.row_step(), x)));
        }
    }
}

/// A run that does not begin at the eastern end of the scanned segment has
/// nothing left to do east of it.
proof fn lemma_frame_east_inner(
    pred: spec_fn(Pos) -> bool,
    before: Set<Pos>,
    now: Set<Pos>,
    runs: Seq<Segment>,
    row: int,
    direction: FloodDirection,
    lo: int,
    hi: int,
    blo: int,
    bhi: int,
    west: bool,
    start: Pos,
)
    requires
        frame(pred, before, now, runs, row, direction, lo, hi, blo, bhi, false, west),
        row_of(start) == row,
        start.x == hi,
        runs[0].start != start,
    ensures
        frame(pred, before, now, runs, row, direction, lo, hi, blo, bhi, true, west),
{
    reveal(frame);
    assert(runs[0].flooded_in(now));
}

/// A run that does not end at the western end of the scanned segment has
/// nothing left to do west of it.
proof fn lemma_frame_west_inner(
    pred: spec_fn(Pos) -> bool,
    before: Set<Pos>,
    now: Set<Pos>,
    runs: Seq<Segment>,
    row: int,
    direction: FloodDirection,
    lo: int,
    hi: int,
    blo: int,
    bhi: int,
    east: bool,
    end: Pos,
)
    requires
        frame(pred, before, now, runs, row, direction, lo, hi, blo, bhi, east, false),
        row_of(end) == row,
        end.x == lo,
        runs[runs.len() - 1].end != end,
    ensures
        frame(pred, before, now, runs, row, direction, lo, hi, blo, bhi, east, true),
{
    reveal(frame);
    assert(runs[runs.len() - 1].flooded_in(now));
}

/// The state after a ray has lengthened the first run to the east. The
/// positions that the ray flooded form a segment that is ready to be
/// flooded from.
proof fn lemma_frame_ray_east(
    pred: spec_fn(Pos) -> bool,
    before: Set<Pos>,
    mid: Set<Pos>,
    now: Set<Pos>,
    runs: Seq<Segment>,
    row: int,
    direction: FloodDirection,
    lo: int,
    hi: int,
    blo: int,
    bhi: int,
    west: bool,
    from: Pos,
    reached: Pos,
)
    requires
        frame(pred, before, mid, runs, row, direction, lo, hi, blo, bhi, false, west),
        row_of(from) == row,
        row_of(reached) == row,
        reached.in_bounds(),
        from.x == hi,
        runs[0].start == from,
        from.x <= reached.x,
        mid.subset_of(now),
        forall|p: Pos| #[trigger] now.contains(p) <==> mid.contains(p) || between(from, reached, p),
        done(pred, now, at_row(row, reached.x + 1)),
    ensures
        frame(
            pred,
            before,
            now,
            runs.update(0, Segment { start: reached, end: runs[0].end }),
            row,
            direction,
            lo,
            reached.x as int,
            blo,
            bhi,
            true,
            west,
        ),
        reached != from ==> (Segment { start: reached, end: at_row(row, from.x + 1) }).ready(
            pred,
            now,
        ),
{
    reveal(frame);
    let longer = Segment { start: reached, end: runs[0].end };
    let changed = runs.update(0, longer);
    assert(runs[0].flooded_in(mid));
    assert(from == at_row(row, from.x as int));
    assert forall|k: int| 0 <= k < changed.len() implies (#[trigger] changed[k]).flooded_in(now)
        && row_of(changed[k].start) == row by {
        if k == 0 {
            assert forall|x: int| longer.end.x <= x <= longer.start.x implies now.contains(
                #[trigger] at_row(row, x),
            ) by {
                let c = at_row(row, x);
                if runs[0].end.x <= x <= runs[0].start.x {
                    assert(mid.contains(c));
                } else {
                    assert(between(from, reached, c));
                }
            }
        } else {
            assert(runs[k].flooded_in(mid));
            assert(changed[k] == runs[k]);
        }
    }
    assert forall|p: Pos| #[trigger] now.contains(p) && !before.contains(p) implies closed_at(
        pred,
        now,
        p,
    ) || (row_of(p) == row && lo <= p.x <= reached.x && covered(changed, p)) by {
        if mid.contains(p) {
            if closed_at(pred, mid, p) {
                lemma_closed_at_stays(pred, mid, now, p);
            } else {
                let k = choose|k: int| 0 <= k < runs.len() && (#[trigger] runs[k]).holds(p);
                assert(changed[k].holds(p));
            }
        } else {
            assert(between(from, reached, p));
            assert(changed[0].holds(p));
        }
    }
    assert forall|x: int| blo <= x <= bhi implies done(
        pred,
        now,
        #[trigger] at_row(row - direction.row_step(), x),
    ) by {
        assert(done(pred, mid, at_row(row - direction.row_step(), x)));
    }
    assert forall|k: int| 0 <= k < changed.len() implies {
        &&& done(pred, now, at_row(row, (#[trigger] changed[k]).start.x + 1))
        &&& (west || changed[k].end.x > lo ==> done(pred, now, at_row(row, changed[k].end.x - 1)))
    } by {
        assert(runs[k].flooded_in(mid));
        if k > 0 {
            assert(changed[k] == runs[k]);
        }
    }
    if reached != from {
        let overhang = Segment { start: reached, end: at_row(row, from.x + 1) };
        assert forall|x: int| overhang.end.x <= x <= overhang.start.x implies now.contains(
            #[trigger] at_row(row, x),
        ) by {
            assert(between(from, reached, at_row(row, x)));
        }
        assert(now.contains(from));
    }
}

/// The state after a ray has lengthened the last run to the west. The
/// positions that the ray flooded form a segment that is ready to be
/// flooded from.
proof fn lemma_frame_ray_west(
    pred: spec_fn(Pos) -> bool,
    before: Set<Pos>,
    mid: Set<Pos>,
    now: Set<Pos>,
    runs: Seq<Segment>,
    row: int,
    direction: FloodDirection,
    lo: int,
    hi: int,
    blo: int,
    bhi: int,
    east: bool,
    from: Pos,
    reached: Pos,
)
    requires
        frame(pred, before, mid, runs, row, direction, lo, hi, blo, bhi, east, false),
        row_of(from) == row,
        row_of(reached) == row,
        reached.in_bounds(),
        from.x == lo,
        runs[runs.len() - 1].end == from,
        reached.x <= from.x,
        mid.subset_of(now),
        forall|p: Pos| #[trigger] now.contains(p) <==> mid.contains(p) || between(from, reached, p),
        done(pred, now, at_row(row, reached.x - 1)),
    ensures
        frame(
            pred,
            before,
            now,
            runs.update(
                runs.len() - 1,
                Segment { start: runs[runs.len() - 1].start, end: reached },
            ),
            row,
            direction,
            reached.x as int,
            hi,
            blo,
            bhi,
            east,
            true,
        ),
        reached != from ==> (Segment { start: at_row(row, from.x - 1), end: reached }).ready(
            pred,
            now,
        ),
{
    reveal(frame);
    let last = runs.len() - 1;
    let longer = Segment { start: runs[last].start, end: reached };
    let changed = runs.update(last, longer);
    assert(runs[last].flooded_in(mid));
    assert(from == at_row(row, from.x as int));
    assert forall|k: int| 0 <= k < changed.len() implies (#[trigger] changed[k]).flooded_in(now)
        && row_of(changed[k].start) == row by {
        if k == last {
            assert forall|x: int| longer.end.x <= x <= longer.start.x implies now.contains(
                #[trigger] at_row(row, x),
            ) by {
                let c = at_row(row, x);
                if runs[last].end.x <= x <= runs[last].start.x {
                    assert(mid.contains(c));
                } else {
                    assert(between(from, reached, c));
                }
            }
        } else {
            assert(runs[k].flooded_in(mid));
            assert(changed[k] == runs[k]);
        }
    }
    assert forall|p: Pos| #[trigger] now.contains(p) && !before.contains(p) implies closed_at(
        pred,
        now,
        p,
    ) || (row_of(p) == row && reached.x <= p.x <= hi && covered(changed, p)) by {
        if mid.contains(p) {
            if closed_at(pred, mid, p) {
                lemma_closed_at_stays(pred, mid, now, p);
            } else {
                let k = choose|k: int| 0 <= k < runs.len() && (#[trigger] runs[k]).holds(p);
                assert(changed[k].holds(p));
            }
        } else {
            assert(between(from, reached, p));
            assert(changed[last].holds(p));
        }
    }
    assert forall|x: int| blo <= x <= bhi implies done(
        pred,
        now,
        #[trigger] at_row(row - direction.row_step(), x),
    ) by {
        assert(done(pred, mid, at_row(row - direction.row_step(), x)));
    }
    assert forall|k: int| 0 <= k < changed.len() implies {
        &&& done(pred, now, at_row(row, (#[trigger] changed[k]).end.x - 1))
        &&& (east || changed[k].start.x < hi ==> done(
            pred,
            now,
            at_row(row, changed[k].start.x + 1),
        ))
    } by {
        assert(runs[k].flooded_in(mid));
        if k < last {
            assert(changed[k] == runs[k]);
        }
    }
    if reached != from {
        let overhang = Segment { start: at_row(row, from.x - 1), end: reached };
        assert forall|x: int| overhang.end.x <= x <= overhang.start.x implies now.contains(
            #[trigger] at_row(row, x),
        ) by {
            assert(between(from, reached, at_row(row, x)));
        }
        assert(now.contains(from));
    }
}

/// The two ends of each run are flooded.
proof fn lemma_frame_holds(
    pred: spec_fn(Pos) -> bool,
    before: Set<Pos>,
    now: Set<Pos>,
    runs: Seq<Segment>,
    row: int,
    direction: FloodDirection,
    lo: int,
    hi: int,
    blo: int,
    bhi: int,
    east: bool,
    west: bool,
    k: int,
)
    requires
        frame(pred, before, now, runs, row, direction, lo, hi, blo, bhi, east, west),
        0 <= k < runs.len(),
    ensures
        now.contains(runs[k].start),
        now.contains(runs[k].end),
        before.subset_of(now),
{
    reveal(frame);
    assert(runs[k].flooded_in(now));
    assert(runs[k].start == at_row(row, runs[k].start.x as int));
    assert(runs[k].end == at_row(row, runs[k].end.x as int));
}

/// Once nothing is left to do east or west of any run, each run is ready to
/// be flooded from.
proof fn lemma_frame_ready(
    pred: spec_fn(Pos) -> bool,
    before: Set<Pos>,
    now: Set<Pos>,
    runs: Seq<Segment>,
    row: int,
    direction: FloodDirection,
    lo: int,
    hi: int,
    blo: int,
    bhi: int,
    k: int,
)
    requires
        frame(pred, before, now, runs, row, direction, lo, hi, blo, bhi, true, true),
        0 <= k < runs.len(),
    ensures
        runs[k].ready(pred, now),
        row_of(runs[k].start) == row,
{
    reveal(frame);
    assert(runs[k].flooded_in(now));
}

/// Flooding from one more run leaves nothing to do next to it on the row after.
proof fn lemma_beyond_step(
    pred: spec_fn(Pos) -> bool,
    mid: Set<Pos>,
    now: Set<Pos>,
    runs: Seq<Segment>,
    row: int,
    direction: FloodDirection,
    k: int,
)
    requires
        beyond_done(pred, mid, runs, row, direction, k),
        mid.subset_of(now),
        0 <= k < runs.len(),
        row_of(runs[k].start) == row,
        forall|x: int|
            runs[k].end.x - 1 + direction.shift() <= x <= runs[k].start.x + direction.shift()
                ==> done(pred, now, #[trigger] at_row(row_of(runs[k].start) + direction.row_step(), x)),
    ensures
        beyond_done(pred, now, runs, row, direction, k + 1),
{
    reveal(beyond_done);
    assert forall|j: int, x: int|
        0 <= j < k + 1 && (#[trigger] runs[j]).end.x - 1 + direction.shift() <= x
            <= runs[j].start.x + direction.shift() implies done(
        pred,
        now,
        #[trigger] at_row(row + direction.row_step(), x),
    ) by {
        if j < k {
            assert(done(pred, mid, at_row(row + direction.row_step(), x)));
        }
    }
}

/// Once nothing is left to do next to any run, nothing is left to do around
/// any position flooded since the start of the call.
proof fn lemma_frame_end(
    pred: spec_fn(Pos) -> bool,
    before: Set<Pos>,
    now: Set<Pos>,
    runs: Seq<Segment>,
    row: int,
    direction: FloodDirection,
    lo: int,
    hi: int,
    blo: int,
    bhi: int,
)
    requires
        frame(pred, before, now, runs, row, direction, lo, hi, blo, bhi, true, true),
        blo <= lo - direction.shift(),
        hi + 1 - direction.shift() <= bhi,
        beyond_done(pred, now, runs, row, direction, runs.len() as int),
    ensures
        forall|p: Pos| #[trigger] now.contains(p) && !before.contains(p) ==> closed_at(pred, now, p),
{
    reveal(frame);
    reveal(beyond_done);
    assert forall|p: Pos| #[trigger] now.contains(p) && !before.contains(p) implies closed_at(
        pred,
        now,
        p,
    ) by {
        if !closed_at(pred, now, p) {
            let k = choose|k: int| 0 <= k < runs.len() && (#[trigger] runs[k]).holds(p);
            let run = runs[k];
            assert(run.flooded_in(now));
            let x = p.x as int;
            if x < run.start.x {
                assert(now.contains(at_row(row, x + 1)));
            }
            if x > run.end.x {
                assert(now.contains(at_row(row, x - 1)));
            }
            assert(done(pred, now, at_row(row, x + 1)));
            assert(done(pred, now, at_row(row, x - 1)));
            assert(done(pred, now, at_row(row + direction.row_step(), x - 1 + direction.shift())));
            assert(done(pred, now, at_row(row + direction.row_step(), x + direction.shift())));
            assert(done(pred, now, at_row(row - direction.row_step(), x - direction.shift())));
            assert(done(pred, now, at_row(row - direction.row_step(), x + 1 - direction.shift())));
            reveal(closed_at);
        }
    }
}

/// Where the first run begins at the eastern end of the scanned segment,
/// flood on to the east of it and then back from what that flooded, in the
/// opposite direction. Returns the first coordinate of the easternmost
/// position that the runs now reach.
fn flood_east_overhang<F: Fn(Pos) -> bool>(
    subsegments: &mut Vec<Segment>,
    start: Pos,
    direction: FloodDirection,
    flooded: &mut PosSet,
    rejected: &mut PosSet,
    floodable: &F,
    Ghost(root): Ghost<Pos>,
    Ghost(before): Ghost<Set<Pos>>,
    Ghost(lo): Ghost<int>,
) -> (reach: Ghost<int>)
    requires
        total(*floodable),
        bounded(truth(*floodable)),
        sound(truth(*floodable), undenied(*floodable), root, old(flooded)@, old(rejected)@),
        frame(
            undenied(*floodable),
            before,
            old(flooded)@,
            old(subsegments)@,
            row_of(start),
            direction,
            lo,
            start.x as int,
            lo - direction.shift(),
            start.x + 1 - direction.shift(),
            false,
            false,
        ),
        bounds().difference(old(flooded)@).len() < bounds().difference(before).len(),
        old(subsegments)@.len() > 0,
    ensures
        sound(truth(*floodable), undenied(*floodable), root, final(flooded)@, final(rejected)@),
        old(flooded)@.subset_of(final(flooded)@),
        final(subsegments)@.len() == old(subsegments)@.len(),
        frame(
            undenied(*floodable),
            before,
            final(flooded)@,
            final(subsegments)@,
            row_of(start),
            direction,
            lo,
            reach@,
            lo - direction.shift(),
            reach@ + 1 - direction.shift(),
            true,
            false,
        ),
        bounds().difference(final(flooded)@).len() < bounds().difference(before).len(),
    decreases bounds().difference(old(flooded)@).len(), 1int,
{
    let ghost yes = truth(*floodable);
    let ghost pred = undenied(*floodable);
    let ghost row = row_of(start);
    let ghost hi = start.x as int;
    let ghost blo = lo - direction.shift();
    let ghost bhi = hi + 1 - direction.shift();
    let ghost mid = flooded@;
    let ghost runs = subsegments@;
    proof {
        lemma_frame_holds(pred, before, mid, runs, row, direction, lo, hi, blo, bhi, false, false, 0);
    }
    let first = subsegments[0];
    if first.start != start {
        proof {
            lemma_frame_east_inner(
                pred,
                before,
                mid,
                runs,
                row,
                direction,
                lo,
                hi,
                blo,
                bhi,
                false,
                start,
            );
        }
        return Ghost(hi);
    }
    let new_start = flood_ray(start, Direction::East, flooded, rejected, floodable, Ghost(root));
    subsegments.set(0, Segment { start: new_start, end: first.end });
    let ghost rayed = flooded@;
    proof {
        lemma_frame_ray_east(
            pred,
            before,
            mid,
            rayed,
            runs,
            row,
            direction,
            lo,
            hi,
            blo,
            bhi,
            false,
            start,
            new_start,
        );
        lemma_bounds_finite();
        vstd::set_lib::lemma_len_subset(bounds().difference(rayed), bounds().difference(mid));
    }
    if new_start != start {
        let overhang = Segment { start: new_start, end: start + Direction::East };
        flood_vert(overhang, direction.opposite(), flooded, rejected, floodable, Ghost(root));
        proof {
            assert(row_of(overhang.start) + direction.spec_opposite().row_step() == row
                - direction.row_step());
            lemma_frame_grow(
                pred,
                before,
                rayed,
                flooded@,
                subsegments@,
                row,
                direction,
                lo,
                new_start.x as int,
                blo,
                bhi,
                true,
                false,
                blo,
                new_start.x + 1 - direction.shift(),
            );
        }
    }
    Ghost(new_start.x as int)
}

/// Where the last run ends at the western end of the scanned segment, flood
/// on to the west of it and then back from what that flooded, in the
/// opposite direction. Returns the first coordinate of the westernmost
/// position that the runs now reach.
fn flood_west_overhang<F: Fn(Pos) -> bool>(
    subsegments: &mut Vec<Segment>,
    end: Pos,
    direction: FloodDirection,
    flooded: &mut PosSet,
    rejected: &mut PosSet,
    floodable: &F,
    Ghost(root): Ghost<Pos>,
    Ghost(before): Ghost<Set<Pos>>,
    Ghost(hi): Ghost<int>,
) -> (reach: Ghost<int>)
    requires
        total(*floodable),
        bounded(truth(*floodable)),
        sound(truth(*floodable), undenied(*floodable), root, old(flooded)@, old(rejected)@),
        frame(
            undenied(*floodable),
            before,
            old(flooded)@,
            old(subsegments)@,
            row_of(end),
            direction,
            end.x as int,
            hi,
            end.x - direction.shift(),
            hi + 1 - direction.shift(),
            true,
            false,
        ),
        bounds().difference(old(flooded)@).len() < bounds().difference(before).len(),
        old(subsegments)@.len() > 0,
    ensures
        sound(truth(*floodable), undenied(*floodable), root, final(flooded)@, final(rejected)@),
        old(flooded)@.subset_of(final(flooded)@),
        final(subsegments)@.len() == old(subsegments)@.len(),
        frame(
            undenied(*floodable),
            before,
            final(flooded)@,
            final(subsegments)@,
            row_of(end),
            direction,
            reach@,
            hi,
            reach@ - direction.shift(),
            hi + 1 - direction.shift(),
            true,
            true,
        ),
        bounds().difference(final(flooded)@).len() < bounds().difference(before).len(),
    decreases bounds().difference(old(flooded)@).len(), 1int,
{
    let ghost yes = truth(*floodable);
    let ghost pred = undenied(*floodable);
    let ghost row = row_of(end);
    let ghost lo = end.x as int;
    let ghost blo = lo - direction.shift();
    let ghost bhi = hi + 1 - direction.shift();
    let ghost mid = flooded@;
    let ghost runs = subsegments@;
    let count = subsegments.len();
    proof {
        lemma_frame_holds(
            pred,
            before,
            mid,
            runs,
            row,
            direction,
            lo,
            hi,
            blo,
            bhi,
            true,
            false,
            count - 1,
        );
    }
    let last = subsegments[count - 1];
    if last.end != end {
        proof {
            lemma_frame_west_inner(pred, before, mid, runs, row, direction, lo, hi, blo, bhi, true, end);
        }
        return Ghost(lo);
    }
    let new_end = flood_ray(end, Direction::West, flooded, rejected, floodable, Ghost(root));
    subsegments.set(count - 1, Segment { start: last.start, end: new_end });
    let ghost rayed = flooded@;
    proof {
        lemma_frame_ray_west(
            pred,
            before,
            mid,
            rayed,
            runs,
            row,
            direction,
            lo,
            hi,
            blo,
            bhi,
            true,
            end,
            new_end,
        );
        lemma_bounds_finite();
        vstd::set_lib::lemma_len_subset(bounds().difference(rayed), bounds().difference(mid));
    }
    if new_end != end {
        let overhang = Segment { start: end + Direction::West, end: new_end };
        flood_vert(overhang, direction.opposite(), flooded, rejected, floodable, Ghost(root));
        proof {
            assert(row_of(overhang.start) + direction.spec_opposite().row_step() == row
                - direction.row_step());
            lemma_frame_grow(
                pred,
                before,
                rayed,
                flooded@,
                subsegments@,
                row,
                direction,
                new_end.x as int,
                hi,
                blo,
                bhi,
                true,
                true,
                new_end.x - direction.shift(),
                bhi,
            );
        }
    }
    Ghost(new_end.x as int)
}

/// Flood to the north or south of an origin segment.
fn flood_vert<F: Fn(Pos) -> bool>(
    origin: Segment,
    direction: FloodDirection,
    flooded: &mut PosSet,
    rejected: &mut PosSet,
    floodable: &F,
    Ghost(root): Ghost<Pos>,
)
    requires
        total(*floodable),
        bounded(truth(*floodable)),
        sound(truth(*floodable), undenied(*floodable), root, old(flooded)@, old(rejected)@),
        origin.ready(undenied(*floodable), old(flooded)@),
    ensures
        sound(truth(*floodable), undenied(*floodable), root, final(flooded)@, final(rejected)@),
        old(flooded)@.subset_of(final(flooded)@),
        forall|x: int|
            origin.end.x - 1 + direction.shift() <= x <= origin.start.x + direction.shift()
                ==> done(
                undenied(*floodable),
                final(flooded)@,
                #[trigger] at_row(row_of(origin.start) + direction.row_step(), x),
            ),
        forall|p: Pos| #[trigger]
            final(flooded)@.contains(p) && !old(flooded)@.contains(p) ==> closed_at(
                undenied(*floodable),
                final(flooded)@,
                p,
            ),
    decreases bounds().difference(old(flooded)@).len(), 0int,
{
    let ghost yes = truth(*floodable);
    let ghost pred = undenied(*floodable);
    let ghost before = flooded@;
    let segment = origin.expand(direction);
    let start = segment.start;
    let end = segment.end;
    let ghost row = row_of(start);
    proof {
        lemma_expand_supported(origin, direction, before);
    }
    let mut subsegments = segment.flood(flooded, rejected, floodable, Ghost(root));
    let count = subsegments.len();
    let ghost scanned = flooded@;
    if count == 0 {
        proof {
            lemma_frame_empty(pred, before, scanned, subsegments@, segment);
        }
        return ;
    }
    proof {
        lemma_frame_start(pred, before, scanned, subsegments@, origin, segment, direction);
    }
    let Ghost(hi) = flood_east_overhang(
        &mut subsegments,
        start,
        direction,
        flooded,
        rejected,
        floodable,
        Ghost(root),
        Ghost(before),
        Ghost(end.x as int),
    );
    let Ghost(lo) = flood_west_overhang(
        &mut subsegments,
        end,
        direction,
        flooded,
        rejected,
        floodable,
        Ghost(root),
        Ghost(before),
        Ghost(hi),
    );
    let ghost extended = subsegments@;
    let ghost blo = lo - direction.shift();
    let ghost bhi = hi + 1 - direction.shift();
    proof {
        reveal(beyond_done);
        assert(beyond_done(pred, flooded@, extended, row, direction, 0));
    }
    let mut k: usize = 0;
    while k < count
        invariant
            total(*floodable),
            bounded(yes),
            yes == truth(*floodable),
            pred == undenied(*floodable),
            before == old(flooded)@,
            scanned.subset_of(flooded@),
            sound(yes, pred, root, flooded@, rejected@),
            k <= count,
            count == subsegments@.len(),
            subsegments@ == extended,
            frame(pred, before, flooded@, extended, row, direction, lo, hi, blo, bhi, true, true),
            beyond_done(pred, flooded@, extended, row, direction, k as int),
            bounds().difference(flooded@).len() < bounds().difference(before).len(),
        decreases count - k,
    {
        let run = subsegments[k];
        let ghost mid = flooded@;
        proof {
            lemma_frame_ready(pred, before, mid, extended, row, direction, lo, hi, blo, bhi, k as int);
        }
        flood_vert(run, direction, flooded, rejected, floodable, Ghost(root));
        proof {
            lemma_frame_grow(
                pred,
                before,
                mid,
                flooded@,
                extended,
                row,
                direction,
                lo,
                hi,
                blo,
                bhi,
                true,
                true,
                blo,
                bhi,
            );
            lemma_beyond_step(pred, mid, flooded@, extended, row, direction, k as int);
        }
        k += 1;
    }
    proof {
        lemma_frame_end(pred, before, flooded@, extended, row, direction, lo, hi, blo, bhi);
        lemma_frame_holds(
            pred,
            before,
            flooded@,
            extended,
            row,
            direction,
            lo,
            hi,
            blo,
            bhi,
            true,
            true,
            0,
        );
        assert forall|x: int|
            origin.end.x - 1 + direction.shift() <= x <= origin.start.x
                + direction.shift() implies done(
            pred,
            flooded@,
            #[trigger] at_row(row_of(origin.start) + direction.row_step(), x),
        ) by {
            assert(done(pred, scanned, at_row(row, x)));
        }
    }
}

/// A neighbor of a position around which nothing is left to do is flooded if
/// it is floodable.
proof fn lemma_closed_at_neighbor(pred: spec_fn(Pos) -> bool, all: Set<Pos>, p: Pos, q: Pos)
    requires
        closed_at(pred, all, p),
        p.in_bounds(),
        p.adjacent(q),
        pred(q),
    ensures
        all.contains(q),
{
    reveal(closed_at);
    let r = row_of(p);
    let dx = q.x - p.x;
    let dy = q.y - p.y;
    crate::grid::laws::lemma_norm_is_max(dx, dy);
    assert(q == at_row(r, p.x + 1) || q == at_row(r, p.x - 1) || q == at_row(r - 1, p.x as int)
        || q == at_row(r - 1, p.x - 1) || q == at_row(r + 1, p.x + 1) || q == at_row(
        r + 1,
        p.x as int,
    ));
}

/// Once both sides of the first run are dealt with, nothing is left to do
/// around any flooded position.
proof fn lemma_flood_closed(
    pred: spec_fn(Pos) -> bool,
    row: int,
    segment: Segment,
    run: Set<Pos>,
    north: Set<Pos>,
    all: Set<Pos>,
)
    requires
        segment.ready(pred, run),
        row_of(segment.start) == row,
        forall|p: Pos| #[trigger]
            run.contains(p) <==> row_of(p) == row && segment.end.x <= p.x <= segment.start.x,
        run.subset_of(north),
        north.subset_of(all),
        forall|x: int|
            segment.end.x - 1 <= x <= segment.start.x ==> done(
                pred,
                north,
                #[trigger] at_row(row - 1, x),
            ),
        forall|x: int|
            segment.end.x <= x <= segment.start.x + 1 ==> done(
                pred,
                all,
                #[trigger] at_row(row + 1, x),
            ),
        forall|p: Pos| #[trigger]
            north.contains(p) && !run.contains(p) ==> closed_at(pred, north, p),
        forall|p: Pos| #[trigger] all.contains(p) && !north.contains(p) ==> closed_at(pred, all, p),
    ensures
        forall|p: Pos| #[trigger] all.contains(p) ==> closed_at(pred, all, p),
{
    assert forall|p: Pos| #[trigger] all.contains(p) implies closed_at(pred, all, p) by {
        if north.contains(p) {
            if run.contains(p) {
                let x = p.x as int;
                assert(p == at_row(row, x));
                if x < segment.start.x {
                    assert(run.contains(at_row(row, x + 1)));
                }
                if x > segment.end.x {
                    assert(run.contains(at_row(row, x - 1)));
                }
                assert(done(pred, run, at_row(row, x + 1)));
                assert(done(pred, run, at_row(row, x - 1)));
                assert(done(pred, north, at_row(row - 1, x - 1)));
                assert(done(pred, north, at_row(row - 1, x)));
                assert(done(pred, all, at_row(row + 1, x)));
                assert(done(pred, all, at_row(row + 1, x + 1)));
                reveal(closed_at);
            } else {
                lemma_closed_at_stays(pred, north, all, p);
            }
        }
    }
}

/// A set that holds the origin, with nothing left to do around any of its
/// members, all of them joined to the origin, is all that is joined to the
/// origin under any rule that neither holds where a position is known not to
/// be floodable nor fails where one is floodable.
proof fn lemma_flood_complete(
    yes: spec_fn(Pos) -> bool,
    open_to: spec_fn(Pos) -> bool,
    rule: spec_fn(Pos) -> bool,
    origin: Pos,
    all: Set<Pos>,
    rejected: Set<Pos>,
)
    requires
        sound(yes, open_to, origin, all, rejected),
        all.contains(origin),
        forall|p: Pos| #[trigger] all.contains(p) ==> closed_at(open_to, all, p),
        forall|p: Pos| #[trigger] yes(p) ==> rule(p),
        forall|p: Pos| #[trigger] rule(p) ==> open_to(p),
    ensures
        all == component(rule, origin),
{
    assert(closed(rule, all)) by {
        assert forall|p: Pos, q: Pos| #[trigger]
            all.contains(p) && #[trigger] p.adjacent(q) && rule(q) implies all.contains(q) by {
            lemma_closed_at_neighbor(open_to, all, p, q);
        }
    }
    lemma_closed_holds_component(rule, origin, all);
    assert forall|p: Pos| all.contains(p) implies component(rule, origin).contains(p) by {
        lemma_connected_weaken(yes, rule, origin, p);
    }
    assert(all =~= component(rule, origin));
}

/// Two floods from one origin under one rule flood the same positions.
pub proof fn lemma_flood_twice(
    rule: spec_fn(Pos) -> bool,
    origin: Pos,
    first: Set<Pos>,
    second: Set<Pos>,
)
    requires
        first == component(rule, origin),
        second == component(rule, origin),
    ensures
        first == second,
{
}

/// Performs a floodfill starting at origin.
///
/// Returns exactly the positions that a chain of neighboring floodable
/// positions joins to origin; none where origin is not floodable. What is
/// floodable is what `floodable` says: the result is stated for every rule
/// that `floodable` answers by.
pub fn flood<F: Fn(Pos) -> bool>(origin: Pos, floodable: F) -> (flooded: PosSet)
    requires
        total(floodable),
        bounded(truth(floodable)),
    ensures
        forall|rule: spec_fn(Pos) -> bool| #[trigger]
            answers(floodable, rule) ==> flooded@ == component(rule, origin),
        forall|p: Pos| #[trigger] flooded@.contains(p) ==> p.in_bounds(),
{
    let ghost yes = truth(floodable);
    let ghost pred = undenied(floodable);
    let mut flooded = PosSet::new();
    let mut rejected = PosSet::new();
    if !floodable(origin) {
        proof {
            assert forall|rule: spec_fn(Pos) -> bool| #[trigger]
                answers(floodable, rule) implies flooded@ == component(rule, origin) by {
                assert forall|p: Pos| !component(rule, origin).contains(p) by {
                    if connected(rule, origin, p) {
                        lemma_connected_satisfies(rule, origin, p);
                    }
                }
                assert(flooded@ =~= component(rule, origin));
            }
        }
        return flooded;
    }
    proof {
        lemma_connected_self(yes, origin);
    }
    flooded.insert(origin);
    let start = flood_ray(origin, Direction::East, &mut flooded, &mut rejected, &floodable, Ghost(origin));
    let ghost east = flooded@;
    let end = flood_ray(origin, Direction::West, &mut flooded, &mut rejected, &floodable, Ghost(origin));
    let ghost run = flooded@;
    let segment = Segment { start, end };
    let ghost row = row_of(origin);
    proof {
        assert forall|p: Pos| #[trigger]
            run.contains(p) <==> row_of(p) == row && end.x <= p.x <= start.x by {
            if run.contains(p) {
                if east.contains(p) {
                    assert(between(origin, start, p));
                }
            }
            if row_of(p) == row && end.x <= p.x <= start.x {
                if p.x >= origin.x {
                    assert(between(origin, start, p));
                    assert(east.contains(p));
                } else {
                    assert(between(origin, end, p));
                }
            }
        }
        assert forall|x: int| end.x <= x <= start.x implies run.contains(
            #[trigger] at_row(row, x),
        ) by {
            let c = at_row(row, x);
            assert(row_of(c) == row && c.x == x);
        }
        assert(done(pred, run, at_row(row, start.x + 1))) by {
            assert(done(pred, east, at_row(row, start.x + 1)));
        }
        assert(segment.ready(pred, run));
    }
    flood_vert(segment, FloodDirection::North, &mut flooded, &mut rejected, &floodable, Ghost(origin));
    let ghost north = flooded@;
    proof {
        assert(segment.ready(pred, north)) by {
            assert(segment.flooded_in(run));
        }
        assert(row_of(segment.start) + FloodDirection::North.row_step() == row - 1);
        assert(FloodDirection::North.shift() == 0);
    }
    flood_vert(segment, FloodDirection::South, &mut flooded, &mut rejected, &floodable, Ghost(origin));
    proof {
        assert(row_of(segment.start) + FloodDirection::South.row_step() == row + 1);
        assert(FloodDirection::South.shift() == 1);
        lemma_flood_closed(pred, row, segment, run, north, flooded@);
        assert forall|rule: spec_fn(Pos) -> bool| #[trigger]
            answers(floodable, rule) implies flooded@ == component(rule, origin) by {
            lemma_flood_complete(yes, pred, rule, origin, flooded@, rejected@);
        }
    }
    flooded
}

} // verus!
