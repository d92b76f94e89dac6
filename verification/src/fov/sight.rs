//! Sight passes through transparent positions only.
//!
//! Whatever is in field of view, but for the center and its neighbors, has a
//! neighbor one step nearer to the center that is in field of view too and
//! transparent. So a chain of transparent positions in field of view, each
//! a step farther than the one before, leads from the center to every
//! position in field of view.

use super::{cell_pos, round_half_down, round_half_up, seen_from, seen_row, seen_sextants, slope_of};
use super::{visible, Slope, ROW_LIMIT};
use crate::grid::laws::lemma_unit_times;
use super::lemma_row_distance;
use crate::grid::{direction_at, Direction, Pos};
use vstd::prelude::*;

verus! {

/// Whether `p` has a neighbor in `seen` that is transparent and one step
/// nearer to `center` than `p`.
pub open spec fn lit_by(
    transparent: spec_fn(Pos) -> bool,
    center: Pos,
    seen: Set<Pos>,
    p: Pos,
) -> bool {
    exists|q: Pos|
        seen.contains(q) && transparent(q) && #[trigger] q.adjacent(p) && center.spec_distance(q)
            + 1 == center.spec_distance(p)
}

/// Whether every position of `seen`, but for `center` and its neighbors, has
/// a neighbor in `seen` that is transparent and one step nearer to `center`.
pub open spec fn chained(transparent: spec_fn(Pos) -> bool, center: Pos, seen: Set<Pos>) -> bool {
    forall|p: Pos| #[trigger]
        seen.contains(p) ==> p == center || center.spec_distance(p) == 1 || lit_by(
            transparent,
            center,
            seen,
            p,
        )
}

/// Adding at most the divisor to a number adds one at most to its quotient.
proof fn lemma_quotient_step(n: int, k: int, d: int)
    requires
        0 <= n,
        0 <= k <= d,
        0 < d,
    ensures
        n / d <= (n + k) / d <= n / d + 1,
{
    vstd::arithmetic::div_mod::lemma_fundamental_div_mod(n, d);
    vstd::arithmetic::div_mod::lemma_fundamental_div_mod(n + k, d);
    let q = n / d;
    let q2 = (n + k) / d;
    assert(q <= q2 <= q + 1) by (nonlinear_arith)
        requires
            n == d * q + n % d,
            0 <= n % d < d,
            n + k == d * q2 + (n + k) % d,
            0 <= (n + k) % d < d,
            0 <= k <= d,
            0 < d,
    ;
}

/// A slope of at most one meets the next row in the same column or in the next.
pub proof fn lemma_column_step(s: Slope, y: int)
    requires
        0 < s.denom,
        s.numer <= s.denom,
        0 <= y,
    ensures
        s.first_column(y) <= s.first_column(y + 1) <= s.first_column(y) + 1,
        s.last_column(y) <= s.last_column(y + 1) <= s.last_column(y) + 1,
        0 <= s.first_column(y),
{
    let n = s.numer as int;
    let d = s.denom as int;
    assert(n * (y + 1) == n * y + n) by (nonlinear_arith);
    assert(0 <= n * y) by (nonlinear_arith)
        requires
            0 <= n,
            0 <= y,
    ;
    lemma_quotient_step(2 * (n * y) + d, 2 * n, 2 * d);
    lemma_quotient_step(2 * (n * y) + d - 1, 2 * n, 2 * d);
    lemma_quotient_step(0, 2 * (n * y) + d, 2 * (n * y) + d);
    vstd::arithmetic::div_mod::lemma_fundamental_div_mod(2 * (n * y) + d, 2 * d);
    assert(0 <= (2 * (n * y) + d) / (2 * d)) by (nonlinear_arith)
        requires
            2 * (n * y) + d == (2 * d) * ((2 * (n * y) + d) / (2 * d)) + (2 * (n * y) + d) % (2
                * d),
            0 <= (2 * (n * y) + d) % (2 * d) < 2 * d,
            0 <= 2 * (n * y) + d,
            0 < d,
    ;
}

/// The slope flush with the left side of a position meets the next row in
/// the column of the position, where it begins a scan, and where it ends one.
pub proof fn lemma_flush_column(x: int, y: int)
    requires
        1 <= x <= y,
        y <= ROW_LIMIT,
    ensures
        slope_of(x, y).first_column(y + 1) == x,
        slope_of(x, y).last_column(y + 1) == x,
{
    let s = slope_of(x, y);
    let n = (2 * x - 1) * (y + 1);
    assert(s.numer == 2 * x - 1);
    assert(s.denom == 2 * y);
    assert(n == 2 * x * y + 2 * x - y - 1) by (nonlinear_arith)
        requires
            n == (2 * x - 1) * (y + 1),
    ;
    let high = 2 * n + 2 * y;
    let low = 2 * n + 2 * y - 1;
    assert(high == (4 * y) * x + (4 * x - 2)) by (nonlinear_arith)
        requires
            high == 2 * n + 2 * y,
            n == 2 * x * y + 2 * x - y - 1,
    ;
    assert(high / (4 * y) == x) by (nonlinear_arith)
        requires
            high == (4 * y) * x + (4 * x - 2),
            0 <= 4 * x - 2 < 4 * y,
    ;
    assert(low / (4 * y) == x) by (nonlinear_arith)
        requires
            low == (4 * y) * x + (4 * x - 3),
            0 <= 4 * x - 3 < 4 * y,
    ;
}

/// What a neighbor in a set lights, a neighbor in a larger set lights too.
proof fn lemma_lit_more(
    transparent: spec_fn(Pos) -> bool,
    center: Pos,
    seen: Set<Pos>,
    more: Set<Pos>,
    p: Pos,
)
    requires
        lit_by(transparent, center, seen, p),
        seen.subset_of(more),
    ensures
        lit_by(transparent, center, more, p),
{
    let q = choose|q: Pos|
        seen.contains(q) && transparent(q) && #[trigger] q.adjacent(p) && center.spec_distance(q)
            + 1 == center.spec_distance(p);
    assert(more.contains(q) && transparent(q) && q.adjacent(p));
}

/// A position of a row has as neighbors the position of the same column in
/// the row before and the one in the column before that.
proof fn lemma_neighbors_below(center: Pos, dy: Direction, x: int, y: int)
    requires
        center.in_bounds(),
        0 <= x <= y,
        1 <= y <= ROW_LIMIT + 1,
    ensures
        cell_pos(center, dy, x, y - 1).adjacent(cell_pos(center, dy, x, y)),
        x >= 1 ==> cell_pos(center, dy, x - 1, y - 1).adjacent(cell_pos(center, dy, x, y)),
{
    let dx = dy.spec_rotate(2);
    lemma_unit_times(dx.spec_x(), x);
    lemma_unit_times(dx.spec_y(), x);
    lemma_unit_times(dx.spec_x(), x - 1);
    lemma_unit_times(dx.spec_y(), x - 1);
    lemma_unit_times(dy.spec_x(), y);
    lemma_unit_times(dy.spec_y(), y);
    lemma_unit_times(dy.spec_x(), y - 1);
    lemma_unit_times(dy.spec_y(), y - 1);
}

/// Whether the positions from column `a` to column `b` of row `y` are
/// transparent and in `seen`.
pub open spec fn clear_run(
    transparent: spec_fn(Pos) -> bool,
    center: Pos,
    dy: Direction,
    y: int,
    a: int,
    b: int,
    seen: Set<Pos>,
) -> bool {
    &&& 0 <= a <= b <= y
    &&& forall|x: int|
        a <= x <= b ==> transparent(#[trigger] cell_pos(center, dy, x, y)) && seen.contains(
            cell_pos(center, dy, x, y),
        )
}

/// Whether `p` is a neighbor of the center in row one, or is lit by `seen`.
pub open spec fn lit_or_near(
    transparent: spec_fn(Pos) -> bool,
    center: Pos,
    y: int,
    seen: Set<Pos>,
    p: Pos,
) -> bool {
    (y == 1 && center.spec_distance(p) == 1) || lit_by(transparent, center, seen, p)
}

/// A position of a row above a run of transparent positions, in a column of
/// the run or in the one after it, is lit by the run.
proof fn lemma_lit_from_run(
    transparent: spec_fn(Pos) -> bool,
    center: Pos,
    dy: Direction,
    y: int,
    a: int,
    b: int,
    below: Set<Pos>,
    x: int,
)
    requires
        center.in_bounds(),
        2 <= y <= ROW_LIMIT + 1,
        clear_run(transparent, center, dy, y - 1, a, b, below),
        a <= x <= b + 1,
    ensures
        lit_by(transparent, center, below, cell_pos(center, dy, x, y)),
{
    let from = if x <= b {
        x
    } else {
        x - 1
    };
    let q = cell_pos(center, dy, from, y - 1);
    let p = cell_pos(center, dy, x, y);
    lemma_neighbors_below(center, dy, x, y);
    lemma_row_distance(center, dy, from, y - 1);
    lemma_row_distance(center, dy, x, y);
    assert(below.contains(q) && transparent(q) && q.adjacent(p));
}

/// Whether a slope is at most one and its terms are positive enough to be divided by.
pub open spec fn gentle(s: Slope) -> bool {
    0 < s.denom && s.numer <= s.denom
}

/// Every position that the scan of a row reveals, in that row or beyond it,
/// is lit by what the scan reveals or by the run of transparent positions
/// of the row before that the scan comes from; in row one it is a neighbor
/// of the center.
pub proof fn lemma_row_lit(
    transparent: spec_fn(Pos) -> bool,
    center: Pos,
    dy: Direction,
    y: int,
    start: Slope,
    end: Slope,
    a: int,
    b: int,
    below: Set<Pos>,
)
    requires
        center.in_bounds(),
        1 <= y,
        gentle(start),
        gentle(end),
        y >= 2 ==> clear_run(transparent, center, dy, y - 1, a, b, below) && a
            <= start.first_column(y) <= b + 1 && end.last_column(y) <= b + 1,
    ensures
        all_lit(
            transparent,
            center,
            y,
            below.union(seen_row(transparent, center, dy, y, start, end)),
            seen_row(transparent, center, dy, y, start, end),
        ),
    decreases ROW_LIMIT + 1 - y, 1int, 0int,
{
    let all = seen_row(transparent, center, dy, y, start, end);
    if y > ROW_LIMIT {
    } else {
        let min_x = start.first_column(y);
        let max_x = end.last_column(y);
        let first = cell_pos(center, dy, min_x, y);
        let open = if transparent(first) {
            Some(start)
        } else {
            None
        };
        let mine = Set::<Pos>::empty().insert(first);
        let rest = seen_from(transparent, center, dy, y, min_x + 1, max_x, open, end);
        super::lemma_columns_bounded(start, y);
        super::lemma_columns_bounded(end, y);
        lemma_column_step(start, y);
        lemma_from_lit(
            transparent,
            center,
            dy,
            y,
            min_x + 1,
            max_x,
            open,
            end,
            a,
            b,
            below,
            min_x,
            mine,
        );
        assert(all == rest.insert(first));
        lemma_cell_lit(transparent, center, dy, y, min_x, a, b, below);
        lemma_all_lit_more(transparent, center, y, below, below.union(all), mine);
        lemma_all_lit_more(
            transparent,
            center,
            y,
            below.union(mine).union(rest),
            below.union(all),
            rest,
        );
        lemma_all_lit_joined(transparent, center, y, below.union(all), rest, mine);
        assert(all =~= rest.union(mine));
    }
}

/// Whether every position of `found` is lit by `around`, or is a neighbor
/// of the center where `y` is one.
pub open spec fn all_lit(
    transparent: spec_fn(Pos) -> bool,
    center: Pos,
    y: int,
    around: Set<Pos>,
    found: Set<Pos>,
) -> bool {
    forall|p: Pos| #[trigger] found.contains(p) ==> lit_or_near(transparent, center, y, around, p)
}

/// What is lit by a set, or near, is so with a larger set around.
proof fn lemma_all_lit_more(
    transparent: spec_fn(Pos) -> bool,
    center: Pos,
    y: int,
    around: Set<Pos>,
    more: Set<Pos>,
    found: Set<Pos>,
)
    requires
        all_lit(transparent, center, y, around, found),
        around.subset_of(more),
    ensures
        all_lit(transparent, center, y, more, found),
{
    assert forall|p: Pos| #[trigger] found.contains(p) implies lit_or_near(
        transparent,
        center,
        y,
        more,
        p,
    ) by {
        if lit_by(transparent, center, around, p) {
            lemma_lit_more(transparent, center, around, more, p);
        }
    }
}

/// What is lit in the row after `y` is lit, whatever `y` is.
proof fn lemma_all_lit_beyond(
    transparent: spec_fn(Pos) -> bool,
    center: Pos,
    y: int,
    around: Set<Pos>,
    found: Set<Pos>,
)
    requires
        y >= 1,
        all_lit(transparent, center, y + 1, around, found),
    ensures
        all_lit(transparent, center, y, around, found),
{
    assert forall|p: Pos| #[trigger] found.contains(p) implies lit_or_near(
        transparent,
        center,
        y,
        around,
        p,
    ) by {
        assert(lit_or_near(transparent, center, y + 1, around, p));
    }
}

/// Two sets of lit positions are lit together.
proof fn lemma_all_lit_joined(
    transparent: spec_fn(Pos) -> bool,
    center: Pos,
    y: int,
    around: Set<Pos>,
    first: Set<Pos>,
    second: Set<Pos>,
)
    requires
        all_lit(transparent, center, y, around, first),
        all_lit(transparent, center, y, around, second),
    ensures
        all_lit(transparent, center, y, around, first.union(second)),
{
}

/// The position at column `x` of row `y` is lit by the run of the row
/// before, or is a neighbor of the center in row one.
proof fn lemma_cell_lit(
    transparent: spec_fn(Pos) -> bool,
    center: Pos,
    dy: Direction,
    y: int,
    x: int,
    a: int,
    b: int,
    below: Set<Pos>,
)
    requires
        center.in_bounds(),
        1 <= y <= ROW_LIMIT,
        0 <= x <= y,
        y >= 2 ==> clear_run(transparent, center, dy, y - 1, a, b, below) && a <= x <= b + 1,
    ensures
        all_lit(
            transparent,
            center,
            y,
            below,
            Set::<Pos>::empty().insert(cell_pos(center, dy, x, y)),
        ),
{
    if y == 1 {
        lemma_row_distance(center, dy, x, y);
    } else {
        lemma_lit_from_run(transparent, center, dy, y, a, b, below, x);
    }
}

/// Every position that the scan of a row reveals from column `x` on, in that
/// row or beyond it, is lit by what the scan reveals, by what it has
/// revealed of the row before column `x`, or by the run of transparent
/// positions of the row before that the scan comes from; in row one it is a
/// neighbor of the center.
pub proof fn lemma_from_lit(
    transparent: spec_fn(Pos) -> bool,
    center: Pos,
    dy: Direction,
    y: int,
    x: int,
    last: int,
    open: Option<Slope>,
    end: Slope,
    a: int,
    b: int,
    below: Set<Pos>,
    run_start: int,
    mine: Set<Pos>,
)
    requires
        center.in_bounds(),
        1 <= y,
        1 <= x <= y + 1,
        last <= y,
        gentle(end),
        end.last_column(y) <= last,
        y >= 2 ==> clear_run(transparent, center, dy, y - 1, a, b, below) && a <= x && last <= b
            + 1,
        open matches Some(s) ==> gentle(s) && clear_run(
            transparent,
            center,
            dy,
            y,
            run_start,
            x - 1,
            mine,
        ) && run_start <= s.first_column(y + 1) <= run_start + 1,
    ensures
        all_lit(
            transparent,
            center,
            y,
            below.union(mine).union(seen_from(transparent, center, dy, y, x, last, open, end)),
            seen_from(transparent, center, dy, y, x, last, open, end),
        ),
    decreases ROW_LIMIT + 1 - y, 0int, last + 1 - x,
{
    let all = seen_from(transparent, center, dy, y, x, last, open, end);
    let around = below.union(mine).union(all);
    if y > ROW_LIMIT {
    } else if x > last {
        match open {
            Some(s) => {
                lemma_column_step(end, y);
                lemma_row_lit(transparent, center, dy, y + 1, s, end, run_start, x - 1, mine);
                assert(all == seen_row(transparent, center, dy, y + 1, s, end));
                lemma_all_lit_beyond(transparent, center, y, mine.union(all), all);
                lemma_all_lit_more(transparent, center, y, mine.union(all), around, all);
            },
            None => {},
        }
    } else {
        let pos = cell_pos(center, dy, x, y);
        let here = Set::<Pos>::empty().insert(pos);
        let more = mine.insert(pos);
        lemma_cell_lit(transparent, center, dy, y, x, a, b, below);
        lemma_all_lit_more(transparent, center, y, below, around, here);
        if transparent(pos) {
            let still = if open is None {
                Some(slope_of(x, y))
            } else {
                open
            };
            let begun = if open is None {
                x
            } else {
                run_start
            };
            let rest = seen_from(transparent, center, dy, y, x + 1, last, still, end);
            if open is None {
                lemma_flush_column(x, y);
            }
            assert(clear_run(transparent, center, dy, y, begun, x, more));
            lemma_from_lit(
                transparent,
                center,
                dy,
                y,
                x + 1,
                last,
                still,
                end,
                a,
                b,
                below,
                begun,
                more,
            );
            assert(all == rest.insert(pos));
            lemma_all_lit_more(
                transparent,
                center,
                y,
                below.union(more).union(rest),
                around,
                rest,
            );
            lemma_all_lit_joined(transparent, center, y, around, rest, here);
            assert(all =~= rest.union(here));
        } else {
            let behind = match open {
                Some(s) => seen_row(transparent, center, dy, y + 1, s, slope_of(x, y)),
                None => Set::empty(),
            };
            let rest = seen_from(transparent, center, dy, y, x + 1, last, None, end);
            match open {
                Some(s) => {
                    lemma_flush_column(x, y);
                    lemma_row_lit(
                        transparent,
                        center,
                        dy,
                        y + 1,
                        s,
                        slope_of(x, y),
                        run_start,
                        x - 1,
                        mine,
                    );
                    lemma_all_lit_beyond(transparent, center, y, mine.union(behind), behind);
                    lemma_all_lit_more(
                        transparent,
                        center,
                        y,
                        mine.union(behind),
                        around,
                        behind,
                    );
                },
                None => {},
            }
            lemma_from_lit(
                transparent,
                center,
                dy,
                y,
                x + 1,
                last,
                None,
                end,
                a,
                b,
                below,
                run_start,
                more,
            );
            assert(all == behind.union(rest).insert(pos));
            lemma_all_lit_more(
                transparent,
                center,
                y,
                below.union(more).union(rest),
                around,
                rest,
            );
            lemma_all_lit_joined(transparent, center, y, around, behind, rest);
            lemma_all_lit_joined(transparent, center, y, around, behind.union(rest), here);
            assert(all =~= behind.union(rest).union(here));
        }
    }
}

/// Every position in field of view, but for the center and its neighbors,
/// has a neighbor in field of view that is transparent and one step nearer
/// to the center.
pub proof fn lemma_visible_chained(transparent: spec_fn(Pos) -> bool, center: Pos)
    requires
        center.in_bounds(),
    ensures
        chained(transparent, center, visible(transparent, center)),
{
    lemma_sextants_chained(transparent, center, 6);
}

proof fn lemma_sextants_chained(transparent: spec_fn(Pos) -> bool, center: Pos, count: int)
    requires
        center.in_bounds(),
        0 <= count <= 6,
    ensures
        chained(transparent, center, seen_sextants(transparent, center, count)),
    decreases count,
{
    if count > 0 {
        let before = seen_sextants(transparent, center, count - 1);
        let zero = Slope { numer: 0, denom: 1 };
        let one = Slope { numer: 1, denom: 1 };
        let sextant = seen_row(transparent, center, direction_at(count - 1), 1, zero, one);
        let all = seen_sextants(transparent, center, count);
        lemma_sextants_chained(transparent, center, count - 1);
        lemma_row_lit(
            transparent,
            center,
            direction_at(count - 1),
            1,
            zero,
            one,
            0,
            0,
            Set::empty(),
        );
        assert forall|p: Pos| #[trigger] all.contains(p) implies p == center
            || center.spec_distance(p) == 1 || lit_by(transparent, center, all, p) by {
            if before.contains(p) {
                if lit_by(transparent, center, before, p) {
                    lemma_lit_more(transparent, center, before, all, p);
                }
            } else {
                assert(sextant.contains(p));
                let around = Set::<Pos>::empty().union(sextant);
                assert(lit_or_near(transparent, center, 1, around, p));
                if lit_by(transparent, center, around, p) {
                    lemma_lit_more(transparent, center, around, all, p);
                }
            }
        }
    }
}

} // verus!
