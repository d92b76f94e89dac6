//! Field of view calculation.
//!
//! A position is in field of view from a center if recursive shadow casting
//! reaches it: the plane around the center is cut into six sextants, and in
//! each sextant the rows are scanned outwards between two slopes, which
//! opaque positions narrow. Slopes are exact fractions, so that the outcome
//! is the same on every machine.

use crate::grid::{direction_at, Direction, Pos, MAX_COORD};
use crate::posset::PosSet;
use crate::predicate::{answers, bounded, total, truth};
use num_rational::Ratio;
use vstd::prelude::*;

pub mod sight;

verus! {

/// The farthest row that a scan can reach: no two positions within bounds
/// are farther apart than four times `MAX_COORD`, and a scan looks one row
/// beyond the last transparent position.
pub const ROW_LIMIT: u32 = 16385;

/// A slope as an exact fraction of two unsigned integers, not necessarily in
/// lowest terms.
#[derive(PartialEq, Eq, Structural, Debug, Copy, Clone)]
pub struct Slope {
    pub numer: u32,
    pub denom: u32,
}

/// `n / d` rounded to the nearest integer, a tie rounded up.
pub open spec fn round_half_up(n: int, d: int) -> int {
    (2 * n + d) / (2 * d)
}

/// `n / d` rounded to the nearest integer, a tie rounded down.
pub open spec fn round_half_down(n: int, d: int) -> int {
    (2 * n + d - 1) / (2 * d)
}

/// The slope of the ray flush with the left side of `(x, y)`, as a fraction.
pub open spec fn slope_of(x: int, y: int) -> Slope {
    Slope { numer: (2 * x - 1) as u32, denom: (2 * y) as u32 }
}

impl Slope {
    /// Whether this fraction and `n / d` are the same number.
    pub open spec fn equals(self, n: int, d: int) -> bool {
        self.numer * d == n * self.denom
    }

    /// The first column of row `y` that lies at or right of this slope.
    pub open spec fn first_column(self, y: int) -> int {
        round_half_up(self.numer * y, self.denom as int)
    }

    /// The last column of row `y` that lies at or left of this slope.
    pub open spec fn last_column(self, y: int) -> int {
        round_half_down(self.numer * y, self.denom as int)
    }

    /// Whether this slope can bound a scan of row `y`: it is at most one, its
    /// terms are small enough to be multiplied by any row, and it passes row
    /// `y` at least half a column right of the axis.
    pub open spec fn bounds_row(self, y: int) -> bool {
        &&& 0 < self.denom <= 2 * ROW_LIMIT
        &&& self.numer <= self.denom
        &&& self.denom <= 2 * self.numer * y
    }

    /// Whether this slope can begin a scan: it is at most one and its terms
    /// are small enough to be multiplied by any row.
    pub open spec fn begins_row(self) -> bool {
        &&& 0 < self.denom <= 2 * ROW_LIMIT
        &&& self.numer <= self.denom
    }
}

/// Multiplies a fraction by an integer with `Ratio`'s `Mul<u32>`. The product
/// comes back in lowest terms: it is the same number as `s.numer * y /
/// s.denom`, and neither of its terms is larger than the corresponding term
/// of that fraction.
#[verifier::external_body]
fn ratio_times(s: Slope, y: u32) -> (r: Slope)
    requires
        s.denom > 0,
        s.numer * y <= u32::MAX,
    ensures
        r.denom > 0,
        r.equals(s.numer * y, s.denom as int),
        r.numer <= s.numer * y,
        r.denom <= s.denom,
{
    let product = Ratio::new_raw(s.numer, s.denom) * y;
    Slope { numer: *product.numer(), denom: *product.denom() }
}

/// Subtracts one fraction from another that is not smaller, with `Ratio`'s
/// `Sub`. The difference comes back in lowest terms: it is the same number as
/// the difference over the product of the denominators, and neither of its
/// terms is larger than `a.numer * b.denom` or that product.
#[verifier::external_body]
fn ratio_minus(a: Slope, b: Slope) -> (r: Slope)
    requires
        a.denom > 0,
        b.denom > 0,
        a.numer * b.denom >= b.numer * a.denom,
        a.numer * b.denom <= u32::MAX,
        a.denom * b.denom <= u32::MAX,
    ensures
        r.denom > 0,
        r.equals(a.numer * b.denom - b.numer * a.denom, a.denom * b.denom),
        r.numer <= a.numer * b.denom,
        r.denom <= a.denom * b.denom,
{
    let difference = Ratio::new_raw(a.numer, a.denom) - Ratio::new_raw(b.numer, b.denom);
    Slope { numer: *difference.numer(), denom: *difference.denom() }
}

/// Rounds a fraction to the nearest integer with `Ratio::round`, which rounds
/// a tie away from zero. The result is that integer over one.
#[verifier::external_body]
fn ratio_round(s: Slope) -> (r: Slope)
    requires
        s.denom > 0,
        s.numer / s.denom < u32::MAX,
    ensures
        r.denom == 1,
        r.numer == round_half_up(s.numer as int, s.denom as int),
{
    let rounded = Ratio::new_raw(s.numer, s.denom).round();
    Slope { numer: *rounded.numer(), denom: *rounded.denom() }
}

/// Rounds a fraction up to an integer with `Ratio::ceil`. The result is that
/// integer over one.
#[verifier::external_body]
fn ratio_ceil(s: Slope) -> (r: Slope)
    requires
        s.denom > 0,
        s.numer + s.denom <= u32::MAX,
    ensures
        r.denom == 1,
        r.numer == (s.numer + s.denom - 1) / (s.denom as int),
{
    let raised = Ratio::new_raw(s.numer, s.denom).ceil();
    Slope { numer: *raised.numer(), denom: *raised.denom() }
}

/// The whole part of a fraction, with `Ratio::to_integer`.
#[verifier::external_body]
fn ratio_to_integer(s: Slope) -> (r: u32)
    requires
        s.denom > 0,
    ensures
        r == s.numer / s.denom,
{
    Ratio::new_raw(s.numer, s.denom).to_integer()
}

/// Two fractions that are the same number have the same whole part.
pub proof fn lemma_same_floor(p: int, q: int, n: int, d: int)
    requires
        q > 0,
        d > 0,
        p >= 0,
        n >= 0,
        p * d == n * q,
    ensures
        p / q == n / d,
{
    let k = p / q;
    let r = p % q;
    vstd::arithmetic::div_mod::lemma_fundamental_div_mod(p, q);
    assert(p == q * k + r);
    assert(0 <= r < q);
    assert(d * k <= n < d * (k + 1)) by (nonlinear_arith)
        requires
            p == q * k + r,
            0 <= r < q,
            p * d == n * q,
            q > 0,
            d > 0,
    ;
    vstd::arithmetic::div_mod::lemma_fundamental_div_mod(n, d);
    let k2 = n / d;
    let r2 = n % d;
    assert(k2 == k) by (nonlinear_arith)
        requires
            n == d * k2 + r2,
            0 <= r2 < d,
            d * k <= n < d * (k + 1),
            d > 0,
    ;
}

/// Returns the slope of the ray flush with the left side of (x, y).
/// Here left means the side of (x, y) on the x-axis with the smaller x-value.
///
/// When (x, y) corresponds to a wall, the result represents the largest possible end slope.
/// When it corresponds to a floor, the result represents the smallest possible start slope.
pub fn slope(x: u32, y: u32) -> (res: Slope)
    requires
        1 <= x,
        2 * x <= u32::MAX,
        2 * y <= u32::MAX,
    ensures
        res == slope_of(x as int, y as int),
{
    Slope { numer: 2 * x - 1, denom: 2 * y }
}

/// Rounds a ratio. Ties are rounded up.
pub fn round_tie_high(x: Slope) -> (res: u32)
    requires
        x.denom > 0,
        x.numer / x.denom < u32::MAX,
    ensures
        res == round_half_up(x.numer as int, x.denom as int),
{
    ratio_to_integer(ratio_round(x))
}

/// Two fractions that are the same number round up to the same integer.
pub proof fn lemma_same_ceil(p: int, q: int, n: int, d: int)
    requires
        q > 0,
        d > 0,
        p >= 0,
        n >= 0,
        p * d == n * q,
    ensures
        (p + q - 1) / q == (n + d - 1) / d,
{
    let c = (p + q - 1) / q;
    let r = (p + q - 1) % q;
    vstd::arithmetic::div_mod::lemma_fundamental_div_mod(p + q - 1, q);
    assert(p + q - 1 == q * c + r);
    assert(d * (c - 1) < n <= d * c) by (nonlinear_arith)
        requires
            p + q - 1 == q * c + r,
            0 <= r < q,
            p * d == n * q,
            q > 0,
            d > 0,
    ;
    vstd::arithmetic::div_mod::lemma_fundamental_div_mod(n + d - 1, d);
    let c2 = (n + d - 1) / d;
    let r2 = (n + d - 1) % d;
    assert(c2 == c) by (nonlinear_arith)
        requires
            n + d - 1 == d * c2 + r2,
            0 <= r2 < d,
            d * (c - 1) < n <= d * c,
            d > 0,
    ;
}

/// Rounds a ratio. Ties are rounded down.
pub fn round_tie_low(x: Slope) -> (res: u32)
    requires
        x.denom > 0,
        x.denom <= 2 * x.numer,
        2 * x.numer + 2 * x.denom <= u32::MAX,
    ensures
        res == round_half_down(x.numer as int, x.denom as int),
{
    let half = Slope { numer: 1, denom: 2 };
    let lowered = ratio_minus(x, half);
    proof {
        lemma_same_ceil(
            lowered.numer as int,
            lowered.denom as int,
            2 * x.numer - x.denom,
            2 * x.denom,
        );
    }
    ratio_to_integer(ratio_ceil(lowered))
}

/// The position at column `x` of row `y` in the sextant around `center`
/// whose rows lie in direction `dy` and whose columns run in the direction
/// two turns clockwise from `dy`.
pub open spec fn cell_pos(center: Pos, dy: Direction, x: int, y: int) -> Pos {
    Pos::at(
        center.x + dy.spec_rotate(2).spec_x() * x + dy.spec_x() * y,
        center.y + dy.spec_rotate(2).spec_y() * x + dy.spec_y() * y,
    )
}

/// What a scan of row `y` between the slopes `start` and `end` reveals, in
/// that row and in the rows beyond it: every position of the row from the
/// first column at `start` to the last column at `end`, the first column in
/// any case, and for each run of transparent positions among them what the
/// scan of the next row reveals between the slopes that bound the run.
pub open spec fn seen_row(
    transparent: spec_fn(Pos) -> bool,
    center: Pos,
    dy: Direction,
    y: int,
    start: Slope,
    end: Slope,
) -> Set<Pos>
    decreases ROW_LIMIT + 1 - y, 1int, 0int,
{
    if y < 1 || y > ROW_LIMIT {
        Set::empty()
    } else {
        let first = cell_pos(center, dy, start.first_column(y), y);
        let open = if transparent(first) {
            Some(start)
        } else {
            None
        };
        seen_from(
            transparent,
            center,
            dy,
            y,
            start.first_column(y) + 1,
            end.last_column(y),
            open,
            end,
        ).insert(first)
    }
}

/// What the scan of row `y` reveals from column `x` on, up to column `last`,
/// where `open` is the slope at which the run of transparent positions
/// just left of `x` began, if there is one.
pub open spec fn seen_from(
    transparent: spec_fn(Pos) -> bool,
    center: Pos,
    dy: Direction,
    y: int,
    x: int,
    last: int,
    open: Option<Slope>,
    end: Slope,
) -> Set<Pos>
    decreases ROW_LIMIT + 1 - y, 0int, last + 1 - x,
{
    if y < 1 || y > ROW_LIMIT {
        Set::empty()
    } else if x > last {
        match open {
            Some(s) => seen_row(transparent, center, dy, y + 1, s, end),
            None => Set::empty(),
        }
    } else {
        let pos = cell_pos(center, dy, x, y);
        if transparent(pos) {
            let still = if open is None {
                Some(slope_of(x, y))
            } else {
                open
            };
            seen_from(transparent, center, dy, y, x + 1, last, still, end).insert(pos)
        } else {
            let behind = match open {
                Some(s) => seen_row(transparent, center, dy, y + 1, s, slope_of(x, y)),
                None => Set::empty(),
            };
            behind.union(seen_from(transparent, center, dy, y, x + 1, last, None, end)).insert(pos)
        }
    }
}

/// The center together with what the scans of the first `count` sextants reveal.
pub open spec fn seen_sextants(transparent: spec_fn(Pos) -> bool, center: Pos, count: int) -> Set<
    Pos,
>
    decreases count,
{
    if count <= 0 {
        Set::empty().insert(center)
    } else {
        seen_sextants(transparent, center, count - 1).union(
            seen_row(
                transparent,
                center,
                direction_at(count - 1),
                1,
                Slope { numer: 0, denom: 1 },
                Slope { numer: 1, denom: 1 },
            ),
        )
    }
}

/// Everything in field of view from `center`: the center itself and what the
/// scans of all six sextants reveal.
pub open spec fn visible(transparent: spec_fn(Pos) -> bool, center: Pos) -> Set<Pos> {
    seen_sextants(transparent, center, 6)
}

/// A position in column `x` of row `y` of a sextant, with `x` at most `y`,
/// lies `y` steps from the center.
pub proof fn lemma_row_distance(center: Pos, dy: Direction, x: int, y: int)
    requires
        0 <= x <= y,
        center.in_bounds(),
        y <= 2 * ROW_LIMIT,
    ensures
        center.spec_distance(cell_pos(center, dy, x, y)) == y,
        cell_pos(center, dy, x, y).in_bounds() ==> y <= 4 * MAX_COORD,
{
    let dx = dy.spec_rotate(2);
    crate::grid::laws::lemma_unit_times(dx.spec_x(), x);
    crate::grid::laws::lemma_unit_times(dx.spec_y(), x);
    crate::grid::laws::lemma_unit_times(dy.spec_x(), y);
    crate::grid::laws::lemma_unit_times(dy.spec_y(), y);
}

/// A slope of at most one meets row `y` at column `y` or left of it.
pub proof fn lemma_columns_bounded(s: Slope, y: int)
    requires
        s.denom > 0,
        s.numer <= s.denom,
        y >= 0,
    ensures
        0 <= s.first_column(y) <= y,
        s.last_column(y) <= y,
{
    let d = s.denom as int;
    let n = s.numer * y;
    let m = d * y;
    assert(0 <= n <= m) by (nonlinear_arith)
        requires
            0 <= s.numer <= d,
            n == s.numer * y,
            m == d * y,
            y >= 0,
    ;
    let high = 2 * n + d;
    let low = 2 * n + d - 1;
    vstd::arithmetic::div_mod::lemma_fundamental_div_mod(high, 2 * d);
    vstd::arithmetic::div_mod::lemma_fundamental_div_mod(low, 2 * d);
    let kh = high / (2 * d);
    let kl = low / (2 * d);
    assert(0 <= kh <= y) by (nonlinear_arith)
        requires
            high == (2 * d) * kh + high % (2 * d),
            0 <= high % (2 * d) < 2 * d,
            0 <= high <= 2 * m + d,
            m == d * y,
            d > 0,
    ;
    assert(kl <= y) by (nonlinear_arith)
        requires
            low == (2 * d) * kl + low % (2 * d),
            0 <= low % (2 * d) < 2 * d,
            low <= 2 * m + d,
            m == d * y,
            d > 0,
    ;
}

/// The position at column `x` of row `y` of the sextant of `dy` around `center`.
fn cell(center: Pos, dx: Direction, dy: Direction, x: u32, y: u32) -> (res: Pos)
    requires
        center.in_bounds(),
        dx == dy.spec_rotate(2),
        x <= ROW_LIMIT,
        y <= ROW_LIMIT,
    ensures
        res == cell_pos(center, dy, x as int, y as int),
{
    proof {
        crate::grid::laws::lemma_unit_times(dx.spec_x(), x as int);
        crate::grid::laws::lemma_unit_times(dx.spec_y(), x as int);
        crate::grid::laws::lemma_unit_times(dy.spec_x(), y as int);
        crate::grid::laws::lemma_unit_times(dy.spec_y(), y as int);
    }
    center + dx * x + dy * y
}

/// The first column of row `y` at or right of the slope `start`.
fn first_column_of(start: Slope, y: u32) -> (res: u32)
    requires
        start.begins_row(),
        1 <= y <= ROW_LIMIT,
    ensures
        res == start.first_column(y as int),
        res <= y,
{
    proof {
        assert(start.numer * y <= 32770 * 16385) by (nonlinear_arith)
            requires
                start.numer <= 32770,
                y <= 16385,
        ;
    }
    let product = ratio_times(start, y);
    proof {
        let n = start.numer * y;
        let d = start.denom as int;
        assert((2 * product.numer + product.denom) * (2 * d) == (2 * n + d) * (2 * product.denom))
            by (nonlinear_arith)
            requires
                product.numer * d == n * product.denom,
        ;
        lemma_same_floor(2 * product.numer + product.denom, 2 * product.denom, 2 * n + d, 2 * d);
        lemma_columns_bounded(start, y as int);
        assert(product.numer / product.denom <= product.numer) by (nonlinear_arith)
            requires
                product.denom > 0,
        ;
    }
    round_tie_high(product)
}

/// The last column of row `y` at or left of the slope `end`.
fn last_column_of(end: Slope, y: u32) -> (res: u32)
    requires
        end.bounds_row(y as int),
        1 <= y <= ROW_LIMIT,
    ensures
        res == end.last_column(y as int),
        res <= y,
{
    proof {
        assert(end.numer * y <= 32770 * 16385) by (nonlinear_arith)
            requires
                end.numer <= 32770,
                y <= 16385,
        ;
    }
    let product = ratio_times(end, y);
    proof {
        let n = end.numer * y;
        let d = end.denom as int;
        assert(2 * end.numer * y == 2 * n) by (nonlinear_arith)
            requires
                n == end.numer * y,
        ;
        assert(product.denom <= 2 * product.numer) by (nonlinear_arith)
            requires
                product.numer * d == n * product.denom,
                d <= 2 * n,
                d > 0,
                product.denom > 0,
        ;
        assert((2 * product.numer - product.denom) * (2 * d) == (2 * n - d) * (2 * product.denom))
            by (nonlinear_arith)
            requires
                product.numer * d == n * product.denom,
        ;
        lemma_same_ceil(2 * product.numer - product.denom, 2 * product.denom, 2 * n - d, 2 * d);
        lemma_columns_bounded(end, y as int);
    }
    round_tie_low(product)
}

/// The slopes that a run of transparent positions hands to the scan of the
/// next row bound that row.
proof fn lemma_next_row(x: int, y: int, end: Slope)
    requires
        1 <= x <= y,
        1 <= y < ROW_LIMIT,
        end.bounds_row(y),
    ensures
        slope_of(x, y).begins_row(),
        slope_of(x, y).bounds_row(y + 1),
        end.bounds_row(y + 1),
{
    let s = slope_of(x, y);
    assert(s.denom <= 2 * s.numer * (y + 1)) by (nonlinear_arith)
        requires
            s.denom == 2 * y,
            s.numer >= 1,
            y >= 1,
    ;
    assert(2 * end.numer * y <= 2 * end.numer * (y + 1)) by (nonlinear_arith)
        requires
            end.numer >= 0,
    ;
}

/// Scan a sextant using recursive shadowcasting.
///
/// y represents the distance from the center.
/// Within this function, x represents the distance from the y-axis, and
/// the x-axis is rotated 120 degrees from the y-axis when using hex coordinates.
/// start and end give the slopes (x/y, not y/x) that bound the current scan.
/// They range from 0 to 1.
fn scan_row<F: Fn(Pos) -> bool>(
    y: u32,
    start: Slope,
    end: Slope,
    center: Pos,
    dy: Direction,
    transparent: &F,
    revealed: &mut PosSet,
)
    requires
        total(*transparent),
        bounded(truth(*transparent)),
        center.in_bounds(),
        1 <= y <= ROW_LIMIT,
        start.begins_row(),
        end.bounds_row(y as int),
    ensures
        forall|rule: spec_fn(Pos) -> bool| #[trigger]
            answers(*transparent, rule) ==> final(revealed)@ == old(revealed)@.union(
                seen_row(rule, center, dy, y as int, start, end),
            ),
        old(revealed)@.subset_of(final(revealed)@),
    decreases ROW_LIMIT - y,
{
    let dx = dy.rotate(2);
    // Define the range of x-coordinates.
    // We break ties inward because ties represent diagonal moves, and
    // when the start and and end slopes are restricted by walls, they
    // pick the inner diagonal tiebreaker to avoid going through walls.
    let min_x = first_column_of(start, y);
    let max_x = last_column_of(end, y);
    // We process min_x outside of the loop in order to define start well.
    let first = cell(center, dx, dy, min_x, y);
    revealed.insert(first);
    // Some(slope) corresponds to the case where we are scanning an open segment.
    // None corresponds to the case where we are scanning through a wall.
    let mut open: Option<Slope> = if transparent(first) {
        proof {
            assert(truth(*transparent)(first));
            lemma_row_distance(center, dy, min_x as int, y as int);
        }
        Some(start)
    } else {
        None
    };
    proof {
        assert forall|rule: spec_fn(Pos) -> bool| #[trigger]
            answers(*transparent, rule) implies revealed@.union(
            seen_from(rule, center, dy, y as int, min_x + 1, max_x as int, open, end),
        ) == old(revealed)@.union(seen_row(rule, center, dy, y as int, start, end)) by {
            assert(revealed@.union(
                seen_from(rule, center, dy, y as int, min_x + 1, max_x as int, open, end),
            ) =~= old(revealed)@.union(seen_row(rule, center, dy, y as int, start, end)));
        }
    }
    let mut x: u32 = min_x + 1;
    while x <= max_x
        invariant
            total(*transparent),
            bounded(truth(*transparent)),
            center.in_bounds(),
            dx == dy.spec_rotate(2),
            1 <= y <= ROW_LIMIT,
            1 <= x <= y + 1,
            max_x <= y,
            end.bounds_row(y as int),
            open matches Some(s) ==> s.begins_row() && y < ROW_LIMIT,
            old(revealed)@.subset_of(revealed@),
            forall|rule: spec_fn(Pos) -> bool| #[trigger]
                answers(*transparent, rule) ==> revealed@.union(
                    seen_from(rule, center, dy, y as int, x as int, max_x as int, open, end),
                ) == old(revealed)@.union(seen_row(rule, center, dy, y as int, start, end)),
        decreases max_x + 1 - x,
    {
        let ghost before = revealed@;
        let ghost was_open = open;
        let pos = cell(center, dx, dy, x, y);
        revealed.insert(pos);
        let ghost inserted = revealed@;
        let clear = transparent(pos);
        if clear {
            proof {
                assert(truth(*transparent)(pos));
                lemma_row_distance(center, dy, x as int, y as int);
                lemma_next_row(x as int, y as int, end);
            }
            if open.is_none() {
                open = Some(slope(x, y));
            }
        } else {
            match open {
                Some(start_slope) => {
                    proof {
                        lemma_next_row(x as int, y as int, end);
                    }
                    scan_row(y + 1, start_slope, slope(x, y), center, dy, transparent, revealed);
                    open = None;
                },
                None => {},
            }
        }
        proof {
            assert forall|rule: spec_fn(Pos) -> bool| #[trigger]
                answers(*transparent, rule) implies revealed@.union(
                seen_from(rule, center, dy, y as int, x + 1, max_x as int, open, end),
            ) == old(revealed)@.union(seen_row(rule, center, dy, y as int, start, end)) by {
                assert(clear == rule(pos));
                assert(revealed@.union(
                    seen_from(rule, center, dy, y as int, x + 1, max_x as int, open, end),
                ) =~= before.union(
                    seen_from(rule, center, dy, y as int, x as int, max_x as int, was_open, end),
                ));
            }
        }
        x += 1;
    }
    let ghost scanned = revealed@;
    match open {
        Some(start_slope) => {
            proof {
                lemma_next_row(1, y as int, end);
            }
            scan_row(y + 1, start_slope, end, center, dy, transparent, revealed);
        },
        None => {},
    }
    proof {
        assert forall|rule: spec_fn(Pos) -> bool| #[trigger]
            answers(*transparent, rule) implies revealed@ == old(revealed)@.union(
            seen_row(rule, center, dy, y as int, start, end),
        ) by {
            assert(revealed@ =~= scanned.union(
                seen_from(rule, center, dy, y as int, x as int, max_x as int, open, end),
            ));
        }
    }
}

/// Scans the sextant whose rows lie in direction `dy`.
fn scan_sextant<F: Fn(Pos) -> bool>(
    center: Pos,
    dy: Direction,
    transparent: &F,
    revealed: &mut PosSet,
)
    requires
        total(*transparent),
        bounded(truth(*transparent)),
        center.in_bounds(),
    ensures
        forall|rule: spec_fn(Pos) -> bool| #[trigger]
            answers(*transparent, rule) ==> final(revealed)@ == old(revealed)@.union(
                seen_row(
                    rule,
                    center,
                    dy,
                    1,
                    Slope { numer: 0, denom: 1 },
                    Slope { numer: 1, denom: 1 },
                ),
            ),
        old(revealed)@.subset_of(final(revealed)@),
{
    scan_row(
        1,
        Slope { numer: 0, denom: 1 },
        Slope { numer: 1, denom: 1 },
        center,
        dy,
        transparent,
        revealed,
    );
}

/// Calculates field of view.
///
/// The result holds the center, whatever `transparent` says of it, and what
/// the scans of the six sextants reveal; each position is in it once. Sight
/// passes through transparent positions only: whatever is revealed, but for
/// the center and its neighbors, has a revealed and transparent neighbor
/// one step nearer to the center. What is transparent is what `transparent`
/// says: the result is stated for every rule that `transparent` answers by.
pub fn calc_fov<F: Fn(Pos) -> bool>(center: Pos, transparent: F) -> (revealed: PosSet)
    requires
        total(transparent),
        bounded(truth(transparent)),
        center.in_bounds(),
    ensures
        forall|rule: spec_fn(Pos) -> bool| #[trigger]
            answers(transparent, rule) ==> revealed@ == visible(rule, center) && sight::chained(
                rule,
                center,
                revealed@,
            ),
        revealed@.contains(center),
{
    let mut revealed = PosSet::new();
    revealed.insert(center);
    proof {
        assert forall|rule: spec_fn(Pos) -> bool| #[trigger]
            answers(transparent, rule) implies revealed@ == seen_sextants(rule, center, 0) by {
            assert(revealed@ =~= seen_sextants(rule, center, 0));
        }
    }
    let mut i: usize = 0;
    while i < 6
        invariant
            total(transparent),
            bounded(truth(transparent)),
            center.in_bounds(),
            i <= 6,
            forall|rule: spec_fn(Pos) -> bool| #[trigger]
                answers(transparent, rule) ==> revealed@ == seen_sextants(rule, center, i as int),
            revealed@.contains(center),
        decreases 6 - i,
    {
        let dy = crate::grid::direction_of_index(i);
        scan_sextant(center, dy, &transparent, &mut revealed);
        i += 1;
    }
    proof {
        assert forall|rule: spec_fn(Pos) -> bool| #[trigger]
            answers(transparent, rule) implies revealed@ == visible(rule, center)
            && sight::chained(rule, center, revealed@) by {
            sight::lemma_visible_chained(rule, center);
        }
    }
    revealed
}

/// Two calculations from one center under one rule reveal the same positions.
pub proof fn lemma_fov_twice(
    transparent: spec_fn(Pos) -> bool,
    center: Pos,
    first: Set<Pos>,
    second: Set<Pos>,
)
    requires
        first == visible(transparent, center),
        second == visible(transparent, center),
    ensures
        first == second,
{
}

/// The center is in field of view whatever is transparent.
pub proof fn lemma_center_visible(transparent: spec_fn(Pos) -> bool, center: Pos)
    ensures
        visible(transparent, center).contains(center),
{
    lemma_sextants_hold_center(transparent, center, 6);
}

proof fn lemma_sextants_hold_center(transparent: spec_fn(Pos) -> bool, center: Pos, count: int)
    ensures
        seen_sextants(transparent, center, count).contains(center),
    decreases count,
{
    if count > 0 {
        lemma_sextants_hold_center(transparent, center, count - 1);
    }
}

} // verus!
