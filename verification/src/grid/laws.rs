//! Laws of the hex coordinate algebra.

use super::{basis_det, direction_at, hex_norm, independent, spec_decompose};
use super::{Direction, Displacement, Pos};
use vstd::prelude::*;

verus! {

/// Six sixty degree turns bring a direction back to itself.
pub proof fn lemma_rotate_full_turn(d: Direction)
    ensures
        d.spec_rotate(6) == d,
{
}

/// Turning by `a` steps and then by `b` steps is turning by `a + b` steps.
pub proof fn lemma_rotate_compose(d: Direction, a: int, b: int)
    ensures
        d.spec_rotate(a).spec_rotate(b) == d.spec_rotate(a + b),
{
    let i = d.spec_index() + a;
    assert(direction_at(i).spec_index() == i % 6);
    assert((i % 6 + b) % 6 == (i + b) % 6);
}

/// Turning by zero steps changes nothing, and every direction stands at its
/// own place in the clockwise order.
pub proof fn lemma_rotate_zero(d: Direction)
    ensures
        d.spec_rotate(0) == d,
        direction_at(d.spec_index()) == d,
{
}

/// The distance from a position to itself is zero.
pub proof fn lemma_distance_self(a: Pos)
    ensures
        a.spec_distance(a) == 0,
{
}

/// Distance is never negative, and is zero only between equal positions.
pub proof fn lemma_distance_positive(a: Pos, b: Pos)
    ensures
        a.spec_distance(b) >= 0,
        a.spec_distance(b) == 0 <==> a == b,
{
}

/// Distance does not depend on the order of its arguments.
pub proof fn lemma_distance_symmetric(a: Pos, b: Pos)
    ensures
        a.spec_distance(b) == b.spec_distance(a),
{
}

/// Distance obeys the triangle inequality.
pub proof fn lemma_distance_triangle(a: Pos, b: Pos, c: Pos)
    ensures
        a.spec_distance(c) <= a.spec_distance(b) + b.spec_distance(c),
{
    lemma_norm_triangle(b.x - a.x, b.y - a.y, c.x - b.x, c.y - b.y);
}

/// The hex length of a sum is at most the sum of the hex lengths.
pub proof fn lemma_norm_triangle(x1: int, y1: int, x2: int, y2: int)
    ensures
        hex_norm(x1 + x2, y1 + y2) <= hex_norm(x1, y1) + hex_norm(x2, y2),
{
    lemma_norm_is_max(x1, y1);
    lemma_norm_is_max(x2, y2);
    lemma_norm_is_max(x1 + x2, y1 + y2);
}

/// The hex length is the largest of the absolute values of the three cube
/// coordinates.
pub proof fn lemma_norm_is_max(x: int, y: int)
    ensures
        hex_norm(x, y) >= super::abs(x),
        hex_norm(x, y) >= super::abs(y),
        hex_norm(x, y) >= super::abs(x + y),
        hex_norm(x, y) == super::abs(x) || hex_norm(x, y) == super::abs(y) || hex_norm(x, y)
            == super::abs(x + y),
{
}

/// Two positions are neighbors exactly when one is a unit step from the other.
pub proof fn lemma_adjacent_is_step(a: Pos, b: Pos)
    ensures
        a.adjacent(b) <==> exists|i: int|
            0 <= i < 6 && b.x == a.x + #[trigger] direction_at(i).spec_x() && b.y == a.y
                + direction_at(i).spec_y(),
{
    if a.adjacent(b) {
        let dx = b.x - a.x;
        let dy = b.y - a.y;
        lemma_norm_is_max(dx, dy);
        let i: int = if dx == 0 && dy == -1 {
            0
        } else if dx == 1 && dy == -1 {
            1
        } else if dx == 1 && dy == 0 {
            2
        } else if dx == 0 && dy == 1 {
            3
        } else if dx == -1 && dy == 1 {
            4
        } else {
            5
        };
        assert(b.x == a.x + direction_at(i).spec_x() && b.y == a.y + direction_at(i).spec_y());
    }
}

/// A product with -1, 0 or 1 is the negation, zero or the number itself.
pub proof fn lemma_unit_times(k: int, v: int)
    requires
        -1 <= k <= 1,
    ensures
        k * v == (if k == 0 {
            0
        } else if k == 1 {
            v
        } else {
            -v
        }),
        v * k == k * v,
{
    assert(k * v == (if k == 0 {
        0
    } else if k == 1 {
        v
    } else {
        -v
    }) && v * k == k * v) by (nonlinear_arith)
        requires
            -1 <= k <= 1,
    ;
}

/// For two directions that are neither equal nor opposite the determinant of
/// their unit steps is 1 or -1, and `decompose` solves
/// `displacement = dir1 * a + dir2 * b`; for equal or opposite directions it
/// gives `(0, 0)`.
pub proof fn lemma_decompose_solves(displacement: Displacement, dir1: Direction, dir2: Direction)
    ensures
        -1 <= basis_det(dir1, dir2) <= 1,
        independent(dir1, dir2) ==> {
            let (a, b) = spec_decompose(displacement, dir1, dir2);
            &&& basis_det(dir1, dir2) == 1 || basis_det(dir1, dir2) == -1
            &&& displacement.x == dir1.spec_x() * a + dir2.spec_x() * b
            &&& displacement.y == dir1.spec_y() * a + dir2.spec_y() * b
        },
        !independent(dir1, dir2) ==> spec_decompose(displacement, dir1, dir2) == (0int, 0int),
{
    let (a, b) = spec_decompose(displacement, dir1, dir2);
    let det = basis_det(dir1, dir2);
    let dx = displacement.x as int;
    let dy = displacement.y as int;
    lemma_unit_times(dir1.spec_x(), dir2.spec_y());
    lemma_unit_times(dir2.spec_x(), dir1.spec_y());
    lemma_unit_times(dir2.spec_y(), dx);
    lemma_unit_times(dir2.spec_x(), dy);
    lemma_unit_times(dir1.spec_x(), dy);
    lemma_unit_times(dir1.spec_y(), dx);
    let u = dir2.spec_y() * dx - dir2.spec_x() * dy;
    let v = dir1.spec_x() * dy - dir1.spec_y() * dx;
    lemma_unit_times(det, u);
    lemma_unit_times(det, v);
    lemma_unit_times(dir1.spec_x(), a);
    lemma_unit_times(dir2.spec_x(), b);
    lemma_unit_times(dir1.spec_y(), a);
    lemma_unit_times(dir2.spec_y(), b);
}

/// The solution of `displacement = dir1 * a + dir2 * b` is unique for two
/// directions that are neither equal nor opposite.
pub proof fn lemma_decompose_unique(
    displacement: Displacement,
    dir1: Direction,
    dir2: Direction,
    a: int,
    b: int,
)
    requires
        independent(dir1, dir2),
        displacement.x == dir1.spec_x() * a + dir2.spec_x() * b,
        displacement.y == dir1.spec_y() * a + dir2.spec_y() * b,
    ensures
        spec_decompose(displacement, dir1, dir2) == (a, b),
{
    let (a2, b2) = spec_decompose(displacement, dir1, dir2);
    lemma_decompose_solves(displacement, dir1, dir2);
    lemma_unit_times(dir1.spec_x(), a);
    lemma_unit_times(dir2.spec_x(), b);
    lemma_unit_times(dir1.spec_y(), a);
    lemma_unit_times(dir2.spec_y(), b);
    lemma_unit_times(dir1.spec_x(), a2);
    lemma_unit_times(dir2.spec_x(), b2);
    lemma_unit_times(dir1.spec_y(), a2);
    lemma_unit_times(dir2.spec_y(), b2);
}

} // verus!
