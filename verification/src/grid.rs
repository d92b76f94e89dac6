//! Representation of a hexagonal grid.
//!
//! Uses axial coordinates.
//! This grid can be thought of as any plane in 3d space that is normal to the vector {1, 1, 1}.
//! The x-axis (of the hex grid, not of the 3d space) points in `Direction::Southeast`,
//! which is the vector {1, 0, -1} in 3d space.
//! The y-axis points in `Direction::Southwest`, which is the vector {0, 1, -1}.

use vstd::prelude::*;

pub mod dense;
pub mod laws;
pub mod ops;
pub mod standard;

pub use dense::{Grid, Index2d, Location};

verus! {

/// The six directions, each a sixty degree clockwise turn from the one before it.
pub const DIRECTIONS: [Direction; 6] = [
    Direction::Northeast,
    Direction::East,
    Direction::Southeast,
    Direction::Southwest,
    Direction::West,
    Direction::Northwest,
];

/// The largest absolute value of a coordinate at which the searches of this
/// crate look: the predicates handed to them answer `false` beyond it.
pub const MAX_COORD: i32 = 4096;

/// A position on a hexagonal grid in axial coordinates.
#[derive(PartialEq, Eq, Structural, Debug, Copy, Clone, Hash)]
pub struct Pos {
    pub x: i32,
    pub y: i32,
}

/// The difference between two positions.
#[derive(PartialEq, Eq, Structural, Debug, Copy, Clone)]
pub struct Displacement {
    pub x: i32,
    pub y: i32,
}

/// One of the six directions in which a position has a neighbor.
#[derive(PartialEq, Eq, Structural, Hash, Debug, Copy, Clone)]
pub enum Direction {
    Southeast,
    East,
    Northeast,
    Northwest,
    West,
    Southwest,
}

/// Absolute value of a mathematical integer.
pub open spec fn abs(n: int) -> int {
    if n < 0 {
        -n
    } else {
        n
    }
}

/// Hex length of the vector `(x, y)`: half the sum of the absolute values of
/// its three cube coordinates.
pub open spec fn hex_norm(x: int, y: int) -> int {
    (abs(x) + abs(y) + abs(x + y)) / 2
}

/// The directions in clockwise order, starting from northeast; any integer is
/// taken modulo six.
pub open spec fn direction_at(i: int) -> Direction {
    let k = i % 6;
    if k == 0 {
        Direction::Northeast
    } else if k == 1 {
        Direction::East
    } else if k == 2 {
        Direction::Southeast
    } else if k == 3 {
        Direction::Southwest
    } else if k == 4 {
        Direction::West
    } else {
        Direction::Northwest
    }
}

impl Pos {
    /// Whether both coordinates are at most `MAX_COORD` in absolute value.
    pub open spec fn in_bounds(self) -> bool {
        &&& -MAX_COORD <= self.x <= MAX_COORD
        &&& -MAX_COORD <= self.y <= MAX_COORD
    }

    /// Whether both coordinates are at most `MAX_COORD` in absolute value.
    pub fn is_in_bounds(self) -> (res: bool)
        ensures
            res == self.in_bounds(),
    {
        -MAX_COORD <= self.x && self.x <= MAX_COORD && -MAX_COORD <= self.y && self.y <= MAX_COORD
    }

    /// Hex distance between two positions as a mathematical integer.
    pub open spec fn spec_distance(self, other: Pos) -> int {
        hex_norm(other.x - self.x, other.y - self.y)
    }

    /// Whether `other` is one of the six neighbors of `self`.
    pub open spec fn adjacent(self, other: Pos) -> bool {
        self.spec_distance(other) == 1
    }

    /// The six neighbors, in the order of `DIRECTIONS`.
    pub fn neighbors(self) -> (res: Vec<Pos>)
        requires
            i32::MIN < self.x < i32::MAX,
            i32::MIN < self.y < i32::MAX,
        ensures
            res@.len() == 6,
            forall|i: int|
                0 <= i < 6 ==> {
                    &&& (#[trigger] res@[i]).x == self.x + direction_at(i).spec_x()
                    &&& res@[i].y == self.y + direction_at(i).spec_y()
                },
    {
        let mut res: Vec<Pos> = Vec::with_capacity(6);
        let mut i: usize = 0;
        while i < 6
            invariant
                i <= 6,
                i32::MIN < self.x < i32::MAX,
                i32::MIN < self.y < i32::MAX,
                res@.len() == i,
                forall|j: int|
                    0 <= j < i ==> {
                        &&& (#[trigger] res@[j]).x == self.x + direction_at(j).spec_x()
                        &&& res@[j].y == self.y + direction_at(j).spec_y()
                    },
            decreases 6 - i,
        {
            let d = direction_of_index(i);
            res.push(Pos { x: self.x + d.x(), y: self.y + d.y() });
            i += 1;
        }
        res
    }

    /// Hex distance to `other`.
    pub fn distance(self, other: Pos) -> (res: u32)
        requires
            self.spec_distance(other) <= u32::MAX,
        ensures
            res == self.spec_distance(other),
    {
        let dx: i64 = other.x as i64 - self.x as i64;
        let dy: i64 = other.y as i64 - self.y as i64;
        norm_of(dx, dy)
    }
}

/// Computes the hex length of `(dx, dy)`.
fn norm_of(dx: i64, dy: i64) -> (res: u32)
    requires
        -0x1_0000_0000 <= dx <= 0x1_0000_0000,
        -0x1_0000_0000 <= dy <= 0x1_0000_0000,
        hex_norm(dx as int, dy as int) <= u32::MAX,
    ensures
        res == hex_norm(dx as int, dy as int),
{
    let ax: i64 = if dx < 0 { -dx } else { dx };
    let ay: i64 = if dy < 0 { -dy } else { dy };
    let s: i64 = dx + dy;
    let az: i64 = if s < 0 { -s } else { s };
    let total: i64 = (ax + ay + az) / 2;
    total as u32
}

/// The direction at place `i` of `DIRECTIONS`.
pub fn direction_of_index(i: usize) -> (res: Direction)
    requires
        i < 6,
    ensures
        res == direction_at(i as int),
{
    if i == 0 {
        Direction::Northeast
    } else if i == 1 {
        Direction::East
    } else if i == 2 {
        Direction::Southeast
    } else if i == 3 {
        Direction::Southwest
    } else if i == 4 {
        Direction::West
    } else {
        Direction::Northwest
    }
}

impl Displacement {
    /// Hex length as a mathematical integer.
    pub open spec fn spec_distance(self) -> int {
        hex_norm(self.x as int, self.y as int)
    }

    /// Hex length of this displacement.
    pub fn distance(self) -> (res: u32)
        requires
            self.spec_distance() <= u32::MAX,
        ensures
            res == self.spec_distance(),
    {
        norm_of(self.x as i64, self.y as i64)
    }
}

impl Direction {
    /// Place of this direction in clockwise order, northeast being 0.
    pub open spec fn spec_index(self) -> int {
        match self {
            Direction::Northeast => 0,
            Direction::East => 1,
            Direction::Southeast => 2,
            Direction::Southwest => 3,
            Direction::West => 4,
            Direction::Northwest => 5,
        }
    }

    /// First axial coordinate of the unit step in this direction.
    pub open spec fn spec_x(self) -> int {
        match self {
            Direction::Southeast => 1,
            Direction::East => 1,
            Direction::Northeast => 0,
            Direction::Northwest => -1,
            Direction::West => -1,
            Direction::Southwest => 0,
        }
    }

    /// Second axial coordinate of the unit step in this direction.
    pub open spec fn spec_y(self) -> int {
        match self {
            Direction::Southeast => 0,
            Direction::East => -1,
            Direction::Northeast => -1,
            Direction::Northwest => 0,
            Direction::West => 1,
            Direction::Southwest => 1,
        }
    }

    /// This direction turned by `n` sixty degree steps, clockwise for positive `n`.
    pub open spec fn spec_rotate(self, n: int) -> Direction {
        direction_at(self.spec_index() + n)
    }

    /// The unit step in this direction.
    pub fn to_displacement(self) -> (res: Displacement)
        ensures
            res.x == self.spec_x(),
            res.y == self.spec_y(),
    {
        match self {
            Direction::Southeast => Displacement { x: 1, y: 0 },
            Direction::East => Displacement { x: 1, y: -1 },
            Direction::Northeast => Displacement { x: 0, y: -1 },
            Direction::Northwest => Displacement { x: -1, y: 0 },
            Direction::West => Displacement { x: -1, y: 1 },
            Direction::Southwest => Displacement { x: 0, y: 1 },
        }
    }

    /// Turns this direction by `n` sixty degree steps, clockwise for positive
    /// `n` and counterclockwise for negative `n`.
    pub fn rotate(self, n: i32) -> (res: Direction)
        ensures
            res == self.spec_rotate(n as int),
    {
        let index: i32 = match self {
            Direction::Northeast => 0,
            Direction::East => 1,
            Direction::Southeast => 2,
            Direction::Southwest => 3,
            Direction::West => 4,
            Direction::Northwest => 5,
        };
        let turn: i32 = n % 6;
        let corrected_index: i32 = (index + turn + 6) % 6;
        proof {
            lemma_mod_shift(self.spec_index(), n as int, turn as int);
        }
        if corrected_index == 0 {
            Direction::Northeast
        } else if corrected_index == 1 {
            Direction::East
        } else if corrected_index == 2 {
            Direction::Southeast
        } else if corrected_index == 3 {
            Direction::Southwest
        } else if corrected_index == 4 {
            Direction::West
        } else {
            Direction::Northwest
        }
    }

    /// The first coordinate of the unit step in this direction.
    pub fn x(self) -> (res: i32)
        ensures
            res == self.spec_x(),
    {
        self.to_displacement().x
    }

    /// The second coordinate of the unit step in this direction.
    pub fn y(self) -> (res: i32)
        ensures
            res == self.spec_y(),
    {
        self.to_displacement().y
    }
}

/// A remainder of `n` by six that keeps the sign of `n` stands for `n` in a
/// sum taken modulo six.
proof fn lemma_mod_shift(index: int, n: int, turn: int)
    requires
        0 <= index < 6,
        -6 < turn < 6,
        (n - turn) % 6 == 0,
    ensures
        (index + turn + 6) % 6 == (index + n) % 6,
{
}

/// The coefficients that `decompose` computes, as mathematical integers: the
/// displacement multiplied by the adjugate of the basis matrix and by the
/// determinant of that matrix.
pub open spec fn spec_decompose(displacement: Displacement, dir1: Direction, dir2: Direction) -> (
    int,
    int,
) {
    let det = basis_det(dir1, dir2);
    (
        det * (dir2.spec_y() * displacement.x - dir2.spec_x() * displacement.y),
        det * (dir1.spec_x() * displacement.y - dir1.spec_y() * displacement.x),
    )
}

/// Determinant of the matrix whose columns are the unit steps of `dir1` and `dir2`.
pub open spec fn basis_det(dir1: Direction, dir2: Direction) -> int {
    dir1.spec_x() * dir2.spec_y() - dir2.spec_x() * dir1.spec_y()
}

/// Whether the two directions span the plane: they are neither equal nor opposite.
pub open spec fn independent(dir1: Direction, dir2: Direction) -> bool {
    dir1 != dir2 && dir1 != dir2.spec_rotate(3)
}

/// Solves `displacement = dir1 * a + dir2 * b` for `(a, b)`.
///
/// The result solves the equation whenever the two directions are neither
/// equal nor opposite; for equal or opposite directions it is `(0, 0)`.
pub fn decompose(displacement: Displacement, dir1: Direction, dir2: Direction) -> (res: (i32, i32))
    requires
        ops::fits(spec_decompose(displacement, dir1, dir2).0),
        ops::fits(spec_decompose(displacement, dir1, dir2).1),
    ensures
        res.0 == spec_decompose(displacement, dir1, dir2).0,
        res.1 == spec_decompose(displacement, dir1, dir2).1,
        independent(dir1, dir2) ==> {
            &&& displacement.x == dir1.spec_x() * res.0 + dir2.spec_x() * res.1
            &&& displacement.y == dir1.spec_y() * res.0 + dir2.spec_y() * res.1
        },
{
    let det: i64 = times_unit(dir1.x(), dir2.y() as i64) - times_unit(dir2.x(), dir1.y() as i64);
    let dx: i64 = displacement.x as i64;
    let dy: i64 = displacement.y as i64;
    let first: i64 = times_unit(dir2.y(), dx) - times_unit(dir2.x(), dy);
    let second: i64 = times_unit(dir1.x(), dy) - times_unit(dir1.y(), dx);
    proof {
        laws::lemma_decompose_solves(displacement, dir1, dir2);
        laws::lemma_unit_times(det as int, first as int);
        laws::lemma_unit_times(det as int, second as int);
    }
    let a: i64 = if det == 0 {
        0
    } else if det > 0 {
        first
    } else {
        -first
    };
    let b: i64 = if det == 0 {
        0
    } else if det > 0 {
        second
    } else {
        -second
    };
    (a as i32, b as i32)
}

/// Multiplies `v` by a coordinate of a unit step, which is -1, 0 or 1.
fn times_unit(k: i32, v: i64) -> (res: i64)
    requires
        -1 <= k <= 1,
        -0x1_0000_0000 <= v <= 0x1_0000_0000,
    ensures
        res == k * v,
        res == 0 || res == v || res == -v,
{
    proof {
        laws::lemma_unit_times(k as int, v as int);
    }
    if k == 0 {
        0
    } else if k == 1 {
        v
    } else {
        -v
    }
}

} // verus!
