//! Arithmetic on positions, displacements and directions.
//!
//! Every operator asks that the exact result fits the coordinates' type and
//! then returns that exact result.

use super::{Direction, Displacement, Pos};
use core::ops::{Add, Mul, Neg, Sub};
use vstd::prelude::*;
use vstd::std_specs::ops::{AddSpecImpl, MulSpecImpl, NegSpecImpl, SubSpecImpl};

verus! {

/// Whether a mathematical integer can be held as a coordinate.
pub open spec fn fits(n: int) -> bool {
    i32::MIN <= n <= i32::MAX
}

impl Pos {
    /// The position at `(x, y)`, meaningful where both coordinates fit.
    pub open spec fn at(x: int, y: int) -> Pos {
        Pos { x: x as i32, y: y as i32 }
    }

    /// The neighbor of `self` in direction `dir`.
    pub open spec fn spec_neighbor(self, dir: Direction) -> Pos {
        Pos::at(self.x + dir.spec_x(), self.y + dir.spec_y())
    }

    /// The position `n` steps from `self` in direction `dir`.
    pub open spec fn spec_along(self, dir: Direction, n: int) -> Pos {
        Pos::at(self.x + dir.spec_x() * n, self.y + dir.spec_y() * n)
    }
}

impl Displacement {
    /// The displacement `(x, y)`, meaningful where both coordinates fit.
    pub open spec fn of(x: int, y: int) -> Displacement {
        Displacement { x: x as i32, y: y as i32 }
    }
}

impl Add<Displacement> for Pos {
    type Output = Pos;

    fn add(self, rhs: Displacement) -> (res: Pos) {
        Pos { x: self.x + rhs.x, y: self.y + rhs.y }
    }
}

impl AddSpecImpl<Displacement> for Pos {
    open spec fn obeys_add_spec() -> bool {
        true
    }

    open spec fn add_req(self, rhs: Displacement) -> bool {
        fits(self.x + rhs.x) && fits(self.y + rhs.y)
    }

    open spec fn add_spec(self, rhs: Displacement) -> Pos {
        Pos::at(self.x + rhs.x, self.y + rhs.y)
    }
}

impl Add<Direction> for Pos {
    type Output = Pos;

    fn add(self, rhs: Direction) -> (res: Pos) {
        let step = rhs.to_displacement();
        Pos { x: self.x + step.x, y: self.y + step.y }
    }
}

impl AddSpecImpl<Direction> for Pos {
    open spec fn obeys_add_spec() -> bool {
        true
    }

    open spec fn add_req(self, rhs: Direction) -> bool {
        fits(self.x + rhs.spec_x()) && fits(self.y + rhs.spec_y())
    }

    open spec fn add_spec(self, rhs: Direction) -> Pos {
        self.spec_neighbor(rhs)
    }
}

impl Sub<Displacement> for Pos {
    type Output = Pos;

    fn sub(self, rhs: Displacement) -> (res: Pos) {
        Pos { x: self.x - rhs.x, y: self.y - rhs.y }
    }
}

impl SubSpecImpl<Displacement> for Pos {
    open spec fn obeys_sub_spec() -> bool {
        true
    }

    open spec fn sub_req(self, rhs: Displacement) -> bool {
        fits(self.x - rhs.x) && fits(self.y - rhs.y)
    }

    open spec fn sub_spec(self, rhs: Displacement) -> Pos {
        Pos::at(self.x - rhs.x, self.y - rhs.y)
    }
}

impl Sub<Direction> for Pos {
    type Output = Pos;

    fn sub(self, rhs: Direction) -> (res: Pos) {
        let displacement = rhs.to_displacement();
        Pos { x: self.x - displacement.x, y: self.y - displacement.y }
    }
}

impl SubSpecImpl<Direction> for Pos {
    open spec fn obeys_sub_spec() -> bool {
        true
    }

    open spec fn sub_req(self, rhs: Direction) -> bool {
        fits(self.x - rhs.spec_x()) && fits(self.y - rhs.spec_y())
    }

    open spec fn sub_spec(self, rhs: Direction) -> Pos {
        Pos::at(self.x - rhs.spec_x(), self.y - rhs.spec_y())
    }
}

impl Sub<Pos> for Pos {
    type Output = Displacement;

    fn sub(self, rhs: Pos) -> (res: Displacement) {
        Displacement { x: self.x - rhs.x, y: self.y - rhs.y }
    }
}

impl SubSpecImpl<Pos> for Pos {
    open spec fn obeys_sub_spec() -> bool {
        true
    }

    open spec fn sub_req(self, rhs: Pos) -> bool {
        fits(self.x - rhs.x) && fits(self.y - rhs.y)
    }

    open spec fn sub_spec(self, rhs: Pos) -> Displacement {
        Displacement::of(self.x - rhs.x, self.y - rhs.y)
    }
}

impl Add<Displacement> for Displacement {
    type Output = Displacement;

    fn add(self, rhs: Displacement) -> (res: Displacement) {
        Displacement { x: self.x + rhs.x, y: self.y + rhs.y }
    }
}

impl AddSpecImpl<Displacement> for Displacement {
    open spec fn obeys_add_spec() -> bool {
        true
    }

    open spec fn add_req(self, rhs: Displacement) -> bool {
        fits(self.x + rhs.x) && fits(self.y + rhs.y)
    }

    open spec fn add_spec(self, rhs: Displacement) -> Displacement {
        Displacement::of(self.x + rhs.x, self.y + rhs.y)
    }
}

impl Add<Direction> for Displacement {
    type Output = Displacement;

    fn add(self, rhs: Direction) -> (res: Displacement) {
        let displacement = rhs.to_displacement();
        Displacement { x: self.x + displacement.x, y: self.y + displacement.y }
    }
}

impl AddSpecImpl<Direction> for Displacement {
    open spec fn obeys_add_spec() -> bool {
        true
    }

    open spec fn add_req(self, rhs: Direction) -> bool {
        fits(self.x + rhs.spec_x()) && fits(self.y + rhs.spec_y())
    }

    open spec fn add_spec(self, rhs: Direction) -> Displacement {
        Displacement::of(self.x + rhs.spec_x(), self.y + rhs.spec_y())
    }
}

impl Sub<Displacement> for Displacement {
    type Output = Displacement;

    fn sub(self, rhs: Displacement) -> (res: Displacement) {
        Displacement { x: self.x - rhs.x, y: self.y - rhs.y }
    }
}

impl SubSpecImpl<Displacement> for Displacement {
    open spec fn obeys_sub_spec() -> bool {
        true
    }

    open spec fn sub_req(self, rhs: Displacement) -> bool {
        fits(self.x - rhs.x) && fits(self.y - rhs.y)
    }

    open spec fn sub_spec(self, rhs: Displacement) -> Displacement {
        Displacement::of(self.x - rhs.x, self.y - rhs.y)
    }
}

impl Mul<i32> for Displacement {
    type Output = Displacement;

    fn mul(self, rhs: i32) -> (res: Displacement) {
        let x: i64 = self.x as i64 * rhs as i64;
        let y: i64 = self.y as i64 * rhs as i64;
        Displacement { x: x as i32, y: y as i32 }
    }
}

impl MulSpecImpl<i32> for Displacement {
    open spec fn obeys_mul_spec() -> bool {
        true
    }

    open spec fn mul_req(self, rhs: i32) -> bool {
        fits(self.x * rhs) && fits(self.y * rhs)
    }

    open spec fn mul_spec(self, rhs: i32) -> Displacement {
        Displacement::of(self.x * rhs, self.y * rhs)
    }
}

impl Mul<u32> for Displacement {
    type Output = Displacement;

    fn mul(self, rhs: u32) -> (res: Displacement) {
        let x: i64 = self.x as i64 * rhs as i64;
        let y: i64 = self.y as i64 * rhs as i64;
        Displacement { x: x as i32, y: y as i32 }
    }
}

impl MulSpecImpl<u32> for Displacement {
    open spec fn obeys_mul_spec() -> bool {
        true
    }

    open spec fn mul_req(self, rhs: u32) -> bool {
        fits(self.x * rhs) && fits(self.y * rhs)
    }

    open spec fn mul_spec(self, rhs: u32) -> Displacement {
        Displacement::of(self.x * rhs, self.y * rhs)
    }
}

impl Neg for Displacement {
    type Output = Displacement;

    fn neg(self) -> (res: Displacement) {
        Displacement { x: -self.x, y: -self.y }
    }
}

impl NegSpecImpl for Displacement {
    open spec fn obeys_neg_spec() -> bool {
        true
    }

    open spec fn neg_req(self) -> bool {
        fits(-self.x) && fits(-self.y)
    }

    open spec fn neg_spec(self) -> Displacement {
        Displacement::of(-self.x, -self.y)
    }
}

impl Mul<i32> for Direction {
    type Output = Displacement;

    fn mul(self, rhs: i32) -> (res: Displacement) {
        self.to_displacement() * rhs
    }
}

impl MulSpecImpl<i32> for Direction {
    open spec fn obeys_mul_spec() -> bool {
        true
    }

    open spec fn mul_req(self, rhs: i32) -> bool {
        rhs != i32::MIN
    }

    open spec fn mul_spec(self, rhs: i32) -> Displacement {
        Displacement::of(self.spec_x() * rhs, self.spec_y() * rhs)
    }
}

impl Mul<u32> for Direction {
    type Output = Displacement;

    fn mul(self, rhs: u32) -> (res: Displacement) {
        self.to_displacement() * rhs
    }
}

impl MulSpecImpl<u32> for Direction {
    open spec fn obeys_mul_spec() -> bool {
        true
    }

    open spec fn mul_req(self, rhs: u32) -> bool {
        rhs <= i32::MAX
    }

    open spec fn mul_spec(self, rhs: u32) -> Displacement {
        Displacement::of(self.spec_x() * rhs, self.spec_y() * rhs)
    }
}

impl Neg for Direction {
    type Output = Direction;

    fn neg(self) -> (res: Direction) {
        self.rotate(3)
    }
}

impl NegSpecImpl for Direction {
    open spec fn obeys_neg_spec() -> bool {
        true
    }

    open spec fn neg_req(self) -> bool {
        true
    }

    open spec fn neg_spec(self) -> Direction {
        self.spec_rotate(3)
    }
}

} // verus!
