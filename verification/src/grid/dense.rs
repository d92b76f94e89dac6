//! A dense grid of values, one for each position of a rectangle of rows.
//!
//! Row `r` holds the positions whose coordinates sum to `r`; within a row
//! the column grows with the first coordinate. The rows are staggered, so
//! that the grid looks rectangular on screen.

use super::{Pos, MAX_COORD};
use core::ops::Index;
use vstd::prelude::*;

verus! {

/// The largest width and the largest height of a grid. Every position of a
/// grid no larger than this lies within `MAX_COORD` of the origin.
pub const MAX_SIDE: usize = 2048;

/// A value for each position of a grid of so many columns and rows.
pub struct Grid<T> {
    width: usize,
    height: usize,
    grid: Vec<T>,
}

/// A 2d index of a hexagonal grid.
///
/// Ranges from (0, 0) to (width-1, height-1).
#[derive(PartialEq, Eq, Structural, Debug, Copy, Clone)]
pub struct Index2d {
    pub row: usize,
    pub col: usize,
}

/// The location of a position as shown on screen.
pub struct Location {
    pub x: i32,
    pub y: i32,
}

/// The first x-coordinate of row `row`.
pub open spec fn spec_row_first_x(row: int) -> int {
    (row + 1) / 2
}

/// The first y-coordinate of row `row`.
pub open spec fn spec_row_first_y(row: int) -> int {
    row / 2
}

/// The position at row `row` and column `col`.
pub open spec fn spec_index_to_pos(row: int, col: int) -> Pos {
    Pos::at(spec_row_first_x(row) + col, spec_row_first_y(row) - col)
}

/// The row on which `pos` lies.
pub open spec fn spec_row(pos: Pos) -> int {
    pos.x + pos.y
}

/// The column in which `pos` lies.
pub open spec fn spec_col(pos: Pos) -> int {
    pos.x - spec_row_first_x(pos.x + pos.y)
}

/// Whether `pos` lies in a row and a column that are not negative.
pub open spec fn has_index(pos: Pos) -> bool {
    spec_row(pos) >= 0 && spec_col(pos) >= 0
}

/// Whether `pos` lies in a grid of `width` columns and `height` rows.
pub open spec fn within(pos: Pos, width: int, height: int) -> bool {
    has_index(pos) && spec_col(pos) < width && spec_row(pos) < height
}

/// Find the first x-coordinate of a given row.
pub fn row_first_x(row: usize) -> (res: i32)
    requires
        row <= 2 * MAX_SIDE,
    ensures
        res == spec_row_first_x(row as int),
{
    (row as i32 + 1) / 2
}

/// Find the first y-coordinate of a given row.
pub fn row_first_y(row: usize) -> (res: i32)
    requires
        row <= 2 * MAX_SIDE,
    ensures
        res == spec_row_first_y(row as int),
{
    row as i32 / 2
}

/// Turn a 2d index into a position.
pub fn index_to_pos(i: Index2d) -> (res: Pos)
    requires
        i.row <= MAX_SIDE,
        i.col <= MAX_SIDE,
    ensures
        res == spec_index_to_pos(i.row as int, i.col as int),
        res.in_bounds(),
        has_index(res),
        spec_row(res) == i.row,
        spec_col(res) == i.col,
{
    Pos { x: row_first_x(i.row) + i.col as i32, y: row_first_y(i.row) - i.col as i32 }
}

/// Turn a position into a 2d index.
pub fn pos_to_index(pos: Pos) -> (res: Index2d)
    requires
        has_index(pos),
    ensures
        res.row == spec_row(pos),
        res.col == spec_col(pos),
{
    let row: i64 = pos.x as i64 + pos.y as i64;
    let col: i64 = pos.x as i64 - (row + 1) / 2;
    Index2d { row: row as usize, col: col as usize }
}

/// Whether `pos` lies in a grid of `width` columns and `height` rows.
pub fn lies_within(pos: Pos, width: usize, height: usize) -> (res: bool)
    ensures
        res == within(pos, width as int, height as int),
{
    let row: i64 = pos.x as i64 + pos.y as i64;
    if row < 0 {
        return false;
    }
    let col: i64 = pos.x as i64 - (row + 1) / 2;
    if col < 0 {
        return false;
    }
    let Index2d { row, col } = pos_to_index(pos);
    col < width && row < height
}

/// Every position of a `width` by `height` grid, row by row.
pub fn positions(width: usize, height: usize) -> (res: Vec<Pos>)
    requires
        width <= MAX_SIDE,
        height <= MAX_SIDE,
    ensures
        res@.len() == width * height,
        forall|row: int, col: int|
            0 <= row < height && 0 <= col < width ==> #[trigger] res@[row * width + col]
                == spec_index_to_pos(row, col),
        forall|k: int| 0 <= k < res@.len() ==> within(#[trigger] res@[k], width as int, height as int),
{
    let mut res: Vec<Pos> = Vec::new();
    let mut row: usize = 0;
    while row < height
        invariant
            width <= MAX_SIDE,
            height <= MAX_SIDE,
            row <= height,
            res@.len() == row * width,
            forall|r: int, c: int|
                0 <= r < row && 0 <= c < width ==> #[trigger] res@[r * width + c]
                    == spec_index_to_pos(r, c),
            forall|k: int|
                0 <= k < res@.len() ==> within(#[trigger] res@[k], width as int, height as int),
        decreases height - row,
    {
        let mut col: usize = 0;
        while col < width
            invariant
                width <= MAX_SIDE,
                height <= MAX_SIDE,
                row < height,
                col <= width,
                res@.len() == row * width + col,
                forall|r: int, c: int|
                    0 <= r < row && 0 <= c < width ==> #[trigger] res@[r * width + c]
                        == spec_index_to_pos(r, c),
                forall|c: int|
                    0 <= c < col ==> #[trigger] res@[row * width + c] == spec_index_to_pos(
                        row as int,
                        c,
                    ),
                forall|k: int|
                    0 <= k < res@.len() ==> within(#[trigger] res@[k], width as int, height as int),
            decreases width - col,
        {
            let ghost before = res@;
            let pos = index_to_pos(Index2d { row, col });
            res.push(pos);
            proof {
                assert forall|r: int, c: int| 0 <= r < row && 0 <= c < width implies #[trigger] res@[r
                    * width + c] == spec_index_to_pos(r, c) by {
                    lemma_cell_order(r, c, row as int, width as int);
                    assert(res@[r * width + c] == before[r * width + c]);
                }
                assert forall|c: int| 0 <= c < col + 1 implies #[trigger] res@[row * width + c]
                    == spec_index_to_pos(row as int, c) by {
                    if c < col {
                        assert(res@[row * width + c] == before[row * width + c]);
                    }
                }
                assert forall|k: int| 0 <= k < res@.len() implies within(
                    #[trigger] res@[k],
                    width as int,
                    height as int,
                ) by {
                    if k < before.len() {
                        assert(res@[k] == before[k]);
                    }
                }
            }
            col += 1;
        }
        proof {
            assert((row + 1) * width == row * width + width) by (nonlinear_arith);
        }
        row += 1;
    }
    res
}

/// The cell at row `r` and column `c` of a grid stands before the cells of every later row.
pub proof fn lemma_cell_order(r: int, c: int, row: int, width: int)
    requires
        0 <= r < row,
        0 <= c < width,
    ensures
        0 <= r * width + c < row * width,
{
    assert(r * width + c < row * width) by (nonlinear_arith)
        requires
            0 <= r < row,
            0 <= c < width,
    ;
    assert(0 <= r * width) by (nonlinear_arith)
        requires
            0 <= r,
            0 <= width,
    ;
}

/// The positions of a `width` by `height` grid that are not on its edge, row by row.
pub open spec fn spec_inner_positions(width: int, height: int) -> Seq<Pos> {
    Seq::new(
        ((width - 2) * (height - 2)) as nat,
        |i: int| spec_index_to_pos(i / (width - 2) + 1, i % (width - 2) + 1),
    )
}

/// Every position of a `width` by `height` grid that is not on its edge, row by row.
pub fn inner_positions(width: usize, height: usize) -> (res: Vec<Pos>)
    requires
        2 <= width <= MAX_SIDE,
        2 <= height <= MAX_SIDE,
    ensures
        res@ == spec_inner_positions(width as int, height as int),
        res@.len() == (width - 2) * (height - 2),
        forall|row: int, col: int|
            0 <= row < height - 2 && 0 <= col < width - 2 ==> #[trigger] res@[row * (width - 2)
                + col] == spec_index_to_pos(row + 1, col + 1),
        forall|k: int|
            0 <= k < res@.len() ==> {
                &&& within(#[trigger] res@[k], width as int, height as int)
                &&& 1 <= spec_row(res@[k]) < height - 1
                &&& 1 <= spec_col(res@[k]) < width - 1
            },
{
    let inner_width = width - 2;
    let inner_height = height - 2;
    let mut res: Vec<Pos> = Vec::new();
    let mut row: usize = 0;
    while row < inner_height
        invariant
            inner_width == width - 2,
            inner_height == height - 2,
            2 <= width <= MAX_SIDE,
            2 <= height <= MAX_SIDE,
            row <= inner_height,
            res@.len() == row * inner_width,
            forall|r: int, c: int|
                0 <= r < row && 0 <= c < inner_width ==> #[trigger] res@[r * inner_width + c]
                    == spec_index_to_pos(r + 1, c + 1),
            forall|k: int|
                0 <= k < res@.len() ==> {
                    &&& within(#[trigger] res@[k], width as int, height as int)
                    &&& 1 <= spec_row(res@[k]) < height - 1
                    &&& 1 <= spec_col(res@[k]) < width - 1
                },
        decreases inner_height - row,
    {
        let mut col: usize = 0;
        while col < inner_width
            invariant
                inner_width == width - 2,
                inner_height == height - 2,
                2 <= width <= MAX_SIDE,
                2 <= height <= MAX_SIDE,
                row < inner_height,
                col <= inner_width,
                res@.len() == row * inner_width + col,
                forall|r: int, c: int|
                    0 <= r < row && 0 <= c < inner_width ==> #[trigger] res@[r * inner_width + c]
                        == spec_index_to_pos(r + 1, c + 1),
                forall|c: int|
                    0 <= c < col ==> #[trigger] res@[row * inner_width + c] == spec_index_to_pos(
                        row + 1,
                        c + 1,
                    ),
                forall|k: int|
                    0 <= k < res@.len() ==> {
                        &&& within(#[trigger] res@[k], width as int, height as int)
                        &&& 1 <= spec_row(res@[k]) < height - 1
                        &&& 1 <= spec_col(res@[k]) < width - 1
                    },
            decreases inner_width - col,
        {
            let ghost before = res@;
            res.push(index_to_pos(Index2d { row: row + 1, col: col + 1 }));
            proof {
                assert forall|r: int, c: int|
                    0 <= r < row && 0 <= c < inner_width implies #[trigger] res@[r * inner_width
                    + c] == spec_index_to_pos(r + 1, c + 1) by {
                    lemma_cell_order(r, c, row as int, inner_width as int);
                    assert(res@[r * inner_width + c] == before[r * inner_width + c]);
                }
                assert forall|c: int| 0 <= c < col + 1 implies #[trigger] res@[row * inner_width
                    + c] == spec_index_to_pos(row + 1, c + 1) by {
                    if c < col {
                        assert(res@[row * inner_width + c] == before[row * inner_width + c]);
                    }
                }
                assert forall|k: int| 0 <= k < res@.len() implies {
                    &&& within(#[trigger] res@[k], width as int, height as int)
                    &&& 1 <= spec_row(res@[k]) < height - 1
                    &&& 1 <= spec_col(res@[k]) < width - 1
                } by {
                    if k < before.len() {
                        assert(res@[k] == before[k]);
                    }
                }
            }
            col += 1;
        }
        proof {
            assert((row + 1) * inner_width == row * inner_width + inner_width)
                by (nonlinear_arith);
        }
        row += 1;
    }
    proof {
        assert(inner_height * inner_width == (width - 2) * (height - 2)) by (nonlinear_arith)
            requires
                inner_width == width - 2,
                inner_height == height - 2,
        ;
        let listed = spec_inner_positions(width as int, height as int);
        assert forall|i: int| 0 <= i < res@.len() implies res@[i] == listed[i] by {
            lemma_split(i, inner_width as int, inner_height as int);
            let row = i / (inner_width as int);
            let col = i % (inner_width as int);
            assert(res@[row * inner_width + col] == spec_index_to_pos(row + 1, col + 1));
        }
        assert(res@ =~= listed);
    }
    res
}

/// A position and the 2d index that it is turned into stand for each other.
pub proof fn lemma_index_round_trip(row: int, col: int)
    requires
        0 <= row <= MAX_SIDE,
        0 <= col <= MAX_SIDE,
    ensures
        has_index(spec_index_to_pos(row, col)),
        spec_row(spec_index_to_pos(row, col)) == row,
        spec_col(spec_index_to_pos(row, col)) == col,
{
}

/// A position with a 2d index is the position of that index.
pub proof fn lemma_pos_round_trip(pos: Pos)
    requires
        has_index(pos),
    ensures
        spec_index_to_pos(spec_row(pos), spec_col(pos)) == pos,
{
}

impl<T> View for Grid<T> {
    type V = Seq<T>;

    /// The values of the grid, row by row.
    closed spec fn view(&self) -> Seq<T> {
        self.grid@
    }
}

impl<T> Grid<T> {
    #[verifier::type_invariant]
    spec fn wf(self) -> bool {
        &&& self.width <= MAX_SIDE
        &&& self.height <= MAX_SIDE
        &&& self.grid@.len() == self.width * self.height
    }

    /// The number of columns.
    pub closed spec fn spec_width(self) -> int {
        self.width as int
    }

    /// The number of rows.
    pub closed spec fn spec_height(self) -> int {
        self.height as int
    }

    /// Whether `pos` lies in this grid.
    pub open spec fn spec_contains(self, pos: Pos) -> bool {
        within(pos, self.spec_width(), self.spec_height())
    }

    /// The place of the value at `pos` among the values of the grid.
    pub open spec fn place(self, pos: Pos) -> int {
        spec_row(pos) * self.spec_width() + spec_col(pos)
    }

    /// The value at `pos`.
    pub open spec fn spec_at(self, pos: Pos) -> T {
        self@[self.place(pos)]
    }

    /// Whether `pos` lies in this grid and not on its edge.
    pub open spec fn spec_inner(self, pos: Pos) -> bool {
        &&& has_index(pos)
        &&& 1 <= spec_row(pos) < self.spec_height() - 1
        &&& 1 <= spec_col(pos) < self.spec_width() - 1
    }

    /// Whether this grid has the same width and height as `other`.
    pub open spec fn same_size<U>(self, other: Grid<U>) -> bool {
        self.spec_width() == other.spec_width() && self.spec_height() == other.spec_height()
    }

    /// Create a new grid.
    ///
    /// The `init` closure takes a `Pos` which is the position itself.
    pub fn new<F: Fn(Pos) -> T>(width: usize, height: usize, init: F) -> (res: Self)
        requires
            width <= MAX_SIDE,
            height <= MAX_SIDE,
            forall|pos: Pos| within(pos, width as int, height as int) ==> call_requires(init, (pos,)),
        ensures
            res.spec_width() == width,
            res.spec_height() == height,
            res@.len() == width * height,
            forall|pos: Pos|
                res.spec_contains(pos) ==> call_ensures(init, (pos,), #[trigger] res.spec_at(pos)),
    {
        let all = positions(width, height);
        let mut grid: Vec<T> = Vec::with_capacity(all.len());
        let mut k: usize = 0;
        while k < all.len()
            invariant
                k <= all@.len(),
                all@.len() == width * height,
                grid@.len() == k,
                forall|j: int|
                    0 <= j < all@.len() ==> within(#[trigger] all@[j], width as int, height as int),
                forall|pos: Pos|
                    within(pos, width as int, height as int) ==> call_requires(init, (pos,)),
                forall|j: int| 0 <= j < k ==> call_ensures(init, (all@[j],), #[trigger] grid@[j]),
            decreases all@.len() - k,
        {
            let value = init(all[k]);
            grid.push(value);
            k += 1;
        }
        let res = Grid { width, height, grid };
        proof {
            assert forall|pos: Pos| res.spec_contains(pos) implies call_ensures(
                init,
                (pos,),
                #[trigger] res.spec_at(pos),
            ) by {
                let row = spec_row(pos);
                let col = spec_col(pos);
                lemma_place_bound(row, col, width as int, height as int);
                assert(all@[row * width + col] == spec_index_to_pos(row, col));
                assert(res.spec_at(pos) == grid@[row * width + col]);
            }
        }
        res
    }

    /// The number of columns.
    pub fn width(&self) -> (res: usize)
        ensures
            res == self.spec_width(),
            res <= MAX_SIDE,
    {
        proof {
            use_type_invariant(self);
        }
        self.width
    }

    /// The number of rows.
    pub fn height(&self) -> (res: usize)
        ensures
            res == self.spec_height(),
            res <= MAX_SIDE,
    {
        proof {
            use_type_invariant(self);
        }
        self.height
    }

    /// Turn a position in a grid into a location.
    pub fn pos_to_location(&self, pos: Pos) -> (res: Location)
        requires
            self.spec_contains(pos),
        ensures
            res.x == spec_row(pos) % 2 + 2 * spec_col(pos),
            res.y == spec_row(pos),
    {
        proof {
            use_type_invariant(self);
        }
        let Index2d { row, col } = pos_to_index(pos);
        Location { x: ((row % 2) + 2 * col) as i32, y: row as i32 }
    }

    /// Whether a position is within the bounds of this grid.
    pub fn contains(&self, pos: Pos) -> (res: bool)
        ensures
            res == self.spec_contains(pos),
            res ==> pos.in_bounds(),
    {
        proof {
            use_type_invariant(self);
        }
        lies_within(pos, self.width, self.height)
    }

    /// Every position of this grid, row by row.
    pub fn positions(&self) -> (res: Vec<Pos>)
        ensures
            res@.len() == self@.len(),
            forall|k: int| 0 <= k < res@.len() ==> self.spec_contains(#[trigger] res@[k]),
            forall|k: int| 0 <= k < res@.len() ==> (#[trigger] res@[k]).in_bounds(),
            forall|k: int| 0 <= k < res@.len() ==> self.place(#[trigger] res@[k]) == k,
            forall|pos: Pos|
                self.spec_contains(pos) ==> 0 <= #[trigger] self.place(pos) < res@.len()
                    && res@[self.place(pos)] == pos,
    {
        proof {
            use_type_invariant(self);
        }
        let res = positions(self.width, self.height);
        proof {
            assert forall|pos: Pos| self.spec_contains(pos) implies 0 <= #[trigger] self.place(pos)
                < res@.len() && res@[self.place(pos)] == pos by {
                lemma_place_bound(
                    spec_row(pos),
                    spec_col(pos),
                    self.width as int,
                    self.height as int,
                );
                lemma_pos_round_trip(pos);
                assert(res@[spec_row(pos) * self.width + spec_col(pos)] == spec_index_to_pos(
                    spec_row(pos),
                    spec_col(pos),
                ));
            }
            assert forall|k: int| 0 <= k < res@.len() implies self.place(#[trigger] res@[k])
                == k by {
                let row = k / (self.width as int);
                let col = k % (self.width as int);
                lemma_split(k, self.width as int, self.height as int);
                assert(res@[row * self.width + col] == spec_index_to_pos(row, col));
            }
        }
        res
    }

    /// Every position of this grid that is not on its edge, row by row.
    pub fn inner_positions(&self) -> (res: Vec<Pos>)
        requires
            self.spec_width() >= 2,
            self.spec_height() >= 2,
        ensures
            res@ == spec_inner_positions(self.spec_width(), self.spec_height()),
            res@.len() == (self.spec_width() - 2) * (self.spec_height() - 2),
            forall|row: int, col: int|
                0 <= row < self.spec_height() - 2 && 0 <= col < self.spec_width() - 2
                    ==> #[trigger] res@[row * (self.spec_width() - 2) + col] == spec_index_to_pos(
                    row + 1,
                    col + 1,
                ),
            forall|k: int|
                0 <= k < res@.len() ==> {
                    &&& self.spec_contains(#[trigger] res@[k])
                    &&& res@[k].in_bounds()
                    &&& 1 <= spec_row(res@[k]) < self.spec_height() - 1
                    &&& 1 <= spec_col(res@[k]) < self.spec_width() - 1
                },
    {
        proof {
            use_type_invariant(self);
        }
        inner_positions(self.width, self.height)
    }

    /// The values of this grid, row by row.
    pub fn iter(&self) -> (res: &Vec<T>)
        ensures
            res@ == self@,
    {
        &self.grid
    }

    /// Find the central position of this grid.
    pub fn center(&self) -> (res: Pos)
        ensures
            res == spec_index_to_pos(self.spec_height() / 2, self.spec_width() / 2),
            self.spec_width() > 0 && self.spec_height() > 0 ==> self.spec_contains(res),
            res.in_bounds(),
    {
        proof {
            use_type_invariant(self);
        }
        index_to_pos(Index2d { row: self.height / 2, col: self.width / 2 })
    }

    /// Turn a position into a linear index.
    pub fn pos_to_linear(&self, pos: Pos) -> (res: usize)
        requires
            self.spec_contains(pos),
        ensures
            res == self.place(pos),
            res < self@.len(),
    {
        proof {
            use_type_invariant(self);
            lemma_place_bound(spec_row(pos), spec_col(pos), self.width as int, self.height as int);
        }
        let Index2d { row, col } = pos_to_index(pos);
        row * self.width + col
    }

    /// Turn a linear index into a position.
    pub fn linear_to_pos(&self, i: usize) -> (res: Pos)
        requires
            i < self@.len(),
        ensures
            res == spec_index_to_pos((i as int) / self.spec_width(), (i as int) % self.spec_width()),
            self.spec_contains(res),
            self.place(res) == i,
    {
        proof {
            use_type_invariant(self);
            lemma_split(i as int, self.width as int, self.height as int);
        }
        index_to_pos(Index2d { row: i / self.width, col: i % self.width })
    }

    /// The value at `pos`.
    pub fn get(&self, pos: Pos) -> (res: &T)
        requires
            self.spec_contains(pos),
        ensures
            *res == self.spec_at(pos),
    {
        proof {
            use_type_invariant(self);
            lemma_place_bound(spec_row(pos), spec_col(pos), self.width as int, self.height as int);
        }
        let Index2d { row, col } = pos_to_index(pos);
        let i = row * self.width + col;
        &self.grid[i]
    }

    /// Puts `value` at `pos`.
    pub fn set(&mut self, pos: Pos, value: T)
        requires
            old(self).spec_contains(pos),
        ensures
            0 <= old(self).place(pos) < old(self)@.len(),
            final(self)@ == old(self)@.update(old(self).place(pos), value),
            final(self).spec_width() == old(self).spec_width(),
            final(self).spec_height() == old(self).spec_height(),
            final(self).spec_at(pos) == value,
            forall|other: Pos|
                old(self).spec_contains(other) && other != pos ==> #[trigger] final(self).spec_at(
                    other,
                ) == old(self).spec_at(other),
    {
        proof {
            use_type_invariant(&*self);
            lemma_place_bound(spec_row(pos), spec_col(pos), self.width as int, self.height as int);
        }
        let Index2d { row, col } = pos_to_index(pos);
        let i = row * self.width + col;
        let mut taken = Grid { width: 0, height: 0, grid: Vec::new() };
        std::mem::swap(self, &mut taken);
        let Grid { width, height, mut grid } = taken;
        grid.set(i, value);
        *self = Grid { width, height, grid };
        proof {
            assert forall|other: Pos|
                old(self).spec_contains(other) && other != pos implies #[trigger] self.spec_at(
                other,
            ) == old(self).spec_at(other) by {
                lemma_place_bound(
                    spec_row(other),
                    spec_col(other),
                    width as int,
                    height as int,
                );
                lemma_place_apart(pos, other, width as int, height as int);
            }
        }
    }

    /// The six neighbors of a position that is not on the edge of this grid,
    /// in the order of the directions. They all lie in the grid.
    pub fn neighbors(&self, pos: Pos) -> (res: Vec<Pos>)
        requires
            self.spec_inner(pos),
        ensures
            res@.len() == 6,
            forall|i: int|
                0 <= i < 6 ==> #[trigger] res@[i] == pos.spec_neighbor(super::direction_at(i)),
            forall|i: int| 0 <= i < 6 ==> self.spec_contains(#[trigger] res@[i]),
            forall|i: int|
                0 <= i < 6 ==> self.spec_contains(
                    #[trigger] pos.spec_neighbor(super::direction_at(i)),
                ),
    {
        proof {
            use_type_invariant(self);
            lemma_inner_neighbors(pos, self.width as int, self.height as int);
        }
        let res = pos.neighbors();
        proof {
            assert forall|i: int| 0 <= i < 6 implies #[trigger] res@[i] == pos.spec_neighbor(
                super::direction_at(i),
            ) by {
                assert(res@[i].x == pos.x + super::direction_at(i).spec_x());
            }
        }
        res
    }

    /// Whether `pos` lies in this grid and not on its edge.
    pub fn is_inner(&self, pos: Pos) -> (res: bool)
        ensures
            res == self.spec_inner(pos),
    {
        proof {
            use_type_invariant(self);
        }
        if !lies_within(pos, self.width, self.height) {
            return false;
        }
        let Index2d { row, col } = pos_to_index(pos);
        1 <= row && row + 1 < self.height && 1 <= col && col + 1 < self.width
    }
}

/// The cell at row `row` and column `col` has a place among the cells of the grid.
pub proof fn lemma_place_bound(row: int, col: int, width: int, height: int)
    requires
        0 <= row < height <= MAX_SIDE,
        0 <= col < width <= MAX_SIDE,
    ensures
        0 <= row * width <= row * width + col < width * height,
        width * height <= MAX_SIDE * MAX_SIDE,
        width * height == height * width,
{
    assert(0 <= row * width <= row * width + col < width * height && width * height <= 2048 * 2048
        && width * height == height * width) by (nonlinear_arith)
        requires
            0 <= row < height <= 2048,
            0 <= col < width <= 2048,
    ;
}

/// Two positions of a grid have different places among its cells.
pub proof fn lemma_place_apart(a: Pos, b: Pos, width: int, height: int)
    requires
        within(a, width, height),
        within(b, width, height),
        a != b,
    ensures
        spec_row(a) * width + spec_col(a) != spec_row(b) * width + spec_col(b),
{
    let (ra, ca, rb, cb) = (spec_row(a), spec_col(a), spec_row(b), spec_col(b));
    if ra != rb {
        assert(ra * width + ca != rb * width + cb) by (nonlinear_arith)
            requires
                ra != rb,
                0 <= ca < width,
                0 <= cb < width,
        ;
    }
}

/// The six neighbors of a position that is not on the edge of a grid lie in the grid.
pub proof fn lemma_inner_neighbors(pos: Pos, width: int, height: int)
    requires
        has_index(pos),
        1 <= spec_row(pos) < height - 1,
        1 <= spec_col(pos) < width - 1,
        width <= MAX_SIDE,
        height <= MAX_SIDE,
    ensures
        forall|i: int| 0 <= i < 6 ==> within(#[trigger] pos.spec_neighbor(super::direction_at(i)), width, height),
{
    assert forall|i: int| 0 <= i < 6 implies within(
        #[trigger] pos.spec_neighbor(super::direction_at(i)),
        width,
        height,
    ) by {
        let d = super::direction_at(i);
        let n = pos.spec_neighbor(d);
        assert(n.x == pos.x + d.spec_x());
        assert(n.y == pos.y + d.spec_y());
    }
}

/// Every position of a grid that is not on its edge stands in the list of
/// its inner positions. Returns the place at which it stands.
pub proof fn lemma_inner_listed(pos: Pos, width: int, height: int) -> (k: int)
    requires
        has_index(pos),
        1 <= spec_row(pos) < height - 1,
        1 <= spec_col(pos) < width - 1,
        width <= MAX_SIDE,
        height <= MAX_SIDE,
    ensures
        0 <= k < spec_inner_positions(width, height).len(),
        spec_inner_positions(width, height)[k] == pos,
{
    let row = spec_row(pos) - 1;
    let col = spec_col(pos) - 1;
    let k = row * (width - 2) + col;
    lemma_place_bound(row, col, width - 2, height - 2);
    vstd::arithmetic::div_mod::lemma_fundamental_div_mod_converse(k, width - 2, row, col);
    lemma_pos_round_trip(pos);
    k
}

/// A place among the cells of a grid splits into its row and its column.
pub proof fn lemma_split(k: int, width: int, height: int)
    requires
        0 <= k < width * height,
        0 <= width,
        0 <= height,
    ensures
        0 <= k / width < height,
        0 <= k % width < width,
        (k / width) * width + k % width == k,
{
    assert(width > 0) by (nonlinear_arith)
        requires
            0 <= k < width * height,
            0 <= width,
    ;
    vstd::arithmetic::div_mod::lemma_fundamental_div_mod(k, width);
    let q = k / width;
    let r = k % width;
    assert(0 <= q < height) by (nonlinear_arith)
        requires
            k == width * q + r,
            0 <= r < width,
            0 <= k < width * height,
            width > 0,
    ;
    assert(q * width == width * q) by (nonlinear_arith);
}

impl<T> Index<Pos> for Grid<T> {
    type Output = T;

    fn index(&self, pos: Pos) -> (res: &T)
        ensures
            *res == self.spec_at(pos),
    {
        self.get(pos)
    }
}

impl<T> vstd::std_specs::core::IndexSpecImpl<Pos> for Grid<T> {
    open spec fn index_req(&self, index: &Pos) -> bool {
        self.spec_contains(*index)
    }
}

} // verus!
