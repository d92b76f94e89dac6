//! The grid of the size that every level of the game has.

use super::dense::{
    index_to_pos, inner_positions as inner_positions_of, lies_within, pos_to_index,
    positions as positions_of, spec_col, spec_index_to_pos, spec_row, within, Index2d, Location,
};
use super::Pos;
use vstd::prelude::*;

verus! {

/// The number of columns of a level.
pub const WIDTH: usize = 34;

/// The number of rows of a level.
pub const HEIGHT: usize = 26;

/// Find the central position of this grid.
pub fn center() -> (res: Pos)
    ensures
        res == spec_index_to_pos(13, 17),
        within(res, WIDTH as int, HEIGHT as int),
{
    index_to_pos(Index2d { row: HEIGHT / 2, col: WIDTH / 2 })
}

/// Find a corner position.
pub fn corner() -> (res: Pos)
    ensures
        res == (Pos { x: 0, y: 0 }),
{
    index_to_pos(Index2d { row: 0, col: 0 })
}

/// Turn a position in a grid into a location.
pub fn pos_to_location(pos: Pos) -> (res: Location)
    requires
        within(pos, WIDTH as int, HEIGHT as int),
    ensures
        res.x == spec_row(pos) % 2 + 2 * spec_col(pos),
        res.y == spec_row(pos),
{
    let Index2d { row, col } = pos_to_index(pos);
    Location { x: ((row % 2) + 2 * col) as i32, y: row as i32 }
}

/// Whether a position is within the bounds of this grid.
pub fn contains(pos: Pos) -> (res: bool)
    ensures
        res == within(pos, WIDTH as int, HEIGHT as int),
{
    lies_within(pos, WIDTH, HEIGHT)
}

/// Every position of this grid that is not on its edge, row by row.
pub fn inner_positions() -> (res: Vec<Pos>)
    ensures
        res@ == super::dense::spec_inner_positions(WIDTH as int, HEIGHT as int),
        res@.len() == (WIDTH - 2) * (HEIGHT - 2),
        forall|row: int, col: int|
            0 <= row < HEIGHT - 2 && 0 <= col < WIDTH - 2 ==> #[trigger] res@[row * (WIDTH - 2)
                + col] == spec_index_to_pos(row + 1, col + 1),
        forall|k: int|
            0 <= k < res@.len() ==> {
                &&& within(#[trigger] res@[k], WIDTH as int, HEIGHT as int)
                &&& 1 <= spec_row(res@[k]) < HEIGHT - 1
                &&& 1 <= spec_col(res@[k]) < WIDTH - 1
            },
{
    inner_positions_of(WIDTH, HEIGHT)
}

/// Every position of this grid, row by row.
pub fn positions() -> (res: Vec<Pos>)
    ensures
        res@.len() == WIDTH * HEIGHT,
        forall|row: int, col: int|
            0 <= row < HEIGHT && 0 <= col < WIDTH ==> #[trigger] res@[row * WIDTH + col]
                == spec_index_to_pos(row, col),
        forall|k: int|
            0 <= k < res@.len() ==> within(#[trigger] res@[k], WIDTH as int, HEIGHT as int),
{
    positions_of(WIDTH, HEIGHT)
}

} // verus!
