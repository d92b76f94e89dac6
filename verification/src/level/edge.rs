//! The edge of a grid is in one piece.

use crate::grid::dense::{spec_col, spec_index_to_pos, spec_row, within, MAX_SIDE};
use crate::grid::Pos;
use crate::predicate::{
    connected, lemma_connected_self, lemma_connected_step, lemma_connected_symmetric,
    lemma_connected_transitive,
};
use vstd::prelude::*;

verus! {

/// Whether row `row` and column `col` meet on the edge of a grid of `width`
/// columns and `height` rows.
pub open spec fn on_edge(row: int, col: int, width: int, height: int) -> bool {
    &&& 0 <= row < height
    &&& 0 <= col < width
    &&& (row == 0 || row == height - 1 || col == 0 || col == width - 1)
}

/// Whether `rule` holds all along the edge of the grid.
pub open spec fn holds_on_edge(rule: spec_fn(Pos) -> bool, width: int, height: int) -> bool {
    forall|row: int, col: int|
        on_edge(row, col, width, height) ==> rule(#[trigger] spec_index_to_pos(row, col))
}

/// Along the first row everything is joined to the corner.
proof fn lemma_top(rule: spec_fn(Pos) -> bool, width: int, height: int, col: int)
    requires
        1 <= width <= MAX_SIDE,
        1 <= height <= MAX_SIDE,
        holds_on_edge(rule, width, height),
        0 <= col < width,
    ensures
        connected(rule, spec_index_to_pos(0, 0), spec_index_to_pos(0, col)),
    decreases col,
{
    assert(on_edge(0, col, width, height));
    if col == 0 {
        lemma_connected_self(rule, spec_index_to_pos(0, 0));
    } else {
        lemma_top(rule, width, height, col - 1);
        lemma_connected_step(
            rule,
            spec_index_to_pos(0, 0),
            spec_index_to_pos(0, col - 1),
            spec_index_to_pos(0, col),
        );
    }
}

/// Along the first column everything is joined to the corner.
proof fn lemma_left(rule: spec_fn(Pos) -> bool, width: int, height: int, row: int)
    requires
        1 <= width <= MAX_SIDE,
        1 <= height <= MAX_SIDE,
        holds_on_edge(rule, width, height),
        0 <= row < height,
    ensures
        connected(rule, spec_index_to_pos(0, 0), spec_index_to_pos(row, 0)),
    decreases row,
{
    assert(on_edge(row, 0, width, height));
    if row == 0 {
        lemma_connected_self(rule, spec_index_to_pos(0, 0));
    } else {
        lemma_left(rule, width, height, row - 1);
        lemma_connected_step(
            rule,
            spec_index_to_pos(0, 0),
            spec_index_to_pos(row - 1, 0),
            spec_index_to_pos(row, 0),
        );
    }
}

/// Along the last row everything is joined to the corner.
proof fn lemma_bottom(rule: spec_fn(Pos) -> bool, width: int, height: int, col: int)
    requires
        1 <= width <= MAX_SIDE,
        1 <= height <= MAX_SIDE,
        holds_on_edge(rule, width, height),
        0 <= col < width,
    ensures
        connected(rule, spec_index_to_pos(0, 0), spec_index_to_pos(height - 1, col)),
    decreases col,
{
    assert(on_edge(height - 1, col, width, height));
    if col == 0 {
        lemma_left(rule, width, height, height - 1);
    } else {
        lemma_bottom(rule, width, height, col - 1);
        lemma_connected_step(
            rule,
            spec_index_to_pos(0, 0),
            spec_index_to_pos(height - 1, col - 1),
            spec_index_to_pos(height - 1, col),
        );
    }
}

/// Along the last column everything is joined to the corner.
proof fn lemma_right(rule: spec_fn(Pos) -> bool, width: int, height: int, row: int)
    requires
        1 <= width <= MAX_SIDE,
        1 <= height <= MAX_SIDE,
        holds_on_edge(rule, width, height),
        0 <= row < height,
    ensures
        connected(rule, spec_index_to_pos(0, 0), spec_index_to_pos(row, width - 1)),
    decreases row,
{
    assert(on_edge(row, width - 1, width, height));
    if row == 0 {
        lemma_top(rule, width, height, width - 1);
    } else {
        lemma_right(rule, width, height, row - 1);
        lemma_connected_step(
            rule,
            spec_index_to_pos(0, 0),
            spec_index_to_pos(row - 1, width - 1),
            spec_index_to_pos(row, width - 1),
        );
    }
}

/// Where a rule holds all along the edge of a grid, every position on the
/// edge is joined to the corner.
pub proof fn lemma_edge_joined(
    rule: spec_fn(Pos) -> bool,
    width: int,
    height: int,
    row: int,
    col: int,
)
    requires
        1 <= width <= MAX_SIDE,
        1 <= height <= MAX_SIDE,
        holds_on_edge(rule, width, height),
        on_edge(row, col, width, height),
    ensures
        connected(rule, spec_index_to_pos(0, 0), spec_index_to_pos(row, col)),
{
    if row == 0 {
        lemma_top(rule, width, height, col);
    } else if row == height - 1 {
        lemma_bottom(rule, width, height, col);
    } else if col == 0 {
        lemma_left(rule, width, height, row);
    } else {
        lemma_right(rule, width, height, row);
    }
}

/// Where a rule holds all along the edge of a grid of three columns and two
/// rows or more, a set that holds everything that is joined to a position on
/// the edge has six members or more.
pub proof fn lemma_edge_is_long(
    rule: spec_fn(Pos) -> bool,
    width: int,
    height: int,
    from: Pos,
    edge: Pos,
    joined: Set<Pos>,
)
    requires
        3 <= width <= MAX_SIDE,
        2 <= height <= MAX_SIDE,
        holds_on_edge(rule, width, height),
        within(edge, width, height),
        on_edge(spec_row(edge), spec_col(edge), width, height),
        connected(rule, from, edge),
        joined.finite(),
        forall|p: Pos| connected(rule, from, p) ==> #[trigger] joined.contains(p),
    ensures
        joined.len() >= 6,
{
    let corner = spec_index_to_pos(0, 0);
    lemma_edge_joined(rule, width, height, spec_row(edge), spec_col(edge));
    assert(spec_index_to_pos(spec_row(edge), spec_col(edge)) == edge);
    lemma_connected_symmetric(rule, corner, edge);
    lemma_connected_transitive(rule, from, edge, corner);
    let a = spec_index_to_pos(0, 0);
    let b = spec_index_to_pos(0, 1);
    let c = spec_index_to_pos(0, 2);
    let d = spec_index_to_pos(height - 1, 0);
    let e = spec_index_to_pos(height - 1, 1);
    let f = spec_index_to_pos(height - 1, 2);
    lemma_edge_joined(rule, width, height, 0, 0);
    lemma_edge_joined(rule, width, height, 0, 1);
    lemma_edge_joined(rule, width, height, 0, 2);
    lemma_edge_joined(rule, width, height, height - 1, 0);
    lemma_edge_joined(rule, width, height, height - 1, 1);
    lemma_edge_joined(rule, width, height, height - 1, 2);
    lemma_connected_transitive(rule, from, corner, a);
    lemma_connected_transitive(rule, from, corner, b);
    lemma_connected_transitive(rule, from, corner, c);
    lemma_connected_transitive(rule, from, corner, d);
    lemma_connected_transitive(rule, from, corner, e);
    lemma_connected_transitive(rule, from, corner, f);
    let six = Set::<Pos>::empty().insert(a).insert(b).insert(c).insert(d).insert(e).insert(f);
    assert(six.len() == 6);
    assert(six.subset_of(joined));
    vstd::set_lib::lemma_len_subset(six, joined);
}

} // verus!
