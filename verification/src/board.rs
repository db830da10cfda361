//! Trusted boundary around the `grid` crate: the board is a `grid::Grid` of
//! tile values, and these declarations are all that the verified code assumes
//! of it.

use vstd::prelude::*;

use grid::Grid;

verus! {

#[verifier::external_type_specification]
#[verifier::external_body]
#[verifier::reject_recursive_types(T)]
pub struct ExGrid<T>(Grid<T>);

/// The contents of a grid, row by row, as one flat sequence: the cell at
/// (row, col) sits at index `row * grid_cols(g) + col`.
pub uninterp spec fn grid_seq(g: Grid<usize>) -> Seq<usize>;

/// The number of rows the grid was made with.
pub uninterp spec fn grid_rows(g: Grid<usize>) -> int;

/// The number of columns the grid was made with.
pub uninterp spec fn grid_cols(g: Grid<usize>) -> int;

/// Relies on grid::Grid::new: a rows x cols grid in row-major order, every
/// cell filled with usize::default(), which is 0.
#[verifier::external_body]
pub(crate) fn grid_new(rows: usize, cols: usize) -> (g: Grid<usize>)
    requires
        1 <= rows,
        1 <= cols,
        rows * cols <= usize::MAX,
    ensures
        grid_rows(g) == rows,
        grid_cols(g) == cols,
        grid_seq(g) == Seq::new((rows * cols) as nat, |i: int| 0usize),
{
    Grid::new(rows, cols)
}

/// Relies on grid::Grid::get: Some reference to the value at (row, col)
/// whenever the position is within the grid's bounds.
#[verifier::external_body]
pub(crate) fn grid_get(g: &Grid<usize>, row: usize, col: usize) -> (v: usize)
    requires
        row < grid_rows(*g),
        col < grid_cols(*g),
        grid_seq(*g).len() == grid_rows(*g) * grid_cols(*g),
    ensures
        v == grid_seq(*g)[row * grid_cols(*g) + col],
{
    *g.get(row, col).unwrap()
}

/// Relies on grid::Grid::get_mut: Some mutable reference to the value at
/// (row, col) whenever the position is within the grid's bounds.
#[verifier::external_body]
pub(crate) fn grid_set(g: &mut Grid<usize>, row: usize, col: usize, value: usize)
    requires
        row < grid_rows(*old(g)),
        col < grid_cols(*old(g)),
        grid_seq(*old(g)).len() == grid_rows(*old(g)) * grid_cols(*old(g)),
    ensures
        grid_rows(*final(g)) == grid_rows(*old(g)),
        grid_cols(*final(g)) == grid_cols(*old(g)),
        grid_seq(*final(g)) == grid_seq(*old(g)).update(
            row * grid_cols(*old(g)) + col,
            value,
        ),
{
    *g.get_mut(row, col).unwrap() = value;
}

} // verus!
