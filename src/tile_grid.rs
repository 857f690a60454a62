//! The output grid: a `grid::Grid` of optional tile indices, and what the
//! library relies on from the `grid` crate.
//!
//! The contents of a grid are modelled as its row-major sequence of cells:
//! the cell in row `r` and column `c` is `grid_cells(g)[r * cols + c]`,
//! whatever memory layout the grid uses.
use vstd::prelude::*;
use grid::Grid;

verus! {

#[verifier::external_type_specification]
#[verifier::external_body]
#[verifier::reject_recursive_types(T)]
pub struct ExGrid<T>(grid::Grid<T>);

/// A grid of tile indices; `None` marks an empty cell.
pub type TileGrid = Grid<Option<usize>>;

/// The cells of a grid, row by row.
pub uninterp spec fn grid_cells(g: Grid<Option<usize>>) -> Seq<Option<usize>>;

/// The number of rows of a grid.
pub uninterp spec fn grid_rows(g: Grid<Option<usize>>) -> nat;

/// The number of columns of a grid.
pub uninterp spec fn grid_cols(g: Grid<Option<usize>>) -> nat;

/// The position in `grid_cells` of the cell in row `r` and column `c`.
pub open spec fn cell_index(g: Grid<Option<usize>>, r: int, c: int) -> int {
    r * grid_cols(g) + c
}

/// Whether every cell of `g` is empty.
pub open spec fn is_empty_grid(g: Grid<Option<usize>>) -> bool {
    forall|i: int| 0 <= i < grid_cells(g).len() ==> grid_cells(g)[i].is_none()
}

/// The number of non-empty cells of a sequence of cells.
pub open spec fn filled_count(cells: Seq<Option<usize>>) -> nat
    decreases cells.len(),
{
    if cells.len() == 0 {
        0
    } else {
        filled_count(cells.drop_last()) + if cells.last().is_some() {
            1nat
        } else {
            0nat
        }
    }
}

/// Filling an empty cell adds one to the count of non-empty cells.
pub proof fn lemma_fill_one(cells: Seq<Option<usize>>, i: int, v: usize)
    requires
        0 <= i < cells.len(),
        cells[i].is_none(),
    ensures
        filled_count(cells.update(i, Some(v))) == filled_count(cells) + 1,
    decreases cells.len(),
{
    let s2 = cells.update(i, Some(v));
    if i == cells.len() - 1 {
        assert(s2.drop_last() =~= cells.drop_last());
    } else {
        assert(s2.drop_last() =~= cells.drop_last().update(i, Some(v)));
        lemma_fill_one(cells.drop_last(), i, v);
    }
}

/// A sequence of empty cells has none filled.
pub proof fn lemma_all_empty(cells: Seq<Option<usize>>)
    requires
        forall|i: int| 0 <= i < cells.len() ==> cells[i].is_none(),
    ensures
        filled_count(cells) == 0,
    decreases cells.len(),
{
    if cells.len() > 0 {
        lemma_all_empty(cells.drop_last());
    }
}

/// A sequence of cells is all filled exactly when its count of filled cells
/// is its length.
pub proof fn lemma_filled_bounds(cells: Seq<Option<usize>>)
    ensures
        filled_count(cells) <= cells.len(),
        (forall|i: int| 0 <= i < cells.len() ==> cells[i].is_some()) <==> filled_count(cells)
            == cells.len(),
    decreases cells.len(),
{
    if cells.len() > 0 {
        let d = cells.drop_last();
        lemma_filled_bounds(d);
        if filled_count(cells) == cells.len() {
            assert forall|i: int| 0 <= i < cells.len() implies cells[i].is_some() by {
                if i < cells.len() - 1 {
                    assert(d[i].is_some());
                }
            }
        }
        if forall|i: int| 0 <= i < cells.len() ==> cells[i].is_some() {
            assert forall|i: int| 0 <= i < d.len() implies d[i].is_some() by {
                assert(cells[i].is_some());
            }
        }
    }
}

/// Cells of distinct coordinates inside a grid have distinct positions
/// inside its row-major sequence.
pub proof fn lemma_cell_index(rows: int, cols: int, r: int, c: int, r2: int, c2: int)
    requires
        0 <= r < rows,
        0 <= c < cols,
        0 <= r2 < rows,
        0 <= c2 < cols,
    ensures
        0 <= r * cols + c < rows * cols,
        (r, c) != (r2, c2) ==> r * cols + c != r2 * cols + c2,
{
    assert(0 <= r * cols + c < rows * cols) by (nonlinear_arith)
        requires
            0 <= r < rows,
            0 <= c < cols,
    ;
    if r < r2 {
        assert(r * cols + c < r2 * cols + c2) by (nonlinear_arith)
            requires
                0 <= r < r2,
                0 <= c < cols,
                0 <= c2,
        ;
    } else if r > r2 {
        assert(r * cols + c > r2 * cols + c2) by (nonlinear_arith)
            requires
                0 <= r2 < r,
                0 <= c2 < cols,
                0 <= c,
        ;
    }
}

/// Relies on `grid::Grid::init`: a grid of `rows` by `cols` copies of `None`,
/// with no rows and no columns when either is zero. It panics only when
/// `rows * cols` overflows.
#[verifier::external_body]
pub(crate) fn new_grid(rows: usize, cols: usize) -> (g: TileGrid)
    requires
        rows * cols <= usize::MAX,
    ensures
        rows == 0 || cols == 0 ==> grid_rows(g) == 0 && grid_cols(g) == 0,
        rows > 0 && cols > 0 ==> grid_rows(g) == rows && grid_cols(g) == cols,
        grid_cells(g) == Seq::new((rows * cols) as nat, |i: int| None::<usize>),
{
    Grid::init(rows, cols, None)
}

/// Relies on `grid::Grid::size`: the numbers of rows and columns, whose
/// product is the number of cells.
#[verifier::external_body]
pub(crate) fn grid_size(g: &TileGrid) -> (r: (usize, usize))
    ensures
        r.0 == grid_rows(*g),
        r.1 == grid_cols(*g),
        grid_cells(*g).len() == r.0 * r.1,
        r.0 * r.1 <= usize::MAX,
{
    g.size()
}

/// Relies on indexing a `grid::Grid` by `(row, col)`, which panics out of
/// bounds.
#[verifier::external_body]
pub(crate) fn cell(g: &TileGrid, row: usize, col: usize) -> (r: Option<usize>)
    requires
        row < grid_rows(*g),
        col < grid_cols(*g),
    ensures
        r == grid_cells(*g)[cell_index(*g, row as int, col as int)],
{
    g[(row, col)]
}

/// Relies on mutable indexing of a `grid::Grid` by `(row, col)`, which panics
/// out of bounds; only that cell changes.
#[verifier::external_body]
pub(crate) fn set_cell(g: &mut TileGrid, row: usize, col: usize, value: Option<usize>)
    requires
        row < grid_rows(*old(g)),
        col < grid_cols(*old(g)),
    ensures
        grid_rows(*final(g)) == grid_rows(*old(g)),
        grid_cols(*final(g)) == grid_cols(*old(g)),
        grid_cells(*final(g)) == grid_cells(*old(g)).update(
            cell_index(*old(g), row as int, col as int),
            value,
        ),
{
    g[(row, col)] = value;
}

} // verus!
