//! Raster placement: tiles fill the grid row by row.
use vstd::prelude::*;
use super::GridCapacityError;
use crate::tile_grid::{
    filled_count, grid_cells, grid_cols, grid_rows, grid_size, is_empty_grid, lemma_all_empty,
    lemma_fill_one, set_cell, TileGrid,
};

verus! {

/// The coordinates of a `rows` by `cols` grid in row-major order.
pub fn raster_coords(rows: usize, cols: usize) -> (r: Vec<(usize, usize)>)
    requires
        rows * cols <= usize::MAX,
    ensures
        r.len() == rows * cols,
        forall|k: int|
            0 <= k < r.len() ==> #[trigger] r[k].0 < rows && r[k].1 < cols && r[k].0 * cols
                + r[k].1 == k,
        forall|a: int, b: int| 0 <= a < b < r.len() ==> r[a] != r[b],
{
    let mut out: Vec<(usize, usize)> = Vec::new();
    let mut row: usize = 0;
    while row < rows
        invariant
            row <= rows,
            rows * cols <= usize::MAX,
            out.len() == row * cols,
            forall|k: int|
                0 <= k < out.len() ==> #[trigger] out[k].0 < rows && out[k].1 < cols
                    && out[k].0 * cols + out[k].1 == k,
        decreases rows - row,
    {
        let mut col: usize = 0;
        assert((row + 1) * cols <= rows * cols) by (nonlinear_arith)
            requires
                row < rows,
        ;
        while col < cols
            invariant
                row < rows,
                col <= cols,
                (row + 1) * cols <= rows * cols,
                rows * cols <= usize::MAX,
                out.len() == row * cols + col,
                forall|k: int|
                    0 <= k < out.len() ==> #[trigger] out[k].0 < rows && out[k].1 < cols
                        && out[k].0 * cols + out[k].1 == k,
            decreases cols - col,
        {
            assert(row * cols + col < (row + 1) * cols) by (nonlinear_arith)
                requires
                    col < cols,
            ;
            out.push((row, col));
            col = col + 1;
        }
        assert(row * cols + cols == (row + 1) * cols) by (nonlinear_arith);
        row = row + 1;
    }
    assert forall|a: int, b: int| 0 <= a < b < out.len() implies out[a] != out[b] by {
        assert(out[a].0 * cols + out[a].1 == a);
        assert(out[b].0 * cols + out[b].1 == b);
    }
    out
}

/// Places `build_order[k]` in the `k`-th cell in row-major order. Fails,
/// leaving the grid as it was, when the build order is longer than the grid
/// has cells; the cells after the build order keep their contents.
pub fn arrange(grid: &mut TileGrid, build_order: &Vec<usize>) -> (r: Result<
    (),
    GridCapacityError,
>)
    ensures
        r is Err <==> build_order.len() > grid_cells(*old(grid)).len(),
        r is Err ==> *final(grid) == *old(grid),
        grid_rows(*final(grid)) == grid_rows(*old(grid)),
        grid_cols(*final(grid)) == grid_cols(*old(grid)),
        grid_cells(*final(grid)).len() == grid_cells(*old(grid)).len(),
        r is Ok ==> forall|k: int|
            0 <= k < build_order.len() ==> grid_cells(*final(grid))[k] == Some(
                #[trigger] build_order[k],
            ),
        r is Ok ==> forall|i: int|
            build_order.len() <= i < grid_cells(*old(grid)).len() ==> #[trigger] grid_cells(
                *final(grid),
            )[i] == grid_cells(*old(grid))[i],
        r is Ok && is_empty_grid(*old(grid)) ==> filled_count(grid_cells(*final(grid)))
            == build_order.len(),
{
    let (rows, cols) = grid_size(grid);
    let n = build_order.len();
    if n > rows * cols {
        return Err(GridCapacityError { tiles: n, capacity: rows * cols });
    }
    let coords = raster_coords(rows, cols);
    let ghost start = grid_cells(*grid);
    proof {
        if is_empty_grid(*grid) {
            lemma_all_empty(start);
        }
    }
    let mut k: usize = 0;
    while k < n
        invariant
            k <= n,
            n == build_order.len(),
            n <= rows * cols,
            coords.len() == rows * cols,
            rows == grid_rows(*grid),
            cols == grid_cols(*grid),
            start.len() == rows * cols,
            grid_cells(*grid).len() == rows * cols,
            forall|q: int|
                0 <= q < coords.len() ==> #[trigger] coords[q].0 < rows && coords[q].1 < cols
                    && coords[q].0 * cols + coords[q].1 == q,
            forall|q: int| 0 <= q < k ==> grid_cells(*grid)[q] == Some(#[trigger] build_order[q]),
            forall|i: int| k <= i < rows * cols ==> #[trigger] grid_cells(*grid)[i] == start[i],
            is_empty_grid(*old(grid)) ==> filled_count(grid_cells(*grid)) == k,
            start == grid_cells(*old(grid)),
        decreases n - k,
    {
        let (row, col) = coords[k];
        proof {
            let _ = coords[k as int];
            if is_empty_grid(*old(grid)) {
                lemma_fill_one(grid_cells(*grid), k as int, build_order[k as int]);
            }
        }
        set_cell(grid, row, col, Some(build_order[k]));
        k = k + 1;
    }
    Ok(())
}

} // verus!
