//! Best-fit placement: the first tile goes to the centre; each following tile
//! goes to the empty cell on the boundary of the placed shape whose placed
//! neighbours are closest to it in colour.
use vstd::prelude::*;
use super::GridCapacityError;
use crate::graph::SimilarityGraph;
use crate::tile_grid::{
    cell, filled_count, grid_cells, grid_cols, grid_rows, grid_size, is_empty_grid,
    lemma_all_empty, lemma_cell_index, lemma_fill_one, lemma_filled_bounds, set_cell, TileGrid,
};

verus! {

/// Whether two cells are distinct and touch, sides or corners.
pub open spec fn touching(p: (int, int), q: (int, int)) -> bool {
    &&& p != q
    &&& -1 <= p.0 - q.0 <= 1
    &&& -1 <= p.1 - q.1 <= 1
}

pub open spec fn in_grid(rows: int, cols: int, p: (int, int)) -> bool {
    0 <= p.0 < rows && 0 <= p.1 < cols
}

pub open spec fn point(c: (usize, usize)) -> (int, int) {
    (c.0 as int, c.1 as int)
}

/// Whether the cell at `p` holds a tile.
pub open spec fn occupied(cells: Seq<Option<usize>>, cols: int, p: (int, int)) -> bool {
    cells[p.0 * cols + p.1].is_some()
}

/// The cells of a `rows` by `cols` grid that touch `center`, in row-major
/// order.
pub fn neighbors(rows: usize, cols: usize, center: (usize, usize)) -> (r: Vec<(usize, usize)>)
    requires
        center.0 < rows,
        center.1 < cols,
    ensures
        forall|i: int|
            0 <= i < r.len() ==> in_grid(rows as int, cols as int, point(#[trigger] r[i])) && touching(
                point(r[i]),
                point(center),
            ),
        forall|p: (usize, usize)|
            in_grid(rows as int, cols as int, point(p)) && touching(point(p), point(center))
                ==> #[trigger] r@.contains(p),
        forall|i: int, j: int|
            0 <= i < j < r.len() ==> (r[i].0 < r[j].0 || (r[i].0 == r[j].0 && r[i].1 < r[j].1)),
{
    let mut r: Vec<(usize, usize)> = Vec::new();
    let row_start = if center.0 == 0 { 0 } else { center.0 - 1 };
    let row_end = if center.0 + 1 < rows { center.0 + 1 } else { center.0 };
    let col_start = if center.1 == 0 { 0 } else { center.1 - 1 };
    let col_end = if center.1 + 1 < cols { center.1 + 1 } else { center.1 };
    let mut row = row_start;
    while row <= row_end
        invariant
            row_start <= row <= row_end + 1,
            row_end < rows,
            col_end < cols,
            row_start == if center.0 == 0 { 0 } else { center.0 - 1 },
            row_end == if center.0 + 1 < rows { center.0 + 1 } else { center.0 as int },
            col_start == if center.1 == 0 { 0 } else { center.1 - 1 },
            col_end == if center.1 + 1 < cols { center.1 + 1 } else { center.1 as int },
            forall|i: int|
                0 <= i < r.len() ==> in_grid(rows as int, cols as int, point(#[trigger] r[i]))
                    && touching(point(r[i]), point(center)),
            forall|i: int| 0 <= i < r.len() ==> #[trigger] r[i].0 < row,
            forall|p: (usize, usize)|
                in_grid(rows as int, cols as int, point(p)) && touching(point(p), point(center))
                    && p.0 < row ==> #[trigger] r@.contains(p),
            forall|i: int, j: int|
                0 <= i < j < r.len() ==> (r[i].0 < r[j].0 || (r[i].0 == r[j].0 && r[i].1 < r[j].1)),
        decreases row_end + 1 - row,
    {
        let mut col = col_start;
        let ghost before = r@;
        while col <= col_end
            invariant
                row_start <= row <= row_end,
                col_start <= col <= col_end + 1,
                row_end < rows,
                col_end < cols,
                row_start == if center.0 == 0 { 0 } else { center.0 - 1 },
                row_end == if center.0 + 1 < rows { center.0 + 1 } else { center.0 as int },
                col_start == if center.1 == 0 { 0 } else { center.1 - 1 },
                col_end == if center.1 + 1 < cols { center.1 + 1 } else { center.1 as int },
                r.len() >= before.len(),
                forall|i: int| 0 <= i < before.len() ==> r[i] == before[i],
                forall|i: int| 0 <= i < before.len() ==> #[trigger] before[i].0 < row,
                forall|i: int| before.len() <= i < r.len() ==> #[trigger] r[i].0 == row && r[i].1 < col,
                forall|i: int|
                    0 <= i < r.len() ==> in_grid(rows as int, cols as int, point(#[trigger] r[i]))
                        && touching(point(r[i]), point(center)),
                forall|p: (usize, usize)|
                    in_grid(rows as int, cols as int, point(p)) && touching(point(p), point(center))
                        && p.0 < row ==> #[trigger] before.contains(p),
                forall|p: (usize, usize)|
                    in_grid(rows as int, cols as int, point(p)) && touching(point(p), point(center))
                        && (p.0 < row || (p.0 == row && p.1 < col)) ==> #[trigger] r@.contains(p),
                forall|i: int, j: int|
                    0 <= i < j < r.len() ==> (r[i].0 < r[j].0 || (r[i].0 == r[j].0 && r[i].1
                        < r[j].1)),
            decreases col_end + 1 - col,
        {
            if row != center.0 || col != center.1 {
                let ghost prev = r@;
                r.push((row, col));
                proof {
                    assert forall|i: int, j: int| 0 <= i < j < r.len() implies (r[i].0 < r[j].0 || (
                    r[i].0 == r[j].0 && r[i].1 < r[j].1)) by {
                        if j == r.len() - 1 && i < before.len() {
                            assert(before[i].0 < row);
                        }
                    }
                    assert forall|p: (usize, usize)|
                        in_grid(rows as int, cols as int, point(p)) && touching(point(p), point(center))
                            && (p.0 < row || (p.0 == row && p.1 < col + 1)) implies #[trigger] r@.contains(p) by {
                        if p == (row, col) {
                            assert(r@[r.len() - 1] == p);
                        } else {
                            assert(prev.contains(p));
                            let i = choose|i: int| 0 <= i < prev.len() && prev[i] == p;
                            assert(r@[i] == p);
                        }
                    }
                }
            }
            col = col + 1;
        }
        assert forall|i: int| 0 <= i < r.len() implies #[trigger] r[i].0 < row + 1 by {
            if i < before.len() {
                assert(before[i].0 < row);
            }
        }
        row = row + 1;
    }
    r
}

/// Offset `k` (0 to 8) of the 3 by 3 window, in row-major order.
pub open spec fn window_offset(k: int) -> (int, int) {
    (k / 3 - 1, k % 3 - 1)
}

/// What the cell at offset `k` from `at` adds to the fitness of `tile`: the
/// distance to the tile held there, or nothing for `at` itself, a cell
/// outside the grid or an empty cell.
pub open spec fn window_term(
    graph: &SimilarityGraph,
    cells: Seq<Option<usize>>,
    rows: int,
    cols: int,
    at: (int, int),
    tile: int,
    k: int,
) -> int {
    let p = (at.0 + window_offset(k).0, at.1 + window_offset(k).1);
    if p == at || !in_grid(rows, cols, p) {
        0
    } else {
        match cells[p.0 * cols + p.1] {
            Some(t) => graph.weight(tile, t as int) as int,
            None => 0,
        }
    }
}

/// The sum of the first `k` window terms.
pub open spec fn window_sum(
    graph: &SimilarityGraph,
    cells: Seq<Option<usize>>,
    rows: int,
    cols: int,
    at: (int, int),
    tile: int,
    k: int,
) -> int
    decreases k,
{
    if k <= 0 {
        0
    } else {
        window_sum(graph, cells, rows, cols, at, tile, k - 1) + window_term(
            graph,
            cells,
            rows,
            cols,
            at,
            tile,
            k - 1,
        )
    }
}

/// How well `tile` fits at `at`: the summed distance from `tile` to the tiles
/// on the cells touching `at`.
pub open spec fn fitness(
    graph: &SimilarityGraph,
    cells: Seq<Option<usize>>,
    rows: int,
    cols: int,
    at: (int, int),
    tile: int,
) -> int {
    window_sum(graph, cells, rows, cols, at, tile, 9)
}

/// The summed distance from `tile` to the tiles already placed around `at`.
/// Smaller is better.
pub fn neighbor_fitness(grid: &TileGrid, at: (usize, usize), tile: usize, graph: &SimilarityGraph) -> (r: u128)
    requires
        graph.wf(),
        tile < graph.size(),
        at.0 < grid_rows(*grid),
        at.1 < grid_cols(*grid),
        forall|i: int|
            0 <= i < grid_cells(*grid).len() ==> (#[trigger] grid_cells(*grid)[i] matches Some(t)
                ==> t < graph.size()),
    ensures
        r == fitness(
            graph,
            grid_cells(*grid),
            grid_rows(*grid) as int,
            grid_cols(*grid) as int,
            point(at),
            tile as int,
        ),
{
    let (rows, cols) = grid_size(grid);
    let ghost cells = grid_cells(*grid);
    let mut sum: u128 = 0;
    let mut k: usize = 0;
    while k < 9
        invariant
            k <= 9,
            rows == grid_rows(*grid),
            cols == grid_cols(*grid),
            cells == grid_cells(*grid),
            cells.len() == rows * cols,
            at.0 < rows,
            at.1 < cols,
            graph.wf(),
            tile < graph.size(),
            forall|j: int|
                0 <= j < cells.len() ==> (#[trigger] cells[j] matches Some(t) ==> t < graph.size()),
            sum == window_sum(graph, cells, rows as int, cols as int, point(at), tile as int, k as int),
            sum <= k * 0xFFFF_FFFF_FFFF_FFFFu128,
        decreases 9 - k,
    {
        let dr = k / 3;
        let dc = k % 3;
        let row_in = if dr == 0 {
            at.0 >= 1
        } else if dr == 1 {
            true
        } else {
            at.0 + 1 < rows
        };
        let col_in = if dc == 0 {
            at.1 >= 1
        } else if dc == 1 {
            true
        } else {
            at.1 + 1 < cols
        };
        if (dr != 1 || dc != 1) && row_in && col_in {
            let row = if dr == 0 {
                at.0 - 1
            } else if dr == 1 {
                at.0
            } else {
                at.0 + 1
            };
            let col = if dc == 0 {
                at.1 - 1
            } else if dc == 1 {
                at.1
            } else {
                at.1 + 1
            };
            proof {
                lemma_cell_index(rows as int, cols as int, row as int, col as int, 0, 0);
            }
            match cell(grid, row, col) {
                Some(t) => {
                    let w = graph.weight_of(tile, t);
                    sum = sum + w as u128;
                },
                None => {},
            }
        }
        k = k + 1;
    }
    sum
}

/// Whether `v` holds `c`.
fn holds(v: &Vec<(usize, usize)>, c: (usize, usize)) -> (r: bool)
    ensures
        r == v@.contains(c),
{
    let mut i: usize = 0;
    while i < v.len()
        invariant
            i <= v.len(),
            forall|j: int| 0 <= j < i ==> v[j] != c,
        decreases v.len() - i,
    {
        if v[i].0 == c.0 && v[i].1 == c.1 {
            assert(v@[i as int] == c);
            return true;
        }
        i = i + 1;
    }
    false
}

/// The fitness of `tile` at cell `p` of `grid`.
pub open spec fn fitness_in(graph: &SimilarityGraph, grid: TileGrid, p: (usize, usize), tile: int) -> int {
    fitness(graph, grid_cells(grid), grid_rows(grid) as int, grid_cols(grid) as int, point(p), tile)
}

/// The frontier cell where `tile` fits best, the first one among equals.
pub fn best_in_frontier(
    grid: &TileGrid,
    frontier: &Vec<(usize, usize)>,
    tile: usize,
    graph: &SimilarityGraph,
) -> (r: usize)
    requires
        frontier.len() > 0,
        graph.wf(),
        tile < graph.size(),
        forall|j: int|
            0 <= j < frontier.len() ==> in_grid(
                grid_rows(*grid) as int,
                grid_cols(*grid) as int,
                point(#[trigger] frontier[j]),
            ),
        forall|i: int|
            0 <= i < grid_cells(*grid).len() ==> (#[trigger] grid_cells(*grid)[i] matches Some(t)
                ==> t < graph.size()),
    ensures
        r < frontier.len(),
        forall|j: int|
            0 <= j < frontier.len() ==> fitness(
                graph,
                grid_cells(*grid),
                grid_rows(*grid) as int,
                grid_cols(*grid) as int,
                point(frontier[r as int]),
                tile as int,
            ) <= fitness(
                graph,
                grid_cells(*grid),
                grid_rows(*grid) as int,
                grid_cols(*grid) as int,
                point(#[trigger] frontier[j]),
                tile as int,
            ),
        forall|j: int|
            0 <= j < r ==> fitness(
                graph,
                grid_cells(*grid),
                grid_rows(*grid) as int,
                grid_cols(*grid) as int,
                point(frontier[r as int]),
                tile as int,
            ) < fitness(
                graph,
                grid_cells(*grid),
                grid_rows(*grid) as int,
                grid_cols(*grid) as int,
                point(#[trigger] frontier[j]),
                tile as int,
            ),
{
    let mut r: usize = 0;
    let mut best = neighbor_fitness(grid, frontier[0], tile, graph);
    let mut j: usize = 1;
    while j < frontier.len()
        invariant
            1 <= j <= frontier.len(),
            r < j,
            graph.wf(),
            tile < graph.size(),
            forall|q: int|
                0 <= q < frontier.len() ==> in_grid(
                    grid_rows(*grid) as int,
                    grid_cols(*grid) as int,
                    point(#[trigger] frontier[q]),
                ),
            forall|i: int|
                0 <= i < grid_cells(*grid).len() ==> (#[trigger] grid_cells(*grid)[i] matches Some(t)
                    ==> t < graph.size()),
            best == fitness_in(graph, *grid, frontier[r as int], tile as int),
            forall|q: int| 0 <= q < j ==> best <= fitness_in(graph, *grid, #[trigger] frontier[q], tile as int),
            forall|q: int| 0 <= q < r ==> best < fitness_in(graph, *grid, #[trigger] frontier[q], tile as int),
        decreases frontier.len() - j,
    {
        let f = neighbor_fitness(grid, frontier[j], tile, graph);
        if f < best {
            best = f;
            r = j;
        }
        j = j + 1;
    }
    r
}

/// The cell at `p` of a grid with `cols` columns, by coordinates.
pub open spec fn at(cells: Seq<Option<usize>>, cols: int, p: (int, int)) -> Option<usize> {
    cells[p.0 * cols + p.1]
}

/// Whether the cell at `p` touches a filled cell of the grid.
pub open spec fn touches_filled(cells: Seq<Option<usize>>, rows: int, cols: int, p: (int, int)) -> bool {
    exists|q: (int, int)| in_grid(rows, cols, q) && occupied(cells, cols, q) && #[trigger] touching(p, q)
}

/// Every empty cell touching a filled one is on the frontier, and every
/// frontier cell is an empty cell of the grid that touches a filled one,
/// listed once.
pub open spec fn frontier_ok(
    cells: Seq<Option<usize>>,
    rows: int,
    cols: int,
    frontier: Seq<(usize, usize)>,
) -> bool {
    &&& forall|j: int|
        0 <= j < frontier.len() ==> in_grid(rows, cols, point(#[trigger] frontier[j]))
            && !occupied(cells, cols, point(frontier[j])) && touches_filled(cells, rows, cols, point(frontier[j]))
    &&& forall|i: int, j: int| 0 <= i < j < frontier.len() ==> frontier[i] != frontier[j]
    &&& forall|p: (usize, usize), q: (usize, usize)|
        in_grid(rows, cols, point(p)) && in_grid(rows, cols, point(q)) && !occupied(
            cells,
            cols,
            point(p),
        ) && #[trigger] occupied(cells, cols, point(q)) && touching(point(p), point(q))
            ==> #[trigger] frontier.contains(p)
}

/// Between a filled cell `q` and an empty cell `e` there is an empty cell
/// touching a filled one: walk from `q` towards `e`.
proof fn lemma_boundary(cells: Seq<Option<usize>>, rows: int, cols: int, q: (int, int), e: (int, int)) -> (w: (
    (int, int),
    (int, int),
))
    requires
        cells.len() == rows * cols,
        in_grid(rows, cols, q),
        in_grid(rows, cols, e),
        occupied(cells, cols, q),
        !occupied(cells, cols, e),
    ensures
        in_grid(rows, cols, w.0),
        in_grid(rows, cols, w.1),
        !occupied(cells, cols, w.0),
        occupied(cells, cols, w.1),
        touching(w.0, w.1),
    decreases (if e.0 >= q.0 { e.0 - q.0 } else { q.0 - e.0 }) + (if e.1 >= q.1 { e.1 - q.1 } else { q.1 - e.1 }),
{
    let step = (
        if e.0 > q.0 { q.0 + 1 } else if e.0 < q.0 { q.0 - 1 } else { q.0 },
        if e.1 > q.1 { q.1 + 1 } else if e.1 < q.1 { q.1 - 1 } else { q.1 },
    );
    if !occupied(cells, cols, step) {
        (step, q)
    } else {
        lemma_boundary(cells, rows, cols, step, e)
    }
}

/// Best-fit placement. The first tile goes to the centre cell. Each
/// following tile goes to the frontier cell (an empty cell touching a filled
/// one) where it fits best: where the summed distance to the tiles around it
/// is least, the earliest frontier cell among equals. The frontier keeps the
/// order in which cells joined it. Fails, leaving the grid as it was, when
/// the build order is longer than the grid has cells.
#[verifier::rlimit(60)]
pub fn arrange(grid: &mut TileGrid, build_order: &Vec<usize>, graph: &SimilarityGraph) -> (r: Result<
    (),
    GridCapacityError,
>)
    requires
        is_empty_grid(*old(grid)),
        graph.wf(),
        forall|i: int| 0 <= i < build_order.len() ==> #[trigger] build_order[i] < graph.size(),
    ensures
        r is Err <==> build_order.len() > grid_cells(*old(grid)).len(),
        r is Err ==> *final(grid) == *old(grid),
        grid_rows(*final(grid)) == grid_rows(*old(grid)),
        grid_cols(*final(grid)) == grid_cols(*old(grid)),
        grid_cells(*final(grid)).len() == grid_cells(*old(grid)).len(),
        r is Ok ==> filled_count(grid_cells(*final(grid))) == build_order.len(),
        r is Ok && build_order.len() > 0 ==> at(
            grid_cells(*final(grid)),
            grid_cols(*old(grid)) as int,
            ((grid_rows(*old(grid)) / 2) as int, (grid_cols(*old(grid)) / 2) as int),
        ) == Some(build_order[0]),
        r is Ok ==> forall|i: int|
            0 <= i < grid_cells(*final(grid)).len() ==> (#[trigger] grid_cells(*final(grid))[i] matches Some(
                x,
            ) ==> exists|q: int| 0 <= q < build_order.len() && build_order[q] == x),
        r is Ok && build_order@.no_duplicates() ==> forall|i: int, j: int|
            0 <= i < j < grid_cells(*final(grid)).len() && (#[trigger] grid_cells(*final(grid))[i]) is Some
                ==> grid_cells(*final(grid))[i] != #[trigger] grid_cells(*final(grid))[j],
{
    let (rows, cols) = grid_size(grid);
    let n = build_order.len();
    if n > rows * cols {
        return Err(GridCapacityError { tiles: n, capacity: rows * cols });
    }
    proof {
        lemma_all_empty(grid_cells(*grid));
    }
    if n == 0 {
        return Ok(());
    }
    proof {
        assert(rows * cols > 0);
        assert(rows > 0 && cols > 0) by (nonlinear_arith)
            requires
                rows * cols > 0,
        ;
    }
    let center = (rows / 2, cols / 2);
    let ghost cidx = center.0 * cols + center.1;
    proof {
        lemma_cell_index(rows as int, cols as int, center.0 as int, center.1 as int, 0, 0);
        lemma_fill_one(grid_cells(*grid), cidx, build_order[0]);
    }
    set_cell(grid, center.0, center.1, Some(build_order[0]));
    let ghost mut pos: Seq<int> = seq![cidx];
    let mut frontier = neighbors(rows, cols, center);
    proof {
        let cells = grid_cells(*grid);
        assert forall|p: (usize, usize)| in_grid(rows as int, cols as int, point(p)) && p != center implies !occupied(cells, cols as int, point(p)) by {
            lemma_cell_index(rows as int, cols as int, p.0 as int, p.1 as int, center.0 as int, center.1 as int);
        }
        assert forall|p: (usize, usize), q: (usize, usize)|
            in_grid(rows as int, cols as int, point(p)) && in_grid(rows as int, cols as int, point(q)) && !occupied(
                cells,
                cols as int,
                point(p),
            ) && #[trigger] occupied(cells, cols as int, point(q)) && touching(point(p), point(q))
                implies #[trigger] frontier@.contains(p) by {
            if q != center {
                lemma_cell_index(rows as int, cols as int, q.0 as int, q.1 as int, center.0 as int, center.1 as int);
            }
        }
        assert forall|j: int| 0 <= j < frontier.len() implies in_grid(rows as int, cols as int, point(#[trigger] frontier[j]))
            && !occupied(cells, cols as int, point(frontier[j])) && touches_filled(cells, rows as int, cols as int, point(frontier[j])) by {
            lemma_cell_index(rows as int, cols as int, frontier[j].0 as int, frontier[j].1 as int, center.0 as int, center.1 as int);
            assert(touching(point(frontier[j]), point(center)));
        }
        assert forall|i: int, j: int| 0 <= i < j < frontier.len() implies frontier[i] != frontier[j] by {
            assert(frontier[i].0 < frontier[j].0 || (frontier[i].0 == frontier[j].0 && frontier[i].1 < frontier[j].1));
        }
        assert forall|i: int| 0 <= i < cells.len() && (#[trigger] cells[i]) is Some implies exists|q: int|
            0 <= q < 1 && pos[q] == i by {
            assert(i == cidx);
            assert(pos[0] == i);
        }
    }
    let mut t: usize = 1;
    while t < n
        invariant
            1 <= t <= n,
            n == build_order.len(),
            n <= rows * cols,
            rows > 0,
            cols > 0,
            graph.wf(),
            forall|i: int| 0 <= i < build_order.len() ==> #[trigger] build_order[i] < graph.size(),
            rows == grid_rows(*grid),
            cols == grid_cols(*grid),
            rows == grid_rows(*old(grid)),
            cols == grid_cols(*old(grid)),
            grid_cells(*grid).len() == rows * cols,
            grid_cells(*old(grid)).len() == rows * cols,
            center == (rows / 2, cols / 2),
            cidx == center.0 * cols + center.1,
            0 <= cidx < rows * cols,
            filled_count(grid_cells(*grid)) == t,
            frontier_ok(grid_cells(*grid), rows as int, cols as int, frontier@),
            pos.len() == t,
            pos[0] == cidx,
            forall|q: int| 0 <= q < t ==> 0 <= #[trigger] pos[q] < rows * cols && grid_cells(*grid)[pos[q]] == Some(build_order[q]),
            forall|i: int|
                0 <= i < grid_cells(*grid).len() && (#[trigger] grid_cells(*grid)[i]) is Some
                    ==> exists|q: int| 0 <= q < t && pos[q] == i,
        decreases n - t,
    {
        let ghost cells = grid_cells(*grid);
        proof {
            lemma_frontier_nonempty(cells, rows as int, cols as int, frontier@, (center.0 as int, center.1 as int));
            assert forall|i: int| 0 <= i < cells.len() implies (#[trigger] cells[i] matches Some(x) ==> x < graph.size()) by {
                if cells[i] is Some {
                    let q = choose|q: int| 0 <= q < t && pos[q] == i;
                    assert(cells[pos[q]] == Some(build_order[q]));
                }
            }
        }
        let tile = build_order[t];
        let x = place_next(grid, &mut frontier, tile, graph);
        let ghost xidx = x.0 * cols + x.1;
        proof {
            lemma_cell_index(rows as int, cols as int, x.0 as int, x.1 as int, 0, 0);
            lemma_placed_step(cells, grid_cells(*grid), pos, xidx, build_order@, t as int);
            lemma_fill_one(cells, xidx, tile);
            pos = pos.push(xidx);
        }
        t = t + 1;
    }
    proof {
        lemma_placed_result(grid_cells(*grid), pos, build_order@);
    }
    Ok(())
}

/// With room left in the grid and a filled centre, the frontier is not
/// empty.
proof fn lemma_frontier_nonempty(
    cells: Seq<Option<usize>>,
    rows: int,
    cols: int,
    frontier: Seq<(usize, usize)>,
    center: (int, int),
)
    requires
        0 < rows <= usize::MAX,
        0 < cols <= usize::MAX,
        cells.len() == rows * cols,
        filled_count(cells) < cells.len(),
        in_grid(rows, cols, center),
        occupied(cells, cols, center),
        frontier_ok(cells, rows, cols, frontier),
    ensures
        frontier.len() > 0,
{
    lemma_filled_bounds(cells);
    let e = choose|i: int| 0 <= i < cells.len() && !cells[i].is_some();
    let er = e / cols;
    let ec = e % cols;
    assert(0 <= er < rows && 0 <= ec < cols && er * cols + ec == e) by (nonlinear_arith)
        requires
            0 <= e < rows * cols,
            cols > 0,
            er == e / cols,
            ec == e % cols,
    ;
    let w = lemma_boundary(cells, rows, cols, center, (er, ec));
    let p = (w.0.0 as usize, w.0.1 as usize);
    let q = (w.1.0 as usize, w.1.1 as usize);
    assert(point(p) == w.0 && point(q) == w.1);
    assert(occupied(cells, cols, point(q)));
    assert(frontier.contains(p));
}

/// Places `tile` on the frontier cell where it fits best, takes that cell off
/// the frontier and adds its empty neighbours that are not on it yet.
/// Returns the cell, one where `tile` fits at least as well as at any other
/// frontier cell.
pub fn place_next(
    grid: &mut TileGrid,
    frontier: &mut Vec<(usize, usize)>,
    tile: usize,
    graph: &SimilarityGraph,
) -> (x: (usize, usize))
    requires
        old(frontier).len() > 0,
        graph.wf(),
        tile < graph.size(),
        grid_rows(*old(grid)) > 0,
        grid_cols(*old(grid)) > 0,
        grid_cells(*old(grid)).len() == grid_rows(*old(grid)) * grid_cols(*old(grid)),
        frontier_ok(
            grid_cells(*old(grid)),
            grid_rows(*old(grid)) as int,
            grid_cols(*old(grid)) as int,
            old(frontier)@,
        ),
        forall|i: int|
            0 <= i < grid_cells(*old(grid)).len() ==> (#[trigger] grid_cells(*old(grid))[i] matches Some(t)
                ==> t < graph.size()),
    ensures
        grid_rows(*final(grid)) == grid_rows(*old(grid)),
        grid_cols(*final(grid)) == grid_cols(*old(grid)),
        in_grid(grid_rows(*old(grid)) as int, grid_cols(*old(grid)) as int, point(x)),
        old(frontier)@.contains(x),
        forall|j: int|
            0 <= j < old(frontier).len() ==> fitness_in(graph, *old(grid), x, tile as int) <= fitness_in(
                graph,
                *old(grid),
                #[trigger] old(frontier)[j],
                tile as int,
            ),
        grid_cells(*old(grid))[x.0 * grid_cols(*old(grid)) + x.1].is_none(),
        touches_filled(
            grid_cells(*old(grid)),
            grid_rows(*old(grid)) as int,
            grid_cols(*old(grid)) as int,
            point(x),
        ),
        grid_cells(*final(grid)) == grid_cells(*old(grid)).update(
            x.0 * grid_cols(*old(grid)) + x.1,
            Some(tile),
        ),
        frontier_ok(
            grid_cells(*final(grid)),
            grid_rows(*old(grid)) as int,
            grid_cols(*old(grid)) as int,
            final(frontier)@,
        ),
{
    let (rows, cols) = grid_size(grid);
    let b = best_in_frontier(grid, frontier, tile, graph);
    let ghost cells = grid_cells(*grid);
    let ghost before_remove = frontier@;
    let x = frontier.remove(b);
    let ghost xidx = x.0 * cols + x.1;
    proof {
        assert(before_remove[b as int] == x);
        lemma_cell_index(rows as int, cols as int, x.0 as int, x.1 as int, 0, 0);
    }
    set_cell(grid, x.0, x.1, Some(tile));
    proof {
        let new_cells = grid_cells(*grid);
        assert forall|i: int| 0 <= i < frontier.len() implies in_grid(rows as int, cols as int, point(#[trigger] frontier[i]))
            && !occupied(new_cells, cols as int, point(frontier[i])) && touches_filled(new_cells, rows as int, cols as int, point(frontier[i])) by {
            let k = if i < b { i } else { i + 1 };
            assert(frontier[i] == before_remove[k]);
            assert(k != b);
            lemma_cell_index(rows as int, cols as int, frontier[i].0 as int, frontier[i].1 as int, x.0 as int, x.1 as int);
            lemma_still_touches(cells, new_cells, rows as int, cols as int, point(frontier[i]), point(x), tile);
        }
        assert forall|i: int, k: int| 0 <= i < k < frontier.len() implies frontier[i] != frontier[k] by {
            let i2 = if i < b { i } else { i + 1 };
            let k2 = if k < b { k } else { k + 1 };
            assert(frontier[i] == before_remove[i2] && frontier[k] == before_remove[k2]);
        }
    }
    let around = neighbors(rows, cols, x);
    let ghost removed = frontier@;
    let mut j: usize = 0;
    while j < around.len()
        invariant
            j <= around.len(),
            rows == grid_rows(*grid),
            cols == grid_cols(*grid),
            grid_cells(*grid).len() == rows * cols,
            x.0 < rows && x.1 < cols,
            forall|i: int|
                0 <= i < around.len() ==> in_grid(rows as int, cols as int, point(#[trigger] around[i])) && touching(
                    point(around[i]),
                    point(x),
                ),
            forall|i: int|
                0 <= i < frontier.len() ==> in_grid(rows as int, cols as int, point(#[trigger] frontier[i]))
                    && !occupied(grid_cells(*grid), cols as int, point(frontier[i]))
                    && touches_filled(grid_cells(*grid), rows as int, cols as int, point(frontier[i])),
            occupied(grid_cells(*grid), cols as int, point(x)),
            forall|i: int, k: int| 0 <= i < k < frontier.len() ==> frontier[i] != frontier[k],
            forall|c: (usize, usize)| #[trigger] removed.contains(c) ==> frontier@.contains(c),
            forall|i: int|
                0 <= i < j && !occupied(grid_cells(*grid), cols as int, point(#[trigger] around[i]))
                    ==> frontier@.contains(around[i]),
        decreases around.len() - j,
    {
        let nb = around[j];
        proof {
            lemma_cell_index(rows as int, cols as int, nb.0 as int, nb.1 as int, 0, 0);
        }
        if cell(grid, nb.0, nb.1).is_none() && !holds(frontier, nb) {
            let ghost prev = frontier@;
            frontier.push(nb);
            proof {
                assert(frontier@[frontier.len() - 1] == nb);
                assert(touching(point(nb), point(x)));
                assert(touches_filled(grid_cells(*grid), rows as int, cols as int, point(nb)));
                assert forall|c: (usize, usize)| #[trigger] prev.contains(c) implies frontier@.contains(c) by {
                    let i = choose|i: int| 0 <= i < prev.len() && prev[i] == c;
                    assert(frontier@[i] == c);
                }
                assert forall|c: (usize, usize)| #[trigger] removed.contains(c) implies frontier@.contains(c) by {
                    assert(prev.contains(c));
                }
            }
        }
        j = j + 1;
    }
    proof {
        assert(before_remove.contains(x));
        lemma_amalgamate_step(
            cells,
            grid_cells(*grid),
            rows as int,
            cols as int,
            before_remove,
            removed,
            frontier@,
            x,
            around@,
            b as int,
            tile,
        );
    }
    x
}

/// Filling a cell keeps every cell that touched a filled cell touching one.
proof fn lemma_still_touches(
    cells: Seq<Option<usize>>,
    new_cells: Seq<Option<usize>>,
    rows: int,
    cols: int,
    p: (int, int),
    x: (int, int),
    tile: usize,
)
    requires
        cells.len() == rows * cols,
        in_grid(rows, cols, x),
        new_cells == cells.update(x.0 * cols + x.1, Some(tile)),
        touches_filled(cells, rows, cols, p),
    ensures
        touches_filled(new_cells, rows, cols, p),
{
    let q = choose|q: (int, int)| in_grid(rows, cols, q) && occupied(cells, cols, q) && #[trigger] touching(p, q);
    lemma_cell_index(rows, cols, q.0, q.1, x.0, x.1);
    lemma_cell_index(rows, cols, x.0, x.1, q.0, q.1);
    assert(occupied(new_cells, cols, q));
}

/// Recording the tile placed at `xidx` keeps every filled cell accounted for.
proof fn lemma_placed_step(
    cells: Seq<Option<usize>>,
    new_cells: Seq<Option<usize>>,
    pos: Seq<int>,
    xidx: int,
    order: Seq<usize>,
    t: int,
)
    requires
        0 <= t < order.len(),
        pos.len() == t,
        0 <= xidx < cells.len(),
        cells[xidx].is_none(),
        new_cells == cells.update(xidx, Some(order[t])),
        forall|q: int| 0 <= q < t ==> 0 <= #[trigger] pos[q] < cells.len() && cells[pos[q]] == Some(order[q]),
        forall|i: int|
            0 <= i < cells.len() && (#[trigger] cells[i]) is Some ==> exists|q: int| 0 <= q < t && pos[q] == i,
    ensures
        forall|q: int|
            0 <= q < t + 1 ==> 0 <= #[trigger] pos.push(xidx)[q] < cells.len() && new_cells[pos.push(xidx)[q]]
                == Some(order[q]),
        forall|i: int|
            0 <= i < new_cells.len() && (#[trigger] new_cells[i]) is Some ==> exists|q: int|
                0 <= q < t + 1 && pos.push(xidx)[q] == i,
{
    let p2 = pos.push(xidx);
    assert forall|q: int| 0 <= q < t + 1 implies 0 <= #[trigger] p2[q] < cells.len() && new_cells[p2[q]] == Some(order[q]) by {
        if q < t {
            assert(p2[q] == pos[q]);
            assert(cells[pos[q]] is Some);
        }
    }
    assert forall|i: int|
        0 <= i < new_cells.len() && (#[trigger] new_cells[i]) is Some implies exists|q: int|
            0 <= q < t + 1 && p2[q] == i by {
        if i == xidx {
            assert(p2[t] == i);
        } else {
            assert(cells[i] == new_cells[i]);
            let q = choose|q: int| 0 <= q < t && pos[q] == i;
            assert(p2[q] == i);
        }
    }
}

/// Every filled cell holds a tile of the order; with no repeated tiles in the
/// order, no two cells hold the same tile.
proof fn lemma_placed_result(cells: Seq<Option<usize>>, pos: Seq<int>, order: Seq<usize>)
    requires
        pos.len() == order.len(),
        forall|q: int| 0 <= q < order.len() ==> 0 <= #[trigger] pos[q] < cells.len() && cells[pos[q]] == Some(order[q]),
        forall|i: int|
            0 <= i < cells.len() && (#[trigger] cells[i]) is Some ==> exists|q: int| 0 <= q < order.len() && pos[q] == i,
    ensures
        forall|i: int|
            0 <= i < cells.len() ==> (#[trigger] cells[i] matches Some(x) ==> exists|q: int|
                0 <= q < order.len() && order[q] == x),
        order.no_duplicates() ==> forall|i: int, j: int|
            0 <= i < j < cells.len() && (#[trigger] cells[i]) is Some ==> cells[i] != #[trigger] cells[j],
{
    assert forall|i: int| 0 <= i < cells.len() implies (#[trigger] cells[i] matches Some(x)
        ==> exists|q: int| 0 <= q < order.len() && order[q] == x) by {
        if cells[i] is Some {
            let q = choose|q: int| 0 <= q < order.len() && pos[q] == i;
            assert(cells[pos[q]] == Some(order[q]));
        }
    }
    if order.no_duplicates() {
        assert forall|i: int, j: int|
            0 <= i < j < cells.len() && (#[trigger] cells[i]) is Some implies cells[i] != #[trigger] cells[j] by {
            if cells[i] == cells[j] {
                let q1 = choose|q: int| 0 <= q < order.len() && pos[q] == i;
                let q2 = choose|q: int| 0 <= q < order.len() && pos[q] == j;
                assert(cells[pos[q1]] == Some(order[q1]));
                assert(cells[pos[q2]] == Some(order[q2]));
            }
        }
    }
}

/// Filling frontier cell `x` and adding its empty neighbours keeps the
/// frontier complete.
proof fn lemma_amalgamate_step(
    cells: Seq<Option<usize>>,
    new_cells: Seq<Option<usize>>,
    rows: int,
    cols: int,
    before: Seq<(usize, usize)>,
    removed: Seq<(usize, usize)>,
    after: Seq<(usize, usize)>,
    x: (usize, usize),
    around: Seq<(usize, usize)>,
    b: int,
    tile: usize,
)
    requires
        rows > 0,
        cols > 0,
        cells.len() == rows * cols,
        frontier_ok(cells, rows, cols, before),
        0 <= b < before.len(),
        x == before[b],
        removed == before.remove(b),
        new_cells == cells.update(x.0 * cols + x.1, Some(tile)),
        forall|p: (usize, usize)|
            in_grid(rows, cols, point(p)) && touching(point(p), point(x)) ==> #[trigger] around.contains(p),
        forall|i: int|
            0 <= i < after.len() ==> in_grid(rows, cols, point(#[trigger] after[i]))
                && !occupied(new_cells, cols, point(after[i])) && touches_filled(new_cells, rows, cols, point(after[i])),
        forall|i: int, k: int| 0 <= i < k < after.len() ==> after[i] != after[k],
        forall|c: (usize, usize)| #[trigger] removed.contains(c) ==> after.contains(c),
        forall|i: int|
            0 <= i < around.len() && !occupied(new_cells, cols, point(#[trigger] around[i]))
                ==> after.contains(around[i]),
    ensures
        frontier_ok(new_cells, rows, cols, after),
{
    assert(in_grid(rows, cols, point(x)));
    lemma_cell_index(rows, cols, x.0 as int, x.1 as int, 0, 0);
    assert forall|p: (usize, usize), q: (usize, usize)|
        in_grid(rows, cols, point(p)) && in_grid(rows, cols, point(q)) && !occupied(
            new_cells,
            cols,
            point(p),
        ) && #[trigger] occupied(new_cells, cols, point(q)) && touching(point(p), point(q))
            implies #[trigger] after.contains(p) by {
        lemma_cell_index(rows, cols, p.0 as int, p.1 as int, x.0 as int, x.1 as int);
        lemma_cell_index(rows, cols, q.0 as int, q.1 as int, x.0 as int, x.1 as int);
        if q == x {
            assert(around.contains(p));
            let i = choose|i: int| 0 <= i < around.len() && around[i] == p;
            assert(!occupied(new_cells, cols, point(around[i])));
        } else {
            assert(p != x);
            assert(occupied(cells, cols, point(q)));
            assert(!occupied(cells, cols, point(p)));
            assert(before.contains(p));
            let j = choose|j: int| 0 <= j < before.len() && before[j] == p;
            assert(j != b);
            if j < b {
                assert(removed[j] == p);
            } else {
                assert(removed[j - 1] == p);
            }
            assert(removed.contains(p));
        }
    }
}

} // verus!
