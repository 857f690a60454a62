//! Placement of a build order onto a grid.
use vstd::prelude::*;
use crate::cli::ArrangementStrategy;
use crate::graph::{build_graph, SimilarityGraph};
use crate::tile_grid::{filled_count, grid_cells, grid_cols, grid_rows, is_empty_grid, new_grid, TileGrid};
use crate::traversal::{is_permutation, traverse, TraversalOrder};

pub mod amalgamate;
pub mod raster;
pub mod spiral;

verus! {

/// The build order holds more tiles than the grid has cells.
#[derive(Clone, Copy, Debug, PartialEq, Eq, Structural)]
pub struct GridCapacityError {
    pub tiles: usize,
    pub capacity: usize,
}

/// Cells that each hold the tile of a distinct place `f(i)` of a
/// permutation hold distinct tiles below its length.
proof fn lemma_distinct_tiles(
    cells: Seq<Option<usize>>,
    order: Seq<usize>,
    f: spec_fn(int) -> int,
    g: spec_fn(int) -> int,
)
    requires
        is_permutation(order, order.len()),
        forall|i: int|
            0 <= i < cells.len() && (#[trigger] cells[i]) is Some ==> 0 <= f(i) < order.len()
                && cells[i] == Some(order[f(i)]) && g(f(i)) == i,
    ensures
        forall|i: int|
            0 <= i < cells.len() ==> (#[trigger] cells[i] matches Some(t) ==> t < order.len()),
        forall|i: int, j: int|
            0 <= i < j < cells.len() && (#[trigger] cells[i]) is Some ==> cells[i] != #[trigger] cells[j],
{
    assert forall|i: int, j: int|
        0 <= i < j < cells.len() && (#[trigger] cells[i]) is Some implies cells[i] != #[trigger] cells[j] by {
        if cells[i] == cells[j] {
            assert(cells[j] is Some);
            assert(order[f(i)] == order[f(j)]);
            if f(i) < f(j) {
                assert(order[f(i)] != order[f(j)]);
            } else if f(j) < f(i) {
                assert(order[f(j)] != order[f(i)]);
            }
        }
    }
}

/// The side of the smallest square grid with room for `n` tiles.
pub fn grid_side(n: usize) -> (s: usize)
    requires
        n <= usize::MAX / 3,
    ensures
        s * s >= n,
        s == 0 || (s - 1) * (s - 1) < n,
        s * s <= usize::MAX,
{
    let mut s: usize = 0;
    while s * s < n
        invariant
            n <= usize::MAX / 3,
            s == 0 || (s - 1) * (s - 1) < n,
            s * s < 3 * n || s == 0,
            s <= n,
        decreases n - s,
    {
        assert((s + 1) * (s + 1) < 3 * n && s + 1 <= n) by (nonlinear_arith)
            requires
                s * s < n,
                n <= usize::MAX / 3,
        ;
        s = s + 1;
    }
    s
}

/// Arranges the tiles of a complete similarity graph on a square grid just
/// large enough for them: the graph is reduced to its minimum spanning tree,
/// the tree is linearised from its most connected node, and the build order
/// is laid out with `strategy`. Every tile lands in exactly one cell; the
/// other cells stay empty.
pub fn arrange_images(
    graph: &SimilarityGraph,
    strategy: ArrangementStrategy,
    order: TraversalOrder,
) -> (g: TileGrid)
    requires
        graph.wf(),
        graph.size() <= usize::MAX / 3,
    ensures
        grid_rows(g) == grid_cols(g),
        grid_rows(g) * grid_rows(g) >= graph.size(),
        grid_rows(g) == 0 || (grid_rows(g) - 1) * (grid_rows(g) - 1) < graph.size(),
        grid_cells(g).len() == grid_rows(g) * grid_cols(g),
        filled_count(grid_cells(g)) == graph.size(),
        forall|i: int|
            0 <= i < grid_cells(g).len() ==> (#[trigger] grid_cells(g)[i] matches Some(t) ==> t
                < graph.size()),
        forall|i: int, j: int|
            0 <= i < j < grid_cells(g).len() && (#[trigger] grid_cells(g)[i]) is Some ==> grid_cells(
                g,
            )[i] != #[trigger] grid_cells(g)[j],
{
    let n = graph.node_count();
    let tree = build_graph(graph);
    let build_order = traverse(&tree, order);
    let side = grid_side(n);
    let mut grid = new_grid(side, side);
    let ghost start = grid_cells(grid);
    proof {
        if side == 0 {
            assert(n == 0) by (nonlinear_arith)
                requires
                    side * side >= n,
                    side == 0,
            ;
        }
        assert(is_empty_grid(grid));
        assert(forall|c: int| 0 <= c < start.len() ==> start[c].is_none());
        assert(build_order@.no_duplicates());
    }
    match strategy {
        ArrangementStrategy::Raster => {
            let _ = raster::arrange(&mut grid, &build_order);
            proof {
                let cells = grid_cells(grid);
                assert forall|i: int| 0 <= i < cells.len() && (#[trigger] cells[i]) is Some implies i < n
                    && cells[i] == Some(build_order@[i]) by {
                    if i >= n {
                        assert(cells[i] == start[i]);
                    }
                }
                lemma_distinct_tiles(cells, build_order@, |i: int| i, |i: int| i);
            }
        },
        ArrangementStrategy::Spiral => {
            let _ = spiral::arrange(&mut grid, &build_order);
            proof {
                let cells = grid_cells(grid);
                assert(cells == spiral::spiral_fill(start, side as nat, build_order@, n as nat));
                let f = |i: int| choose|q: int| 0 <= q < n && spiral::spiral_cell(side as nat, q as nat) == i && cells[i] == Some(build_order@[q]);
                assert forall|i: int| 0 <= i < cells.len() && (#[trigger] cells[i]) is Some implies 0 <= f(i) < n
                    && cells[i] == Some(build_order@[f(i)]) && spiral::spiral_cell(side as nat, f(i) as nat) == i by {
                    spiral::lemma_spiral_fill_cells(start, side as nat, build_order@, n as nat, i);
                    let q = choose|q: nat| q < n && spiral::spiral_cell(side as nat, q) == i && cells[i] == Some(build_order@[q as int]);
                    assert(0 <= q as int && q < n && spiral::spiral_cell(side as nat, q as int as nat) == i);
                }
                lemma_distinct_tiles(cells, build_order@, f, |q: int| spiral::spiral_cell(side as nat, q as nat));
            }
        },
        ArrangementStrategy::Amalgamate => {
            let _ = amalgamate::arrange(&mut grid, &build_order, graph);
            proof {
                let cells = grid_cells(grid);
                assert forall|i: int|
                    0 <= i < cells.len() implies (#[trigger] cells[i] matches Some(t) ==> t < n) by {
                    if cells[i] is Some {
                        let q = choose|q: int| 0 <= q < build_order.len() && build_order[q] == cells[i]->0;
                        assert(build_order@[q] < n);
                    }
                }
            }
        },
    }
    grid
}

} // verus!
