use tile_gradient_arranger::arrangement::amalgamate::{self, neighbor_fitness, neighbors};
use tile_gradient_arranger::arrangement::arrange_images;
use tile_gradient_arranger::cli::{ArrangementStrategy, Cli};
use tile_gradient_arranger::colors::{
    average_color, get_primary_color, k_means, largest_group, nearest, seed_centroids,
    update_centroids, Color, ColorError, ImageColor,
};
use tile_gradient_arranger::graph::{build_graph, SimilarityGraph, SpanningTree};
use grid::Grid;
use tile_gradient_arranger::traversal::{most_popular, traverse, TraversalOrder};

fn table_graph(table: Vec<Vec<u64>>) -> SimilarityGraph {
    let n = table.len();
    SimilarityGraph::complete(n, move |a: usize, b: usize| table[a][b])
}

fn sample_table() -> Vec<Vec<u64>> {
    vec![
        vec![0, 1, 4, 3],
        vec![1, 0, 2, 5],
        vec![4, 2, 0, 6],
        vec![3, 5, 6, 0],
    ]
}

fn col(l: i32, a: i32, b: i32) -> Color {
    Color { l, a, b }
}

#[test]
fn complete_graph_is_symmetric() {
    let g = table_graph(sample_table());
    assert_eq!(g.node_count(), 4);
    assert_eq!(g.weight_of(1, 2), 2);
    assert_eq!(g.weight_of(2, 1), 2);
    assert_eq!(g.weight_of(3, 3), 0);
}

#[test]
fn complete_graph_asks_each_pair_once() {
    let calls = std::cell::Cell::new(0usize);
    let g = SimilarityGraph::complete(5, |a: usize, b: usize| {
        calls.set(calls.get() + 1);
        (a * 10 + b) as u64
    });
    assert_eq!(calls.get(), 10);
    assert_eq!(g.weight_of(4, 1), 14);
}

#[test]
fn prim_tree_of_sample() {
    let g = table_graph(sample_table());
    let t = build_graph(&g);
    assert_eq!(t.node_count, 4);
    assert_eq!(t.edges, vec![(0, 1), (1, 2), (0, 3)]);
}

#[test]
fn tree_of_one_and_of_none() {
    let one = build_graph(&table_graph(vec![vec![0]]));
    assert_eq!(one.node_count, 1);
    assert!(one.edges.is_empty());
    let none = build_graph(&table_graph(vec![]));
    assert_eq!(none.node_count, 0);
    assert!(none.edges.is_empty());
}

#[test]
fn tree_has_n_minus_one_edges_and_connects() {
    let n = 7usize;
    let g = SimilarityGraph::complete(n, |a: usize, b: usize| ((a * 7 + b * 3) % 5) as u64);
    let t = build_graph(&g);
    assert_eq!(t.edges.len(), n - 1);
    let mut reached = vec![false; n];
    reached[0] = true;
    for &(p, v) in &t.edges {
        assert!(reached[p]);
        assert!(!reached[v]);
        reached[v] = true;
    }
    assert!(reached.iter().all(|r| *r));
}

#[test]
fn most_popular_takes_lowest_among_equals() {
    let t = build_graph(&table_graph(sample_table()));
    assert_eq!(most_popular(&t), 0);
    let path = SpanningTree { node_count: 3, edges: vec![(0, 2), (2, 1)] };
    assert_eq!(most_popular(&path), 2);
}

#[test]
fn depth_first_order_of_sample() {
    let t = build_graph(&table_graph(sample_table()));
    assert_eq!(traverse(&t, TraversalOrder::DepthFirst), vec![0, 3, 1, 2]);
}

#[test]
fn breadth_first_order_of_sample() {
    let t = build_graph(&table_graph(sample_table()));
    assert_eq!(traverse(&t, TraversalOrder::BreadthFirst), vec![0, 1, 3, 2]);
}

#[test]
fn traversal_is_a_permutation() {
    let n = 9usize;
    let g = SimilarityGraph::complete(n, |a: usize, b: usize| ((a * 5 + b * 11) % 7) as u64);
    let t = build_graph(&g);
    for order in [TraversalOrder::DepthFirst, TraversalOrder::BreadthFirst] {
        let mut v = traverse(&t, order);
        v.sort();
        assert_eq!(v, (0..n).collect::<Vec<_>>());
    }
}

#[test]
fn average_of_uniform_tile() {
    let c = col(5321, -1200, 4400);
    assert_eq!(average_color(&vec![c; 50]), Ok(c));
}

#[test]
fn average_rounds_toward_zero() {
    assert_eq!(average_color(&vec![col(0, 0, 0), col(3, -3, 5)]), Ok(col(1, -1, 2)));
}

#[test]
fn average_of_nothing() {
    assert_eq!(average_color(&vec![]), Err(ColorError::NoPixels));
}

fn l_distance(a: Color, b: Color) -> u64 {
    let d = (a.l as i64 - b.l as i64).abs() as u64;
    d * d
}

#[test]
fn k_means_below_two_is_average() {
    let pixels = vec![col(0, 0, 0), col(2, 4, 6), col(10, 2, -4)];
    assert_eq!(k_means(&pixels, 1, &l_distance), average_color(&pixels));
    assert_eq!(k_means(&pixels, 0, &l_distance), average_color(&pixels));
}

#[test]
fn k_means_picks_largest_cluster() {
    let pixels = vec![col(0, 0, 0), col(2, 0, 0), col(4, 0, 0), col(100, 0, 0), col(102, 0, 0)];
    assert_eq!(k_means(&pixels, 2, &l_distance), Ok(col(2, 0, 0)));
}

#[test]
fn k_means_of_nothing() {
    assert_eq!(k_means(&vec![], 3, &l_distance), Err(ColorError::NoPixels));
}

#[test]
fn k_means_with_more_clusters_than_colours() {
    let pixels = vec![col(7, 7, 7), col(7, 7, 7)];
    assert_eq!(k_means(&pixels, 5, &l_distance), Ok(col(7, 7, 7)));
}

#[test]
fn primary_color_pairs_tile() {
    let pixels = vec![col(10, 20, 30); 4];
    assert_eq!(
        get_primary_color(3, &pixels, 1, &l_distance),
        Ok(ImageColor { image: 3, color: col(10, 20, 30) })
    );
}

#[test]
fn seeds_at_fixed_stride() {
    let pixels: Vec<Color> = (0..6).map(|i| col(i, 0, 0)).collect();
    assert_eq!(seed_centroids(&pixels, 3), vec![col(0, 0, 0), col(2, 0, 0), col(4, 0, 0)]);
    let few = vec![col(1, 0, 0), col(2, 0, 0)];
    assert_eq!(seed_centroids(&few, 3), few);
}

#[test]
fn nearest_and_largest_tie_breaks() {
    assert_eq!(nearest(&vec![5, 3, 3, 9]), 1);
    assert_eq!(largest_group(&vec![2, 4, 4, 1]), 2);
}

#[test]
fn update_keeps_empty_cluster_centroid() {
    let colors = vec![col(0, 0, 0), col(10, 10, 10)];
    let r = update_centroids(&colors, &vec![1, 1], &vec![col(5, 5, 5), col(7, 7, 7)]);
    assert_eq!(r, Ok((vec![col(5, 5, 5), col(5, 5, 5)], vec![0, 2])));
}

#[test]
fn neighbors_are_clipped_at_edges() {
    assert_eq!(neighbors(3, 3, (0, 0)), vec![(0, 1), (1, 0), (1, 1)]);
    assert_eq!(neighbors(3, 3, (1, 1)).len(), 8);
}

fn three_tiles() -> SimilarityGraph {
    table_graph(vec![vec![0, 1, 10], vec![1, 0, 1], vec![10, 1, 0]])
}

#[test]
fn amalgamate_places_by_fitness() {
    let graph = three_tiles();
    let mut g = Grid::<Option<usize>>::init(3, 3, None);
    assert_eq!(amalgamate::arrange(&mut g, &vec![0, 1, 2], &graph), Ok(()));
    assert_eq!(g[(1, 1)], Some(0));
    assert_eq!(g[(0, 0)], Some(1));
    assert_eq!(g[(0, 2)], Some(2));
    assert_eq!(neighbor_fitness(&g, (0, 1), 2, &graph), 11);
    assert_eq!(g.iter().filter(|c| c.is_some()).count(), 3);
}

#[test]
fn amalgamate_rejects_too_many_tiles() {
    let graph = three_tiles();
    let mut g = Grid::<Option<usize>>::init(1, 2, None);
    assert!(amalgamate::arrange(&mut g, &vec![0, 1, 2], &graph).is_err());
}

#[test]
fn single_tile_fills_one_by_one_grid() {
    let graph = table_graph(vec![vec![0]]);
    for strategy in [ArrangementStrategy::Raster, ArrangementStrategy::Spiral, ArrangementStrategy::Amalgamate] {
        let g = arrange_images(&graph, strategy, TraversalOrder::DepthFirst);
        assert_eq!(g.size(), (1, 1));
        assert_eq!(g[(0, 0)], Some(0));
    }
}

#[test]
fn no_tiles_give_empty_grid() {
    let graph = table_graph(vec![]);
    let g = arrange_images(&graph, ArrangementStrategy::Raster, TraversalOrder::BreadthFirst);
    assert_eq!(g.size(), (0, 0));
}

#[test]
fn every_strategy_places_every_tile_once() {
    let n = 5usize;
    let graph = SimilarityGraph::complete(n, |a: usize, b: usize| ((a + 2 * b) % 4) as u64);
    for strategy in [ArrangementStrategy::Raster, ArrangementStrategy::Spiral, ArrangementStrategy::Amalgamate] {
        for order in [TraversalOrder::DepthFirst, TraversalOrder::BreadthFirst] {
            let g = arrange_images(&graph, strategy, order);
            assert_eq!(g.size(), (3, 3));
            let mut tiles: Vec<usize> = g.iter().filter_map(|c| *c).collect();
            tiles.sort();
            assert_eq!(tiles, vec![0, 1, 2, 3, 4]);
        }
    }
}

#[test]
fn raster_end_to_end_on_sample() {
    let g = arrange_images(&table_graph(sample_table()), ArrangementStrategy::Raster, TraversalOrder::BreadthFirst);
    assert_eq!(g[(0, 0)], Some(0));
    assert_eq!(g[(0, 1)], Some(1));
    assert_eq!(g[(1, 0)], Some(3));
    assert_eq!(g[(1, 1)], Some(2));
}

#[test]
fn similar_pairs_sit_side_by_side() {
    // Tiles 0 and 1 are near-red, tiles 2 and 3 near-blue; every relabelling
    // of the input is tried.
    let hue = [0usize, 0, 1, 1];
    let mut perms = Vec::new();
    for a in 0..4usize {
        for b in 0..4usize {
            for c in 0..4usize {
                for d in 0..4usize {
                    let p = vec![a, b, c, d];
                    let mut s = p.clone();
                    s.sort();
                    if s == vec![0, 1, 2, 3] {
                        perms.push(p);
                    }
                }
            }
        }
    }
    let mut same = (0usize, 0usize);
    let mut opposite = (0usize, 0usize);
    for perm in &perms {
        // perm[i] is the original tile shown as input tile i.
        let table: Vec<Vec<u64>> = (0..4)
            .map(|i| {
                (0..4)
                    .map(|j| {
                        if i == j {
                            0
                        } else if hue[perm[i]] == hue[perm[j]] {
                            1
                        } else {
                            100
                        }
                    })
                    .collect()
            })
            .collect();
        for order in [TraversalOrder::DepthFirst, TraversalOrder::BreadthFirst] {
            let g = arrange_images(&table_graph(table.clone()), ArrangementStrategy::Raster, order);
            let mut at = [(0usize, 0usize); 4];
            for r in 0..2 {
                for c in 0..2 {
                    at[g[(r, c)].unwrap()] = (r, c);
                }
            }
            for i in 0..4 {
                for j in (i + 1)..4 {
                    let (ri, ci) = at[i];
                    let (rj, cj) = at[j];
                    let side = (ri == rj) != (ci == cj);
                    if order == TraversalOrder::BreadthFirst {
                        let slot = if hue[perm[i]] == hue[perm[j]] { &mut same } else { &mut opposite };
                        slot.0 += 1;
                        if side {
                            slot.1 += 1;
                        }
                    }
                    assert!(ri.abs_diff(rj) <= 1 && ci.abs_diff(cj) <= 1);
                }
            }
        }
    }
    // Breadth-first, same-hue pairs share a side more often than opposite-hue
    // pairs.
    assert!(same.1 * opposite.0 > opposite.1 * same.0);
}

#[test]
fn settings_are_checked() {
    let mut cli = Cli {
        input: String::from("tiles"),
        output: String::from("mosaic.png"),
        k_means: 3,
        tile_width: 100,
        tile_height: 100,
        arrangement_strategy: ArrangementStrategy::Spiral,
        traversal: TraversalOrder::DepthFirst,
    };
    assert!(cli.is_valid());
    cli.k_means = 0;
    assert!(!cli.is_valid());
}
