use tile_gradient_arranger::arrangement::raster::{self, raster_coords};
use tile_gradient_arranger::arrangement::spiral::{self, ahead, spiral_coords, Direction, SpiralGridCoords};
use tile_gradient_arranger::arrangement::{grid_side, GridCapacityError};
use grid::Grid;

#[test]
fn direction_orientation() {
    assert!(Direction::Left.is_horizontal());
    assert!(Direction::Right.is_horizontal());
    assert!(!Direction::Up.is_horizontal());
    assert!(Direction::Down.is_vertical());
    assert!(!Direction::Right.is_vertical());
}

#[test]
fn direction_turns() {
    assert_eq!(Direction::Down.counter_clockwise(), Direction::Right);
    assert_eq!(Direction::Right.counter_clockwise(), Direction::Up);
    assert_eq!(Direction::Up.counter_clockwise(), Direction::Left);
    assert_eq!(Direction::Left.counter_clockwise(), Direction::Down);
    assert_eq!(Direction::Down.clockwise(), Direction::Left);
    assert_eq!(Direction::Left.clockwise(), Direction::Up);
    assert_eq!(Direction::Up.clockwise(), Direction::Right);
    assert_eq!(Direction::Right.clockwise(), Direction::Down);
}

#[test]
fn ahead_moves_one_step() {
    assert_eq!(ahead((3, 3), Direction::Down), (3, 4));
    assert_eq!(ahead((3, 3), Direction::Right), (4, 3));
    assert_eq!(ahead((3, 3), Direction::Up), (3, 2));
    assert_eq!(ahead((3, 3), Direction::Left), (2, 3));
}

#[test]
fn spiral_walk_from_centre_of_three() {
    let mut walk = SpiralGridCoords::new((1, 1));
    let mut got = Vec::new();
    for _ in 0..9 {
        got.push(walk.get_next());
    }
    assert_eq!(
        got,
        vec![(1, 1), (1, 2), (2, 2), (2, 1), (2, 0), (1, 0), (0, 0), (0, 1), (0, 2)]
    );
    assert_eq!(walk.next(), Some((0, 3)));
}

#[test]
fn spiral_coords_cover_square_grids() {
    for size in 0..7usize {
        let coords = spiral_coords(size, size * size);
        assert_eq!(coords.len(), size * size);
        let mut seen = vec![false; size * size];
        for &(r, c) in &coords {
            assert!(r < size && c < size);
            assert!(!seen[r * size + c]);
            seen[r * size + c] = true;
        }
    }
    let two = spiral_coords(2, 4);
    assert_eq!(two, vec![(0, 0), (0, 1), (1, 1), (1, 0)]);
}

#[test]
fn raster_coords_are_row_major() {
    let coords = raster_coords(2, 3);
    assert_eq!(coords, vec![(0, 0), (0, 1), (0, 2), (1, 0), (1, 1), (1, 2)]);
    let square = raster_coords(4, 4);
    assert_eq!(square.len(), 16);
    for a in 0..16 {
        for b in (a + 1)..16 {
            assert_ne!(square[a], square[b]);
        }
    }
}

#[test]
fn grid_side_is_ceiling_square_root() {
    assert_eq!(grid_side(0), 0);
    assert_eq!(grid_side(1), 1);
    assert_eq!(grid_side(2), 2);
    assert_eq!(grid_side(4), 2);
    assert_eq!(grid_side(5), 3);
    assert_eq!(grid_side(9), 3);
    assert_eq!(grid_side(10), 4);
}

#[test]
fn raster_fills_row_major() {
    let mut g = Grid::<Option<usize>>::init(2, 3, None);
    let r = raster::arrange(&mut g, &vec![5, 4, 3, 2]);
    assert_eq!(r, Ok(()));
    assert_eq!(g[(0, 0)], Some(5));
    assert_eq!(g[(0, 2)], Some(3));
    assert_eq!(g[(1, 0)], Some(2));
    assert_eq!(g[(1, 1)], None);
}

#[test]
fn raster_rejects_too_many_tiles() {
    let mut g = Grid::<Option<usize>>::init(1, 2, None);
    let r = raster::arrange(&mut g, &vec![0, 1, 2]);
    assert_eq!(r, Err(GridCapacityError { tiles: 3, capacity: 2 }));
    assert_eq!(g[(0, 0)], None);
}

#[test]
fn spiral_nine_tiles_on_three_by_three() {
    let mut g = Grid::<Option<usize>>::init(3, 3, None);
    let order: Vec<usize> = vec![20, 21, 22, 23, 24, 25, 26, 27, 28];
    assert_eq!(spiral::arrange(&mut g, &order), Ok(()));
    assert_eq!(g[(1, 1)], Some(20));
    let mut rest = Vec::new();
    for r in 0..3 {
        for c in 0..3 {
            if (r, c) != (1, 1) {
                rest.push(g[(r, c)].unwrap());
            }
        }
    }
    rest.sort();
    assert_eq!(rest, vec![21, 22, 23, 24, 25, 26, 27, 28]);
}

#[test]
fn spiral_fills_even_grid() {
    let mut g = Grid::<Option<usize>>::init(2, 2, None);
    assert_eq!(spiral::arrange(&mut g, &vec![0, 3, 1, 2]), Ok(()));
    assert_eq!(g[(0, 0)], Some(0));
    assert_eq!(g[(0, 1)], Some(3));
    assert_eq!(g[(1, 1)], Some(1));
    assert_eq!(g[(1, 0)], Some(2));
}

#[test]
fn spiral_rejects_too_many_tiles() {
    let mut g = Grid::<Option<usize>>::init(1, 1, None);
    assert_eq!(
        spiral::arrange(&mut g, &vec![0, 1]),
        Err(GridCapacityError { tiles: 2, capacity: 1 })
    );
    assert_eq!(g[(0, 0)], None);
}

#[test]
fn partial_placement_leaves_other_cells_empty() {
    let mut g = Grid::<Option<usize>>::init(3, 3, None);
    assert_eq!(spiral::arrange(&mut g, &vec![1, 2, 3, 4, 5]), Ok(()));
    let filled = g.iter().filter(|c| c.is_some()).count();
    assert_eq!(filled, 5);
}
