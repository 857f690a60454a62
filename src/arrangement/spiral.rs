//! Square-spiral enumeration of grid coordinates.
//!
//! Starting from an origin, the walk goes one step down, one right, two up,
//! two left, three down, three right, and so on: the side length grows after
//! every horizontal side. Coordinates are `(first, second)` pairs; "down"
//! increases the second component and "right" the first.
use vstd::prelude::*;
use super::GridCapacityError;
use crate::tile_grid::{
    filled_count, grid_cells, grid_cols, grid_rows, grid_size, is_empty_grid, lemma_all_empty,
    lemma_cell_index, lemma_fill_one, set_cell, TileGrid,
};

verus! {

/// One of the four directions of the walk.
#[derive(Clone, Copy, Debug, PartialEq, Eq, Structural)]
pub enum Direction {
    Down,
    Right,
    Up,
    Left,
}

impl Direction {
    /// The unit step taken in this direction.
    pub open spec fn delta(self) -> (int, int) {
        match self {
            Direction::Down => (0, 1),
            Direction::Right => (1, 0),
            Direction::Up => (0, -1),
            Direction::Left => (-1, 0),
        }
    }

    pub open spec fn spec_is_horizontal(self) -> bool {
        self == Direction::Left || self == Direction::Right
    }

    pub open spec fn spec_counter_clockwise(self) -> Direction {
        match self {
            Direction::Down => Direction::Right,
            Direction::Right => Direction::Up,
            Direction::Up => Direction::Left,
            Direction::Left => Direction::Down,
        }
    }

    pub fn is_horizontal(&self) -> (r: bool)
        ensures
            r == self.spec_is_horizontal(),
    {
        *self == Direction::Left || *self == Direction::Right
    }

    pub fn is_vertical(&self) -> (r: bool)
        ensures
            r == !self.spec_is_horizontal(),
    {
        !self.is_horizontal()
    }

    pub fn clockwise(&self) -> (r: Direction)
        ensures
            r == match *self {
                Direction::Down => Direction::Left,
                Direction::Left => Direction::Up,
                Direction::Up => Direction::Right,
                Direction::Right => Direction::Down,
            },
            r.spec_counter_clockwise() == *self,
    {
        match self {
            Direction::Down => Direction::Left,
            Direction::Left => Direction::Up,
            Direction::Up => Direction::Right,
            Direction::Right => Direction::Down,
        }
    }

    pub fn counter_clockwise(&self) -> (r: Direction)
        ensures
            r == self.spec_counter_clockwise(),
    {
        match self {
            Direction::Down => Direction::Right,
            Direction::Right => Direction::Up,
            Direction::Up => Direction::Left,
            Direction::Left => Direction::Down,
        }
    }
}

/// `p` moved by the offset `d`.
pub open spec fn shifted(p: (int, int), d: (int, int)) -> (int, int) {
    (p.0 + d.0, p.1 + d.1)
}

/// Whether the integer point `p` is a pair of `usize` values.
pub open spec fn fits_usize(p: (int, int)) -> bool {
    0 <= p.0 <= usize::MAX && 0 <= p.1 <= usize::MAX
}

pub open spec fn as_point(c: (usize, usize)) -> (int, int) {
    (c.0 as int, c.1 as int)
}

/// Whether one step in `direction` from `index` stays within `usize`.
pub open spec fn can_step(index: (usize, usize), direction: Direction) -> bool {
    fits_usize(shifted(as_point(index), direction.delta()))
}

/// The coordinate one step ahead of `index` in `direction`.
pub fn ahead(index: (usize, usize), direction: Direction) -> (r: (usize, usize))
    requires
        can_step(index, direction),
    ensures
        as_point(r) == shifted(as_point(index), direction.delta()),
{
    match direction {
        Direction::Down => (index.0, index.1 + 1),
        Direction::Right => (index.0 + 1, index.1),
        Direction::Up => (index.0, index.1 - 1),
        Direction::Left => (index.0 - 1, index.1),
    }
}

// ---------------------------------------------------------------------------
// The closed form of the walk.
//
// Output 0 is the origin. The outputs from 1 on fall into rings: ring `j`
// holds the outputs `4j² - 2j + 1 ..= 4j² + 6j + 2`, which are, in order,
// the last `2j` steps up (along the first component `j`), `2j` steps left
// (along the second component `-j`), `2j + 1` steps down (along `-j`) and
// `2j + 1` steps right (along `j + 1`).
// ---------------------------------------------------------------------------

/// The first output of ring `j`.
pub open spec fn ring_first(j: int) -> int {
    4 * (j * j) - 2 * j + 1
}

/// The last output of ring `j`.
pub open spec fn ring_last(j: int) -> int {
    4 * (j * j) + 6 * j + 2
}

/// The ring of output `k >= 1`, searched from ring `j` on.
pub open spec fn ring_from(k: int, j: nat) -> nat
    decreases k - j,
{
    if k > ring_last(j as int) && k > j {
        ring_from(k, j + 1)
    } else {
        j
    }
}

/// The offset, from the origin, of output `k` when it lies in ring `j`.
pub open spec fn ring_offset(k: int, j: int) -> (int, int) {
    if k <= 4 * (j * j) {
        (j, 4 * (j * j) - j - k)
    } else if k <= 4 * (j * j) + 2 * j {
        (4 * (j * j) + j - k, -j)
    } else if k <= 4 * (j * j) + 4 * j + 1 {
        (-j, k - 4 * (j * j) - 3 * j)
    } else {
        (k - 4 * (j * j) - 5 * j - 1, j + 1)
    }
}

/// The offset from the origin of the `k`-th coordinate of the walk.
pub open spec fn spiral_offset(k: nat) -> (int, int) {
    if k == 0 {
        (0, 0)
    } else {
        ring_offset(k as int, ring_from(k as int, 0) as int)
    }
}

/// The position of an offset in the walk: the inverse of `spiral_offset`.
pub open spec fn spiral_rank(p: (int, int)) -> int {
    let (x, y) = p;
    if x == 0 && y == 0 {
        0
    } else if x <= 0 && x + 1 <= y && y <= 1 - x {
        4 * (x * x) - 3 * x + y
    } else if y >= 1 && 2 - y <= x && x <= y {
        4 * ((y - 1) * (y - 1)) + 5 * (y - 1) + 1 + x
    } else if x >= 1 && -x <= y && y <= x - 1 {
        4 * (x * x) - x - y
    } else {
        4 * (y * y) - y - x
    }
}

proof fn lemma_ring_order(i: int, j: int)
    requires
        0 <= i < j,
    ensures
        ring_last(i) < ring_first(j),
{
    assert(ring_last(i) < ring_first(j)) by (nonlinear_arith)
        requires
            0 <= i < j,
    ;
}

proof fn lemma_ring_from_bounds(k: int, j: nat)
    requires
        k >= 1,
        ring_first(j as int) <= k,
    ensures
        ring_first(ring_from(k, j) as int) <= k <= ring_last(ring_from(k, j) as int),
    decreases k - j,
{
    if k > ring_last(j as int) && k > j {
        let i = j as int;
        assert(4 * ((i + 1) * (i + 1)) - 2 * (i + 1) + 1 == 4 * (i * i) + 6 * i + 3) by (nonlinear_arith);
        lemma_ring_from_bounds(k, j + 1);
    } else if k <= j {
        assert(ring_last(j as int) >= j) by (nonlinear_arith)
            requires
                j >= 0,
        ;
    }
}

/// A ring is determined by any of its outputs.
proof fn lemma_ring_unique(k: int, j: int)
    requires
        j >= 0,
        ring_first(j) <= k <= ring_last(j),
    ensures
        ring_from(k, 0) == j,
        spiral_offset(k as nat) == ring_offset(k, j),
{
    assert(ring_first(j) >= 1) by (nonlinear_arith)
        requires
            j >= 0,
    ;
    assert(ring_first(0) <= k);
    lemma_ring_from_bounds(k, 0);
    let r = ring_from(k, 0) as int;
    if r < j {
        lemma_ring_order(r, j);
    } else if r > j {
        lemma_ring_order(j, r);
    }
}

proof fn lemma_rank_of_offset(k: nat)
    ensures
        spiral_rank(spiral_offset(k)) == k,
{
    if k > 0 {
        assert(ring_first(0) <= k);
        lemma_ring_from_bounds(k as int, 0);
        let j = ring_from(k as int, 0) as int;
        let p = ring_offset(k as int, j);
        assert(-j * -j == j * j) by (nonlinear_arith);
        assert((j + 1 - 1) * (j + 1 - 1) == j * j);
        if k <= 4 * (j * j) {
            assert(j >= 1) by (nonlinear_arith)
                requires
                    ring_first(j) <= k <= 4 * (j * j),
                    j >= 0,
            ;
        }
    }
}

/// Distinct positions of the walk have distinct offsets.
pub proof fn lemma_spiral_offsets_distinct(a: nat, b: nat)
    requires
        a != b,
    ensures
        spiral_offset(a) != spiral_offset(b),
{
    lemma_rank_of_offset(a);
    lemma_rank_of_offset(b);
}

/// The least offset, per component, of the first `s * s` coordinates.
pub open spec fn square_low(s: nat) -> int {
    -(((s as int) - 1) / 2)
}

/// The greatest offset, per component, of the first `s * s` coordinates.
pub open spec fn square_high(s: nat) -> int {
    (s as int) / 2
}

/// The first `s * s` coordinates of the walk stay within a square of side `s`:
/// each component of their offsets lies in `square_low(s) ..= square_high(s)`.
pub proof fn lemma_spiral_offset_in_square(k: nat, s: nat)
    requires
        k < s * s,
    ensures
        square_low(s) <= spiral_offset(k).0 <= square_high(s),
        square_low(s) <= spiral_offset(k).1 <= square_high(s),
{
    let m = (s as int) / 2;
    assert(s >= 1) by (nonlinear_arith)
        requires
            k < s * s,
    ;
    if k > 0 {
        assert(ring_first(0) <= k);
        lemma_ring_from_bounds(k as int, 0);
        let j = ring_from(k as int, 0) as int;
        let jj = j * j;
        let mm = m * m;
        let ki = k as int;
        assert(4 * jj - 2 * j + 1 <= ki <= 4 * jj + 6 * j + 2);
        let p = spiral_offset(k);
        assert(p == ring_offset(ki, j));
        assert(-j <= p.0 <= j + 1 && -j <= p.1 <= j + 1);
        assert(ki <= 4 * jj ==> p.0 == j && -j <= p.1 <= j - 1);
        assert(ki <= 4 * jj + 4 * j ==> p.0 <= j && p.1 <= j);
        assert(ki < 4 * jj ==> p.1 >= -j + 1);
        if s % 2 == 1 {
            assert(ki < 4 * mm + 4 * m + 1) by (nonlinear_arith)
                requires
                    ki < s * s,
                    s == 2 * m + 1,
                    mm == m * m,
            ;
            assert(j <= m) by (nonlinear_arith)
                requires
                    4 * jj - 2 * j + 1 <= ki,
                    ki < 4 * mm + 4 * m + 1,
                    jj == j * j,
                    mm == m * m,
                    j >= 0,
                    m >= 0,
            ;
            assert(square_low(s) == -m && square_high(s) == m);
            if j == m {
                assert(jj == mm);
            }
        } else {
            assert(ki < 4 * mm) by (nonlinear_arith)
                requires
                    ki < s * s,
                    s == 2 * m,
                    mm == m * m,
            ;
            assert(j <= m) by (nonlinear_arith)
                requires
                    4 * jj - 2 * j + 1 <= ki,
                    ki < 4 * mm,
                    jj == j * j,
                    mm == m * m,
                    j >= 0,
                    m >= 0,
            ;
            assert(square_low(s) == -(m - 1) && square_high(s) == m);
            if j == m {
                assert(jj == mm);
            }
        }
    }
}

// ---------------------------------------------------------------------------
// The walk as a state machine.
//
// A started walk is at offset `form_offset(d, l, u)` from its origin after
// `form_emitted(d, l, u)` coordinates, where `d` is the direction, `l` the
// side length and `u` the steps taken along the current side.
// ---------------------------------------------------------------------------

spec fn form_wf(d: Direction, l: int, u: int) -> bool {
    if l == 0 {
        u == 0 && d == Direction::Down
    } else {
        &&& 0 <= u < l
        &&& (d == Direction::Down || d == Direction::Right) <==> l % 2 == 1
    }
}

spec fn form_offset(d: Direction, l: int, u: int) -> (int, int) {
    let j = l / 2;
    if l == 0 {
        (0, 0)
    } else {
        match d {
            Direction::Down => (-j, -j + u),
            Direction::Right => (-j + u, j + 1),
            Direction::Up => (j, j - u),
            Direction::Left => (j - u, -j),
        }
    }
}

spec fn form_emitted(d: Direction, l: int, u: int) -> int {
    let j = l / 2;
    if l == 0 {
        0
    } else {
        match d {
            Direction::Down => 4 * (j * j) + 2 * j + 1 + u,
            Direction::Right => 4 * (j * j) + 4 * j + 2 + u,
            Direction::Up => 4 * (j * j) - 2 * j + 1 + u,
            Direction::Left => 4 * (j * j) + 1 + u,
        }
    }
}

/// The direction, side length and progress after one step of a started walk.
spec fn form_step(d: Direction, l: int, u: int) -> (Direction, int, int) {
    if u + 1 == l {
        (d.spec_counter_clockwise(), if d.spec_is_horizontal() { l + 1 } else { l }, 0)
    } else {
        (d, l, u + 1)
    }
}

proof fn lemma_form_current(d: Direction, l: int, u: int)
    requires
        form_wf(d, l, u),
        l > 0,
    ensures
        form_emitted(d, l, u) >= 1,
        form_offset(d, l, u) == spiral_offset((form_emitted(d, l, u) - 1) as nat),
{
    let j = l / 2;
    assert(j * j >= 0) by (nonlinear_arith);
    assert(j * j >= j) by (nonlinear_arith)
        requires
            j >= 0,
    ;
    let k = form_emitted(d, l, u) - 1;
    match d {
        Direction::Down => {
            if j == 0 && u == 0 {
            } else {
                lemma_ring_unique(k, j);
            }
        },
        Direction::Right => {
            lemma_ring_unique(k, j);
        },
        Direction::Up => {
            if u == 0 {
                assert(ring_last(j - 1) == 4 * (j * j) - 2 * j) by (nonlinear_arith);
                assert(ring_first(j - 1) <= 4 * (j * j) - 2 * j) by (nonlinear_arith)
                    requires
                        j >= 1,
                ;
                lemma_ring_unique(k, j - 1);
                assert((j - 1) * (j - 1) == j * j - 2 * j + 1) by (nonlinear_arith);
            } else {
                lemma_ring_unique(k, j);
            }
        },
        Direction::Left => {
            lemma_ring_unique(k, j);
        },
    }
}

proof fn lemma_form_step(d: Direction, l: int, u: int)
    requires
        form_wf(d, l, u),
        l > 0,
    ensures
        ({
            let (d2, l2, u2) = form_step(d, l, u);
            &&& form_wf(d2, l2, u2)
            &&& l2 > 0
            &&& l2 <= l + 1
            &&& form_emitted(d2, l2, u2) == form_emitted(d, l, u) + 1
            &&& form_offset(d2, l2, u2) == shifted(form_offset(d, l, u), d.delta())
            &&& form_offset(d2, l2, u2) == spiral_offset(form_emitted(d, l, u) as nat)
        }),
{
    let j = l / 2;
    let (d2, l2, u2) = form_step(d, l, u);
    assert((j + 1) * (j + 1) == j * j + 2 * j + 1) by (nonlinear_arith);
    if u + 1 == l && d == Direction::Right {
        assert(l2 / 2 == j + 1);
    }
    assert(form_wf(d2, l2, u2));
    assert(form_emitted(d2, l2, u2) == form_emitted(d, l, u) + 1);
    lemma_form_current(d2, l2, u2);
}

/// Walks the square spiral from a starting coordinate, one coordinate per call
/// of [`SpiralGridCoords::get_next`].
pub struct SpiralGridCoords {
    current_coords: (usize, usize),
    current_direction: Direction,
    until_side_length: usize,
    current_side_length: usize,
}

impl SpiralGridCoords {
    /// Whether the fields describe a reachable state of the walk.
    pub closed spec fn wf(self) -> bool {
        form_wf(
            self.current_direction,
            self.current_side_length as int,
            self.until_side_length as int,
        )
    }

    /// How many coordinates the walk has handed out.
    pub closed spec fn emitted(self) -> nat {
        form_emitted(
            self.current_direction,
            self.current_side_length as int,
            self.until_side_length as int,
        ) as nat
    }

    /// The coordinate that the walk started from.
    pub closed spec fn origin(self) -> (int, int) {
        let o = form_offset(
            self.current_direction,
            self.current_side_length as int,
            self.until_side_length as int,
        );
        (self.current_coords.0 - o.0, self.current_coords.1 - o.1)
    }

    /// The coordinate that the next call hands out.
    pub open spec fn next_point(self) -> (int, int) {
        shifted(self.origin(), spiral_offset(self.emitted()))
    }

    /// Starts a walk at `start_coords`.
    pub fn new(start_coords: (usize, usize)) -> (r: Self)
        ensures
            r.wf(),
            r.origin() == as_point(start_coords),
            r.emitted() == 0,
    {
        Self {
            current_coords: start_coords,
            current_direction: Direction::Down,
            until_side_length: 0,
            current_side_length: 0,
        }
    }

    /// Hands out the next coordinate of the walk.
    pub fn get_next(&mut self) -> (r: (usize, usize))
        requires
            old(self).wf(),
            fits_usize(old(self).next_point()),
            old(self).emitted() < usize::MAX,
        ensures
            final(self).wf(),
            final(self).origin() == old(self).origin(),
            final(self).emitted() == old(self).emitted() + 1,
            as_point(r) == old(self).next_point(),
    {
        if self.current_side_length == 0 {
            self.current_side_length = 1;
            return self.current_coords;
        }
        let ghost d = self.current_direction;
        let ghost l = self.current_side_length as int;
        let ghost u = self.until_side_length as int;
        proof {
            lemma_form_step(d, l, u);
            lemma_form_current(d, l, u);
            let j = l / 2;
            assert(l < usize::MAX) by (nonlinear_arith)
                requires
                    l == 2 * j + 1 || l == 2 * j,
                    form_emitted(d, l, u) < usize::MAX,
                    form_emitted(d, l, u) >= 4 * (j * j) - 2 * j + 1,
                    j >= 0,
            ;
        }
        self.current_coords = ahead(self.current_coords, self.current_direction);
        self.until_side_length = self.until_side_length + 1;
        if self.until_side_length == self.current_side_length {
            self.until_side_length = 0;
            if self.current_direction.is_horizontal() {
                self.current_side_length = self.current_side_length + 1;
            }
            self.current_direction = self.current_direction.counter_clockwise();
        }
        assert((self.current_direction, self.current_side_length as int, self.until_side_length
            as int) == form_step(d, l, u));
        self.current_coords
    }

    /// Hands out the next coordinate of the walk; the walk never ends.
    pub fn next(&mut self) -> (r: Option<(usize, usize)>)
        requires
            old(self).wf(),
            fits_usize(old(self).next_point()),
            old(self).emitted() < usize::MAX,
        ensures
            final(self).wf(),
            final(self).origin() == old(self).origin(),
            final(self).emitted() == old(self).emitted() + 1,
            r matches Some(c) && as_point(c) == old(self).next_point(),
    {
        Some(self.get_next())
    }
}

// ---------------------------------------------------------------------------
// The walk over a square grid.
// ---------------------------------------------------------------------------

/// The centre of a `size` by `size` grid; for an even size, the upper left of
/// the four central cells, so that the first `size * size` coordinates of the
/// walk cover the grid.
pub open spec fn spiral_start(size: nat) -> (int, int) {
    (((size as int) - 1) / 2, ((size as int) - 1) / 2)
}

/// The `k`-th coordinate of the walk over a `size` by `size` grid.
pub open spec fn spiral_point(size: nat, k: nat) -> (int, int) {
    shifted(spiral_start(size), spiral_offset(k))
}

/// The position, in row-major order, of the `k`-th cell of the walk over a
/// `size` by `size` grid.
pub open spec fn spiral_cell(size: nat, k: nat) -> int {
    spiral_point(size, k).0 * size + spiral_point(size, k).1
}

/// The first `size * size` coordinates of the walk over a `size` by `size`
/// grid are inside the grid and pairwise distinct.
pub proof fn lemma_spiral_covers_square(size: nat, a: nat, b: nat)
    requires
        a < size * size,
        b < size * size,
    ensures
        0 <= spiral_point(size, a).0 < size,
        0 <= spiral_point(size, a).1 < size,
        a != b ==> spiral_point(size, a) != spiral_point(size, b),
        0 <= spiral_cell(size, a) < size * size,
        a != b ==> spiral_cell(size, a) != spiral_cell(size, b),
{
    lemma_spiral_offset_in_square(a, size);
    lemma_spiral_offset_in_square(b, size);
    if a != b {
        lemma_spiral_offsets_distinct(a, b);
    }
    let p = spiral_point(size, a);
    let q = spiral_point(size, b);
    lemma_cell_index(size as int, size as int, p.0, p.1, q.0, q.1);
}

/// The first `count` coordinates of the walk over a `size` by `size` grid.
pub fn spiral_coords(size: usize, count: usize) -> (r: Vec<(usize, usize)>)
    requires
        count <= size * size,
    ensures
        r.len() == count,
        forall|k: int| 0 <= k < count ==> as_point(#[trigger] r[k]) == spiral_point(size as nat, k as nat),
        forall|k: int| 0 <= k < count ==> #[trigger] r[k].0 < size && r[k].1 < size,
        forall|a: int, b: int| 0 <= a < b < count ==> r[a] != r[b],
{
    let mut out: Vec<(usize, usize)> = Vec::new();
    if count == 0 {
        return out;
    }
    assert(size >= 1) by (nonlinear_arith)
        requires
            0 < count <= size * size,
    ;
    let start = (size - 1) / 2;
    let mut walk = SpiralGridCoords::new((start, start));
    let mut k: usize = 0;
    while k < count
        invariant
            k <= count,
            count <= size * size,
            size >= 1,
            start == ((size as int) - 1) / 2,
            walk.wf(),
            walk.origin() == spiral_start(size as nat),
            walk.emitted() == k,
            out.len() == k,
            forall|q: int| 0 <= q < k ==> as_point(#[trigger] out[q]) == spiral_point(size as nat, q as nat),
        decreases count - k,
    {
        proof {
            lemma_spiral_offset_in_square(k as nat, size as nat);
        }
        let c = walk.get_next();
        out.push(c);
        k = k + 1;
    }
    proof {
        assert forall|q: int| 0 <= q < count implies #[trigger] out[q].0 < size && out[q].1 < size by {
            lemma_spiral_covers_square(size as nat, q as nat, q as nat);
        }
        assert forall|a: int, b: int| 0 <= a < b < count implies out[a] != out[b] by {
            lemma_spiral_covers_square(size as nat, a as nat, b as nat);
        }
    }
    out
}

/// The cells after the first `n` tiles of `order` are placed along the walk
/// over a `size` by `size` grid.
pub open spec fn spiral_fill(
    cells: Seq<Option<usize>>,
    size: nat,
    order: Seq<usize>,
    n: nat,
) -> Seq<Option<usize>>
    decreases n,
{
    if n == 0 {
        cells
    } else {
        spiral_fill(cells, size, order, (n - 1) as nat).update(
            spiral_cell(size, (n - 1) as nat),
            Some(order[n - 1]),
        )
    }
}

proof fn lemma_spiral_fill_untouched(
    cells: Seq<Option<usize>>,
    size: nat,
    order: Seq<usize>,
    n: nat,
    i: int,
)
    requires
        forall|q: nat| q < n ==> #[trigger] spiral_cell(size, q) != i,
        n <= size * size,
        cells.len() == size * size,
        0 <= i < cells.len(),
    ensures
        spiral_fill(cells, size, order, n)[i] == cells[i],
        spiral_fill(cells, size, order, n).len() == cells.len(),
    decreases n,
{
    if n > 0 {
        lemma_spiral_covers_square(size, (n - 1) as nat, (n - 1) as nat);
        lemma_spiral_fill_untouched(cells, size, order, (n - 1) as nat, i);
    }
}

/// Places `build_order[k]` at the `k`-th coordinate of the square spiral that
/// starts at the centre of the grid. Fails, leaving the grid as it was, when
/// the build order is longer than the grid has cells.
pub fn arrange(grid: &mut TileGrid, build_order: &Vec<usize>) -> (r: Result<
    (),
    GridCapacityError,
>)
    requires
        grid_rows(*old(grid)) == grid_cols(*old(grid)),
    ensures
        r is Err <==> build_order.len() > grid_cells(*old(grid)).len(),
        r is Err ==> *final(grid) == *old(grid),
        grid_rows(*final(grid)) == grid_rows(*old(grid)),
        grid_cols(*final(grid)) == grid_cols(*old(grid)),
        grid_cells(*final(grid)).len() == grid_cells(*old(grid)).len(),
        r is Ok ==> grid_cells(*final(grid)) == spiral_fill(
            grid_cells(*old(grid)),
            grid_rows(*old(grid)),
            build_order@,
            build_order.len() as nat,
        ),
        r is Ok && is_empty_grid(*old(grid)) ==> filled_count(grid_cells(*final(grid)))
            == build_order.len(),
{
    let (size, cols) = grid_size(grid);
    let n = build_order.len();
    if n > size * cols {
        return Err(GridCapacityError { tiles: n, capacity: size * cols });
    }
    let coords = spiral_coords(size, n);
    let ghost start = grid_cells(*grid);
    proof {
        if is_empty_grid(*grid) {
            lemma_all_empty(start);
        }
    }
    let mut k: usize = 0;
    while k < n
        invariant
            k <= n,
            n == build_order.len(),
            n <= size * size,
            size == cols,
            coords.len() == n,
            size == grid_rows(*grid),
            size == grid_cols(*grid),
            start.len() == size * size,
            forall|q: int| 0 <= q < n ==> as_point(#[trigger] coords[q]) == spiral_point(size as nat, q as nat),
            grid_cells(*grid) == spiral_fill(start, size as nat, build_order@, k as nat),
            is_empty_grid(*old(grid)) ==> filled_count(grid_cells(*grid)) == k,
            start == grid_cells(*old(grid)),
        decreases n - k,
    {
        let (row, col) = coords[k];
        proof {
            let _ = coords[k as int];
            lemma_spiral_covers_square(size as nat, k as nat, k as nat);
            assert forall|q: nat| q < k implies #[trigger] spiral_cell(size as nat, q) != spiral_cell(
                size as nat,
                k as nat,
            ) by {
                lemma_spiral_covers_square(size as nat, q, k as nat);
            }
            lemma_spiral_fill_untouched(start, size as nat, build_order@, k as nat, spiral_cell(size as nat, k as nat));
            if is_empty_grid(*old(grid)) {
                lemma_fill_one(grid_cells(*grid), spiral_cell(size as nat, k as nat), build_order[k as int]);
            }
        }
        set_cell(grid, row, col, Some(build_order[k]));
        k = k + 1;
    }
    proof {
        lemma_spiral_fill_len(start, size as nat, build_order@, n as nat);
    }
    Ok(())
}

/// On an empty grid, the walk leaves tile `order[q]` in its `q`-th cell and
/// nothing elsewhere.
pub proof fn lemma_spiral_fill_cells(
    cells: Seq<Option<usize>>,
    size: nat,
    order: Seq<usize>,
    n: nat,
    i: int,
)
    requires
        cells.len() == size * size,
        n <= size * size,
        n <= order.len(),
        forall|c: int| 0 <= c < cells.len() ==> cells[c].is_none(),
        0 <= i < cells.len(),
        spiral_fill(cells, size, order, n)[i].is_some(),
    ensures
        exists|q: nat| q < n && spiral_cell(size, q) == i && spiral_fill(cells, size, order, n)[i] == Some(
            order[q as int],
        ),
    decreases n,
{
    if n > 0 {
        let m = (n - 1) as nat;
        lemma_spiral_covers_square(size, m, m);
        assert forall|q: nat| q < m implies 0 <= #[trigger] spiral_cell(size, q) < size * size by {
            lemma_spiral_covers_square(size, q, q);
        }
        lemma_spiral_fill_len(cells, size, order, m);
        if spiral_cell(size, m) == i {
            assert(spiral_fill(cells, size, order, n)[i] == Some(order[m as int]));
            assert(m < n && spiral_cell(size, m) == i);
        } else {
            assert(spiral_fill(cells, size, order, n)[i] == spiral_fill(cells, size, order, m)[i]);
            lemma_spiral_fill_cells(cells, size, order, m, i);
            let q = choose|q: nat| q < m && spiral_cell(size, q) == i && spiral_fill(cells, size, order, m)[i] == Some(
                order[q as int],
            );
            assert(q < n && spiral_cell(size, q) == i);
        }
    }
}

proof fn lemma_spiral_fill_len(cells: Seq<Option<usize>>, size: nat, order: Seq<usize>, n: nat)
    requires
        cells.len() == size * size,
        n <= size * size,
    ensures
        spiral_fill(cells, size, order, n).len() == cells.len(),
    decreases n,
{
    if n > 0 {
        lemma_spiral_covers_square(size, (n - 1) as nat, (n - 1) as nat);
        lemma_spiral_fill_len(cells, size, order, (n - 1) as nat);
    }
}

} // verus!
