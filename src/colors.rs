//! The colour model: colours in a perceptually uniform space, and the
//! extraction of one representative colour per tile.
//!
//! A [`Color`] holds the lightness and the two chroma axes of a Lab colour in
//! fixed point; the caller picks the unit. Distances between colours are
//! computed by the caller (the perceptual metric is floating point) and handed
//! in as unsigned integers, smaller meaning closer.
use vstd::prelude::*;

verus! {

/// A Lab colour in fixed point: lightness `l` and chroma axes `a` and `b`.
#[derive(Clone, Copy, Debug, PartialEq, Eq, Structural)]
pub struct Color {
    pub l: i32,
    pub a: i32,
    pub b: i32,
}

/// A tile, by its index in the tile collection, with its representative
/// colour.
#[derive(Clone, Copy, Debug, PartialEq, Eq, Structural)]
pub struct ImageColor {
    pub image: usize,
    pub color: Color,
}

/// Why no colour could be derived.
#[derive(Clone, Copy, Debug, PartialEq, Eq, Structural)]
pub enum ColorError {
    /// There were no pixels to average.
    NoPixels,
    /// A channel sum left the range of the `i64` accumulator.
    Overflow,
}

/// Channel `ch` (0: `l`, 1: `a`, 2: `b`) of `c`.
pub open spec fn channel(c: Color, ch: int) -> int {
    if ch == 0 {
        c.l as int
    } else if ch == 1 {
        c.a as int
    } else {
        c.b as int
    }
}

/// The sum of channel `ch` over `s`.
pub open spec fn channel_sum(s: Seq<Color>, ch: int) -> int
    decreases s.len(),
{
    if s.len() == 0 {
        0
    } else {
        channel_sum(s.drop_last(), ch) + channel(s.last(), ch)
    }
}

pub open spec fn fits_i64(x: int) -> bool {
    i64::MIN <= x <= i64::MAX
}

/// Every running sum, channel by channel, stays within `i64`.
pub open spec fn sums_fit(s: Seq<Color>) -> bool {
    forall|k: int, ch: int|
        0 <= k <= s.len() && 0 <= ch < 3 ==> fits_i64(#[trigger] channel_sum(s.take(k), ch))
}

/// Integer division rounding toward zero.
pub open spec fn div_toward_zero(x: int, n: int) -> int {
    if x >= 0 {
        x / n
    } else {
        -((-x) / n)
    }
}

/// The per-channel mean of `s`, rounded toward zero.
pub open spec fn mean_color(s: Seq<Color>) -> Color {
    Color {
        l: div_toward_zero(channel_sum(s, 0), s.len() as int) as i32,
        a: div_toward_zero(channel_sum(s, 1), s.len() as int) as i32,
        b: div_toward_zero(channel_sum(s, 2), s.len() as int) as i32,
    }
}

/// What averaging `s` gives: an error for no colours or for a running sum
/// outside `i64`, else the mean.
pub open spec fn average_of(s: Seq<Color>) -> Result<Color, ColorError> {
    if s.len() == 0 {
        Err(ColorError::NoPixels)
    } else if !sums_fit(s) {
        Err(ColorError::Overflow)
    } else {
        Ok(mean_color(s))
    }
}

proof fn lemma_sum_bounds(s: Seq<Color>, ch: int)
    ensures
        s.len() * (i32::MIN as int) <= channel_sum(s, ch) <= s.len() * (i32::MAX as int),
    decreases s.len(),
{
    if s.len() > 0 {
        lemma_sum_bounds(s.drop_last(), ch);
        let n = s.len() as int;
        assert((n - 1) * (i32::MIN as int) + (i32::MIN as int) == n * (i32::MIN as int)) by (nonlinear_arith);
        assert((n - 1) * (i32::MAX as int) + (i32::MAX as int) == n * (i32::MAX as int)) by (nonlinear_arith);
    }
}

/// The mean of `i32` values is an `i32` value.
proof fn lemma_mean_in_range(s: Seq<Color>, ch: int)
    requires
        s.len() > 0,
    ensures
        i32::MIN <= div_toward_zero(channel_sum(s, ch), s.len() as int) <= i32::MAX,
{
    lemma_sum_bounds(s, ch);
    let x = channel_sum(s, ch);
    let n = s.len() as int;
    if x >= 0 {
        assert(x / n <= i32::MAX) by (nonlinear_arith)
            requires
                0 <= x <= n * (i32::MAX as int),
                n > 0,
        ;
        assert(x / n >= 0) by (nonlinear_arith)
            requires
                0 <= x,
                n > 0,
        ;
    } else {
        assert((-x) / n <= 0x8000_0000) by (nonlinear_arith)
            requires
                0 < -x <= n * 0x8000_0000,
                n > 0,
        ;
        assert((-x) / n >= 0) by (nonlinear_arith)
            requires
                0 < -x,
                n > 0,
        ;
    }
}

/// Divides a channel sum by the number of colours, rounding toward zero.
fn divide_sum(sum: i64, n: usize, Ghost(s): Ghost<Seq<Color>>, Ghost(ch): Ghost<int>) -> (r: i32)
    requires
        n == s.len(),
        n > 0,
        sum == channel_sum(s, ch),
    ensures
        r == div_toward_zero(channel_sum(s, ch), n as int),
{
    proof {
        lemma_mean_in_range(s, ch);
    }
    let d = n as u64;
    if sum >= 0 {
        let q = (sum as u64) / d;
        q as i32
    } else {
        let magnitude: u64 = ((-(sum + 1)) as u64) + 1;
        let q = magnitude / d;
        assert(q <= 0x8000_0000);
        (-(q as i64)) as i32
    }
}

proof fn lemma_take_step(s: Seq<Color>, k: int, ch: int)
    requires
        0 <= k < s.len(),
    ensures
        channel_sum(s.take(k + 1), ch) == channel_sum(s.take(k), ch) + channel(s[k], ch),
{
    assert(s.take(k + 1).drop_last() =~= s.take(k));
}

/// The per-channel mean of `colors`, accumulated in `i64` with every addition
/// checked; the mean rounds toward zero.
pub fn average_color(colors: &Vec<Color>) -> (r: Result<Color, ColorError>)
    ensures
        r == average_of(colors@),
{
    let n = colors.len();
    if n == 0 {
        return Err(ColorError::NoPixels);
    }
    let ghost s = colors@;
    let mut sums: [i64; 3] = [0, 0, 0];
    let mut i: usize = 0;
    while i < n
        invariant
            i <= n,
            n == s.len(),
            s == colors@,
            forall|ch: int| 0 <= ch < 3 ==> sums[ch] == #[trigger] channel_sum(s.take(i as int), ch),
            forall|k: int, ch: int|
                0 <= k <= i && 0 <= ch < 3 ==> fits_i64(#[trigger] channel_sum(s.take(k), ch)),
        decreases n - i,
    {
        let c = colors[i];
        let values: [i32; 3] = [c.l, c.a, c.b];
        let mut ch: usize = 0;
        let ghost before = sums@;
        while ch < 3
            invariant
                ch <= 3,
                i < n,
                n == s.len(),
                s == colors@,
                c == s[i as int],
                values@ == seq![c.l, c.a, c.b],
                forall|q: int| 0 <= q < 3 ==> before[q] == #[trigger] channel_sum(s.take(i as int), q),
                forall|q: int| 0 <= q < ch ==> sums[q] == #[trigger] channel_sum(s.take(i + 1), q),
                forall|q: int| ch <= q < 3 ==> sums[q] == before[q],
                forall|k: int, q: int|
                    0 <= k <= i && 0 <= q < 3 ==> fits_i64(#[trigger] channel_sum(s.take(k), q)),
            decreases 3 - ch,
        {
            proof {
                lemma_take_step(s, i as int, ch as int);
            }
            match sums[ch].checked_add(values[ch] as i64) {
                Some(v) => {
                    sums[ch] = v;
                },
                None => {
                    proof {
                        assert(!fits_i64(channel_sum(s.take(i + 1), ch as int)));
                    }
                    return Err(ColorError::Overflow);
                },
            }
            ch = ch + 1;
        }
        i = i + 1;
    }
    assert(s.take(n as int) =~= s);
    let l = divide_sum(sums[0], n, Ghost(s), Ghost(0));
    let a = divide_sum(sums[1], n, Ghost(s), Ghost(1));
    let b = divide_sum(sums[2], n, Ghost(s), Ghost(2));
    Ok(Color { l, a, b })
}

/// Averaging a non-empty run of one colour gives that colour back, as long as
/// the run is short enough (at most `u32::MAX` colours) that no sum can leave
/// the accumulator.
pub proof fn lemma_average_uniform(s: Seq<Color>, c: Color)
    requires
        0 < s.len() <= u32::MAX,
        forall|i: int| 0 <= i < s.len() ==> s[i] == c,
    ensures
        average_of(s) == Ok::<Color, ColorError>(c),
{
    assert forall|k: int, ch: int| 0 <= k <= s.len() && 0 <= ch < 3 implies channel_sum(s.take(k), ch)
        == k * channel(c, ch) by {
        lemma_uniform_sum(s.take(k), c, ch);
    }
    assert forall|k: int, ch: int|
        0 <= k <= s.len() && 0 <= ch < 3 implies fits_i64(#[trigger] channel_sum(s.take(k), ch)) by {
        let v = channel(c, ch);
        assert(i32::MIN <= v <= i32::MAX);
        assert(fits_i64(k * v)) by (nonlinear_arith)
            requires
                0 <= k <= u32::MAX,
                i32::MIN <= v <= i32::MAX,
        ;
    }
    assert(s.take(s.len() as int) =~= s);
    let n = s.len() as int;
    assert forall|ch: int| 0 <= ch < 3 implies div_toward_zero(n * channel(c, ch), n) == channel(c, ch) by {
        let v = channel(c, ch);
        if v >= 0 {
            assert((n * v) / n == v) by (nonlinear_arith)
                requires
                    n > 0,
            ;
        } else {
            assert(-(n * v) == n * (-v)) by (nonlinear_arith);
            assert((n * (-v)) / n == -v) by (nonlinear_arith)
                requires
                    n > 0,
            ;
        }
    }
    assert(channel_sum(s, 0) == n * channel(c, 0));
    assert(channel_sum(s, 1) == n * channel(c, 1));
    assert(channel_sum(s, 2) == n * channel(c, 2));
}

proof fn lemma_uniform_sum(s: Seq<Color>, c: Color, ch: int)
    requires
        forall|i: int| 0 <= i < s.len() ==> s[i] == c,
    ensures
        channel_sum(s, ch) == s.len() * channel(c, ch),
    decreases s.len(),
{
    if s.len() > 0 {
        lemma_uniform_sum(s.drop_last(), c, ch);
        let n = s.len() as int;
        assert((n - 1) * channel(c, ch) + channel(c, ch) == n * channel(c, ch)) by (nonlinear_arith);
    }
}

/// Any run of at most `u32::MAX` colours averages without overflow.
proof fn lemma_short_sums_fit(s: Seq<Color>)
    requires
        s.len() <= u32::MAX,
    ensures
        sums_fit(s),
{
    assert forall|k: int, ch: int|
        0 <= k <= s.len() && 0 <= ch < 3 implies fits_i64(#[trigger] channel_sum(s.take(k), ch)) by {
        lemma_sum_bounds(s.take(k), ch);
        assert(k * (i32::MIN as int) >= i64::MIN && k * (i32::MAX as int) <= i64::MAX) by (nonlinear_arith)
            requires
                0 <= k <= u32::MAX,
        ;
    }
}

/// Every colour of `s` has channel `ch` within `lo..=hi`.
pub open spec fn channel_bounded(s: Seq<Color>, ch: int, lo: int, hi: int) -> bool {
    forall|i: int| 0 <= i < s.len() ==> lo <= #[trigger] channel(s[i], ch) <= hi
}

/// `c` lies in the per-channel bounding box of the colours of `s`.
pub open spec fn in_bounding_box(c: Color, s: Seq<Color>) -> bool {
    forall|ch: int, lo: int, hi: int|
        #[trigger] channel_bounded(s, ch, lo, hi) ==> lo <= channel(c, ch) <= hi
}

proof fn lemma_mean_within(s: Seq<Color>, ch: int, lo: int, hi: int)
    requires
        s.len() > 0,
        channel_bounded(s, ch, lo, hi),
    ensures
        lo <= div_toward_zero(channel_sum(s, ch), s.len() as int) <= hi,
{
    lemma_sum_within(s, ch, lo, hi);
    let x = channel_sum(s, ch);
    let n = s.len() as int;
    if x >= 0 {
        assert(lo <= x / n <= hi) by (nonlinear_arith)
            requires
                n * lo <= x <= n * hi,
                x >= 0,
                n > 0,
        ;
    } else {
        assert(-hi <= (-x) / n <= -lo) by (nonlinear_arith)
            requires
                n * lo <= x <= n * hi,
                x < 0,
                n > 0,
        ;
    }
}

proof fn lemma_sum_within(s: Seq<Color>, ch: int, lo: int, hi: int)
    requires
        channel_bounded(s, ch, lo, hi),
    ensures
        s.len() * lo <= channel_sum(s, ch) <= s.len() * hi,
    decreases s.len(),
{
    if s.len() == 0 {
        assert(s.len() * lo == 0 && s.len() * hi == 0);
    } else {
        let d = s.drop_last();
        assert forall|i: int| 0 <= i < d.len() implies lo <= #[trigger] channel(d[i], ch) <= hi by {
            assert(channel(s[i], ch) == channel(d[i], ch));
        }
        lemma_sum_within(d, ch, lo, hi);
        assert(channel_sum(s, ch) == channel_sum(d, ch) + channel(s[s.len() - 1], ch));
        assert(lo <= channel(s[s.len() - 1], ch) <= hi);
        let n = s.len() as int;
        assert((n - 1) * lo + lo == n * lo && (n - 1) * hi + hi == n * hi) by (nonlinear_arith);
    }
}

/// The colours of a cluster stay inside any bounds of all the colours.
proof fn lemma_cluster_bounded(colors: Seq<Color>, assignment: Seq<usize>, j: int, ch: int, lo: int, hi: int)
    requires
        channel_bounded(colors, ch, lo, hi),
    ensures
        channel_bounded(cluster(colors, assignment, j), ch, lo, hi),
    decreases colors.len(),
{
    if colors.len() > 0 {
        let d = colors.drop_last();
        assert forall|i: int| 0 <= i < d.len() implies lo <= #[trigger] channel(d[i], ch) <= hi by {
            assert(channel(colors[i], ch) == channel(d[i], ch));
        }
        lemma_cluster_bounded(d, assignment, j, ch, lo, hi);
        assert(lo <= channel(colors[colors.len() - 1], ch) <= hi);
        let rest = cluster(d, assignment, j);
        let c = cluster(colors, assignment, j);
        assert forall|i: int| 0 <= i < c.len() implies lo <= #[trigger] channel(c[i], ch) <= hi by {
            if i < rest.len() {
                assert(c[i] == rest[i]);
            }
        }
    }
}

/// The next centroid stays in the bounding box of the colours when the old
/// one was in it.
proof fn lemma_next_centroid_in_box(colors: Seq<Color>, assignment: Seq<usize>, old: Seq<Color>, j: int)
    requires
        in_bounding_box(old[j], colors),
        cluster(colors, assignment, j).len() > 0 ==> sums_fit(cluster(colors, assignment, j)),
    ensures
        in_bounding_box(next_centroid(colors, assignment, old, j), colors),
{
    let cl = cluster(colors, assignment, j);
    if cl.len() > 0 {
        assert forall|ch: int, lo: int, hi: int| #[trigger] channel_bounded(colors, ch, lo, hi) implies lo
            <= channel(next_centroid(colors, assignment, old, j), ch) <= hi by {
            let c2 = if ch == 0 {
                0
            } else if ch == 1 {
                1
            } else {
                2
            };
            assert forall|i: int| 0 <= i < colors.len() implies lo <= #[trigger] channel(colors[i], c2) <= hi by {
                assert(channel(colors[i], c2) == channel(colors[i], ch));
            }
            lemma_cluster_bounded(colors, assignment, j, c2, lo, hi);
            lemma_mean_within(cl, c2, lo, hi);
            lemma_mean_in_range(cl, c2);
            assert(channel(next_centroid(colors, assignment, old, j), ch) == channel(mean_color(cl), c2));
        }
    }
}

/// The stride between seeds: every `n / k`-th colour, or every colour when
/// there are fewer colours than clusters.
pub open spec fn seed_stride(n: int, k: int) -> int {
    if n >= k {
        n / k
    } else {
        1
    }
}

/// The initial centroids: `min(n, k)` colours taken at a fixed stride from the
/// start, so that seeding is deterministic.
pub fn seed_centroids(colors: &Vec<Color>, k: u32) -> (r: Vec<Color>)
    requires
        k >= 1,
    ensures
        r.len() == if colors.len() >= k {
            k as int
        } else {
            colors.len() as int
        },
        forall|i: int|
            0 <= i < r.len() ==> #[trigger] r[i] == colors[i * seed_stride(colors.len() as int, k as int)],
        forall|i: int|
            0 <= i < r.len() ==> 0 <= #[trigger] (i * seed_stride(colors.len() as int, k as int)) < colors.len(),
{
    let n = colors.len();
    let kk = k as usize;
    let (stride, count) = if n >= kk {
        (n / kk, kk)
    } else {
        (1, n)
    };
    assert(stride >= 1) by (nonlinear_arith)
        requires
            n >= kk ==> stride == n as int / kk as int,
            n < kk ==> stride == 1,
            kk >= 1,
    ;
    let mut r: Vec<Color> = Vec::new();
    let mut i: usize = 0;
    while i < count
        invariant
            i <= count,
            count <= n,
            n == colors.len(),
            stride == seed_stride(n as int, k as int),
            stride >= 1,
            (stride == 1 && count == n) || (count == k && n >= k && stride == n as int / k as int),
            r.len() == i,
            forall|q: int| 0 <= q < i ==> #[trigger] r[q] == colors[q * stride],
            forall|q: int| 0 <= q < i ==> 0 <= #[trigger] (q * stride) < n,
        decreases count - i,
    {
        assert(0 <= i * stride < n) by (nonlinear_arith)
            requires
                i < count,
                count <= n,
                stride >= 1,
                (stride == 1 && count == n) || (count == k as int && n >= k as int && stride == n as int / k as int),
        ;
        r.push(colors[i * stride]);
        i = i + 1;
    }
    r
}

/// The position of the least value, the first one among equals.
pub fn nearest(distances: &Vec<u64>) -> (r: usize)
    requires
        distances.len() > 0,
    ensures
        r < distances.len(),
        forall|j: int| 0 <= j < distances.len() ==> distances[r as int] <= #[trigger] distances[j],
        forall|j: int| 0 <= j < r ==> distances[r as int] < #[trigger] distances[j],
{
    let mut r: usize = 0;
    let mut j: usize = 1;
    while j < distances.len()
        invariant
            1 <= j <= distances.len(),
            r < j,
            forall|q: int| 0 <= q < j ==> distances[r as int] <= #[trigger] distances[q],
            forall|q: int| 0 <= q < r ==> distances[r as int] < #[trigger] distances[q],
        decreases distances.len() - j,
    {
        if distances[j] < distances[r] {
            r = j;
        }
        j = j + 1;
    }
    r
}

/// The position of the greatest value, the last one among equals.
pub fn largest_group(sizes: &Vec<usize>) -> (r: usize)
    requires
        sizes.len() > 0,
    ensures
        r < sizes.len(),
        forall|j: int| 0 <= j < sizes.len() ==> #[trigger] sizes[j] <= sizes[r as int],
        forall|j: int| r < j < sizes.len() ==> #[trigger] sizes[j] < sizes[r as int],
{
    let mut r: usize = 0;
    let mut j: usize = 1;
    while j < sizes.len()
        invariant
            1 <= j <= sizes.len(),
            r < j,
            forall|q: int| 0 <= q < j ==> #[trigger] sizes[q] <= sizes[r as int],
            forall|q: int| r < q < j ==> #[trigger] sizes[q] < sizes[r as int],
        decreases sizes.len() - j,
    {
        if sizes[j] >= sizes[r] {
            r = j;
        }
        j = j + 1;
    }
    r
}

/// The colours assigned to cluster `j`, in their original order.
pub open spec fn cluster(colors: Seq<Color>, assignment: Seq<usize>, j: int) -> Seq<Color>
    decreases colors.len(),
{
    if colors.len() == 0 {
        Seq::empty()
    } else {
        let rest = cluster(colors.drop_last(), assignment, j);
        if assignment[colors.len() - 1] == j {
            rest.push(colors.last())
        } else {
            rest
        }
    }
}

proof fn lemma_cluster_len(colors: Seq<Color>, assignment: Seq<usize>, j: int)
    ensures
        cluster(colors, assignment, j).len() <= colors.len(),
    decreases colors.len(),
{
    if colors.len() > 0 {
        lemma_cluster_len(colors.drop_last(), assignment, j);
    }
}

/// The new centroid of cluster `j`: the mean of its colours, or the old
/// centroid when no colour was assigned to it.
pub open spec fn next_centroid(colors: Seq<Color>, assignment: Seq<usize>, old: Seq<Color>, j: int) -> Color {
    if cluster(colors, assignment, j).len() == 0 {
        old[j]
    } else {
        mean_color(cluster(colors, assignment, j))
    }
}

/// Whether some non-empty cluster overflows when averaged.
pub open spec fn some_cluster_overflows(colors: Seq<Color>, assignment: Seq<usize>, k: int) -> bool {
    exists|j: int|
        0 <= j < k && cluster(colors, assignment, j).len() > 0 && !sums_fit(
            #[trigger] cluster(colors, assignment, j),
        )
}

/// The colours assigned to cluster `j`.
fn collect_cluster(colors: &Vec<Color>, assignment: &Vec<usize>, j: usize) -> (r: Vec<Color>)
    requires
        assignment.len() == colors.len(),
    ensures
        r@ == cluster(colors@, assignment@, j as int),
{
    let mut r: Vec<Color> = Vec::new();
    let mut i: usize = 0;
    while i < colors.len()
        invariant
            i <= colors.len(),
            assignment.len() == colors.len(),
            r@ == cluster(colors@.take(i as int), assignment@, j as int),
        decreases colors.len() - i,
    {
        assert(colors@.take(i + 1).drop_last() =~= colors@.take(i as int));
        if assignment[i] == j {
            r.push(colors[i]);
        }
        i = i + 1;
    }
    assert(colors@.take(colors.len() as int) =~= colors@);
    r
}

/// One update step of k-means: each centroid moves to the mean of the colours
/// assigned to it (and stays where it is when none is), and each cluster's
/// size is counted.
pub fn update_centroids(
    colors: &Vec<Color>,
    assignment: &Vec<usize>,
    centroids: &Vec<Color>,
) -> (r: Result<(Vec<Color>, Vec<usize>), ColorError>)
    requires
        assignment.len() == colors.len(),
    ensures
        r is Err <==> some_cluster_overflows(colors@, assignment@, centroids.len() as int),
        r is Err ==> r == Err::<(Vec<Color>, Vec<usize>), ColorError>(ColorError::Overflow),
        r matches Ok((c, s)) ==> {
            &&& c.len() == centroids.len()
            &&& s.len() == centroids.len()
            &&& forall|j: int|
                0 <= j < c.len() ==> #[trigger] c[j] == next_centroid(colors@, assignment@, centroids@, j)
            &&& forall|j: int|
                0 <= j < s.len() ==> #[trigger] s[j] == cluster(colors@, assignment@, j).len()
        },
{
    let k = centroids.len();
    let mut next: Vec<Color> = Vec::new();
    let mut sizes: Vec<usize> = Vec::new();
    let mut j: usize = 0;
    while j < k
        invariant
            j <= k,
            k == centroids.len(),
            assignment.len() == colors.len(),
            next.len() == j,
            sizes.len() == j,
            forall|q: int| 0 <= q < j ==> #[trigger] next[q] == next_centroid(colors@, assignment@, centroids@, q),
            forall|q: int| 0 <= q < j ==> #[trigger] sizes[q] == cluster(colors@, assignment@, q).len(),
            forall|q: int|
                0 <= q < j ==> !(cluster(colors@, assignment@, q).len() > 0 && !sums_fit(
                    #[trigger] cluster(colors@, assignment@, q),
                )),
        decreases k - j,
    {
        let members = collect_cluster(colors, assignment, j);
        if members.len() == 0 {
            next.push(centroids[j]);
        } else {
            match average_color(&members) {
                Ok(c) => next.push(c),
                Err(_) => {
                    return Err(ColorError::Overflow);
                },
            }
        }
        sizes.push(members.len());
        j = j + 1;
    }
    Ok((next, sizes))
}

/// The cluster of each colour: the centroid that `distance` puts nearest, the
/// first one among equals.
fn assign<F: Fn(Color, Color) -> u64>(colors: &Vec<Color>, centroids: &Vec<Color>, distance: &F) -> (r: Vec<usize>)
    requires
        centroids.len() > 0,
        forall|a: Color, b: Color| call_requires(*distance, (a, b)),
    ensures
        r.len() == colors.len(),
        forall|i: int| 0 <= i < r.len() ==> #[trigger] r[i] < centroids.len(),
{
    let mut r: Vec<usize> = Vec::new();
    let mut i: usize = 0;
    while i < colors.len()
        invariant
            i <= colors.len(),
            centroids.len() > 0,
            forall|a: Color, b: Color| call_requires(*distance, (a, b)),
            r.len() == i,
            forall|q: int| 0 <= q < i ==> #[trigger] r[q] < centroids.len(),
        decreases colors.len() - i,
    {
        let mut row: Vec<u64> = Vec::new();
        let mut j: usize = 0;
        while j < centroids.len()
            invariant
                j <= centroids.len(),
                row.len() == j,
                i < colors.len(),
                forall|a: Color, b: Color| call_requires(*distance, (a, b)),
            decreases centroids.len() - j,
        {
            row.push(distance(colors[i], centroids[j]));
            j = j + 1;
        }
        r.push(nearest(&row));
        i = i + 1;
    }
    r
}

/// The number of update rounds of k-means.
pub const K_MEANS_ROUNDS: usize = 5;

/// The dominant colour of a tile's pixels. For `k < 2` this is the plain
/// average. Otherwise k-means runs a fixed number of rounds from seeds taken
/// at a fixed stride, assigning each colour to the centroid that `distance`
/// puts nearest, and the centroid of the largest cluster (the last among
/// equals) is returned.
pub fn k_means<F: Fn(Color, Color) -> u64>(colors: &Vec<Color>, k: u32, distance: &F) -> (r: Result<
    Color,
    ColorError,
>)
    requires
        forall|a: Color, b: Color| call_requires(*distance, (a, b)),
    ensures
        k < 2 ==> r == average_of(colors@),
        colors.len() == 0 ==> r == Err::<Color, ColorError>(ColorError::NoPixels),
        0 < colors.len() <= u32::MAX ==> r is Ok,
        r is Err ==> r == average_of(colors@) || r == Err::<Color, ColorError>(ColorError::Overflow),
        k >= 2 ==> (r matches Ok(c) ==> in_bounding_box(c, colors@)),
{
    if k < 2 || colors.len() == 0 {
        proof {
            if colors.len() <= u32::MAX {
                lemma_short_sums_fit(colors@);
            }
        }
        return average_color(colors);
    }
    let mut centroids = seed_centroids(colors, k);
    proof {
        assert forall|j: int| 0 <= j < centroids.len() implies in_bounding_box(#[trigger] centroids[j], colors@) by {
            let i = j * seed_stride(colors.len() as int, k as int);
            assert(0 <= i < colors.len());
            assert forall|ch: int, lo: int, hi: int| #[trigger] channel_bounded(colors@, ch, lo, hi) implies lo
                <= channel(centroids[j], ch) <= hi by {
                assert(centroids[j] == colors[i]);
                assert(lo <= channel(colors@[i], ch) <= hi);
            }
        }
    }
    let mut sizes: Vec<usize> = Vec::new();
    let mut j: usize = 0;
    while j < centroids.len()
        invariant
            j <= centroids.len(),
            sizes.len() == j,
        decreases centroids.len() - j,
    {
        sizes.push(0);
        j = j + 1;
    }
    let mut round: usize = 0;
    while round < K_MEANS_ROUNDS
        invariant
            k >= 2,
            colors.len() > 0,
            centroids.len() > 0,
            sizes.len() == centroids.len(),
            forall|a: Color, b: Color| call_requires(*distance, (a, b)),
            forall|j: int| 0 <= j < centroids.len() ==> in_bounding_box(#[trigger] centroids[j], colors@),
        decreases K_MEANS_ROUNDS - round,
    {
        let assignment = assign(colors, &centroids, distance);
        proof {
            if colors.len() <= u32::MAX {
                assert forall|q: int| 0 <= q < centroids.len() implies !(cluster(colors@, assignment@, q).len() > 0
                    && !sums_fit(#[trigger] cluster(colors@, assignment@, q))) by {
                    lemma_cluster_len(colors@, assignment@, q);
                    lemma_short_sums_fit(cluster(colors@, assignment@, q));
                }
            }
        }
        match update_centroids(colors, &assignment, &centroids) {
            Ok((c, s)) => {
                proof {
                    assert forall|j: int| 0 <= j < c.len() implies in_bounding_box(#[trigger] c[j], colors@) by {
                        assert(!(cluster(colors@, assignment@, j).len() > 0 && !sums_fit(cluster(colors@, assignment@, j))));
                        lemma_next_centroid_in_box(colors@, assignment@, centroids@, j);
                    }
                }
                centroids = c;
                sizes = s;
            },
            Err(e) => {
                return Err(e);
            },
        }
        round = round + 1;
    }
    let best = largest_group(&sizes);
    Ok(centroids[best])
}

/// Pairs tile `image` with the dominant colour of its pixels.
pub fn get_primary_color<F: Fn(Color, Color) -> u64>(
    image: usize,
    pixels: &Vec<Color>,
    k: u32,
    distance: &F,
) -> (r: Result<ImageColor, ColorError>)
    requires
        forall|a: Color, b: Color| call_requires(*distance, (a, b)),
    ensures
        k < 2 ==> r == match average_of(pixels@) {
            Ok(c) => Ok(ImageColor { image, color: c }),
            Err(e) => Err(e),
        },
        pixels.len() == 0 ==> r == Err::<ImageColor, ColorError>(ColorError::NoPixels),
        0 < pixels.len() <= u32::MAX ==> r is Ok,
        r matches Ok(ic) ==> ic.image == image,
        k >= 2 ==> (r matches Ok(ic) ==> in_bounding_box(ic.color, pixels@)),
{
    match k_means(pixels, k, distance) {
        Ok(color) => Ok(ImageColor { image, color }),
        Err(e) => Err(e),
    }
}

} // verus!
