//! The similarity graph over the tiles and its reduction to a minimum
//! spanning tree.
//!
//! Nodes are tile indices `0..n`. The complete graph gives every unordered
//! pair of tiles one edge, weighted by the distance between their colours.
use vstd::prelude::*;

verus! {

/// The number of `true` entries of a sequence.
pub open spec fn count_true(s: Seq<bool>) -> nat
    decreases s.len(),
{
    if s.len() == 0 {
        0
    } else {
        count_true(s.drop_last()) + if s.last() {
            1nat
        } else {
            0nat
        }
    }
}

pub(crate) proof fn lemma_count_true_set(s: Seq<bool>, i: int)
    requires
        0 <= i < s.len(),
        !s[i],
    ensures
        count_true(s.update(i, true)) == count_true(s) + 1,
    decreases s.len(),
{
    let s2 = s.update(i, true);
    if i == s.len() - 1 {
        assert(s2.drop_last() =~= s.drop_last());
    } else {
        assert(s2.drop_last() =~= s.drop_last().update(i, true));
        lemma_count_true_set(s.drop_last(), i);
    }
}

pub(crate) proof fn lemma_count_true_bounds(s: Seq<bool>)
    ensures
        count_true(s) <= s.len(),
        (forall|i: int| 0 <= i < s.len() ==> s[i]) <==> count_true(s) == s.len(),
        (forall|i: int| 0 <= i < s.len() ==> !s[i]) ==> count_true(s) == 0,
    decreases s.len(),
{
    if s.len() > 0 {
        let d = s.drop_last();
        lemma_count_true_bounds(d);
        if count_true(s) == s.len() {
            assert forall|i: int| 0 <= i < s.len() implies s[i] by {
                if i < s.len() - 1 {
                    assert(d[i]);
                }
            }
        }
        if forall|i: int| 0 <= i < s.len() ==> s[i] {
            assert forall|i: int| 0 <= i < d.len() implies d[i] by {
                assert(s[i]);
            }
        }
        if forall|i: int| 0 <= i < s.len() ==> !s[i] {
            assert forall|i: int| 0 <= i < d.len() implies !d[i] by {
                assert(!s[i]);
            }
        }
    }
}

/// The complete weighted graph over `n` tiles.
pub struct SimilarityGraph {
    weights: Vec<Vec<u64>>,
}

impl SimilarityGraph {
    /// The number of nodes.
    pub closed spec fn size(&self) -> nat {
        self.weights@.len()
    }

    /// The weight of the edge between nodes `a` and `b`.
    pub closed spec fn weight(&self, a: int, b: int) -> u64 {
        self.weights[a][b]
    }

    /// Every pair of nodes has one weight, the same in both directions, and a
    /// node is at distance zero from itself.
    pub closed spec fn wf(&self) -> bool {
        &&& forall|a: int| 0 <= a < self.weights.len() ==> #[trigger] self.weights[a].len() == self.weights.len()
        &&& forall|a: int, b: int|
            0 <= a < self.weights.len() && 0 <= b < self.weights.len() ==> #[trigger] self.weights[a][b]
                == self.weights[b][a]
        &&& forall|a: int| 0 <= a < self.weights.len() ==> #[trigger] self.weights[a][a] == 0
    }

    /// Builds the complete graph over `node_count` nodes, evaluating `distance`
    /// once for each unordered pair `a < b`.
    pub fn complete<F: Fn(usize, usize) -> u64>(node_count: usize, distance: F) -> (g: Self)
        requires
            forall|a: usize, b: usize| a < b < node_count ==> call_requires(distance, (a, b)),
        ensures
            g.wf(),
            g.size() == node_count,
            forall|a: int, b: int|
                0 <= a < b < node_count ==> call_ensures(
                    distance,
                    (a as usize, b as usize),
                    #[trigger] g.weight(a, b),
                ),
            forall|a: int, b: int|
                0 <= a < node_count && 0 <= b < node_count ==> #[trigger] g.weight(a, b) == g.weight(
                    b,
                    a,
                ),
            forall|a: int| 0 <= a < node_count ==> #[trigger] g.weight(a, a) == 0,
    {
        let mut weights: Vec<Vec<u64>> = Vec::new();
        let mut a: usize = 0;
        while a < node_count
            invariant
                a <= node_count,
                weights.len() == a,
                forall|x: usize, y: usize| x < y < node_count ==> call_requires(distance, (x, y)),
                forall|r: int| 0 <= r < a ==> #[trigger] weights[r].len() == node_count,
                forall|r: int, c: int|
                    0 <= r < c < node_count && r < a ==> call_ensures(
                        distance,
                        (r as usize, c as usize),
                        #[trigger] weights[r][c],
                    ),
                forall|r: int, c: int| 0 <= c < r < a ==> #[trigger] weights[r][c] == weights[c][r],
                forall|r: int| 0 <= r < a ==> #[trigger] weights[r][r] == 0,
            decreases node_count - a,
        {
            let mut row: Vec<u64> = Vec::new();
            let mut b: usize = 0;
            while b < node_count
                invariant
                    a < node_count,
                    b <= node_count,
                    row.len() == b,
                    weights.len() == a,
                    forall|x: usize, y: usize| x < y < node_count ==> call_requires(distance, (x, y)),
                    forall|r: int| 0 <= r < a ==> #[trigger] weights[r].len() == node_count,
                    forall|c: int|
                        a < c < b ==> call_ensures(distance, (a, c as usize), #[trigger] row[c]),
                    forall|c: int| 0 <= c < b && c < a ==> #[trigger] row[c] == weights[c][a as int],
                    a < b ==> row[a as int] == 0,
                decreases node_count - b,
            {
                if b < a {
                    assert(weights[b as int].len() == node_count);
                    let w = weights[b][a];
                    row.push(w);
                } else if b == a {
                    row.push(0);
                } else {
                    let w = distance(a, b);
                    row.push(w);
                }
                b = b + 1;
            }
            weights.push(row);
            a = a + 1;
        }
        let g = SimilarityGraph { weights };
        assert forall|x: int, y: int|
            0 <= x < node_count && 0 <= y < node_count implies #[trigger] g.weights[x][y]
            == g.weights[y][x] by {
            if x < y {
                assert(weights[y][x] == weights[x][y]);
            } else if y < x {
                assert(weights[x][y] == weights[y][x]);
            }
        }
        g
    }

    /// The number of nodes.
    pub fn node_count(&self) -> (r: usize)
        ensures
            r == self.size(),
    {
        self.weights.len()
    }

    /// The weight of the edge between nodes `a` and `b`.
    pub fn weight_of(&self, a: usize, b: usize) -> (r: u64)
        requires
            self.wf(),
            a < self.size(),
            b < self.size(),
        ensures
            r == self.weight(a as int, b as int),
    {
        assert(self.weights[a as int].len() == self.weights.len());
        self.weights[a][b]
    }
}

/// Whether `x` is in the tree formed by node 0 and the far ends of the first
/// `k` edges.
pub open spec fn tree_member(edges: Seq<(usize, usize)>, k: int, x: int) -> bool {
    x == 0 || exists|i: int| 0 <= i < k && #[trigger] edges[i].1 == x
}

/// Each edge joins a node already in the tree to a node of `0..n` not yet in
/// it: the edges grow a tree from node 0.
pub open spec fn tree_ordered(n: nat, edges: Seq<(usize, usize)>) -> bool {
    forall|k: int|
        0 <= k < edges.len() ==> {
            &&& (#[trigger] edges[k]).0 < n
            &&& edges[k].1 < n
            &&& tree_member(edges, k, edges[k].0 as int)
            &&& !tree_member(edges, k, edges[k].1 as int)
        }
}

/// A spanning tree over the nodes `0..node_count`, as a list of edges
/// `(from, to)` in the order in which they were added.
pub struct SpanningTree {
    pub node_count: usize,
    pub edges: Vec<(usize, usize)>,
}

impl SpanningTree {
    /// `n - 1` edges (none for no nodes) that grow a tree from node 0 and
    /// reach every node.
    pub open spec fn wf(&self) -> bool {
        &&& self.edges.len() == if self.node_count == 0 {
            0
        } else {
            self.node_count - 1
        }
        &&& tree_ordered(self.node_count as nat, self.edges@)
        &&& forall|x: int|
            0 <= x < self.node_count ==> tree_member(self.edges@, self.edges.len() as int, x)
    }
}

/// Whether the edge list joins `a` and `b` directly.
pub open spec fn joined(edges: Seq<(usize, usize)>, a: int, b: int) -> bool {
    exists|i: int|
        0 <= i < edges.len() && ((#[trigger] edges[i].0 == a && edges[i].1 == b) || (edges[i].0
            == b && edges[i].1 == a))
}

/// Whether `p` is a walk along the edges.
pub open spec fn is_walk(edges: Seq<(usize, usize)>, p: Seq<int>) -> bool {
    &&& p.len() >= 1
    &&& forall|i: int| 0 <= i < p.len() - 1 ==> joined(edges, #[trigger] p[i], p[i + 1])
}

/// Whether a walk along the edges leads from `a` to `b`.
pub open spec fn reachable(edges: Seq<(usize, usize)>, a: int, b: int) -> bool {
    exists|p: Seq<int>| is_walk(edges, p) && p[0] == a && p.last() == b
}

proof fn lemma_walk_reverse(edges: Seq<(usize, usize)>, p: Seq<int>)
    requires
        is_walk(edges, p),
    ensures
        is_walk(edges, p.reverse()),
        p.reverse()[0] == p.last(),
        p.reverse().last() == p[0],
{
    let q = p.reverse();
    assert forall|i: int| 0 <= i < q.len() - 1 implies joined(edges, #[trigger] q[i], q[i + 1]) by {
        let j = p.len() - 2 - i;
        assert(joined(edges, p[j], p[j + 1]));
        let e = choose|e: int|
            0 <= e < edges.len() && ((#[trigger] edges[e].0 == p[j] && edges[e].1 == p[j + 1]) || (
            edges[e].0 == p[j + 1] && edges[e].1 == p[j]));
        assert(q[i] == p[j + 1] && q[i + 1] == p[j]);
        assert(edges[e].0 == q[i] || edges[e].0 == q[i + 1]);
    }
}

proof fn lemma_walk_join(edges: Seq<(usize, usize)>, p: Seq<int>, q: Seq<int>)
    requires
        is_walk(edges, p),
        is_walk(edges, q),
        p.last() == q[0],
    ensures
        is_walk(edges, p + q.drop_first()),
        (p + q.drop_first())[0] == p[0],
        (p + q.drop_first()).last() == q.last(),
{
    let r = p + q.drop_first();
    assert forall|i: int| 0 <= i < r.len() - 1 implies joined(edges, #[trigger] r[i], r[i + 1]) by {
        if i < p.len() - 1 {
            assert(r[i] == p[i] && r[i + 1] == p[i + 1]);
            assert(joined(edges, p[i], p[i + 1]));
        } else {
            let j = i - (p.len() - 1);
            assert(r[i] == q[j] && r[i + 1] == q[j + 1]);
            assert(joined(edges, q[j], q[j + 1]));
        }
    }
}

/// Every member of the tree grown by the first `k` edges reaches node 0.
proof fn lemma_member_reaches_root(n: nat, edges: Seq<(usize, usize)>, k: int, x: int)
    requires
        tree_ordered(n, edges),
        0 <= k <= edges.len(),
        tree_member(edges, k, x),
    ensures
        reachable(edges, x, 0),
    decreases k,
{
    if x == 0 {
        let p = seq![0int];
        assert(is_walk(edges, p) && p[0] == x && p.last() == 0);
    } else {
        let i = choose|i: int| 0 <= i < k && #[trigger] edges[i].1 == x;
        let parent = edges[i].0 as int;
        assert(tree_member(edges, i, parent));
        lemma_member_reaches_root(n, edges, i, parent);
        let p = choose|p: Seq<int>| is_walk(edges, p) && p[0] == parent && p.last() == 0;
        let step = seq![x, parent];
        assert(joined(edges, x, parent));
        assert(is_walk(edges, step));
        lemma_walk_join(edges, step, p);
        let w = step + p.drop_first();
        assert(is_walk(edges, w) && w[0] == x && w.last() == 0);
    }
}

/// A spanning tree with `n >= 1` nodes has `n - 1` edges and joins every node
/// to every other by a walk along its edges.
pub proof fn lemma_spanning_tree_connected(t: SpanningTree, a: int, b: int)
    requires
        t.wf(),
        0 <= a < t.node_count,
        0 <= b < t.node_count,
    ensures
        t.edges.len() == t.node_count - 1,
        reachable(t.edges@, a, b),
{
    let edges = t.edges@;
    let n = t.node_count as nat;
    lemma_member_reaches_root(n, edges, edges.len() as int, a);
    lemma_member_reaches_root(n, edges, edges.len() as int, b);
    let p = choose|p: Seq<int>| is_walk(edges, p) && p[0] == a && p.last() == 0;
    let q = choose|q: Seq<int>| is_walk(edges, q) && q[0] == b && q.last() == 0;
    lemma_walk_reverse(edges, q);
    lemma_walk_join(edges, p, q.reverse());
    let w = p + q.reverse().drop_first();
    assert(is_walk(edges, w) && w[0] == a && w.last() == b);
}

/// The weight of edge `k` of `edges`.
pub open spec fn edge_weight(g: &SimilarityGraph, edges: Seq<(usize, usize)>, k: int) -> u64 {
    g.weight(edges[k].0 as int, edges[k].1 as int)
}

/// Edge `k` is a lightest edge between the tree grown by the edges before it
/// and the nodes outside that tree: the cut rule that makes the tree minimal.
pub open spec fn light_edges(g: &SimilarityGraph, edges: Seq<(usize, usize)>) -> bool {
    forall|k: int, a: int, b: int|
        #![trigger edge_weight(g, edges, k), g.weight(a, b)]
        0 <= k < edges.len() && 0 <= a < g.size() && 0 <= b < g.size() && tree_member(edges, k, a)
            && !tree_member(edges, k, b) ==> edge_weight(g, edges, k) <= g.weight(a, b)
}

proof fn lemma_member_prefix(e1: Seq<(usize, usize)>, e2: Seq<(usize, usize)>, k: int, x: int)
    requires
        0 <= k <= e1.len(),
        k <= e2.len(),
        forall|i: int| 0 <= i < k ==> e1[i] == e2[i],
    ensures
        tree_member(e1, k, x) == tree_member(e2, k, x),
{
    if tree_member(e1, k, x) && x != 0 {
        let i = choose|i: int| 0 <= i < k && #[trigger] e1[i].1 == x;
        assert(e2[i].1 == x);
    }
    if tree_member(e2, k, x) && x != 0 {
        let i = choose|i: int| 0 <= i < k && #[trigger] e2[i].1 == x;
        assert(e1[i].1 == x);
    }
}

/// Reduces the complete graph to a minimum spanning tree with Prim's
/// algorithm, growing the tree from node 0. Each round adds the lightest edge
/// from the tree to a node outside it; among equally light edges the one to
/// the lowest-numbered node wins, and for that node the tree node reached
/// first.
pub fn build_graph(graph: &SimilarityGraph) -> (t: SpanningTree)
    requires
        graph.wf(),
    ensures
        t.node_count == graph.size(),
        t.wf(),
        light_edges(graph, t.edges@),
{
    let n = graph.node_count();
    let mut edges: Vec<(usize, usize)> = Vec::new();
    if n == 0 {
        return SpanningTree { node_count: n, edges };
    }
    let mut in_tree: Vec<bool> = Vec::new();
    let mut best: Vec<u64> = Vec::new();
    let mut parent: Vec<usize> = Vec::new();
    let mut x: usize = 0;
    while x < n
        invariant
            x <= n,
            n == graph.size(),
            graph.wf(),
            in_tree.len() == x,
            best.len() == x,
            parent.len() == x,
            forall|y: int| 0 <= y < x ==> #[trigger] in_tree[y] == (y == 0),
            forall|y: int| 0 <= y < x ==> #[trigger] best[y] == graph.weight(0, y),
            forall|y: int| 0 <= y < x ==> #[trigger] parent[y] == 0,
        decreases n - x,
    {
        in_tree.push(x == 0);
        best.push(graph.weight_of(0, x));
        parent.push(0);
        x = x + 1;
    }
    proof {
        let s = in_tree@;
        let d = s.subrange(1, n as int);
        assert(s.drop_last().len() == n - 1);
        lemma_count_true_bounds(d);
        assert(s =~= seq![true] + d);
        lemma_count_prepend(d);
    }
    while edges.len() + 1 < n
        invariant
            n == graph.size(),
            n >= 1,
            graph.wf(),
            in_tree.len() == n,
            best.len() == n,
            parent.len() == n,
            edges.len() + 1 <= n,
            count_true(in_tree@) == edges.len() + 1,
            forall|y: int| 0 <= y < n ==> #[trigger] in_tree[y] == tree_member(edges@, edges.len() as int, y),
            tree_ordered(n as nat, edges@),
            light_edges(graph, edges@),
            forall|y: int|
                0 <= y < n && !#[trigger] in_tree[y] ==> parent[y] < n && in_tree[parent[y] as int]
                    && best[y] == graph.weight(parent[y] as int, y),
            forall|y: int, a: int|
                0 <= y < n && 0 <= a < n && !#[trigger] in_tree[y] && #[trigger] in_tree[a] ==> best[y]
                    <= graph.weight(a, y),
        decreases n - edges.len(),
    {
        // The node outside the tree closest to it, the lowest-numbered on ties.
        let mut found = false;
        let mut v: usize = 0;
        let mut y: usize = 0;
        while y < n
            invariant
                y <= n,
                in_tree.len() == n,
                best.len() == n,
                found ==> v < n && !in_tree[v as int],
                found ==> forall|z: int| 0 <= z < y && !#[trigger] in_tree[z] ==> best[v as int] <= best[z],
                !found ==> forall|z: int| 0 <= z < y ==> #[trigger] in_tree[z],
            decreases n - y,
        {
            if !in_tree[y] && (!found || best[y] < best[v]) {
                v = y;
                found = true;
            }
            y = y + 1;
        }
        proof {
            lemma_count_true_bounds(in_tree@);
        }
        let p = parent[v];
        let ghost old_edges = edges@;
        let ghost old_in_tree = in_tree@;
        edges.push((p, v));
        proof {
            lemma_count_true_set(in_tree@, v as int);
            lemma_prim_step(graph, old_edges, edges@, old_in_tree, best@, p, v);
        }
        in_tree.set(v, true);
        let wv = graph.weight_of(v, 0);
        let mut z: usize = 0;
        while z < n
            invariant
                z <= n,
                n == graph.size(),
                graph.wf(),
                v < n,
                in_tree.len() == n,
                best.len() == n,
                parent.len() == n,
                in_tree[v as int],
                forall|y: int|
                    0 <= y < n && !#[trigger] in_tree[y] ==> parent[y] < n && in_tree[parent[y] as int]
                        && best[y] == graph.weight(parent[y] as int, y),
                forall|y: int, a: int|
                    0 <= y < n && 0 <= a < n && !#[trigger] in_tree[y] && #[trigger] in_tree[a] && (a
                        != v || y < z) ==> best[y] <= graph.weight(a, y),
            decreases n - z,
        {
            if !in_tree[z] {
                let w = graph.weight_of(v, z);
                if w < best[z] {
                    best.set(z, w);
                    parent.set(z, v);
                }
            }
            z = z + 1;
        }
    }
    proof {
        lemma_count_true_bounds(in_tree@);
        assert forall|y: int| 0 <= y < n implies tree_member(edges@, edges.len() as int, y) by {
            assert(in_tree[y]);
        }
    }
    SpanningTree { node_count: n, edges }
}

proof fn lemma_count_prepend(d: Seq<bool>)
    ensures
        count_true(seq![true] + d) == count_true(d) + 1,
    decreases d.len(),
{
    if d.len() > 0 {
        lemma_count_prepend(d.drop_last());
        assert((seq![true] + d).drop_last() =~= seq![true] + d.drop_last());
    } else {
        assert((seq![true] + d).drop_last() =~= d);
    }
}

/// Adding the edge from the parent of the closest outside node `v` keeps the
/// edges tree-ordered and light, and adds `v` to the tree.
proof fn lemma_prim_step(
    graph: &SimilarityGraph,
    old_edges: Seq<(usize, usize)>,
    edges: Seq<(usize, usize)>,
    old_in_tree: Seq<bool>,
    best: Seq<u64>,
    p: usize,
    v: usize,
)
    requires
        graph.wf(),
        old_in_tree.len() == graph.size(),
        best.len() == graph.size(),
        v < graph.size(),
        !old_in_tree[v as int],
        edges == old_edges.push((p, v)),
        p < graph.size(),
        old_in_tree[p as int],
        best[v as int] == graph.weight(p as int, v as int),
        forall|y: int| 0 <= y < graph.size() ==> #[trigger] old_in_tree[y] == tree_member(old_edges, old_edges.len() as int, y),
        tree_ordered(graph.size(), old_edges),
        light_edges(graph, old_edges),
        forall|z: int| 0 <= z < graph.size() && !#[trigger] old_in_tree[z] ==> best[v as int] <= best[z],
        forall|y: int, a: int|
            0 <= y < graph.size() && 0 <= a < graph.size() && !#[trigger] old_in_tree[y] && #[trigger] old_in_tree[a] ==> best[y]
                <= graph.weight(a, y),
    ensures
        forall|a: int| 0 <= a < graph.size() ==> tree_member(edges, edges.len() as int, a) == (
            #[trigger] old_in_tree[a] || a == v),
        tree_ordered(graph.size(), edges),
        light_edges(graph, edges),
{
    let n = graph.size();
    let m = old_edges.len() as int;
    assert(edges.len() == m + 1);
    assert(edges[m] == (p, v));
    assert(forall|i: int| 0 <= i < m ==> #[trigger] edges[i] == old_edges[i]);
    assert forall|a: int| 0 <= a < n implies tree_member(edges, edges.len() as int, a) == (
    #[trigger] old_in_tree[a] || a == v) by {
        if a != 0 && a != v && tree_member(edges, edges.len() as int, a) {
            let i = choose|i: int| 0 <= i < edges.len() && #[trigger] edges[i].1 == a;
            assert(i < m);
            assert(tree_member(old_edges, m, a));
        }
        if old_in_tree[a] && a != 0 {
            let i = choose|i: int| 0 <= i < m && #[trigger] old_edges[i].1 == a;
            assert(edges[i].1 == a);
        }
        if a == v {
            assert(edges[m].1 == a);
        }
    }
    assert forall|k: int| 0 <= k < edges.len() implies {
        &&& (#[trigger] edges[k]).0 < n
        &&& edges[k].1 < n
        &&& tree_member(edges, k, edges[k].0 as int)
        &&& !tree_member(edges, k, edges[k].1 as int)
    } by {
        lemma_member_prefix(edges, old_edges, k, edges[k].0 as int);
        lemma_member_prefix(edges, old_edges, k, edges[k].1 as int);
        if k < m {
            assert(edges[k] == old_edges[k]);
        }
    }
    lemma_prim_step_light(graph, old_edges, edges, old_in_tree, best, p, v);
}

#[verifier::spinoff_prover]
proof fn lemma_prim_step_light(
    graph: &SimilarityGraph,
    old_edges: Seq<(usize, usize)>,
    edges: Seq<(usize, usize)>,
    old_in_tree: Seq<bool>,
    best: Seq<u64>,
    p: usize,
    v: usize,
)
    requires
        old_in_tree.len() == graph.size(),
        best.len() == graph.size(),
        v < graph.size(),
        edges == old_edges.push((p, v)),
        best[v as int] == graph.weight(p as int, v as int),
        forall|y: int| 0 <= y < graph.size() ==> #[trigger] old_in_tree[y] == tree_member(old_edges, old_edges.len() as int, y),
        light_edges(graph, old_edges),
        forall|z: int| 0 <= z < graph.size() && !#[trigger] old_in_tree[z] ==> best[v as int] <= best[z],
        forall|y: int, a: int|
            0 <= y < graph.size() && 0 <= a < graph.size() && !#[trigger] old_in_tree[y] && #[trigger] old_in_tree[a] ==> best[y]
                <= graph.weight(a, y),
    ensures
        light_edges(graph, edges),
{
    let n = graph.size();
    let m = old_edges.len() as int;
    assert(edges.len() == m + 1);
    assert(edges[m] == (p, v));
    assert(forall|i: int| 0 <= i < m ==> #[trigger] edges[i] == old_edges[i]);
    assert forall|k: int, a: int, b: int|
        0 <= k < edges.len() && 0 <= a < n && 0 <= b < n && tree_member(edges, k, a)
            && !tree_member(edges, k, b) implies #[trigger] edge_weight(graph, edges, k) <= #[trigger] graph.weight(a, b) by {
        lemma_member_prefix(edges, old_edges, k, a);
        lemma_member_prefix(edges, old_edges, k, b);
        if k < m {
            assert(edges[k] == old_edges[k]);
            assert(edge_weight(graph, edges, k) == edge_weight(graph, old_edges, k));
        } else {
            assert(old_in_tree[a] && !old_in_tree[b]);
            assert(best[b] <= graph.weight(a, b));
        }
    }
}

} // verus!
