//! Linearisation of a spanning tree into a build order.
use vstd::prelude::*;
use crate::graph::{
    count_true, joined, lemma_count_true_bounds, lemma_count_true_set, lemma_spanning_tree_connected,
    is_walk, SpanningTree,
};

verus! {

/// Which traversal linearises the tree: depth-first favours long runs of
/// similar tiles, breadth-first a balanced spread around the root.
#[derive(Clone, Copy, Debug, PartialEq, Eq, Structural)]
pub enum TraversalOrder {
    DepthFirst,
    BreadthFirst,
}

/// The neighbours of `x` along the edges, in edge order.
pub open spec fn neighbors(edges: Seq<(usize, usize)>, x: int) -> Seq<usize>
    decreases edges.len(),
{
    if edges.len() == 0 {
        Seq::empty()
    } else {
        let e = edges.last();
        let rest = neighbors(edges.drop_last(), x);
        if e.0 == x {
            rest.push(e.1)
        } else if e.1 == x {
            rest.push(e.0)
        } else {
            rest
        }
    }
}

/// The number of edges at node `x`.
pub open spec fn degree(edges: Seq<(usize, usize)>, x: int) -> nat {
    neighbors(edges, x).len()
}

/// The neighbours of `x` are exactly the nodes that an edge joins to `x`.
pub proof fn lemma_neighbors_joined(edges: Seq<(usize, usize)>, x: int)
    ensures
        forall|i: int|
            0 <= i < neighbors(edges, x).len() ==> joined(edges, x, #[trigger] neighbors(edges, x)[i] as int),
        forall|y: usize| joined(edges, x, y as int) ==> #[trigger] neighbors(edges, x).contains(y),
        neighbors(edges, x).len() <= edges.len(),
    decreases edges.len(),
{
    if edges.len() > 0 {
        let d = edges.drop_last();
        let e = edges.last();
        lemma_neighbors_joined(d, x);
        let rest = neighbors(d, x);
        let s = neighbors(edges, x);
        assert forall|i: int| 0 <= i < s.len() implies joined(edges, x, #[trigger] s[i] as int) by {
            if i < rest.len() {
                assert(s[i] == rest[i]);
                assert(joined(d, x, rest[i] as int));
                let k = choose|k: int|
                    0 <= k < d.len() && ((#[trigger] d[k].0 == x && d[k].1 == rest[i] as int) || (
                    d[k].0 == rest[i] as int && d[k].1 == x));
                assert(edges[k] == d[k]);
            } else {
                assert(edges[edges.len() - 1] == e);
            }
        }
        assert forall|y: usize| joined(edges, x, y as int) implies #[trigger] s.contains(y) by {
            let k = choose|k: int|
                0 <= k < edges.len() && ((#[trigger] edges[k].0 == x && edges[k].1 == y as int) || (
                edges[k].0 == y as int && edges[k].1 == x));
            if k < d.len() {
                assert(d[k] == edges[k]);
                assert(joined(d, x, y as int));
                assert(rest.contains(y));
                let i = choose|i: int| 0 <= i < rest.len() && rest[i] == y;
                assert(rest.len() <= s.len());
                assert(s[i] == rest[i]);
                assert(s.contains(y));
            } else {
                assert(edges[k] == e);
                assert(s == rest.push(y));
                assert(s[s.len() - 1] == y);
                assert(s.contains(y));
            }
        }
    }
}

/// The adjacency lists of the tree: entry `x` holds the neighbours of `x`.
fn adjacency(tree: &SpanningTree) -> (adj: Vec<Vec<usize>>)
    requires
        tree.wf(),
    ensures
        adj.len() == tree.node_count,
        forall|x: int| 0 <= x < tree.node_count ==> (#[trigger] adj[x])@ == neighbors(tree.edges@, x),
        forall|x: int, j: int|
            0 <= x < tree.node_count && 0 <= j < adj[x].len() ==> #[trigger] adj[x][j] < tree.node_count,
        forall|x: int, j: int|
            0 <= x < tree.node_count && 0 <= j < adj[x].len() ==> joined(tree.edges@, x, #[trigger] adj[x][j] as int),
{
    let n = tree.node_count;
    let m = tree.edges.len();
    let mut adj: Vec<Vec<usize>> = Vec::new();
    let mut x: usize = 0;
    while x < n
        invariant
            x <= n,
            n == tree.node_count,
            m == tree.edges.len(),
            adj.len() == x,
            forall|y: int| 0 <= y < x ==> (#[trigger] adj[y])@ == neighbors(tree.edges@, y),
        decreases n - x,
    {
        let mut row: Vec<usize> = Vec::new();
        let mut k: usize = 0;
        while k < m
            invariant
                k <= m,
                m == tree.edges.len(),
                row@ == neighbors(tree.edges@.subrange(0, k as int), x as int),
            decreases m - k,
        {
            let e = tree.edges[k];
            assert(tree.edges@.subrange(0, k + 1).drop_last() =~= tree.edges@.subrange(0, k as int));
            if e.0 == x {
                row.push(e.1);
            } else if e.1 == x {
                row.push(e.0);
            }
            k = k + 1;
        }
        assert(tree.edges@.subrange(0, m as int) =~= tree.edges@);
        adj.push(row);
        x = x + 1;
    }
    assert forall|x: int, j: int|
        0 <= x < n && 0 <= j < adj[x].len() implies #[trigger] adj[x][j] < n && joined(tree.edges@, x, adj[x][j] as int) by {
        lemma_neighbor_bound(tree, x, j);
        lemma_neighbors_joined(tree.edges@, x);
        assert(adj[x]@[j] == neighbors(tree.edges@, x)[j]);
    }
    adj
}

proof fn lemma_neighbor_bound(tree: &SpanningTree, x: int, j: int)
    requires
        tree.wf(),
        0 <= j < neighbors(tree.edges@, x).len(),
    ensures
        neighbors(tree.edges@, x)[j] < tree.node_count,
{
    let edges = tree.edges@;
    lemma_neighbors_joined(edges, x);
    let y = neighbors(edges, x)[j];
    assert(joined(edges, x, y as int));
    let k = choose|k: int|
        0 <= k < edges.len() && ((#[trigger] edges[k].0 == x && edges[k].1 == y as int) || (edges[k].0
            == y as int && edges[k].1 == x));
    assert(edges[k].0 < tree.node_count && edges[k].1 < tree.node_count);
}

/// Whether every neighbour of a flagged node is flagged.
spec fn closed_under(adj: Seq<Vec<usize>>, flags: Seq<bool>) -> bool {
    forall|x: int, j: int|
        0 <= x < flags.len() && flags[x] && 0 <= j < adj[x].len() ==> #[trigger] flags[adj[x][j] as int]
}

/// Flags closed along the adjacency lists of a spanning tree that hold the
/// root hold every node.
proof fn lemma_closed_adjacency_covers(
    tree: &SpanningTree,
    adj: Seq<Vec<usize>>,
    flags: Seq<bool>,
    root: int,
)
    requires
        tree.wf(),
        adj.len() == tree.node_count,
        forall|x: int| 0 <= x < tree.node_count ==> (#[trigger] adj[x])@ == neighbors(tree.edges@, x),
        flags.len() == tree.node_count,
        0 <= root < tree.node_count,
        flags[root],
        closed_under(adj, flags),
    ensures
        forall|x: int| 0 <= x < tree.node_count ==> #[trigger] flags[x],
{
    assert forall|x: int, y: int|
        0 <= x < tree.node_count && 0 <= y < tree.node_count && #[trigger] flags[x] && joined(
            tree.edges@,
            x,
            y,
        ) implies #[trigger] flags[y] by {
        lemma_neighbors_joined(tree.edges@, x);
        assert(neighbors(tree.edges@, x).contains(y as usize));
        let j = choose|j: int| 0 <= j < adj[x]@.len() && adj[x]@[j] == y as usize;
        assert(adj[x][j] == y);
    }
    lemma_closed_covers(tree, flags, root);
}

/// Breadth-first order from `root`: a queue, each node marked when queued.
fn breadth_first(adj: &Vec<Vec<usize>>, tree: &SpanningTree, root: usize) -> (order: Vec<usize>)
    requires
        tree.wf(),
        root < tree.node_count,
        adj.len() == tree.node_count,
        forall|x: int| 0 <= x < tree.node_count ==> (#[trigger] adj[x])@ == neighbors(tree.edges@, x),
        forall|x: int, j: int|
            0 <= x < tree.node_count && 0 <= j < adj[x].len() ==> #[trigger] adj[x][j] < tree.node_count,
        forall|x: int, j: int|
            0 <= x < tree.node_count && 0 <= j < adj[x].len() ==> joined(tree.edges@, x, #[trigger] adj[x][j] as int),
    ensures
        is_permutation(order@, tree.node_count as nat),
        order[0] == root,
        grows_along(tree.edges@, order@),
{
    let n = tree.node_count;
    let mut discovered: Vec<bool> = Vec::new();
    let mut x: usize = 0;
    while x < n
        invariant
            x <= n,
            discovered.len() == x,
            forall|y: int| 0 <= y < x ==> !#[trigger] discovered[y],
        decreases n - x,
    {
        discovered.push(false);
        x = x + 1;
    }
    proof {
        lemma_count_true_bounds(discovered@);
        lemma_count_true_set(discovered@, root as int);
    }
    discovered.set(root, true);
    let mut queue: Vec<usize> = Vec::new();
    queue.push(root);
    assert forall|y: int| 0 <= y < n && #[trigger] discovered[y] implies exists|i: int|
        0 <= i < queue.len() && queue[i] == y by {
        assert(queue[0] == y);
    }
    let mut head: usize = 0;
    while head < queue.len()
        invariant
            n == tree.node_count,
            adj.len() == n,
            forall|x: int, j: int| 0 <= x < n && 0 <= j < adj[x].len() ==> #[trigger] adj[x][j] < n,
            discovered.len() == n,
            1 <= queue.len(),
            queue[0] == root,
            head <= queue.len(),
            count_true(discovered@) == queue.len(),
            forall|i: int| 0 <= i < queue.len() ==> #[trigger] queue[i] < n && discovered[queue[i] as int],
            forall|y: int| 0 <= y < n && #[trigger] discovered[y] ==> exists|i: int| 0 <= i < queue.len() && queue[i] == y,
            forall|i: int, j: int| 0 <= i < j < queue.len() ==> queue[i] != queue[j],
            forall|i: int, j: int|
                0 <= i < head && 0 <= j < adj[queue[i] as int].len() ==> #[trigger] discovered[adj[queue[i] as int][j] as int],
            forall|x: int, j: int| 0 <= x < n && 0 <= j < adj[x].len() ==> joined(tree.edges@, x, #[trigger] adj[x][j] as int),
            grows_along(tree.edges@, queue@),
        decreases n - head,
    {
        proof {
            lemma_count_true_bounds(discovered@);
        }
        let node = queue[head];
        let nbrs = &adj[node];
        let mut j: usize = 0;
        while j < nbrs.len()
            invariant
                n == tree.node_count,
                adj.len() == n,
                nbrs == adj[node as int],
                node < n,
                forall|x: int, j: int| 0 <= x < n && 0 <= j < adj[x].len() ==> #[trigger] adj[x][j] < n,
                discovered.len() == n,
                1 <= queue.len(),
                queue[0] == root,
                head < queue.len(),
                queue[head as int] == node,
                count_true(discovered@) == queue.len(),
                forall|i: int| 0 <= i < queue.len() ==> #[trigger] queue[i] < n && discovered[queue[i] as int],
                forall|y: int| 0 <= y < n && #[trigger] discovered[y] ==> exists|i: int| 0 <= i < queue.len() && queue[i] == y,
                forall|i: int, k: int| 0 <= i < k < queue.len() ==> queue[i] != queue[k],
                forall|i: int, k: int|
                    0 <= i < head && 0 <= k < adj[queue[i] as int].len() ==> #[trigger] discovered[adj[queue[i] as int][k] as int],
                forall|k: int| 0 <= k < j ==> #[trigger] discovered[nbrs[k] as int],
                j <= nbrs.len(),
                forall|x: int, j: int| 0 <= x < n && 0 <= j < adj[x].len() ==> joined(tree.edges@, x, #[trigger] adj[x][j] as int),
                grows_along(tree.edges@, queue@),
            decreases nbrs.len() - j,
        {
            let y = nbrs[j];
            assert(y < n);
            if !discovered[y] {
                proof {
                    lemma_count_true_set(discovered@, y as int);
                    lemma_count_true_bounds(discovered@.update(y as int, true));
                }
                let ghost old_queue = queue@;
                let ghost old_disc = discovered@;
                discovered.set(y, true);
                queue.push(y);
                proof {
                    assert forall|z: int| 0 <= z < n && #[trigger] discovered[z] implies exists|i: int|
                        0 <= i < queue.len() && queue[i] == z by {
                        if z == y {
                            assert(queue[queue.len() - 1] == z);
                        } else {
                            assert(old_disc[z]);
                            let i = choose|i: int| 0 <= i < old_queue.len() && old_queue[i] == z;
                            assert(queue[i] == z);
                        }
                    }
                    assert(joined(tree.edges@, node as int, adj[node as int][j as int] as int));
                    assert forall|i: int| 0 < i < queue.len() implies exists|k: int|
                        0 <= k < i && joined(tree.edges@, queue@[k] as int, #[trigger] queue@[i] as int) by {
                        if i == queue.len() - 1 {
                            assert(queue@[head as int] == node);
                        } else {
                            assert(queue@[i] == old_queue[i]);
                            let k = choose|k: int| 0 <= k < i && joined(tree.edges@, old_queue[k] as int, old_queue[i] as int);
                            assert(queue@[k] == old_queue[k]);
                        }
                    }
                }
            }
            j = j + 1;
        }
        head = head + 1;
    }
    proof {
        assert(closed_under(adj@, discovered@)) by {
            assert forall|x: int, j: int|
                0 <= x < discovered@.len() && discovered@[x] && 0 <= j < adj@[x].len() implies #[trigger] discovered@[adj@[x][j] as int] by {
                let i = choose|i: int| 0 <= i < queue.len() && queue[i] == x;
                assert(discovered[adj[queue[i] as int][j] as int]);
            }
        }
        lemma_closed_adjacency_covers(tree, adj@, discovered@, root as int);
        lemma_count_true_bounds(discovered@);
    }
    queue
}

/// The node with the most edges, the lowest-numbered one among equals.
pub fn most_popular(tree: &SpanningTree) -> (r: usize)
    requires
        tree.wf(),
        tree.node_count > 0,
    ensures
        r < tree.node_count,
        forall|y: int| 0 <= y < tree.node_count ==> degree(tree.edges@, y) <= degree(tree.edges@, r as int),
        forall|y: int| 0 <= y < r ==> degree(tree.edges@, y) < degree(tree.edges@, r as int),
{
    let adj = adjacency(tree);
    popular_in(&adj, tree)
}

fn popular_in(adj: &Vec<Vec<usize>>, tree: &SpanningTree) -> (r: usize)
    requires
        tree.node_count > 0,
        adj.len() == tree.node_count,
        forall|x: int| 0 <= x < tree.node_count ==> (#[trigger] adj[x])@ == neighbors(tree.edges@, x),
    ensures
        r < tree.node_count,
        forall|y: int| 0 <= y < tree.node_count ==> degree(tree.edges@, y) <= degree(tree.edges@, r as int),
        forall|y: int| 0 <= y < r ==> degree(tree.edges@, y) < degree(tree.edges@, r as int),
{
    let n = tree.node_count;
    let mut r: usize = 0;
    let mut x: usize = 1;
    while x < n
        invariant
            1 <= x <= n,
            r < x,
            n == tree.node_count,
            adj.len() == n,
            forall|z: int| 0 <= z < n ==> (#[trigger] adj[z])@ == neighbors(tree.edges@, z),
            forall|y: int| 0 <= y < x ==> degree(tree.edges@, y) <= degree(tree.edges@, r as int),
            forall|y: int| 0 <= y < r ==> degree(tree.edges@, y) < degree(tree.edges@, r as int),
        decreases n - x,
    {
        assert(adj[x as int]@ == neighbors(tree.edges@, x as int));
        assert(adj[r as int]@ == neighbors(tree.edges@, r as int));
        if adj[x].len() > adj[r].len() {
            r = x;
        }
        x = x + 1;
    }
    r
}

/// Every node after the first is joined by an edge to a node listed before
/// it: the order walks the tree outward from its first node.
pub open spec fn grows_along(edges: Seq<(usize, usize)>, order: Seq<usize>) -> bool {
    forall|i: int|
        0 < i < order.len() ==> exists|j: int| 0 <= j < i && joined(edges, order[j] as int, #[trigger] order[i] as int)
}

/// Whether some node of `order` is joined by an edge to `x`.
pub open spec fn has_parent_in(edges: Seq<(usize, usize)>, order: Seq<usize>, x: int) -> bool {
    exists|k: int| 0 <= k < order.len() && joined(edges, order[k] as int, x)
}

/// Whether `order` lists every node of `0..n` exactly once.
pub open spec fn is_permutation(order: Seq<usize>, n: nat) -> bool {
    &&& order.len() == n
    &&& forall|i: int| 0 <= i < order.len() ==> #[trigger] order[i] < n
    &&& forall|i: int, j: int| 0 <= i < j < order.len() ==> order[i] != order[j]
}

/// A set of nodes that holds `root` and every neighbour of its members holds
/// every node of a spanning tree.
proof fn lemma_closed_covers(tree: &SpanningTree, flags: Seq<bool>, root: int)
    requires
        tree.wf(),
        flags.len() == tree.node_count,
        0 <= root < tree.node_count,
        flags[root],
        forall|x: int, y: int|
            0 <= x < tree.node_count && 0 <= y < tree.node_count && #[trigger] flags[x] && joined(
                tree.edges@,
                x,
                y,
            ) ==> #[trigger] flags[y],
    ensures
        forall|x: int| 0 <= x < tree.node_count ==> #[trigger] flags[x],
{
    assert forall|x: int| 0 <= x < tree.node_count implies #[trigger] flags[x] by {
        lemma_spanning_tree_connected(*tree, root, x);
        let p = choose|p: Seq<int>| is_walk(tree.edges@, p) && p[0] == root && p.last() == x;
        lemma_walk_flagged(tree, flags, p, p.len() - 1);
    }
}

proof fn lemma_walk_flagged(tree: &SpanningTree, flags: Seq<bool>, p: Seq<int>, i: int)
    requires
        tree.wf(),
        flags.len() == tree.node_count,
        is_walk(tree.edges@, p),
        0 <= p[0] < tree.node_count,
        flags[p[0]],
        0 <= i < p.len(),
        forall|x: int, y: int|
            0 <= x < tree.node_count && 0 <= y < tree.node_count && #[trigger] flags[x] && joined(
                tree.edges@,
                x,
                y,
            ) ==> #[trigger] flags[y],
    ensures
        0 <= p[i] < tree.node_count,
        flags[p[i]],
    decreases i,
{
    if i > 0 {
        lemma_walk_flagged(tree, flags, p, i - 1);
        assert(joined(tree.edges@, p[i - 1], p[i]));
        let k = choose|k: int|
            0 <= k < tree.edges@.len() && ((#[trigger] tree.edges@[k].0 == p[i - 1] && tree.edges@[k].1
                == p[i]) || (tree.edges@[k].0 == p[i] && tree.edges@[k].1 == p[i - 1]));
        assert(tree.edges@[k].0 < tree.node_count && tree.edges@[k].1 < tree.node_count);
    }
}

/// Depth-first order from `root`: a stack, each node marked when it is taken
/// off the stack for the first time, its unmarked neighbours then pushed in
/// adjacency order.
fn depth_first(adj: &Vec<Vec<usize>>, tree: &SpanningTree, root: usize) -> (order: Vec<usize>)
    requires
        tree.wf(),
        root < tree.node_count,
        adj.len() == tree.node_count,
        forall|x: int| 0 <= x < tree.node_count ==> (#[trigger] adj[x])@ == neighbors(tree.edges@, x),
        forall|x: int, j: int|
            0 <= x < tree.node_count && 0 <= j < adj[x].len() ==> #[trigger] adj[x][j] < tree.node_count,
        forall|x: int, j: int|
            0 <= x < tree.node_count && 0 <= j < adj[x].len() ==> joined(tree.edges@, x, #[trigger] adj[x][j] as int),
    ensures
        is_permutation(order@, tree.node_count as nat),
        order[0] == root,
        grows_along(tree.edges@, order@),
{
    let n = tree.node_count;
    let mut discovered: Vec<bool> = Vec::new();
    let mut x: usize = 0;
    while x < n
        invariant
            x <= n,
            discovered.len() == x,
            forall|y: int| 0 <= y < x ==> !#[trigger] discovered[y],
        decreases n - x,
    {
        discovered.push(false);
        x = x + 1;
    }
    proof {
        lemma_count_true_bounds(discovered@);
    }
    let mut order: Vec<usize> = Vec::new();
    let mut stack: Vec<usize> = Vec::new();
    stack.push(root);
    while stack.len() > 0
        invariant
            n == tree.node_count,
            root < n,
            adj.len() == n,
            forall|x: int, j: int| 0 <= x < n && 0 <= j < adj[x].len() ==> #[trigger] adj[x][j] < n,
            discovered.len() == n,
            count_true(discovered@) == order.len(),
            order.len() == 0 ==> stack@ == seq![root],
            order.len() > 0 ==> order[0] == root,
            forall|i: int| 0 <= i < stack.len() ==> #[trigger] stack[i] < n,
            forall|i: int| 0 <= i < order.len() ==> #[trigger] order[i] < n && discovered[order[i] as int],
            forall|y: int| 0 <= y < n && #[trigger] discovered[y] ==> exists|i: int| 0 <= i < order.len() && order[i] == y,
            forall|i: int, j: int| 0 <= i < j < order.len() ==> order[i] != order[j],
            forall|x: int, j: int|
                0 <= x < n && discovered[x] && 0 <= j < adj[x].len() ==> #[trigger] discovered[adj[x][j] as int]
                    || stack@.contains(adj[x][j]),
            forall|x: int, j: int| 0 <= x < n && 0 <= j < adj[x].len() ==> joined(tree.edges@, x, #[trigger] adj[x][j] as int),
            grows_along(tree.edges@, order@),
            forall|i: int|
                0 <= i < stack.len() && order.len() > 0 ==> has_parent_in(tree.edges@, order@, #[trigger] stack@[i] as int),
        decreases n - order.len(), stack.len(),
    {
        proof {
            lemma_count_true_bounds(discovered@);
        }
        let ghost before = stack@;
        let node = stack.pop().unwrap();
        assert(stack@ == before.drop_last() && node == before.last());
        if !discovered[node] {
            let ghost old_disc = discovered@;
            let ghost old_order = order@;
            proof {
                lemma_count_true_set(discovered@, node as int);
            }
            discovered.set(node, true);
            order.push(node);
            proof {
                assert forall|z: int| 0 <= z < n && #[trigger] discovered[z] implies exists|i: int|
                    0 <= i < order.len() && order[i] == z by {
                    if z == node {
                        assert(order[order.len() - 1] == z);
                    } else {
                        assert(old_disc[z]);
                        let i = choose|i: int| 0 <= i < old_order.len() && old_order[i] == z;
                        assert(order[i] == z);
                    }
                }
                assert forall|i: int, j: int| 0 <= i < j < order.len() implies order[i] != order[j] by {
                    if j == order.len() - 1 {
                        assert(discovered@[order[i] as int] == old_disc[order[i] as int] || order[i] == node);
                    }
                }
                assert forall|x: int, j: int|
                    0 <= x < n && discovered[x] && 0 <= j < adj[x].len() && x != node implies #[trigger] discovered[adj[x][j] as int]
                        || stack@.contains(adj[x][j]) by {
                    assert(old_disc[x]);
                    let y = adj[x][j];
                    if !old_disc[y as int] && y != node {
                        assert(before.contains(y));
                        let i = choose|i: int| 0 <= i < before.len() && before[i] == y;
                        assert(stack@[i] == y);
                    }
                }
            }
            proof {
                assert forall|i: int| 0 < i < order.len() implies exists|k: int|
                    0 <= k < i && joined(tree.edges@, order@[k] as int, #[trigger] order@[i] as int) by {
                    if i == order.len() - 1 {
                        let s = before.len() - 1;
                        assert(before[s] == node);
                        assert(has_parent_in(tree.edges@, old_order, before[s] as int));
                        let k = choose|k: int| 0 <= k < old_order.len() && joined(tree.edges@, old_order[k] as int, before[s] as int);
                        assert(order@[k] == old_order[k]);
                    } else {
                        assert(order@[i] == old_order[i]);
                        let k = choose|k: int| 0 <= k < i && joined(tree.edges@, old_order[k] as int, old_order[i] as int);
                        assert(order@[k] == old_order[k]);
                    }
                }
                assert forall|i: int| 0 <= i < stack.len() implies has_parent_in(tree.edges@, order@, #[trigger] stack@[i] as int) by {
                    assert(stack@[i] == before[i]);
                    if old_order.len() > 0 {
                        assert(has_parent_in(tree.edges@, old_order, before[i] as int));
                        let k = choose|k: int| 0 <= k < old_order.len() && joined(tree.edges@, old_order[k] as int, before[i] as int);
                        assert(order@[k] == old_order[k]);
                    } else {
                        assert(before.len() == 1);
                    }
                }
            }
            let nbrs = &adj[node];
            let mut j: usize = 0;
            while j < nbrs.len()
                invariant
                    n == tree.node_count,
                    adj.len() == n,
                    nbrs == adj[node as int],
                    node < n,
                    discovered[node as int],
                    forall|x: int, j: int| 0 <= x < n && 0 <= j < adj[x].len() ==> #[trigger] adj[x][j] < n,
                    discovered.len() == n,
                    forall|i: int| 0 <= i < stack.len() ==> #[trigger] stack[i] < n,
                    forall|x: int, k: int|
                        0 <= x < n && discovered[x] && 0 <= k < adj[x].len() && x != node ==> #[trigger] discovered[adj[x][k] as int]
                            || stack@.contains(adj[x][k]),
                    forall|k: int| 0 <= k < j ==> #[trigger] discovered[nbrs[k] as int] || stack@.contains(nbrs[k]),
                    j <= nbrs.len(),
                    forall|x: int, j: int| 0 <= x < n && 0 <= j < adj[x].len() ==> joined(tree.edges@, x, #[trigger] adj[x][j] as int),
                    order.len() > 0,
                    order@[order.len() - 1] == node,
                    forall|i: int|
                        0 <= i < stack.len() ==> has_parent_in(tree.edges@, order@, #[trigger] stack@[i] as int),
                decreases nbrs.len() - j,
            {
                let y = nbrs[j];
                let ghost prev = stack@;
                if !discovered[y] {
                    stack.push(y);
                    proof {
                        assert(stack@[stack.len() - 1] == y);
                        assert(joined(tree.edges@, node as int, adj[node as int][j as int] as int));
                        assert forall|i: int| 0 <= i < stack.len() implies has_parent_in(tree.edges@, order@, #[trigger] stack@[i] as int) by {
                            if i == stack.len() - 1 {
                                assert(order@[order.len() - 1] == node);
                                assert(joined(tree.edges@, order@[order.len() - 1] as int, stack@[i] as int));
                            } else {
                                assert(stack@[i] == prev[i]);
                            }
                        }
                        assert forall|z: usize| prev.contains(z) implies stack@.contains(z) by {
                            let i = choose|i: int| 0 <= i < prev.len() && prev[i] == z;
                            assert(stack@[i] == z);
                        }
                    }
                }
                j = j + 1;
            }
        } else {
            proof {
                assert forall|i: int|
                    0 <= i < stack.len() && order.len() > 0 implies has_parent_in(tree.edges@, order@, #[trigger] stack@[i] as int) by {
                    assert(stack@[i] == before[i]);
                }
                assert forall|x: int, j: int|
                    0 <= x < n && discovered[x] && 0 <= j < adj[x].len() implies #[trigger] discovered[adj[x][j] as int]
                        || stack@.contains(adj[x][j]) by {
                    let y = adj[x][j];
                    if !discovered[y as int] {
                        assert(before.contains(y));
                        let i = choose|i: int| 0 <= i < before.len() && before[i] == y;
                        assert(i != before.len() - 1);
                        assert(stack@[i] == y);
                    }
                }
            }
        }
    }
    proof {
        assert(closed_under(adj@, discovered@)) by {
            assert forall|x: int, j: int|
                0 <= x < discovered@.len() && discovered@[x] && 0 <= j < adj@[x].len() implies #[trigger] discovered@[adj@[x][j] as int] by {
                assert(discovered[adj[x][j] as int] || stack@.contains(adj[x][j]));
            }
        }
        assert(discovered[root as int]) by {
            if !discovered[root as int] {
                assert(order.len() > 0);
                assert(discovered[order[0] as int]);
            }
        }
        lemma_closed_adjacency_covers(tree, adj@, discovered@, root as int);
        lemma_count_true_bounds(discovered@);
    }
    order
}

/// Linearises the tree from its most connected node (the lowest-numbered
/// among equals) into a build order, depth-first or breadth-first. Every node
/// comes exactly once.
pub fn traverse(tree: &SpanningTree, order: TraversalOrder) -> (r: Vec<usize>)
    requires
        tree.wf(),
    ensures
        is_permutation(r@, tree.node_count as nat),
        grows_along(tree.edges@, r@),
        tree.node_count > 0 ==> {
            &&& forall|y: int|
                0 <= y < tree.node_count ==> #[trigger] degree(tree.edges@, y) <= degree(tree.edges@, r[0] as int)
            &&& forall|y: int| 0 <= y < r[0] ==> #[trigger] degree(tree.edges@, y) < degree(tree.edges@, r[0] as int)
        },
{
    if tree.node_count == 0 {
        return Vec::new();
    }
    let adj = adjacency(tree);
    let root = popular_in(&adj, tree);
    match order {
        TraversalOrder::DepthFirst => depth_first(&adj, tree, root),
        TraversalOrder::BreadthFirst => breadth_first(&adj, tree, root),
    }
}

} // verus!
