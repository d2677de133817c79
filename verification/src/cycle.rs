//! Undirected cycles in a declared edge list, read as a multigraph in which
//! a self-loop and a pair of parallel edges are cycles.
//!
//! An edge lies on a cycle exactly when its endpoints stay connected by a
//! walk that does not use it; the declaration has an undirected cycle when
//! some edge does. A rooted spanning forest in which every edge is the
//! parent edge of one of its endpoints certifies that no edge does.

use vstd::prelude::*;
use crate::topology::{CycleReport, DeclaredRelations};

verus! {

/// Edge `g` joins `a` and `b`, in either direction.
pub open spec fn joins(edges: Seq<(usize, usize)>, g: int, a: int, b: int) -> bool {
    &&& 0 <= g < edges.len()
    &&& ((edges[g].0 == a && edges[g].1 == b) || (edges[g].0 == b && edges[g].1 == a))
}

/// `nodes[i]` and `nodes[i + 1]` are joined by edge `via[i]`.
pub open spec fn is_walk(edges: Seq<(usize, usize)>, nodes: Seq<int>, via: Seq<int>) -> bool {
    &&& nodes.len() == via.len() + 1
    &&& forall|i: int|
        0 <= i < via.len() ==> joins(edges, #[trigger] via[i], nodes[i], nodes[i + 1])
}

/// No step of the walk uses edge `g`.
pub open spec fn avoids(via: Seq<int>, g: int) -> bool {
    forall|i: int| 0 <= i < via.len() ==> via[i] != g
}

/// `a` and `b` are connected by a walk that never uses edge `g`.
pub open spec fn connected_avoiding(edges: Seq<(usize, usize)>, a: int, b: int, g: int) -> bool {
    exists|nodes: Seq<int>, via: Seq<int>|
        #![trigger is_walk(edges, nodes, via), avoids(via, g)]
        is_walk(edges, nodes, via) && nodes[0] == a && nodes[nodes.len() - 1] == b && avoids(via, g)
}

/// Edge `g` lies on an undirected cycle.
pub open spec fn on_cycle(edges: Seq<(usize, usize)>, g: int) -> bool {
    0 <= g < edges.len() && connected_avoiding(edges, edges[g].0 as int, edges[g].1 as int, g)
}

/// The declared edges contain an undirected cycle.
pub open spec fn has_undirected_cycle_spec(edges: Seq<(usize, usize)>) -> bool {
    exists|g: int| #[trigger] on_cycle(edges, g)
}

/// A rooted spanning forest over `n` loci: `pe[v]` is the edge to the
/// parent `par[v]` (or -1 at a root), parents are strictly shallower, and
/// every declared edge is the parent edge of one of its endpoints.
pub open spec fn forest_certificate(
    edges: Seq<(usize, usize)>,
    n: int,
    pe: Seq<int>,
    par: Seq<int>,
    depth: Seq<int>,
) -> bool {
    &&& pe.len() == n
    &&& par.len() == n
    &&& depth.len() == n
    &&& forall|g: int| 0 <= g < edges.len() ==> edges[g].0 < n && edges[g].1 < n
    &&& forall|v: int| 0 <= v < n ==> #[trigger] forest_node_ok(edges, n, pe, par, depth, v)
    &&& forall|g: int| 0 <= g < edges.len() ==> #[trigger] parent_edge_of_some(pe, n, g)
}

/// Locus `v` is a root, or hangs below a strictly shallower parent through
/// an edge joining the two.
pub open spec fn forest_node_ok(
    edges: Seq<(usize, usize)>,
    n: int,
    pe: Seq<int>,
    par: Seq<int>,
    depth: Seq<int>,
    v: int,
) -> bool {
    &&& depth[v] >= 0
    &&& (pe[v] == -1 || (0 <= par[v] < n && joins(edges, pe[v], v, par[v]) && depth[par[v]] < depth[v]))
}

/// Edge `g` is the parent edge of some locus.
pub open spec fn parent_edge_of_some(pe: Seq<int>, n: int, g: int) -> bool {
    exists|c: int| 0 <= c < n && #[trigger] pe[c] == g
}

/// The `k`-th ancestor of `v` (a root is its own ancestor).
pub open spec fn ancestor(pe: Seq<int>, par: Seq<int>, v: int, k: nat) -> int
    decreases k,
{
    if k == 0 || pe[v] == -1 {
        v
    } else {
        ancestor(pe, par, par[v], (k - 1) as nat)
    }
}

/// `v` lies in the subtree rooted at `c`.
pub open spec fn in_subtree(pe: Seq<int>, par: Seq<int>, v: int, c: int) -> bool {
    exists|k: nat| #[trigger] ancestor(pe, par, v, k) == c
}

proof fn lemma_ancestor_shallower(
    edges: Seq<(usize, usize)>,
    n: int,
    pe: Seq<int>,
    par: Seq<int>,
    depth: Seq<int>,
    v: int,
    k: nat,
)
    requires
        forest_certificate(edges, n, pe, par, depth),
        0 <= v < n,
    ensures
        0 <= ancestor(pe, par, v, k) < n,
        depth[ancestor(pe, par, v, k)] <= depth[v],
    decreases k,
{
    assert(forest_node_ok(edges, n, pe, par, depth, v));
    if k > 0 && pe[v] != -1 {
        lemma_ancestor_shallower(edges, n, pe, par, depth, par[v], (k - 1) as nat);
    }
}

proof fn lemma_subtree_step(
    edges: Seq<(usize, usize)>,
    n: int,
    pe: Seq<int>,
    par: Seq<int>,
    depth: Seq<int>,
    w: int,
    c: int,
)
    requires
        forest_certificate(edges, n, pe, par, depth),
        0 <= w < n,
        pe[w] != -1,
        w != c,
    ensures
        in_subtree(pe, par, w, c) == in_subtree(pe, par, par[w], c),
{
    assert(forest_node_ok(edges, n, pe, par, depth, w));
    if in_subtree(pe, par, w, c) {
        let k = choose|k: nat| #[trigger] ancestor(pe, par, w, k) == c;
        assert(k > 0);
        assert(ancestor(pe, par, par[w], (k - 1) as nat) == c);
    }
    if in_subtree(pe, par, par[w], c) {
        let k = choose|k: nat| #[trigger] ancestor(pe, par, par[w], k) == c;
        assert(ancestor(pe, par, w, k + 1) == c);
    }
}

/// Along a walk whose ends differ in subtree membership, some step crosses.
proof fn lemma_walk_crosses(
    edges: Seq<(usize, usize)>,
    pe: Seq<int>,
    par: Seq<int>,
    nodes: Seq<int>,
    via: Seq<int>,
    c: int,
) -> (i: int)
    requires
        is_walk(edges, nodes, via),
        in_subtree(pe, par, nodes[0], c) != in_subtree(pe, par, nodes[nodes.len() - 1], c),
    ensures
        0 <= i < via.len(),
        in_subtree(pe, par, nodes[i], c) != in_subtree(pe, par, nodes[i + 1], c),
    decreases nodes.len(),
{
    if in_subtree(pe, par, nodes[0], c) != in_subtree(pe, par, nodes[1], c) {
        0
    } else {
        let nodes2 = nodes.drop_first();
        let via2 = via.drop_first();
        assert forall|i: int| 0 <= i < via2.len() implies joins(
            edges,
            via2[i],
            nodes2[i],
            nodes2[i + 1],
        ) by {
            assert(via2[i] == via[i + 1]);
        }
        let i = lemma_walk_crosses(edges, pe, par, nodes2, via2, c);
        assert(via2[i] == via[i + 1]);
        i + 1
    }
}

/// A forest certificate rules out every undirected cycle.
pub proof fn lemma_forest_acyclic(
    edges: Seq<(usize, usize)>,
    n: int,
    pe: Seq<int>,
    par: Seq<int>,
    depth: Seq<int>,
)
    requires
        forest_certificate(edges, n, pe, par, depth),
    ensures
        !has_undirected_cycle_spec(edges),
{
    assert forall|g: int| !#[trigger] on_cycle(edges, g) by {
        if on_cycle(edges, g) {
            assert(parent_edge_of_some(pe, n, g));
            let c = choose|c: int| 0 <= c < n && #[trigger] pe[c] == g;
            let p = par[c];
            assert(forest_node_ok(edges, n, pe, par, depth, c));
            let (nodes, via) = choose|nodes: Seq<int>, via: Seq<int>|
                #![trigger is_walk(edges, nodes, via), avoids(via, g)]
                is_walk(edges, nodes, via) && nodes[0] == edges[g].0 as int && nodes[nodes.len()
                    - 1] == edges[g].1 as int && avoids(via, g);
            assert(ancestor(pe, par, c, 0) == c);
            assert(in_subtree(pe, par, c, c));
            assert(!in_subtree(pe, par, p, c)) by {
                if in_subtree(pe, par, p, c) {
                    let k = choose|k: nat| #[trigger] ancestor(pe, par, p, k) == c;
                    lemma_ancestor_shallower(edges, n, pe, par, depth, p, k);
                }
            }
            let i = lemma_walk_crosses(edges, pe, par, nodes, via, c);
            let f = via[i];
            let u = nodes[i];
            let w = nodes[i + 1];
            assert(joins(edges, f, u, w));
            assert(f != g);
            assert(parent_edge_of_some(pe, n, f));
            let c2 = choose|c2: int| 0 <= c2 < n && #[trigger] pe[c2] == f;
            assert(c2 != c);
            assert(forest_node_ok(edges, n, pe, par, depth, c2));
            lemma_subtree_step(edges, n, pe, par, depth, c2, c);
            assert((u == c2 && w == par[c2]) || (u == par[c2] && w == c2) || u == w);
        }
    }
}


// ---------------------------------------------------------------------------
// Undirected adjacency built from the directed edge list.
// ---------------------------------------------------------------------------

/// `adj[v][j]` is the neighbour of `v` reached through edge `adj_e[v][j]`;
/// the edges listed at each locus are ascending, and an edge listed twice at
/// the same locus is a self-loop there. Every listed edge is below `bound`.
#[verifier::opaque]
pub open spec fn adjacency_ok(
    edges: Seq<(usize, usize)>,
    n: int,
    adj: Seq<Vec<usize>>,
    adj_e: Seq<Seq<int>>,
    bound: int,
) -> bool {
    &&& adj.len() == n
    &&& adj_e.len() == n
    &&& forall|v: int| 0 <= v < n ==> #[trigger] adj[v]@.len() == adj_e[v].len()
    &&& forall|v: int, j: int|
        0 <= v < n && 0 <= j < adj_e[v].len() ==> 0 <= #[trigger] adj_e[v][j] < bound && joins(
            edges,
            adj_e[v][j],
            v,
            adj[v]@[j] as int,
        )
    &&& forall|v: int, j1: int, j2: int|
        0 <= v < n && 0 <= j1 < j2 < adj_e[v].len() ==> #[trigger] adj_e[v][j1] < #[trigger] adj_e[v][j2]
            || (adj_e[v][j1] == adj_e[v][j2] && edges[adj_e[v][j1]].0 == v && edges[adj_e[v][j1]].1
            == v)
}

/// Each edge below `bound` is listed at its source (position `src_pos[g]`)
/// and at its target (position `dst_pos[g]`).
#[verifier::opaque]
pub open spec fn adjacency_complete(
    edges: Seq<(usize, usize)>,
    adj_e: Seq<Seq<int>>,
    src_pos: Seq<int>,
    dst_pos: Seq<int>,
    bound: int,
) -> bool {
    &&& src_pos.len() == bound
    &&& dst_pos.len() == bound
    &&& forall|g: int|
        0 <= g < bound ==> 0 <= #[trigger] src_pos[g] < adj_e[edges[g].0 as int].len()
            && adj_e[edges[g].0 as int][src_pos[g]] == g
    &&& forall|g: int|
        0 <= g < bound ==> 0 <= #[trigger] dst_pos[g] < adj_e[edges[g].1 as int].len()
            && adj_e[edges[g].1 as int][dst_pos[g]] == g
}

proof fn lemma_adj_init(
    edges: Seq<(usize, usize)>,
    n: int,
    adj: Seq<Vec<usize>>,
    adj_e: Seq<Seq<int>>,
)
    requires
        adj.len() == n,
        adj_e.len() == n,
        forall|v: int| 0 <= v < n ==> #[trigger] adj[v]@.len() == 0,
        forall|v: int| 0 <= v < n ==> #[trigger] adj_e[v].len() == 0,
    ensures
        adjacency_ok(edges, n, adj, adj_e, 0),
        adjacency_complete(edges, adj_e, Seq::empty(), Seq::empty(), 0),
{
    reveal(adjacency_ok);
    reveal(adjacency_complete);
}

/// Listing edge `e` at its source and then at its target keeps the
/// adjacency well formed and complete up to `e + 1`.
proof fn lemma_adj_step(
    edges: Seq<(usize, usize)>,
    n: int,
    adj0: Seq<Vec<usize>>,
    adj1: Seq<Vec<usize>>,
    adj2: Seq<Vec<usize>>,
    adj_e: Seq<Seq<int>>,
    src_pos: Seq<int>,
    dst_pos: Seq<int>,
    e: int,
)
    requires
        0 <= e < edges.len(),
        forall|g: int| 0 <= g < edges.len() ==> edges[g].0 < n && edges[g].1 < n,
        adjacency_ok(edges, n, adj0, adj_e, e),
        adjacency_complete(edges, adj_e, src_pos, dst_pos, e),
        adj1.len() == n,
        adj2.len() == n,
        forall|v: int| 0 <= v < n && v != edges[e].0 ==> #[trigger] adj1[v]@ == adj0[v]@,
        adj1[edges[e].0 as int]@ == adj0[edges[e].0 as int]@.push(edges[e].1),
        forall|v: int| 0 <= v < n && v != edges[e].1 ==> #[trigger] adj2[v]@ == adj1[v]@,
        adj2[edges[e].1 as int]@ == adj1[edges[e].1 as int]@.push(edges[e].0),
    ensures
        ({
            let s = edges[e].0 as int;
            let t = edges[e].1 as int;
            let adj_e1 = adj_e.update(s, adj_e[s].push(e));
            let adj_e2 = adj_e1.update(t, adj_e1[t].push(e));
            &&& adjacency_ok(edges, n, adj2, adj_e2, e + 1)
            &&& adjacency_complete(
                edges,
                adj_e2,
                src_pos.push(adj_e[s].len() as int),
                dst_pos.push(adj_e1[t].len() as int),
                e + 1,
            )
        }),
{
    reveal(adjacency_ok);
    reveal(adjacency_complete);
    let s = edges[e].0 as int;
    let t = edges[e].1 as int;
    let adj_e1 = adj_e.update(s, adj_e[s].push(e));
    let adj_e2 = adj_e1.update(t, adj_e1[t].push(e));
    let sp = src_pos.push(adj_e[s].len() as int);
    let dp = dst_pos.push(adj_e1[t].len() as int);
    assert(joins(edges, e, s, t));
    assert forall|v: int| 0 <= v < n implies #[trigger] adj2[v]@.len() == adj_e2[v].len() by {
    }
    assert forall|v: int, j: int|
        0 <= v < n && 0 <= j < adj_e2[v].len() implies 0 <= #[trigger] adj_e2[v][j] < e + 1 && joins(
        edges,
        adj_e2[v][j],
        v,
        adj2[v]@[j] as int,
    ) by {
        if v == s && v == t {
            if j < adj_e[v].len() {
                assert(adj_e2[v][j] == adj_e[v][j]);
                assert(adj2[v]@[j] == adj0[v]@[j]);
            }
        } else if v == s {
            if j < adj_e[v].len() {
                assert(adj_e2[v][j] == adj_e[v][j]);
                assert(adj2[v]@[j] == adj0[v]@[j]);
            }
        } else if v == t {
            if j < adj_e[v].len() {
                assert(adj_e2[v][j] == adj_e[v][j]);
                assert(adj2[v]@[j] == adj0[v]@[j]);
            }
        } else {
            assert(adj_e2[v][j] == adj_e[v][j]);
            assert(adj2[v]@[j] == adj0[v]@[j]);
        }
    }
    assert forall|v: int, j1: int, j2: int|
        0 <= v < n && 0 <= j1 < j2 < adj_e2[v].len() implies #[trigger] adj_e2[v][j1] < #[trigger] adj_e2[v][j2]
        || (adj_e2[v][j1] == adj_e2[v][j2] && edges[adj_e2[v][j1]].0 == v && edges[adj_e2[v][j1]].1
        == v) by {
        let l = adj_e[v].len();
        if j1 < l {
            assert(adj_e2[v][j1] == adj_e[v][j1]);
            assert(adj_e[v][j1] < e);
            if j2 < l {
                assert(adj_e2[v][j2] == adj_e[v][j2]);
            }
        }
    }
    assert forall|g: int|
        0 <= g < e + 1 implies 0 <= #[trigger] sp[g] < adj_e2[edges[g].0 as int].len()
        && adj_e2[edges[g].0 as int][sp[g]] == g by {
        if g < e {
            let a = edges[g].0 as int;
            assert(sp[g] == src_pos[g]);
            assert(adj_e1[a][src_pos[g]] == adj_e[a][src_pos[g]]);
            assert(adj_e2[a][src_pos[g]] == adj_e1[a][src_pos[g]]);
        }
    }
    assert forall|g: int|
        0 <= g < e + 1 implies 0 <= #[trigger] dp[g] < adj_e2[edges[g].1 as int].len()
        && adj_e2[edges[g].1 as int][dp[g]] == g by {
        if g < e {
            let b = edges[g].1 as int;
            assert(dp[g] == dst_pos[g]);
            assert(adj_e1[b][dst_pos[g]] == adj_e[b][dst_pos[g]]);
            assert(adj_e2[b][dst_pos[g]] == adj_e1[b][dst_pos[g]]);
        }
    }
}

// ---------------------------------------------------------------------------
// The trace of the depth-first search, kept for the proof only.
// ---------------------------------------------------------------------------

/// Every push is logged as (node, from, edge, position in from's list); a
/// component root is pushed with from = edge = position = -1. `sidx` gives
/// the log index of each stack entry, `first[v]` the log index of the pop
/// that visited `v` (-1 while unvisited), `order` the visiting order, and
/// `pidx[v][j]` the log index pushed for position `j` of `v` (-1 when that
/// neighbour was the parent and skipped).
pub struct DfsTrace {
    pub log: Seq<(int, int, int, int)>,
    pub sidx: Seq<int>,
    pub popped: Seq<bool>,
    pub first: Seq<int>,
    pub order: Seq<int>,
    pub depth: Seq<int>,
    pub root_of: Seq<int>,
    pub pidx: Seq<Seq<int>>,
    pub clock: int,
}

/// The locus from which `v` was first reached (-1 for a root).
pub open spec fn tparent(t: DfsTrace, v: int) -> int {
    t.log[t.first[v]].1
}

/// The edge through which `v` was first reached (-1 for a root).
pub open spec fn tedge(t: DfsTrace, v: int) -> int {
    t.log[t.first[v]].2
}

pub open spec fn log_entry_ok(
    edges: Seq<(usize, usize)>,
    n: int,
    adj: Seq<Vec<usize>>,
    adj_e: Seq<Seq<int>>,
    t: DfsTrace,
    i: int,
) -> bool {
    let y = t.log[i].0;
    let x = t.log[i].1;
    let g = t.log[i].2;
    let j = t.log[i].3;
    &&& 0 <= y < n
    &&& (x == -1 ==> g == -1 && j == -1)
    &&& (x != -1 ==> {
        &&& 0 <= x < n
        &&& t.first[x] >= 0
        &&& 0 <= j < adj[x]@.len()
        &&& adj_e[x][j] == g
        &&& adj[x]@[j] == y
        &&& j < t.pidx[x].len()
        &&& t.pidx[x][j] == i
        &&& y != tparent(t, x)
    })
}

pub open spec fn tree_node_ok(n: int, t: DfsTrace, v: int) -> bool {
    let i = t.first[v];
    let x = t.log[i].1;
    &&& 0 <= i < t.log.len()
    &&& t.popped[i]
    &&& t.log[i].0 == v
    &&& t.depth[v] >= 0
    &&& 0 <= t.order[v] < t.clock
    &&& 0 <= t.root_of[v] < n
    &&& t.first[t.root_of[v]] >= 0
    &&& (x == -1 ==> t.depth[v] == 0 && t.root_of[v] == v)
    &&& (x != -1 ==> t.order[x] < t.order[v] && t.depth[v] == t.depth[x] + 1 && t.root_of[v]
        == t.root_of[x])
}

/// The first `upto` neighbours of `v` have been handled: each was either its
/// parent (skipped) or pushed as logged.
pub open spec fn processed(
    adj: Seq<Vec<usize>>,
    adj_e: Seq<Seq<int>>,
    t: DfsTrace,
    v: int,
    upto: int,
) -> bool {
    &&& t.pidx[v].len() == upto
    &&& forall|j: int|
        0 <= j < upto ==> {
            &&& (#[trigger] t.pidx[v][j] == -1 ==> adj[v]@[j] == tparent(t, v))
            &&& (t.pidx[v][j] != -1 ==> 0 <= t.pidx[v][j] < t.log.len() && t.log[t.pidx[v][j]] == (
                adj[v]@[j] as int,
                v,
                adj_e[v][j],
                j,
            ))
        }
}

/// Every neighbour of `v` has been visited, within the same tree.
pub open spec fn closed(adj: Seq<Vec<usize>>, t: DfsTrace, v: int) -> bool {
    forall|j: int|
        0 <= j < adj[v]@.len() ==> t.first[#[trigger] adj[v]@[j] as int] >= 0 && t.root_of[adj[v]@[j] as int]
            == t.root_of[v]
}

/// Invariants of the search that hold whatever component is being explored.
/// `cur` is the locus whose neighbours are being pushed (its first `cur_j`
/// are done), or -1.
#[verifier::opaque]
pub open spec fn dfs_inv(
    edges: Seq<(usize, usize)>,
    n: int,
    adj: Seq<Vec<usize>>,
    adj_e: Seq<Seq<int>>,
    visited: Seq<bool>,
    t: DfsTrace,
    cur: int,
    cur_j: int,
) -> bool {
    &&& visited.len() == n
    &&& t.first.len() == n
    &&& t.order.len() == n
    &&& t.depth.len() == n
    &&& t.root_of.len() == n
    &&& t.pidx.len() == n
    &&& t.popped.len() == t.log.len()
    &&& t.clock >= 0
    &&& forall|v: int| 0 <= v < n ==> #[trigger] visited[v] == (t.first[v] >= 0)
    &&& forall|i: int| 0 <= i < t.log.len() ==> #[trigger] log_entry_ok(edges, n, adj, adj_e, t, i)
    &&& forall|i: int| 0 <= i < t.log.len() && #[trigger] t.popped[i] ==> t.first[t.log[i].0] == i
    &&& forall|v: int| 0 <= v < n && #[trigger] t.first[v] >= 0 ==> tree_node_ok(n, t, v)
    &&& forall|v: int| 0 <= v < n && #[trigger] t.first[v] < 0 ==> t.pidx[v].len() == 0
    &&& forall|v: int|
        0 <= v < n && v != cur && #[trigger] t.first[v] >= 0 ==> processed(
            adj,
            adj_e,
            t,
            v,
            adj[v]@.len() as int,
        )
    &&& (cur != -1 ==> 0 <= cur < n && t.first[cur] >= 0 && processed(adj, adj_e, t, cur, cur_j))
    &&& forall|v: int, w: int|
        0 <= v < n && 0 <= w < n && v != w && t.first[v] >= 0 && t.first[w] >= 0 ==> #[trigger] t.order[v]
            != #[trigger] t.order[w]
}

/// The stack mirrors the unpopped log entries of the component rooted at `start`.
#[verifier::opaque]
pub open spec fn comp_inv(
    n: int,
    adj: Seq<Vec<usize>>,
    stack: Seq<(usize, Option<usize>)>,
    t: DfsTrace,
    start: int,
) -> bool {
    &&& 0 <= start < n
    &&& stack.len() == t.sidx.len()
    &&& forall|k: int|
        0 <= k < t.sidx.len() ==> {
            let i = #[trigger] t.sidx[k];
            &&& 0 <= i < t.log.len()
            &&& !t.popped[i]
            &&& stack[k].0 == t.log[i].0
            &&& (t.log[i].1 == -1 <==> stack[k].1 is None)
            &&& (stack[k].1 is Some ==> stack[k].1.unwrap() == t.log[i].1)
            &&& (t.log[i].1 != -1 ==> t.root_of[t.log[i].1] == start)
            &&& (t.log[i].1 == -1 ==> t.log[i].0 == start && t.first[start] < 0)
        }
    &&& forall|k1: int, k2: int|
        0 <= k1 < k2 < t.sidx.len() ==> #[trigger] t.sidx[k1] < #[trigger] t.sidx[k2]
    &&& forall|i: int|
        0 <= i < t.log.len() && !#[trigger] t.popped[i] ==> exists|k: int|
            0 <= k < t.sidx.len() && t.sidx[k] == i
    &&& forall|v: int|
        0 <= v < n && t.first[v] >= 0 && #[trigger] t.root_of[v] != start ==> closed(adj, t, v)
    &&& (t.first[start] < 0 ==> t.sidx.len() == 1 && t.log[t.sidx[0]].1 == -1)
}

/// Between components: every pushed entry has been popped and every
/// visited locus has all its neighbours visited in its own tree.
#[verifier::opaque]
pub open spec fn settled(n: int, adj: Seq<Vec<usize>>, t: DfsTrace, start: int) -> bool {
    &&& forall|i: int| 0 <= i < t.log.len() ==> #[trigger] t.popped[i]
    &&& forall|v: int| 0 <= v < n && #[trigger] t.first[v] >= 0 ==> closed(adj, t, v)
    &&& forall|v: int| 0 <= v < start ==> #[trigger] t.first[v] >= 0
}

/// Number of unvisited loci.
pub open spec fn count_unvisited(visited: Seq<bool>) -> nat
    decreases visited.len(),
{
    if visited.len() == 0 {
        0
    } else {
        count_unvisited(visited.drop_last()) + if visited.last() {
            0nat
        } else {
            1nat
        }
    }
}

proof fn lemma_count_visit(visited: Seq<bool>, v: int)
    requires
        0 <= v < visited.len(),
        !visited[v],
    ensures
        count_unvisited(visited.update(v, true)) + 1 == count_unvisited(visited),
    decreases visited.len(),
{
    let u = visited.update(v, true);
    if v < visited.len() - 1 {
        assert(u.drop_last() =~= visited.drop_last().update(v, true));
        lemma_count_visit(visited.drop_last(), v);
    } else {
        assert(u.drop_last() =~= visited.drop_last());
    }
}

/// Walk from `v` up its search tree to the root, using tree edges only.
proof fn lemma_tree_walk(
    edges: Seq<(usize, usize)>,
    n: int,
    adj: Seq<Vec<usize>>,
    adj_e: Seq<Seq<int>>,
    visited: Seq<bool>,
    t: DfsTrace,
    cur: int,
    cur_j: int,
    bound: int,
    v: int,
    g: int,
) -> (w: (Seq<int>, Seq<int>))
    requires
        adjacency_ok(edges, n, adj, adj_e, bound),
        dfs_inv(edges, n, adj, adj_e, visited, t, cur, cur_j),
        0 <= v < n,
        t.first[v] >= 0,
        forall|u: int| 0 <= u < n && t.first[u] >= 0 && tparent(t, u) != -1 ==> #[trigger] tedge(t, u) != g,
    ensures
        is_walk(edges, w.0, w.1),
        w.0[0] == v,
        w.0[w.0.len() - 1] == t.root_of[v],
        avoids(w.1, g),
    decreases t.depth[v],
{
    reveal(adjacency_ok);
    reveal(adjacency_complete);
    reveal(dfs_inv);
    reveal(comp_inv);
    reveal(settled);
    assert(tree_node_ok(n, t, v));
    let x = tparent(t, v);
    if x == -1 {
        (seq![v], Seq::empty())
    } else {
        let i = t.first[v];
        assert(log_entry_ok(edges, n, adj, adj_e, t, i));
        let j = t.log[i].3;
        assert(joins(edges, adj_e[x][j], x, adj[x]@[j] as int));
        assert(tedge(t, v) != g);
        let (nodes, via) = lemma_tree_walk(edges, n, adj, adj_e, visited, t, cur, cur_j, bound, x, g);
        let nodes2 = seq![v] + nodes;
        let via2 = seq![tedge(t, v)] + via;
        assert forall|k: int| 0 <= k < via2.len() implies joins(
            edges,
            #[trigger] via2[k],
            nodes2[k],
            nodes2[k + 1],
        ) by {
            if k > 0 {
                assert(via2[k] == via[k - 1]);
                assert(nodes2[k] == nodes[k - 1]);
                assert(nodes2[k + 1] == nodes[k]);
            }
        }
        assert forall|k: int| 0 <= k < via2.len() implies via2[k] != g by {
            if k > 0 {
                assert(via2[k] == via[k - 1]);
            }
        }
        (nodes2, via2)
    }
}

/// Two walks ending at the same locus give a walk between their starts.
proof fn lemma_walk_join(
    edges: Seq<(usize, usize)>,
    a: (Seq<int>, Seq<int>),
    b: (Seq<int>, Seq<int>),
    g: int,
)
    requires
        is_walk(edges, a.0, a.1),
        is_walk(edges, b.0, b.1),
        a.0[a.0.len() - 1] == b.0[b.0.len() - 1],
        avoids(a.1, g),
        avoids(b.1, g),
    ensures
        connected_avoiding(edges, a.0[0], b.0[0], g),
{
    let rb = b.0.reverse();
    let nodes = a.0 + rb.drop_first();
    let via = a.1 + b.1.reverse();
    let la = a.1.len() as int;
    let lb = b.1.len() as int;
    assert forall|k: int| 0 <= k < via.len() implies joins(
        edges,
        #[trigger] via[k],
        nodes[k],
        nodes[k + 1],
    ) by {
        if k < la {
            assert(via[k] == a.1[k]);
            assert(nodes[k] == a.0[k]);
            assert(nodes[k + 1] == a.0[k + 1]);
        } else {
            let q = k - la;
            assert(via[k] == b.1[lb - 1 - q]);
            assert(joins(edges, b.1[lb - 1 - q], b.0[lb - 1 - q], b.0[lb - q]));
            assert(nodes[k + 1] == b.0[lb - 1 - q]);
            if q == 0 {
                assert(nodes[k] == a.0[la]);
            } else {
                assert(nodes[k] == b.0[lb - q]);
            }
        }
    }
    assert forall|k: int| 0 <= k < via.len() implies via[k] != g by {
        if k < la {
            assert(via[k] == a.1[k]);
        } else {
            assert(via[k] == b.1[lb - 1 - (k - la)]);
        }
    }
    if lb == 0 {
        assert(nodes[nodes.len() - 1] == a.0[la]);
    } else {
        assert(nodes[nodes.len() - 1] == b.0[0]);
    }
    assert(is_walk(edges, nodes, via));
    assert(avoids(via, g));
}


/// Popping an already visited locus exhibits an edge on a cycle.
proof fn lemma_detected_cycle(
    edges: Seq<(usize, usize)>,
    n: int,
    m: int,
    adj: Seq<Vec<usize>>,
    adj_e: Seq<Seq<int>>,
    src_pos: Seq<int>,
    dst_pos: Seq<int>,
    visited: Seq<bool>,
    t: DfsTrace,
    stack: Seq<(usize, Option<usize>)>,
    start: int,
)
    requires
        m == edges.len(),
        forall|g: int| 0 <= g < m ==> edges[g].0 < n && edges[g].1 < n,
        adjacency_ok(edges, n, adj, adj_e, m),
        adjacency_complete(edges, adj_e, src_pos, dst_pos, m),
        dfs_inv(edges, n, adj, adj_e, visited, t, -1, 0),
        comp_inv(n, adj, stack, t, start),
        stack.len() > 0,
        t.first[stack[stack.len() - 1].0 as int] >= 0,
    ensures
        has_undirected_cycle_spec(edges),
{
    reveal(adjacency_ok);
    reveal(adjacency_complete);
    reveal(dfs_inv);
    reveal(comp_inv);
    reveal(settled);
    let k = t.sidx.len() - 1;
    let i = t.sidx[k];
    assert(log_entry_ok(edges, n, adj, adj_e, t, i));
    let y = t.log[i].0;
    let x = t.log[i].1;
    let g = t.log[i].2;
    let j = t.log[i].3;
    assert(x != -1);
    assert(t.root_of[x] == start);
    assert(joins(edges, adj_e[x][j], x, adj[x]@[j] as int));
    assert(joins(edges, g, x, y));
    let i0 = t.first[y];
    assert(tree_node_ok(n, t, y));
    assert(i0 != i);
    if x == y {
        let nodes = seq![x];
        let via = Seq::<int>::empty();
        assert(is_walk(edges, nodes, via));
        assert(avoids(via, g));
        assert(on_cycle(edges, g));
    } else {
        // `y` lies in the current tree: otherwise its closed neighbourhood
        // would put `x` in an earlier tree.
        if t.root_of[y] != start {
            assert(closed(adj, t, y));
            let p = if edges[g].0 == y {
                src_pos[g]
            } else {
                dst_pos[g]
            };
            assert(0 <= p < adj_e[y].len());
            assert(adj_e[y][p] == g);
            assert(joins(edges, adj_e[y][p], y, adj[y]@[p] as int));
            assert(adj[y]@[p] as int == x);
        }
        assert(t.root_of[y] == start);
        // No tree edge is `g`.
        assert forall|u: int|
            0 <= u < n && t.first[u] >= 0 && tparent(t, u) != -1 implies #[trigger] tedge(t, u)
            != g by {
            let iu = t.first[u];
            assert(log_entry_ok(edges, n, adj, adj_e, t, iu));
            let xu = t.log[iu].1;
            let ju = t.log[iu].3;
            assert(joins(edges, adj_e[xu][ju], xu, adj[xu]@[ju] as int));
            if tedge(t, u) == g {
                assert(joins(edges, g, xu, u));
                if u == x {
                    assert(xu == y);
                } else {
                    assert(u == y && xu == x);
                    assert(t.pidx[x][ju] == iu);
                    assert(t.pidx[x][j] == i);
                    assert(ju != j);
                    if ju < j {
                        assert(adj_e[x][ju] < adj_e[x][j] || (adj_e[x][ju] == adj_e[x][j]
                            && edges[adj_e[x][ju]].0 == x && edges[adj_e[x][ju]].1 == x));
                    } else {
                        assert(adj_e[x][j] < adj_e[x][ju] || (adj_e[x][j] == adj_e[x][ju]
                            && edges[adj_e[x][j]].0 == x && edges[adj_e[x][j]].1 == x));
                    }
                }
            }
        }
        let wx = lemma_tree_walk(edges, n, adj, adj_e, visited, t, -1, 0, m, x, g);
        let wy = lemma_tree_walk(edges, n, adj, adj_e, visited, t, -1, 0, m, y, g);
        lemma_walk_join(edges, wx, wy, g);
        lemma_walk_join(edges, wy, wx, g);
        assert(on_cycle(edges, g));
    }
}

/// The empty search: nothing visited, nothing logged.
pub open spec fn empty_trace(n: int) -> DfsTrace {
    DfsTrace {
        log: Seq::empty(),
        sidx: Seq::empty(),
        popped: Seq::empty(),
        first: Seq::new(n as nat, |v: int| -1int),
        order: Seq::new(n as nat, |v: int| 0int),
        depth: Seq::new(n as nat, |v: int| 0int),
        root_of: Seq::new(n as nat, |v: int| 0int),
        pidx: Seq::new(n as nat, |v: int| Seq::<int>::empty()),
        clock: 0,
    }
}

proof fn lemma_dfs_init(
    edges: Seq<(usize, usize)>,
    n: int,
    adj: Seq<Vec<usize>>,
    adj_e: Seq<Seq<int>>,
    visited: Seq<bool>,
)
    requires
        n >= 0,
        visited.len() == n,
        forall|v: int| 0 <= v < n ==> !#[trigger] visited[v],
    ensures
        dfs_inv(edges, n, adj, adj_e, visited, empty_trace(n), -1, 0),
        settled(n, adj, empty_trace(n), 0),
{
    reveal(dfs_inv);
    reveal(settled);
}

/// The trace after pushing the root of a new component.
pub open spec fn start_trace(t: DfsTrace, start: int) -> DfsTrace {
    DfsTrace {
        log: t.log.push((start, -1int, -1int, -1int)),
        sidx: seq![t.log.len() as int],
        popped: t.popped.push(false),
        first: t.first,
        order: t.order,
        depth: t.depth,
        root_of: t.root_of,
        pidx: t.pidx,
        clock: t.clock,
    }
}

/// The trace after popping log entry `i` and visiting `node`.
pub open spec fn visit_trace(t: DfsTrace, node: int, i: int) -> DfsTrace {
    let x = t.log[i].1;
    DfsTrace {
        log: t.log,
        sidx: t.sidx.drop_last(),
        popped: t.popped.update(i, true),
        first: t.first.update(node, i),
        order: t.order.update(node, t.clock),
        depth: t.depth.update(
            node,
            if x == -1 {
                0
            } else {
                t.depth[x] + 1
            },
        ),
        root_of: t.root_of.update(
            node,
            if x == -1 {
                node
            } else {
                t.root_of[x]
            },
        ),
        pidx: t.pidx,
        clock: t.clock + 1,
    }
}

/// The trace after `node` pushes its neighbour at position `j`.
pub open spec fn push_trace(t: DfsTrace, node: int, nbr: int, g: int, j: int) -> DfsTrace {
    let li = t.log.len() as int;
    DfsTrace {
        log: t.log.push((nbr, node, g, j)),
        sidx: t.sidx.push(li),
        popped: t.popped.push(false),
        first: t.first,
        order: t.order,
        depth: t.depth,
        root_of: t.root_of,
        pidx: t.pidx.update(node, t.pidx[node].push(li)),
        clock: t.clock,
    }
}

/// The trace after `node` skips its parent at the next position.
pub open spec fn skip_trace(t: DfsTrace, node: int) -> DfsTrace {
    DfsTrace {
        log: t.log,
        sidx: t.sidx,
        popped: t.popped,
        first: t.first,
        order: t.order,
        depth: t.depth,
        root_of: t.root_of,
        pidx: t.pidx.update(node, t.pidx[node].push(-1)),
        clock: t.clock,
    }
}

proof fn lemma_start(
    edges: Seq<(usize, usize)>,
    n: int,
    m: int,
    adj: Seq<Vec<usize>>,
    adj_e: Seq<Seq<int>>,
    visited: Seq<bool>,
    t: DfsTrace,
    start: int,
)
    requires
        adjacency_ok(edges, n, adj, adj_e, m),
        dfs_inv(edges, n, adj, adj_e, visited, t, -1, 0),
        settled(n, adj, t, start),
        0 <= start < n,
        n <= usize::MAX,
        !visited[start],
    ensures
        dfs_inv(edges, n, adj, adj_e, visited, start_trace(t, start), -1, 0),
        comp_inv(n, adj, seq![(start as usize, None::<usize>)], start_trace(t, start), start),
        forall|v: int| 0 <= v < start ==> #[trigger] start_trace(t, start).first[v] >= 0,
{
    reveal(adjacency_ok);
    reveal(adjacency_complete);
    reveal(dfs_inv);
    reveal(comp_inv);
    reveal(settled);
    let t2 = start_trace(t, start);
    let li = t.log.len() as int;
    assert forall|i: int| 0 <= i < t2.log.len() implies #[trigger] log_entry_ok(
        edges,
        n,
        adj,
        adj_e,
        t2,
        i,
    ) by {
        if i < li {
            assert(log_entry_ok(edges, n, adj, adj_e, t, i));
            assert(t2.log[i] == t.log[i]);
            let x = t.log[i].1;
            if x != -1 {
                assert(tree_node_ok(n, t, x));
                assert(t2.log[t.first[x]] == t.log[t.first[x]]);
            }
        }
    }
    assert forall|i: int| 0 <= i < t2.log.len() && #[trigger] t2.popped[i] implies t2.first[t2.log[i].0]
        == i by {
        assert(i < li);
        assert(t2.log[i] == t.log[i]);
    }
    assert forall|v: int| 0 <= v < n && #[trigger] t2.first[v] >= 0 implies tree_node_ok(n, t2, v) by {
        assert(tree_node_ok(n, t, v));
        assert(t2.log[t.first[v]] == t.log[t.first[v]]);
    }
    assert forall|v: int|
        0 <= v < n && v != -1 && #[trigger] t2.first[v] >= 0 implies processed(
        adj,
        adj_e,
        t2,
        v,
        adj[v]@.len() as int,
    ) by {
        assert(processed(adj, adj_e, t, v, adj[v]@.len() as int));
        assert(tree_node_ok(n, t, v));
        assert(t2.log[t.first[v]] == t.log[t.first[v]]);
        assert forall|j: int| 0 <= j < adj[v]@.len() && #[trigger] t2.pidx[v][j] != -1 implies t2.log[t2.pidx[v][j]] == t.log[t.pidx[v][j]] by {
        }
    }
    assert forall|i: int| 0 <= i < t2.log.len() && !#[trigger] t2.popped[i] implies exists|k: int|
        0 <= k < t2.sidx.len() && t2.sidx[k] == i by {
        assert(i == li);
        assert(t2.sidx[0] == li);
    }
    assert forall|v: int|
        0 <= v < n && t2.first[v] >= 0 && #[trigger] t2.root_of[v] != start implies closed(adj, t2, v) by {
        assert(closed(adj, t, v));
    }
}

proof fn lemma_top(
    edges: Seq<(usize, usize)>,
    n: int,
    adj: Seq<Vec<usize>>,
    adj_e: Seq<Seq<int>>,
    visited: Seq<bool>,
    t: DfsTrace,
    stack: Seq<(usize, Option<usize>)>,
    start: int,
)
    requires
        dfs_inv(edges, n, adj, adj_e, visited, t, -1, 0),
        comp_inv(n, adj, stack, t, start),
        stack.len() > 0,
    ensures
        0 <= stack[stack.len() - 1].0 < n,
        t.sidx.len() > 0,
        t.log[t.sidx[t.sidx.len() - 1]].0 == stack[stack.len() - 1].0,
        visited[stack[stack.len() - 1].0 as int] == (t.first[stack[stack.len() - 1].0 as int] >= 0),
{
    reveal(adjacency_ok);
    reveal(adjacency_complete);
    reveal(dfs_inv);
    reveal(comp_inv);
    reveal(settled);
    let k = t.sidx.len() - 1;
    assert(log_entry_ok(edges, n, adj, adj_e, t, t.sidx[k]));
}

proof fn lemma_visit(
    edges: Seq<(usize, usize)>,
    n: int,
    adj: Seq<Vec<usize>>,
    adj_e: Seq<Seq<int>>,
    m: int,
    visited: Seq<bool>,
    t: DfsTrace,
    stack: Seq<(usize, Option<usize>)>,
    start: int,
)
    requires
        m == edges.len(),
        forall|g: int| 0 <= g < m ==> edges[g].0 < n && edges[g].1 < n,
        adjacency_ok(edges, n, adj, adj_e, m),
        dfs_inv(edges, n, adj, adj_e, visited, t, -1, 0),
        comp_inv(n, adj, stack, t, start),
        stack.len() > 0,
        0 <= stack[stack.len() - 1].0 < n,
        !visited[stack[stack.len() - 1].0 as int],
        forall|v: int| 0 <= v < start ==> #[trigger] t.first[v] >= 0,
    ensures
        ({
            let node = stack[stack.len() - 1].0 as int;
            let parent = stack[stack.len() - 1].1;
            let t2 = visit_trace(t, node, t.sidx[t.sidx.len() - 1]);
            &&& dfs_inv(edges, n, adj, adj_e, visited.update(node, true), t2, node, 0)
            &&& comp_inv(n, adj, stack.drop_last(), t2, start)
            &&& forall|v: int| 0 <= v < start ==> #[trigger] t2.first[v] >= 0
            &&& t2.root_of[node] == start
            &&& (parent is None <==> tparent(t2, node) == -1)
            &&& (parent is Some ==> parent.unwrap() == tparent(t2, node))
        }),
{
    reveal(adjacency_ok);
    reveal(adjacency_complete);
    reveal(dfs_inv);
    reveal(comp_inv);
    reveal(settled);
    let node = stack[stack.len() - 1].0 as int;
    let k = t.sidx.len() - 1;
    let i = t.sidx[k];
    let x = t.log[i].1;
    let t2 = visit_trace(t, node, i);
    let visited2 = visited.update(node, true);
    assert(log_entry_ok(edges, n, adj, adj_e, t, i));
    assert(t.first[node] < 0);
    if x != -1 {
        assert(tree_node_ok(n, t, x));
        assert(x != node);
    }
    assert forall|v: int| 0 <= v < n implies #[trigger] visited2[v] == (t2.first[v] >= 0) by {
    }
    assert forall|i2: int| 0 <= i2 < t2.log.len() implies #[trigger] log_entry_ok(
        edges,
        n,
        adj,
        adj_e,
        t2,
        i2,
    ) by {
        assert(log_entry_ok(edges, n, adj, adj_e, t, i2));
        let x2 = t.log[i2].1;
        if x2 != -1 {
            assert(x2 != node);
        }
    }
    assert forall|i2: int| 0 <= i2 < t2.log.len() && #[trigger] t2.popped[i2] implies t2.first[t2.log[i2].0]
        == i2 by {
        assert(log_entry_ok(edges, n, adj, adj_e, t, i2));
        if i2 != i {
            assert(t.popped[i2]);
            assert(t.first[t.log[i2].0] == i2);
        }
    }
    assert forall|v: int| 0 <= v < n && #[trigger] t2.first[v] >= 0 implies tree_node_ok(n, t2, v) by {
        if v != node {
            assert(tree_node_ok(n, t, v));
            let xv = t.log[t.first[v]].1;
            if xv != -1 {
                assert(log_entry_ok(edges, n, adj, adj_e, t, t.first[v]));
                assert(xv != node);
            }
            assert(t.root_of[v] != node);
        } else {
            if x == -1 {
                assert(t.log[i].0 == start);
            }
        }
    }
    assert forall|v: int|
        0 <= v < n && v != node && #[trigger] t2.first[v] >= 0 implies processed(
        adj,
        adj_e,
        t2,
        v,
        adj[v]@.len() as int,
    ) by {
        assert(processed(adj, adj_e, t, v, adj[v]@.len() as int));
    }
    assert forall|v: int, w: int|
        0 <= v < n && 0 <= w < n && v != w && t2.first[v] >= 0 && t2.first[w] >= 0 implies #[trigger] t2.order[v]
        != #[trigger] t2.order[w] by {
        if v != node {
            assert(tree_node_ok(n, t, v));
        }
        if w != node {
            assert(tree_node_ok(n, t, w));
        }
    }
    assert(dfs_inv(edges, n, adj, adj_e, visited2, t2, node, 0));
    let s2 = stack.drop_last();
    assert forall|k2: int| 0 <= k2 < t2.sidx.len() implies {
        let i3 = #[trigger] t2.sidx[k2];
        &&& 0 <= i3 < t2.log.len()
        &&& !t2.popped[i3]
        &&& s2[k2].0 == t2.log[i3].0
        &&& (t2.log[i3].1 == -1 <==> s2[k2].1 is None)
        &&& (s2[k2].1 is Some ==> s2[k2].1.unwrap() == t2.log[i3].1)
        &&& (t2.log[i3].1 != -1 ==> t2.root_of[t2.log[i3].1] == start)
        &&& (t2.log[i3].1 == -1 ==> t2.log[i3].0 == start && t2.first[start] < 0)
    } by {
        assert(t2.sidx[k2] == t.sidx[k2]);
        assert(t.sidx[k2] < t.sidx[k]);
        let i3 = t.sidx[k2];
        assert(log_entry_ok(edges, n, adj, adj_e, t, i3));
        if t.log[i3].1 != -1 {
            assert(t.log[i3].1 != node);
        } else {
            assert(t.first[start] < 0);
            assert(false);
        }
    }
    assert forall|i2: int| 0 <= i2 < t2.log.len() && !#[trigger] t2.popped[i2] implies exists|k2: int|
        0 <= k2 < t2.sidx.len() && t2.sidx[k2] == i2 by {
        let k2 = choose|k2: int| 0 <= k2 < t.sidx.len() && t.sidx[k2] == i2;
        assert(k2 != k);
        assert(t2.sidx[k2] == i2);
    }
    assert forall|v: int|
        0 <= v < n && t2.first[v] >= 0 && #[trigger] t2.root_of[v] != start implies closed(adj, t2, v) by {
        if v != node {
            assert(closed(adj, t, v));
            assert forall|j: int| 0 <= j < adj[v]@.len() implies t2.first[
                #[trigger] adj[v]@[j] as int] >= 0 && t2.root_of[adj[v]@[j] as int] == t2.root_of[v] by {
                assert(joins(edges, adj_e[v][j], v, adj[v]@[j] as int));
                assert(t.first[adj[v]@[j] as int] >= 0);
            }
        } else {
            if x == -1 {
                assert(t.log[i].0 == start);
            }
        }
    }
    if x == -1 {
        assert(t.log[i].0 == start);
    }
    assert(comp_inv(n, adj, s2, t2, start));
}

proof fn lemma_push(
    edges: Seq<(usize, usize)>,
    n: int,
    m: int,
    adj: Seq<Vec<usize>>,
    adj_e: Seq<Seq<int>>,
    visited: Seq<bool>,
    t: DfsTrace,
    stack: Seq<(usize, Option<usize>)>,
    start: int,
    node: int,
    j: int,
)
    requires
        m == edges.len(),
        forall|g: int| 0 <= g < m ==> edges[g].0 < n && edges[g].1 < n,
        n <= usize::MAX,
        adjacency_ok(edges, n, adj, adj_e, m),
        dfs_inv(edges, n, adj, adj_e, visited, t, node, j),
        comp_inv(n, adj, stack, t, start),
        0 <= node < n,
        0 <= j < adj[node]@.len(),
        adj[node]@[j] != tparent(t, node),
        t.root_of[node] == start,
    ensures
        ({
            let t2 = push_trace(t, node, adj[node]@[j] as int, adj_e[node][j], j);
            &&& dfs_inv(edges, n, adj, adj_e, visited, t2, node, j + 1)
            &&& comp_inv(n, adj, stack.push((adj[node]@[j], Some(node as usize))), t2, start)
            &&& t2.first == t.first
            &&& t2.root_of == t.root_of
            &&& tparent(t2, node) == tparent(t, node)
        }),
{
    reveal(adjacency_ok);
    reveal(adjacency_complete);
    reveal(dfs_inv);
    reveal(comp_inv);
    reveal(settled);
    let nbr = adj[node]@[j] as int;
    let g = adj_e[node][j];
    let li = t.log.len() as int;
    let t2 = push_trace(t, node, nbr, g, j);
    let s2 = stack.push((adj[node]@[j], Some(node as usize)));
    assert(tree_node_ok(n, t, node));
    assert(joins(edges, adj_e[node][j], node, adj[node]@[j] as int));
    assert(t2.log[t.first[node]] == t.log[t.first[node]]);
    assert forall|i2: int| 0 <= i2 < t2.log.len() implies #[trigger] log_entry_ok(
        edges,
        n,
        adj,
        adj_e,
        t2,
        i2,
    ) by {
        if i2 < li {
            assert(log_entry_ok(edges, n, adj, adj_e, t, i2));
            assert(t2.log[i2] == t.log[i2]);
            let x2 = t.log[i2].1;
            if x2 != -1 {
                assert(tree_node_ok(n, t, x2));
                assert(t2.log[t.first[x2]] == t.log[t.first[x2]]);
                let j2 = t.log[i2].3;
                assert(t2.pidx[x2][j2] == t.pidx[x2][j2]);
            }
        } else {
            assert(t2.log[i2] == (nbr, node, g, j));
            assert(t2.pidx[node][j] == li);
        }
    }
    assert forall|i2: int| 0 <= i2 < t2.log.len() && #[trigger] t2.popped[i2] implies t2.first[t2.log[i2].0]
        == i2 by {
        assert(i2 < li);
        assert(t2.log[i2] == t.log[i2]);
    }
    assert forall|v: int| 0 <= v < n && #[trigger] t2.first[v] >= 0 implies tree_node_ok(n, t2, v) by {
        assert(tree_node_ok(n, t, v));
        assert(t2.log[t.first[v]] == t.log[t.first[v]]);
    }
    assert forall|v: int|
        0 <= v < n && v != node && #[trigger] t2.first[v] >= 0 implies processed(
        adj,
        adj_e,
        t2,
        v,
        adj[v]@.len() as int,
    ) by {
        assert(processed(adj, adj_e, t, v, adj[v]@.len() as int));
        assert(tree_node_ok(n, t, v));
        assert(t2.log[t.first[v]] == t.log[t.first[v]]);
        assert forall|j2: int| 0 <= j2 < adj[v]@.len() && #[trigger] t2.pidx[v][j2] != -1 implies t2.log[t2.pidx[v][j2]] == t.log[t.pidx[v][j2]] by {
        }
    }
    assert(processed(adj, adj_e, t, node, j));
    assert forall|j2: int| 0 <= j2 < j + 1 implies {
        &&& (#[trigger] t2.pidx[node][j2] == -1 ==> adj[node]@[j2] == tparent(t2, node))
        &&& (t2.pidx[node][j2] != -1 ==> 0 <= t2.pidx[node][j2] < t2.log.len() && t2.log[t2.pidx[node][j2]] == (
            adj[node]@[j2] as int,
            node,
            adj_e[node][j2],
            j2,
        ))
    } by {
        if j2 < j {
            assert(t2.pidx[node][j2] == t.pidx[node][j2]);
            if t.pidx[node][j2] != -1 {
                assert(t2.log[t.pidx[node][j2]] == t.log[t.pidx[node][j2]]);
            }
        }
    }
    assert(processed(adj, adj_e, t2, node, j + 1));
    assert(dfs_inv(edges, n, adj, adj_e, visited, t2, node, j + 1));
    assert forall|k2: int| 0 <= k2 < t2.sidx.len() implies {
        let i3 = #[trigger] t2.sidx[k2];
        &&& 0 <= i3 < t2.log.len()
        &&& !t2.popped[i3]
        &&& s2[k2].0 == t2.log[i3].0
        &&& (t2.log[i3].1 == -1 <==> s2[k2].1 is None)
        &&& (s2[k2].1 is Some ==> s2[k2].1.unwrap() == t2.log[i3].1)
        &&& (t2.log[i3].1 != -1 ==> t2.root_of[t2.log[i3].1] == start)
        &&& (t2.log[i3].1 == -1 ==> t2.log[i3].0 == start && t2.first[start] < 0)
    } by {
        if k2 < t.sidx.len() {
            assert(t2.sidx[k2] == t.sidx[k2]);
            assert(t2.log[t.sidx[k2]] == t.log[t.sidx[k2]]);
        }
    }
    assert forall|k1: int, k2: int|
        0 <= k1 < k2 < t2.sidx.len() implies #[trigger] t2.sidx[k1] < #[trigger] t2.sidx[k2] by {
        if k2 < t.sidx.len() {
        } else {
            assert(t2.sidx[k1] == t.sidx[k1]);
        }
    }
    assert forall|i2: int| 0 <= i2 < t2.log.len() && !#[trigger] t2.popped[i2] implies exists|k2: int|
        0 <= k2 < t2.sidx.len() && t2.sidx[k2] == i2 by {
        if i2 < li {
            let k2 = choose|k2: int| 0 <= k2 < t.sidx.len() && t.sidx[k2] == i2;
            assert(t2.sidx[k2] == i2);
        } else {
            assert(t2.sidx[t.sidx.len() as int] == i2);
        }
    }
    assert forall|v: int|
        0 <= v < n && t2.first[v] >= 0 && #[trigger] t2.root_of[v] != start implies closed(adj, t2, v) by {
        assert(closed(adj, t, v));
    }
    assert(comp_inv(n, adj, s2, t2, start));
}

proof fn lemma_skip(
    edges: Seq<(usize, usize)>,
    n: int,
    adj: Seq<Vec<usize>>,
    adj_e: Seq<Seq<int>>,
    visited: Seq<bool>,
    t: DfsTrace,
    stack: Seq<(usize, Option<usize>)>,
    start: int,
    node: int,
    j: int,
)
    requires
        dfs_inv(edges, n, adj, adj_e, visited, t, node, j),
        comp_inv(n, adj, stack, t, start),
        0 <= node < n,
        0 <= j < adj[node]@.len(),
        adj[node]@[j] == tparent(t, node),
    ensures
        dfs_inv(edges, n, adj, adj_e, visited, skip_trace(t, node), node, j + 1),
        comp_inv(n, adj, stack, skip_trace(t, node), start),
        skip_trace(t, node).first == t.first,
        skip_trace(t, node).root_of == t.root_of,
        tparent(skip_trace(t, node), node) == tparent(t, node),
{
    reveal(adjacency_ok);
    reveal(adjacency_complete);
    reveal(dfs_inv);
    reveal(comp_inv);
    reveal(settled);
    let t2 = skip_trace(t, node);
    assert forall|i2: int| 0 <= i2 < t2.log.len() implies #[trigger] log_entry_ok(
        edges,
        n,
        adj,
        adj_e,
        t2,
        i2,
    ) by {
        assert(log_entry_ok(edges, n, adj, adj_e, t, i2));
        let x2 = t.log[i2].1;
        if x2 != -1 {
            let j2 = t.log[i2].3;
            assert(t2.pidx[x2][j2] == t.pidx[x2][j2]);
        }
    }
    assert forall|v: int|
        0 <= v < n && v != node && #[trigger] t2.first[v] >= 0 implies processed(
        adj,
        adj_e,
        t2,
        v,
        adj[v]@.len() as int,
    ) by {
        assert(processed(adj, adj_e, t, v, adj[v]@.len() as int));
    }
    assert(processed(adj, adj_e, t, node, j));
    assert forall|j2: int| 0 <= j2 < j + 1 implies {
        &&& (#[trigger] t2.pidx[node][j2] == -1 ==> adj[node]@[j2] == tparent(t2, node))
        &&& (t2.pidx[node][j2] != -1 ==> 0 <= t2.pidx[node][j2] < t2.log.len() && t2.log[t2.pidx[node][j2]] == (
            adj[node]@[j2] as int,
            node,
            adj_e[node][j2],
            j2,
        ))
    } by {
        if j2 < j {
            assert(t2.pidx[node][j2] == t.pidx[node][j2]);
        }
    }
    assert(processed(adj, adj_e, t2, node, j + 1));
    assert forall|v: int|
        0 <= v < n && t2.first[v] >= 0 && #[trigger] t2.root_of[v] != start implies closed(adj, t2, v) by {
        assert(closed(adj, t, v));
    }
}

proof fn lemma_settled_next(n: int, adj: Seq<Vec<usize>>, visited: Seq<bool>, t: DfsTrace, start: int)
    requires
        forall|v: int| 0 <= v < n ==> #[trigger] visited[v] == (t.first[v] >= 0),
        settled(n, adj, t, start),
        0 <= start < n,
        visited[start],
    ensures
        settled(n, adj, t, start + 1),
{
    reveal(settled);
    assert forall|v: int| 0 <= v < start + 1 implies #[trigger] t.first[v] >= 0 by {
        if v < start {
        }
    }
}

proof fn lemma_visited_mirror(
    edges: Seq<(usize, usize)>,
    n: int,
    adj: Seq<Vec<usize>>,
    adj_e: Seq<Seq<int>>,
    visited: Seq<bool>,
    t: DfsTrace,
)
    requires
        dfs_inv(edges, n, adj, adj_e, visited, t, -1, 0),
    ensures
        forall|v: int| 0 <= v < n ==> #[trigger] visited[v] == (t.first[v] >= 0),
{
    reveal(dfs_inv);
}

proof fn lemma_finish_node(
    edges: Seq<(usize, usize)>,
    n: int,
    adj: Seq<Vec<usize>>,
    adj_e: Seq<Seq<int>>,
    visited: Seq<bool>,
    t: DfsTrace,
    node: int,
)
    requires
        0 <= node < n,
        dfs_inv(edges, n, adj, adj_e, visited, t, node, adj[node]@.len() as int),
    ensures
        dfs_inv(edges, n, adj, adj_e, visited, t, -1, 0),
{
    reveal(adjacency_ok);
    reveal(adjacency_complete);
    reveal(dfs_inv);
    reveal(comp_inv);
    reveal(settled);
}

/// A component whose stack emptied without a repeat visit is closed.
proof fn lemma_component_settles(
    edges: Seq<(usize, usize)>,
    n: int,
    m: int,
    adj: Seq<Vec<usize>>,
    adj_e: Seq<Seq<int>>,
    visited: Seq<bool>,
    t: DfsTrace,
    stack: Seq<(usize, Option<usize>)>,
    start: int,
)
    requires
        adjacency_ok(edges, n, adj, adj_e, m),
        dfs_inv(edges, n, adj, adj_e, visited, t, -1, 0),
        comp_inv(n, adj, stack, t, start),
        stack.len() == 0,
        forall|v: int| 0 <= v < start ==> #[trigger] t.first[v] >= 0,
    ensures
        settled(n, adj, t, start + 1),
{
    reveal(adjacency_ok);
    reveal(adjacency_complete);
    reveal(dfs_inv);
    reveal(comp_inv);
    reveal(settled);
    assert forall|i: int| 0 <= i < t.log.len() implies #[trigger] t.popped[i] by {
        if !t.popped[i] {
            let k = choose|k: int| 0 <= k < t.sidx.len() && t.sidx[k] == i;
        }
    }
    assert forall|v: int| 0 <= v < n && #[trigger] t.first[v] >= 0 implies closed(adj, t, v) by {
        if t.root_of[v] == start {
            assert(processed(adj, adj_e, t, v, adj[v]@.len() as int));
            assert(tree_node_ok(n, t, v));
            assert forall|j: int| 0 <= j < adj[v]@.len() implies t.first[
                #[trigger] adj[v]@[j] as int] >= 0 && t.root_of[adj[v]@[j] as int] == t.root_of[v] by {
                let w = adj[v]@[j] as int;
                if t.pidx[v][j] == -1 {
                    assert(w == tparent(t, v));
                    assert(tparent(t, v) != -1);
                    let iv = t.first[v];
                    assert(log_entry_ok(edges, n, adj, adj_e, t, iv));
                    assert(tree_node_ok(n, t, w));
                } else {
                    let ip = t.pidx[v][j];
                    assert(t.popped[ip]);
                    assert(t.log[ip].0 == w);
                    assert(t.first[w] == ip);
                    assert(log_entry_ok(edges, n, adj, adj_e, t, ip));
                    assert(tree_node_ok(n, t, w));
                }
            }
        }
    }
    assert(t.first[start] >= 0);
    assert forall|v: int| 0 <= v < start + 1 implies #[trigger] t.first[v] >= 0 by {
        if v < start {
        }
    }
}

/// A finished search without a repeat visit certifies a spanning forest.
proof fn lemma_search_certifies_forest(
    edges: Seq<(usize, usize)>,
    n: int,
    m: int,
    adj: Seq<Vec<usize>>,
    adj_e: Seq<Seq<int>>,
    src_pos: Seq<int>,
    dst_pos: Seq<int>,
    visited: Seq<bool>,
    t: DfsTrace,
)
    requires
        m == edges.len(),
        forall|g: int| 0 <= g < m ==> edges[g].0 < n && edges[g].1 < n,
        adjacency_ok(edges, n, adj, adj_e, m),
        adjacency_complete(edges, adj_e, src_pos, dst_pos, m),
        dfs_inv(edges, n, adj, adj_e, visited, t, -1, 0),
        settled(n, adj, t, n),
    ensures
        !has_undirected_cycle_spec(edges),
{
    reveal(adjacency_ok);
    reveal(adjacency_complete);
    reveal(dfs_inv);
    reveal(comp_inv);
    reveal(settled);
    let pe = Seq::new(n as nat, |v: int| tedge(t, v));
    let par = Seq::new(n as nat, |v: int| tparent(t, v));
    let depth = t.depth;
    assert forall|v: int| 0 <= v < n implies #[trigger] forest_node_ok(edges, n, pe, par, depth, v) by {
        assert(t.first[v] >= 0);
        assert(tree_node_ok(n, t, v));
        let iv = t.first[v];
        assert(log_entry_ok(edges, n, adj, adj_e, t, iv));
        let x = t.log[iv].1;
        let j = t.log[iv].3;
        if x != -1 {
            assert(joins(edges, adj_e[x][j], x, adj[x]@[j] as int));
            assert(tree_node_ok(n, t, x));
        }
    }
    assert forall|g: int| 0 <= g < edges.len() implies #[trigger] parent_edge_of_some(pe, n, g) by {
        let a = edges[g].0 as int;
        let b = edges[g].1 as int;
        assert(t.first[a] >= 0 && t.first[b] >= 0);
        assert(tree_node_ok(n, t, a));
        assert(tree_node_ok(n, t, b));
        let x = if t.order[a] <= t.order[b] {
            a
        } else {
            b
        };
        let jx = if t.order[a] <= t.order[b] {
            src_pos[g]
        } else {
            dst_pos[g]
        };
        assert(adj_e[x][jx] == g);
        assert(joins(edges, adj_e[x][jx], x, adj[x]@[jx] as int));
        let y = adj[x]@[jx] as int;
        assert(y == a || y == b);
        assert(t.order[x] <= t.order[y]);
        assert(processed(adj, adj_e, t, x, adj[x]@.len() as int));
        assert(tree_node_ok(n, t, x));
        if t.pidx[x][jx] == -1 {
            assert(y == tparent(t, x));
            assert(false);
        }
        let ip = t.pidx[x][jx];
        assert(t.popped[ip]);
        assert(t.first[y] == ip);
        assert(tparent(t, y) == x);
        assert(tree_node_ok(n, t, y));
        assert(pe[y] == g);
    }
    assert(forest_certificate(edges, n, pe, par, depth));
    lemma_forest_acyclic(edges, n, pe, par, depth);
}

/// `f` sends each edge of `e1` to a distinct edge of `e2` joining the same
/// two loci in either direction: up to orientation, the edges of `e1` are
/// among those of `e2`.
pub open spec fn embeds_undirected(
    e1: Seq<(usize, usize)>,
    e2: Seq<(usize, usize)>,
    f: spec_fn(int) -> int,
) -> bool {
    &&& forall|i: int|
        #![trigger f(i)]
        0 <= i < e1.len() ==> joins(e2, f(i), e1[i].0 as int, e1[i].1 as int)
    &&& forall|i: int, j: int|
        #![trigger f(i), f(j)]
        0 <= i < e1.len() && 0 <= j < e1.len() && f(i) == f(j) ==> i == j
}

/// An edge on a cycle of `e1` is sent to an edge on a cycle of `e2`.
proof fn lemma_cycle_edge_maps(e1: Seq<(usize, usize)>, e2: Seq<(usize, usize)>, f: spec_fn(int) -> int, g: int)
    requires
        embeds_undirected(e1, e2, f),
        on_cycle(e1, g),
    ensures
        on_cycle(e2, f(g)),
{
    let a = e1[g].0 as int;
    let b = e1[g].1 as int;
    let (nodes, via) = choose|nodes: Seq<int>, via: Seq<int>|
        #![trigger is_walk(e1, nodes, via), avoids(via, g)]
        is_walk(e1, nodes, via) && nodes[0] == a && nodes[nodes.len() - 1] == b && avoids(via, g);
    let via2 = Seq::new(via.len(), |k: int| f(via[k]));
    let g2 = f(g);
    assert forall|k: int| 0 <= k < via2.len() implies joins(e2, #[trigger] via2[k], nodes[k], nodes[k + 1]) by {
        assert(joins(e1, via[k], nodes[k], nodes[k + 1]));
        assert(joins(e2, f(via[k]), e1[via[k]].0 as int, e1[via[k]].1 as int));
    }
    assert(is_walk(e2, nodes, via2));
    assert forall|k: int| 0 <= k < via2.len() implies via2[k] != g2 by {
        assert(joins(e1, via[k], nodes[k], nodes[k + 1]));
        assert(via[k] != g);
        if f(via[k]) == f(g) {
            assert(via[k] == g);
        }
    }
    assert(avoids(via2, g2));
    assert(joins(e2, g2, a, b));
    if e2[g2].0 == a && e2[g2].1 == b {
        assert(is_walk(e2, nodes, via2) && nodes[0] == a && nodes[nodes.len() - 1] == b && avoids(via2, g2));
    } else {
        let single: Seq<int> = seq![b];
        assert(is_walk(e2, single, Seq::<int>::empty()));
        assert(avoids(Seq::<int>::empty(), g2));
        lemma_walk_join(e2, (single, Seq::<int>::empty()), (nodes, via2), g2);
    }
}

/// Adding declared edges never removes an undirected cycle: when the edges
/// of `e1` are, up to orientation, among those of `e2` (`f` picks for each
/// a distinct edge of `e2` joining the same loci), a cycle in `e1` is a
/// cycle in `e2`.
pub proof fn law_cycle_survives_added_edges(e1: Seq<(usize, usize)>, e2: Seq<(usize, usize)>, f: spec_fn(int) -> int)
    requires
        embeds_undirected(e1, e2, f),
    ensures
        has_undirected_cycle_spec(e1) ==> has_undirected_cycle_spec(e2),
{
    if has_undirected_cycle_spec(e1) {
        let g = choose|g: int| #[trigger] on_cycle(e1, g);
        lemma_cycle_edge_maps(e1, e2, f, g);
    }
}

/// Reordering the declared edges, and flipping any of them, leaves cycle
/// detection unchanged: when each edge list embeds in the other up to
/// orientation, both have an undirected cycle or neither has.
pub proof fn law_cycle_invariant_under_reorder_and_flip(
    e1: Seq<(usize, usize)>,
    e2: Seq<(usize, usize)>,
    f: spec_fn(int) -> int,
    h: spec_fn(int) -> int,
)
    requires
        embeds_undirected(e1, e2, f),
        embeds_undirected(e2, e1, h),
    ensures
        has_undirected_cycle_spec(e1) == has_undirected_cycle_spec(e2),
{
    law_cycle_survives_added_edges(e1, e2, f);
    law_cycle_survives_added_edges(e2, e1, h);
}

/// A self-loop is an undirected cycle, and so are two distinct edges
/// joining the same two loci in either direction.
pub proof fn law_self_loops_and_parallel_edges_are_cycles(edges: Seq<(usize, usize)>, g: int, h: int)
    requires
        0 <= g < edges.len(),
        0 <= h < edges.len(),
    ensures
        edges[g].0 == edges[g].1 ==> has_undirected_cycle_spec(edges),
        g != h && joins(edges, h, edges[g].0 as int, edges[g].1 as int) ==> has_undirected_cycle_spec(edges),
{
    let a = edges[g].0 as int;
    let b = edges[g].1 as int;
    if a == b {
        let nodes: Seq<int> = seq![a];
        let via: Seq<int> = Seq::empty();
        assert(is_walk(edges, nodes, via) && nodes[0] == a && nodes[nodes.len() - 1] == b && avoids(via, g));
        assert(on_cycle(edges, g));
    }
    if g != h && joins(edges, h, a, b) {
        let nodes: Seq<int> = seq![a, b];
        let via: Seq<int> = seq![h];
        assert(is_walk(edges, nodes, via) && nodes[0] == a && nodes[nodes.len() - 1] == b && avoids(via, g));
        assert(on_cycle(edges, g));
    }
}

/// Text carried by a cycle report.
pub open spec fn cycle_note(has_cycle: bool) -> Seq<char> {
    if has_cycle {
        "Undirected cycle detected. Reported for admissibility classification. Evaluation proceeds — see admissibility_finding in ExperimentRecord."@
    } else {
        "No undirected cycle detected."@
    }
}

impl DeclaredRelations {
    /// Cycle detection by undirected depth-first search. Detection and
    /// reporting only: the declaration is never rejected.
    #[verifier::loop_isolation(false)]
    pub fn has_undirected_cycle(&self) -> (r: CycleReport)
        requires
            self.wf(),
        ensures
            r.has_cycle == has_undirected_cycle_spec(self.edges@),
            r.note@ == cycle_note(r.has_cycle),
    {
        let n = self.n_nodes;
        let m = self.edges.len();
        let ghost edges = self.edges@;
        // Undirected adjacency from the directed edges.
        let mut adj: Vec<Vec<usize>> = Vec::new();
        let ghost mut adj_e: Seq<Seq<int>> = Seq::empty();
        for i in 0..n
            invariant
                adj@.len() == i,
                adj_e.len() == i,
                forall|v: int| 0 <= v < i ==> #[trigger] adj@[v]@.len() == 0,
                forall|v: int| 0 <= v < i ==> #[trigger] adj_e[v].len() == 0,
        {
            adj.push(Vec::new());
            proof {
                adj_e = adj_e.push(Seq::empty());
            }
        }
        let ghost mut src_pos: Seq<int> = Seq::empty();
        let ghost mut dst_pos: Seq<int> = Seq::empty();
        proof {
            lemma_adj_init(edges, n as int, adj@, adj_e);
        }
        for e in 0..m
            invariant
                adj@.len() == n,
                adjacency_ok(edges, n as int, adj@, adj_e, e as int),
                adjacency_complete(edges, adj_e, src_pos, dst_pos, e as int),
        {
            let (s, t) = self.edges[e];
            let ghost adj0 = adj@;
            adj[s].push(t);
            let ghost adj1 = adj@;
            adj[t].push(s);
            proof {
                lemma_adj_step(edges, n as int, adj0, adj1, adj@, adj_e, src_pos, dst_pos, e as int);
                let adj_e1 = adj_e.update(s as int, adj_e[s as int].push(e as int));
                src_pos = src_pos.push(adj_e[s as int].len() as int);
                dst_pos = dst_pos.push(adj_e1[t as int].len() as int);
                adj_e = adj_e1.update(t as int, adj_e1[t as int].push(e as int));
            }
        }
        let mut visited: Vec<bool> = Vec::new();
        for i in 0..n
            invariant
                visited@.len() == i,
                forall|v: int| 0 <= v < i ==> !#[trigger] visited@[v],
        {
            visited.push(false);
        }
        let ghost mut t = empty_trace(n as int);
        proof {
            lemma_dfs_init(edges, n as int, adj@, adj_e, visited@);
        }
        let mut has_cycle = false;
        for start in 0..n
            invariant
                !has_cycle,
                visited@.len() == n,
                dfs_inv(edges, n as int, adj@, adj_e, visited@, t, -1, 0),
                settled(n as int, adj@, t, start as int),
        {
            if visited[start] {
                proof {
                    lemma_visited_mirror(edges, n as int, adj@, adj_e, visited@, t);
                    lemma_settled_next(n as int, adj@, visited@, t, start as int);
                }
            } else {
                let mut stack: Vec<(usize, Option<usize>)> = Vec::new();
                stack.push((start, None));
                proof {
                    lemma_start(edges, n as int, m as int, adj@, adj_e, visited@, t, start as int);
                    t = start_trace(t, start as int);
                    assert(stack@ =~= seq![(start, None::<usize>)]);
                }
                let ghost mut unvisited: nat = count_unvisited(visited@);
                loop
                    invariant
                        !has_cycle,
                        visited@.len() == n,
                        dfs_inv(edges, n as int, adj@, adj_e, visited@, t, -1, 0),
                        comp_inv(n as int, adj@, stack@, t, start as int),
                        unvisited == count_unvisited(visited@),
                        forall|v: int| 0 <= v < start ==> #[trigger] t.first[v] >= 0,
                    decreases unvisited, stack@.len(),
                {
                    let ghost pre_stack = stack@;
                    let ghost pre_t = t;
                    proof {
                        if stack@.len() > 0 {
                            lemma_top(edges, n as int, adj@, adj_e, visited@, t, stack@, start as int);
                        }
                    }
                    let top = stack.pop();
                    match top {
                        None => {
                            break;
                        },
                        Some((node, parent)) => {
                            if visited[node] {
                                proof {
                                    lemma_detected_cycle(
                                        edges,
                                        n as int,
                                        m as int,
                                        adj@,
                                        adj_e,
                                        src_pos,
                                        dst_pos,
                                        visited@,
                                        t,
                                        pre_stack,
                                        start as int,
                                    );
                                }
                                has_cycle = true;
                                break;
                            }
                            proof {
                                lemma_visit(
                                    edges,
                                    n as int,
                                    adj@,
                                    adj_e,
                                    m as int,
                                    visited@,
                                    t,
                                    pre_stack,
                                    start as int,
                                );
                                lemma_count_visit(visited@, node as int);
                                unvisited = (unvisited - 1) as nat;
                                t = visit_trace(t, node as int, t.sidx[t.sidx.len() - 1]);
                            }
                            visited.set(node, true);
                            let deg = adj[node].len();
                            for j in 0..deg
                                invariant
                                    !has_cycle,
                                    visited@.len() == n,
                                    deg == adj@[node as int]@.len(),
                                    dfs_inv(
                                        edges,
                                        n as int,
                                        adj@,
                                        adj_e,
                                        visited@,
                                        t,
                                        node as int,
                                        j as int,
                                    ),
                                    comp_inv(n as int, adj@, stack@, t, start as int),
                                    unvisited == count_unvisited(visited@),
                                    forall|v: int| 0 <= v < start ==> #[trigger] t.first[v] >= 0,
                                    t.root_of[node as int] == start,
                                    parent is None <==> tparent(t, node as int) == -1,
                                    parent is Some ==> parent.unwrap() == tparent(t, node as int),
                            {
                                let nbr = adj[node][j];
                                let skip = match parent {
                                    Some(p) => nbr == p,
                                    None => false,
                                };
                                if !skip {
                                    proof {
                                        lemma_push(
                                            edges,
                                            n as int,
                                            m as int,
                                            adj@,
                                            adj_e,
                                            visited@,
                                            t,
                                            stack@,
                                            start as int,
                                            node as int,
                                            j as int,
                                        );
                                        t = push_trace(
                                            t,
                                            node as int,
                                            nbr as int,
                                            adj_e[node as int][j as int],
                                            j as int,
                                        );
                                    }
                                    stack.push((nbr, Some(node)));
                                } else {
                                    proof {
                                        lemma_skip(
                                            edges,
                                            n as int,
                                            adj@,
                                            adj_e,
                                            visited@,
                                            t,
                                            stack@,
                                            start as int,
                                            node as int,
                                            j as int,
                                        );
                                        t = skip_trace(t, node as int);
                                    }
                                }
                            }
                            proof {
                                lemma_finish_node(edges, n as int, adj@, adj_e, visited@, t, node as int);
                            }
                        },
                    }
                }
                if has_cycle {
                    break;
                }
                proof {
                    lemma_component_settles(
                        edges,
                        n as int,
                        m as int,
                        adj@,
                        adj_e,
                        visited@,
                        t,
                        stack@,
                        start as int,
                    );
                }
            }
        }
        if !has_cycle {
            proof {
                lemma_search_certifies_forest(
                    edges,
                    n as int,
                    m as int,
                    adj@,
                    adj_e,
                    src_pos,
                    dst_pos,
                    visited@,
                    t,
                );
            }
        }
        let note = if has_cycle {
            String::from_str(
                "Undirected cycle detected. Reported for admissibility classification. Evaluation proceeds — see admissibility_finding in ExperimentRecord.",
            )
        } else {
            String::from_str("No undirected cycle detected.")
        };
        CycleReport { has_cycle, note }
    }
}

} // verus!
