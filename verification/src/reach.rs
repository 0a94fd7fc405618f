//! Reachability in a graph, defined over explicit paths.

use crate::graph::Graph;
use vstd::prelude::*;

verus! {

/// Whether some edge of `g` joins `u` and `v`.
pub open spec fn adjacent(g: Graph, u: int, v: int) -> bool {
    exists|e: int|
        0 <= e < g.m() && (((#[trigger] g.edges@[e]).a.0 == u && g.edges@[e].b.0 == v) || (
        g.edges@[e].a.0 == v && g.edges@[e].b.0 == u))
}

/// Whether `p` is a path in `g`: nonempty, every entry a valid node, every
/// consecutive pair joined by an edge.
pub open spec fn is_path(g: Graph, p: Seq<int>) -> bool {
    &&& p.len() >= 1
    &&& forall|q: int| 0 <= q < p.len() ==> 0 <= #[trigger] p[q] < g.n()
    &&& forall|q: int| 0 <= q < p.len() - 1 ==> adjacent(g, #[trigger] p[q], p[q + 1])
}

/// Whether `v` can be reached from `u` along edges of `g` (`u` itself counts).
pub open spec fn reachable(g: Graph, u: int, v: int) -> bool {
    exists|p: Seq<int>| #[trigger] is_path(g, p) && p.first() == u && p.last() == v
}

/// Whether `v` can be reached from `u` along at most `k` edges.
pub open spec fn within_hops(g: Graph, u: int, v: int, k: int) -> bool {
    exists|p: Seq<int>|
        #[trigger] is_path(g, p) && p.first() == u && p.last() == v && p.len() <= k + 1
}

pub proof fn lemma_reachable_refl(g: Graph, u: int)
    requires
        0 <= u < g.n(),
    ensures
        reachable(g, u, u),
        within_hops(g, u, u, 0),
{
    let p = seq![u];
    assert(is_path(g, p) && p.first() == u && p.last() == u && p.len() <= 1);
}

pub proof fn lemma_reachable_step(g: Graph, u: int, v: int, x: int)
    requires
        reachable(g, u, v),
        adjacent(g, v, x),
        0 <= x < g.n(),
    ensures
        reachable(g, u, x),
{
    let p = choose|p: Seq<int>| #[trigger] is_path(g, p) && p.first() == u && p.last() == v;
    let p2 = p.push(x);
    assert forall|q: int| 0 <= q < p2.len() - 1 implies adjacent(g, #[trigger] p2[q], p2[q
        + 1]) by {
        if q < p.len() - 1 {
            assert(p2[q] == p[q] && p2[q + 1] == p[q + 1]);
        } else {
            assert(p2[q] == v && p2[q + 1] == x);
        }
    }
    assert(is_path(g, p2) && p2.first() == u && p2.last() == x);
}

pub proof fn lemma_within_step(g: Graph, u: int, v: int, x: int, k: int)
    requires
        within_hops(g, u, v, k),
        adjacent(g, v, x),
        0 <= x < g.n(),
    ensures
        within_hops(g, u, x, k + 1),
{
    let p = choose|p: Seq<int>|
        #[trigger] is_path(g, p) && p.first() == u && p.last() == v && p.len() <= k + 1;
    let p2 = p.push(x);
    assert forall|q: int| 0 <= q < p2.len() - 1 implies adjacent(g, #[trigger] p2[q], p2[q
        + 1]) by {
        if q < p.len() - 1 {
            assert(p2[q] == p[q] && p2[q + 1] == p[q + 1]);
        } else {
            assert(p2[q] == v && p2[q + 1] == x);
        }
    }
    assert(is_path(g, p2) && p2.first() == u && p2.last() == x && p2.len() <= k + 2);
}

/// Widening the hop bound keeps every witness path.
pub proof fn lemma_within_mono(g: Graph, u: int, v: int, k1: int, k2: int)
    requires
        within_hops(g, u, v, k1),
        k1 <= k2,
    ensures
        within_hops(g, u, v, k2),
{
    let p = choose|p: Seq<int>|
        #[trigger] is_path(g, p) && p.first() == u && p.last() == v && p.len() <= k1 + 1;
    assert(is_path(g, p) && p.first() == u && p.last() == v && p.len() <= k2 + 1);
}

/// Reachability is symmetric: the graph is undirected, so a path reverses.
pub proof fn lemma_reachable_sym(g: Graph, u: int, v: int)
    requires
        reachable(g, u, v),
    ensures
        reachable(g, v, u),
{
    let p = choose|p: Seq<int>| #[trigger] is_path(g, p) && p.first() == u && p.last() == v;
    let r = Seq::new(p.len(), |i: int| p[p.len() - 1 - i]);
    assert forall|q: int| 0 <= q < r.len() - 1 implies adjacent(g, #[trigger] r[q], r[q
        + 1]) by {
        let j = p.len() - 2 - q;
        assert(adjacent(g, p[j], p[j + 1]));
    }
    assert(is_path(g, r) && r.first() == v && r.last() == u);
}

/// Reachability is transitive: two paths concatenate.
pub proof fn lemma_reachable_trans(g: Graph, u: int, v: int, w: int)
    requires
        reachable(g, u, v),
        reachable(g, v, w),
    ensures
        reachable(g, u, w),
{
    let p1 = choose|p: Seq<int>| #[trigger] is_path(g, p) && p.first() == u && p.last() == v;
    let p2 = choose|p: Seq<int>| #[trigger] is_path(g, p) && p.first() == v && p.last() == w;
    let p = p1 + p2.subrange(1, p2.len() as int);
    assert forall|q: int| 0 <= q < p.len() - 1 implies adjacent(g, #[trigger] p[q], p[q
        + 1]) by {
        if q < p1.len() - 1 {
            assert(p[q] == p1[q] && p[q + 1] == p1[q + 1]);
        } else if q == p1.len() - 1 {
            if p2.len() > 1 {
                assert(p[q] == p1.last() && p[q + 1] == p2[1]);
                assert(adjacent(g, p2[0], p2[1]));
            }
        } else {
            let j = q - p1.len() + 1;
            assert(p[q] == p2[j] && p[q + 1] == p2[j + 1]);
            assert(adjacent(g, p2[j], p2[j + 1]));
        }
    }
    assert(p.last() == w);
    assert(is_path(g, p) && p.first() == u && p.last() == w);
}

/// A set of nodes that contains the head of a path and is closed under
/// adjacency contains the whole path, in particular its tail.
pub proof fn lemma_closed_path(g: Graph, vis: Seq<bool>, p: Seq<int>)
    requires
        vis.len() == g.n(),
        is_path(g, p),
        vis[p.first()],
        forall|i: int, j: int|
            0 <= i < g.n() && 0 <= j < g.n() && vis[i] && #[trigger] adjacent(g, i, j)
                ==> vis[j],
    ensures
        vis[p.last()],
    decreases p.len(),
{
    if p.len() > 1 {
        let q = p.subrange(0, p.len() - 1);
        assert(is_path(g, q));
        lemma_closed_path(g, vis, q);
        assert(adjacent(g, p[p.len() - 2], p[p.len() - 1]));
        assert(vis[q.last()]);
    }
}

} // verus!
