//! Seed-growth complex assignment: a depth-first walk from a seed node that
//! merges a newly discovered neighbor into the current node's complex when
//! the traversal gate for that edge direction is open, resuming from the
//! first unvisited node whenever a component is exhausted.  Every node ends
//! up mapped to its complex id: the payload of its component's
//! representative.

use crate::disjoint::DisjointSet;
use crate::disjoint::Element;
use crate::graph::Graph;
use crate::graph::NodeIx;
use crate::reach::adjacent;
use crate::reach::lemma_reachable_refl;
use crate::reach::lemma_reachable_step;
use crate::reach::lemma_reachable_sym;
use crate::reach::lemma_reachable_trans;
use crate::reach::reachable;
use vstd::prelude::*;
use vstd::set_lib::lemma_int_range;
use vstd::set_lib::lemma_len_subset;
use vstd::set_lib::set_int_range;

verus! {

spec fn visited_set(vis: Seq<bool>) -> Set<int> {
    Set::new(|v: int| 0 <= v < vis.len() && vis[v])
}

/// The traversal state of the disjoint set: one element per node, merges
/// only ever join nodes of one connected component, and every component's
/// payload is the handle of one of its members.
pub open spec fn assign_inv(g: Graph, ds: DisjointSet<NodeIx>) -> bool {
    &&& ds.inv()
    &&& ds.count() == g.n()
    &&& forall|i: int, j: int|
        0 <= i < g.n() && 0 <= j < g.n() && #[trigger] ds.rep(i) == #[trigger] ds.rep(j)
            ==> reachable(g, i, j)
    &&& forall|i: int|
        0 <= i < g.n() && #[trigger] ds.is_root(i) ==> (ds.payload(i).0 as int) < g.n()
            && ds.rep(ds.payload(i).0 as int) == i
}

/// Merging the components of two adjacent nodes keeps every component
/// inside one connected component, with a member as payload.
proof fn lemma_assign_union(g: Graph, pre: DisjointSet<NodeIx>, post: DisjointSet<NodeIx>, u: int, v: int)
    requires
        assign_inv(g, pre),
        0 <= u < g.n(),
        0 <= v < g.n(),
        adjacent(g, u, v),
        pre.rep(u) != pre.rep(v),
        post.inv(),
        post.count() == pre.count(),
        post.rep(u) == post.rep(v),
        post.rep(u) == pre.rep(u) || post.rep(u) == pre.rep(v),
        forall|i: int|
            0 <= i < g.n() ==> post.rep(i) == (
            if pre.rep(i) == pre.rep(u) || pre.rep(i) == pre.rep(v) {
                post.rep(u)
            } else {
                pre.rep(i)
            }),
        post.payload(u) == pre.payload(u),
        forall|i: int|
            0 <= i < g.n() && (pre.rep(i) == pre.rep(u) || pre.rep(i) == pre.rep(v))
                ==> post.payload(i) == post.payload(u),
        forall|i: int|
            0 <= i < g.n() && !(pre.rep(i) == pre.rep(u) || pre.rep(i) == pre.rep(v))
                ==> post.payload(i) == pre.payload(i),
        forall|i: int|
            0 <= i < g.n() ==> (post.is_root(i) <==> (pre.is_root(i) && i != (
            if post.rep(u) == pre.rep(u) {
                pre.rep(v)
            } else {
                pre.rep(u)
            }))),
    ensures
        assign_inv(g, post),
{
    let ra = pre.rep(u);
    let rb = pre.rep(v);
    let w = post.rep(u);
    pre.lemma_rep_props();
    post.lemma_rep_props();
    lemma_reachable_refl(g, u);
    lemma_reachable_step(g, u, u, v);
    assert(reachable(g, u, v));
    assert forall|i: int, j: int|
        0 <= i < g.n() && 0 <= j < g.n() && #[trigger] post.rep(i) == #[trigger] post.rep(
        j,
    ) implies reachable(g, i, j) by {
        if pre.rep(i) == pre.rep(j) {
            assert(reachable(g, i, j));
        } else {
            assert((pre.rep(i) == ra || pre.rep(i) == rb) && (pre.rep(j) == ra || pre.rep(j)
                == rb));
            let iu = if pre.rep(i) == ra {
                u
            } else {
                v
            };
            let ju = if pre.rep(j) == ra {
                u
            } else {
                v
            };
            assert(pre.rep(i) == pre.rep(iu) && pre.rep(j) == pre.rep(ju));
            assert(reachable(g, i, iu) && reachable(g, ju, j));
            lemma_reachable_sym(g, u, v);
            if iu != ju {
                if iu == u {
                    lemma_reachable_trans(g, i, u, v);
                    lemma_reachable_trans(g, i, v, j);
                } else {
                    lemma_reachable_trans(g, i, v, u);
                    lemma_reachable_trans(g, i, u, j);
                }
            } else {
                lemma_reachable_trans(g, i, iu, j);
            }
        }
    }
    assert forall|i: int|
        0 <= i < g.n() && #[trigger] post.is_root(i) implies (post.payload(i).0 as int)
        < g.n() && post.rep(post.payload(i).0 as int) == i by {
        let l = if w == ra {
            rb
        } else {
            ra
        };
        assert(pre.is_root(i) && i != l);
        assert(pre.rep(i) == i);
        if i == w {
            let p = pre.payload(u);
            assert(pre.rep(p.0 as int) == ra);
            assert(post.payload(i) == post.payload(u));
            assert(post.rep(p.0 as int) == w);
        } else {
            assert(post.payload(i) == pre.payload(i));
            assert(pre.rep(pre.payload(i).0 as int) == i);
            assert(post.rep(pre.payload(i).0 as int) == i);
        }
    }
}

/// Assigns every node of the graph to a complex.  `gates@[e]` holds, for
/// edge `e`, whether a traversal step may merge when it crosses `e` from
/// endpoint `a` to `b` (first flag) or from `b` to `a` (second flag); the
/// caller derives these flags from the per-node weights and the density
/// parameter.  The result maps every node identifier, in node order, to its
/// complex id: a node handle inside the same connected component.
pub fn assign_complex(graph: &Graph, gates: &Vec<(bool, bool)>, seed: NodeIx) -> (r: Vec<
    (String, NodeIx),
>)
    requires
        graph.wf(),
        gates@.len() == graph.m(),
        (seed.0 as int) < graph.n(),
    ensures
        r@.len() == graph.n(),
        forall|i: int| 0 <= i < r@.len() ==> (#[trigger] r@[i]).0@ == graph.id_at(i),
        forall|i: int| 0 <= i < r@.len() ==> ((#[trigger] r@[i]).1.0 as int) < graph.n(),
        forall|i: int|
            0 <= i < r@.len() ==> reachable(*graph, i, (#[trigger] r@[i]).1.0 as int),
        forall|i: int, j: int|
            0 <= i < r@.len() && 0 <= j < r@.len() && (#[trigger] r@[i]).1 == (
            #[trigger] r@[j]).1 ==> reachable(*graph, i, j),
        forall|i: int|
            0 <= i < r@.len() ==> r@[((#[trigger] r@[i]).1.0 as int)].1 == r@[i].1,
{
    let n: usize = graph.nodes.len();
    let mut complex_set: DisjointSet<NodeIx> = DisjointSet::new();
    let mut membership: Vec<Element> = Vec::new();
    let mut i: usize = 0;
    while i < n
        invariant
            graph.wf(),
            n == graph.n(),
            complex_set.inv(),
            complex_set.count() == i,
            i <= n,
            membership@.len() == i,
            forall|q: int| 0 <= q < i ==> (#[trigger] membership@[q]).0 == q,
            forall|q: int| 0 <= q < i ==> #[trigger] complex_set.rep(q) == q,
            forall|q: int|
                0 <= q < i ==> (#[trigger] complex_set.payload(q)).0 == q,
        decreases n - i,
    {
        let e: Element = complex_set.singleton(NodeIx(i as u32));
        membership.push(e);
        i = i + 1;
    }
    proof {
        assert forall|q: int, j: int|
            0 <= q < graph.n() && 0 <= j < graph.n() && #[trigger] complex_set.rep(q)
                == #[trigger] complex_set.rep(j) implies reachable(*graph, q, j) by {
            lemma_reachable_refl(*graph, q);
        }
        complex_set.lemma_rep_props();
        assert forall|q: int|
            0 <= q < graph.n() && #[trigger] complex_set.is_root(q) implies (
        complex_set.payload(q).0 as int) < graph.n() && complex_set.rep(
            complex_set.payload(q).0 as int,
        ) == q by {
            assert(complex_set.rep(q) == q);
        }
        assert(assign_inv(*graph, complex_set));
    }

    let mut stack: Vec<NodeIx> = Vec::new();
    let mut visited: Vec<bool> = vec![false; n];
    let mut vcount: usize = 0;
    stack.push(seed);
    proof {
        assert(visited_set(visited@) =~= Set::<int>::empty());
    }

    // save the last unvisited node id, so that resumption scans linearly
    let mut ptr: usize = 0;
    // outer loop: while some node has not been visited yet
    while vcount != n
        invariant
            graph.wf(),
            gates@.len() == graph.m(),
            n == graph.n(),
            visited@.len() == n,
            vcount <= n,
            vcount as int == visited_set(visited@).len(),
            visited_set(visited@).finite(),
            ptr <= n,
            forall|v: int| 0 <= v < ptr ==> visited@[v],
            forall|k: int| 0 <= k < stack@.len() ==> ((#[trigger] stack@[k]).0 as int) < n,
            membership@.len() == n,
            forall|q: int| 0 <= q < n ==> (#[trigger] membership@[q]).0 == q,
            assign_inv(*graph, complex_set),
            vcount < n ==> stack@.len() > 0 && !visited@[stack@[stack@.len() - 1].0 as int],
        decreases n - vcount,
    {
        let ghost vcount0 = vcount as int;
        // depth-first traversal from the pending entry of the stack
        while stack.len() > 0
            invariant
                graph.wf(),
                gates@.len() == graph.m(),
                n == graph.n(),
                visited@.len() == n,
                vcount <= n,
                vcount as int == visited_set(visited@).len(),
                visited_set(visited@).finite(),
                vcount0 <= vcount,
                vcount0 < n,
                ptr <= n,
                forall|v: int| 0 <= v < ptr ==> visited@[v],
                forall|k: int| 0 <= k < stack@.len() ==> ((#[trigger] stack@[k]).0 as int) < n,
                membership@.len() == n,
                forall|q: int| 0 <= q < n ==> (#[trigger] membership@[q]).0 == q,
                assign_inv(*graph, complex_set),
                vcount as int == vcount0 ==> stack@.len() > 0 && !visited@[stack@[stack@.len()
                    - 1].0 as int],
            decreases n - vcount, stack@.len(),
        {
            let ghost v_before = vcount as int;
            let ghost s_before = stack@.len() as int;
            let nix: NodeIx = stack.pop().unwrap();
            let ni: usize = nix.0 as usize;
            if !visited[ni] {
                proof {
                    let s0 = visited_set(visited@);
                    vstd::set::axiom_set_insert_len(s0, ni as int);
                    lemma_int_range(0, n as int);
                    assert(s0.insert(ni as int).subset_of(set_int_range(0, n as int)));
                    lemma_len_subset(s0.insert(ni as int), set_int_range(0, n as int));
                    assert(visited_set(visited@.update(ni as int, true)) =~= s0.insert(
                        ni as int,
                    ));
                }
                visited[ni] = true;
                vcount = vcount + 1;
            }
            proof {
                assert(vcount as int > vcount0);
            }
            let deg: usize = graph.nodes[ni].edges.len();
            let mut k: usize = 0;
            while k < deg
                invariant
                    graph.wf(),
                    gates@.len() == graph.m(),
                    n == graph.n(),
                    visited@.len() == n,
                    vcount <= n,
                    vcount as int == visited_set(visited@).len(),
                    visited_set(visited@).finite(),
                    (ni as int) < n,
                    nix.0 == ni,
                    visited@[ni as int],
                    deg == graph.adj(ni as int).len(),
                    k <= deg,
                    ptr <= n,
                    forall|v: int| 0 <= v < ptr ==> visited@[v],
                    vcount0 < vcount,
                    vcount0 < n,
                    v_before <= vcount,
                    vcount as int == v_before ==> stack@.len() as int == s_before - 1,
                    forall|k2: int|
                        0 <= k2 < stack@.len() ==> ((#[trigger] stack@[k2]).0 as int) < n,
                    membership@.len() == n,
                    forall|q: int| 0 <= q < n ==> (#[trigger] membership@[q]).0 == q,
                    assign_inv(*graph, complex_set),
                decreases deg - k,
            {
                let e: u32 = graph.nodes[ni].edges[k].0;
                let ea: NodeIx = graph.edges[e as usize].a;
                let eb: NodeIx = graph.edges[e as usize].b;
                let neighbor: NodeIx = if ea.0 as usize == ni {
                    eb
                } else {
                    ea
                };
                if !visited[neighbor.0 as usize] {
                    proof {
                        let s0 = visited_set(visited@);
                        vstd::set::axiom_set_insert_len(s0, neighbor.0 as int);
                        lemma_int_range(0, n as int);
                        assert(s0.insert(neighbor.0 as int).subset_of(
                            set_int_range(0, n as int),
                        ));
                        lemma_len_subset(s0.insert(neighbor.0 as int), set_int_range(0, n as int));
                        assert(visited_set(visited@.update(neighbor.0 as int, true))
                            =~= s0.insert(neighbor.0 as int));
                    }
                    visited[neighbor.0 as usize] = true;
                    vcount = vcount + 1;
                    let gate: bool = if ea.0 as usize == ni {
                        gates[e as usize].0
                    } else {
                        gates[e as usize].1
                    };
                    if gate {
                        let keep_left = |x: NodeIx, _y: NodeIx| -> (res: NodeIx)
                            ensures
                                res == x,
                            {
                                x
                            };
                        let ghost pre_ds = complex_set;
                        proof {
                            assert(graph.adj(ni as int)[k as int].0 == e);
                            assert(ea.0 == ni || eb.0 == ni);
                            assert(neighbor.0 != nix.0);
                            assert(adjacent(*graph, ni as int, neighbor.0 as int));
                        }
                        complex_set.union(keep_left, membership[ni], membership[neighbor.0
                            as usize]);
                        proof {
                            if pre_ds.rep(ni as int) != pre_ds.rep(neighbor.0 as int) {
                                lemma_assign_union(
                                    *graph,
                                    pre_ds,
                                    complex_set,
                                    ni as int,
                                    neighbor.0 as int,
                                );
                            } else {
                                assert(assign_inv(*graph, complex_set));
                            }
                        }
                    }
                    stack.push(neighbor);
                }
                k = k + 1;
            }
        }
        // resume from the first unvisited node, scanning forward
        if vcount != n {
            while ptr < n && visited[ptr]
                invariant
                    n == graph.n(),
                    visited@.len() == n,
                    ptr <= n,
                    forall|v: int| 0 <= v < ptr ==> visited@[v],
                decreases n - ptr,
            {
                ptr = ptr + 1;
            }
            proof {
                if ptr == n {
                    assert(visited_set(visited@) =~= set_int_range(0, n as int));
                    lemma_int_range(0, n as int);
                }
            }
            stack.push(NodeIx(ptr as u32));
        }
    }

    let mut out: Vec<(String, NodeIx)> = Vec::new();
    let mut i2: usize = 0;
    while i2 < n
        invariant
            graph.wf(),
            n == graph.n(),
            membership@.len() == n,
            forall|q: int| 0 <= q < n ==> (#[trigger] membership@[q]).0 == q,
            assign_inv(*graph, complex_set),
            i2 <= n,
            out@.len() == i2,
            forall|q: int| 0 <= q < i2 ==> (#[trigger] out@[q]).0@ == graph.id_at(q),
            forall|q: int| 0 <= q < i2 ==> (#[trigger] out@[q]).1 == complex_set.payload(q),
        decreases n - i2,
    {
        let element: Element = membership[i2];
        let c: NodeIx = *complex_set.find(element);
        out.push((graph.nodes[i2].id.clone(), c));
        i2 = i2 + 1;
    }
    proof {
        complex_set.lemma_rep_props();
        assert forall|i3: int| 0 <= i3 < out@.len() implies ((#[trigger] out@[i3]).1.0 as int)
            < graph.n() && reachable(*graph, i3, out@[i3].1.0 as int) by {
            let rt = complex_set.rep(i3);
            assert(complex_set.is_root(rt));
            assert(complex_set.payload(i3) == complex_set.payload(rt));
            assert(complex_set.rep(complex_set.payload(rt).0 as int) == rt);
        }
        assert forall|i3: int| 0 <= i3 < out@.len() implies out@[((#[trigger] out@[i3]).1.0
            as int)].1 == out@[i3].1 by {
            let rt = complex_set.rep(i3);
            assert(complex_set.is_root(rt));
            assert(complex_set.payload(i3) == complex_set.payload(rt));
            assert(complex_set.rep(complex_set.payload(rt).0 as int) == rt);
            let c = out@[i3].1.0 as int;
            assert(complex_set.rep(c) == rt);
            assert(complex_set.payload(c) == complex_set.payload(rt));
        }
        assert forall|i3: int, j3: int|
            0 <= i3 < out@.len() && 0 <= j3 < out@.len() && (#[trigger] out@[i3]).1 == (
            #[trigger] out@[j3]).1 implies reachable(*graph, i3, j3) by {
            let ri = complex_set.rep(i3);
            let rj = complex_set.rep(j3);
            assert(complex_set.is_root(ri) && complex_set.is_root(rj));
            assert(complex_set.payload(i3) == complex_set.payload(ri));
            assert(complex_set.payload(j3) == complex_set.payload(rj));
            assert(complex_set.rep(complex_set.payload(ri).0 as int) == ri);
            assert(complex_set.rep(complex_set.payload(rj).0 as int) == rj);
            assert(ri == rj);
        }
    }
    out
}

} // verus!
