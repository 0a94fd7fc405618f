//! Breadth-first traversal over the graph.

use crate::graph::EdgeIx;
use crate::graph::Graph;
use crate::graph::NodeIx;
use crate::reach::adjacent;
use crate::reach::lemma_closed_path;
use crate::reach::lemma_reachable_refl;
use crate::reach::lemma_reachable_step;
use crate::reach::is_path;
use crate::reach::lemma_reachable_sym;
use crate::reach::lemma_within_mono;
use crate::reach::lemma_within_step;
use crate::reach::reachable;
use crate::reach::within_hops;
use std::collections::VecDeque;
use vstd::prelude::*;
use vstd::set_lib::lemma_int_range;
use vstd::set_lib::lemma_len_subset;
use vstd::set_lib::set_int_range;

verus! {

spec fn marked_set(vis: Seq<bool>) -> Set<int> {
    Set::new(|v: int| 0 <= v < vis.len() && vis[v])
}

/// The visit list `out` holds exactly the marked nodes, each once.
spec fn mark_inv(vis: Seq<bool>, out: Seq<NodeIx>) -> bool {
    &&& out.len() == marked_set(vis).len()
    &&& marked_set(vis).finite()
    &&& forall|v: int|
        0 <= v < vis.len() ==> ((#[trigger] vis[v]) <==> out.contains(NodeIx(v as u32)))
    &&& forall|k: int| 0 <= k < out.len() ==> ((#[trigger] out[k]).0 as int) < vis.len()
    &&& out.no_duplicates()
}

/// All neighbors of `v` are marked.
spec fn neighbors_marked(g: Graph, vis: Seq<bool>, v: int) -> bool {
    forall|k: int| 0 <= k < g.adj(v).len() ==> vis[#[trigger] g.nbr_at(v, k)]
}

/// Every marked node that is not waiting in the queue has all its neighbors
/// marked already.
spec fn frontier_inv(g: Graph, vis: Seq<bool>, q: Seq<NodeIx>, except: int) -> bool {
    forall|v: int|
        0 <= v < g.n() && (#[trigger] vis[v]) && v != except && !q.contains(NodeIx(v as u32))
            ==> neighbors_marked(g, vis, v)
}

/// The queue holds valid, already-marked nodes.
spec fn queue_ok(g: Graph, vis: Seq<bool>, q: Seq<NodeIx>) -> bool {
    forall|k: int|
        0 <= k < q.len() ==> ((#[trigger] q[k]).0 as int) < g.n() && vis[q[k].0 as int]
}

/// Every marked node is reachable from `s`.
spec fn marks_reachable(g: Graph, vis: Seq<bool>, s: int) -> bool {
    forall|v: int| 0 <= v < g.n() && (#[trigger] vis[v]) ==> reachable(g, s, v)
}

/// Every marked node is within `t` hops of `s`.
spec fn marks_within(g: Graph, vis: Seq<bool>, s: int, t: int) -> bool {
    forall|v: int| 0 <= v < g.n() && (#[trigger] vis[v]) ==> within_hops(g, s, v, t)
}

proof fn lemma_marked_count(vis: Seq<bool>, out: Seq<NodeIx>)
    requires
        mark_inv(vis, out),
    ensures
        out.len() <= vis.len(),
{
    lemma_int_range(0, vis.len() as int);
    assert(marked_set(vis).subset_of(set_int_range(0, vis.len() as int)));
    lemma_len_subset(marked_set(vis), set_int_range(0, vis.len() as int));
}

/// Whether `x` occurs in `v`.
fn contains_ix(v: &Vec<NodeIx>, x: NodeIx) -> (r: bool)
    ensures
        r == v@.contains(x),
{
    let n: usize = v.len();
    let mut i: usize = 0;
    while i < n
        invariant
            n == v@.len(),
            i <= n,
            forall|j: int| 0 <= j < i ==> (#[trigger] v@[j]) != x,
        decreases n - i,
    {
        if v[i] == x {
            return true;
        }
        i = i + 1;
    }
    proof {
        if v@.contains(x) {
            let k = choose|k: int| 0 <= k < v@.len() && (#[trigger] v@[k]) == x;
        }
    }
    false
}

/// Marks `x` if it is not yet marked, recording it in the visit list;
/// returns whether the mark is new.
fn try_mark(visited: &mut Vec<bool>, out: &mut Vec<NodeIx>, x: NodeIx) -> (newly: bool)
    requires
        (x.0 as int) < old(visited)@.len(),
        old(visited)@.len() <= u32::MAX,
        mark_inv(old(visited)@, old(out)@),
    ensures
        mark_inv(final(visited)@, final(out)@),
        final(visited)@.len() == old(visited)@.len(),
        newly == !old(visited)@[x.0 as int],
        final(visited)@ == old(visited)@.update(x.0 as int, true),
        final(out)@ == (
        if newly {
            old(out)@.push(x)
        } else {
            old(out)@
        }),
{
    let xi: usize = x.0 as usize;
    if visited[xi] {
        proof {
            assert(final(visited)@ =~= old(visited)@.update(x.0 as int, true));
        }
        return false;
    }
    visited[xi] = true;
    out.push(x);
    proof {
        vstd::set::axiom_set_insert_len(marked_set(old(visited)@), x.0 as int);
        assert(marked_set(visited@) =~= marked_set(old(visited)@).insert(x.0 as int));
        assert(!old(out)@.contains(x));
        assert forall|v: int| 0 <= v < visited@.len() implies ((#[trigger] visited@[v])
            <==> out@.contains(NodeIx(v as u32))) by {
            if v == x.0 as int {
                assert(out@[out@.len() - 1] == NodeIx(v as u32));
            } else {
                assert(old(out)@.contains(NodeIx(v as u32)) ==> out@.contains(
                    NodeIx(v as u32),
                )) by {
                    if old(out)@.contains(NodeIx(v as u32)) {
                        let k = choose|k: int|
                            0 <= k < old(out)@.len() && (#[trigger] old(out)@[k]) == NodeIx(
                                v as u32,
                            );
                        assert(out@[k] == NodeIx(v as u32));
                    }
                }
                assert(out@.contains(NodeIx(v as u32)) ==> old(out)@.contains(
                    NodeIx(v as u32),
                )) by {
                    if out@.contains(NodeIx(v as u32)) {
                        let k = choose|k: int|
                            0 <= k < out@.len() && (#[trigger] out@[k]) == NodeIx(v as u32);
                        if k == old(out)@.len() {
                            assert(out@[k] == x);
                            assert(v as u32 == x.0 && v == x.0 as int);
                        } else {
                            assert(old(out)@[k] == NodeIx(v as u32));
                        }
                    }
                }
            }
        }
    }
    true
}

impl Graph {
    /// One round of the traversal: mark every unmarked neighbor of `x` and
    /// enqueue it.  `s` is the start node, `t` bounds the hops of everything
    /// marked so far.
    fn bfs_visit(
        &self,
        x: NodeIx,
        visited: &mut Vec<bool>,
        out: &mut Vec<NodeIx>,
        queue: &mut VecDeque<NodeIx>,
        s: NodeIx,
        t: Ghost<int>,
    )
        requires
            self.wf(),
            old(visited)@.len() == self.n(),
            (x.0 as int) < self.n(),
            old(visited)@[x.0 as int],
            mark_inv(old(visited)@, old(out)@),
            queue_ok(*self, old(visited)@, old(queue)@),
            frontier_inv(*self, old(visited)@, old(queue)@, x.0 as int),
            marks_reachable(*self, old(visited)@, s.0 as int),
            marks_within(*self, old(visited)@, s.0 as int, t@),
        ensures
            final(visited)@.len() == self.n(),
            mark_inv(final(visited)@, final(out)@),
            queue_ok(*self, final(visited)@, final(queue)@),
            frontier_inv(*self, final(visited)@, final(queue)@, -1),
            marks_reachable(*self, final(visited)@, s.0 as int),
            marks_within(*self, final(visited)@, s.0 as int, t@ + 1),
            forall|v: int|
                0 <= v < self.n() && (#[trigger] old(visited)@[v]) ==> final(visited)@[v],
            final(out)@.len() >= old(out)@.len(),
            final(out)@.len() == old(out)@.len() ==> final(queue)@ == old(queue)@,
    {
        let xi: usize = x.0 as usize;
        proof {
            assert forall|v: int|
                0 <= v < self.n() && (#[trigger] old(visited)@[v]) implies within_hops(
                *self,
                s.0 as int,
                v,
                t@ + 1,
            ) by {
                lemma_within_mono(*self, s.0 as int, v, t@, t@ + 1);
            }
        }
        let deg: usize = self.nodes[xi].edges.len();
        let mut k: usize = 0;
        while k < deg
            invariant
                self.wf(),
                visited@.len() == self.n(),
                (x.0 as int) < self.n(),
                xi == x.0 as usize,
                deg == self.adj(x.0 as int).len(),
                k <= deg,
                visited@[x.0 as int],
                within_hops(*self, s.0 as int, x.0 as int, t@),
                mark_inv(visited@, out@),
                queue_ok(*self, visited@, queue@),
                frontier_inv(*self, visited@, queue@, x.0 as int),
                marks_reachable(*self, visited@, s.0 as int),
                marks_within(*self, visited@, s.0 as int, t@ + 1),
                forall|q2: int|
                    0 <= q2 < k ==> visited@[#[trigger] self.nbr_at(x.0 as int, q2)],
                forall|v: int|
                    0 <= v < self.n() && (#[trigger] old(visited)@[v]) ==> visited@[v],
                out@.len() >= old(out)@.len(),
                out@.len() == old(out)@.len() ==> queue@ == old(queue)@,
            decreases deg - k,
        {
            let ghost pre_vis = visited@;
            let ghost pre_q = queue@;
            let e: u32 = self.nodes[xi].edges[k].0;
            let ea: NodeIx = self.edges[e as usize].a;
            let eb: NodeIx = self.edges[e as usize].b;
            proof {
                assert(self.adj(x.0 as int)[k as int].0 == e);
                assert(ea.0 == x.0 || eb.0 == x.0);
            }
            if try_mark(visited, out, ea) {
                queue.push_back(ea);
                proof {
                    assert(eb.0 == x.0);
                    assert(adjacent(*self, x.0 as int, ea.0 as int));
                    lemma_reachable_step(
                        *self,
                        s.0 as int,
                        x.0 as int,
                        ea.0 as int,
                    );
                    lemma_within_step(*self, s.0 as int, x.0 as int, ea.0 as int, t@);
                    Self::lemma_mark_extend(
                        *self,
                        pre_vis,
                        visited@,
                        pre_q,
                        queue@,
                        ea,
                        x.0 as int,
                        s.0 as int,
                        t@ + 1,
                    );
                }
            }
            let ghost pre_vis2 = visited@;
            let ghost pre_q2 = queue@;
            if try_mark(visited, out, eb) {
                queue.push_back(eb);
                proof {
                    assert(ea.0 == x.0);
                    assert(adjacent(*self, x.0 as int, eb.0 as int));
                    lemma_reachable_step(
                        *self,
                        s.0 as int,
                        x.0 as int,
                        eb.0 as int,
                    );
                    lemma_within_step(*self, s.0 as int, x.0 as int, eb.0 as int, t@);
                    Self::lemma_mark_extend(
                        *self,
                        pre_vis2,
                        visited@,
                        pre_q2,
                        queue@,
                        eb,
                        x.0 as int,
                        s.0 as int,
                        t@ + 1,
                    );
                }
            }
            proof {
                assert(visited@[self.nbr_at(x.0 as int, k as int)]) by {
                    assert(visited@[ea.0 as int] && visited@[eb.0 as int]);
                }
            }
            k = k + 1;
        }
        proof {
            assert forall|v: int|
                0 <= v < self.n() && (#[trigger] visited@[v]) && v != -1 && !queue@.contains(NodeIx(v as u32)) implies neighbors_marked(*self, visited@, v) by {
                if v != x.0 as int {
                    assert(frontier_inv(*self, visited@, queue@, x.0 as int));
                }
            }
        }
    }

    /// Breadth-first traversal from `node`.  A `depth` of zero means
    /// unbounded: the whole connected component of `node` is visited.  A
    /// positive `depth` bounds the number of nodes whose edges are expanded,
    /// so everything returned lies within `depth` hops of `node`.
    pub fn bfs(&self, node: NodeIx, depth: usize) -> (out: Vec<NodeIx>)
        requires
            self.wf(),
            (node.0 as int) < self.n(),
        ensures
            out@.contains(node),
            out@.no_duplicates(),
            forall|k: int|
                0 <= k < out@.len() ==> ((#[trigger] out@[k]).0 as int) < self.n()
                    && reachable(*self, node.0 as int, out@[k].0 as int),
            depth == 0 ==> forall|v: int|
                0 <= v < self.n() ==> (reachable(*self, node.0 as int, v)
                    <==> out@.contains(NodeIx(v as u32))),
            depth > 0 ==> forall|k: int|
                0 <= k < out@.len() ==> within_hops(
                    *self,
                    node.0 as int,
                    (#[trigger] out@[k]).0 as int,
                    depth as int,
                ),
    {
        let n: usize = self.nodes.len();
        let mut visited: Vec<bool> = vec![false; n];
        let mut out: Vec<NodeIx> = Vec::new();
        let mut queue: VecDeque<NodeIx> = VecDeque::new();
        proof {
            assert(marked_set(visited@) =~= Set::<int>::empty());
            assert forall|v: int| 0 <= v < visited@.len() implies ((#[trigger] visited@[v])
                <==> out@.contains(NodeIx(v as u32))) by {
                if out@.contains(NodeIx(v as u32)) {
                    let k = choose|k: int|
                        0 <= k < out@.len() && (#[trigger] out@[k]) == NodeIx(v as u32);
                }
            }
            lemma_reachable_refl(*self, node.0 as int);
        }
        let newly: bool = try_mark(&mut visited, &mut out, node);
        queue.push_back(node);
        let mut d: usize = depth;
        let ghost t: int = 0;
        proof {
            assert(queue@ == Seq::<NodeIx>::empty().push(node));
        }
        while queue.len() > 0 && (depth == 0 || d > 0)
            invariant
                self.wf(),
                n == self.n(),
                visited@.len() == n,
                (node.0 as int) < n,
                visited@[node.0 as int],
                mark_inv(visited@, out@),
                queue_ok(*self, visited@, queue@),
                frontier_inv(*self, visited@, queue@, -1),
                marks_reachable(*self, visited@, node.0 as int),
                marks_within(*self, visited@, node.0 as int, t),
                t >= 0,
                depth > 0 ==> d as int == depth - t && t <= depth,
                depth == 0 ==> d == 0,
            decreases n - out@.len(), queue@.len(),
        {
            proof {
                lemma_marked_count(visited@, out@);
            }
            let ghost q0 = queue@;
            let x: NodeIx = queue.pop_front().unwrap();
            proof {
                assert(x == q0[0]);
                assert forall|v: int|
                    0 <= v < self.n() && (#[trigger] visited@[v]) && v != x.0 as int
                        && !queue@.contains(NodeIx(v as u32)) implies neighbors_marked(
                    *self,
                    visited@,
                    v,
                ) by {
                    if q0.contains(NodeIx(v as u32)) {
                        let k = choose|k: int|
                            0 <= k < q0.len() && (#[trigger] q0[k]) == NodeIx(v as u32);
                        if k == 0 {
                            assert(NodeIx(v as u32) == x);
                        } else {
                            assert(queue@[k - 1] == NodeIx(v as u32));
                        }
                    }
                }
            }
            self.bfs_visit(x, &mut visited, &mut out, &mut queue, node, Ghost(t));
            proof {
                t = t + 1;
            }
            if depth > 0 {
                d = d - 1;
            }
            proof {
                lemma_marked_count(visited@, out@);
            }
        }
        proof {
            if depth == 0 {
                assert(queue@.len() == 0);
                assert forall|i: int, j: int|
                    0 <= i < self.n() && 0 <= j < self.n() && visited@[i] && #[trigger] adjacent(
                    *self,
                    i,
                    j,
                ) implies visited@[j] by {
                    let e = choose|e: int|
                        0 <= e < self.m() && (((#[trigger] self.edges@[e]).a.0 == i
                            && self.edges@[e].b.0 == j) || (self.edges@[e].a.0 == j
                            && self.edges@[e].b.0 == i));
                    if self.edges@[e].a.0 as int == i {
                        assert(self.adj(self.edges@[e].a.0 as int).contains(EdgeIx(e as u32)));
                    } else {
                        assert(self.adj(self.edges@[e].b.0 as int).contains(EdgeIx(e as u32)));
                    }
                    assert(self.adj(i).contains(EdgeIx(e as u32)));
                    let k = choose|k: int|
                        0 <= k < self.adj(i).len() && (#[trigger] self.adj(i)[k]) == EdgeIx(
                            e as u32,
                        );
                    assert(neighbors_marked(*self, visited@, i));
                    assert(self.nbr_at(i, k) == j);
                    assert(visited@[self.nbr_at(i, k)]);
                }
                assert forall|v: int| 0 <= v < self.n() implies (reachable(
                    *self,
                    node.0 as int,
                    v,
                ) <==> out@.contains(NodeIx(v as u32))) by {
                    if reachable(*self, node.0 as int, v) {
                        let p = choose|p: Seq<int>|
                            #[trigger] is_path(*self, p) && p.first() == node.0 as int
                                && p.last() == v;
                        lemma_closed_path(*self, visited@, p);
                        assert(visited@[v]);
                    }
                    if out@.contains(NodeIx(v as u32)) {
                        assert(visited@[v]);
                    }
                }
            } else {
                assert forall|k: int| 0 <= k < out@.len() implies within_hops(
                    *self,
                    node.0 as int,
                    (#[trigger] out@[k]).0 as int,
                    depth as int,
                ) by {
                    let v = out@[k].0 as int;
                    assert(out@.contains(out@[k]));
                    assert(visited@[v]);
                    lemma_within_mono(*self, node.0 as int, v, t, depth as int);
                }
            }
            assert(out@.contains(NodeIx(node.0 as u32)));
            assert(NodeIx(node.0 as u32) == node);
            assert forall|k: int| 0 <= k < out@.len() implies ((#[trigger] out@[k]).0 as int)
                < self.n() && reachable(*self, node.0 as int, out@[k].0 as int) by {
                assert(out@.contains(out@[k]));
                assert(visited@[out@[k].0 as int]);
            }
        }
        out
    }

    /// Whether `a` and `b` are connected: `b` is found from `a`, or `a` from
    /// `b`, each search bounded by `depth - 1` (zero, meaning unbounded, for
    /// `depth <= 1`).
    pub fn connected(&self, a: NodeIx, b: NodeIx, depth: usize) -> (r: bool)
        requires
            self.wf(),
            (a.0 as int) < self.n(),
            (b.0 as int) < self.n(),
        ensures
            r ==> reachable(*self, a.0 as int, b.0 as int),
            depth <= 1 ==> (r <==> reachable(*self, a.0 as int, b.0 as int)),
    {
        let d: usize = if depth == 0 {
            0
        } else {
            depth - 1
        };
        let reach_a: Vec<NodeIx> = self.bfs(a, d);
        let reach_b: Vec<NodeIx> = self.bfs(b, d);
        let in_a: bool = contains_ix(&reach_a, b);
        let in_b: bool = contains_ix(&reach_b, a);
        proof {
            if in_a {
                let k = choose|k: int|
                    0 <= k < reach_a@.len() && (#[trigger] reach_a@[k]) == b;
                assert(reachable(*self, a.0 as int, b.0 as int));
            }
            if in_b {
                let k = choose|k: int|
                    0 <= k < reach_b@.len() && (#[trigger] reach_b@[k]) == a;
                assert(reachable(*self, b.0 as int, a.0 as int));
                lemma_reachable_sym(*self, b.0 as int, a.0 as int);
            }
            if depth <= 1 && reachable(*self, a.0 as int, b.0 as int) {
                assert(reach_a@.contains(NodeIx(b.0 as u32)));
                assert(NodeIx(b.0 as u32) == b);
            }
        }
        in_a || in_b
    }

    /// Marking one more node (a neighbor of the marked `x`) and enqueueing it
    /// preserves the traversal invariants.
    proof fn lemma_mark_extend(
        g: Graph,
        pre: Seq<bool>,
        post: Seq<bool>,
        pre_q: Seq<NodeIx>,
        post_q: Seq<NodeIx>,
        nb: NodeIx,
        x: int,
        s: int,
        t: int,
    )
        requires
            g.wf(),
            pre.len() == g.n(),
            0 <= (nb.0 as int) < g.n(),
            post == pre.update(nb.0 as int, true),
            post_q == pre_q.push(nb),
            queue_ok(g, pre, pre_q),
            frontier_inv(g, pre, pre_q, x),
            marks_reachable(g, pre, s),
            marks_within(g, pre, s, t),
            reachable(g, s, nb.0 as int),
            within_hops(g, s, nb.0 as int, t),
        ensures
            queue_ok(g, post, post_q),
            frontier_inv(g, post, post_q, x),
            marks_reachable(g, post, s),
            marks_within(g, post, s, t),
            forall|v: int| 0 <= v < g.n() && (#[trigger] pre[v]) ==> post[v],
    {
        assert forall|k: int|
            0 <= k < post_q.len() implies ((#[trigger] post_q[k]).0 as int) < g.n()
            && post[post_q[k].0 as int] by {
            if k < pre_q.len() {
                assert(post_q[k] == pre_q[k]);
            } else {
                assert(post_q[k] == nb);
            }
        }
        assert forall|v: int|
            0 <= v < g.n() && (#[trigger] post[v]) && v != x && !post_q.contains(
                NodeIx(v as u32),
            ) implies neighbors_marked(g, post, v) by {
            if v == nb.0 as int {
                assert(post_q[post_q.len() - 1] == NodeIx(v as u32));
                assert(post_q.contains(NodeIx(v as u32)));
            } else {
                assert(pre[v]);
                assert(!pre_q.contains(NodeIx(v as u32))) by {
                    if pre_q.contains(NodeIx(v as u32)) {
                        let k = choose|k: int|
                            0 <= k < pre_q.len() && (#[trigger] pre_q[k]) == NodeIx(v as u32);
                        assert(post_q[k] == NodeIx(v as u32));
                    }
                }
                assert(neighbors_marked(g, pre, v));
                assert forall|k: int| 0 <= k < g.adj(v).len() implies post[#[trigger] g.nbr_at(
                    v,
                    k,
                )] by {
                    assert(pre[g.nbr_at(v, k)]);
                }
            }
        }
    }
}

} // verus!
