//! Induced subgraphs: given a kept subset of nodes, the subgraph holding
//! exactly the edges whose endpoints are both kept, deduplicated to at most
//! one edge per unordered pair, with self-loops dropped.

use crate::graph::EdgeIx;
use crate::graph::Graph;
use crate::graph::NodeIx;
use crate::reach::reachable;
use vstd::prelude::*;
use vstd::seq_lib::*;
use vstd::set_lib::lemma_int_range;
use vstd::set_lib::lemma_len_subset;
use vstd::set_lib::set_int_range;

verus! {

/// One flag per node of `g`: whether it lies in the component of `s`.
pub open spec fn component_keep(g: Graph, s: int) -> Seq<bool> {
    Seq::new(g.n() as nat, |v: int| reachable(g, s, v))
}

/// Node `i` of `src` is kept and has at least one incident edge whose
/// endpoints are both kept (a self-loop on a kept node counts).
pub open spec fn incident_kept(src: Graph, keep: Seq<bool>, i: int) -> bool {
    keep[i] && exists|k: int|
        0 <= k < src.adj(i).len() && keep[src.edges@[(#[trigger] src.adj(i)[k]).0 as int].a.0
            as int] && keep[src.edges@[src.adj(i)[k].0 as int].b.0 as int]
}

/// Some edge of `g` joins the nodes carrying identifiers `x` and `y`.
pub open spec fn has_edge_between(g: Graph, x: Seq<char>, y: Seq<char>) -> bool {
    exists|e: int|
        0 <= e < g.m() && ((g.id_at((#[trigger] g.edges@[e]).a.0 as int) == x && g.id_at(
            g.edges@[e].b.0 as int,
        ) == y) || (g.id_at(g.edges@[e].a.0 as int) == y && g.id_at(g.edges@[e].b.0 as int)
            == x))
}

/// Edge `e` of `out` matches src edge `es`: same endpoint identifiers (in
/// some order) and the same weight, with both endpoints kept in `src`.
pub open spec fn edge_matches_at(src: Graph, keep: Seq<bool>, out: Graph, e: int, es: int) -> bool {
    &&& 0 <= es < src.m()
    &&& keep[src.edges@[es].a.0 as int]
    &&& keep[src.edges@[es].b.0 as int]
    &&& out.edges@[e].w == src.edges@[es].w
    &&& ((out.id_at(out.edges@[e].a.0 as int) == src.id_at(src.edges@[es].a.0 as int)
        && out.id_at(out.edges@[e].b.0 as int) == src.id_at(src.edges@[es].b.0 as int)) || (
    out.id_at(out.edges@[e].a.0 as int) == src.id_at(src.edges@[es].b.0 as int) && out.id_at(
        out.edges@[e].b.0 as int,
    ) == src.id_at(src.edges@[es].a.0 as int)))
}

pub open spec fn edge_matches(src: Graph, keep: Seq<bool>, out: Graph, e: int) -> bool {
    exists|es: int| #[trigger] edge_matches_at(src, keep, out, e, es)
}

/// Edges `e1` and `e2` of `g` join the same unordered pair of nodes.
pub open spec fn same_pair(g: Graph, e1: int, e2: int) -> bool {
    ||| (g.edges@[e1].a == g.edges@[e2].a && g.edges@[e1].b == g.edges@[e2].b)
    ||| (g.edges@[e1].a == g.edges@[e2].b && g.edges@[e1].b == g.edges@[e2].a)
}

/// `out` is the subgraph of `src` induced by the kept nodes: its nodes are
/// exactly the kept nodes incident to a kept edge, its edges are exactly the
/// kept unordered pairs, one edge per pair, no self-loops.
pub open spec fn is_induced(src: Graph, keep: Seq<bool>, out: Graph) -> bool {
    &&& out.wf()
    &&& out.n() <= src.n()
    &&& out.m() <= src.m()
    &&& forall|j: int| 0 <= j < out.n() ==> src.has_id(#[trigger] out.id_at(j))
    &&& forall|i: int|
        0 <= i < src.n() ==> (#[trigger] incident_kept(src, keep, i) <==> out.has_id(
            src.id_at(i),
        ))
    &&& forall|e: int| 0 <= e < out.m() ==> #[trigger] edge_matches(src, keep, out, e)
    &&& forall|e: int| 0 <= e < out.m() ==> (#[trigger] out.edges@[e]).a != out.edges@[e].b
    &&& forall|e1: int, e2: int| 0 <= e1 < e2 < out.m() ==> !same_pair(out, e1, e2)
    &&& forall|es: int|
        0 <= es < src.m() && keep[(#[trigger] src.edges@[es]).a.0 as int]
            && keep[src.edges@[es].b.0 as int] && src.edges@[es].a != src.edges@[es].b
            ==> has_edge_between(
            out,
            src.id_at(src.edges@[es].a.0 as int),
            src.id_at(src.edges@[es].b.0 as int),
        )
}

/// A duplicate-free sequence over `[0, m)` that avoids `x` is shorter than `m`.
proof fn lemma_inj_seq_bound(s: Seq<int>, m: int, x: int)
    requires
        s.no_duplicates(),
        forall|j: int| 0 <= j < s.len() ==> 0 <= #[trigger] s[j] < m,
        0 <= x < m,
        !s.contains(x),
    ensures
        s.len() < m,
{
    s.unique_seq_to_set();
    assert(!s.to_set().contains(x));
    vstd::set::axiom_set_insert_len(s.to_set(), x);
    lemma_int_range(0, m);
    assert(s.to_set().insert(x).subset_of(set_int_range(0, m)));
    lemma_len_subset(s.to_set().insert(x), set_int_range(0, m));
}

/// Identifiers survive when a graph only grows.
proof fn lemma_has_id_mono(pre: Graph, post: Graph, x: Seq<char>)
    requires
        pre.has_id(x),
        post.n() >= pre.n(),
        forall|i: int| 0 <= i < pre.n() ==> post.id_at(i) == pre.id_at(i),
    ensures
        post.has_id(x),
{
    let i = choose|i: int| 0 <= i < pre.n() && pre.id_at(i) == x;
    assert(post.id_at(i) == x);
}

/// An edge between two identifiers survives when a graph only grows.
proof fn lemma_edge_between_mono(pre: Graph, post: Graph, x: Seq<char>, y: Seq<char>)
    requires
        pre.wf(),
        has_edge_between(pre, x, y),
        post.n() >= pre.n(),
        post.m() >= pre.m(),
        forall|i: int| 0 <= i < pre.n() ==> post.id_at(i) == pre.id_at(i),
        forall|e: int| 0 <= e < pre.m() ==> post.edges@[e] == pre.edges@[e],
    ensures
        has_edge_between(post, x, y),
{
    let e = choose|e: int|
        0 <= e < pre.m() && ((pre.id_at((#[trigger] pre.edges@[e]).a.0 as int) == x
            && pre.id_at(pre.edges@[e].b.0 as int) == y) || (pre.id_at(
            pre.edges@[e].a.0 as int,
        ) == y && pre.id_at(pre.edges@[e].b.0 as int) == x));
    assert(post.edges@[e] == pre.edges@[e]);
    assert(post.id_at(post.edges@[e].a.0 as int) == pre.id_at(pre.edges@[e].a.0 as int));
    assert(post.id_at(post.edges@[e].b.0 as int) == pre.id_at(pre.edges@[e].b.0 as int));
}

/// The builder state: every output node is witnessed by a distinct kept
/// source node with the same identifier, every output edge by a distinct
/// kept source edge with the same pair and weight, no self-loops, and at
/// most one output edge per unordered pair.
pub(crate) open spec fn build_inv(
    src: Graph,
    keep: Seq<bool>,
    out: Graph,
    srcn: Seq<int>,
    srce: Seq<int>,
) -> bool {
    &&& out.wf()
    &&& srcn.len() == out.n()
    &&& srcn.no_duplicates()
    &&& forall|j: int|
        0 <= j < srcn.len() ==> 0 <= #[trigger] srcn[j] < src.n() && src.id_at(srcn[j])
            == out.id_at(j) && incident_kept(src, keep, srcn[j])
    &&& srce.len() == out.m()
    &&& srce.no_duplicates()
    &&& forall|j: int|
        0 <= j < srce.len() ==> 0 <= #[trigger] srce[j] < src.m() && edge_matches_at(
            src,
            keep,
            out,
            j,
            srce[j],
        )
    &&& forall|e: int| 0 <= e < out.m() ==> (#[trigger] out.edges@[e]).a != out.edges@[e].b
    &&& forall|e1: int, e2: int| 0 <= e1 < e2 < out.m() ==> !same_pair(out, e1, e2)
}

impl Graph {
    /// Registers both endpoints of the kept source edge `es` in `out` and,
    /// when the unordered pair is new and no self-loop, adds one edge for it.
    #[verifier::rlimit(100)]
    fn induced_step(
        &self,
        keep: &Vec<bool>,
        out: &mut Graph,
        es: EdgeIx,
        srcn: Ghost<Seq<int>>,
        srce: Ghost<Seq<int>>,
    ) -> (wit: (Ghost<Seq<int>>, Ghost<Seq<int>>))
        requires
            self.wf(),
            keep@.len() == self.n(),
            (es.0 as int) < self.m(),
            keep@[self.edges@[es.0 as int].a.0 as int],
            keep@[self.edges@[es.0 as int].b.0 as int],
            build_inv(*self, keep@, *old(out), srcn@, srce@),
        ensures
            build_inv(*self, keep@, *final(out), wit.0@, wit.1@),
            final(out).n() >= old(out).n(),
            final(out).m() >= old(out).m(),
            forall|i: int| 0 <= i < old(out).n() ==> final(out).id_at(i) == old(out).id_at(i),
            forall|e: int| 0 <= e < old(out).m() ==> final(out).edges@[e] == old(out).edges@[e],
            final(out).has_id(self.id_at(self.edges@[es.0 as int].a.0 as int)),
            final(out).has_id(self.id_at(self.edges@[es.0 as int].b.0 as int)),
            self.edges@[es.0 as int].a != self.edges@[es.0 as int].b ==> has_edge_between(
                *final(out),
                self.id_at(self.edges@[es.0 as int].a.0 as int),
                self.id_at(self.edges@[es.0 as int].b.0 as int),
            ),
    {
        let ea: NodeIx = self.edges[es.0 as usize].a;
        let eb: NodeIx = self.edges[es.0 as usize].b;
        let ghost ida_v = self.id_at(ea.0 as int);
        let ghost idb_v = self.id_at(eb.0 as int);
        let ghost mut srcn2: Seq<int> = srcn@;
        proof {
            assert(incident_kept(*self, keep@, ea.0 as int)) by {
                assert(self.adj(ea.0 as int).contains(es));
                let k = choose|k: int|
                    0 <= k < self.adj(ea.0 as int).len() && (#[trigger] self.adj(
                        ea.0 as int,
                    )[k]) == es;
            }
            assert(incident_kept(*self, keep@, eb.0 as int)) by {
                assert(self.adj(eb.0 as int).contains(es));
                let k = choose|k: int|
                    0 <= k < self.adj(eb.0 as int).len() && (#[trigger] self.adj(
                        eb.0 as int,
                    )[k]) == es;
            }
            if !out.has_id(ida_v) {
                assert(!srcn@.contains(ea.0 as int)) by {
                    if srcn@.contains(ea.0 as int) {
                        let j = choose|j: int|
                            0 <= j < srcn@.len() && (#[trigger] srcn@[j]) == ea.0 as int;
                        assert(out.id_at(j) == ida_v);
                    }
                }
                lemma_inj_seq_bound(srcn@, self.n(), ea.0 as int);
            }
        }
        let ghost pre_a = *out;
        let ga: NodeIx = out.add_node(self.nodes[ea.0 as usize].id.clone());
        proof {
            if pre_a.has_id(ida_v) {
                assert(*out == pre_a);
            } else {
                srcn2 = srcn@.push(ea.0 as int);
                assert(srcn2.no_duplicates()) by {
                    assert(!srcn@.contains(ea.0 as int)) by {
                        if srcn@.contains(ea.0 as int) {
                            let j = choose|j: int|
                                0 <= j < srcn@.len() && (#[trigger] srcn@[j]) == ea.0 as int;
                            assert(pre_a.id_at(j) == ida_v);
                        }
                    }
                }
            }
            assert(build_inv(*self, keep@, *out, srcn2, srce@)) by {
                assert forall|e1: int, e2: int|
                    0 <= e1 < e2 < out.m() implies !same_pair(*out, e1, e2) by {
                    assert(!same_pair(pre_a, e1, e2));
                    assert(out.edges@ == pre_a.edges@);
                }
                assert forall|j: int| 0 <= j < pre_a.n() implies out.id_at(j) == pre_a.id_at(
                    j,
                ) && out.adj(j) == pre_a.adj(j) by {
                    if !pre_a.has_id(ida_v) {
                        assert(out.nodes@[j] == pre_a.nodes@[j]);
                    }
                }
                assert forall|j: int|
                    0 <= j < srce@.len() implies 0 <= #[trigger] srce@[j] < self.m()
                    && edge_matches_at(*self, keep@, *out, j, srce@[j]) by {
                    assert(out.edges@[j] == pre_a.edges@[j]);
                    assert(out.id_at(out.edges@[j].a.0 as int) == pre_a.id_at(
                        pre_a.edges@[j].a.0 as int,
                    ));
                    assert(out.id_at(out.edges@[j].b.0 as int) == pre_a.id_at(
                        pre_a.edges@[j].b.0 as int,
                    ));
                }
            }
        }
        let ghost mut srcn3: Seq<int> = srcn2;
        proof {
            if !out.has_id(idb_v) {
                assert(!srcn2.contains(eb.0 as int)) by {
                    if srcn2.contains(eb.0 as int) {
                        let j = choose|j: int|
                            0 <= j < srcn2.len() && (#[trigger] srcn2[j]) == eb.0 as int;
                        assert(out.id_at(j) == idb_v);
                    }
                }
                lemma_inj_seq_bound(srcn2, self.n(), eb.0 as int);
            }
        }
        let ghost pre_b = *out;
        let gb: NodeIx = out.add_node(self.nodes[eb.0 as usize].id.clone());
        proof {
            if pre_b.has_id(idb_v) {
                assert(*out == pre_b);
            } else {
                srcn3 = srcn2.push(eb.0 as int);
                assert(srcn3.no_duplicates()) by {
                    assert(!srcn2.contains(eb.0 as int)) by {
                        if srcn2.contains(eb.0 as int) {
                            let j = choose|j: int|
                                0 <= j < srcn2.len() && (#[trigger] srcn2[j]) == eb.0 as int;
                            assert(pre_b.id_at(j) == idb_v);
                        }
                    }
                }
            }
            assert(build_inv(*self, keep@, *out, srcn3, srce@)) by {
                assert forall|e1: int, e2: int|
                    0 <= e1 < e2 < out.m() implies !same_pair(*out, e1, e2) by {
                    assert(!same_pair(pre_b, e1, e2));
                    assert(out.edges@ == pre_b.edges@);
                }
                assert forall|j: int| 0 <= j < pre_b.n() implies out.id_at(j) == pre_b.id_at(
                    j,
                ) && out.adj(j) == pre_b.adj(j) by {
                    if !pre_b.has_id(idb_v) {
                        assert(out.nodes@[j] == pre_b.nodes@[j]);
                    }
                }
                assert forall|j: int|
                    0 <= j < srce@.len() implies 0 <= #[trigger] srce@[j] < self.m()
                    && edge_matches_at(*self, keep@, *out, j, srce@[j]) by {
                    assert(out.edges@[j] == pre_b.edges@[j]);
                    assert(out.id_at(out.edges@[j].a.0 as int) == pre_b.id_at(
                        pre_b.edges@[j].a.0 as int,
                    ));
                    assert(out.id_at(out.edges@[j].b.0 as int) == pre_b.id_at(
                        pre_b.edges@[j].b.0 as int,
                    ));
                }
            }
            assert(out.id_at(ga.0 as int) == ida_v);
            assert(out.id_at(gb.0 as int) == idb_v);
        }
        if ga != gb && !out.edge_between(ga, gb) {
            proof {
                assert(ida_v != idb_v);
                assert(!srce@.contains(es.0 as int)) by {
                    if srce@.contains(es.0 as int) {
                        let j = choose|j: int|
                            0 <= j < srce@.len() && (#[trigger] srce@[j]) == es.0 as int;
                        assert(edge_matches_at(*self, keep@, *out, j, es.0 as int));
                        assert(out.edges@[j].a == ga || out.edges@[j].a == gb);
                        assert(out.edges@[j].b == ga || out.edges@[j].b == gb);
                    }
                }
                lemma_inj_seq_bound(srce@, self.m(), es.0 as int);
            }
            let ghost pre_e = *out;
            let w: u16 = self.edges[es.0 as usize].w;
            let r: EdgeIx = out.add_edge(
                self.nodes[ea.0 as usize].id.clone(),
                self.nodes[eb.0 as usize].id.clone(),
                w,
            );
            let ghost srce2 = srce@.push(es.0 as int);
            proof {
                assert(out.edges@[r.0 as int].a == ga && out.edges@[r.0 as int].b == gb);
                assert(build_inv(*self, keep@, *out, srcn3, srce2)) by {
                    assert forall|j: int|
                        0 <= j < srce2.len() implies 0 <= #[trigger] srce2[j] < self.m()
                        && edge_matches_at(*self, keep@, *out, j, srce2[j]) by {
                        if j < srce@.len() {
                            assert(out.edges@[j] == pre_e.edges@[j]);
                            assert(out.id_at(out.edges@[j].a.0 as int) == pre_e.id_at(
                                pre_e.edges@[j].a.0 as int,
                            ));
                            assert(out.id_at(out.edges@[j].b.0 as int) == pre_e.id_at(
                                pre_e.edges@[j].b.0 as int,
                            ));
                        } else {
                            assert(srce2[j] == es.0 as int);
                            assert(edge_matches_at(*self, keep@, *out, j, es.0 as int));
                        }
                    }
                    assert forall|e1: int, e2: int|
                        0 <= e1 < e2 < out.m() implies !same_pair(*out, e1, e2) by {
                        if e2 == r.0 as int {
                            assert(out.edges@[e2].a == ga && out.edges@[e2].b == gb);
                            if same_pair(*out, e1, e2) {
                                assert(out.edges@[e1] == pre_e.edges@[e1]);
                                assert((pre_e.edges@[e1].a == ga && pre_e.edges@[e1].b == gb)
                                    || (pre_e.edges@[e1].a == gb && pre_e.edges@[e1].b == ga));
                                assert(false);
                            }
                        } else {
                            assert(!same_pair(pre_e, e1, e2));
                            assert(out.edges@[e1] == pre_e.edges@[e1]);
                            assert(out.edges@[e2] == pre_e.edges@[e2]);
                        }
                    }
                    assert(srce2.no_duplicates());
                }
                assert(has_edge_between(*out, ida_v, idb_v)) by {
                    assert(out.id_at(out.edges@[r.0 as int].a.0 as int) == ida_v);
                    assert(out.id_at(out.edges@[r.0 as int].b.0 as int) == idb_v);
                }
            }
            (Ghost(srcn3), Ghost(srce2))
        } else {
            proof {
                if ea != eb {
                    assert(ga != gb) by {
                        if ga == gb {
                            assert(self.id_at(ea.0 as int) == self.id_at(eb.0 as int));
                        }
                    }
                    assert(has_edge_between(*out, ida_v, idb_v)) by {
                        let e = choose|e: int|
                            0 <= e < out.m() && (((#[trigger] out.edges@[e]).a == ga
                                && out.edges@[e].b == gb) || (out.edges@[e].a == gb
                                && out.edges@[e].b == ga));
                        assert(out.id_at(out.edges@[e].a.0 as int) == ida_v || out.id_at(
                            out.edges@[e].a.0 as int,
                        ) == idb_v);
                    }
                }
            }
            (Ghost(srcn3), srce)
        }
    }

    /// Builds the subgraph induced by the kept nodes: every source edge with
    /// both endpoints kept contributes its endpoints, and one output edge per
    /// unordered pair (self-loops dropped, parallels deduplicated).
    #[verifier::rlimit(100)]
    pub(crate) fn induced(&self, keep: &Vec<bool>) -> (g: Graph)
        requires
            self.wf(),
            keep@.len() == self.n(),
        ensures
            is_induced(*self, keep@, g),
    {
        let n: usize = self.nodes.len();
        let mut g: Graph = Graph::default();
        let ghost mut srcn: Seq<int> = Seq::empty();
        let ghost mut srce: Seq<int> = Seq::empty();
        let mut i: usize = 0;
        while i < n
            invariant
                self.wf(),
                keep@.len() == self.n(),
                n == self.n(),
                i <= n,
                build_inv(*self, keep@, g, srcn, srce),
                forall|i2: int|
                    0 <= i2 < i && #[trigger] incident_kept(*self, keep@, i2) ==> g.has_id(
                        self.id_at(i2),
                    ),
                forall|es: int|
                    0 <= es < self.m() && keep@[(#[trigger] self.edges@[es]).a.0 as int]
                        && keep@[self.edges@[es].b.0 as int] && self.edges@[es].a
                        != self.edges@[es].b && (self.edges@[es].a.0 < i || self.edges@[es].b.0
                        < i) ==> has_edge_between(
                        g,
                        self.id_at(self.edges@[es].a.0 as int),
                        self.id_at(self.edges@[es].b.0 as int),
                    ),
            decreases n - i,
        {
            if keep[i] {
                let deg: usize = self.nodes[i].edges.len();
                let mut k: usize = 0;
                while k < deg
                    invariant
                        self.wf(),
                        keep@.len() == self.n(),
                        n == self.n(),
                        i < n,
                        keep@[i as int],
                        deg == self.adj(i as int).len(),
                        k <= deg,
                        build_inv(*self, keep@, g, srcn, srce),
                        forall|i2: int|
                            0 <= i2 < i && #[trigger] incident_kept(*self, keep@, i2)
                                ==> g.has_id(self.id_at(i2)),
                        forall|es: int|
                            0 <= es < self.m() && keep@[(#[trigger] self.edges@[es]).a.0
                                as int] && keep@[self.edges@[es].b.0 as int]
                                && self.edges@[es].a != self.edges@[es].b && (
                            self.edges@[es].a.0 < i || self.edges@[es].b.0 < i)
                                ==> has_edge_between(
                                g,
                                self.id_at(self.edges@[es].a.0 as int),
                                self.id_at(self.edges@[es].b.0 as int),
                            ),
                        forall|k2: int|
                            0 <= k2 < k && keep@[self.edges@[(#[trigger] self.adj(
                                i as int,
                            )[k2]).0 as int].a.0 as int] && keep@[self.edges@[self.adj(
                                i as int,
                            )[k2].0 as int].b.0 as int] ==> g.has_id(
                                self.id_at(
                                    self.edges@[self.adj(i as int)[k2].0 as int].a.0 as int,
                                ),
                            ) && g.has_id(
                                self.id_at(
                                    self.edges@[self.adj(i as int)[k2].0 as int].b.0 as int,
                                ),
                            ) && (self.edges@[self.adj(i as int)[k2].0 as int].a
                                != self.edges@[self.adj(i as int)[k2].0 as int].b
                                ==> has_edge_between(
                                g,
                                self.id_at(
                                    self.edges@[self.adj(i as int)[k2].0 as int].a.0 as int,
                                ),
                                self.id_at(
                                    self.edges@[self.adj(i as int)[k2].0 as int].b.0 as int,
                                ),
                            )),
                    decreases deg - k,
                {
                    let e: EdgeIx = self.nodes[i].edges[k];
                    let ea: NodeIx = self.edges[e.0 as usize].a;
                    let eb: NodeIx = self.edges[e.0 as usize].b;
                    if keep[ea.0 as usize] && keep[eb.0 as usize] {
                        let ghost gpre = g;
                        let wit: (Ghost<Seq<int>>, Ghost<Seq<int>>) = self.induced_step(
                            keep,
                            &mut g,
                            e,
                            Ghost(srcn),
                            Ghost(srce),
                        );
                        proof {
                            srcn = wit.0@;
                            srce = wit.1@;
                            assert forall|i2: int|
                                0 <= i2 < i && #[trigger] incident_kept(
                                    *self,
                                    keep@,
                                    i2,
                                ) implies g.has_id(self.id_at(i2)) by {
                                lemma_has_id_mono(gpre, g, self.id_at(i2));
                            }
                            assert forall|es: int|
                                0 <= es < self.m() && keep@[(#[trigger] self.edges@[es]).a.0
                                    as int] && keep@[self.edges@[es].b.0 as int]
                                    && self.edges@[es].a != self.edges@[es].b && (
                                self.edges@[es].a.0 < i || self.edges@[es].b.0
                                    < i) implies has_edge_between(
                                g,
                                self.id_at(self.edges@[es].a.0 as int),
                                self.id_at(self.edges@[es].b.0 as int),
                            ) by {
                                lemma_edge_between_mono(
                                    gpre,
                                    g,
                                    self.id_at(self.edges@[es].a.0 as int),
                                    self.id_at(self.edges@[es].b.0 as int),
                                );
                            }
                            assert forall|k2: int|
                                0 <= k2 < k && keep@[self.edges@[(#[trigger] self.adj(
                                    i as int,
                                )[k2]).0 as int].a.0 as int] && keep@[self.edges@[self.adj(
                                    i as int,
                                )[k2].0 as int].b.0 as int] implies g.has_id(
                                self.id_at(
                                    self.edges@[self.adj(i as int)[k2].0 as int].a.0 as int,
                                ),
                            ) && g.has_id(
                                self.id_at(
                                    self.edges@[self.adj(i as int)[k2].0 as int].b.0 as int,
                                ),
                            ) && (self.edges@[self.adj(i as int)[k2].0 as int].a
                                != self.edges@[self.adj(i as int)[k2].0 as int].b
                                ==> has_edge_between(
                                g,
                                self.id_at(
                                    self.edges@[self.adj(i as int)[k2].0 as int].a.0 as int,
                                ),
                                self.id_at(
                                    self.edges@[self.adj(i as int)[k2].0 as int].b.0 as int,
                                ),
                            )) by {
                                let es2 = self.adj(i as int)[k2].0 as int;
                                lemma_has_id_mono(gpre, g, self.id_at(self.edges@[es2].a.0 as int));
                                lemma_has_id_mono(gpre, g, self.id_at(self.edges@[es2].b.0 as int));
                                if self.edges@[es2].a != self.edges@[es2].b {
                                    lemma_edge_between_mono(
                                        gpre,
                                        g,
                                        self.id_at(self.edges@[es2].a.0 as int),
                                        self.id_at(self.edges@[es2].b.0 as int),
                                    );
                                }
                            }
                        }
                    }
                    k = k + 1;
                }
                proof {
                    if incident_kept(*self, keep@, i as int) {
                        let kw = choose|kw: int|
                            0 <= kw < self.adj(i as int).len() && keep@[self.edges@[(
                            #[trigger] self.adj(i as int)[kw]).0 as int].a.0 as int]
                                && keep@[self.edges@[self.adj(i as int)[kw].0 as int].b.0
                                as int];
                        let esw = self.adj(i as int)[kw].0 as int;
                        assert(self.edges@[esw].a.0 == i || self.edges@[esw].b.0 == i);
                        assert(g.has_id(self.id_at(i as int)));
                    }
                    assert forall|es: int|
                        0 <= es < self.m() && keep@[(#[trigger] self.edges@[es]).a.0 as int]
                            && keep@[self.edges@[es].b.0 as int] && self.edges@[es].a
                            != self.edges@[es].b && (self.edges@[es].a.0 < i + 1
                            || self.edges@[es].b.0 < i + 1) implies has_edge_between(
                        g,
                        self.id_at(self.edges@[es].a.0 as int),
                        self.id_at(self.edges@[es].b.0 as int),
                    ) by {
                        if !(self.edges@[es].a.0 < i || self.edges@[es].b.0 < i) {
                            assert(self.edges@[es].a.0 == i || self.edges@[es].b.0 == i);
                            if self.edges@[es].a.0 == i {
                                assert(self.adj(i as int).contains(EdgeIx(es as u32)));
                            } else {
                                assert(self.adj(self.edges@[es].a.0 as int).len() >= 0);
                                assert(self.adj(self.edges@[es].b.0 as int).contains(
                                    EdgeIx(es as u32),
                                ));
                            }
                            let kw = choose|kw: int|
                                0 <= kw < self.adj(i as int).len() && (#[trigger] self.adj(
                                    i as int,
                                )[kw]) == EdgeIx(es as u32);
                        }
                    }
                }
            }
            i = i + 1;
        }
        proof {
            srcn.unique_seq_to_set();
            lemma_int_range(0, self.n());
            assert(srcn.to_set().subset_of(set_int_range(0, self.n())));
            lemma_len_subset(srcn.to_set(), set_int_range(0, self.n()));
            srce.unique_seq_to_set();
            lemma_int_range(0, self.m());
            assert(srce.to_set().subset_of(set_int_range(0, self.m())));
            lemma_len_subset(srce.to_set(), set_int_range(0, self.m()));
            assert forall|j: int| 0 <= j < g.n() implies self.has_id(
                #[trigger] g.id_at(j),
            ) by {
                assert(self.id_at(srcn[j]) == g.id_at(j));
            }
            assert forall|i2: int| 0 <= i2 < self.n() implies (#[trigger] incident_kept(
                *self,
                keep@,
                i2,
            ) <==> g.has_id(self.id_at(i2))) by {
                if g.has_id(self.id_at(i2)) {
                    let j = choose|j: int| 0 <= j < g.n() && g.id_at(j) == self.id_at(i2);
                    assert(self.id_at(srcn[j]) == self.id_at(i2));
                    assert(srcn[j] == i2);
                    assert(incident_kept(*self, keep@, srcn[j]));
                }
            }
            assert forall|e: int| 0 <= e < g.m() implies #[trigger] edge_matches(
                *self,
                keep@,
                g,
                e,
            ) by {
                assert(edge_matches_at(*self, keep@, g, e, srce[e]));
            }
        }
        g
    }

    /// The subgraph induced by the whole connected component of `node`.
    pub fn subgraph(&self, node: NodeIx) -> (g: Graph)
        requires
            self.wf(),
            (node.0 as int) < self.n(),
        ensures
            is_induced(*self, component_keep(*self, node.0 as int), g),
    {
        let n: usize = self.nodes.len();
        let vis: Vec<NodeIx> = self.bfs(node, 0);
        let mut keep: Vec<bool> = vec![false; n];
        let m: usize = vis.len();
        let mut k: usize = 0;
        while k < m
            invariant
                self.wf(),
                n == self.n(),
                m == vis@.len(),
                k <= m,
                keep@.len() == n,
                forall|j: int| 0 <= j < vis@.len() ==> ((#[trigger] vis@[j]).0 as int) < n,
                forall|v: int|
                    0 <= v < n && #[trigger] keep@[v] ==> vis@.contains(NodeIx(v as u32)),
                forall|j: int| 0 <= j < k ==> keep@[(#[trigger] vis@[j]).0 as int],
            decreases m - k,
        {
            let v: usize = vis[k].0 as usize;
            keep[v] = true;
            k = k + 1;
        }
        proof {
            assert forall|v: int| 0 <= v < n implies #[trigger] keep@[v] == reachable(
                *self,
                node.0 as int,
                v,
            ) by {
                if keep@[v] {
                    assert(vis@.contains(NodeIx(v as u32)));
                }
                if reachable(*self, node.0 as int, v) {
                    assert(vis@.contains(NodeIx(v as u32)));
                    let j = choose|j: int|
                        0 <= j < vis@.len() && (#[trigger] vis@[j]) == NodeIx(v as u32);
                    assert(keep@[vis@[j].0 as int]);
                }
            }
            assert(keep@ =~= component_keep(*self, node.0 as int));
        }
        self.induced(&keep)
    }

    /// Whether some edge of `self` joins `x` and `y` (by handle).
    fn edge_between(&self, x: NodeIx, y: NodeIx) -> (r: bool)
        requires
            self.wf(),
        ensures
            r == exists|e: int|
                0 <= e < self.m() && (((#[trigger] self.edges@[e]).a == x && self.edges@[e].b
                    == y) || (self.edges@[e].a == y && self.edges@[e].b == x)),
    {
        let m: usize = self.edges.len();
        let mut e: usize = 0;
        while e < m
            invariant
                self.wf(),
                m == self.m(),
                e <= m,
                forall|e2: int|
                    0 <= e2 < e ==> !(((#[trigger] self.edges@[e2]).a == x && self.edges@[e2].b
                        == y) || (self.edges@[e2].a == y && self.edges@[e2].b == x)),
            decreases m - e,
        {
            let edge_a: NodeIx = self.edges[e].a;
            let edge_b: NodeIx = self.edges[e].b;
            if (edge_a == x && edge_b == y) || (edge_a == y && edge_b == x) {
                return true;
            }
            e = e + 1;
        }
        false
    }
}

} // verus!
