//! An undirected, weighted graph over string-identified nodes.
//!
//! Nodes are interned: the first registration of an identifier allocates a
//! slot, later registrations return the same handle.  Edges are stored once
//! and referenced from the adjacency lists of both endpoints; parallel edges
//! and self-loops are permitted.

use vstd::prelude::*;

verus! {

#[derive(Copy, Clone, Debug, PartialEq, PartialOrd, Eq, Hash, Structural)]
pub struct EdgeIx(pub u32);

#[derive(Copy, Clone, Debug, PartialEq, PartialOrd, Eq, Hash, Structural)]
pub struct NodeIx(pub u32);

#[derive(Copy, Clone, Debug)]
pub struct Edge {
    pub a: NodeIx,
    pub b: NodeIx,
    pub w: u16,
}

#[derive(Debug)]
pub struct Node {
    pub id: String,
    pub edges: Vec<EdgeIx>,
}

#[derive(Debug)]
pub struct Graph {
    pub nodes: Vec<Node>,
    pub edges: Vec<Edge>,
}

impl Graph {
    /// Number of nodes.
    pub open spec fn n(self) -> int {
        self.nodes@.len() as int
    }

    /// Number of edges.
    pub open spec fn m(self) -> int {
        self.edges@.len() as int
    }

    /// The identifier of node `i`.
    pub open spec fn id_at(self, i: int) -> Seq<char> {
        self.nodes@[i].id@
    }

    /// Whether some node carries identifier `id`.
    pub open spec fn has_id(self, id: Seq<char>) -> bool {
        exists|i: int| 0 <= i < self.n() && self.id_at(i) == id
    }

    /// The slot of the node carrying `id` (meaningful when `has_id`).
    pub open spec fn idx_of(self, id: Seq<char>) -> int {
        choose|i: int| 0 <= i < self.n() && self.id_at(i) == id
    }

    /// The adjacency list of node `i`.
    pub open spec fn adj(self, i: int) -> Seq<EdgeIx> {
        self.nodes@[i].edges@
    }

    /// The node at the far end of adjacency entry `k` of node `i`.
    pub open spec fn nbr_at(self, i: int, k: int) -> int {
        let e = self.edges@[self.adj(i)[k].0 as int];
        if e.a.0 == i {
            e.b.0 as int
        } else {
            e.a.0 as int
        }
    }

    pub open spec fn wf(self) -> bool {
        &&& self.nodes@.len() <= u32::MAX
        &&& self.edges@.len() <= u32::MAX
        &&& forall|e: int|
            0 <= e < self.m() ==> (#[trigger] self.edges@[e]).a.0 < self.n()
                && self.edges@[e].b.0 < self.n()
        &&& forall|i: int, k: int|
            0 <= i < self.n() && 0 <= k < self.adj(i).len() ==> (#[trigger] self.adj(
                i,
            )[k]).0 < self.m()
        &&& forall|i: int, k: int|
            0 <= i < self.n() && 0 <= k < self.adj(i).len() ==> {
                let e = self.edges@[(#[trigger] self.adj(i)[k]).0 as int];
                e.a.0 == i || e.b.0 == i
            }
        &&& forall|e: int|
            0 <= e < self.m() ==> (#[trigger] self.adj(self.edges@[e].a.0 as int)).contains(
                EdgeIx(e as u32),
            ) && self.adj(self.edges@[e].b.0 as int).contains(EdgeIx(e as u32))
        &&& forall|i: int, j: int|
            0 <= i < self.n() && 0 <= j < self.n() && i != j ==> self.id_at(i) != self.id_at(
                j,
            )
        &&& forall|i: int|
            0 <= i < self.n() ==> (#[trigger] self.adj(i)).len() <= 2 * self.m()
    }

    pub fn with_capacity(sz: usize) -> (g: Graph)
        ensures
            g.wf(),
            g.n() == 0,
            g.m() == 0,
    {
        Graph { nodes: Vec::with_capacity(sz), edges: Vec::with_capacity(sz) }
    }

    /// Registers `id`, returning the existing handle if it is already
    /// present (no duplicate node is ever created), or allocating a fresh
    /// node with an empty adjacency list.
    pub fn add_node(&mut self, id: String) -> (r: NodeIx)
        requires
            old(self).wf(),
            old(self).has_id(id@) || old(self).n() < u32::MAX,
        ensures
            final(self).wf(),
            final(self).edges@ == old(self).edges@,
            (r.0 as int) < final(self).n(),
            final(self).id_at(r.0 as int) == id@,
            old(self).has_id(id@) ==> *final(self) == *old(self),
            !old(self).has_id(id@) ==> {
                &&& r.0 as int == old(self).n()
                &&& final(self).n() == old(self).n() + 1
                &&& final(self).adj(r.0 as int) == Seq::<EdgeIx>::empty()
                &&& forall|i: int|
                    0 <= i < old(self).n() ==> final(self).nodes@[i] == old(self).nodes@[i]
            },
    {
        let n: usize = self.nodes.len();
        let mut i: usize = 0;
        while i < n
            invariant
                self.wf(),
                n == self.n(),
                i <= n,
                forall|j: int| 0 <= j < i ==> self.id_at(j) != id@,
            decreases n - i,
        {
            if self.nodes[i].id == id {
                proof {
                    assert(self.id_at(i as int) == id@);
                    assert(self.has_id(id@));
                }
                return NodeIx(i as u32);
            }
            i = i + 1;
        }
        self.nodes.push(Node { id, edges: Vec::new() });
        proof {
            assert(self.id_at(n as int) == id@);
            assert(!old(self).has_id(id@));
            assert(self.adj(n as int) =~= Seq::<EdgeIx>::empty());
            assert forall|i: int| 0 <= i < old(self).n() implies self.adj(i) == old(self).adj(
                i,
            ) && self.id_at(i) == old(self).id_at(i) by {
                assert(self.nodes@[i] == old(self).nodes@[i]);
            }
            assert forall|i: int, j: int|
                0 <= i < self.n() && 0 <= j < self.n() && i != j implies self.id_at(i)
                != self.id_at(j) by {
                if i < n && j < n {
                    assert(old(self).id_at(i) != old(self).id_at(j));
                }
            }
            assert forall|e: int| 0 <= e < self.m() implies (#[trigger] self.adj(
                self.edges@[e].a.0 as int,
            )).contains(EdgeIx(e as u32)) && self.adj(self.edges@[e].b.0 as int).contains(
                EdgeIx(e as u32),
            ) by {
                assert(self.adj(old(self).edges@[e].a.0 as int) == old(self).adj(
                    old(self).edges@[e].a.0 as int,
                ));
                assert(self.adj(old(self).edges@[e].b.0 as int) == old(self).adj(
                    old(self).edges@[e].b.0 as int,
                ));
            }
        }
        NodeIx(n as u32)
    }

    /// Adds an undirected edge of weight `w` between `a` and `b`, registering
    /// both endpoints as `add_node` does.  The new edge handle is appended to
    /// both endpoints' adjacency lists (twice to the one list for a
    /// self-loop); parallel edges are not deduplicated.
    pub fn add_edge(&mut self, a: String, b: String, w: u16) -> (r: EdgeIx)
        requires
            old(self).wf(),
            old(self).n() + (if old(self).has_id(a@) { 0int } else { 1int }) + (
            if old(self).has_id(b@) || a@ == b@ { 0int } else { 1int }) <= u32::MAX,
            old(self).m() < u32::MAX,
        ensures
            final(self).wf(),
            r.0 as int == old(self).m(),
            final(self).m() == old(self).m() + 1,
            forall|e: int|
                0 <= e < old(self).m() ==> final(self).edges@[e] == old(self).edges@[e],
            final(self).edges@[old(self).m()].w == w,
            final(self).id_at(final(self).edges@[old(self).m()].a.0 as int) == a@,
            final(self).id_at(final(self).edges@[old(self).m()].b.0 as int) == b@,
            forall|i: int|
                0 <= i < old(self).n() ==> final(self).id_at(i) == old(self).id_at(i),
            final(self).n() == old(self).n() + (
            if old(self).has_id(a@) {
                0int
            } else {
                1int
            }) + (
            if old(self).has_id(b@) || a@ == b@ {
                0int
            } else {
                1int
            }),
            a@ != b@ ==> {
                let ia = final(self).edges@[old(self).m()].a.0 as int;
                let ib = final(self).edges@[old(self).m()].b.0 as int;
                &&& ia != ib
                &&& (ia < old(self).n() ==> final(self).adj(ia) == old(self).adj(ia).push(r))
                &&& (ia >= old(self).n() ==> final(self).adj(ia) == seq![r])
                &&& (ib < old(self).n() ==> final(self).adj(ib) == old(self).adj(ib).push(r))
                &&& (ib >= old(self).n() ==> final(self).adj(ib) == seq![r])
            },
            a@ == b@ ==> {
                let ia = final(self).edges@[old(self).m()].a.0 as int;
                &&& ia == final(self).edges@[old(self).m()].b.0 as int
                &&& (ia < old(self).n() ==> final(self).adj(ia) == old(self).adj(ia).push(
                    r,
                ).push(r))
                &&& (ia >= old(self).n() ==> final(self).adj(ia) == seq![r, r])
            },
            forall|i: int|
                0 <= i < final(self).n() && i != final(self).edges@[old(self).m()].a.0 as int
                    && i != final(self).edges@[old(self).m()].b.0 as int ==> final(self).adj(i)
                    == (
                if i < old(self).n() {
                    old(self).adj(i)
                } else {
                    Seq::<EdgeIx>::empty()
                }),
    {
        let ix = EdgeIx(self.edges.len() as u32);
        let ghost a_id = a@;
        let ghost b_id = b@;
        let na: NodeIx = self.add_node(a);
        let ghost s1 = *self;
        proof {
            assert forall|x: Seq<char>| #[trigger] s1.has_id(x) implies (old(self).has_id(x)
                || x == a_id) by {
                let i = choose|i: int| 0 <= i < s1.n() && s1.id_at(i) == x;
                if i < old(self).n() {
                    assert(old(self).id_at(i) == x);
                }
            }
            if old(self).has_id(b_id) {
                let i = choose|i: int| 0 <= i < old(self).n() && old(self).id_at(i) == b_id;
                assert(s1.id_at(i) == b_id);
                assert(s1.has_id(b_id));
            }
            if a_id == b_id {
                assert(s1.id_at(na.0 as int) == b_id);
                assert(s1.has_id(b_id));
            }
            assert(s1.has_id(b_id) <==> (old(self).has_id(b_id) || a_id == b_id));
        }
        let nb: NodeIx = self.add_node(b);
        let ghost mid = *self;
        proof {
            assert(mid.id_at(na.0 as int) == a_id);
            assert(mid.id_at(nb.0 as int) == b_id);
            assert((a_id == b_id) <==> na == nb);
        }
        let ea: usize = na.0 as usize;
        let eb: usize = nb.0 as usize;
        self.nodes[ea].edges.push(ix);
        self.nodes[eb].edges.push(ix);
        self.edges.push(Edge { a: na, b: nb, w });
        proof {
            self.lemma_add_edge_wf(mid, na.0 as int, nb.0 as int, ix);
        }
        ix
    }

    /// After appending edge `ix` to the adjacency lists of its endpoints and
    /// to the edge list, the graph is well-formed again.
    proof fn lemma_add_edge_wf(self, pre: Graph, ia: int, ib: int, ix: EdgeIx)
        requires
            pre.wf(),
            pre.m() < u32::MAX,
            0 <= ia < pre.n(),
            0 <= ib < pre.n(),
            ix.0 as int == pre.m(),
            self.nodes@.len() == pre.nodes@.len(),
            self.edges@ == pre.edges@.push(
                Edge { a: NodeIx(ia as u32), b: NodeIx(ib as u32), w: self.edges@.last().w },
            ),
            ia != ib ==> self.adj(ia) == pre.adj(ia).push(ix) && self.adj(ib) == pre.adj(
                ib,
            ).push(ix),
            ia == ib ==> self.adj(ia) == pre.adj(ia).push(ix).push(ix),
            forall|i: int|
                0 <= i < pre.n() && i != ia && i != ib ==> self.nodes@[i] == pre.nodes@[i],
            forall|i: int| 0 <= i < pre.n() ==> self.id_at(i) == pre.id_at(i),
        ensures
            self.wf(),
    {
        assert forall|e: int| 0 <= e < self.m() implies (#[trigger] self.adj(
            self.edges@[e].a.0 as int,
        )).contains(EdgeIx(e as u32)) && self.adj(self.edges@[e].b.0 as int).contains(
            EdgeIx(e as u32),
        ) by {
            if e < pre.m() {
                let pa = pre.edges@[e].a.0 as int;
                let pb = pre.edges@[e].b.0 as int;
                let k1 = choose|k: int|
                    0 <= k < pre.adj(pa).len() && (#[trigger] pre.adj(pa)[k]) == EdgeIx(
                        e as u32,
                    );
                assert(self.adj(pa)[k1] == EdgeIx(e as u32));
                let k2 = choose|k: int|
                    0 <= k < pre.adj(pb).len() && (#[trigger] pre.adj(pb)[k]) == EdgeIx(
                        e as u32,
                    );
                assert(self.adj(pb)[k2] == EdgeIx(e as u32));
            } else {
                if ia != ib {
                    assert(self.adj(ia)[self.adj(ia).len() - 1] == ix);
                    assert(self.adj(ib)[self.adj(ib).len() - 1] == ix);
                } else {
                    assert(self.adj(ia)[self.adj(ia).len() - 1] == ix);
                }
            }
        }
        assert forall|i: int, k: int|
            0 <= i < self.n() && 0 <= k < self.adj(i).len() implies (#[trigger] self.adj(
            i,
        )[k]).0 < self.m() && {
            let e = self.edges@[self.adj(i)[k].0 as int];
            e.a.0 == i || e.b.0 == i
        } by {
            if i != ia && i != ib {
                assert(self.adj(i) == pre.adj(i));
            } else {
                if k < pre.adj(i).len() {
                    assert(self.adj(i)[k] == pre.adj(i)[k]);
                } else {
                    assert(self.adj(i)[k] == ix);
                }
            }
        }
        assert forall|i: int| 0 <= i < self.n() implies (#[trigger] self.adj(i)).len() <= 2
            * self.m() by {
            if i != ia && i != ib {
                assert(self.adj(i) == pre.adj(i));
            }
            assert(pre.adj(i).len() <= 2 * pre.m());
        }
        assert forall|i: int, j: int|
            0 <= i < self.n() && 0 <= j < self.n() && i != j implies self.id_at(i)
            != self.id_at(j) by {
            assert(pre.id_at(i) != pre.id_at(j));
        }
        assert forall|e: int|
            0 <= e < self.m() implies (#[trigger] self.edges@[e]).a.0 < self.n()
            && self.edges@[e].b.0 < self.n() by {
            if e < pre.m() {
                assert(self.edges@[e] == pre.edges@[e]);
            }
        }
    }

    /// The node behind a handle.
    pub fn node(&self, ix: NodeIx) -> (r: &Node)
        requires
            self.wf(),
            (ix.0 as int) < self.n(),
        ensures
            *r == self.nodes@[ix.0 as int],
    {
        &self.nodes[ix.0 as usize]
    }

    /// The edge behind a handle.
    pub fn edge(&self, ix: EdgeIx) -> (r: &Edge)
        requires
            self.wf(),
            (ix.0 as int) < self.m(),
        ensures
            *r == self.edges@[ix.0 as int],
    {
        &self.edges[ix.0 as usize]
    }
}

/// A finite cursor over the neighbors of one node: for each adjacency entry
/// of the root, the *other* endpoint of that edge (the root itself for a
/// self-loop).
pub struct Neighbors {
    items: Vec<NodeIx>,
    idx: usize,
}

impl Neighbors {
    /// All the neighbor handles this cursor ranges over.
    pub closed spec fn items(self) -> Seq<NodeIx> {
        self.items@
    }

    /// How many entries have been yielded so far.
    pub closed spec fn pos(self) -> int {
        self.idx as int
    }

    /// The next neighbor, or `None` once the entries are exhausted.
    pub fn next(&mut self) -> (r: Option<NodeIx>)
        requires
            old(self).pos() <= old(self).items().len(),
        ensures
            final(self).items() == old(self).items(),
            old(self).pos() < old(self).items().len() ==> r == Some(
                old(self).items()[old(self).pos()],
            ) && final(self).pos() == old(self).pos() + 1,
            old(self).pos() >= old(self).items().len() ==> r is None && final(self).pos()
                == old(self).pos(),
    {
        if self.idx < self.items.len() {
            let out: NodeIx = self.items[self.idx];
            self.idx = self.idx + 1;
            Some(out)
        } else {
            None
        }
    }
}

impl Graph {
    /// A cursor over the neighbors of `ix`, one entry per adjacency entry of
    /// `ix`, in adjacency order.
    pub fn neighbors(&self, ix: NodeIx) -> (r: Neighbors)
        requires
            self.wf(),
            (ix.0 as int) < self.n(),
        ensures
            r.pos() == 0,
            r.items().len() == self.adj(ix.0 as int).len(),
            forall|k: int|
                0 <= k < r.items().len() ==> (#[trigger] r.items()[k]).0 as int == self.nbr_at(
                    ix.0 as int,
                    k,
                ),
    {
        let root: usize = ix.0 as usize;
        let deg: usize = self.nodes[root].edges.len();
        let mut items: Vec<NodeIx> = Vec::new();
        let mut k: usize = 0;
        while k < deg
            invariant
                self.wf(),
                (root as int) < self.n(),
                root == ix.0 as int,
                deg == self.adj(root as int).len(),
                k <= deg,
                items@.len() == k,
                forall|q: int|
                    0 <= q < k ==> (#[trigger] items@[q]).0 as int == self.nbr_at(
                        root as int,
                        q,
                    ),
            decreases deg - k,
        {
            let e: EdgeIx = self.nodes[root].edges[k];
            let edge: &Edge = &self.edges[e.0 as usize];
            let other: NodeIx = if edge.a.0 as usize == root {
                edge.b
            } else {
                edge.a
            };
            items.push(other);
            k = k + 1;
        }
        Neighbors { items, idx: 0 }
    }

    /// The weight of the first edge in `root`'s adjacency list that touches
    /// `other`, if any.
    pub open spec fn first_direct(self, i: int, j: int, k: int) -> Option<u16>
        decreases self.adj(i).len() - k,
    {
        if k < 0 || k >= self.adj(i).len() {
            None
        } else {
            let e = self.edges@[self.adj(i)[k].0 as int];
            if e.a.0 == j || e.b.0 == j {
                Some(e.w)
            } else {
                self.first_direct(i, j, k + 1)
            }
        }
    }

    /// The weight of the first edge directly joining `root` and `other`, in
    /// `root`'s adjacency order, or `None` if no edge joins them.
    pub fn direct_connection(&self, root: NodeIx, other: NodeIx) -> (r: Option<u16>)
        requires
            self.wf(),
            (root.0 as int) < self.n(),
        ensures
            r == self.first_direct(root.0 as int, other.0 as int, 0),
    {
        let i: usize = root.0 as usize;
        let deg: usize = self.nodes[i].edges.len();
        let mut k: usize = 0;
        while k < deg
            invariant
                self.wf(),
                (i as int) < self.n(),
                i == root.0 as int,
                deg == self.adj(i as int).len(),
                k <= deg,
                self.first_direct(i as int, other.0 as int, 0) == self.first_direct(
                    i as int,
                    other.0 as int,
                    k as int,
                ),
            decreases deg - k,
        {
            let e: EdgeIx = self.nodes[i].edges[k];
            let edge: &Edge = &self.edges[e.0 as usize];
            if edge.a == other || edge.b == other {
                return Some(edge.w);
            }
            k = k + 1;
        }
        None
    }
}

impl Default for Graph {
    fn default() -> (g: Graph)
        ensures
            g.wf(),
            g.n() == 0,
            g.m() == 0,
    {
        Graph::with_capacity(0)
    }
}

} // verus!
