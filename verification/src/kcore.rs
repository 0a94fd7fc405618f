//! Iterative k-core peeling: starting at threshold two, repeatedly discard
//! every retained node whose degree inside the retained set falls below the
//! threshold, raising the threshold after each pass; the answer is the last
//! threshold with survivors, and the subgraph they induce.

use crate::graph::Graph;
use crate::induced::is_induced;
use vstd::prelude::*;

verus! {

/// How many of the first `k` adjacency entries of `v` lead to a retained
/// node (a self-loop counts when `v` itself is retained).
pub open spec fn live_deg_upto(g: Graph, ret: Seq<bool>, v: int, k: int) -> int
    decreases k,
{
    if k <= 0 {
        0
    } else {
        live_deg_upto(g, ret, v, k - 1) + if ret[g.nbr_at(v, k - 1)] {
            1int
        } else {
            0int
        }
    }
}

/// The degree of `v` inside the retained set, counting multiplicity.
pub open spec fn live_deg(g: Graph, ret: Seq<bool>, v: int) -> int {
    live_deg_upto(g, ret, v, g.adj(v).len() as int)
}

/// One filtering pass: keep the retained nodes of live degree at least `k`.
pub open spec fn peel_filter(g: Graph, ret: Seq<bool>, k: int) -> Seq<bool> {
    Seq::new(ret.len(), |v: int| ret[v] && live_deg(g, ret, v) >= k)
}

pub open spec fn any_retained(ret: Seq<bool>) -> bool {
    exists|v: int| 0 <= v < ret.len() && ret[v]
}

proof fn lemma_live_deg_upto_le(g: Graph, ret: Seq<bool>, v: int, k: int)
    requires
        k >= 0,
    ensures
        live_deg_upto(g, ret, v, k) <= k,
    decreases k,
{
    if k > 0 {
        lemma_live_deg_upto_le(g, ret, v, k - 1);
    }
}

/// The peeling process itself: repeated filtering at a growing threshold,
/// ending with the last non-empty retained set and its threshold.
pub open spec fn peel(g: Graph, ret: Seq<bool>, k: int) -> (int, Seq<bool>)
    decreases 2 * g.m() + 2 - k
        when g.wf() && ret.len() == g.n() && 2 <= k <= 2 * g.m() + 2
        via peel_decreases
{
    let ret2 = peel_filter(g, ret, k);
    if !any_retained(ret2) {
        (k - 1, ret)
    } else {
        peel(g, ret2, k + 1)
    }
}

#[via_fn]
proof fn peel_decreases(g: Graph, ret: Seq<bool>, k: int) {
    let ret2 = peel_filter(g, ret, k);
    if any_retained(ret2) {
        let v = choose|v: int| 0 <= v < ret2.len() && ret2[v];
        lemma_live_deg_upto_le(g, ret, v, g.adj(v).len() as int);
        assert(k <= live_deg(g, ret, v));
        assert(live_deg(g, ret, v) <= g.adj(v).len());
        assert(g.adj(v).len() <= 2 * g.m());
    }
}

proof fn lemma_peel_bound(g: Graph, ret: Seq<bool>, k: int)
    requires
        g.wf(),
        ret.len() == g.n(),
        2 <= k <= 2 * g.m() + 2,
    ensures
        ({
            let (kr, rf) = peel(g, ret, k);
            &&& k - 1 <= kr
            &&& (kr >= k ==> exists|i: int| 0 <= i < g.n() && (#[trigger] g.adj(i)).len() >= kr)
        }),
    decreases 2 * g.m() + 2 - k,
{
    let ret2 = peel_filter(g, ret, k);
    if any_retained(ret2) {
        let v = choose|v: int| 0 <= v < ret2.len() && ret2[v];
        lemma_live_deg_upto_le(g, ret, v, g.adj(v).len() as int);
        assert(g.adj(v).len() <= 2 * g.m());
        lemma_peel_bound(g, ret2, k + 1);
        let (kr, rf) = peel(g, ret2, k + 1);
        if kr == k {
            assert(k <= live_deg(g, ret, v));
            assert(g.adj(v).len() >= kr);
        }
    }
}

/// The coreness from the peeling is at least one, and whenever it reaches
/// two it cannot exceed the largest node degree of the graph.
pub proof fn lemma_kcore_max_degree(g: Graph)
    requires
        g.wf(),
    ensures
        ({
            let (kr, rf) = peel(g, Seq::new(g.n() as nat, |v: int| true), 2);
            &&& kr >= 1
            &&& (kr >= 2 ==> exists|i: int| 0 <= i < g.n() && (#[trigger] g.adj(i)).len() >= kr)
        }),
{
    lemma_peel_bound(g, Seq::new(g.n() as nat, |v: int| true), 2);
}

impl Graph {
    /// The coreness of this graph under the iterative peeling, and the
    /// subgraph induced by the surviving nodes.
    pub fn kcore(&self) -> (r: (usize, Graph))
        requires
            self.wf(),
            2 * self.m() + 2 <= usize::MAX,
        ensures
            ({
                let (kr, ret) = peel(*self, Seq::new(self.n() as nat, |v: int| true), 2);
                &&& r.0 as int == kr
                &&& is_induced(*self, ret, r.1)
            }),
    {
        let n: usize = self.nodes.len();
        let mut retain: Vec<bool> = vec![true; n];
        let mut k: usize = 2;
        proof {
            assert(retain@ =~= Seq::new(self.n() as nat, |v: int| true));
        }
        let ghost ret0 = retain@;
        loop
            invariant
                self.wf(),
                n == self.n(),
                retain@.len() == n,
                2 <= k,
                k as int <= 2 * self.m() + 2,
                2 * self.m() + 2 <= usize::MAX,
                ret0 == Seq::new(self.n() as nat, |v: int| true),
                peel(*self, ret0, 2) == peel(*self, retain@, k as int),
            decreases 2 * self.m() + 2 - k,
        {
            let mut newret: Vec<bool> = vec![false; n];
            let mut any: bool = false;
            let mut v: usize = 0;
            while v < n
                invariant
                    self.wf(),
                    n == self.n(),
                    retain@.len() == n,
                    newret@.len() == n,
                    v <= n,
                    2 <= k,
                    forall|v2: int|
                        0 <= v2 < v ==> #[trigger] newret@[v2] == (retain@[v2] && live_deg(
                            *self,
                            retain@,
                            v2,
                        ) >= k),
                    forall|v2: int| v <= v2 < n ==> !(#[trigger] newret@[v2]),
                    any == exists|v2: int| 0 <= v2 < v && #[trigger] newret@[v2],
                decreases n - v,
            {
                if retain[v] {
                    let deg: usize = self.nodes[v].edges.len();
                    let mut live: usize = 0;
                    let mut q: usize = 0;
                    while q < deg
                        invariant
                            self.wf(),
                            n == self.n(),
                            retain@.len() == n,
                            (v as int) < n,
                            deg == self.adj(v as int).len(),
                            q <= deg,
                            live as int == live_deg_upto(*self, retain@, v as int, q as int),
                            live <= q,
                        decreases deg - q,
                    {
                        let e: u32 = self.nodes[v].edges[q].0;
                        let ea: u32 = self.edges[e as usize].a.0;
                        let eb: u32 = self.edges[e as usize].b.0;
                        let other: u32 = if ea as usize == v {
                            eb
                        } else {
                            ea
                        };
                        if retain[other as usize] {
                            live = live + 1;
                        }
                        q = q + 1;
                    }
                    if live >= k {
                        newret[v] = true;
                        any = true;
                        proof {
                            assert(newret@[v as int]);
                        }
                    }
                }
                proof {
                    assert forall|v2: int|
                        0 <= v2 < v + 1 implies #[trigger] newret@[v2] == (retain@[v2]
                        && live_deg(*self, retain@, v2) >= k) by {}
                }
                v = v + 1;
            }
            proof {
                assert(newret@ =~= peel_filter(*self, retain@, k as int));
                assert(any == any_retained(newret@));
            }
            if !any {
                proof {
                    assert(peel(*self, retain@, k as int) == ((k - 1) as int, retain@));
                }
                let sub: Graph = self.induced(&retain);
                return (k - 1, sub);
            }
            proof {
                let v2 = choose|v2: int| 0 <= v2 < newret@.len() && newret@[v2];
                lemma_live_deg_upto_le(*self, retain@, v2, self.adj(v2).len() as int);
                assert(k as int <= live_deg(*self, retain@, v2));
                assert(live_deg(*self, retain@, v2) <= self.adj(v2).len());
                assert(self.adj(v2).len() <= 2 * self.m());
            }
            retain = newret;
            k = k + 1;
        }
    }
}

} // verus!
