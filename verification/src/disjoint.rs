//! A disjoint set (union-find) with path compression and union by rank.
//!
//! Every element lives in a slot of `elements`; the parent pointers form a
//! forest whose roots carry the payload of their component.  A ghost sequence
//! `reps` records the root of every slot, which lets contracts speak about
//! component membership without walking parent chains.

use vstd::prelude::*;
use vstd::set_lib::lemma_int_range;
use vstd::set_lib::lemma_len_subset;
use vstd::set_lib::set_int_range;

verus! {

struct SetElement<T> {
    data: Option<T>,
    rank: u32,
    parent: usize,
}

pub struct DisjointSet<T> {
    elements: Vec<SetElement<T>>,
    components: usize,
    reps: Ghost<Seq<usize>>,
}

#[derive(Copy, Clone, Debug, PartialEq, PartialOrd, Eq, Hash, Structural)]
pub struct Element(pub usize);

/// Which operand of a merge to prefer.
pub enum Choice {
    Left,
    Right,
}

impl<T> DisjointSet<T> {
    /// How many elements have ever been created.
    pub closed spec fn count(self) -> nat {
        self.elements@.len()
    }

    /// The root slot of element `i`'s component.
    pub closed spec fn rep(self, i: int) -> int {
        self.reps@[i] as int
    }

    /// Whether slot `i` is the representative of its component.
    pub closed spec fn is_root(self, i: int) -> bool {
        self.elements@[i].parent == i
    }

    /// The payload held for the component of element `i`.
    pub closed spec fn payload(self, i: int) -> T {
        self.elements@[self.rep(i)].data.unwrap()
    }

    /// The number of live components.
    pub closed spec fn num_components(self) -> nat {
        self.components as nat
    }

    spec fn roots(self) -> Set<int> {
        Set::new(|i: int| 0 <= i < self.count() && self.is_root(i))
    }

    pub closed spec fn inv(self) -> bool {
        let n = self.count() as int;
        &&& self.reps@.len() == n
        &&& n <= u32::MAX
        &&& forall|i: int|
            0 <= i < n ==> (#[trigger] self.elements@[i].parent) < n
        &&& forall|i: int|
            0 <= i < n ==> 0 <= (#[trigger] self.reps@[i]) < n
        &&& forall|i: int|
            0 <= i < n ==> self.is_root(#[trigger] self.reps@[i] as int)
        &&& forall|i: int|
            0 <= i < n && self.is_root(i) ==> (#[trigger] self.reps@[i]) == i
        &&& forall|i: int|
            0 <= i < n && !self.is_root(i) ==> (#[trigger] self.reps@[i])
                == self.reps@[self.elements@[i].parent as int]
        &&& forall|i: int|
            0 <= i < n && !self.is_root(i) ==> (#[trigger] self.elements@[i].rank)
                < self.elements@[self.elements@[i].parent as int].rank
        &&& forall|i: int|
            0 <= i < n ==> ((#[trigger] self.elements@[i].data) is Some <==> self.is_root(i))
        &&& forall|i: int|
            0 <= i < n ==> (#[trigger] self.elements@[i].rank) + self.components <= n
        &&& self.roots().finite()
        &&& self.components == self.roots().len()
    }

    /// Facts about representatives that follow from the invariant, for callers.
    pub proof fn lemma_rep_props(self)
        requires
            self.inv(),
        ensures
            forall|i: int|
                0 <= i < self.count() ==> 0 <= (#[trigger] self.rep(i)) < self.count(),
            forall|i: int|
                0 <= i < self.count() ==> self.rep(#[trigger] self.rep(i)) == self.rep(i),
            forall|i: int|
                0 <= i < self.count() ==> self.is_root(#[trigger] self.rep(i)),
            forall|i: int|
                0 <= i < self.count() ==> ((#[trigger] self.is_root(i)) <==> self.rep(i) == i),
            forall|i: int|
                0 <= i < self.count() ==> #[trigger] self.payload(i) == self.payload(
                    self.rep(i),
                ),
    {
    }

    proof fn lemma_comps_le_count(self)
        requires
            self.inv(),
        ensures
            self.num_components() <= self.count(),
    {
        lemma_int_range(0, self.count() as int);
        assert(self.roots().subset_of(set_int_range(0, self.count() as int)));
        lemma_len_subset(self.roots(), set_int_range(0, self.count() as int));
    }

    proof fn lemma_comps_pos(self)
        requires
            self.inv(),
            self.count() > 0,
        ensures
            self.num_components() >= 1,
    {
        let r = self.rep(0);
        assert(self.roots().contains(r));
        vstd::set::axiom_set_remove_len(self.roots(), r);
    }

    /// The ranks strictly increase along a parent chain, so every non-root
    /// slot has a smaller rank than the root of its component.
    proof fn lemma_rank_below_root(self, i: int)
        requires
            self.inv(),
            0 <= i < self.count(),
            !self.is_root(i),
        ensures
            self.elements@[i].rank < self.elements@[self.rep(i)].rank,
        decreases self.count() - self.elements@[i].rank,
    {
        let p = self.elements@[i].parent as int;
        if !self.is_root(p) {
            self.lemma_rank_below_root(p);
        }
    }

    pub fn new() -> (s: DisjointSet<T>)
        ensures
            s.inv(),
            s.count() == 0,
            s.num_components() == 0,
    {
        let s = DisjointSet { elements: Vec::new(), components: 0, reps: Ghost(Seq::empty()) };
        proof {
            assert(s.roots() =~= Set::<int>::empty());
        }
        s
    }

    /// Creates a fresh one-element component holding `data` and returns its handle.
    pub fn singleton(&mut self, data: T) -> (e: Element)
        requires
            old(self).inv(),
            old(self).count() < u32::MAX,
        ensures
            final(self).inv(),
            e.0 == old(self).count(),
            final(self).count() == old(self).count() + 1,
            final(self).num_components() == old(self).num_components() + 1,
            forall|i: int|
                0 <= i < old(self).count() ==> final(self).rep(i) == old(self).rep(i),
            forall|i: int|
                0 <= i < old(self).count() ==> final(self).is_root(i) == old(self).is_root(i),
            final(self).rep(e.0 as int) == e.0,
            final(self).is_root(e.0 as int),
            forall|i: int|
                0 <= i < old(self).count() ==> final(self).payload(i) == old(self).payload(i),
            final(self).payload(e.0 as int) == data,
    {
        let n: usize = self.elements.len();
        proof {
            self.lemma_comps_le_count();
        }
        self.elements.push(SetElement { data: Some(data), rank: 0, parent: n });
        self.components = self.components + 1;
        proof {
            self.reps@ = self.reps@.push(n);
            assert forall|i: int| 0 <= i < old(self).count() implies final(self).is_root(i)
                == old(self).is_root(i) by {
                assert(final(self).elements@[i] == old(self).elements@[i]);
            }
            assert(final(self).roots() =~= old(self).roots().insert(n as int));
            vstd::set::axiom_set_insert_len(old(self).roots(), n as int);
        }
        Element(n)
    }

    /// Walks the parent chain of `id` up to the root, without mutating.
    fn root_of(&self, id: usize) -> (r: usize)
        requires
            self.inv(),
            id < self.count(),
        ensures
            r as int == self.rep(id as int),
    {
        proof {
            self.lemma_comps_pos();
        }
        let mut ptr: usize = id;
        while self.elements[ptr].parent != ptr
            invariant
                self.inv(),
                self.count() > 0,
                ptr < self.count(),
                self.rep(ptr as int) == self.rep(id as int),
            decreases self.count() - self.elements@[ptr as int].rank,
        {
            proof {
                self.lemma_comps_pos();
            }
            ptr = self.elements[ptr].parent;
        }
        ptr
    }

    /// Resolves `id` to its root slot index, retargeting every slot on the
    /// walked path directly at the root (full path compression).
    #[verifier::rlimit(50)]
    fn find_set(&mut self, id: usize) -> (r: usize)
        requires
            old(self).inv(),
            id < old(self).count(),
        ensures
            final(self).inv(),
            r as int == old(self).rep(id as int),
            final(self).count() == old(self).count(),
            final(self).num_components() == old(self).num_components(),
            forall|i: int|
                0 <= i < old(self).count() ==> final(self).rep(i) == old(self).rep(i),
            forall|i: int|
                0 <= i < old(self).count() ==> final(self).is_root(i) == old(self).is_root(i),
            forall|i: int|
                0 <= i < old(self).count() ==> final(self).payload(i) == old(self).payload(i),
    {
        // locate the root of id's component
        let root: usize = self.root_of(id);

        // id is the representative element, return
        if root == id {
            return id;
        }

        // perform path compression
        let mut ptr: usize = id;
        while self.elements[ptr].parent != ptr
            invariant
                self.inv(),
                self.count() == old(self).count(),
                self.count() > 0,
                ptr < self.count(),
                root < self.count(),
                self.rep(ptr as int) == old(self).rep(id as int),
                root as int == old(self).rep(id as int),
                self.reps@ == old(self).reps@,
                self.components == old(self).components,
                forall|i: int|
                    0 <= i < old(self).count() ==> self.elements@[i].data
                        == old(self).elements@[i].data,
                forall|i: int|
                    0 <= i < old(self).count() ==> self.elements@[i].rank
                        == old(self).elements@[i].rank,
                forall|i: int|
                    0 <= i < old(self).count() ==> self.is_root(i) == old(self).is_root(i),
            decreases self.count() - self.elements@[ptr as int].rank,
        {
            proof {
                self.lemma_comps_pos();
                self.lemma_rank_below_root(ptr as int);
            }
            let ghost prev = *self;
            let ghost visited = ptr as int;
            let next: usize = self.elements[ptr].parent;
            self.elements[ptr].parent = root;
            ptr = next;
            proof {
                assert forall|i: int| 0 <= i < self.count() implies self.is_root(i)
                    == prev.is_root(i) by {
                    if i != visited {
                        assert(self.elements@[i] == prev.elements@[i]);
                    }
                }
                assert(self.roots() =~= prev.roots());
            }
        }
        proof {
            assert forall|i: int| 0 <= i < old(self).count() implies final(self).payload(i)
                == old(self).payload(i) by {
                assert(final(self).elements@[final(self).rep(i)].data == old(
                    self,
                ).elements@[old(self).rep(i)].data);
            }
        }
        root
    }

    /// The representative handle of `element`'s component.
    pub fn find_repr(&mut self, element: Element) -> (r: Element)
        requires
            old(self).inv(),
            element.0 < old(self).count(),
        ensures
            final(self).inv(),
            r.0 as int == old(self).rep(element.0 as int),
            final(self).count() == old(self).count(),
            final(self).num_components() == old(self).num_components(),
            forall|i: int|
                0 <= i < old(self).count() ==> final(self).rep(i) == old(self).rep(i),
            forall|i: int|
                0 <= i < old(self).count() ==> final(self).is_root(i) == old(self).is_root(i),
            forall|i: int|
                0 <= i < old(self).count() ==> final(self).payload(i) == old(self).payload(i),
    {
        Element(self.find_set(element.0))
    }

    /// The payload stored in `element`'s own slot: `Some` exactly when the
    /// slot is the representative of its component.
    pub fn data(&self, element: Element) -> (r: Option<&T>)
        requires
            self.inv(),
            element.0 < self.count(),
        ensures
            match r {
                Some(p) => self.is_root(element.0 as int) && *p == self.payload(
                    element.0 as int,
                ),
                None => !self.is_root(element.0 as int),
            },
    {
        self.elements[element.0].data.as_ref()
    }

    /// The payload of `element`'s component, compressing the walked path.
    pub fn find(&mut self, element: Element) -> (r: &T)
        requires
            old(self).inv(),
            element.0 < old(self).count(),
        ensures
            final(self).inv(),
            *r == old(self).payload(element.0 as int),
            final(self).count() == old(self).count(),
            final(self).num_components() == old(self).num_components(),
            forall|i: int|
                0 <= i < old(self).count() ==> final(self).rep(i) == old(self).rep(i),
            forall|i: int|
                0 <= i < old(self).count() ==> final(self).is_root(i) == old(self).is_root(i),
            forall|i: int|
                0 <= i < old(self).count() ==> final(self).payload(i) == old(self).payload(i),
    {
        let root: usize = self.find_set(element.0);
        // Invariant: the representative element always holds `Some`
        self.elements[root].data.as_ref().expect("Invariant violated")
    }

    /// Merges the components of `a` and `b`.  A merge of an already merged
    /// pair is a no-op; otherwise the surviving component's payload becomes
    /// `f` applied to (`a`'s payload, `b`'s payload), in that order, whichever
    /// root wins, and the component count drops by one.
    #[verifier::rlimit(50)]
    pub fn union<F: Fn(T, T) -> T>(&mut self, f: F, a: Element, b: Element)
        requires
            old(self).inv(),
            a.0 < old(self).count(),
            b.0 < old(self).count(),
            old(self).rep(a.0 as int) != old(self).rep(b.0 as int) ==> call_requires(
                f,
                (old(self).payload(a.0 as int), old(self).payload(b.0 as int)),
            ),
        ensures
            final(self).inv(),
            final(self).count() == old(self).count(),
            old(self).rep(a.0 as int) == old(self).rep(b.0 as int) ==> {
                &&& final(self).num_components() == old(self).num_components()
                &&& forall|i: int|
                    0 <= i < old(self).count() ==> final(self).rep(i) == old(self).rep(i)
                &&& forall|i: int|
                    0 <= i < old(self).count() ==> final(self).is_root(i) == old(
                        self,
                    ).is_root(i)
                &&& forall|i: int|
                    0 <= i < old(self).count() ==> final(self).payload(i) == old(
                        self,
                    ).payload(i)
            },
            old(self).rep(a.0 as int) != old(self).rep(b.0 as int) ==> {
                let ra = old(self).rep(a.0 as int);
                let rb = old(self).rep(b.0 as int);
                let w = final(self).rep(a.0 as int);
                &&& final(self).num_components() + 1 == old(self).num_components()
                &&& (w == ra || w == rb)
                &&& final(self).rep(b.0 as int) == w
                &&& forall|i: int|
                    0 <= i < old(self).count() ==> final(self).rep(i) == (
                    if old(self).rep(i) == ra || old(self).rep(i) == rb {
                        w
                    } else {
                        old(self).rep(i)
                    })
                &&& call_ensures(
                    f,
                    (old(self).payload(a.0 as int), old(self).payload(b.0 as int)),
                    final(self).payload(a.0 as int),
                )
                &&& forall|i: int|
                    0 <= i < old(self).count() && (old(self).rep(i) == ra || old(self).rep(i)
                        == rb) ==> final(self).payload(i) == final(self).payload(a.0 as int)
                &&& forall|i: int|
                    0 <= i < old(self).count() && !(old(self).rep(i) == ra || old(self).rep(i)
                        == rb) ==> final(self).payload(i) == old(self).payload(i)
                &&& forall|i: int|
                    0 <= i < old(self).count() ==> (final(self).is_root(i) <==> (old(
                        self,
                    ).is_root(i) && i != (if w == ra {
                        rb
                    } else {
                        ra
                    })))
            },
    {
        let pa: usize = self.find_set(a.0);
        let pb: usize = self.find_set(b.0);

        if pa == pb {
            return ;
        }
        let ghost base = *self;
        proof {
            assert(base.payload(pa as int) == old(self).payload(a.0 as int));
            assert(base.payload(pb as int) == old(self).payload(b.0 as int));
        }
        self.merge_roots(f, pa, pb);
        proof {
            let w = final(self).rep(pa as int);
            assert(final(self).rep(a.0 as int) == w && final(self).rep(b.0 as int) == w);
        }
    }

    /// Links the two distinct roots `pa` and `pb`, attaching the root of
    /// smaller rank under the other and giving the surviving root the payload
    /// `f(pa's payload, pb's payload)`.
    fn merge_roots<F: Fn(T, T) -> T>(&mut self, f: F, pa: usize, pb: usize)
        requires
            old(self).inv(),
            pa < old(self).count(),
            pb < old(self).count(),
            pa != pb,
            old(self).is_root(pa as int),
            old(self).is_root(pb as int),
            call_requires(f, (old(self).payload(pa as int), old(self).payload(pb as int))),
        ensures
            final(self).inv(),
            final(self).count() == old(self).count(),
            final(self).num_components() + 1 == old(self).num_components(),
            final(self).reps@.len() == old(self).reps@.len(),
            final(self).rep(pa as int) == final(self).rep(pb as int),
            final(self).rep(pa as int) == pa || final(self).rep(pa as int) == pb,
            forall|i: int|
                0 <= i < old(self).count() ==> final(self).rep(i) == (
                if old(self).rep(i) == pa || old(self).rep(i) == pb {
                    final(self).rep(pa as int)
                } else {
                    old(self).rep(i)
                }),
            call_ensures(
                f,
                (old(self).payload(pa as int), old(self).payload(pb as int)),
                final(self).payload(pa as int),
            ),
            forall|i: int|
                0 <= i < old(self).count() && (old(self).rep(i) == pa || old(self).rep(i)
                    == pb) ==> final(self).payload(i) == final(self).payload(pa as int),
            forall|i: int|
                0 <= i < old(self).count() && !(old(self).rep(i) == pa || old(self).rep(i)
                    == pb) ==> final(self).payload(i) == old(self).payload(i),
            forall|i: int|
                0 <= i < old(self).count() ==> (final(self).is_root(i) <==> (old(
                    self,
                ).is_root(i) && i != (if final(self).rep(pa as int) == pa {
                    pb as int
                } else {
                    pa as int
                }))),
    {
        proof {
            let roots0 = old(self).roots();
            assert(roots0.contains(pa as int) && roots0.contains(pb as int));
            vstd::set::axiom_set_remove_len(roots0, pa as int);
            assert(roots0.remove(pa as int).contains(pb as int));
            vstd::set::axiom_set_remove_len(roots0.remove(pa as int), pb as int);
        }

        // Move data out first
        let a_data: T = self.elements[pa].data.take().expect("Invariant violated");
        let b_data: T = self.elements[pb].data.take().expect("Invariant violated");

        self.components = self.components - 1;
        let combined: T = f(a_data, b_data);
        let rank_a: u32 = self.elements[pa].rank;
        let rank_b: u32 = self.elements[pb].rank;
        let winner: usize = if rank_a < rank_b {
            pb
        } else {
            pa
        };
        let loser: usize = if rank_a < rank_b {
            pa
        } else {
            pb
        };
        self.elements[winner].data = Some(combined);
        self.elements[loser].parent = winner;
        let bumped: u32 = self.elements[winner].rank + 1;
        self.elements[winner].rank = bumped;
        proof {
            self.reps@ = Seq::new(
                old(self).reps@.len(),
                |i: int|
                    if old(self).reps@[i] == loser {
                        winner
                    } else {
                        old(self).reps@[i]
                    },
            );
            Self::lemma_union_step(*old(self), *self, winner as int, loser as int);
            assert(final(self).rep(pa as int) == winner as int);
            assert(final(self).payload(pa as int) == combined);
        }
    }

    /// Re-establishes the invariant after linking root `l` under root `w`,
    /// and describes how representatives and payloads move.
    proof fn lemma_union_step(pre: Self, post: Self, w: int, l: int)
        requires
            pre.inv(),
            0 <= w < pre.count(),
            0 <= l < pre.count(),
            w != l,
            pre.is_root(w),
            pre.is_root(l),
            post.elements@.len() == pre.elements@.len(),
            post.components + 1 == pre.components,
            post.reps@ == Seq::new(
                pre.reps@.len(),
                |i: int|
                    if pre.reps@[i] == l {
                        w as usize
                    } else {
                        pre.reps@[i]
                    },
            ),
            post.elements@[l].parent == w,
            post.elements@[l].data is None,
            post.elements@[l].rank == pre.elements@[l].rank,
            post.elements@[w].parent == pre.elements@[w].parent,
            post.elements@[w].data is Some,
            post.elements@[w].rank == pre.elements@[w].rank + 1,
            pre.elements@[l].rank <= pre.elements@[w].rank,
            forall|i: int|
                0 <= i < pre.count() && i != l && i != w ==> post.elements@[i]
                    == pre.elements@[i],
        ensures
            post.inv(),
            forall|i: int|
                0 <= i < pre.count() ==> post.rep(i) == (
                if pre.rep(i) == l {
                    w
                } else {
                    pre.rep(i)
                }),
            forall|i: int|
                0 <= i < pre.count() ==> (post.is_root(i) <==> (pre.is_root(i) && i != l)),
            forall|i: int|
                0 <= i < pre.count() && pre.rep(i) != l && pre.rep(i) != w ==> post.payload(i)
                    == pre.payload(i),
            forall|i: int|
                0 <= i < pre.count() && (pre.rep(i) == l || pre.rep(i) == w) ==> post.payload(
                    i,
                ) == post.elements@[w].data.unwrap(),
    {
        let n = pre.count() as int;
        assert forall|i: int| 0 <= i < n implies (post.is_root(i) <==> (pre.is_root(i) && i
            != l)) by {
            if i != l && i != w {
                assert(post.elements@[i] == pre.elements@[i]);
            }
        }
        assert(post.roots() =~= pre.roots().remove(l));
        vstd::set::axiom_set_remove_len(pre.roots(), l);
        assert forall|i: int|
            0 <= i < n && !post.is_root(i) implies (#[trigger] post.reps@[i])
            == post.reps@[post.elements@[i].parent as int] && post.elements@[i].rank
            < post.elements@[post.elements@[i].parent as int].rank by {
            if i == l {
                assert(post.elements@[i].parent == w);
            } else {
                assert(post.elements@[i] == pre.elements@[i]);
                let p = post.elements@[i].parent as int;
                assert(pre.reps@[i] == pre.reps@[p]);
                if p != w && p != l {
                    assert(post.elements@[p] == pre.elements@[p]);
                }
            }
        }
        assert forall|i: int|
            0 <= i < n && pre.rep(i) != l && pre.rep(i) != w implies post.payload(i)
            == pre.payload(i) by {
            assert(post.elements@[pre.rep(i)] == pre.elements@[pre.rep(i)]);
        }
    }

    /// Number of live components.
    pub fn len(&self) -> (r: usize)
        ensures
            r == self.num_components(),
    {
        self.components
    }

    /// Creates a fresh one-element component whose payload is built from its
    /// own handle.
    pub fn singleton_f<F: FnOnce(Element) -> T>(&mut self, f: F)
        requires
            old(self).inv(),
            old(self).count() < u32::MAX,
            call_requires(f, (Element(old(self).count() as usize),)),
        ensures
            final(self).inv(),
            final(self).count() == old(self).count() + 1,
            final(self).num_components() == old(self).num_components() + 1,
            forall|i: int|
                0 <= i < old(self).count() ==> final(self).rep(i) == old(self).rep(i),
            forall|i: int|
                0 <= i < old(self).count() ==> final(self).is_root(i) == old(self).is_root(i),
            final(self).rep(old(self).count() as int) == old(self).count(),
            forall|i: int|
                0 <= i < old(self).count() ==> final(self).payload(i) == old(self).payload(i),
            call_ensures(
                f,
                (Element(old(self).count() as usize),),
                final(self).payload(old(self).count() as int),
            ),
    {
        let n: usize = self.elements.len();
        let data: T = f(Element(n));
        proof {
            self.lemma_comps_le_count();
        }
        self.elements.push(SetElement { data: Some(data), rank: 0, parent: n });
        self.components = self.components + 1;
        proof {
            self.reps@ = self.reps@.push(n);
            assert forall|i: int| 0 <= i < old(self).count() implies final(self).is_root(i)
                == old(self).is_root(i) by {
                assert(final(self).elements@[i] == old(self).elements@[i]);
            }
            assert(final(self).roots() =~= old(self).roots().insert(n as int));
            vstd::set::axiom_set_insert_len(old(self).roots(), n as int);
        }
    }

    spec fn roots_below(self, hi: int) -> Set<int> {
        Set::new(|i: int| 0 <= i < hi && self.is_root(i))
    }

    spec fn root_seq_below(self, hi: int) -> Seq<int>
        decreases hi,
    {
        if hi <= 0 {
            Seq::empty()
        } else if self.is_root(hi - 1) {
            self.root_seq_below(hi - 1).push(hi - 1)
        } else {
            self.root_seq_below(hi - 1)
        }
    }

    proof fn lemma_root_seq(self, hi: int)
        requires
            self.inv(),
            0 <= hi <= self.count(),
        ensures
            self.roots_below(hi).finite(),
            self.root_seq_below(hi).len() == self.roots_below(hi).len(),
            forall|k: int|
                0 <= k < self.root_seq_below(hi).len() ==> 0 <= (
                #[trigger] self.root_seq_below(hi)[k]) < hi && self.is_root(
                    self.root_seq_below(hi)[k],
                ),
            forall|i: int|
                0 <= i < hi && #[trigger] self.is_root(i) ==> self.root_seq_below(
                    hi,
                ).contains(i),
        decreases hi,
    {
        if hi <= 0 {
            assert(self.roots_below(hi) =~= Set::<int>::empty());
        } else {
            self.lemma_root_seq(hi - 1);
            if self.is_root(hi - 1) {
                vstd::set::axiom_set_insert_len(self.roots_below(hi - 1), hi - 1);
                assert(self.roots_below(hi) =~= self.roots_below(hi - 1).insert(hi - 1));
                assert forall|i: int|
                    0 <= i < hi && #[trigger] self.is_root(i) implies self.root_seq_below(
                    hi,
                ).contains(i) by {
                    if i < hi - 1 {
                        let k = choose|k: int|
                            0 <= k < self.root_seq_below(hi - 1).len() && (
                            #[trigger] self.root_seq_below(hi - 1)[k]) == i;
                        assert(self.root_seq_below(hi)[k] == i);
                    } else {
                        assert(self.root_seq_below(hi)[self.root_seq_below(hi).len() - 1]
                            == i);
                    }
                }
            } else {
                assert(self.roots_below(hi) =~= self.roots_below(hi - 1));
            }
        }
    }

    /// The root slot indices of the live components, in ascending order.
    pub closed spec fn root_order(self) -> Seq<int> {
        self.root_seq_below(self.count() as int)
    }

    /// The live components are exactly the entries of `root_order`: one root
    /// per component, each in range, every root listed.
    pub proof fn lemma_root_order(self)
        requires
            self.inv(),
        ensures
            self.root_order().len() == self.num_components(),
            forall|k: int|
                0 <= k < self.root_order().len() ==> 0 <= (#[trigger] self.root_order()[k])
                    < self.count() && self.is_root(self.root_order()[k]),
            forall|i: int|
                0 <= i < self.count() && #[trigger] self.is_root(i) ==> self.root_order(
                ).contains(i),
    {
        self.lemma_root_seq(self.count() as int);
        assert(self.roots_below(self.count() as int) =~= self.roots());
    }

    /// One payload per live component: entry `k` is the payload of the
    /// component whose root is `root_order()[k]`.
    pub fn partition(&self) -> (v: Vec<&T>)
        requires
            self.inv(),
        ensures
            v@.len() == self.num_components(),
            v@.len() == self.root_order().len(),
            forall|k: int|
                #![trigger v@[k]]
                0 <= k < v@.len() ==> *v@[k] == self.payload(self.root_order()[k]),
    {
        let n: usize = self.elements.len();
        let mut v: Vec<&T> = Vec::new();
        let mut idx: usize = 0;
        while idx < n
            invariant
                self.inv(),
                n == self.count(),
                idx <= n,
                v@.len() == self.root_seq_below(idx as int).len(),
                forall|k: int|
                    #![trigger v@[k]]
                    0 <= k < v@.len() ==> *v@[k] == self.payload(
                        self.root_seq_below(idx as int)[k],
                    ),
            decreases n - idx,
        {
            if self.elements[idx].parent == idx {
                let p: &T = self.elements[idx].data.as_ref().expect("Invariant violated");
                v.push(p);
                proof {
                    assert(self.root_seq_below(idx as int + 1) == self.root_seq_below(
                        idx as int,
                    ).push(idx as int));
                    assert(*v@[v@.len() - 1] == self.payload(idx as int));
                }
            } else {
                proof {
                    assert(self.root_seq_below(idx as int + 1) == self.root_seq_below(
                        idx as int,
                    ));
                }
            }
            idx = idx + 1;
        }
        proof {
            self.lemma_root_order();
        }
        v
    }

    /// After a merge of the components of `a` and `b`, two elements share a
    /// representative exactly when they already did, or when they sat in the
    /// two merged components — the partition changes in no other way.
    pub proof fn lemma_merge_equiv(pre: Self, post: Self, a: int, b: int)
        requires
            0 <= a < pre.count(),
            0 <= b < pre.count(),
            post.count() == pre.count(),
            post.rep(a) == post.rep(b),
            post.rep(a) == pre.rep(a) || post.rep(a) == pre.rep(b),
            forall|i: int|
                0 <= i < pre.count() ==> post.rep(i) == (
                if pre.rep(i) == pre.rep(a) || pre.rep(i) == pre.rep(b) {
                    post.rep(a)
                } else {
                    pre.rep(i)
                }),
        ensures
            forall|x: int, y: int|
                0 <= x < pre.count() && 0 <= y < pre.count() ==> ((post.rep(x) == post.rep(y))
                    <==> (pre.rep(x) == pre.rep(y) || ((pre.rep(x) == pre.rep(a) || pre.rep(x)
                    == pre.rep(b)) && (pre.rep(y) == pre.rep(a) || pre.rep(y) == pre.rep(
                    b,
                ))))),
    {
        assert forall|x: int, y: int|
            0 <= x < pre.count() && 0 <= y < pre.count() implies ((post.rep(x) == post.rep(y))
            <==> (pre.rep(x) == pre.rep(y) || ((pre.rep(x) == pre.rep(a) || pre.rep(x)
            == pre.rep(b)) && (pre.rep(y) == pre.rep(a) || pre.rep(y) == pre.rep(b))))) by {
            assert(post.rep(x) == (
            if pre.rep(x) == pre.rep(a) || pre.rep(x) == pre.rep(b) {
                post.rep(a)
            } else {
                pre.rep(x)
            }));
            assert(post.rep(y) == (
            if pre.rep(y) == pre.rep(a) || pre.rep(y) == pre.rep(b) {
                post.rep(a)
            } else {
                pre.rep(y)
            }));
        }
    }
}

} // verus!
