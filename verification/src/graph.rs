//! The residual graph store.
use crate::costtype::{MulTE, MulTEDefaultType};
use crate::network::laws::{lemma_last_from, lemma_last_from_same};
use crate::network::{absent, last_from, mate, Arc, Network};
use crate::scalar::Scalar;
use std::marker::PhantomData;
use vstd::prelude::*;

pub mod edge;
pub mod maxflow;
pub mod cut;
pub mod labels;
pub mod mincost;
pub mod room;
pub mod persist;
pub mod dot;

use edge::Edge;

verus! {

/// A flow network in residual form.
///
/// `L` is the type of the vertex labels, `T` the type of the capacities, `E`
/// the type of the costs, and `M` multiplies a `T` by an `E`.
pub struct Graph<L, T: Scalar, E: Scalar = (), M: MulTE<T, E> = MulTEDefaultType> {
    pub(crate) labels: Vec<L>,
    pub(crate) edges: Vec<Edge<T, E>>,
    pub(crate) first: Vec<Edge<T, E>>,
    pub(crate) m: PhantomData<M>,
}

/// The arcs below `k` that leave `v`, newest first.
pub open spec fn leaving(arcs: Seq<Arc>, v: int, k: int) -> Seq<int>
    decreases k,
{
    if k <= 0 {
        Seq::empty()
    } else if arcs[k - 1].from == v {
        seq![k - 1].add(leaving(arcs, v, k - 1))
    } else {
        leaving(arcs, v, k - 1)
    }
}

/// The arcs that leave `v` start with the newest of them and go on with
/// those that are older.
pub proof fn lemma_leaving(arcs: Seq<Arc>, v: int, k: int)
    requires
        0 <= k <= arcs.len(),
        arcs.len() <= usize::MAX,
    ensures
        ({
            let r = last_from(arcs, v, k);
            leaving(arcs, v, k) == if r == absent() {
                Seq::<int>::empty()
            } else {
                seq![r].add(leaving(arcs, v, r))
            }
        }),
    decreases k,
{
    if k > 0 && arcs[k - 1].from != v {
        lemma_leaving(arcs, v, k - 1);
    }
}

impl<L, T: Scalar, E: Scalar, M: MulTE<T, E>> Graph<L, T, E, M> {
    /// The network that this graph holds.
    pub open(crate) spec fn view(&self) -> Network {
        Network {
            heads: Seq::new(self.first@.len(), |i: int| self.first@[i]@),
            arcs: Seq::new(self.edges@.len(), |i: int| self.edges@[i]@),
        }
    }

    /// The labels of the vertices, by index.
    pub open(crate) spec fn labels(&self) -> Seq<L> {
        self.labels@
    }

    /// Well-formedness: the network is well-formed within the range of `T`,
    /// and every vertex has a label.
    pub open spec fn wf(&self) -> bool {
        &&& self@.wf(T::max_value())
        &&& self.labels().len() == self@.n()
    }

    /// A graph without vertices.
    pub fn new() -> (g: Self)
        ensures
            g.wf(),
            g@.n() == 0,
            g@.m() == 0,
    {
        Self { labels: Vec::new(), edges: Vec::new(), first: Vec::new(), m: PhantomData }
    }

    /// The number of vertices.
    pub fn node_count(&self) -> (n: usize)
        ensures
            n == self@.n(),
    {
        self.first.len()
    }

    /// The number of stored arcs: two for every arc that was added.
    pub fn edge_count(&self) -> (m: usize)
        ensures
            m == self@.m(),
    {
        self.edges.len()
    }

    /// The stored arc with the index `index`, if there is one.
    pub fn get_edge(&self, index: usize) -> (r: Option<&Edge<T, E>>)
        ensures
            match r {
                Some(e) => index < self@.m() && e@ == self@.arcs[index as int],
                None => index >= self@.m(),
            },
    {
        if index < self.edges.len() {
            Some(&self.edges[index])
        } else {
            None
        }
    }

    /// Removes every vertex and every arc.
    pub fn init_graph(&mut self)
        ensures
            final(self).wf(),
            final(self)@.n() == 0,
            final(self)@.m() == 0,
    {
        self.edges = Vec::new();
        self.labels = Vec::new();
        self.first = Vec::new();
    }

    /// The label of vertex `index`, if there is such a vertex.
    pub fn get_label(&self, index: usize) -> (r: Option<&L>)
        ensures
            r == if index < self.labels().len() {
                Some(&self.labels()[index as int])
            } else {
                None
            },
    {
        if index >= self.labels.len() {
            None
        } else {
            Some(&self.labels[index])
        }
    }

    /// The newest arc that leaves vertex `index`, if any arc leaves it.
    pub fn first_edge(&self, index: usize) -> (r: Option<&Edge<T, E>>)
        requires
            self.wf(),
            index < self@.n(),
        ensures
            ({
                let i = last_from(self@.arcs, index as int, self@.m());
                match r {
                    None => i == absent(),
                    Some(e) => 0 <= i < self@.m() && e@ == self@.arcs[i],
                }
            }),
    {
        proof {
            assert(self@.head_ok(index as int));
            lemma_last_from(self@.arcs, index as int, self@.m());
        }
        if self.first[index].next_edge == usize::MAX {
            None
        } else {
            Some(&self.edges[self.first[index].next_edge])
        }
    }

    /// The next older arc with the same tail as `now`, if there is one,
    /// where `now` is an arc of this graph.
    pub fn next_edge(&self, now: &Edge<T, E>) -> (r: Option<&Edge<T, E>>)
        requires
            now@.next == absent() || 0 <= now@.next < self@.m(),
        ensures
            match r {
                None => now@.next == absent(),
                Some(e) => 0 <= now@.next < self@.m() && e@ == self@.arcs[now@.next],
            },
    {
        if now.next_edge == usize::MAX {
            None
        } else {
            Some(&self.edges[now.next_edge])
        }
    }

    /// The arcs that leave vertex `index`, newest first, each with its index.
    pub fn get_all_edges(&self, index: usize) -> (r: Vec<(&Edge<T, E>, usize)>)
        requires
            self.wf(),
            index < self@.n(),
        ensures
            r@.len() == leaving(self@.arcs, index as int, self@.m()).len(),
            forall|i: int|
                0 <= i < r@.len() ==> {
                    &&& (#[trigger] r@[i]).1 as int == leaving(
                        self@.arcs,
                        index as int,
                        self@.m(),
                    )[i]
                    &&& 0 <= r@[i].1 < self@.m()
                    &&& r@[i].0@ == self@.arcs[r@[i].1 as int]
                },
    {
        let mut res: Vec<(&Edge<T, E>, usize)> = Vec::new();
        let mut no: usize = self.first[index].next_edge;
        let ghost mut bound: int = self@.m();
        let ghost all = leaving(self@.arcs, index as int, self@.m());
        proof {
            assert(self@.head_ok(index as int));
            lemma_last_from(self@.arcs, index as int, bound);
            lemma_leaving(self@.arcs, index as int, bound);
        }
        while no != usize::MAX
            invariant
                self.wf(),
                index < self@.n(),
                0 <= bound <= self@.m(),
                no as int == last_from(self@.arcs, index as int, bound),
                no != usize::MAX ==> no < bound,
                all == leaving(self@.arcs, index as int, self@.m()),
                all == Seq::new(res@.len(), |i: int| res@[i].1 as int).add(
                    leaving(self@.arcs, index as int, bound),
                ),
                forall|i: int|
                    0 <= i < res@.len() ==> {
                        &&& 0 <= (#[trigger] res@[i]).1 < self@.m()
                        &&& res@[i].0@ == self@.arcs[res@[i].1 as int]
                    },
            decreases bound,
        {
            let edge = &self.edges[no];
            let ghost before = Seq::new(res@.len(), |i: int| res@[i].1 as int);
            res.push((edge, no));
            proof {
                assert(self@.arc_ok(no as int, T::max_value()));
                assert(edge@ == self@.arcs[no as int]);
                lemma_last_from(self@.arcs, index as int, bound);
                lemma_leaving(self@.arcs, index as int, bound);
                lemma_last_from(self@.arcs, index as int, no as int);
                let after = Seq::new(res@.len(), |i: int| res@[i].1 as int);
                assert(after =~= before.add(seq![no as int]));
                assert(before.add(seq![no as int].add(leaving(self@.arcs, index as int, no as int)))
                    =~= after.add(leaving(self@.arcs, index as int, no as int)));
                bound = no as int;
            }
            no = edge.next_edge;
        }
        proof {
            lemma_leaving(self@.arcs, index as int, bound);
            assert(all =~= Seq::new(res@.len(), |i: int| res@[i].1 as int));
        }
        res
    }

    /// The heads of the arcs that leave vertex `index`, newest arc first.
    pub fn get_neighbor(&self, index: usize) -> (r: Vec<usize>)
        requires
            self.wf(),
            index < self@.n(),
        ensures
            r@.len() == leaving(self@.arcs, index as int, self@.m()).len(),
            forall|i: int|
                0 <= i < r@.len() ==> (#[trigger] r@[i]) as int == self@.arcs[leaving(
                    self@.arcs,
                    index as int,
                    self@.m(),
                )[i]].to,
    {
        let edges = self.get_all_edges(index);
        let mut res: Vec<usize> = Vec::new();
        let mut i: usize = 0;
        while i < edges.len()
            invariant
                0 <= i <= edges@.len(),
                res@.len() == i,
                edges@.len() == leaving(self@.arcs, index as int, self@.m()).len(),
                forall|j: int|
                    0 <= j < edges@.len() ==> {
                        &&& (#[trigger] edges@[j]).1 as int == leaving(
                            self@.arcs,
                            index as int,
                            self@.m(),
                        )[j]
                        &&& edges@[j].0@ == self@.arcs[edges@[j].1 as int]
                    },
                forall|j: int|
                    0 <= j < i ==> (#[trigger] res@[j]) as int == self@.arcs[leaving(
                        self@.arcs,
                        index as int,
                        self@.m(),
                    )[j]].to,
            decreases edges@.len() - i,
        {
            let pair = &edges[i];
            res.push(pair.0.get_to());
            i = i + 1;
        }
        res
    }
}

impl<L: Clone, T: Scalar, E: Scalar, M: MulTE<T, E>> Graph<L, T, E, M> {
    /// A graph with one vertex for each of `nodes`, numbered in their order,
    /// and no arc.
    pub fn create_graph(nodes: &Vec<L>) -> (g: Self)
        ensures
            g.wf(),
            g@.n() == nodes@.len(),
            g@.m() == 0,
            forall|i: int| 0 <= i < nodes@.len() ==> cloned(nodes@[i], #[trigger] g.labels()[i]),
    {
        let mut g = Self::new();
        let mut i: usize = 0;
        while i < nodes.len()
            invariant
                0 <= i <= nodes@.len(),
                g.wf(),
                g@.n() == i,
                g@.m() == 0,
                forall|j: int| 0 <= j < i ==> cloned(nodes@[j], #[trigger] g.labels()[j]),
            decreases nodes@.len() - i,
        {
            let ghost before = g.labels();
            g.add_node(&nodes[i]);
            proof {
                assert forall|j: int| 0 <= j <= i implies cloned(
                    nodes@[j],
                    #[trigger] g.labels()[j],
                ) by {
                    if j < i {
                        assert(g.labels().subrange(0, i as int)[j] == g.labels()[j]);
                        assert(cloned(nodes@[j], before[j]));
                    }
                }
            }
            i = i + 1;
        }
        g
    }

    /// Appends a vertex with a copy of `label` and returns its index.
    pub fn add_node(&mut self, label: &L) -> (index: usize)
        requires
            old(self).wf(),
        ensures
            final(self).wf(),
            index == old(self)@.n(),
            final(self)@.n() == old(self)@.n() + 1,
            final(self)@.arcs == old(self)@.arcs,
            final(self).labels().len() == old(self).labels().len() + 1,
            final(self).labels().subrange(0, index as int) == old(self).labels(),
            cloned(*label, final(self).labels()[index as int]),
    {
        let index = self.add_node_owned(label.clone());
        proof {
            assert(self.labels().subrange(0, index as int) =~= old(self).labels());
        }
        index
    }
}

impl<L, T: Scalar, E: Scalar, M: MulTE<T, E>> Graph<L, T, E, M> {
    /// Appends a vertex with the label `label` and returns its index.
    pub fn add_node_owned(&mut self, label: L) -> (index: usize)
        requires
            old(self).wf(),
        ensures
            final(self).wf(),
            index == old(self)@.n(),
            final(self)@.n() == old(self)@.n() + 1,
            final(self)@.arcs == old(self)@.arcs,
            final(self).labels() == old(self).labels().push(label),
    {
        let index = self.first.len();
        let ghost before = self@;
        self.labels.push(label);
        self.first.push(Edge::empty_edge(index));
        proof {
            let after = self@;
            assert(after.arcs =~= before.arcs);
            assert forall|v: int| 0 <= v < after.n() implies #[trigger] after.head_ok(v) by {
                if v < index {
                    assert(before.head_ok(v));
                } else {
                    lemma_last_from(after.arcs, v, after.m());
                    let r = last_from(after.arcs, v, after.m());
                    if r != absent() {
                        assert(before.arc_ok(r, T::max_value()));
                    }
                }
            }
            assert forall|e: int| 0 <= e < after.m() implies #[trigger] after.arc_ok(
                e,
                T::max_value(),
            ) by {
                assert(before.arc_ok(e, T::max_value()));
            }
        }
        index
    }
}

/// Whether comparing `a` with `b` can say that they are equal.
pub open spec fn alike<L: PartialEq>(a: L, b: L) -> bool {
    call_ensures(L::eq, (&a, &b), true)
}

/// Whether comparing `a` with `b` can say that they are not equal.
pub open spec fn unlike<L: PartialEq>(a: L, b: L) -> bool {
    call_ensures(L::eq, (&a, &b), false)
}

impl<L: PartialEq, T: Scalar, E: Scalar, M: MulTE<T, E>> Graph<L, T, E, M> {
    /// The index of the newest vertex whose label equals `label`, if there
    /// is one: the comparison of `L` has said so of this vertex and of no
    /// newer one.
    pub fn get_index(&self, label: &L) -> (r: Option<usize>)
        ensures
            match r {
                None => forall|j: int|
                    0 <= j < self.labels().len() ==> unlike(#[trigger] self.labels()[j], *label),
                Some(i) => {
                    &&& i < self.labels().len()
                    &&& alike(self.labels()[i as int], *label)
                    &&& forall|j: int|
                        i < j < self.labels().len() ==> unlike(#[trigger] self.labels()[j], *label)
                },
            },
    {
        let mut i: usize = self.labels.len();
        while i > 0
            invariant
                0 <= i <= self.labels().len(),
                forall|j: int|
                    i <= j < self.labels().len() ==> unlike(#[trigger] self.labels()[j], *label),
            decreases i,
        {
            i = i - 1;
            if self.labels[i].eq(label) {
                return Some(i);
            }
        }
        None
    }
}

impl<L, T: Scalar, E: Scalar, M: MulTE<T, E>> Graph<L, T, E, M> {
    /// Replaces the adjacency head of vertex `v` by one that points to `next`.
    fn set_head(&mut self, v: usize, next: usize)
        requires
            v < old(self).first@.len(),
        ensures
            final(self).labels == old(self).labels,
            final(self).edges == old(self).edges,
            final(self).first@.len() == old(self).first@.len(),
            forall|u: int|
                0 <= u < old(self).first@.len() && u != v ==> final(self).first@[u] == old(
                    self,
                ).first@[u],
            final(self).first@[v as int]@ == (Arc {
                from: v as int,
                to: v as int,
                next: next as int,
                opp: absent(),
                cap: 0,
                cost: 0,
                reversed: false,
            }),
    {
        let head = Edge {
            from: v,
            to: v,
            next_edge: next,
            opp_edge: usize::MAX,
            weight: T::zero(),
            cost: E::zero(),
            reversed: false,
        };
        self.first.set(v, head);
    }

    /// Adds an arc from `from` to `to` with capacity `weight` and cost zero,
    /// together with its residual inverse.
    pub fn add_edge(&mut self, from: usize, to: usize, weight: &T)
        requires
            old(self).wf(),
            from < old(self)@.n(),
            to < old(self)@.n(),
            0 <= weight.value(),
            old(self)@.m() + 2 <= usize::MAX,
        ensures
            final(self).wf(),
            final(self).labels() == old(self).labels(),
            final(self)@.n() == old(self)@.n(),
            final(self)@.arcs == old(self)@.added(from as int, to as int, weight.value(), 0),
    {
        let cost = E::zero();
        self.add_edge2(from, to, weight, &cost);
    }

    /// Adds an arc from `from` to `to` with capacity `weight` and cost
    /// `cost`, together with its residual inverse, which has no capacity and
    /// the same cost.
    pub fn add_edge2(&mut self, from: usize, to: usize, weight: &T, cost: &E)
        requires
            old(self).wf(),
            from < old(self)@.n(),
            to < old(self)@.n(),
            0 <= weight.value(),
            old(self)@.m() + 2 <= usize::MAX,
        ensures
            final(self).wf(),
            final(self).labels() == old(self).labels(),
            final(self)@.n() == old(self)@.n(),
            final(self)@.arcs == old(self)@.added(
                from as int,
                to as int,
                weight.value(),
                cost.value(),
            ),
    {
        let ghost before = self@;
        let limit = Ghost(T::max_value());
        let k = self.edges.len();
        proof {
            weight.lemma_bounds();
            assert(before.head_ok(from as int));
            assert(before.head_ok(to as int));
        }
        let edge = Edge::create_edge(
            from,
            to,
            self.first[from].next_edge,
            k + 1,
            weight.dup(),
            cost.dup(),
        );
        self.set_head(from, k);
        let mut edge2 = Edge::create_edge(
            to,
            from,
            self.first[to].next_edge,
            k,
            T::zero(),
            cost.dup(),
        );
        edge2.reversed = true;
        self.set_head(to, k + 1);
        self.edges.push(edge);
        self.edges.push(edge2);
        proof {
            let after = self@;
            let target = before.added(from as int, to as int, weight.value(), cost.value());
            assert(after.arcs =~= target);
            assert forall|j: int| 0 <= j < k implies (#[trigger] before.arcs[j]).from
                == after.arcs[j].from by {}
            assert forall|v: int| 0 <= v < after.n() implies #[trigger] after.head_ok(v) by {
                assert(before.head_ok(v));
                lemma_last_from_same(before.arcs, after.arcs, v, k as int);
                assert(last_from(after.arcs, v, k + 1) == if v == from {
                    k as int
                } else {
                    last_from(after.arcs, v, k as int)
                });
                assert(last_from(after.arcs, v, k + 2) == if v == to {
                    k + 1
                } else {
                    last_from(after.arcs, v, k + 1)
                });
            }
            assert forall|e: int| 0 <= e < after.m() implies #[trigger] after.arc_ok(e, limit@) by {
                if e < k {
                    assert(before.arc_ok(e, limit@));
                    assert(0 <= mate(e) < k);
                    lemma_last_from_same(before.arcs, after.arcs, before.arcs[e].from, e);
                } else {
                    lemma_last_from_same(before.arcs, after.arcs, from as int, k as int);
                    lemma_last_from_same(before.arcs, after.arcs, to as int, k as int);
                }
            }
        }
    }
}

} // verus!
