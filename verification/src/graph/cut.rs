//! The source side of a minimum cut.
use crate::costtype::MulTE;
use crate::graph::maxflow::{admissible, layered};
use crate::graph::Graph;
use crate::network::laws::{lemma_reach_in_closed, lemma_reach_self, lemma_reach_step};
use crate::network::{reachable, Network};
use crate::scalar::Scalar;
use vstd::prelude::*;

verus! {

/// Every vertex that a layering from `s` gives a layer can be reached from `s`.
pub proof fn lemma_layered_reachable(net: Network, limit: int, levels: Seq<usize>, s: int, v: int)
    requires
        net.wf(limit),
        layered(net, levels, s),
        0 <= v < net.n(),
        levels[v] >= 1,
    ensures
        reachable(net.arcs, s, v),
    decreases levels[v],
{
    if levels[v] == 1 {
        lemma_reach_self(net.arcs, s);
    } else {
        let e = choose|e: int|
            0 <= e < net.m() && (#[trigger] net.arcs[e]).to == v && admissible(net.arcs, levels, e);
        assert(net.arc_ok(e, limit));
        lemma_layered_reachable(net, limit, levels, s, net.arcs[e].from);
        lemma_reach_step(net.arcs, s, e);
    }
}

/// Every vertex that can be reached from `s` has a layer in a layering from `s`.
pub proof fn lemma_reachable_layered(net: Network, limit: int, levels: Seq<usize>, s: int, v: int)
    requires
        net.wf(limit),
        layered(net, levels, s),
        0 <= s < net.n(),
        reachable(net.arcs, s, v),
    ensures
        0 <= v < net.n(),
        levels[v] != 0,
{
    let side = Set::new(|u: int| 0 <= u < net.n() && levels[u] != 0);
    assert forall|e: int|
        0 <= e < net.arcs.len() && side.contains(#[trigger] net.arcs[e].from) && net.arcs[e].cap
            > 0 implies side.contains(net.arcs[e].to) by {
        assert(net.arc_ok(e, limit));
    }
    lemma_reach_in_closed(net.arcs, side, s, v);
}

impl<L, T: Scalar, E: Scalar, M: MulTE<T, E>> Graph<L, T, E, M> {
    /// Whether `t` can be reached from `s` along arcs with capacity left.
    pub fn reaches(&self, s: usize, t: usize) -> (r: bool)
        requires
            self.wf(),
            s < self@.n(),
            t < self@.n(),
        ensures
            r == reachable(self@.arcs, s as int, t as int),
    {
        let levels = self.bfs(s);
        proof {
            let limit = T::max_value();
            if reachable(self@.arcs, s as int, t as int) {
                lemma_reachable_layered(self@, limit, levels@, s as int, t as int);
            }
            if levels@[t as int] != 0 {
                lemma_layered_reachable(self@, limit, levels@, s as int, t as int);
            }
        }
        levels[t] != 0
    }

    /// The vertices that can be reached from `s` along arcs with capacity
    /// left, in increasing order.
    ///
    /// After a maximum flow from `s` has been routed, this is the source
    /// side of a minimum cut.
    pub fn get_cut(&self, s: usize) -> (r: Vec<usize>)
        requires
            self.wf(),
            s < self@.n(),
        ensures
            forall|v: int|
                self@.reach_set(s as int).contains(v) <==> exists|i: int|
                    0 <= i < r@.len() && #[trigger] r@[i] == v,
            forall|i: int, j: int| 0 <= i < j < r@.len() ==> r@[i] < r@[j],
    {
        let levels = self.bfs(s);
        let ghost net = self@;
        let ghost limit = T::max_value();
        let mut res: Vec<usize> = Vec::new();
        let mut v: usize = 0;
        while v < levels.len()
            invariant
                net.wf(limit),
                layered(net, levels@, s as int),
                0 <= v <= levels@.len(),
                forall|i: int| 0 <= i < res@.len() ==> (#[trigger] res@[i]) < v,
                forall|i: int| 0 <= i < res@.len() ==> levels@[(#[trigger] res@[i]) as int] != 0,
                forall|i: int, j: int| 0 <= i < j < res@.len() ==> res@[i] < res@[j],
                forall|u: int|
                    0 <= u < v && #[trigger] levels@[u] != 0 ==> exists|i: int|
                        0 <= i < res@.len() && #[trigger] res@[i] == u,
            decreases levels@.len() - v,
        {
            if levels[v] != 0 {
                let ghost earlier = res@;
                res.push(v);
                proof {
                    assert forall|u: int| 0 <= u < v + 1 && #[trigger] levels@[u] != 0 implies exists|
                        i: int,
                    | 0 <= i < res@.len() && #[trigger] res@[i] == u by {
                        if u == v {
                            assert(res@[earlier.len() as int] == v);
                        } else {
                            let i = choose|i: int| 0 <= i < earlier.len() && #[trigger] earlier[i] == u;
                            assert(res@[i] == u);
                        }
                    }
                }
            }
            v = v + 1;
        }
        proof {
            assert forall|u: int|
                net.reach_set(s as int).contains(u) <==> exists|i: int|
                    0 <= i < res@.len() && #[trigger] res@[i] == u by {
                if net.reach_set(s as int).contains(u) {
                    lemma_reachable_layered(net, limit, levels@, s as int, u);
                }
                if exists|i: int| 0 <= i < res@.len() && #[trigger] res@[i] == u {
                    lemma_layered_reachable(net, limit, levels@, s as int, u);
                }
            }
        }
        res
    }
}

} // verus!
