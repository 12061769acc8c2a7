//! Minimum-cost maximum flow by successive shortest augmenting paths.
use crate::costtype::MulTE;
use crate::graph::labels::{
    labels, lemma_push_priced, lemma_round, lemma_round_over, lemma_search_done,
    lemma_search_end, lemma_search_pop, lemma_search_start, lemma_search_step, lemma_tight_closed,
    lemma_reaching_more, lemma_reaching_start, lemma_usable_grown, lemma_usable_none,
    moved_by_usable, priced_round, reaching, round_prices, searching, sound_prices, usable,
    Round,
};
use crate::graph::maxflow::{ends_in_range, lemma_ends_in_range, lemma_nonnegative};
use crate::network::walks::{costs_within, settled, tight, tight_walk};
use crate::graph::Graph;
use crate::network::laws::{
    lemma_caps_nonnegative, lemma_cheapest, lemma_cost_nothing, lemma_cost_pushed,
    lemma_cost_within, lemma_pairs_twice, lemma_shape_twice, lemma_within_twice,
    lemma_in_cap_covers, lemma_last_from, lemma_max_flow_min_cut, lemma_reach_in_closed,
    lemma_reach_self, lemma_route_extended, lemma_routes_nothing, lemma_routes_twice,
    lemma_shape_wf, lemma_unreachable_routes_nothing, lemma_walk_into,
};
use crate::network::{
    cost_ceiling, cost_floor, last_from, mate, price, reachable, walk, Arc, Network,
};
use crate::scalar::{checked_minus, checked_plus, fits, Scalar};
use std::collections::VecDeque;
use vstd::prelude::*;

verus! {

/// How far the labels of the first `k` vertices can still fall: a vertex
/// with a label counts the distance of the label from the smallest value of
/// `E`, a vertex without one counts more than any label can.
pub open spec fn slack<E: Scalar>(vis: Seq<bool>, dist: Seq<E>, k: int) -> int
    decreases k,
{
    if k <= 0 {
        0
    } else {
        slack(vis, dist, k - 1) + if vis[k - 1] {
            dist[k - 1].value() - E::min_value()
        } else {
            E::max_value() - E::min_value() + 1
        }
    }
}

/// The slack is never negative.
pub proof fn lemma_slack_bound<E: Scalar>(vis: Seq<bool>, dist: Seq<E>, k: int)
    requires
        0 <= k <= dist.len(),
    ensures
        0 <= slack(vis, dist, k),
    decreases k,
{
    if k > 0 {
        lemma_slack_bound(vis, dist, k - 1);
        dist[k - 1].lemma_bounds();
    }
}

/// Giving vertex `x` the label `d` changes the slack by what the vertex counts.
pub proof fn lemma_slack_update<E: Scalar>(vis: Seq<bool>, dist: Seq<E>, x: int, d: E, k: int)
    requires
        0 <= x < dist.len(),
        dist.len() == vis.len(),
        0 <= k <= dist.len(),
    ensures
        slack(vis.update(x, true), dist.update(x, d), k) == slack(vis, dist, k) + if x < k {
            (d.value() - E::min_value()) - if vis[x] {
                dist[x].value() - E::min_value()
            } else {
                E::max_value() - E::min_value() + 1
            }
        } else {
            0
        },
    decreases k,
{
    if k > 0 {
        lemma_slack_update(vis, dist, x, d, k - 1);
    }
}

/// Whether every arc with capacity left that enters `v` comes from a marked vertex.
pub open spec fn entered_from_marked(net: Network, vis: Seq<bool>, v: int) -> bool {
    forall|e: int|
        0 <= e < net.m() && (#[trigger] net.arcs[e]).to == v && net.arcs[e].cap > 0
            ==> vis[net.arcs[e].from]
}

/// How many of the vertices are not marked.
pub open spec fn unmarked(vis: Seq<bool>) -> nat
    decreases vis.len(),
{
    if vis.len() == 0 {
        0
    } else {
        unmarked(vis.drop_last()) + if vis.last() {
            0nat
        } else {
            1nat
        }
    }
}

/// Marking a vertex that was not marked leaves one unmarked vertex less.
pub proof fn lemma_unmarked_update(vis: Seq<bool>, x: int)
    requires
        0 <= x < vis.len(),
        !vis[x],
    ensures
        unmarked(vis.update(x, true)) + 1 == unmarked(vis),
    decreases vis.len(),
{
    let after = vis.update(x, true);
    if x == vis.len() - 1 {
        assert(after.drop_last() =~= vis.drop_last());
    } else {
        assert(after.drop_last() =~= vis.drop_last().update(x, true));
        lemma_unmarked_update(vis.drop_last(), x);
    }
}

/// Marking more vertices leaves no more of them unmarked.
pub proof fn lemma_unmarked_grows(before: Seq<bool>, after: Seq<bool>)
    requires
        before.len() == after.len(),
        forall|v: int| 0 <= v < before.len() && #[trigger] before[v] ==> after[v],
    ensures
        unmarked(after) <= unmarked(before),
    decreases before.len(),
{
    if before.len() > 0 {
        assert(before.last() ==> after.last());
        lemma_unmarked_grows(before.drop_last(), after.drop_last());
    }
}

/// Whether the costs of every routing of at most as much as can enter `t`
/// can be held by `E`: that amount itself, its product with the cost of any
/// arc, and the least and the most that such a routing can cost.
#[verifier::opaque]
pub open spec fn cost_room<E: Scalar>(net: Network, t: int) -> bool {
    let bound = net.in_capacity(t);
    &&& fits::<E>(bound)
    &&& forall|e: int| 0 <= e < net.m() ==> fits::<E>(bound * (#[trigger] net.arcs[e]).cost)
    &&& fits::<E>(cost_floor(net.arcs, bound, net.m()))
    &&& fits::<E>(cost_ceiling(net.arcs, bound, net.m()))
}

/// Whether the network has no cycle of negative cost along arcs with
/// capacity left, so that it admits prices, none of which lies further below
/// the price of `t` than `E` can hold where `t` can be reached; and whether
/// `E` can hold the cost of any arc times the number of vertices, and so
/// the cost of every walk that passes no vertex twice.
pub open spec fn priced<E: Scalar>(net: Network, t: int) -> bool {
    &&& costs_within(net, E::max_value())
    &&& exists|phi: Seq<int>| sound_prices(net, phi, t, E::min_value())
}

/// Whether the bound holds of the costs does not depend on the capacities.
pub proof fn lemma_costs_same(a: Network, b: Network, bound: int)
    requires
        a.same_shape(b),
        costs_within(a, bound),
    ensures
        costs_within(b, bound),
{
    reveal(costs_within);
    assert forall|e: int| 0 <= e < b.m() implies -bound <= b.n() * (#[trigger] b.arcs[e]).cost
        <= bound by {
        assert(-bound <= a.n() * a.arcs[e].cost <= bound);
    }
}

/// A network in which moving along an arc with capacity left never
/// returns anything admits prices: all of them zero.
pub proof fn lemma_priced_plainly<E: Scalar>(net: Network, limit: int, t: int)
    requires
        net.wf(limit),
        0 <= t < net.n(),
        E::min_value() <= 0,
        forall|e: int|
            0 <= e < net.m() ==> -E::max_value() <= net.n() * (#[trigger] net.arcs[e]).cost
                <= E::max_value(),
        forall|e: int|
            0 <= e < net.m() && (#[trigger] net.arcs[e]).cap > 0 ==> price(net.arcs[e]) >= 0,
    ensures
        priced::<E>(net, t),
{
    reveal(costs_within);
    reveal(sound_prices);
    let phi = Seq::new(net.n() as nat, |v: int| 0int);
    assert forall|e: int| 0 <= e < net.m() && (#[trigger] net.arcs[e]).cap > 0 implies price(
        net.arcs[e],
    ) + phi[net.arcs[e].to] - phi[net.arcs[e].from] >= 0 by {
        assert(net.arc_ok(e, limit));
    }
    assert(net.admits(phi));
    assert(sound_prices(net, phi, t, E::min_value()));
}

/// Whether the state `cur` and the cost `paid` are what a routing from
/// `origin` that has moved `spent` units so far has led to.
#[verifier::opaque]
pub open spec fn on_the_way(
    origin: Network,
    cur: Network,
    limit: int,
    t: int,
    spent: int,
    paid: int,
) -> bool {
    &&& origin.wf(limit)
    &&& origin.same_shape(cur)
    &&& origin.same_pairs(cur)
    &&& origin.within(cur, spent)
    &&& 0 <= spent
    &&& spent + cur.in_capacity(t) <= origin.in_capacity(t)
    &&& paid == origin.cost_to(cur)
}

/// A product of a quantity between zero and `bound` lies between zero and
/// the product of `bound`.
pub proof fn lemma_product_between(f: int, bound: int, c: int)
    requires
        0 <= f <= bound,
    ensures
        (0 <= f * c <= bound * c) || (bound * c <= f * c <= 0),
{
    assert((0 <= f * c <= bound * c) || (bound * c <= f * c <= 0)) by (nonlinear_arith)
        requires
            0 <= f <= bound,
    ;
}

/// What holds when a search from `to` has moved `f` units to `t`, leading
/// from `net` to `mid`, and the units are then moved along arc `e` from `now`
/// to `to`: the amount and its cost can be held by `E`, and so can the new
/// total; the whole is a routing from `now` to `t` that is on the way.
pub proof fn lemma_augmented<E: Scalar>(
    origin: Network,
    net: Network,
    mid: Network,
    limit: int,
    e: int,
    now: int,
    to: int,
    t: int,
    f: int,
    spent: int,
    paid: int,
)
    requires
        net.wf(limit),
        0 <= e < net.m(),
        net.arcs[e].from == now,
        net.arcs[e].to == to,
        now != t,
        now != to,
        0 < f <= net.arcs[e].cap,
        if to == t {
            mid == net
        } else {
            &&& net.routes(mid, to, t, f)
            &&& mid.in_capacity(t) == net.in_capacity(t) - f
            &&& net.within(mid, f)
        },
        mid.arcs[e] == net.arcs[e],
        mid.arcs[mate(e)] == net.arcs[mate(e)],
        on_the_way(origin, net, limit, t, spent, paid),
        cost_room::<E>(origin, t),
        E::min_value() <= 0 <= E::max_value(),
    ensures
        ({
            let after = mid.pushed(e, f);
            let c = net.arcs[e].cost;
            let price = if e % 2 == 0 {
                f * c
            } else {
                -(f * c)
            };
            &&& fits::<E>(f)
            &&& fits::<E>(f * c)
            &&& paid == origin.cost_to(net)
            &&& fits::<E>(origin.cost_to(mid) + price)
            &&& origin.cost_to(after) == origin.cost_to(mid) + price
            &&& after.wf(limit)
            &&& net.routes(after, now, t, f)
            &&& after.in_capacity(t) == net.in_capacity(t) - f
            &&& net.within(after, f)
        }),
{
    reveal(on_the_way);
    reveal(cost_room);
    let after = mid.pushed(e, f);
    let top = origin.in_capacity(t);
    let c = net.arcs[e].cost;
    lemma_route_extended(net, mid, limit, e, now, to, t, f);
    lemma_nonnegative(net, limit);
    if to == t {
        lemma_in_cap_covers(net.arcs, t, net.m(), e);
    } else {
        lemma_shape_wf(net, mid, limit);
        lemma_nonnegative(mid, limit);
        lemma_caps_nonnegative(mid.arcs, Set::empty(), t, mid.m());
    }
    assert(0 < f <= top - spent);
    lemma_product_between(f, top, c);
    assert(net.arcs[e].cost == origin.arcs[e].cost);
    assert(fits::<E>(top * origin.arcs[e].cost));
    lemma_shape_twice(origin, net, mid);
    lemma_cost_pushed(origin, mid, limit, e, f);
    lemma_shape_twice(origin, net, after);
    lemma_pairs_twice(origin, net, after);
    assert(net.within(after, f)) by {
        assert forall|j: int| 0 <= j < net.m() implies -f <= net.arcs[j].cap - (
        #[trigger] after.arcs[j]).cap <= f by {
            assert(-f <= net.arcs[j].cap - mid.arcs[j].cap <= f);
            assert(net.arc_ok(j, limit));
            assert(net.arc_ok(e, limit));
        }
    }
    lemma_within_twice(origin, net, after, spent, f);
    assert(origin.within(after, top));
    lemma_nonnegative(after, limit);
    lemma_cost_within(origin, after, limit, top, origin.m());
}

impl<L, T: Scalar, E: Scalar, M: MulTE<T, E>> Graph<L, T, E, M> {
    /// Looks for a walk from `now` to `t` through vertices that are not
    /// marked, along arcs with capacity left and, where `tight` is set, only
    /// along arcs whose cost is the difference of the labels of their ends.
    /// Marks what it visits, moves along the walk as much as every arc on it
    /// allows, and no more than `flow` where `flow` is not zero, and adds
    /// what that costs to `cost`.  Returns the amount moved, which is zero
    /// where there is no such walk.
    #[verifier::rlimit(30)]
    pub(crate) fn mcmf_dfs(
        &mut self,
        now: usize,
        flow: T,
        cost: &mut E,
        dist: &Vec<E>,
        vis: &mut Vec<bool>,
        t: usize,
        tight: bool,
        Ghost(origin): Ghost<Network>,
        Ghost(spent): Ghost<int>,
        Ghost(round): Ghost<Round>,
    ) -> (r: T)
        requires
            old(self).wf(),
            now < old(self)@.n(),
            t < old(self)@.n(),
            dist@.len() == old(self)@.n(),
            old(vis)@.len() == old(self)@.n(),
            !old(vis)@[now as int],
            !old(vis)@[t as int],
            0 <= flow.value(),
            on_the_way(
                origin,
                old(self)@,
                T::max_value(),
                t as int,
                spent,
                old(cost).value(),
            ),
            cost_room::<E>(origin, t as int),
            round.sound && tight ==> priced_round(
                old(self)@,
                labels(dist@),
                round.marks,
                round.phi,
                t as int,
            ),
        ensures
            final(self).wf(),
            final(self).labels() == old(self).labels(),
            round.sound && tight ==> priced_round(
                final(self)@,
                labels(dist@),
                round.marks,
                round.phi,
                t as int,
            ),
            round.sound && tight && r.value() > 0 ==> round.marks[now as int],
            final(vis)@.len() == old(vis)@.len(),
            forall|v: int| 0 <= v < old(vis)@.len() && #[trigger] old(vis)@[v] ==> final(vis)@[v],
            final(vis)@[now as int],
            0 <= r.value(),
            flow.value() > 0 ==> r.value() <= flow.value(),
            now == t ==> r.value() == flow.value(),
            r.value() == 0 || now == t ==> final(self)@ == old(self)@ && final(cost).value() == old(
                cost,
            ).value(),
            r.value() == 0 && now != t ==> !final(vis)@[t as int],
            r.value() == 0 && now != t ==> forall|e: int|
                0 <= e < old(self)@.m() && final(vis)@[(#[trigger] old(self)@.arcs[e]).from] && !old(
                    vis,
                )@[old(self)@.arcs[e].from] && usable(old(self)@, labels(dist@), tight, e)
                    ==> final(vis)@[old(self)@.arcs[e].to],
            r.value() > 0 && now != t ==> {
                &&& old(self)@.routes(final(self)@, now as int, t as int, r.value())
                &&& final(self)@.in_capacity(t as int) == old(self)@.in_capacity(t as int)
                    - r.value()
                &&& old(self)@.within(final(self)@, r.value())
                &&& final(cost).value() == origin.cost_to(final(self)@)
            },
            r.value() > 0 || now == t ==> exists|p: Seq<int>| #[trigger]
                moved_by_usable(
                    old(self)@,
                    final(self)@,
                    labels(dist@),
                    tight,
                    p,
                    now as int,
                    t as int,
                    flow.value(),
                    r.value(),
                ),
            forall|e: int|
                0 <= e < old(self)@.m() && (old(vis)@[(#[trigger] old(self)@.arcs[e]).from] || old(
                    vis,
                )@[old(self)@.arcs[e].to]) ==> final(self)@.arcs[e] == old(self)@.arcs[e],
        decreases unmarked(old(vis)@),
    {
        let ghost vis_first = vis@;
        proof {
            lemma_unmarked_update(vis@, now as int);
        }
        vis.set(now, true);
        if now == t {
            proof {
                if round.sound && tight {
                    reveal(priced_round);
                }
                lemma_usable_none(self@, labels(dist@), tight, t as int, flow.value());
            }
            return flow;
        }
        let nothing = T::zero();
        let ghost net = self@;
        let ghost limit = T::max_value();
        let ghost paid = cost.value();
        let ghost levels = labels(dist@);
        let mut cur: usize = self.first[now].next_edge;
        let ghost mut bound: int = net.m();
        proof {
            assert(net.head_ok(now as int));
            lemma_last_from(net.arcs, now as int, bound);
            lemma_ends_in_range(net, limit);
        }
        while cur != usize::MAX
            invariant
                self.wf(),
                self@ == net,
                net == old(self)@,
                self.labels() == old(self).labels(),
                cost.value() == paid,
                paid == old(cost).value(),
                vis_first == old(vis)@,
                ends_in_range(net),
                limit == T::max_value(),
                nothing.value() == 0,
                now < net.n(),
                t < net.n(),
                now != t,
                dist@.len() == net.n(),
                vis@.len() == net.n(),
                vis_first.len() == net.n(),
                !vis_first[now as int],
                forall|v: int| 0 <= v < net.n() && #[trigger] vis_first[v] ==> vis@[v],
                vis@[now as int],
                !vis@[t as int],
                unmarked(vis@) < unmarked(vis_first),
                0 <= flow.value(),
                on_the_way(origin, net, limit, t as int, spent, paid),
                cost_room::<E>(origin, t as int),
                0 <= bound <= net.m(),
                cur as int == last_from(net.arcs, now as int, bound),
                cur != usize::MAX ==> cur < bound,
                levels == labels(dist@),
                round.sound && tight ==> priced_round(net, levels, round.marks, round.phi, t as int),
                forall|e: int|
                    bound <= e < net.m() && (#[trigger] net.arcs[e]).from == now && usable(
                        net,
                        levels,
                        tight,
                        e,
                    ) ==> vis@[net.arcs[e].to],
                forall|e: int|
                    0 <= e < net.m() && vis@[(#[trigger] net.arcs[e]).from]
                        && !vis_first[net.arcs[e].from] && net.arcs[e].from != now && usable(
                        net,
                        levels,
                        tight,
                        e,
                    ) ==> vis@[net.arcs[e].to],
            decreases bound,
        {
            proof {
                assert(net.arc_ok(cur as int, limit));
                assert(self.edges@[cur as int]@ == net.arcs[cur as int]);
                lemma_last_from(net.arcs, now as int, bound);
                lemma_last_from(net.arcs, now as int, cur as int);
            }
            let w = self.edges[cur].weight.dup();
            let c = self.edges[cur].cost.dup();
            let to = self.edges[cur].to;
            let reversed = self.edges[cur].reversed;
            let next = self.edges[cur].next_edge;
            let fitting = if !tight {
                true
            } else {
                let leaving = if reversed {
                    checked_minus(&dist[to], &c)
                } else {
                    checked_plus(&dist[to], &c)
                };
                proof {
                    dist[now as int].lemma_bounds();
                }
                match leaving {
                    Some(v) => dist[now].same(&v),
                    None => false,
                }
            };
            proof {
                assert(fitting == (tight ==> crate::network::walks::tight(
                    net.arcs,
                    levels,
                    cur as int,
                )));
            }
            if fitting && !vis[to] && !w.same(&nothing) {
                let budget = if flow.same(&nothing) {
                    w
                } else if flow.less(&w) {
                    flow.dup()
                } else {
                    w
                };
                let ghost vis_before = vis@;
                let ghost allowed = budget.value();
                let f = self.mcmf_dfs(
                    to,
                    budget,
                    cost,
                    dist,
                    vis,
                    t,
                    tight,
                    Ghost(origin),
                    Ghost(spent),
                    Ghost(round),
                );
                if !f.same(&nothing) {
                    let ghost mid = self@;
                    let ghost e = cur as int;
                    let ghost rest = choose|q: Seq<int>| #[trigger]
                        moved_by_usable(
                            net,
                            mid,
                            levels,
                            tight,
                            q,
                            to as int,
                            t as int,
                            allowed,
                            f.value(),
                        );
                    proof {
                        lemma_usable_grown(
                            net,
                            mid,
                            levels,
                            tight,
                            e,
                            rest,
                            t as int,
                            flow.value(),
                            allowed,
                            f.value(),
                        );
                        c.lemma_bounds();
                        assert(mid.arcs[e] == net.arcs[e]);
                        assert(net.arc_ok(e, limit));
                        assert(mid.arcs[mate(e)] == net.arcs[mate(e)]);
                        lemma_augmented::<E>(
                            origin,
                            net,
                            mid,
                            limit,
                            e,
                            now as int,
                            to as int,
                            t as int,
                            f.value(),
                            spent,
                            paid,
                        );
                        if round.sound && tight {
                            lemma_push_priced(
                                mid,
                                limit,
                                levels,
                                round.marks,
                                round.phi,
                                t as int,
                                e,
                                f.value(),
                            );
                        }
                    }
                    let product = M::mul(&f, &c);
                    if reversed {
                        *cost = cost.minus(&product);
                    } else {
                        *cost = cost.plus(&product);
                    }
                    self.push_flow(cur, &f);
                    proof {
                        assert(moved_by_usable(
                            net,
                            self@,
                            levels,
                            tight,
                            seq![e] + rest,
                            now as int,
                            t as int,
                            flow.value(),
                            f.value(),
                        ));
                        assert forall|j: int|
                            0 <= j < net.m() && (vis_first[(#[trigger] net.arcs[j]).from]
                                || vis_first[net.arcs[j].to]) implies self@.arcs[j]
                            == net.arcs[j] by {
                            assert(net.arc_ok(j, limit));
                            assert(mid.arcs[j] == net.arcs[j]);
                            assert(j != e && j != mate(e));
                        }
                    }
                    return f;
                }
                proof {
                    lemma_unmarked_grows(vis_before, vis@);
                }
            }
            proof {
                bound = cur as int;
            }
            cur = next;
        }
        proof {
            lemma_last_from(net.arcs, now as int, bound);
        }
        nothing
    }

    /// Labels every vertex from which `t` can be reached along arcs with
    /// capacity left with the cost of a walk to `t`, lowering labels until
    /// no arc lowers one any more, and says whether `s` got a label, and
    /// which vertices did: those from which `t` can be reached.
    ///
    /// Walking along a user-added arc costs its cost, walking along the mate
    /// of one returns it.  A label that `E` cannot hold is not given.  Where
    /// the network admits the prices `phi`, which `sound` says, every label
    /// can be held, and the label of every vertex that got one is the cost
    /// of a cheapest walk from it to `t`: a walk along tight arcs leads
    /// from it to `t`, and no arc with capacity left could lower a label.
    pub(crate) fn spfa(
        &self,
        s: usize,
        t: usize,
        dist: &mut Vec<E>,
        Ghost(phi): Ghost<Seq<int>>,
        Ghost(sound): Ghost<bool>,
    ) -> (r: (bool, Ghost<Seq<bool>>))
        requires
            self.wf(),
            s < self@.n(),
            t < self@.n(),
            old(dist)@.len() == self@.n(),
            sound ==> sound_prices(self@, phi, t as int, E::min_value()) && costs_within(
                self@,
                E::max_value(),
            ),
        ensures
            final(dist)@.len() == self@.n(),
            r.1@.len() == self@.n(),
            r.0 == r.1@[s as int],
            r.1@[t as int],
            forall|e: int|
                0 <= e < self@.m() && (#[trigger] self@.arcs[e]).cap > 0 && r.1@[self@.arcs[e].to]
                    ==> r.1@[self@.arcs[e].from],
            r.0 == reachable(self@.arcs, s as int, t as int),
            forall|v: int|
                0 <= v < self@.n() && #[trigger] r.1@[v] ==> reachable(self@.arcs, v, t as int),
            sound ==> {
                &&& settled(self@, labels(final(dist)@), r.1@)
                &&& labels(final(dist)@)[t as int] == 0
                &&& r.0 ==> exists|p: Seq<int>|
                    tight_walk(self@.arcs, labels(final(dist)@), p, s as int, t as int)
                &&& forall|v: int|
                    0 <= v < self@.n() && #[trigger] r.1@[v] ==> exists|p: Seq<int>|
                        tight_walk(self@.arcs, labels(final(dist)@), p, v, t as int)
            },
    {
        let n = self.first.len();
        let nothing = T::zero();
        let ghost net = self@;
        let ghost limit = T::max_value();
        let ghost low = E::min_value();
        let ghost high = E::max_value();
        let mut vis: Vec<bool> = Vec::new();
        let mut inque: Vec<bool> = Vec::new();
        while vis.len() < n
            invariant
                vis@.len() == inque@.len(),
                vis@.len() <= n,
                forall|v: int| 0 <= v < vis@.len() ==> !(#[trigger] vis@[v]),
                forall|v: int| 0 <= v < inque@.len() ==> !(#[trigger] inque@[v]),
            decreases n - vis@.len(),
        {
            vis.push(false);
            inque.push(false);
        }
        let mut q: VecDeque<usize> = VecDeque::new();
        q.push_back(t);
        dist.set(t, E::zero());
        inque.set(t, true);
        vis.set(t, true);
        let ghost mut ways: Seq<Seq<int>> = Seq::new(n as nat, |v: int| Seq::<int>::empty());
        proof {
            lemma_ends_in_range(net, limit);
            lemma_slack_bound(vis@, dist@, n as int);
            assert(q@[0] == t);
            lemma_search_start(net, labels(dist@), vis@, inque@, t as int);
            lemma_reaching_start(net.arcs, vis@, t as int);
        }
        while q.len() > 0
            invariant
                self.wf(),
                net == self@,
                limit == T::max_value(),
                low == E::min_value(),
                high == E::max_value(),
                ends_in_range(net),
                nothing.value() == 0,
                n == net.n(),
                t < n,
                dist@.len() == n,
                vis@.len() == n,
                inque@.len() == n,
                vis@[t as int],
                reaching(net.arcs, vis@, t as int),
                sound ==> sound_prices(net, phi, t as int, low) && costs_within(net, high),
                sound ==> searching(net, labels(dist@), vis@, inque@, ways, t as int, -1, 0),
                forall|i: int| 0 <= i < q@.len() ==> (#[trigger] q@[i]) < n,
                forall|i: int| 0 <= i < q@.len() ==> vis@[(#[trigger] q@[i]) as int],
                forall|v: int|
                    0 <= v < n && #[trigger] inque@[v] ==> exists|i: int|
                        0 <= i < q@.len() && #[trigger] q@[i] == v,
                forall|v: int|
                    0 <= v < n && #[trigger] vis@[v] && !inque@[v] ==> entered_from_marked(
                        net,
                        vis@,
                        v,
                    ),
                0 <= slack(vis@, dist@, n as int),
            decreases slack(vis@, dist@, n as int), q@.len(),
        {
            let ghost q_before = q@;
            let now = q.pop_front().unwrap();
            let mut cur: usize = self.first[now].next_edge;
            let ghost mut bound: int = net.m();
            let ghost start = slack(vis@, dist@, n as int);
            let ghost q_start = q@;
            proof {
                assert(q_before[0] == now);
                assert(net.head_ok(now as int));
                lemma_last_from(net.arcs, now as int, bound);
                assert forall|v: int| 0 <= v < n && #[trigger] inque@[v] && v != now implies exists|
                    i: int,
                | 0 <= i < q@.len() && #[trigger] q@[i] == v by {
                    let i = choose|i: int| 0 <= i < q_before.len() && #[trigger] q_before[i] == v;
                    assert(q@[i - 1] == v);
                }
                assert forall|i: int| 0 <= i < q@.len() implies vis@[(#[trigger] q@[i]) as int] by {
                    assert(q@[i] == q_before[i + 1]);
                }
                if sound {
                    lemma_search_pop(net, labels(dist@), vis@, inque@, ways, t as int, now as int);
                }
            }
            while cur != usize::MAX
                invariant
                    self.wf(),
                    net == self@,
                    limit == T::max_value(),
                    low == E::min_value(),
                    high == E::max_value(),
                    ends_in_range(net),
                    nothing.value() == 0,
                    n == net.n(),
                    t < n,
                    now < n,
                    dist@.len() == n,
                    vis@.len() == n,
                    inque@.len() == n,
                    vis@[t as int],
                    vis@[now as int],
                    reaching(net.arcs, vis@, t as int),
                    0 <= bound <= net.m(),
                    cur as int == last_from(net.arcs, now as int, bound),
                    cur != usize::MAX ==> cur < bound,
                    sound ==> sound_prices(net, phi, t as int, low) && costs_within(net, high),
                    sound ==> searching(
                        net,
                        labels(dist@),
                        vis@,
                        inque@,
                        ways,
                        t as int,
                        now as int,
                        bound,
                    ),
                    forall|i: int| 0 <= i < q@.len() ==> (#[trigger] q@[i]) < n,
                    forall|i: int| 0 <= i < q@.len() ==> vis@[(#[trigger] q@[i]) as int],
                    forall|v: int|
                        0 <= v < n && #[trigger] inque@[v] && v != now ==> exists|i: int|
                            0 <= i < q@.len() && #[trigger] q@[i] == v,
                    forall|v: int|
                        0 <= v < n && #[trigger] vis@[v] && !inque@[v] && v != now
                            ==> entered_from_marked(net, vis@, v),
                    forall|e: int|
                        bound <= e < net.m() && (#[trigger] net.arcs[e]).from == now
                            && net.arcs[mate(e)].cap > 0 ==> vis@[net.arcs[e].to],
                    0 <= slack(vis@, dist@, n as int),
                    slack(vis@, dist@, n as int) < start || (slack(vis@, dist@, n as int) == start
                        && q@ == q_start),
                decreases bound,
            {
                proof {
                    assert(net.arc_ok(cur as int, limit));
                    assert(0 <= mate(cur as int) < net.m());
                    assert(net.arc_ok(mate(cur as int), limit));
                    assert(self.edges@[cur as int]@ == net.arcs[cur as int]);
                    assert(self.edges@[mate(cur as int)]@ == net.arcs[mate(cur as int)]);
                    lemma_last_from(net.arcs, now as int, bound);
                    lemma_last_from(net.arcs, now as int, cur as int);
                    if sound {
                        lemma_search_step(
                            net,
                            limit,
                            phi,
                            low,
                            high,
                            labels(dist@),
                            vis@,
                            inque@,
                            ways,
                            t as int,
                            bound,
                            cur as int,
                        );
                    }
                }
                let edge = &self.edges[cur];
                let to = edge.to;
                if !self.edges[edge.opp_edge].weight.same(&nothing) {
                    let stepped = if edge.reversed {
                        checked_plus(&dist[now], &edge.cost)
                    } else {
                        checked_minus(&dist[now], &edge.cost)
                    };
                    let newcost = match stepped {
                        Some(v) => v,
                        None => E::highest(),
                    };
                    if !vis[to] || newcost.less(&dist[to]) {
                        let ghost vis_before = vis@;
                        let ghost dist_before = dist@;
                        let ghost inque_before = inque@;
                        proof {
                            newcost.lemma_bounds();
                            lemma_reaching_more(net.arcs, vis@, t as int, mate(cur as int));
                            lemma_slack_update(vis@, dist@, to as int, newcost, n as int);
                            lemma_slack_bound(
                                vis@.update(to as int, true),
                                dist@.update(to as int, newcost),
                                n as int,
                            );
                        }
                        vis.set(to, true);
                        dist.set(to, newcost);
                        if !inque[to] {
                            inque.set(to, true);
                            let ghost q_earlier = q@;
                            if q.len() == 0 || dist[q[0]].less(&dist[to]) {
                                q.push_back(to);
                                proof {
                                    assert(q@[q_earlier.len() as int] == to);
                                    assert forall|v: int|
                                        0 <= v < n && #[trigger] inque@[v] && v != now
                                            && v != to implies exists|i: int|
                                        0 <= i < q@.len() && #[trigger] q@[i] == v by {
                                        let i = choose|i: int|
                                            0 <= i < q_earlier.len() && #[trigger] q_earlier[i]
                                                == v;
                                        assert(q@[i] == v);
                                    }
                                    assert forall|i: int| 0 <= i < q@.len() implies vis@[(
                                    #[trigger] q@[i]) as int] by {
                                        if i < q_earlier.len() {
                                            assert(q@[i] == q_earlier[i]);
                                            assert(vis_before[q_earlier[i] as int]);
                                        }
                                    }
                                }
                            } else {
                                q.push_front(to);
                                proof {
                                    assert(q@[0] == to);
                                    assert forall|v: int|
                                        0 <= v < n && #[trigger] inque@[v] && v != now
                                            && v != to implies exists|i: int|
                                        0 <= i < q@.len() && #[trigger] q@[i] == v by {
                                        let i = choose|i: int|
                                            0 <= i < q_earlier.len() && #[trigger] q_earlier[i]
                                                == v;
                                        assert(q@[i + 1] == v);
                                    }
                                    assert forall|i: int| 0 <= i < q@.len() implies vis@[(
                                    #[trigger] q@[i]) as int] by {
                                        if i > 0 {
                                            assert(q@[i] == q_earlier[i - 1]);
                                            assert(vis_before[q_earlier[i - 1] as int]);
                                        }
                                    }
                                }
                            }
                        } else {
                            proof {
                                assert forall|i: int| 0 <= i < q@.len() implies vis@[(
                                #[trigger] q@[i]) as int] by {
                                    assert(vis_before[q@[i] as int]);
                                }
                            }
                        }
                        proof {
                            assert forall|v: int|
                                0 <= v < n && #[trigger] vis@[v] && !inque@[v] && v
                                    != now implies entered_from_marked(net, vis@, v) by {
                                assert(vis_before[v]);
                                assert(entered_from_marked(net, vis_before, v));
                            }
                            if sound {
                                let offer = labels(dist_before)[now as int] + price(
                                    net.arcs[mate(cur as int)],
                                );
                                assert(newcost.value() == offer);
                                assert(labels(dist@) =~= labels(dist_before).update(
                                    to as int,
                                    offer,
                                ));
                                assert(inque@ =~= inque_before.update(to as int, true));
                                ways = ways.update(
                                    to as int,
                                    seq![mate(cur as int)] + ways[now as int],
                                );
                            }
                        }
                    } else {
                        proof {
                            if sound {
                                let offer = labels(dist@)[now as int] + price(
                                    net.arcs[mate(cur as int)],
                                );
                                assert(newcost.value() == offer);
                            }
                        }
                    }
                }
                proof {
                    bound = cur as int;
                }
                cur = edge.next_edge;
            }
            proof {
                lemma_last_from(net.arcs, now as int, bound);
                assert forall|e: int|
                    0 <= e < net.m() && (#[trigger] net.arcs[e]).to == now && net.arcs[e].cap
                        > 0 implies vis@[net.arcs[e].from] by {
                    assert(net.arc_ok(e, limit));
                    assert(0 <= mate(e) < net.m());
                    assert(net.arc_ok(mate(e), limit));
                    assert(mate(mate(e)) == e);
                    assert(net.arcs[mate(e)].from == now);
                }
                if sound {
                    lemma_search_done(
                        net,
                        limit,
                        labels(dist@),
                        vis@,
                        inque@,
                        ways,
                        t as int,
                        now as int,
                        bound,
                    );
                }
            }
            inque.set(now, false);
        }
        proof {
            assert forall|e: int|
                0 <= e < net.m() && (#[trigger] net.arcs[e]).cap > 0 && vis@[net.arcs[e].to]
                    implies vis@[net.arcs[e].from] by {
                let v = net.arcs[e].to;
                assert(vis@[v] && !inque@[v]);
                assert(entered_from_marked(net, vis@, v));
            }
            reveal(reaching);
            if !vis@[s as int] && reachable(net.arcs, s as int, t as int) {
                let side = Set::new(|v: int| 0 <= v < n && vis@[v]);
                let p = choose|p: Seq<int>| walk(net.arcs, p, s as int, t as int);
                lemma_walk_into(net.arcs, side, p, s as int, t as int);
            }
            if sound {
                lemma_search_end(net, limit, labels(dist@), vis@, inque@, ways, t as int, s as int);
            }
        }
        (vis[s], Ghost(vis@))
    }

    /// As many unmarked vertices as the graph has vertices.
    fn no_marks(&self) -> (vis: Vec<bool>)
        ensures
            vis@.len() == self@.n(),
            forall|v: int| 0 <= v < vis@.len() ==> !(#[trigger] vis@[v]),
    {
        let n = self.first.len();
        let mut vis: Vec<bool> = Vec::new();
        while vis.len() < n
            invariant
                vis@.len() <= n,
                n == self@.n(),
                forall|v: int| 0 <= v < vis@.len() ==> !(#[trigger] vis@[v]),
            decreases n - vis@.len(),
        {
            vis.push(false);
        }
        vis
    }

    /// Routes a maximum flow from `s` to `t`, each time along a walk of least
    /// cost, and returns its value and what it costs.
    ///
    /// The capacities that are left describe the flow, as after
    /// `get_max_flow`, and the value is the same.  The cost is the sum, over
    /// the user-added arcs, of what was moved along the arc times its cost.
    /// Where the network has no cycle of negative cost along arcs with
    /// capacity left, and `E` can hold the cost of every walk that passes no
    /// vertex twice, which `priced` says, no routing of the same value costs
    /// less.  Otherwise the labels of a round may allow no walk although `t`
    /// can be reached, and the round moves flow along a walk that need not
    /// be the cheapest.  Whatever can be routed from `s` to `t` must be
    /// within the range of `T`, and where `t` can be reached from `s`, `E`
    /// must have room for the costs, as `cost_room` says.
    pub fn mcmf(&mut self, s: usize, t: usize) -> (r: (T, E))
        requires
            old(self).wf(),
            s < old(self)@.n(),
            t < old(self)@.n(),
            s != t,
            old(self)@.carries_within(s as int, t as int, T::max_value() as int),
            reachable(old(self)@.arcs, s as int, t as int) ==> cost_room::<E>(
                old(self)@,
                t as int,
            ),
        ensures
            final(self).wf(),
            final(self).labels() == old(self).labels(),
            0 <= r.0.value(),
            old(self)@.routes(final(self)@, s as int, t as int, r.0.value()),
            !reachable(final(self)@.arcs, s as int, t as int),
            final(self)@.in_capacity(t as int) == old(self)@.in_capacity(t as int) - r.0.value(),
            r.0.value() == old(self)@.cut_capacity(final(self)@.reach_set(s as int)),
            r.1.value() == old(self)@.cost_to(final(self)@),
            !reachable(old(self)@.arcs, s as int, t as int) ==> r.0.value() == 0,
            r.0.value() == 0 ==> final(self)@ == old(self)@ && r.1.value() == 0,
            priced::<E>(old(self)@, t as int) ==> forall|c: Network|
                #[trigger] old(self)@.routes(c, s as int, t as int, r.0.value()) ==> r.1.value()
                    <= old(self)@.cost_to(c),
    {
        let mut cost = E::zero();
        let mut flow = T::zero();
        let nothing = T::zero();
        let n = self.first.len();
        let ghost limit = T::max_value();
        let ghost low = E::min_value();
        let ghost high = E::max_value();
        let ghost origin = self@;
        let ghost sound = priced::<E>(origin, t as int);
        let ghost mut phi: Seq<int> = choose|phi: Seq<int>| sound_prices(origin, phi, t as int, low);
        let mut dist: Vec<E> = Vec::new();
        while dist.len() < n
            invariant
                dist@.len() <= n,
            decreases n - dist@.len(),
        {
            dist.push(E::zero());
        }
        proof {
            reveal(on_the_way);
            lemma_routes_nothing(origin, limit, s as int, t as int);
            lemma_cost_nothing(origin.arcs, origin.m());
            lemma_nonnegative(origin, limit);
            lemma_caps_nonnegative(origin.arcs, Set::empty(), t as int, origin.m());
        }
        loop
            invariant
                self.wf(),
                origin == old(self)@,
                limit == T::max_value(),
                low == E::min_value(),
                high == E::max_value(),
                sound == priced::<E>(origin, t as int),
                self.labels() == old(self).labels(),
                n == origin.n(),
                dist@.len() == n,
                s < n,
                t < n,
                s != t,
                nothing.value() == 0,
                0 <= flow.value(),
                origin.carries_within(s as int, t as int, T::max_value() as int),
                reachable(origin.arcs, s as int, t as int) ==> cost_room::<E>(origin, t as int),
                origin.routes(self@, s as int, t as int, flow.value()),
                self@.in_capacity(t as int) == origin.in_capacity(t as int) - flow.value(),
                0 <= self@.in_capacity(t as int),
                on_the_way(origin, self@, limit, t as int, flow.value(), cost.value()),
                cost.value() == origin.cost_to(self@),
                flow.value() == 0 ==> self@ == origin && cost.value() == 0,
                sound ==> sound_prices(self@, phi, t as int, low) && costs_within(self@, high),
            ensures
                !reachable(self@.arcs, s as int, t as int),
                sound ==> sound_prices(self@, phi, t as int, low),
            decreases self@.in_capacity(t as int),
        {
            let (reached, Ghost(marks)) = self.spfa(s, t, &mut dist, Ghost(phi), Ghost(sound));
            if !reached {
                break ;
            }
            proof {
                if !reachable(origin.arcs, s as int, t as int) {
                    reveal(on_the_way);
                    lemma_unreachable_routes_nothing(
                        origin,
                        self@,
                        limit,
                        s as int,
                        t as int,
                        flow.value(),
                    );
                }
            }
            let mut moved = false;
            let ghost start = self@;
            let ghost levels = labels(dist@);
            let ghost round = Round { sound, marks, phi: round_prices(start, levels, marks, phi) };
            proof {
                if sound {
                    lemma_round(start, limit, levels, marks, phi, t as int, low);
                }
            }
            loop
                invariant
                    self.wf(),
                    origin == old(self)@,
                    limit == T::max_value(),
                    low == E::min_value(),
                    high == E::max_value(),
                    sound == priced::<E>(origin, t as int),
                    self.labels() == old(self).labels(),
                    n == origin.n(),
                    dist@.len() == n,
                    s < n,
                    t < n,
                    s != t,
                    nothing.value() == 0,
                    0 <= flow.value(),
                    origin.carries_within(s as int, t as int, T::max_value() as int),
                    cost_room::<E>(origin, t as int),
                    origin.routes(self@, s as int, t as int, flow.value()),
                    self@.in_capacity(t as int) == origin.in_capacity(t as int) - flow.value(),
                    0 <= self@.in_capacity(t as int),
                    on_the_way(origin, self@, limit, t as int, flow.value(), cost.value()),
                    cost.value() == origin.cost_to(self@),
                    flow.value() == 0 ==> self@ == origin && cost.value() == 0,
                    !moved ==> self@ == start,
                    moved ==> self@.in_capacity(t as int) < start.in_capacity(t as int),
                    levels == labels(dist@),
                    round.sound == sound,
                    sound ==> priced_round(self@, levels, round.marks, round.phi, t as int),
                    sound ==> exists|p: Seq<int>|
                        tight_walk(start.arcs, levels, p, s as int, t as int),
                ensures
                    sound ==> moved,
                decreases self@.in_capacity(t as int),
            {
                let mut vis = self.no_marks();
                let ghost before = self@;
                let ghost nowhere = vis@;
                let f = self.mcmf_dfs(
                    s,
                    T::zero(),
                    &mut cost,
                    &dist,
                    &mut vis,
                    t,
                    true,
                    Ghost(origin),
                    Ghost(flow.value()),
                    Ghost(round),
                );
                if f.same(&nothing) {
                    proof {
                        if sound && !moved {
                            let side = Set::new(|v: int| 0 <= v < n && vis@[v]);
                            let p = choose|p: Seq<int>|
                                tight_walk(start.arcs, levels, p, s as int, t as int);
                            assert forall|e: int|
                                0 <= e < start.arcs.len() && side.contains(
                                    #[trigger] start.arcs[e].from,
                                ) && start.arcs[e].cap > 0 && tight(
                                    start.arcs,
                                    levels,
                                    e,
                                ) implies side.contains(start.arcs[e].to) by {
                                assert(start.arc_ok(e, limit));
                                assert(!nowhere[start.arcs[e].from]);
                                assert(usable(start, levels, true, e));
                            }
                            lemma_tight_closed(start.arcs, levels, side, p, s as int, t as int);
                        }
                    }
                    break ;
                }
                proof {
                    self.lemma_moved(origin, before, s as int, t as int, flow.value(), f.value());
                    flow.lemma_bounds();
                }
                flow = flow.plus(&f);
                moved = true;
            }
            if !moved {
                let mut vis = self.no_marks();
                let ghost before = self@;
                let ghost unmarked_all = vis@;
                let f = self.mcmf_dfs(
                    s,
                    T::zero(),
                    &mut cost,
                    &dist,
                    &mut vis,
                    t,
                    false,
                    Ghost(origin),
                    Ghost(flow.value()),
                    Ghost(round),
                );
                if f.same(&nothing) {
                    proof {
                        let side = Set::new(|v: int| 0 <= v < n && vis@[v]);
                        assert forall|e: int|
                            0 <= e < before.arcs.len() && side.contains(
                                #[trigger] before.arcs[e].from,
                            ) && before.arcs[e].cap > 0 implies side.contains(
                            before.arcs[e].to,
                        ) by {
                            assert(before.arc_ok(e, limit));
                            assert(!unmarked_all[before.arcs[e].from]);
                            assert(usable(before, labels(dist@), false, e));
                        }
                        if reachable(before.arcs, s as int, t as int) {
                            lemma_reach_in_closed(before.arcs, side, s as int, t as int);
                        }
                    }
                    break ;
                }
                proof {
                    self.lemma_moved(origin, before, s as int, t as int, flow.value(), f.value());
                    flow.lemma_bounds();
                }
                flow = flow.plus(&f);
            } else {
                proof {
                    if sound {
                        assert forall|v: int| 0 <= v < n implies low <= #[trigger] levels[v] by {
                            dist@[v].lemma_bounds();
                        }
                        lemma_round_over(
                            self@,
                            limit,
                            levels,
                            round.marks,
                            round.phi,
                            t as int,
                            low,
                        );
                        lemma_costs_same(start, self@, high);
                        phi = round.phi;
                    }
                }
            }
        }
        proof {
            let a = origin;
            let b = self@;
            lemma_reach_self(b.arcs, s as int);
            lemma_max_flow_min_cut(
                a,
                b,
                limit,
                s as int,
                t as int,
                flow.value(),
                b.reach_set(s as int),
            );
            if !reachable(a.arcs, s as int, t as int) {
                lemma_unreachable_routes_nothing(a, b, limit, s as int, t as int, flow.value());
            }
            if sound {
                reveal(sound_prices);
                assert forall|c: Network| #[trigger]
                    a.routes(c, s as int, t as int, flow.value()) implies cost.value() <= a.cost_to(
                    c,
                ) by {
                    lemma_cheapest(a, b, c, limit, s as int, t as int, flow.value(), phi);
                }
            }
        }
        (flow, cost)
    }

    /// After `f` more units have been routed from `s` to `t`, the graph is
    /// still on the way from `origin`, with `spent + f` units moved.
    proof fn lemma_moved(&self, origin: Network, before: Network, s: int, t: int, spent: int, f: int)
        requires
            self.wf(),
            s != t,
            0 < f,
            origin.routes(before, s, t, spent),
            on_the_way(origin, before, T::max_value(), t, spent, origin.cost_to(before)),
            before.routes(self@, s, t, f),
            before.within(self@, f),
            self@.in_capacity(t) == before.in_capacity(t) - f,
        ensures
            origin.routes(self@, s, t, spent + f),
            on_the_way(origin, self@, T::max_value(), t, spent + f, origin.cost_to(self@)),
            0 <= self@.in_capacity(t),
    {
        reveal(on_the_way);
        let limit = T::max_value();
        lemma_routes_twice(origin, before, self@, s, t, spent, f);
        lemma_nonnegative(self@, limit);
        lemma_caps_nonnegative(self@.arcs, Set::empty(), t, self@.m());
        lemma_within_twice(origin, before, self@, spent, f);
    }
}

} // verus!
