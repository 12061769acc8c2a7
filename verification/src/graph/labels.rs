//! What the labels of a shortest-path search mean while it runs.
use crate::network::walks::{
    costs_within, lemma_cost_bound, lemma_short, lemma_stops, lemma_walk_above_fall,
    lemma_walk_split, stops,
};
use crate::network::laws::{lemma_pushed, lemma_walk_into};
use crate::network::walks::{lemma_tight_walk, settled, tight, tight_walk};
use crate::network::{mate, price, reachable, walk, walk_cost, Arc, Network};
use crate::scalar::Scalar;
use vstd::prelude::*;

verus! {

/// Whether `phi` are prices that the network admits, none of them further
/// below the price of `t` than `low` where `t` can be reached.
#[verifier::opaque]
pub open spec fn sound_prices(net: Network, phi: Seq<int>, t: int, low: int) -> bool {
    &&& net.admits(phi)
    &&& forall|v: int|
        0 <= v < net.n() && reachable(net.arcs, v, t) ==> low <= #[trigger] phi[v] - phi[t]
}

/// Whether `way` is a walk from `v` to `t` that costs what the label of `v`
/// says, visits no vertex twice, and from none of its vertices on costs
/// less than the label of that vertex, which is marked.
pub open spec fn way_ok(
    net: Network,
    dist: Seq<int>,
    vis: Seq<bool>,
    way: Seq<int>,
    v: int,
    t: int,
) -> bool {
    &&& walk(net.arcs, way, v, t)
    &&& dist[v] == walk_cost(net.arcs, way)
    &&& stops(net.arcs, way, v).no_duplicates()
    &&& forall|i: int|
        0 < i <= way.len() ==> vis[#[trigger] stops(net.arcs, way, v)[i]] && walk_cost(
            net.arcs,
            way.skip(i),
        ) >= dist[stops(net.arcs, way, v)[i]]
}

/// Whether every marked vertex has its way to `t`, and `t` the empty one.
#[verifier::opaque]
pub open spec fn ways_ok(
    net: Network,
    dist: Seq<int>,
    vis: Seq<bool>,
    ways: Seq<Seq<int>>,
    t: int,
) -> bool {
    &&& ways.len() == net.n()
    &&& dist.len() == net.n()
    &&& vis.len() == net.n()
    &&& 0 <= t < net.n()
    &&& vis[t]
    &&& dist[t] == 0
    &&& ways[t] == Seq::<int>::empty()
    &&& forall|v: int| 0 <= v < net.n() && vis[v] ==> way_ok(net, dist, vis, #[trigger] ways[v], v, t)
}

/// What holds when `now`, the tail of arc `e`, offers its label to the
/// head `to` of the arc, from which the mate of the arc leads to `now`: the
/// offer, which is the label of `now` and the price of the mate, is within
/// `low` and `high`; and where `to` has no label or a higher one, `to` is
/// neither `now` nor `t`, and with the offer as its label and the mate
/// before the way of `now` as its way, every marked vertex has its way.
pub proof fn lemma_relax(
    net: Network,
    limit: int,
    phi: Seq<int>,
    low: int,
    high: int,
    dist: Seq<int>,
    vis: Seq<bool>,
    ways: Seq<Seq<int>>,
    t: int,
    e: int,
)
    requires
        net.wf(limit),
        sound_prices(net, phi, t, low),
        costs_within(net, high),
        ways_ok(net, dist, vis, ways, t),
        0 <= e < net.m(),
        vis[net.arcs[e].from],
        net.arcs[mate(e)].cap > 0,
    ensures
        ({
            let now = net.arcs[e].from;
            let to = net.arcs[e].to;
            let offer = dist[now] + price(net.arcs[mate(e)]);
            &&& low <= offer <= high
            &&& !vis[to] || offer < dist[to] ==> {
                &&& to != t
                &&& to != now
                &&& ways_ok(
                    net,
                    dist.update(to, offer),
                    vis.update(to, true),
                    ways.update(to, seq![mate(e)] + ways[now]),
                    t,
                )
            }
        }),
{
    reveal(sound_prices);
    reveal(ways_ok);
    let now = net.arcs[e].from;
    let to = net.arcs[e].to;
    let back = mate(e);
    let offer = dist[now] + price(net.arcs[back]);
    let old_way = ways[now];
    let way = seq![back] + old_way;
    let n = net.n();
    assert(net.arc_ok(e, limit));
    assert(0 <= back < net.m());
    assert(net.arc_ok(back, limit));
    assert(way_ok(net, dist, vis, ways[now], now, t));
    assert(way.drop_first() =~= old_way);
    assert(walk(net.arcs, way, to, t));
    assert(walk_cost(net.arcs, way) == offer);
    // the offer is within range
    assert(reachable(net.arcs, to, t));
    lemma_walk_above_fall(net, limit, phi, way, to, t);
    lemma_short(net, limit, old_way, now, t);
    lemma_cost_bound(net, limit, high, way, to, t);
    assert(0 <= high) by {
        reveal(costs_within);
        assert(-high <= n * net.arcs[e].cost <= high);
    }
    assert(offer <= high) by (nonlinear_arith)
        requires
            n * offer <= way.len() * high,
            way.len() <= n,
            0 < n,
            0 <= high,
    {
    }
    lemma_stops(net, limit, old_way, now, t);
    let old_stops = stops(net.arcs, old_way, now);
    let new_stops = stops(net.arcs, way, to);
    assert(new_stops =~= seq![to] + old_stops);
    if !vis[to] || offer < dist[to] {
        // the tail is not on the way of `now`
        assert forall|i: int| 0 <= i <= old_way.len() implies old_stops[i] != to by {
            if old_stops[i] == to {
                lemma_walk_split(net, limit, old_way, now, t, i);
                let round = seq![back] + old_way.take(i);
                assert(round.drop_first() =~= old_way.take(i));
                assert(walk(net.arcs, round, to, to));
                lemma_walk_above_fall(net, limit, phi, round, to, to);
                if i > 0 {
                    assert(vis[old_stops[i]]);
                }
            }
        }
        assert(old_stops.last() == t);
        assert(old_stops[0] == now);
        let dist2 = dist.update(to, offer);
        let vis2 = vis.update(to, true);
        let ways2 = ways.update(to, way);
        assert(new_stops.no_duplicates()) by {
            assert forall|i: int, j: int|
                0 <= i < new_stops.len() && 0 <= j < new_stops.len() && i != j implies new_stops[i]
                != new_stops[j] by {
                if i > 0 && j > 0 {
                    assert(old_stops[i - 1] != old_stops[j - 1]);
                }
            }
        }
        assert forall|v: int| 0 <= v < n && vis2[v] implies way_ok(
            net,
            dist2,
            vis2,
            #[trigger] ways2[v],
            v,
            t,
        ) by {
            if v == to {
                assert forall|i: int| 0 < i <= way.len() implies vis2[#[trigger] new_stops[i]]
                    && walk_cost(net.arcs, way.skip(i)) >= dist2[new_stops[i]] by {
                    assert(new_stops[i] == old_stops[i - 1]);
                    assert(way.skip(i) =~= old_way.skip(i - 1));
                    if i == 1 {
                        assert(old_way.skip(0) =~= old_way);
                    } else {
                        assert(vis[old_stops[i - 1]]);
                    }
                }
            } else {
                let w = ways[v];
                assert(way_ok(net, dist, vis, ways[v], v, t));
                let s = stops(net.arcs, w, v);
                lemma_stops(net, limit, w, v, t);
                assert forall|i: int| 0 < i <= w.len() implies vis2[#[trigger] s[i]] && walk_cost(
                    net.arcs,
                    w.skip(i),
                ) >= dist2[s[i]] by {
                    assert(vis[s[i]]);
                    assert(0 <= s[i] < n);
                    assert(walk_cost(net.arcs, w.skip(i)) >= dist[s[i]]);
                    if s[i] == to {
                        assert(offer < dist[to]);
                    }
                }
            }
        }
    }
}

/// The integers that labels stand for.
pub open spec fn labels<E: Scalar>(dist: Seq<E>) -> Seq<int> {
    Seq::new(dist.len(), |i: int| dist[i].value())
}

/// Whether no arc with capacity left that enters `v` could lower the label
/// of its tail, which is marked.
pub open spec fn entered_settled(net: Network, dist: Seq<int>, vis: Seq<bool>, v: int) -> bool {
    forall|e: int|
        0 <= e < net.m() && (#[trigger] net.arcs[e]).to == v && net.arcs[e].cap > 0
            ==> vis[net.arcs[e].from] && dist[net.arcs[e].from] <= dist[v] + price(net.arcs[e])
}

/// What holds while the search runs, with `now` as the vertex whose arcs
/// it is looking at, of which those from `bound` on are done; `now` is
/// negative between two vertices.  Every marked vertex has its way; the
/// labels are settled at every marked vertex that does not wait in the
/// queue; and the arcs of `now` that are done have offered its label.
#[verifier::opaque]
pub open spec fn searching(
    net: Network,
    dist: Seq<int>,
    vis: Seq<bool>,
    inque: Seq<bool>,
    ways: Seq<Seq<int>>,
    t: int,
    now: int,
    bound: int,
) -> bool {
    &&& ways_ok(net, dist, vis, ways, t)
    &&& inque.len() == net.n()
    &&& dist.len() == net.n()
    &&& vis.len() == net.n()
    &&& forall|v: int|
        0 <= v < net.n() && #[trigger] vis[v] && !inque[v] && v != now ==> entered_settled(
            net,
            dist,
            vis,
            v,
        )
    &&& 0 <= now ==> {
        &&& now < net.n()
        &&& vis[now]
        &&& forall|e: int|
            bound <= e < net.m() && (#[trigger] net.arcs[e]).from == now && net.arcs[mate(e)].cap
                > 0 ==> vis[net.arcs[e].to] && dist[net.arcs[e].to] <= dist[now] + price(
                net.arcs[mate(e)],
            )
    }
}

/// The search can start: `t` is marked, has the label zero and waits in the queue.
pub proof fn lemma_search_start(
    net: Network,
    dist: Seq<int>,
    vis: Seq<bool>,
    inque: Seq<bool>,
    t: int,
)
    requires
        0 <= t < net.n(),
        dist.len() == net.n(),
        vis.len() == net.n(),
        inque.len() == net.n(),
        dist[t] == 0,
        forall|v: int| 0 <= v < net.n() ==> (#[trigger] vis[v]) == (v == t),
        inque[t],
    ensures
        searching(
            net,
            dist,
            vis,
            inque,
            Seq::new(net.n() as nat, |v: int| Seq::<int>::empty()),
            t,
            -1,
            0,
        ),
{
    reveal(searching);
    reveal(ways_ok);
    let ways = Seq::new(net.n() as nat, |v: int| Seq::<int>::empty());
    assert(walk(net.arcs, ways[t], t, t));
    assert(stops(net.arcs, ways[t], t) =~= seq![t]);
}

/// The search can turn to a vertex that waits in the queue.
pub proof fn lemma_search_pop(
    net: Network,
    dist: Seq<int>,
    vis: Seq<bool>,
    inque: Seq<bool>,
    ways: Seq<Seq<int>>,
    t: int,
    now: int,
)
    requires
        searching(net, dist, vis, inque, ways, t, -1, 0),
        0 <= now < net.n(),
        vis[now],
    ensures
        searching(net, dist, vis, inque, ways, t, now, net.m()),
{
    reveal(searching);
}

/// The search has looked at an arc of `now` that changes nothing: its mate
/// has no capacity left, or its head has a label that is no higher than
/// what `now` offers.
pub proof fn lemma_search_skip(
    net: Network,
    limit: int,
    dist: Seq<int>,
    vis: Seq<bool>,
    inque: Seq<bool>,
    ways: Seq<Seq<int>>,
    t: int,
    bound: int,
    e: int,
)
    requires
        net.wf(limit),
        0 <= e < bound <= net.m(),
        searching(net, dist, vis, inque, ways, t, net.arcs[e].from, bound),
        forall|j: int| e < j < bound ==> (#[trigger] net.arcs[j]).from != net.arcs[e].from,
        net.arcs[mate(e)].cap > 0 ==> vis[net.arcs[e].to] && dist[net.arcs[e].to]
            <= dist[net.arcs[e].from] + price(net.arcs[mate(e)]),
    ensures
        searching(net, dist, vis, inque, ways, t, net.arcs[e].from, e),
{
    reveal(searching);
    let now = net.arcs[e].from;
    assert(net.arc_ok(e, limit));
    assert forall|j: int|
        e <= j < net.m() && (#[trigger] net.arcs[j]).from == now && net.arcs[mate(j)].cap
            > 0 implies vis[net.arcs[j].to] && dist[net.arcs[j].to] <= dist[now] + price(
        net.arcs[mate(j)],
    ) by {
        if j > e {
            assert(j >= bound);
        }
    }
}

/// The search has given the head of an arc of `now` the label that the
/// arc offers.
pub proof fn lemma_search_take(
    net: Network,
    limit: int,
    dist: Seq<int>,
    vis: Seq<bool>,
    inque: Seq<bool>,
    ways: Seq<Seq<int>>,
    t: int,
    bound: int,
    e: int,
    way: Seq<int>,
)
    requires
        net.wf(limit),
        0 <= e < bound <= net.m(),
        searching(net, dist, vis, inque, ways, t, net.arcs[e].from, bound),
        forall|j: int| e < j < bound ==> (#[trigger] net.arcs[j]).from != net.arcs[e].from,
        net.arcs[e].to != net.arcs[e].from,
        !vis[net.arcs[e].to] || dist[net.arcs[e].from] + price(net.arcs[mate(e)])
            < dist[net.arcs[e].to],
        ways_ok(
            net,
            dist.update(net.arcs[e].to, dist[net.arcs[e].from] + price(net.arcs[mate(e)])),
            vis.update(net.arcs[e].to, true),
            ways.update(net.arcs[e].to, way),
            t,
        ),
    ensures
        searching(
            net,
            dist.update(net.arcs[e].to, dist[net.arcs[e].from] + price(net.arcs[mate(e)])),
            vis.update(net.arcs[e].to, true),
            inque.update(net.arcs[e].to, true),
            ways.update(net.arcs[e].to, way),
            t,
            net.arcs[e].from,
            e,
        ),
{
    reveal(searching);
    let now = net.arcs[e].from;
    let to = net.arcs[e].to;
    let offer = dist[now] + price(net.arcs[mate(e)]);
    let n = net.n();
    assert(net.arc_ok(e, limit));
    let dist2 = dist.update(to, offer);
    let vis2 = vis.update(to, true);
    let inque2 = inque.update(to, true);
    assert forall|v: int|
        0 <= v < n && #[trigger] vis2[v] && !inque2[v] && v != now implies entered_settled(
        net,
        dist2,
        vis2,
        v,
    ) by {
        assert(v != to);
        assert(vis[v]);
        assert(entered_settled(net, dist, vis, v));
        assert forall|j: int|
            0 <= j < net.m() && (#[trigger] net.arcs[j]).to == v && net.arcs[j].cap
                > 0 implies vis2[net.arcs[j].from] && dist2[net.arcs[j].from] <= dist2[v] + price(
            net.arcs[j],
        ) by {
            assert(net.arc_ok(j, limit));
            assert(vis[net.arcs[j].from]);
            assert(dist[net.arcs[j].from] <= dist[v] + price(net.arcs[j]));
            assert(dist2[v] == dist[v]);
            if net.arcs[j].from == to {
                assert(dist2[to] == offer);
                assert(offer < dist[to]);
            } else {
                assert(dist2[net.arcs[j].from] == dist[net.arcs[j].from]);
            }
        }
    }
    assert(dist2[now] == dist[now]);
    assert forall|j: int|
        e <= j < net.m() && (#[trigger] net.arcs[j]).from == now && net.arcs[mate(j)].cap
            > 0 implies vis2[net.arcs[j].to] && dist2[net.arcs[j].to] <= dist2[now] + price(
        net.arcs[mate(j)],
    ) by {
        assert(net.arc_ok(j, limit));
        if j > e {
            assert(j >= bound);
            assert(vis[net.arcs[j].to]);
            assert(dist[net.arcs[j].to] <= dist[now] + price(net.arcs[mate(j)]));
            if net.arcs[j].to == to {
                assert(offer < dist[to]);
            }
        }
    }
}

/// The search has looked at one more arc of `now`.
pub proof fn lemma_search_step(
    net: Network,
    limit: int,
    phi: Seq<int>,
    low: int,
    high: int,
    dist: Seq<int>,
    vis: Seq<bool>,
    inque: Seq<bool>,
    ways: Seq<Seq<int>>,
    t: int,
    bound: int,
    e: int,
)
    requires
        net.wf(limit),
        sound_prices(net, phi, t, low),
        costs_within(net, high),
        0 <= e < bound <= net.m(),
        searching(net, dist, vis, inque, ways, t, net.arcs[e].from, bound),
        forall|j: int| e < j < bound ==> (#[trigger] net.arcs[j]).from != net.arcs[e].from,
    ensures
        ({
            let now = net.arcs[e].from;
            let to = net.arcs[e].to;
            let offer = dist[now] + price(net.arcs[mate(e)]);
            if net.arcs[mate(e)].cap > 0 {
                &&& low <= offer <= high
                &&& if !vis[to] || offer < dist[to] {
                    &&& to != now
                    &&& searching(
                        net,
                        dist.update(to, offer),
                        vis.update(to, true),
                        inque.update(to, true),
                        ways.update(to, seq![mate(e)] + ways[now]),
                        t,
                        now,
                        e,
                    )
                } else {
                    searching(net, dist, vis, inque, ways, t, now, e)
                }
            } else {
                searching(net, dist, vis, inque, ways, t, now, e)
            }
        }),
{
    let now = net.arcs[e].from;
    let to = net.arcs[e].to;
    let offer = dist[now] + price(net.arcs[mate(e)]);
    assert(net.arc_ok(e, limit));
    if net.arcs[mate(e)].cap > 0 {
        assert(ways_ok(net, dist, vis, ways, t) && vis[now]) by {
            reveal(searching);
        }
        lemma_relax(net, limit, phi, low, high, dist, vis, ways, t, e);
        if !vis[to] || offer < dist[to] {
            lemma_search_take(
                net,
                limit,
                dist,
                vis,
                inque,
                ways,
                t,
                bound,
                e,
                seq![mate(e)] + ways[now],
            );
        } else {
            lemma_search_skip(net, limit, dist, vis, inque, ways, t, bound, e);
        }
    } else {
        lemma_search_skip(net, limit, dist, vis, inque, ways, t, bound, e);
    }
}

/// The search is done with `now`: its label is settled.
pub proof fn lemma_search_done(
    net: Network,
    limit: int,
    dist: Seq<int>,
    vis: Seq<bool>,
    inque: Seq<bool>,
    ways: Seq<Seq<int>>,
    t: int,
    now: int,
    bound: int,
)
    requires
        net.wf(limit),
        0 <= now,
        searching(net, dist, vis, inque, ways, t, now, bound),
        forall|j: int| 0 <= j < bound ==> (#[trigger] net.arcs[j]).from != now,
    ensures
        searching(net, dist, vis, inque.update(now, false), ways, t, -1, 0),
{
    reveal(searching);
    let inque2 = inque.update(now, false);
    assert forall|v: int|
        0 <= v < net.n() && #[trigger] vis[v] && !inque2[v] implies entered_settled(
        net,
        dist,
        vis,
        v,
    ) by {
        if v == now {
            assert forall|e: int|
                0 <= e < net.m() && (#[trigger] net.arcs[e]).to == now && net.arcs[e].cap
                    > 0 implies vis[net.arcs[e].from] && dist[net.arcs[e].from] <= dist[now]
                + price(net.arcs[e]) by {
                assert(net.arc_ok(e, limit));
                assert(0 <= mate(e) < net.m());
                assert(net.arc_ok(mate(e), limit));
                assert(mate(mate(e)) == e);
                assert(net.arcs[mate(e)].from == now);
            }
        }
    }
}

/// When the search has ended, the labels are settled at every marked
/// vertex, and a walk along tight arcs leads from every marked vertex to `t`.
pub proof fn lemma_search_end(
    net: Network,
    limit: int,
    dist: Seq<int>,
    vis: Seq<bool>,
    inque: Seq<bool>,
    ways: Seq<Seq<int>>,
    t: int,
    s: int,
)
    requires
        net.wf(limit),
        searching(net, dist, vis, inque, ways, t, -1, 0),
        forall|v: int| 0 <= v < net.n() ==> !#[trigger] inque[v],
        0 <= s < net.n(),
    ensures
        settled(net, dist, vis),
        dist[t] == 0,
        vis[s] ==> exists|p: Seq<int>| tight_walk(net.arcs, dist, p, s, t),
        forall|v: int|
            0 <= v < net.n() && #[trigger] vis[v] ==> exists|p: Seq<int>|
                tight_walk(net.arcs, dist, p, v, t),
{
    reveal(searching);
    reveal(settled);
    reveal(ways_ok);
    assert forall|e: int|
        0 <= e < net.m() && (#[trigger] net.arcs[e]).cap > 0 && vis[net.arcs[e].to]
            implies vis[net.arcs[e].from] && dist[net.arcs[e].from] <= dist[net.arcs[e].to] + price(
        net.arcs[e],
    ) by {
        assert(net.arc_ok(e, limit));
        let v = net.arcs[e].to;
        assert(vis[v] && !inque[v]);
        assert(entered_settled(net, dist, vis, v));
    }
    if vis[s] {
        assert(way_ok(net, dist, vis, ways[s], s, t));
        lemma_tight_walk(net, limit, dist, vis, ways[s], s, t);
    }
    assert forall|v: int| 0 <= v < net.n() && #[trigger] vis[v] implies exists|p: Seq<int>|
        tight_walk(net.arcs, dist, p, v, t) by {
        assert(way_ok(net, dist, vis, ways[v], v, t));
        lemma_tight_walk(net, limit, dist, vis, ways[v], v, t);
    }
}

/// What the proofs keep of a round of the search for a cheapest flow:
/// whether the network admitted prices when the round began, the vertices
/// that the labels of the round mark, and the prices of the round.
pub struct Round {
    pub sound: bool,
    pub marks: Seq<bool>,
    pub phi: Seq<int>,
}

/// Whether a search may move along arc `e`: the arc has capacity left and,
/// where only tight arcs count, is tight.
pub open spec fn usable(net: Network, dist: Seq<int>, tight_only: bool, e: int) -> bool {
    net.arcs[e].cap > 0 && (tight_only ==> tight(net.arcs, dist, e))
}

/// Whether `p` lists the arcs of a walk from `x` to `y` along which a
/// search may move.
pub open spec fn usable_walk(
    net: Network,
    dist: Seq<int>,
    tight_only: bool,
    p: Seq<int>,
    x: int,
    y: int,
) -> bool
    decreases p.len(),
{
    if p.len() == 0 {
        x == y
    } else {
        &&& 0 <= p[0] < net.m()
        &&& net.arcs[p[0]].from == x
        &&& usable(net, dist, tight_only, p[0])
        &&& usable_walk(net, dist, tight_only, p.drop_first(), net.arcs[p[0]].to, y)
    }
}

/// Whether a search from `now` with the budget `flow` has led from
/// `before` to `after` by moving `r` units along the walk `p` from `now`
/// to `t`, along which it may move: as much as the walk yields with that
/// budget.
#[verifier::opaque]
pub open spec fn moved_by_usable(
    before: Network,
    after: Network,
    dist: Seq<int>,
    tight_only: bool,
    p: Seq<int>,
    now: int,
    t: int,
    flow: int,
    r: int,
) -> bool {
    &&& usable_walk(before, dist, tight_only, p, now, t)
    &&& after == before.moved_along(p, r)
    &&& r == crate::network::reach_of(before.arcs, p, flow)
}

/// Whether `t` can be reached from every marked vertex along arcs with
/// capacity left.
#[verifier::opaque]
pub open spec fn reaching(arcs: Seq<Arc>, vis: Seq<bool>, t: int) -> bool {
    forall|v: int| 0 <= v < vis.len() && #[trigger] vis[v] ==> reachable(arcs, v, t)
}

/// Where `t` alone is marked, `t` can be reached from every marked vertex.
pub proof fn lemma_reaching_start(arcs: Seq<Arc>, vis: Seq<bool>, t: int)
    requires
        forall|v: int| 0 <= v < vis.len() && v != t ==> !#[trigger] vis[v],
    ensures
        reaching(arcs, vis, t),
{
    reveal(reaching);
    assert(walk(arcs, Seq::<int>::empty(), t, t));
}

/// Marking the vertex that an arc with capacity left leaves for a marked
/// vertex keeps `t` within reach of every marked vertex.
pub proof fn lemma_reaching_more(arcs: Seq<Arc>, vis: Seq<bool>, t: int, e: int)
    requires
        reaching(arcs, vis, t),
        0 <= e < arcs.len(),
        arcs[e].cap > 0,
        0 <= arcs[e].to < vis.len(),
        vis[arcs[e].to],
        0 <= arcs[e].from < vis.len(),
    ensures
        reaching(arcs, vis.update(arcs[e].from, true), t),
{
    reveal(reaching);
    let rest = choose|p: Seq<int>| walk(arcs, p, arcs[e].to, t);
    let way = seq![e] + rest;
    assert(way.drop_first() =~= rest);
    assert(walk(arcs, way, arcs[e].from, t));
}

/// A search that stops at once has moved its budget along no arc.
pub proof fn lemma_usable_none(net: Network, dist: Seq<int>, tight_only: bool, t: int, flow: int)
    ensures
        moved_by_usable(net, net, dist, tight_only, Seq::<int>::empty(), t, t, flow, flow),
{
    reveal(moved_by_usable);
}

/// A search that moves along arc `e` what a search from the end of `e` has
/// moved along `rest` with the budget that `e` allows, has moved it along
/// `e` and then `rest`.
pub proof fn lemma_usable_grown(
    net: Network,
    mid: Network,
    dist: Seq<int>,
    tight_only: bool,
    e: int,
    rest: Seq<int>,
    t: int,
    flow: int,
    allowed: int,
    f: int,
)
    requires
        0 <= e < net.m(),
        usable(net, dist, tight_only, e),
        0 <= flow,
        allowed == if flow == 0 || net.arcs[e].cap <= flow {
            net.arcs[e].cap
        } else {
            flow
        },
        moved_by_usable(net, mid, dist, tight_only, rest, net.arcs[e].to, t, allowed, f),
    ensures
        moved_by_usable(
            net,
            mid.pushed(e, f),
            dist,
            tight_only,
            seq![e] + rest,
            net.arcs[e].from,
            t,
            flow,
            f,
        ),
{
    reveal(moved_by_usable);
    let way = seq![e] + rest;
    assert(way.drop_first() =~= rest);
    crate::network::laws::lemma_walk_grown(net, e, rest, flow, allowed, f);
}

/// What holds of the labels of a round while flow is moved along tight
/// arcs: the network admits the prices `phi`, which are the labels at the
/// marked vertices; `t` is marked; and no arc with capacity left leads
/// from a vertex without a mark to a marked one.
#[verifier::opaque]
pub open spec fn priced_round(
    net: Network,
    dist: Seq<int>,
    marks: Seq<bool>,
    phi: Seq<int>,
    t: int,
) -> bool {
    &&& net.admits(phi)
    &&& marks.len() == net.n()
    &&& dist.len() == net.n()
    &&& 0 <= t < net.n()
    &&& marks[t]
    &&& dist[t] == 0
    &&& forall|e: int|
        0 <= e < net.m() && (#[trigger] net.arcs[e]).cap > 0 && marks[net.arcs[e].to]
            ==> marks[net.arcs[e].from]
    &&& forall|v: int| 0 <= v < net.n() && #[trigger] marks[v] ==> phi[v] == dist[v]
}

/// How far the prices of the vertices without a mark must be lifted so
/// that no arc below `k` from a marked vertex to one without a mark has a
/// negative reduced cost.
pub open spec fn lift(net: Network, dist: Seq<int>, marks: Seq<bool>, phi: Seq<int>, k: int) -> int
    decreases k,
{
    if k <= 0 {
        0
    } else {
        let a = net.arcs[k - 1];
        let need = if a.cap > 0 && marks[a.from] && !marks[a.to] {
            dist[a.from] - price(a) - phi[a.to]
        } else {
            0
        };
        if need > lift(net, dist, marks, phi, k - 1) {
            need
        } else {
            lift(net, dist, marks, phi, k - 1)
        }
    }
}

/// The lift is enough for every arc below `k`.
pub proof fn lemma_lift(net: Network, dist: Seq<int>, marks: Seq<bool>, phi: Seq<int>, k: int, e: int)
    requires
        0 <= e < k <= net.m(),
    ensures
        0 <= lift(net, dist, marks, phi, k),
        net.arcs[e].cap > 0 && marks[net.arcs[e].from] && !marks[net.arcs[e].to] ==> lift(
            net,
            dist,
            marks,
            phi,
            k,
        ) >= dist[net.arcs[e].from] - price(net.arcs[e]) - phi[net.arcs[e].to],
    decreases k,
{
    if e < k - 1 {
        lemma_lift(net, dist, marks, phi, k - 1, e);
    } else {
        lemma_lift_nonnegative(net, dist, marks, phi, k - 1);
    }
}

/// The lift is not negative.
pub proof fn lemma_lift_nonnegative(
    net: Network,
    dist: Seq<int>,
    marks: Seq<bool>,
    phi: Seq<int>,
    k: int,
)
    requires
        0 <= k <= net.m(),
    ensures
        0 <= lift(net, dist, marks, phi, k),
    decreases k,
{
    if k > 0 {
        lemma_lift_nonnegative(net, dist, marks, phi, k - 1);
    }
}

/// The prices of a round: the labels at the marked vertices, and the
/// prices of before, lifted, at the others.
pub open spec fn round_prices(
    net: Network,
    dist: Seq<int>,
    marks: Seq<bool>,
    phi: Seq<int>,
) -> Seq<int> {
    Seq::new(
        net.n() as nat,
        |v: int|
            if marks[v] {
                dist[v]
            } else {
                phi[v] + lift(net, dist, marks, phi, net.m())
            },
    )
}

/// Settled labels make prices for a round.
pub proof fn lemma_round(
    net: Network,
    limit: int,
    dist: Seq<int>,
    marks: Seq<bool>,
    phi: Seq<int>,
    t: int,
    low: int,
)
    requires
        net.wf(limit),
        sound_prices(net, phi, t, low),
        settled(net, dist, marks),
        marks.len() == net.n(),
        dist.len() == net.n(),
        0 <= t < net.n(),
        marks[t],
        dist[t] == 0,
    ensures
        priced_round(net, dist, marks, round_prices(net, dist, marks, phi), t),
{
    reveal(sound_prices);
    reveal(settled);
    reveal(priced_round);
    let now = round_prices(net, dist, marks, phi);
    assert forall|e: int| 0 <= e < net.m() && (#[trigger] net.arcs[e]).cap > 0 implies price(
        net.arcs[e],
    ) + now[net.arcs[e].to] - now[net.arcs[e].from] >= 0 by {
        assert(net.arc_ok(e, limit));
        lemma_lift(net, dist, marks, phi, net.m(), e);
    }
}

/// Moving flow along a tight arc into a marked vertex keeps what holds of
/// the labels of the round, and the arc comes from a marked vertex.
pub proof fn lemma_push_priced(
    net: Network,
    limit: int,
    dist: Seq<int>,
    marks: Seq<bool>,
    phi: Seq<int>,
    t: int,
    e: int,
    f: int,
)
    requires
        net.wf(limit),
        priced_round(net, dist, marks, phi, t),
        0 <= e < net.m(),
        0 < f <= net.arcs[e].cap,
        marks[net.arcs[e].to],
        tight(net.arcs, dist, e),
    ensures
        marks[net.arcs[e].from],
        priced_round(net.pushed(e, f), dist, marks, phi, t),
{
    reveal(priced_round);
    let after = net.pushed(e, f);
    lemma_pushed(net, limit, e, f);
    assert(net.arc_ok(e, limit));
    assert(0 <= mate(e) < net.m());
    assert(net.arc_ok(mate(e), limit));
    assert(price(net.arcs[mate(e)]) == -price(net.arcs[e]));
    assert forall|j: int| 0 <= j < after.m() && (#[trigger] after.arcs[j]).cap > 0 implies price(
        after.arcs[j],
    ) + phi[after.arcs[j].to] - phi[after.arcs[j].from] >= 0 by {
        assert(net.arc_ok(j, limit));
        assert(net.arcs[j].cap > 0 ==> price(net.arcs[j]) + phi[net.arcs[j].to]
            - phi[net.arcs[j].from] >= 0);
    }
    assert forall|j: int|
        0 <= j < after.m() && (#[trigger] after.arcs[j]).cap > 0 && marks[after.arcs[j].to]
            implies marks[after.arcs[j].from] by {
        assert(net.arc_ok(j, limit));
        assert(net.arcs[j].cap > 0 && marks[net.arcs[j].to] ==> marks[net.arcs[j].from]);
    }
}

/// What holds of the labels of a round makes sound prices for the next.
pub proof fn lemma_round_over(
    net: Network,
    limit: int,
    dist: Seq<int>,
    marks: Seq<bool>,
    phi: Seq<int>,
    t: int,
    low: int,
)
    requires
        net.wf(limit),
        priced_round(net, dist, marks, phi, t),
        forall|v: int| 0 <= v < net.n() ==> low <= #[trigger] dist[v],
    ensures
        sound_prices(net, phi, t, low),
        net.admits(phi),
{
    reveal(priced_round);
    reveal(sound_prices);
    assert forall|v: int| 0 <= v < net.n() && reachable(net.arcs, v, t) implies low
        <= #[trigger] phi[v] - phi[t] by {
        let side = Set::new(|u: int| 0 <= u < net.n() && marks[u]);
        let p = choose|p: Seq<int>| walk(net.arcs, p, v, t);
        assert forall|e: int|
            0 <= e < net.arcs.len() && side.contains(#[trigger] net.arcs[e].to) && net.arcs[e].cap
                > 0 implies side.contains(net.arcs[e].from) by {
            assert(net.arc_ok(e, limit));
        }
        lemma_walk_into(net.arcs, side, p, v, t);
        assert(marks[v]);
    }
}

/// A walk along tight arcs that starts in a set which no tight arc with
/// capacity left leaves, ends in the set.
pub proof fn lemma_tight_closed(
    arcs: Seq<crate::network::Arc>,
    dist: Seq<int>,
    side: Set<int>,
    p: Seq<int>,
    x: int,
    y: int,
)
    requires
        forall|e: int|
            0 <= e < arcs.len() && side.contains(#[trigger] arcs[e].from) && arcs[e].cap > 0
                && tight(arcs, dist, e) ==> side.contains(arcs[e].to),
        side.contains(x),
        tight_walk(arcs, dist, p, x, y),
    ensures
        side.contains(y),
    decreases p.len(),
{
    if p.len() > 0 {
        assert(side.contains(arcs[p[0]].to));
        lemma_tight_closed(arcs, dist, side, p.drop_first(), arcs[p[0]].to, y);
    }
}

} // verus!
