//! Facts about the costs of walks.
use crate::network::{price, walk, walk_cost, Arc, Network};
use vstd::prelude::*;
use vstd::set_lib::{lemma_int_range, lemma_len_subset, set_int_range};

verus! {

/// The vertices that a walk from `x` along the arcs of `p` visits, in order.
pub open spec fn stops(arcs: Seq<Arc>, p: Seq<int>, x: int) -> Seq<int>
    decreases p.len(),
{
    if p.len() == 0 {
        seq![x]
    } else {
        seq![x] + stops(arcs, p.drop_first(), arcs[p[0]].to)
    }
}

/// Whether arc `e` costs exactly what the labels fall along it.
pub open spec fn tight(arcs: Seq<Arc>, dist: Seq<int>, e: int) -> bool {
    dist[arcs[e].from] == dist[arcs[e].to] + price(arcs[e])
}

/// Whether `p` lists the arcs of a walk from `x` to `y` along tight arcs
/// with capacity left.
pub open spec fn tight_walk(arcs: Seq<Arc>, dist: Seq<int>, p: Seq<int>, x: int, y: int) -> bool
    decreases p.len(),
{
    if p.len() == 0 {
        x == y
    } else {
        &&& 0 <= p[0] < arcs.len()
        &&& arcs[p[0]].from == x
        &&& arcs[p[0]].cap > 0
        &&& tight(arcs, dist, p[0])
        &&& tight_walk(arcs, dist, p.drop_first(), arcs[p[0]].to, y)
    }
}

/// Whether the labels of the marked vertices are settled: no arc with
/// capacity left that enters a marked vertex could lower the label of its tail.
#[verifier::opaque]
pub open spec fn settled(net: Network, dist: Seq<int>, marks: Seq<bool>) -> bool {
    forall|e: int|
        0 <= e < net.m() && (#[trigger] net.arcs[e]).cap > 0 && marks[net.arcs[e].to]
            ==> marks[net.arcs[e].from] && dist[net.arcs[e].from] <= dist[net.arcs[e].to] + price(
            net.arcs[e],
        )
}

/// A walk visits one vertex more than it has arcs, first its start and
/// last its end, and only vertices of the network.
pub proof fn lemma_stops(net: Network, limit: int, p: Seq<int>, x: int, y: int)
    requires
        net.wf(limit),
        0 <= x < net.n(),
        walk(net.arcs, p, x, y),
    ensures
        stops(net.arcs, p, x).len() == p.len() + 1,
        stops(net.arcs, p, x)[0] == x,
        stops(net.arcs, p, x).last() == y,
        forall|i: int| 0 <= i <= p.len() ==> 0 <= #[trigger] stops(net.arcs, p, x)[i] < net.n(),
        forall|i: int| 0 <= i < p.len() ==> 0 <= #[trigger] p[i] < net.m(),
        forall|i: int|
            0 <= i < p.len() ==> net.arcs[#[trigger] p[i]].from == stops(net.arcs, p, x)[i]
                && net.arcs[p[i]].to == stops(net.arcs, p, x)[i + 1] && net.arcs[p[i]].cap > 0,
    decreases p.len(),
{
    if p.len() > 0 {
        assert(net.arc_ok(p[0], limit));
        let rest = p.drop_first();
        let z = net.arcs[p[0]].to;
        lemma_stops(net, limit, rest, z, y);
        let all = stops(net.arcs, p, x);
        let tail = stops(net.arcs, rest, z);
        assert forall|i: int| 0 <= i <= p.len() implies 0 <= #[trigger] all[i] < net.n() by {
            if i > 0 {
                assert(all[i] == tail[i - 1]);
            }
        }
        assert forall|i: int| 0 <= i < p.len() implies 0 <= #[trigger] p[i] < net.m() by {
            if i > 0 {
                assert(p[i] == rest[i - 1]);
            }
        }
        assert forall|i: int| 0 <= i < p.len() implies net.arcs[#[trigger] p[i]].from == all[i]
            && net.arcs[p[i]].to == all[i + 1] && net.arcs[p[i]].cap > 0 by {
            if i > 0 {
                assert(p[i] == rest[i - 1]);
                assert(all[i] == tail[i - 1]);
                assert(all[i + 1] == tail[i]);
            } else {
                assert(all[1] == tail[0]);
            }
        }
    }
}

/// A walk can be cut at any of its vertices, into a walk to the vertex and
/// a walk from it, which together cost what the walk costs.
pub proof fn lemma_walk_split(net: Network, limit: int, p: Seq<int>, x: int, y: int, i: int)
    requires
        net.wf(limit),
        0 <= x < net.n(),
        walk(net.arcs, p, x, y),
        0 <= i <= p.len(),
    ensures
        walk(net.arcs, p.take(i), x, stops(net.arcs, p, x)[i]),
        walk(net.arcs, p.skip(i), stops(net.arcs, p, x)[i], y),
        walk_cost(net.arcs, p) == walk_cost(net.arcs, p.take(i)) + walk_cost(net.arcs, p.skip(i)),
        stops(net.arcs, p.skip(i), stops(net.arcs, p, x)[i]) == stops(net.arcs, p, x).skip(i),
    decreases p.len(),
{
    lemma_stops(net, limit, p, x, y);
    if i == 0 {
        assert(p.take(0) =~= Seq::<int>::empty());
        assert(p.skip(0) =~= p);
        assert(stops(net.arcs, p, x).skip(0) =~= stops(net.arcs, p, x));
    } else {
        assert(net.arc_ok(p[0], limit));
        let rest = p.drop_first();
        let z = net.arcs[p[0]].to;
        lemma_walk_split(net, limit, rest, z, y, i - 1);
        lemma_stops(net, limit, rest, z, y);
        let all = stops(net.arcs, p, x);
        let tail = stops(net.arcs, rest, z);
        assert(all[i] == tail[i - 1]);
        assert(p.take(i).drop_first() =~= rest.take(i - 1));
        assert(p.take(i)[0] == p[0]);
        assert(p.skip(i) =~= rest.skip(i - 1));
        assert(all.skip(i) =~= tail.skip(i - 1));
    }
}

/// Against prices that the network admits, a walk costs no less than the
/// prices fall from its start to its end.
pub proof fn lemma_walk_above_fall(
    net: Network,
    limit: int,
    phi: Seq<int>,
    p: Seq<int>,
    x: int,
    y: int,
)
    requires
        net.wf(limit),
        net.admits(phi),
        walk(net.arcs, p, x, y),
    ensures
        walk_cost(net.arcs, p) >= phi[x] - phi[y],
    decreases p.len(),
{
    if p.len() > 0 {
        assert(net.arc_ok(p[0], limit));
        lemma_walk_above_fall(net, limit, phi, p.drop_first(), net.arcs[p[0]].to, y);
    }
}

/// A walk that visits no vertex twice has fewer arcs than the network has vertices.
pub proof fn lemma_short(net: Network, limit: int, p: Seq<int>, x: int, y: int)
    requires
        net.wf(limit),
        0 <= x < net.n(),
        walk(net.arcs, p, x, y),
        stops(net.arcs, p, x).no_duplicates(),
    ensures
        p.len() + 1 <= net.n(),
{
    lemma_stops(net, limit, p, x, y);
    let all = stops(net.arcs, p, x);
    all.unique_seq_to_set();
    lemma_int_range(0, net.n());
    assert(all.to_set().subset_of(set_int_range(0, net.n()))) by {
        assert forall|v: int| all.to_set().contains(v) implies set_int_range(0, net.n()).contains(
            v,
        ) by {
            let i = choose|i: int| 0 <= i < all.len() && all[i] == v;
            assert(0 <= all[i] < net.n());
        }
    }
    lemma_len_subset(all.to_set(), set_int_range(0, net.n()));
}

/// Whether `bound` is no less than the cost of any arc times the number of vertices.
#[verifier::opaque]
pub open spec fn costs_within(net: Network, bound: int) -> bool {
    forall|e: int|
        0 <= e < net.m() ==> -bound <= net.n() * (#[trigger] net.arcs[e]).cost <= bound
}

/// A walk costs, times the number of vertices, no more than `bound` for each of its arcs.
pub proof fn lemma_cost_bound(net: Network, limit: int, bound: int, p: Seq<int>, x: int, y: int)
    requires
        net.wf(limit),
        costs_within(net, bound),
        walk(net.arcs, p, x, y),
    ensures
        -(p.len() * bound) <= net.n() * walk_cost(net.arcs, p) <= p.len() * bound,
    decreases p.len(),
{
    reveal(costs_within);
    let n = net.n();
    if p.len() > 0 {
        let e = p[0];
        let rest = p.drop_first();
        assert(net.arc_ok(e, limit));
        lemma_cost_bound(net, limit, bound, rest, net.arcs[e].to, y);
        let c = price(net.arcs[e]);
        let w = walk_cost(net.arcs, rest);
        assert(-bound <= n * c <= bound) by {
            assert(-bound <= n * net.arcs[e].cost <= bound);
            assert(n * (-net.arcs[e].cost) == -(n * net.arcs[e].cost)) by (nonlinear_arith);
        }
        assert(n * (c + w) == n * c + n * w) by (nonlinear_arith);
        assert(p.len() * bound == bound + rest.len() * bound) by (nonlinear_arith)
            requires
                p.len() == rest.len() + 1,
        ;
    } else {
        assert(n * 0 == 0) by (nonlinear_arith);
        assert(p.len() * bound == 0) by (nonlinear_arith)
            requires
                p.len() == 0,
        ;
    }
}

/// Where the labels are settled and the end of a walk has the label zero,
/// the start of the walk has a label that is no more than the walk costs.
pub proof fn lemma_label_below_cost(
    net: Network,
    limit: int,
    dist: Seq<int>,
    marks: Seq<bool>,
    p: Seq<int>,
    x: int,
    t: int,
)
    requires
        net.wf(limit),
        settled(net, dist, marks),
        marks[t],
        dist[t] == 0,
        walk(net.arcs, p, x, t),
    ensures
        marks[x],
        dist[x] <= walk_cost(net.arcs, p),
    decreases p.len(),
{
    reveal(settled);
    if p.len() > 0 {
        lemma_label_below_cost(net, limit, dist, marks, p.drop_first(), net.arcs[p[0]].to, t);
    }
}

/// Where the labels are settled, a walk to the vertex with label zero that
/// costs no more than the label of its start is a walk along tight arcs.
pub proof fn lemma_tight_walk(
    net: Network,
    limit: int,
    dist: Seq<int>,
    marks: Seq<bool>,
    p: Seq<int>,
    x: int,
    t: int,
)
    requires
        net.wf(limit),
        settled(net, dist, marks),
        marks[t],
        dist[t] == 0,
        walk(net.arcs, p, x, t),
        walk_cost(net.arcs, p) <= dist[x],
    ensures
        tight_walk(net.arcs, dist, p, x, t),
    decreases p.len(),
{
    reveal(settled);
    if p.len() > 0 {
        let rest = p.drop_first();
        let z = net.arcs[p[0]].to;
        lemma_label_below_cost(net, limit, dist, marks, rest, z, t);
        lemma_tight_walk(net, limit, dist, marks, rest, z, t);
    }
}

/// A walk along tight arcs costs the difference of the labels of its ends.
pub proof fn lemma_tight_cost(arcs: Seq<Arc>, dist: Seq<int>, p: Seq<int>, x: int, y: int)
    requires
        tight_walk(arcs, dist, p, x, y),
    ensures
        walk(arcs, p, x, y),
        walk_cost(arcs, p) == dist[x] - dist[y],
    decreases p.len(),
{
    if p.len() > 0 {
        lemma_tight_cost(arcs, dist, p.drop_first(), arcs[p[0]].to, y);
    }
}

/// Cheapest walks: where the labels are settled, `t` has the label zero
/// and a walk `q` along tight arcs leads from `v` to `t`, the label of `v`
/// is what `q` costs, and no walk `p` from `v` to `t` costs less.
pub proof fn lemma_label_is_least(
    net: Network,
    limit: int,
    dist: Seq<int>,
    marks: Seq<bool>,
    q: Seq<int>,
    p: Seq<int>,
    v: int,
    t: int,
)
    requires
        net.wf(limit),
        settled(net, dist, marks),
        marks[t],
        dist[t] == 0,
        tight_walk(net.arcs, dist, q, v, t),
        walk(net.arcs, p, v, t),
    ensures
        walk(net.arcs, q, v, t),
        dist[v] == walk_cost(net.arcs, q),
        dist[v] <= walk_cost(net.arcs, p),
{
    lemma_tight_cost(net.arcs, dist, q, v, t);
    lemma_label_below_cost(net, limit, dist, marks, p, v, t);
}

} // verus!
