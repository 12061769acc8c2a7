//! Maximum flow by blocking flows in layered networks.
use crate::costtype::MulTE;
use crate::graph::edge::Edge;
use crate::graph::Graph;
use crate::network::laws::{
    lemma_caps_nonnegative, lemma_carries_nothing, lemma_carries_within, lemma_last_from,
    lemma_max_flow_min_cut, lemma_reach_in_closed,
    lemma_reach_self, lemma_route_extended, lemma_routes_nothing, lemma_routes_twice,
    lemma_unreachable_routes_nothing, lemma_walk_grown,
};
use crate::network::{
    closed, in_cap, last_from, mate, out_cap, reach_of, reachable, walk, Arc, Network,
};
use crate::scalar::{checked_plus, Scalar};
use vstd::prelude::*;

verus! {

/// How many entries of `levels` are zero.
pub open spec fn zeros(levels: Seq<usize>) -> nat
    decreases levels.len(),
{
    if levels.len() == 0 {
        0
    } else {
        zeros(levels.drop_last()) + if levels.last() == 0 {
            1nat
        } else {
            0nat
        }
    }
}

/// Giving a level to a vertex that had none leaves one zero entry less.
pub proof fn lemma_zeros_update(levels: Seq<usize>, x: int, l: usize)
    requires
        0 <= x < levels.len(),
        levels[x] == 0,
        l != 0,
    ensures
        zeros(levels.update(x, l)) + 1 == zeros(levels),
        zeros(levels) <= levels.len(),
    decreases levels.len(),
{
    let after = levels.update(x, l);
    if x == levels.len() - 1 {
        assert(after.drop_last() =~= levels.drop_last());
        lemma_zeros_bound(levels.drop_last());
    } else {
        assert(after.drop_last() =~= levels.drop_last().update(x, l));
        lemma_zeros_update(levels.drop_last(), x, l);
    }
}

/// There are no more zero entries than entries.
pub proof fn lemma_zeros_bound(levels: Seq<usize>)
    ensures
        zeros(levels) <= levels.len(),
    decreases levels.len(),
{
    if levels.len() > 0 {
        lemma_zeros_bound(levels.drop_last());
    }
}

/// Whether both ends of every arc are vertices.
pub open spec fn ends_in_range(net: Network) -> bool {
    forall|e: int|
        0 <= e < net.m() ==> 0 <= (#[trigger] net.arcs[e]).from < net.n() && 0 <= net.arcs[e].to
            < net.n()
}

/// In a well-formed network both ends of every arc are vertices.
pub proof fn lemma_ends_in_range(net: Network, limit: int)
    requires
        net.wf(limit),
    ensures
        ends_in_range(net),
{
    assert forall|e: int| 0 <= e < net.m() implies 0 <= (#[trigger] net.arcs[e]).from < net.n()
        && 0 <= net.arcs[e].to < net.n() by {
        assert(net.arc_ok(e, limit));
    }
}

/// Whether arc `e` has capacity left and leads from one layer to the next.
pub open spec fn admissible(arcs: Seq<Arc>, levels: Seq<usize>, e: int) -> bool {
    &&& arcs[e].cap > 0
    &&& levels[arcs[e].to] == levels[arcs[e].from] + 1
}

/// Whether `p` lists the arcs of a walk from `x` to `y` along admissible arcs.
pub open spec fn level_walk(arcs: Seq<Arc>, levels: Seq<usize>, p: Seq<int>, x: int, y: int) -> bool
    decreases p.len(),
{
    if p.len() == 0 {
        x == y
    } else {
        &&& 0 <= p[0] < arcs.len()
        &&& arcs[p[0]].from == x
        &&& admissible(arcs, levels, p[0])
        &&& level_walk(arcs, levels, p.drop_first(), arcs[p[0]].to, y)
    }
}

/// Whether a search from `now` with the budget `flow` has led from
/// `before` to `after` by moving `r` units along the admissible walk `p`
/// from `now` to `t`: as much as the walk yields with that budget.
pub open spec fn moved_by_walk(
    before: Network,
    after: Network,
    levels: Seq<usize>,
    p: Seq<int>,
    now: int,
    t: int,
    flow: int,
    r: int,
) -> bool {
    &&& level_walk(before.arcs, levels, p, now, t)
    &&& after == before.moved_along(p, r)
    &&& r == reach_of(before.arcs, p, flow)
}

/// Whether `y` can be reached from `x` along admissible arcs.
pub open spec fn level_reach(arcs: Seq<Arc>, levels: Seq<usize>, x: int, y: int) -> bool {
    exists|p: Seq<int>| level_walk(arcs, levels, p, x, y)
}

/// Whether the vertices of `queue` stand in the order of their levels,
/// none of them with a level that is more than one above that of the
/// vertex at `head`.
#[verifier::opaque]
pub open spec fn in_order(levels: Seq<usize>, queue: Seq<usize>, head: int) -> bool {
    &&& forall|i: int, j: int|
        0 <= i <= j < queue.len() ==> levels[(#[trigger] queue[i]) as int] <= levels[(
        #[trigger] queue[j]) as int]
    &&& forall|j: int|
        0 <= head <= j < queue.len() ==> levels[(#[trigger] queue[j]) as int]
            <= levels[queue[head] as int] + 1
}

/// A vertex that waits in the queue is at most one level above the one at `head`.
pub proof fn lemma_order_seen(levels: Seq<usize>, queue: Seq<usize>, head: int, j: int)
    requires
        in_order(levels, queue, head),
        0 <= head < queue.len(),
        0 <= j < queue.len(),
    ensures
        levels[queue[j] as int] <= levels[queue[head] as int] + 1,
{
    reveal(in_order);
    if j < head {
        assert(levels[queue[j] as int] <= levels[queue[head] as int]);
    }
}

/// A vertex without a level that gets the level above that of the vertex
/// at `head` can join the queue at its end.
pub proof fn lemma_order_push(levels: Seq<usize>, queue: Seq<usize>, head: int, x: usize, l: usize)
    requires
        in_order(levels, queue, head),
        0 <= head < queue.len(),
        x < levels.len(),
        levels[x as int] == 0,
        l == levels[queue[head] as int] + 1,
        forall|i: int| 0 <= i < queue.len() ==> (#[trigger] queue[i]) < levels.len(),
        forall|i: int| 0 <= i < queue.len() ==> levels[(#[trigger] queue[i]) as int] != 0,
    ensures
        in_order(levels.update(x as int, l), queue.push(x), head),
{
    reveal(in_order);
    let after = levels.update(x as int, l);
    let longer = queue.push(x);
    assert forall|i: int| 0 <= i < queue.len() implies after[(#[trigger] longer[i]) as int]
        == levels[queue[i] as int] by {
        assert(longer[i] == queue[i]);
        assert(levels[queue[i] as int] != 0);
    }
    assert forall|i: int, j: int| 0 <= i <= j < longer.len() implies after[(
    #[trigger] longer[i]) as int] <= after[(#[trigger] longer[j]) as int] by {
        if j < queue.len() {
            assert(levels[queue[i] as int] <= levels[queue[j] as int]);
            assert(longer[i] == queue[i] && longer[j] == queue[j]);
        } else if i < queue.len() {
            lemma_order_seen(levels, queue, head, i);
            assert(longer[i] == queue[i]);
        }
    }
    assert forall|j: int| 0 <= head <= j < longer.len() implies after[(
    #[trigger] longer[j]) as int] <= after[longer[head] as int] + 1 by {
        assert(longer[head] == queue[head]);
        if j < queue.len() {
            assert(longer[j] == queue[j]);
            assert(levels[queue[j] as int] <= levels[queue[head] as int] + 1);
        }
    }
}

/// When the vertex at `head` is done, the order holds with the next one at the head.
pub proof fn lemma_order_next(levels: Seq<usize>, queue: Seq<usize>, head: int)
    requires
        in_order(levels, queue, head),
        0 <= head < queue.len(),
    ensures
        in_order(levels, queue, head + 1),
{
    reveal(in_order);
    assert forall|j: int| 0 <= head + 1 <= j < queue.len() implies levels[(
    #[trigger] queue[j]) as int] <= levels[queue[head + 1] as int] + 1 by {
        assert(levels[queue[head] as int] <= levels[queue[head + 1] as int]);
    }
}

/// Whether `levels` is the breadth-first layering of `net` from `s`: `s`
/// alone is in layer one, every vertex of a later layer is entered by an
/// arc with capacity from the layer before, and an arc with capacity leads
/// from a layered vertex neither to one without a layer, which has level
/// zero, nor further than to the next layer.  So the level of a vertex is
/// one more than the fewest arcs with capacity that lead to it from `s`.
pub open spec fn layered(net: Network, levels: Seq<usize>, s: int) -> bool {
    &&& levels.len() == net.n()
    &&& levels[s] == 1
    &&& forall|v: int| 0 <= v < net.n() ==> (#[trigger] levels[v]) <= net.n()
    &&& forall|v: int| 0 <= v < net.n() && #[trigger] levels[v] == 1 ==> v == s
    &&& forall|v: int|
        0 <= v < net.n() && #[trigger] levels[v] >= 2 ==> exists|e: int|
            0 <= e < net.m() && (#[trigger] net.arcs[e]).to == v && admissible(net.arcs, levels, e)
    &&& forall|e: int|
        0 <= e < net.m() && levels[(#[trigger] net.arcs[e]).from] != 0 && net.arcs[e].cap > 0
            ==> levels[net.arcs[e].to] != 0 && levels[net.arcs[e].to] <= levels[net.arcs[e].from]
            + 1
}

/// In a layering, every layered vertex can be reached from the source along
/// admissible arcs; stated for the rest `p` of such a walk, from `v` to `t`.
pub proof fn lemma_layer_walk(
    net: Network,
    limit: int,
    levels: Seq<usize>,
    s: int,
    v: int,
    t: int,
    p: Seq<int>,
)
    requires
        net.wf(limit),
        layered(net, levels, s),
        0 <= v < net.n(),
        levels[v] >= 1,
        level_walk(net.arcs, levels, p, v, t),
    ensures
        level_reach(net.arcs, levels, s, t),
    decreases levels[v],
{
    if levels[v] == 1 {
        assert(v == s);
    } else {
        let e = choose|e: int|
            0 <= e < net.m() && (#[trigger] net.arcs[e]).to == v && admissible(net.arcs, levels, e);
        assert(net.arc_ok(e, limit));
        let q = seq![e].add(p);
        assert(q.drop_first() =~= p);
        assert(level_walk(net.arcs, levels, q, net.arcs[e].from, t));
        lemma_layer_walk(net, limit, levels, s, net.arcs[e].from, t, q);
    }
}

/// A walk along admissible arcs has as many arcs as it climbs layers.
pub proof fn lemma_level_walk_len(arcs: Seq<Arc>, levels: Seq<usize>, p: Seq<int>, x: int, y: int)
    requires
        level_walk(arcs, levels, p, x, y),
    ensures
        levels[y] == levels[x] + p.len(),
        walk(arcs, p, x, y),
    decreases p.len(),
{
    if p.len() > 0 {
        lemma_level_walk_len(arcs, levels, p.drop_first(), arcs[p[0]].to, y);
    }
}

/// A walk from a layered vertex in a layering ends at a layered vertex, and
/// climbs no more layers than it has arcs.
pub proof fn lemma_walk_climbs(
    net: Network,
    limit: int,
    levels: Seq<usize>,
    s: int,
    p: Seq<int>,
    x: int,
    y: int,
)
    requires
        net.wf(limit),
        layered(net, levels, s),
        0 <= x < net.n(),
        levels[x] != 0,
        walk(net.arcs, p, x, y),
    ensures
        0 <= y < net.n(),
        levels[y] != 0,
        levels[y] <= levels[x] + p.len(),
    decreases p.len(),
{
    if p.len() > 0 {
        assert(net.arc_ok(p[0], limit));
        lemma_walk_climbs(net, limit, levels, s, p.drop_first(), net.arcs[p[0]].to, y);
    }
}

/// Breadth-first layering: in a layering from `s`, the level of a vertex
/// that a walk `p` from `s` reaches is one more than the fewest arcs of
/// such a walk: no more than one more than the arcs of `p`, and one more
/// than the arcs of some walk from `s`.
pub proof fn lemma_fewest_arcs(
    net: Network,
    limit: int,
    levels: Seq<usize>,
    s: int,
    v: int,
    p: Seq<int>,
)
    requires
        net.wf(limit),
        layered(net, levels, s),
        0 <= s < net.n(),
        walk(net.arcs, p, s, v),
    ensures
        1 <= levels[v] <= p.len() + 1,
        exists|q: Seq<int>| #[trigger] walk(net.arcs, q, s, v) && levels[v] == q.len() + 1,
{
    lemma_walk_climbs(net, limit, levels, s, p, s, v);
    assert(level_walk(net.arcs, levels, Seq::<int>::empty(), v, v));
    lemma_layer_walk(net, limit, levels, s, v, v, Seq::<int>::empty());
    let q = choose|q: Seq<int>| level_walk(net.arcs, levels, q, s, v);
    lemma_level_walk_len(net.arcs, levels, q, s, v);
}

impl<L, T: Scalar, E: Scalar, M: MulTE<T, E>> Graph<L, T, E, M> {
    /// Moves `f` units of capacity from arc `e` to its mate.
    pub(crate) fn push_flow(&mut self, e: usize, f: &T)
        requires
            old(self).wf(),
            e < old(self)@.m(),
            0 <= f.value() <= old(self)@.arcs[e as int].cap,
        ensures
            final(self)@ == old(self)@.pushed(e as int, f.value()),
            final(self).labels() == old(self).labels(),
    {
        let ghost before = self@;
        proof {
            assert(before.arc_ok(e as int, T::max_value()));
            assert(0 <= mate(e as int) < before.m());
            assert(before.arc_ok(mate(e as int), T::max_value()));
            f.lemma_bounds();
        }
        let o = self.edges[e].opp_edge;
        let lower = Edge {
            from: self.edges[e].from,
            to: self.edges[e].to,
            next_edge: self.edges[e].next_edge,
            opp_edge: o,
            weight: self.edges[e].weight.minus(f),
            cost: self.edges[e].cost.dup(),
            reversed: self.edges[e].reversed,
        };
        self.edges.set(e, lower);
        let higher = Edge {
            from: self.edges[o].from,
            to: self.edges[o].to,
            next_edge: self.edges[o].next_edge,
            opp_edge: self.edges[o].opp_edge,
            weight: self.edges[o].weight.plus(f),
            cost: self.edges[o].cost.dup(),
            reversed: self.edges[o].reversed,
        };
        self.edges.set(o, higher);
        proof {
            let target = before.pushed(e as int, f.value());
            assert(self@.arcs =~= target.arcs);
            assert(self@.heads =~= target.heads);
        }
    }

    /// A breadth-first layering from `s` over the arcs with capacity left.
    pub(crate) fn bfs(&self, s: usize) -> (levels: Vec<usize>)
        requires
            self.wf(),
            s < self@.n(),
        ensures
            layered(self@, levels@, s as int),
    {
        let n = self.first.len();
        let zero = T::zero();
        let ghost net = self@;
        let mut levels: Vec<usize> = Vec::new();
        while levels.len() < n
            invariant
                levels@.len() <= n,
                forall|v: int| 0 <= v < levels@.len() ==> (#[trigger] levels@[v]) == 0,
                zeros(levels@) == levels@.len(),
            decreases n - levels@.len(),
        {
            let ghost before = levels@;
            levels.push(0);
            proof {
                assert(levels@.drop_last() =~= before);
            }
        }
        proof {
            lemma_zeros_update(levels@, s as int, 1);
        }
        levels.set(s, 1);
        let mut queue: Vec<usize> = Vec::new();
        queue.push(s);
        let mut head: usize = 0;
        let ghost mut done: Seq<bool> = Seq::new(n as nat, |v: int| false);
        proof {
            reveal(in_order);
            lemma_ends_in_range(net, T::max_value());
            assert(queue@[0] == s);
            assert forall|v: int| 0 <= v < n && #[trigger] levels@[v] != 0 implies exists|i: int|
                0 <= i < queue@.len() && #[trigger] queue@[i] == v by {
                assert(v == s);
            }
        }
        while head < queue.len()
            invariant
                self.wf(),
                net == self@,
                ends_in_range(net),
                zero.value() == 0,
                n == net.n(),
                s < n,
                levels@.len() == n,
                levels@[s as int] == 1,
                0 <= head <= queue@.len(),
                forall|i: int| 0 <= i < queue@.len() ==> (#[trigger] queue@[i]) < n,
                forall|i: int| 0 <= i < queue@.len() ==> levels@[(#[trigger] queue@[i]) as int] != 0,
                forall|v: int|
                    0 <= v < n && #[trigger] levels@[v] != 0 ==> exists|i: int|
                        0 <= i < queue@.len() && #[trigger] queue@[i] == v,
                done.len() == n,
                forall|i: int| 0 <= i < head ==> done[(#[trigger] queue@[i]) as int],
                forall|v: int| 0 <= v < n && #[trigger] done[v] ==> levels@[v] != 0,
                forall|e: int|
                    0 <= e < net.m() && done[(#[trigger] net.arcs[e]).from] && net.arcs[e].cap > 0
                        ==> levels@[net.arcs[e].to] != 0 && levels@[net.arcs[e].to]
                        <= levels@[net.arcs[e].from] + 1,
                in_order(levels@, queue@, head as int),
                forall|v: int| 0 <= v < n ==> (#[trigger] levels@[v]) + zeros(levels@) <= n,
                forall|v: int| 0 <= v < n && #[trigger] levels@[v] == 1 ==> v == s,
                forall|v: int|
                    0 <= v < n && #[trigger] levels@[v] >= 2 ==> exists|e: int|
                        0 <= e < net.m() && (#[trigger] net.arcs[e]).to == v && admissible(
                            net.arcs,
                            levels@,
                            e,
                        ),
            decreases 2 * zeros(levels@) + queue@.len() - head,
        {
            let now = queue[head];
            let mut cur: usize = self.first[now].next_edge;
            let ghost mut bound: int = net.m();
            let ghost start = 2 * zeros(levels@) + queue@.len();
            proof {
                assert(net.head_ok(now as int));
                lemma_last_from(net.arcs, now as int, bound);
            }
            while cur != usize::MAX
                invariant
                    self.wf(),
                    net == self@,
                    ends_in_range(net),
                    zero.value() == 0,
                    n == net.n(),
                    s < n,
                    now < n,
                    levels@.len() == n,
                    levels@[s as int] == 1,
                    levels@[now as int] != 0,
                    0 <= head < queue@.len(),
                    queue@[head as int] == now,
                    0 <= bound <= net.m(),
                    cur as int == last_from(net.arcs, now as int, bound),
                    cur != usize::MAX ==> cur < bound,
                    2 * zeros(levels@) + queue@.len() <= start,
                    forall|e: int|
                        bound <= e < net.m() && (#[trigger] net.arcs[e]).from == now
                            && net.arcs[e].cap > 0 ==> levels@[net.arcs[e].to] != 0
                            && levels@[net.arcs[e].to] <= levels@[now as int] + 1,
                    in_order(levels@, queue@, head as int),
                    forall|i: int| 0 <= i < queue@.len() ==> (#[trigger] queue@[i]) < n,
                    forall|i: int|
                        0 <= i < queue@.len() ==> levels@[(#[trigger] queue@[i]) as int] != 0,
                    forall|v: int|
                        0 <= v < n && #[trigger] levels@[v] != 0 ==> exists|i: int|
                            0 <= i < queue@.len() && #[trigger] queue@[i] == v,
                    done.len() == n,
                    forall|i: int| 0 <= i < head ==> done[(#[trigger] queue@[i]) as int],
                    forall|v: int| 0 <= v < n && #[trigger] done[v] ==> levels@[v] != 0,
                    forall|e: int|
                        0 <= e < net.m() && done[(#[trigger] net.arcs[e]).from] && net.arcs[e].cap
                            > 0 ==> levels@[net.arcs[e].to] != 0 && levels@[net.arcs[e].to]
                            <= levels@[net.arcs[e].from] + 1,
                    forall|v: int| 0 <= v < n ==> (#[trigger] levels@[v]) + zeros(levels@) <= n,
                    forall|v: int| 0 <= v < n && #[trigger] levels@[v] == 1 ==> v == s,
                    forall|v: int|
                        0 <= v < n && #[trigger] levels@[v] >= 2 ==> exists|e: int|
                            0 <= e < net.m() && (#[trigger] net.arcs[e]).to == v && admissible(
                                net.arcs,
                                levels@,
                                e,
                            ),
                decreases bound,
            {
                proof {
                    assert(net.arc_ok(cur as int, T::max_value()));
                    assert(self.edges@[cur as int]@ == net.arcs[cur as int]);
                    lemma_last_from(net.arcs, now as int, bound);
                    lemma_last_from(net.arcs, now as int, cur as int);
                }
                let edge = &self.edges[cur];
                let x = edge.to;
                proof {
                    if levels@[x as int] != 0 {
                        let j = choose|j: int| 0 <= j < queue@.len() && #[trigger] queue@[j] == x;
                        lemma_order_seen(levels@, queue@, head as int, j);
                    }
                }
                if !edge.weight.same(&zero) && levels[x] == 0 {
                    let ghost before = levels@;
                    proof {
                        lemma_zeros_update(before, x as int, 1);
                        lemma_zeros_update(before, x as int, (levels@[now as int] + 1) as usize);
                    }
                    let deeper = levels[now] + 1;
                    levels.set(x, deeper);
                    let ghost length = queue@.len();
                    let ghost earlier = queue@;
                    queue.push(x);
                    proof {
                        lemma_order_push(before, earlier, head as int, x, deeper);
                        assert forall|e: int|
                            0 <= e < net.m() && done[(#[trigger] net.arcs[e]).from]
                                && net.arcs[e].cap > 0 implies levels@[net.arcs[e].to] != 0
                            && levels@[net.arcs[e].to] <= levels@[net.arcs[e].from] + 1 by {
                            assert(before[net.arcs[e].to] != 0);
                            assert(before[net.arcs[e].from] != 0);
                        }
                        assert forall|i: int| 0 <= i < head implies done[(
                        #[trigger] queue@[i]) as int] by {
                            assert(queue@[i] == earlier[i]);
                        }
                        assert forall|v: int|
                            0 <= v < n && #[trigger] levels@[v] != 0 implies exists|i: int|
                            0 <= i < queue@.len() && #[trigger] queue@[i] == v by {
                            if v == x {
                                assert(queue@[length as int] == x);
                            } else {
                                assert(before[v] != 0);
                                let i = choose|i: int|
                                    0 <= i < length && #[trigger] earlier[i] == v;
                                assert(queue@[i] == v);
                            }
                        }
                        assert forall|v: int|
                            0 <= v < n && #[trigger] levels@[v] >= 2 implies exists|e: int|
                            0 <= e < net.m() && (#[trigger] net.arcs[e]).to == v && admissible(
                                net.arcs,
                                levels@,
                                e,
                            ) by {
                            if v == x {
                                assert(admissible(net.arcs, levels@, cur as int));
                            } else {
                                let e = choose|e: int|
                                    0 <= e < net.m() && (#[trigger] net.arcs[e]).to == v
                                        && admissible(net.arcs, before, e);
                                assert(net.arc_ok(e, T::max_value()));
                                assert(before[net.arcs[e].from] != 0);
                                assert(admissible(net.arcs, levels@, e));
                            }
                        }
                    }
                }
                proof {
                    bound = cur as int;
                }
                cur = edge.next_edge;
            }
            proof {
                lemma_last_from(net.arcs, now as int, bound);
                lemma_order_next(levels@, queue@, head as int);
                done = done.update(now as int, true);
            }
            head = head + 1;
        }
        proof {
            assert forall|e: int|
                0 <= e < net.m() && levels@[(#[trigger] net.arcs[e]).from] != 0 && net.arcs[e].cap
                    > 0 implies levels@[net.arcs[e].to] != 0 && levels@[net.arcs[e].to]
                <= levels@[net.arcs[e].from] + 1 by {
                assert(net.arc_ok(e, T::max_value()));
                let v = net.arcs[e].from;
                let i = choose|i: int| 0 <= i < queue@.len() && #[trigger] queue@[i] == v;
                assert(done[queue@[i] as int]);
            }
        }
        levels
    }

    /// Looks for a walk from `now` to `t` along admissible arcs and moves
    /// along it as much as every arc on it allows, and no more than `flow`
    /// where `flow` is not zero.  Returns the amount moved, which is zero
    /// where there is no such walk.
    pub(crate) fn dfs(&mut self, now: usize, t: usize, levels: &Vec<usize>, flow: T) -> (r: T)
        requires
            old(self).wf(),
            now < old(self)@.n(),
            t < old(self)@.n(),
            levels@.len() == old(self)@.n(),
            forall|v: int| 0 <= v < levels@.len() ==> (#[trigger] levels@[v]) <= levels@.len(),
            0 <= flow.value(),
        ensures
            final(self).wf(),
            final(self).labels() == old(self).labels(),
            0 <= r.value(),
            flow.value() > 0 ==> r.value() <= flow.value(),
            now == t ==> r.value() == flow.value(),
            r.value() == 0 || now == t ==> final(self)@ == old(self)@,
            r.value() == 0 && now != t ==> !level_reach(old(self)@.arcs, levels@, now as int, t as int),
            r.value() > 0 && now != t ==> old(self)@.routes(
                final(self)@,
                now as int,
                t as int,
                r.value(),
            ) && final(self)@.in_capacity(t as int) == old(self)@.in_capacity(t as int) - r.value(),
            r.value() > 0 || now == t ==> exists|p: Seq<int>| #[trigger]
                moved_by_walk(
                    old(self)@,
                    final(self)@,
                    levels@,
                    p,
                    now as int,
                    t as int,
                    flow.value(),
                    r.value(),
                ),
            forall|e: int|
                0 <= e < old(self)@.m() && (levels@[(#[trigger] old(self)@.arcs[e]).from]
                    < levels@[now as int] || levels@[old(self)@.arcs[e].to] < levels@[now as int])
                    ==> final(self)@.arcs[e] == old(self)@.arcs[e],
        decreases levels@.len() - levels@[now as int],
    {
        if now == t {
            proof {
                assert(moved_by_walk(
                    self@,
                    self@,
                    levels@,
                    Seq::<int>::empty(),
                    now as int,
                    t as int,
                    flow.value(),
                    flow.value(),
                ));
            }
            return flow;
        }
        let zero = T::zero();
        let ghost net = self@;
        let ghost limit = T::max_value();
        let mut cur: usize = self.first[now].next_edge;
        let ghost mut bound: int = net.m();
        proof {
            assert(net.head_ok(now as int));
            lemma_last_from(net.arcs, now as int, bound);
            lemma_ends_in_range(net, limit);
        }
        while cur != usize::MAX
            invariant
                self.wf(),
                self@ == net,
                net == old(self)@,
                self.labels() == old(self).labels(),
                ends_in_range(net),
                limit == T::max_value(),
                zero.value() == 0,
                now < net.n(),
                t < net.n(),
                now != t,
                levels@.len() == net.n(),
                forall|v: int| 0 <= v < levels@.len() ==> (#[trigger] levels@[v]) <= levels@.len(),
                0 <= flow.value(),
                0 <= bound <= net.m(),
                cur as int == last_from(net.arcs, now as int, bound),
                cur != usize::MAX ==> cur < bound,
                forall|e: int|
                    bound <= e < net.m() && (#[trigger] net.arcs[e]).from == now && admissible(
                        net.arcs,
                        levels@,
                        e,
                    ) ==> !level_reach(net.arcs, levels@, net.arcs[e].to, t as int),
            decreases bound,
        {
            proof {
                assert(net.arc_ok(cur as int, limit));
                assert(self.edges@[cur as int]@ == net.arcs[cur as int]);
                lemma_last_from(net.arcs, now as int, bound);
                lemma_last_from(net.arcs, now as int, cur as int);
            }
            let x = self.edges[cur].to;
            let w = self.edges[cur].weight.dup();
            let next = self.edges[cur].next_edge;
            if !w.same(&zero) && levels[x] != 0 && levels[x] - 1 == levels[now] {
                let budget = if flow.same(&zero) {
                    w
                } else if flow.less(&w) {
                    flow.dup()
                } else {
                    w
                };
                let ghost allowed = budget.value();
                let res = self.dfs(x, t, levels, budget);
                if !res.same(&zero) {
                    let ghost rest = choose|q: Seq<int>| #[trigger]
                        moved_by_walk(
                            net,
                            self@,
                            levels@,
                            q,
                            x as int,
                            t as int,
                            allowed,
                            res.value(),
                        );
                    proof {
                        lemma_walk_grown(
                            net,
                            cur as int,
                            rest,
                            flow.value(),
                            allowed,
                            res.value(),
                        );
                        lemma_route_extended(
                            net,
                            self@,
                            limit,
                            cur as int,
                            now as int,
                            x as int,
                            t as int,
                            res.value(),
                        );
                    }
                    let ghost mid = self@;
                    self.push_flow(cur, &res);
                    proof {
                        let way = seq![cur as int] + rest;
                        assert(way.drop_first() =~= rest);
                        assert(level_walk(net.arcs, levels@, way, now as int, t as int));
                        assert(moved_by_walk(
                            net,
                            self@,
                            levels@,
                            way,
                            now as int,
                            t as int,
                            flow.value(),
                            res.value(),
                        ));
                        assert forall|e: int|
                            0 <= e < net.m() && (levels@[(#[trigger] net.arcs[e]).from]
                                < levels@[now as int] || levels@[net.arcs[e].to]
                                < levels@[now as int]) implies self@.arcs[e] == net.arcs[e] by {
                            assert(mid.arcs[e] == net.arcs[e]);
                            assert(net.arc_ok(e, limit));
                        }
                    }
                    return res;
                }
            }
            proof {
                bound = cur as int;
            }
            cur = next;
        }
        proof {
            lemma_last_from(net.arcs, now as int, bound);
            assert forall|p: Seq<int>| !level_walk(net.arcs, levels@, p, now as int, t as int) by {
                if level_walk(net.arcs, levels@, p, now as int, t as int) {
                    let e = p[0];
                    assert(level_walk(net.arcs, levels@, p.drop_first(), net.arcs[e].to, t as int));
                    assert(level_reach(net.arcs, levels@, net.arcs[e].to, t as int));
                }
            }
        }
        zero
    }

    /// Routes as much as can be routed from `s` to `t`, layering by layering.
    pub(crate) fn dinic(&mut self, s: usize, t: usize) -> (r: T)
        requires
            old(self).wf(),
            s < old(self)@.n(),
            t < old(self)@.n(),
            s != t,
            old(self)@.carries_within(s as int, t as int, T::max_value() as int),
        ensures
            final(self).wf(),
            final(self).labels() == old(self).labels(),
            0 <= r.value(),
            old(self)@.routes(final(self)@, s as int, t as int, r.value()),
            final(self)@.in_capacity(t as int) == old(self)@.in_capacity(t as int) - r.value(),
            !reachable(final(self)@.arcs, s as int, t as int),
            r.value() == 0 ==> final(self)@ == old(self)@,
    {
        let mut res = T::zero();
        let zero = T::zero();
        let ghost limit = T::max_value();
        let ghost origin = self@;
        proof {
            lemma_routes_nothing(origin, limit, s as int, t as int);
        }
        loop
            invariant
                self.wf(),
                origin == old(self)@,
                limit == T::max_value(),
                origin.wf(limit),
                self.labels() == old(self).labels(),
                s < origin.n(),
                t < origin.n(),
                s != t,
                zero.value() == 0,
                0 <= res.value(),
                origin.carries_within(s as int, t as int, T::max_value() as int),
                origin.routes(self@, s as int, t as int, res.value()),
                self@.in_capacity(t as int) == origin.in_capacity(t as int) - res.value(),
                res.value() == 0 ==> self@ == origin,
            ensures
                !reachable(self@.arcs, s as int, t as int),
            decreases self@.in_capacity(t as int),
        {
            let levels = self.bfs(s);
            let ghost start = self@;
            proof {
                lemma_ends_in_range(start, limit);
                lemma_nonnegative(start, limit);
                lemma_caps_nonnegative(start.arcs, Set::empty(), t as int, start.m());
            }
            if levels[t] == 0 {
                proof {
                    let side = Set::new(|v: int| 0 <= v < start.n() && levels@[v] != 0);
                    assert(closed(start.arcs, side));
                    if reachable(start.arcs, s as int, t as int) {
                        lemma_reach_in_closed(start.arcs, side, s as int, t as int);
                    }
                }
                break ;
            }
            proof {
                assert(level_walk(start.arcs, levels@, Seq::<int>::empty(), t as int, t as int));
                lemma_layer_walk(start, limit, levels@, s as int, t as int, t as int, Seq::empty());
            }
            let ghost mut moved = false;
            loop
                invariant
                    self.wf(),
                    origin == old(self)@,
                    limit == T::max_value(),
                    origin.wf(limit),
                    self.labels() == old(self).labels(),
                    s < origin.n(),
                    t < origin.n(),
                    s != t,
                    zero.value() == 0,
                    0 <= res.value(),
                    origin.carries_within(s as int, t as int, T::max_value() as int),
                    origin.routes(self@, s as int, t as int, res.value()),
                    self@.in_capacity(t as int) == origin.in_capacity(t as int) - res.value(),
                    levels@.len() == origin.n(),
                    forall|v: int|
                        0 <= v < levels@.len() ==> (#[trigger] levels@[v]) <= levels@.len(),
                    level_reach(start.arcs, levels@, s as int, t as int),
                    !moved ==> self@ == start,
                    moved ==> self@.in_capacity(t as int) < start.in_capacity(t as int),
                    moved ==> res.value() > 0,
                    0 <= self@.in_capacity(t as int),
                ensures
                    moved,
                decreases self@.in_capacity(t as int),
            {
                let ghost before = self@;
                let temp = self.dfs(s, t, &levels, T::zero());
                if temp.same(&zero) {
                    break ;
                }
                proof {
                    lemma_routes_twice(
                        origin,
                        before,
                        self@,
                        s as int,
                        t as int,
                        res.value(),
                        temp.value(),
                    );
                    lemma_nonnegative(self@, limit);
                    lemma_caps_nonnegative(self@.arcs, Set::empty(), t as int, self@.m());
                    res.lemma_bounds();
                    moved = true;
                }
                res = res.plus(&temp);
            }
        }
        res
    }

    /// The capacity that enters `t`, if it is within the range of `T`.
    pub fn in_capacity_of(&self, t: usize) -> (r: Option<T>)
        requires
            self.wf(),
        ensures
            match r {
                Some(sum) => sum.value() == self@.in_capacity(t as int),
                None => self@.in_capacity(t as int) > T::max_value(),
            },
    {
        let ghost net = self@;
        let ghost limit = T::max_value();
        let m = self.edges.len();
        let mut sum = T::zero();
        let mut e: usize = 0;
        proof {
            lemma_nonnegative(net, limit);
        }
        while e < m
            invariant
                net == self@,
                limit == T::max_value(),
                m == net.m(),
                0 <= e <= m,
                forall|j: int| 0 <= j < net.arcs.len() ==> 0 <= (#[trigger] net.arcs[j]).cap,
                sum.value() == in_cap(net.arcs, t as int, e as int),
                0 <= sum.value(),
            decreases m - e,
        {
            let edge = &self.edges[e];
            proof {
                assert(edge@ == net.arcs[e as int]);
            }
            if edge.to == t {
                match checked_plus(&sum, &edge.weight) {
                    Some(more) => {
                        sum = more;
                    },
                    None => {
                        proof {
                            assert(in_cap(net.arcs, t as int, e + 1) == in_cap(
                                net.arcs,
                                t as int,
                                e as int,
                            ) + net.arcs[e as int].cap);
                            lemma_in_cap_grows(net.arcs, t as int, e + 1, m as int);
                            sum.lemma_bounds();
                        }
                        return None;
                    },
                }
            }
            e = e + 1;
        }
        Some(sum)
    }

    /// Whether the capacity that enters `t` is within the range of `T`.
    pub fn in_capacity_fits(&self, t: usize) -> (r: bool)
        requires
            self.wf(),
        ensures
            r == (self@.in_capacity(t as int) <= T::max_value()),
    {
        match self.in_capacity_of(t) {
            Some(sum) => {
                proof {
                    sum.lemma_bounds();
                }
                true
            },
            None => false,
        }
    }

    /// The capacity that leaves `s`, if it is within the range of `T`.
    pub fn out_capacity_of(&self, s: usize) -> (r: Option<T>)
        requires
            self.wf(),
        ensures
            match r {
                Some(sum) => sum.value() == self@.out_capacity(s as int),
                None => self@.out_capacity(s as int) > T::max_value(),
            },
    {
        let ghost net = self@;
        let m = self.edges.len();
        let mut sum = T::zero();
        let mut e: usize = 0;
        proof {
            lemma_nonnegative(net, T::max_value());
        }
        while e < m
            invariant
                net == self@,
                m == net.m(),
                0 <= e <= m,
                forall|j: int| 0 <= j < net.arcs.len() ==> 0 <= (#[trigger] net.arcs[j]).cap,
                sum.value() == out_cap(net.arcs, s as int, e as int),
            decreases m - e,
        {
            let edge = &self.edges[e];
            proof {
                assert(edge@ == net.arcs[e as int]);
            }
            if edge.from == s {
                match checked_plus(&sum, &edge.weight) {
                    Some(more) => {
                        sum = more;
                    },
                    None => {
                        proof {
                            assert(out_cap(net.arcs, s as int, e + 1) == out_cap(
                                net.arcs,
                                s as int,
                                e as int,
                            ) + net.arcs[e as int].cap);
                            lemma_out_cap_grows(net.arcs, s as int, e + 1, m as int);
                            sum.lemma_bounds();
                        }
                        return None;
                    },
                }
            }
            e = e + 1;
        }
        Some(sum)
    }

    /// Whether the capacity that leaves `s` is within the range of `T`.
    pub fn out_capacity_fits(&self, s: usize) -> (r: bool)
        requires
            self.wf(),
        ensures
            r == (self@.out_capacity(s as int) <= T::max_value()),
    {
        match self.out_capacity_of(s) {
            Some(sum) => {
                proof {
                    sum.lemma_bounds();
                }
                true
            },
            None => false,
        }
    }

    /// Routes a maximum flow from `s` to `t` and returns its value, as
    /// `get_max_flow` does, where `s` and `t` are two vertices and `t`
    /// cannot be reached from `s`, or the capacity that enters `t` or the
    /// capacity that leaves `s` is within the range of `T`; does nothing and
    /// returns nothing otherwise.
    pub fn checked_max_flow(&mut self, s: usize, t: usize) -> (r: Option<T>)
        requires
            old(self).wf(),
        ensures
            final(self).wf(),
            final(self).labels() == old(self).labels(),
            r is Some <==> s < old(self)@.n() && t < old(self)@.n() && s != t && (!reachable(
                old(self)@.arcs,
                s as int,
                t as int,
            ) || old(self)@.in_capacity(t as int) <= T::max_value() || old(self)@.out_capacity(
                s as int,
            ) <= T::max_value()),
            r is None ==> final(self)@ == old(self)@,
            r matches Some(f) ==> {
                &&& 0 <= f.value()
                &&& old(self)@.routes(final(self)@, s as int, t as int, f.value())
                &&& !reachable(final(self)@.arcs, s as int, t as int)
                &&& final(self)@.in_capacity(t as int) == old(self)@.in_capacity(t as int)
                    - f.value()
                &&& f.value() == old(self)@.cut_capacity(final(self)@.reach_set(s as int))
                &&& forall|side: Set<int>|
                    Network::separates(side, s as int, t as int) ==> f.value()
                        <= #[trigger] old(self)@.cut_capacity(side)
            },
    {
        let n = self.first.len();
        if s >= n || t >= n || s == t {
            return None;
        }
        let nothing = T::zero();
        if !self.reaches(s, t) {
            proof {
                nothing.lemma_bounds();
                lemma_carries_nothing(self@, T::max_value(), s as int, t as int, T::max_value());
            }
            return Some(self.get_max_flow(s, t));
        }
        if !self.in_capacity_fits(t) && !self.out_capacity_fits(s) {
            return None;
        }
        proof {
            lemma_carries_within(self@, T::max_value(), s as int, t as int, T::max_value());
        }
        Some(self.get_max_flow(s, t))
    }

    /// Routes a maximum flow from `s` to `t` and returns its value.
    ///
    /// The capacities that are left describe the flow: what was moved along
    /// an arc is now capacity of its mate.  The value of the flow is the
    /// capacity of the cut around the vertices that can still be reached
    /// from `s`, which no cut between `s` and `t` undercuts.  Where `t`
    /// cannot be reached from `s` at all, the value is zero and the graph is
    /// left as it was.  Whatever can be routed from `s` to `t` must be
    /// within the range of `T`, so that the value of the flow is; it is
    /// where the capacity that leaves `s` or the capacity that enters `t`
    /// is, as `lemma_carries_within` says.
    pub fn get_max_flow(&mut self, s: usize, t: usize) -> (r: T)
        requires
            old(self).wf(),
            s < old(self)@.n(),
            t < old(self)@.n(),
            s != t,
            old(self)@.carries_within(s as int, t as int, T::max_value() as int),
        ensures
            final(self).wf(),
            final(self).labels() == old(self).labels(),
            0 <= r.value(),
            old(self)@.routes(final(self)@, s as int, t as int, r.value()),
            !reachable(final(self)@.arcs, s as int, t as int),
            final(self)@.in_capacity(t as int) == old(self)@.in_capacity(t as int) - r.value(),
            r.value() == old(self)@.cut_capacity(final(self)@.reach_set(s as int)),
            forall|side: Set<int>|
                Network::separates(side, s as int, t as int) ==> r.value() <= #[trigger] old(
                    self,
                )@.cut_capacity(side),
            !reachable(old(self)@.arcs, s as int, t as int) ==> r.value() == 0,
            r.value() == 0 ==> final(self)@ == old(self)@,
    {
        let r = self.dinic(s, t);
        proof {
            let a = old(self)@;
            let b = self@;
            let limit = T::max_value();
            lemma_reach_self(b.arcs, s as int);
            lemma_max_flow_min_cut(a, b, limit, s as int, t as int, r.value(), b.reach_set(s as int));
            assert forall|side: Set<int>|
                Network::separates(side, s as int, t as int) implies r.value()
                <= #[trigger] a.cut_capacity(side) by {
                lemma_max_flow_min_cut(a, b, limit, s as int, t as int, r.value(), side);
            }
            if !reachable(a.arcs, s as int, t as int) {
                lemma_unreachable_routes_nothing(a, b, limit, s as int, t as int, r.value());
            }
        }
        r
    }
}

/// The capacity that enters a vertex over more arcs is no less, where no
/// capacity is negative.
pub proof fn lemma_in_cap_grows(arcs: Seq<Arc>, v: int, j: int, k: int)
    requires
        0 <= j <= k <= arcs.len(),
        forall|e: int| 0 <= e < arcs.len() ==> 0 <= (#[trigger] arcs[e]).cap,
    ensures
        in_cap(arcs, v, j) <= in_cap(arcs, v, k),
    decreases k - j,
{
    if j < k {
        lemma_in_cap_grows(arcs, v, j, k - 1);
    }
}

/// Counting more arcs gives no less capacity that leaves a vertex.
pub proof fn lemma_out_cap_grows(arcs: Seq<Arc>, v: int, j: int, k: int)
    requires
        0 <= j <= k <= arcs.len(),
        forall|e: int| 0 <= e < arcs.len() ==> 0 <= (#[trigger] arcs[e]).cap,
    ensures
        out_cap(arcs, v, j) <= out_cap(arcs, v, k),
    decreases k - j,
{
    if j < k {
        lemma_out_cap_grows(arcs, v, j, k - 1);
    }
}

/// In a well-formed network no capacity is negative.
pub proof fn lemma_nonnegative(net: Network, limit: int)
    requires
        net.wf(limit),
    ensures
        forall|e: int| 0 <= e < net.arcs.len() ==> 0 <= (#[trigger] net.arcs[e]).cap,
{
    assert forall|e: int| 0 <= e < net.arcs.len() implies 0 <= (#[trigger] net.arcs[e]).cap by {
        assert(net.arc_ok(e, limit));
    }
}

} // verus!
