//! Facts about adjacency chains, capacity sums, walks and cuts.
use crate::network::{
    absent, closed, cost_ceiling, cost_floor, cut_cap, drain_sum, fall_sum, flow_in, flow_out,
    from_cap, in_cap, inner_cap, last_from, least, least_on, mate, most, out_cap, price,
    reach_of, reachable, routing_cost, walk, walk_cost, Arc, Network,
};
use vstd::prelude::*;

verus! {

/// `last_from(arcs, v, k)` is the largest index below `k` of an arc leaving
/// `v`, if there is one.
pub proof fn lemma_last_from(arcs: Seq<Arc>, v: int, k: int)
    requires
        0 <= k <= arcs.len(),
        arcs.len() <= usize::MAX,
    ensures
        ({
            let r = last_from(arcs, v, k);
            if r == absent() {
                forall|j: int| 0 <= j < k ==> (#[trigger] arcs[j]).from != v
            } else {
                &&& 0 <= r < k
                &&& arcs[r].from == v
                &&& forall|j: int| r < j < k ==> (#[trigger] arcs[j]).from != v
            }
        }),
    decreases k,
{
    if k > 0 && arcs[k - 1].from != v {
        lemma_last_from(arcs, v, k - 1);
    }
}

/// `last_from` reads only the tails of the arcs below `k`.
pub proof fn lemma_last_from_same(a: Seq<Arc>, b: Seq<Arc>, v: int, k: int)
    requires
        0 <= k <= a.len(),
        k <= b.len(),
        forall|j: int| 0 <= j < k ==> (#[trigger] a[j]).from == b[j].from,
    ensures
        last_from(a, v, k) == last_from(b, v, k),
    decreases k,
{
    if k > 0 {
        assert(a[k - 1].from == b[k - 1].from);
        if a[k - 1].from != v {
            lemma_last_from_same(a, b, v, k - 1);
        }
    }
}

/// A network that differs from a well-formed one only in how the capacity
/// of each pair is divided, with no negative share, is well-formed.
pub proof fn lemma_shape_wf(a: Network, b: Network, limit: int)
    requires
        a.wf(limit),
        a.same_shape(b),
        a.same_pairs(b),
        forall|e: int| 0 <= e < b.m() ==> 0 <= (#[trigger] b.arcs[e]).cap,
    ensures
        b.wf(limit),
{
    assert forall|v: int| 0 <= v < b.n() implies #[trigger] b.head_ok(v) by {
        assert(a.head_ok(v));
        lemma_last_from_same(a.arcs, b.arcs, v, a.m());
    }
    assert forall|e: int| 0 <= e < b.m() implies #[trigger] b.arc_ok(e, limit) by {
        assert(a.arc_ok(e, limit));
        assert(0 <= mate(e) < a.m());
        assert(a.arc_ok(mate(e), limit));
        lemma_last_from_same(a.arcs, b.arcs, a.arcs[e].from, e);
        assert(b.arcs[e].from == a.arcs[e].from);
        assert(b.arcs[mate(e)].from == a.arcs[mate(e)].from);
        assert(b.arcs[e].cap + b.arcs[mate(e)].cap == a.arcs[e].cap + a.arcs[mate(e)].cap);
    }
}

/// Changing the capacity of arc `e` changes the capacity that leaves the
/// tail of `e` by as much, and no other.
pub proof fn lemma_out_cap_update(arcs: Seq<Arc>, e: int, c: int, v: int, k: int)
    requires
        0 <= e < arcs.len(),
        0 <= k <= arcs.len(),
    ensures
        out_cap(arcs.update(e, Arc { cap: c, ..arcs[e] }), v, k) == out_cap(arcs, v, k) + if e < k
            && arcs[e].from == v {
            c - arcs[e].cap
        } else {
            0
        },
    decreases k,
{
    if k > 0 {
        lemma_out_cap_update(arcs, e, c, v, k - 1);
    }
}

/// Changing the capacity of arc `e` changes the capacity that enters the
/// head of `e` by as much, and no other.
pub proof fn lemma_in_cap_update(arcs: Seq<Arc>, e: int, c: int, v: int, k: int)
    requires
        0 <= e < arcs.len(),
        0 <= k <= arcs.len(),
    ensures
        in_cap(arcs.update(e, Arc { cap: c, ..arcs[e] }), v, k) == in_cap(arcs, v, k) + if e < k
            && arcs[e].to == v {
            c - arcs[e].cap
        } else {
            0
        },
    decreases k,
{
    if k > 0 {
        lemma_in_cap_update(arcs, e, c, v, k - 1);
    }
}

/// Capacity sums over arcs without negative capacity are not negative.
pub proof fn lemma_caps_nonnegative(arcs: Seq<Arc>, side: Set<int>, v: int, k: int)
    requires
        0 <= k <= arcs.len(),
        forall|e: int| 0 <= e < arcs.len() ==> 0 <= (#[trigger] arcs[e]).cap,
    ensures
        0 <= out_cap(arcs, v, k),
        0 <= in_cap(arcs, v, k),
        0 <= cut_cap(arcs, side, k),
    decreases k,
{
    if k > 0 {
        lemma_caps_nonnegative(arcs, side, v, k - 1);
    }
}

/// A capacity sum over arcs without negative capacity is at least the
/// capacity of each arc it counts.
pub proof fn lemma_in_cap_covers(arcs: Seq<Arc>, v: int, k: int, e: int)
    requires
        0 <= e < k <= arcs.len(),
        arcs[e].to == v,
        forall|j: int| 0 <= j < arcs.len() ==> 0 <= (#[trigger] arcs[j]).cap,
    ensures
        arcs[e].cap <= in_cap(arcs, v, k),
    decreases k,
{
    if e < k - 1 {
        lemma_in_cap_covers(arcs, v, k - 1, e);
    } else {
        lemma_caps_nonnegative(arcs, Set::empty(), v, k - 1);
    }
}

/// The capacity leaving a set is the capacity that stays inside plus the
/// capacity that leads out.
pub proof fn lemma_from_split(arcs: Seq<Arc>, side: Set<int>, k: int)
    requires
        0 <= k <= arcs.len(),
    ensures
        from_cap(arcs, side, k) == inner_cap(arcs, side, k) + cut_cap(arcs, side, k),
    decreases k,
{
    if k > 0 {
        lemma_from_split(arcs, side, k - 1);
    }
}

/// The capacity leaving a set depends only on which tails it contains.
pub proof fn lemma_from_cap_agree(arcs: Seq<Arc>, x: Set<int>, y: Set<int>, k: int)
    requires
        0 <= k <= arcs.len(),
        forall|e: int| 0 <= e < k ==> x.contains((#[trigger] arcs[e]).from) == y.contains(arcs[e].from),
    ensures
        from_cap(arcs, x, k) == from_cap(arcs, y, k),
    decreases k,
{
    if k > 0 {
        assert(x.contains(arcs[k - 1].from) == y.contains(arcs[k - 1].from));
        lemma_from_cap_agree(arcs, x, y, k - 1);
    }
}

/// Adding a vertex to a set adds the capacity that leaves the vertex.
pub proof fn lemma_from_cap_insert(arcs: Seq<Arc>, side: Set<int>, x: int, k: int)
    requires
        0 <= k <= arcs.len(),
        !side.contains(x),
    ensures
        from_cap(arcs, side.insert(x), k) == from_cap(arcs, side, k) + out_cap(arcs, x, k),
    decreases k,
{
    if k > 0 {
        lemma_from_cap_insert(arcs, side, x, k - 1);
    }
}

/// The capacity that stays inside a set does not change when capacity
/// moves between the two arcs of a pair.
pub proof fn lemma_inner_kept(a: Network, b: Network, limit: int, side: Set<int>, k: int)
    requires
        a.wf(limit),
        a.same_shape(b),
        a.same_pairs(b),
        0 <= k <= a.m(),
        k % 2 == 0,
    ensures
        inner_cap(a.arcs, side, k) == inner_cap(b.arcs, side, k),
    decreases k,
{
    if k > 0 {
        lemma_inner_kept(a, b, limit, side, k - 2);
        assert(a.arc_ok(k - 2, limit));
        assert(a.arc_ok(k - 1, limit));
        assert(mate(k - 2) == k - 1);
        assert(b.arcs[k - 2].from == a.arcs[k - 2].from);
        assert(b.arcs[k - 1].from == a.arcs[k - 1].from);
        assert(b.arcs[k - 2].cap + b.arcs[mate(k - 2)].cap == a.arcs[k - 2].cap + a.arcs[mate(
            k - 2,
        )].cap);
        assert(inner_cap(a.arcs, side, k) == inner_cap(a.arcs, side, k - 1) + if side.contains(
            a.arcs[k - 1].from,
        ) && side.contains(a.arcs[k - 1].to) {
            a.arcs[k - 1].cap
        } else {
            0
        });
        assert(inner_cap(b.arcs, side, k) == inner_cap(b.arcs, side, k - 1) + if side.contains(
            b.arcs[k - 1].from,
        ) && side.contains(b.arcs[k - 1].to) {
            b.arcs[k - 1].cap
        } else {
            0
        });
    }
}

/// The members of `side` below `j`.
pub open spec fn below(side: Set<int>, j: int) -> Set<int> {
    Set::new(|v: int| v < j && side.contains(v))
}

/// Routing `f` units from `s` to `t` lowers the capacity that leaves the
/// members of `side` below `j` by `f` if `s` is among them, and not at all
/// otherwise, where `side` does not hold `t`.
pub proof fn lemma_from_cap_routed(
    a: Network,
    b: Network,
    limit: int,
    s: int,
    t: int,
    f: int,
    side: Set<int>,
    j: int,
)
    requires
        a.wf(limit),
        a.routes(b, s, t, f),
        side.contains(s),
        !side.contains(t),
        0 <= s,
        0 <= j,
    ensures
        from_cap(a.arcs, below(side, j), a.m()) - from_cap(b.arcs, below(side, j), a.m()) == if s
            < j {
            f
        } else {
            0
        },
    decreases j,
{
    let m = a.m();
    if j == 0 {
        let none = below(side, 0);
        assert forall|e: int| 0 <= e < m implies none.contains((#[trigger] a.arcs[e]).from)
            == Set::<int>::empty().contains(a.arcs[e].from) by {
            assert(a.arc_ok(e, limit));
        }
        assert forall|e: int| 0 <= e < m implies none.contains((#[trigger] b.arcs[e]).from)
            == Set::<int>::empty().contains(b.arcs[e].from) by {
            assert(a.arc_ok(e, limit));
        }
        lemma_from_cap_agree(a.arcs, none, Set::empty(), m);
        lemma_from_cap_agree(b.arcs, none, Set::empty(), m);
        lemma_from_cap_empty(a.arcs, m);
        lemma_from_cap_empty(b.arcs, m);
    } else {
        lemma_from_cap_routed(a, b, limit, s, t, f, side, j - 1);
        let prev = below(side, j - 1);
        let cur = below(side, j);
        if side.contains(j - 1) {
            assert(cur =~= prev.insert(j - 1));
            lemma_from_cap_insert(a.arcs, prev, j - 1, m);
            lemma_from_cap_insert(b.arcs, prev, j - 1, m);
            if j - 1 != s {
                assert(b.out_capacity(j - 1) == a.out_capacity(j - 1));
            }
        } else {
            assert(cur =~= prev);
        }
    }
}

/// No capacity leaves the empty set.
pub proof fn lemma_from_cap_empty(arcs: Seq<Arc>, k: int)
    requires
        0 <= k <= arcs.len(),
    ensures
        from_cap(arcs, Set::empty(), k) == 0,
    decreases k,
{
    if k > 0 {
        lemma_from_cap_empty(arcs, k - 1);
    }
}

/// The value of a flow is what it takes from the capacity of any cut:
/// routing `f` units from `s` to `t` lowers the capacity of every cut that
/// separates `s` from `t` by exactly `f`.
pub proof fn lemma_flow_across_cut(
    a: Network,
    b: Network,
    limit: int,
    s: int,
    t: int,
    f: int,
    side: Set<int>,
)
    requires
        a.wf(limit),
        a.routes(b, s, t, f),
        0 <= s < a.n(),
        Network::separates(side, s, t),
    ensures
        f == a.cut_capacity(side) - b.cut_capacity(side),
{
    let m = a.m();
    let n = a.n();
    let part = below(side, n);
    lemma_from_cap_routed(a, b, limit, s, t, f, side, n);
    assert forall|e: int| 0 <= e < m implies part.contains((#[trigger] a.arcs[e]).from)
        == side.contains(a.arcs[e].from) by {
        assert(a.arc_ok(e, limit));
    }
    assert forall|e: int| 0 <= e < m implies part.contains((#[trigger] b.arcs[e]).from)
        == side.contains(b.arcs[e].from) by {
        assert(a.arc_ok(e, limit));
    }
    lemma_from_cap_agree(a.arcs, part, side, m);
    lemma_from_cap_agree(b.arcs, part, side, m);
    lemma_from_split(a.arcs, side, m);
    lemma_from_split(b.arcs, side, m);
    lemma_inner_kept(a, b, limit, side, m);
}

/// No capacity leads out of a closed set.
pub proof fn lemma_closed_cut(arcs: Seq<Arc>, side: Set<int>, k: int)
    requires
        0 <= k <= arcs.len(),
        closed(arcs, side),
        forall|e: int| 0 <= e < arcs.len() ==> 0 <= (#[trigger] arcs[e]).cap,
    ensures
        cut_cap(arcs, side, k) == 0,
    decreases k,
{
    if k > 0 {
        lemma_closed_cut(arcs, side, k - 1);
        let a = arcs[k - 1];
        if side.contains(a.from) && a.cap > 0 {
            assert(side.contains(a.to));
        }
    }
}

/// A walk that starts in a closed set ends in it.
pub proof fn lemma_walk_closed(arcs: Seq<Arc>, side: Set<int>, p: Seq<int>, x: int, y: int)
    requires
        closed(arcs, side),
        side.contains(x),
        walk(arcs, p, x, y),
    ensures
        side.contains(y),
    decreases p.len(),
{
    if p.len() > 0 {
        assert(side.contains(arcs[p[0]].to));
        lemma_walk_closed(arcs, side, p.drop_first(), arcs[p[0]].to, y);
    }
}

/// A walk can be continued by an arc of positive capacity that leaves its end.
pub proof fn lemma_walk_extend(arcs: Seq<Arc>, p: Seq<int>, x: int, y: int, e: int)
    requires
        walk(arcs, p, x, y),
        0 <= e < arcs.len(),
        arcs[e].from == y,
        arcs[e].cap > 0,
    ensures
        walk(arcs, p.push(e), x, arcs[e].to),
    decreases p.len(),
{
    let q = p.push(e);
    if p.len() == 0 {
        assert(q.drop_first() =~= Seq::<int>::empty());
        assert(walk(arcs, q.drop_first(), arcs[e].to, arcs[e].to));
    } else {
        lemma_walk_extend(arcs, p.drop_first(), arcs[p[0]].to, y, e);
        assert(q.drop_first() =~= p.drop_first().push(e));
        assert(q[0] == p[0]);
    }
}

/// What is reachable from a reachable vertex is reachable.
pub proof fn lemma_reach_step(arcs: Seq<Arc>, s: int, e: int)
    requires
        0 <= e < arcs.len(),
        reachable(arcs, s, arcs[e].from),
        arcs[e].cap > 0,
    ensures
        reachable(arcs, s, arcs[e].to),
{
    let p = choose|p: Seq<int>| walk(arcs, p, s, arcs[e].from);
    lemma_walk_extend(arcs, p, s, arcs[e].from, e);
}

/// Every vertex is reachable from itself.
pub proof fn lemma_reach_self(arcs: Seq<Arc>, s: int)
    ensures
        reachable(arcs, s, s),
{
    assert(walk(arcs, Seq::<int>::empty(), s, s));
}

/// A closed set that holds `s` holds everything reachable from `s`.
pub proof fn lemma_reach_in_closed(arcs: Seq<Arc>, side: Set<int>, s: int, y: int)
    requires
        closed(arcs, side),
        side.contains(s),
        reachable(arcs, s, y),
    ensures
        side.contains(y),
{
    let p = choose|p: Seq<int>| walk(arcs, p, s, y);
    lemma_walk_closed(arcs, side, p, s, y);
}

/// Two networks that have the shape of a third have the same shape.
pub proof fn lemma_shape_twice(a: Network, b: Network, c: Network)
    requires
        a.same_shape(b),
        b.same_shape(c),
    ensures
        a.same_shape(c),
{
    assert forall|e: int| 0 <= e < a.m() implies (#[trigger] c.arcs[e]) == (Arc {
        cap: c.arcs[e].cap,
        ..a.arcs[e]
    }) by {
        assert(b.arcs[e].from == a.arcs[e].from);
    }
}

/// Having the same shape goes both ways.
pub proof fn lemma_shape_back(a: Network, b: Network)
    requires
        a.same_shape(b),
    ensures
        b.same_shape(a),
{
    assert forall|e: int| 0 <= e < b.m() implies (#[trigger] a.arcs[e]) == (Arc {
        cap: a.arcs[e].cap,
        ..b.arcs[e]
    }) by {
        assert(b.arcs[e].from == a.arcs[e].from);
    }
}

/// Keeping the capacity of every pair goes both ways.
pub proof fn lemma_pairs_back(a: Network, b: Network)
    requires
        a.m() == b.m(),
        a.same_pairs(b),
    ensures
        b.same_pairs(a),
{
    assert forall|e: int| 0 <= e < b.m() implies (#[trigger] a.arcs[e]).cap + a.arcs[mate(e)].cap
        == b.arcs[e].cap + b.arcs[mate(e)].cap by {
        assert(b.arcs[e].cap + b.arcs[mate(e)].cap == a.arcs[e].cap + a.arcs[mate(e)].cap);
    }
}

/// What is kept from a first network to a second and from the second to a
/// third, of the capacity of every pair, is kept from the first to the third.
pub proof fn lemma_pairs_twice(a: Network, b: Network, c: Network)
    requires
        a.m() == b.m(),
        a.same_pairs(b),
        b.same_pairs(c),
    ensures
        a.same_pairs(c),
{
    assert forall|e: int| 0 <= e < a.m() implies (#[trigger] c.arcs[e]).cap + c.arcs[mate(e)].cap
        == a.arcs[e].cap + a.arcs[mate(e)].cap by {
        assert(b.arcs[e].cap + b.arcs[mate(e)].cap == a.arcs[e].cap + a.arcs[mate(e)].cap);
    }
}

/// What no arc has gained or lost more than from a first network to a
/// second and from the second to a third adds up.
pub proof fn lemma_within_twice(a: Network, b: Network, c: Network, x: int, y: int)
    requires
        a.m() == b.m(),
        a.within(b, x),
        b.within(c, y),
    ensures
        a.within(c, x + y),
{
    assert forall|e: int| 0 <= e < a.m() implies -(x + y) <= a.arcs[e].cap - (
    #[trigger] c.arcs[e]).cap <= x + y by {
        assert(-x <= a.arcs[e].cap - b.arcs[e].cap <= x);
    }
}

/// Moving `f` units from an arc to its mate keeps the network well-formed
/// and the pairs intact, takes `f` from what leaves the tail of the arc and
/// from what enters its head, and adds `f` to what leaves its head and to
/// what enters its tail.
pub proof fn lemma_pushed(a: Network, limit: int, e: int, f: int)
    requires
        a.wf(limit),
        0 <= e < a.m(),
        0 <= f <= a.arcs[e].cap,
    ensures
        a.pushed(e, f).wf(limit),
        a.same_shape(a.pushed(e, f)),
        a.same_pairs(a.pushed(e, f)),
        forall|v: int|
            #[trigger] a.pushed(e, f).out_capacity(v) == a.out_capacity(v) - (if a.arcs[e].from
                == v {
                f
            } else {
                0
            }) + (if a.arcs[e].to == v {
                f
            } else {
                0
            }),
        forall|v: int|
            #[trigger] a.pushed(e, f).in_capacity(v) == a.in_capacity(v) - (if a.arcs[e].to == v {
                f
            } else {
                0
            }) + (if a.arcs[e].from == v {
                f
            } else {
                0
            }),
{
    let b = a.pushed(e, f);
    let x = a.arcs[e];
    let y = a.arcs[mate(e)];
    let mid = a.arcs.update(e, Arc { cap: x.cap - f, ..x });
    assert(a.arc_ok(e, limit));
    assert(0 <= mate(e) < a.m());
    assert(a.arc_ok(mate(e), limit));
    assert(mid[mate(e)] == y);
    assert(b.arcs == mid.update(mate(e), Arc { cap: y.cap + f, ..mid[mate(e)] }));
    assert(a.same_shape(b));
    assert forall|j: int| 0 <= j < a.m() implies (#[trigger] b.arcs[j]).cap + b.arcs[mate(j)].cap
        == a.arcs[j].cap + a.arcs[mate(j)].cap by {
        assert(mate(mate(j)) == j);
    }
    assert forall|j: int| 0 <= j < b.m() implies 0 <= (#[trigger] b.arcs[j]).cap by {
        assert(a.arc_ok(j, limit));
    }
    lemma_shape_wf(a, b, limit);
    assert forall|v: int|
        #[trigger] b.out_capacity(v) == a.out_capacity(v) - (if a.arcs[e].from == v {
            f
        } else {
            0
        }) + (if a.arcs[e].to == v {
            f
        } else {
            0
        }) by {
        lemma_out_cap_update(a.arcs, e, x.cap - f, v, a.m());
        lemma_out_cap_update(mid, mate(e), y.cap + f, v, a.m());
    }
    assert forall|v: int|
        #[trigger] b.in_capacity(v) == a.in_capacity(v) - (if a.arcs[e].to == v {
            f
        } else {
            0
        }) + (if a.arcs[e].from == v {
            f
        } else {
            0
        }) by {
        lemma_in_cap_update(a.arcs, e, x.cap - f, v, a.m());
        lemma_in_cap_update(mid, mate(e), y.cap + f, v, a.m());
    }
}

/// A route from `x` to `t` that is followed by moving its amount along an
/// arc from `now` to `x` is a route from `now` to `t`.
pub proof fn lemma_route_extended(
    a: Network,
    b: Network,
    limit: int,
    e: int,
    now: int,
    x: int,
    t: int,
    f: int,
)
    requires
        a.wf(limit),
        0 <= e < a.m(),
        a.arcs[e].from == now,
        a.arcs[e].to == x,
        now != t,
        now != x,
        0 < f <= a.arcs[e].cap,
        if x == t {
            b == a
        } else {
            a.routes(b, x, t, f) && b.in_capacity(t) == a.in_capacity(t) - f
        },
        b.arcs[e] == a.arcs[e],
    ensures
        a.routes(b.pushed(e, f), now, t, f),
        b.pushed(e, f).wf(limit),
        b.pushed(e, f).in_capacity(t) == a.in_capacity(t) - f,
{
    let c = b.pushed(e, f);
    if x != t {
        lemma_shape_wf(a, b, limit);
    }
    lemma_pushed(b, limit, e, f);
    assert(b.arc_ok(e, limit));
    lemma_shape_twice(a, b, c);
    lemma_pairs_twice(a, b, c);
    assert forall|j: int| 0 <= j < a.m() implies 0 <= (#[trigger] c.arcs[j]).cap by {
        assert(c.arc_ok(j, limit));
    }
    assert forall|v: int| v != now && v != t implies #[trigger] c.out_capacity(v)
        == a.out_capacity(v) by {
        if x != t {
            if v != x {
                assert(b.out_capacity(v) == a.out_capacity(v));
            }
        }
    }
    assert(c.out_capacity(now) == b.out_capacity(now) - f);
    assert(c.out_capacity(t) == b.out_capacity(t) + if x == t {
        f
    } else {
        0
    });
    if x != t {
        assert(b.out_capacity(now) == a.out_capacity(now));
    }
}

/// Routing nothing leaves a well-formed network as it is.
pub proof fn lemma_routes_nothing(a: Network, limit: int, s: int, t: int)
    requires
        a.wf(limit),
    ensures
        a.routes(a, s, t, 0),
{
    assert forall|e: int| 0 <= e < a.m() implies 0 <= (#[trigger] a.arcs[e]).cap by {
        assert(a.arc_ok(e, limit));
    }
}

/// Routing `f` units and then `g` units routes `f + g` units.
pub proof fn lemma_routes_twice(a: Network, b: Network, c: Network, s: int, t: int, f: int, g: int)
    requires
        a.routes(b, s, t, f),
        b.routes(c, s, t, g),
    ensures
        a.routes(c, s, t, f + g),
{
    lemma_shape_twice(a, b, c);
    lemma_pairs_twice(a, b, c);
    assert forall|v: int| v != s && v != t implies #[trigger] c.out_capacity(v) == a.out_capacity(
        v,
    ) by {
        assert(b.out_capacity(v) == a.out_capacity(v));
    }
}

/// The set of vertices reachable from `s` is closed.
pub proof fn lemma_reach_set_closed(a: Network, limit: int, s: int)
    requires
        a.wf(limit),
    ensures
        closed(a.arcs, a.reach_set(s)),
{
    let side = a.reach_set(s);
    assert forall|e: int|
        0 <= e < a.arcs.len() && side.contains(#[trigger] a.arcs[e].from) && a.arcs[e].cap
            > 0 implies side.contains(a.arcs[e].to) by {
        assert(a.arc_ok(e, limit));
        lemma_reach_step(a.arcs, s, e);
    }
}

/// Max-flow min-cut: when `f` units have been routed from `s` to `t` and
/// `t` can no longer be reached from `s`, then `f` is the capacity that the
/// cut around the vertices still reachable from `s` had before, and no cut
/// that separates `s` from `t` had less.
pub proof fn lemma_max_flow_min_cut(
    a: Network,
    b: Network,
    limit: int,
    s: int,
    t: int,
    f: int,
    side: Set<int>,
)
    requires
        a.wf(limit),
        a.routes(b, s, t, f),
        0 <= s < a.n(),
        0 <= t < a.n(),
        !reachable(b.arcs, s, t),
        Network::separates(side, s, t),
    ensures
        f == a.cut_capacity(b.reach_set(s)),
        f <= a.cut_capacity(side),
        Network::separates(b.reach_set(s), s, t),
{
    let best = b.reach_set(s);
    lemma_shape_wf(a, b, limit);
    lemma_reach_self(b.arcs, s);
    lemma_reach_set_closed(b, limit, s);
    lemma_flow_across_cut(a, b, limit, s, t, f, best);
    lemma_closed_cut(b.arcs, best, b.m());
    lemma_flow_across_cut(a, b, limit, s, t, f, side);
    lemma_caps_nonnegative(b.arcs, side, 0, b.m());
}

/// Where `t` cannot be reached from `s`, no routing from `s` to `t`
/// carries anything.
pub proof fn lemma_carries_nothing(a: Network, limit: int, s: int, t: int, bound: int)
    requires
        a.wf(limit),
        0 <= s < a.n(),
        0 <= t < a.n(),
        !reachable(a.arcs, s, t),
        0 <= bound,
    ensures
        a.carries_within(s, t, bound),
{
    assert forall|b: Network, f: int| #[trigger] a.routes(b, s, t, f) implies f <= bound by {
        lemma_unreachable_routes_nothing(a, b, limit, s, t, f);
    }
}

/// The cut around all vertices but `t` has no more capacity than enters `t`.
pub proof fn lemma_cut_before_sink(arcs: Seq<Arc>, t: int, k: int)
    requires
        0 <= k <= arcs.len(),
        forall|e: int| 0 <= e < arcs.len() ==> 0 <= (#[trigger] arcs[e]).cap,
    ensures
        cut_cap(arcs, Set::new(|v: int| v != t), k) <= in_cap(arcs, t, k),
    decreases k,
{
    if k > 0 {
        lemma_cut_before_sink(arcs, t, k - 1);
    }
}

/// No routing from `s` to `t` carries more than leaves `s`, nor more than
/// enters `t`.
pub proof fn lemma_carries_within(a: Network, limit: int, s: int, t: int, bound: int)
    requires
        a.wf(limit),
        0 <= s < a.n(),
        0 <= t < a.n(),
        s != t,
        a.out_capacity(s) <= bound || a.in_capacity(t) <= bound,
    ensures
        a.carries_within(s, t, bound),
{
    assert forall|b: Network, f: int| #[trigger] a.routes(b, s, t, f) implies f <= bound by {
        let side = Set::new(|v: int| v != t);
        lemma_caps_nonnegative(b.arcs, side, s, b.m());
        lemma_flow_across_cut(a, b, limit, s, t, f, side);
        assert forall|e: int| 0 <= e < a.arcs.len() implies 0 <= (#[trigger] a.arcs[e]).cap by {
            assert(a.arc_ok(e, limit));
        }
        lemma_cut_before_sink(a.arcs, t, a.m());
    }
}

/// A routing after which `t` can no longer be reached from `s` carries as
/// much as any routing from `s` to `t` in the same network can.
pub proof fn lemma_saturating_is_maximum(
    a: Network,
    b: Network,
    c: Network,
    limit: int,
    s: int,
    t: int,
    f: int,
    g: int,
)
    requires
        a.wf(limit),
        a.routes(b, s, t, f),
        0 <= s < a.n(),
        0 <= t < a.n(),
        !reachable(b.arcs, s, t),
        a.routes(c, s, t, g),
    ensures
        g <= f,
{
    let best = b.reach_set(s);
    lemma_reach_self(b.arcs, s);
    lemma_max_flow_min_cut(a, b, limit, s, t, f, best);
    lemma_flow_across_cut(a, c, limit, s, t, g, best);
    lemma_caps_nonnegative(c.arcs, best, 0, c.m());
}

/// Where `t` cannot be reached from `s`, nothing can be routed from `s` to `t`.
pub proof fn lemma_unreachable_routes_nothing(
    a: Network,
    b: Network,
    limit: int,
    s: int,
    t: int,
    f: int,
)
    requires
        a.wf(limit),
        a.routes(b, s, t, f),
        0 <= s < a.n(),
        0 <= t < a.n(),
        !reachable(a.arcs, s, t),
    ensures
        f <= 0,
{
    lemma_routes_nothing(a, limit, s, t);
    lemma_saturating_is_maximum(a, a, b, limit, s, t, 0, f);
}

/// The cost of a routing reads only capacities and the costs of the first network.
pub proof fn lemma_cost_update(a: Seq<Arc>, b: Seq<Arc>, e: int, c: int, k: int)
    requires
        0 <= e < b.len(),
        0 <= k <= b.len(),
        a.len() == b.len(),
    ensures
        routing_cost(a, b.update(e, Arc { cap: c, ..b[e] }), k) == routing_cost(a, b, k) + if e < k
            && e % 2 == 0 {
            (b[e].cap - c) * a[e].cost
        } else {
            0
        },
    decreases k,
{
    if k > 0 {
        lemma_cost_update(a, b, e, c, k - 1);
        if e == k - 1 && e % 2 == 0 {
            let after = b.update(e, Arc { cap: c, ..b[e] });
            assert((a[e].cap - after[e].cap) * a[e].cost == (a[e].cap - b[e].cap) * a[e].cost + (
            b[e].cap - c) * a[e].cost) by (nonlinear_arith)
                requires
                    after[e].cap == c,
            ;
        }
    }
}

/// Moving `f` units along a user-added arc costs `f` times its cost, and
/// moving them back along its mate returns as much.
pub proof fn lemma_cost_pushed(a: Network, b: Network, limit: int, e: int, f: int)
    requires
        a.wf(limit),
        a.same_shape(b),
        0 <= e < a.m(),
    ensures
        a.cost_to(b.pushed(e, f)) == a.cost_to(b) + if e % 2 == 0 {
            f * a.arcs[e].cost
        } else {
            -(f * a.arcs[e].cost)
        },
{
    let x = b.arcs[e];
    let y = b.arcs[mate(e)];
    let mid = b.arcs.update(e, Arc { cap: x.cap - f, ..x });
    assert(a.arc_ok(e, limit));
    assert(0 <= mate(e) < a.m());
    assert(a.arc_ok(mate(e), limit));
    assert(mid[mate(e)] == y);
    lemma_cost_update(a.arcs, b.arcs, e, x.cap - f, a.m());
    lemma_cost_update(a.arcs, mid, mate(e), y.cap + f, a.m());
    assert(b.pushed(e, f).arcs == mid.update(mate(e), Arc { cap: y.cap + f, ..mid[mate(e)] }));
    let c = a.arcs[e].cost;
    if e % 2 == 0 {
        assert((x.cap - (x.cap - f)) * c == f * c) by (nonlinear_arith);
    } else {
        assert(a.arcs[mate(e)].cost == c);
        assert((y.cap - (y.cap + f)) * c == -(f * c)) by (nonlinear_arith);
    }
}

/// Moving `f` units along the arcs that `p` lists costs `f` times what it
/// costs to move one unit along them.
pub proof fn lemma_cost_along(a: Network, b: Network, limit: int, p: Seq<int>, f: int)
    requires
        a.wf(limit),
        a.same_shape(b),
        forall|i: int| 0 <= i < p.len() ==> 0 <= #[trigger] p[i] < a.m(),
    ensures
        a.same_shape(b.moved_along(p, f)),
        a.cost_to(b.moved_along(p, f)) == a.cost_to(b) + f * walk_cost(a.arcs, p),
    decreases p.len(),
{
    if p.len() > 0 {
        let rest = p.drop_first();
        let e = p[0];
        assert forall|i: int| 0 <= i < rest.len() implies 0 <= #[trigger] rest[i] < a.m() by {
            assert(rest[i] == p[i + 1]);
        }
        lemma_cost_along(a, b, limit, rest, f);
        let mid = b.moved_along(rest, f);
        lemma_cost_pushed(a, mid, limit, e, f);
        assert(a.arc_ok(e, limit));
        assert(0 <= mate(e) < a.m());
        assert(a.same_shape(mid.pushed(e, f)));
        let one = price(a.arcs[e]);
        let more = walk_cost(a.arcs, rest);
        assert(f * (one + more) == f * one + f * more) by (nonlinear_arith);
        assert(f * (-a.arcs[e].cost) == -(f * a.arcs[e].cost)) by (nonlinear_arith);
    }
}

/// The product of `x` and `c` lies between the two extremes that `x`
/// between `-q` and `p` allows.
pub proof fn lemma_most(x: int, c: int, p: int, q: int)
    requires
        -q <= x <= p,
    ensures
        -most(-c, p, q) <= x * c <= most(c, p, q),
{
    if c >= 0 {
        assert(x * c <= p * c) by (nonlinear_arith)
            requires
                x <= p,
                c >= 0,
        ;
        assert(-(q * c) <= x * c) by (nonlinear_arith)
            requires
                -q <= x,
                c >= 0,
        ;
        if c == 0 {
            assert(p * c == 0) by (nonlinear_arith)
                requires
                    c == 0,
            ;
            assert(q * c == 0) by (nonlinear_arith)
                requires
                    c == 0,
            ;
            assert(x * c == 0) by (nonlinear_arith)
                requires
                    c == 0,
            ;
            assert(q * (-c) == 0) by (nonlinear_arith)
                requires
                    c == 0,
            ;
        } else {
            assert(q * (-(-c)) == q * c);
        }
    } else {
        assert(x * c <= q * (-c)) by (nonlinear_arith)
            requires
                -q <= x,
                c < 0,
        ;
        assert(-(p * (-c)) <= x * c) by (nonlinear_arith)
            requires
                x <= p,
                c < 0,
        ;
    }
}

/// A routing that moves at most `bound` units along any arc costs no less
/// than the floor and no more than the ceiling of its network.
pub proof fn lemma_cost_within(a: Network, b: Network, limit: int, bound: int, k: int)
    requires
        a.wf(limit),
        a.same_shape(b),
        a.same_pairs(b),
        forall|e: int| 0 <= e < b.m() ==> 0 <= (#[trigger] b.arcs[e]).cap,
        a.within(b, bound),
        0 <= k <= a.m(),
        k % 2 == 0,
    ensures
        cost_floor(a.arcs, bound, k) <= routing_cost(a.arcs, b.arcs, k) <= cost_ceiling(
            a.arcs,
            bound,
            k,
        ),
    decreases k,
{
    if k > 0 {
        lemma_cost_within(a, b, limit, bound, k - 2);
        let e = k - 2;
        assert(a.arc_ok(e, limit));
        assert(a.arc_ok(e + 1, limit));
        assert(mate(e) == e + 1);
        let x = a.arcs[e].cap - b.arcs[e].cap;
        assert(0 <= b.arcs[e].cap);
        assert(0 <= b.arcs[e + 1].cap);
        assert(b.arcs[e].cap + b.arcs[mate(e)].cap == a.arcs[e].cap + a.arcs[mate(e)].cap);
        lemma_most(
            x,
            a.arcs[e].cost,
            least(a.arcs[e].cap, bound),
            least(a.arcs[e + 1].cap, bound),
        );
        assert(routing_cost(a.arcs, b.arcs, k) == routing_cost(a.arcs, b.arcs, k - 1));
        assert(cost_ceiling(a.arcs, bound, k) == cost_ceiling(a.arcs, bound, k - 1));
        assert(cost_floor(a.arcs, bound, k) == cost_floor(a.arcs, bound, k - 1));
    }
}

/// Routing nothing costs nothing.
pub proof fn lemma_cost_nothing(a: Seq<Arc>, k: int)
    requires
        0 <= k <= a.len(),
    ensures
        routing_cost(a, a, k) == 0,
    decreases k,
{
    if k > 0 {
        lemma_cost_nothing(a, k - 1);
    }
}

/// A walk that ends in a set that no arc of positive capacity enters from
/// outside starts in it.
pub proof fn lemma_walk_into(arcs: Seq<Arc>, side: Set<int>, p: Seq<int>, x: int, y: int)
    requires
        forall|e: int|
            0 <= e < arcs.len() && side.contains(#[trigger] arcs[e].to) && arcs[e].cap > 0
                ==> side.contains(arcs[e].from),
        side.contains(y),
        walk(arcs, p, x, y),
    ensures
        side.contains(x),
    decreases p.len(),
{
    if p.len() > 0 {
        lemma_walk_into(arcs, side, p.drop_first(), arcs[p[0]].to, y);
    }
}

/// What the capacity that leaves `v` has lost is the flow that leaves `v`
/// less the flow that enters it.
pub proof fn lemma_net_flow(a: Network, b: Network, limit: int, v: int, k: int)
    requires
        a.wf(limit),
        a.same_shape(b),
        a.same_pairs(b),
        0 <= k <= a.m(),
        k % 2 == 0,
    ensures
        out_cap(a.arcs, v, k) - out_cap(b.arcs, v, k) == flow_out(a.arcs, b.arcs, v, k) - flow_in(
            a.arcs,
            b.arcs,
            v,
            k,
        ),
    decreases k,
{
    if k > 0 {
        lemma_net_flow(a, b, limit, v, k - 2);
        let e = k - 2;
        assert(a.arc_ok(e, limit));
        assert(a.arc_ok(e + 1, limit));
        assert(mate(e) == e + 1);
        let x = b.arcs[e];
        let y = b.arcs[e + 1];
        assert(x.cap + b.arcs[mate(e)].cap == a.arcs[e].cap + a.arcs[mate(e)].cap);
        assert(out_cap(a.arcs, v, k) == out_cap(a.arcs, v, k - 1) + if a.arcs[k - 1].from == v {
            a.arcs[k - 1].cap
        } else {
            0
        });
        assert(out_cap(b.arcs, v, k) == out_cap(b.arcs, v, k - 1) + if b.arcs[k - 1].from == v {
            b.arcs[k - 1].cap
        } else {
            0
        });
        assert(flow_out(a.arcs, b.arcs, v, k) == flow_out(a.arcs, b.arcs, v, k - 1));
        assert(flow_in(a.arcs, b.arcs, v, k) == flow_in(a.arcs, b.arcs, v, k - 1));
    }
}

/// Flow conservation: after `f` units have been routed from `s` to `t`, as
/// much flow enters any other vertex as leaves it, `f` more leaves `s` than
/// enters it, and `f` more enters `t` than leaves it.
pub proof fn lemma_flow_conservation(
    a: Network,
    b: Network,
    limit: int,
    s: int,
    t: int,
    f: int,
    v: int,
)
    requires
        a.wf(limit),
        a.routes(b, s, t, f),
        s != t,
    ensures
        v != s && v != t ==> flow_in(a.arcs, b.arcs, v, a.m()) == flow_out(
            a.arcs,
            b.arcs,
            v,
            a.m(),
        ),
        flow_out(a.arcs, b.arcs, s, a.m()) - flow_in(a.arcs, b.arcs, s, a.m()) == f,
        flow_in(a.arcs, b.arcs, t, a.m()) - flow_out(a.arcs, b.arcs, t, a.m()) == f,
{
    lemma_net_flow(a, b, limit, v, a.m());
    lemma_net_flow(a, b, limit, s, a.m());
    lemma_net_flow(a, b, limit, t, a.m());
    if v != s && v != t {
        assert(b.out_capacity(v) == a.out_capacity(v));
    }
}

/// Capacity respect: after a routing no arc has negative capacity, every
/// pair of arcs has its capacity of before, and so no user-added arc carries
/// more than the pair could hold.
pub proof fn lemma_capacity_respected(
    a: Network,
    b: Network,
    limit: int,
    s: int,
    t: int,
    f: int,
    e: int,
)
    requires
        a.wf(limit),
        a.routes(b, s, t, f),
        0 <= e < a.m(),
    ensures
        0 <= b.arcs[e].cap,
        b.arcs[e].cap + b.arcs[mate(e)].cap == a.arcs[e].cap + a.arcs[mate(e)].cap,
        -a.arcs[mate(e)].cap <= a.arcs[e].cap - b.arcs[e].cap <= a.arcs[e].cap,
{
    assert(a.arc_ok(e, limit));
    assert(0 <= mate(e) < a.m());
    assert(0 <= b.arcs[mate(e)].cap);
}

/// Two routings from `s` to `t` in the same network, after each of which
/// `t` can no longer be reached from `s`, carry the same amount.
pub proof fn lemma_maximum_is_unique(
    a: Network,
    b: Network,
    c: Network,
    limit: int,
    s: int,
    t: int,
    f: int,
    g: int,
)
    requires
        a.wf(limit),
        0 <= s < a.n(),
        0 <= t < a.n(),
        a.routes(b, s, t, f),
        !reachable(b.arcs, s, t),
        a.routes(c, s, t, g),
        !reachable(c.arcs, s, t),
    ensures
        f == g,
{
    lemma_saturating_is_maximum(a, b, c, limit, s, t, f, g);
    lemma_saturating_is_maximum(a, c, b, limit, s, t, g, f);
}

/// One more arc adds to the drain sum what it adds to the fall sum, as far
/// as its ends are below `j`.
pub proof fn lemma_drain_step(b: Seq<Arc>, c: Seq<Arc>, phi: Seq<int>, j: int, k: int)
    requires
        0 <= j,
        0 <= k < b.len(),
        b.len() == c.len(),
    ensures
        drain_sum(b, c, phi, j, k + 1) == drain_sum(b, c, phi, j, k) + if k % 2 == 0 {
            (b[k].cap - c[k].cap) * ((if 0 <= b[k].from < j {
                phi[b[k].from]
            } else {
                0
            }) - (if 0 <= b[k].to < j {
                phi[b[k].to]
            } else {
                0
            }))
        } else {
            0
        },
    decreases j,
{
    if j > 0 {
        lemma_drain_step(b, c, phi, j - 1, k);
        let v = j - 1;
        let x = b[k].cap - c[k].cap;
        let p = phi[v];
        let d0 = flow_out(b, c, v, k) - flow_in(b, c, v, k);
        let d1 = flow_out(b, c, v, k + 1) - flow_in(b, c, v, k + 1);
        let out = if k % 2 == 0 && b[k].from == v {
            x
        } else {
            0
        };
        let inn = if k % 2 == 0 && b[k].to == v {
            x
        } else {
            0
        };
        assert(d1 == d0 + out - inn);
        assert(p * d1 == p * d0 + p * out - p * inn) by (nonlinear_arith)
            requires
                d1 == d0 + out - inn,
        ;
        if k % 2 == 0 {
            let before = (if 0 <= b[k].from < j - 1 {
                phi[b[k].from]
            } else {
                0
            }) - (if 0 <= b[k].to < j - 1 {
                phi[b[k].to]
            } else {
                0
            });
            let after = (if 0 <= b[k].from < j {
                phi[b[k].from]
            } else {
                0
            }) - (if 0 <= b[k].to < j {
                phi[b[k].to]
            } else {
                0
            });
            let pf = if b[k].from == v {
                p
            } else {
                0
            };
            let pt = if b[k].to == v {
                p
            } else {
                0
            };
            assert(after == before + pf - pt);
            assert(x * after == x * before + x * pf - x * pt) by (nonlinear_arith)
                requires
                    after == before + pf - pt,
            ;
            assert(p * out == x * pf) by (nonlinear_arith)
                requires
                    out == (if b[k].from == v {
                        x
                    } else {
                        0
                    }),
                    pf == (if b[k].from == v {
                        p
                    } else {
                        0
                    }),
            ;
            assert(p * inn == x * pt) by (nonlinear_arith)
                requires
                    inn == (if b[k].to == v {
                        x
                    } else {
                        0
                    }),
                    pt == (if b[k].to == v {
                        p
                    } else {
                        0
                    }),
            ;
        } else {
            assert(p * out == 0) by (nonlinear_arith)
                requires
                    out == 0,
            ;
            assert(p * inn == 0) by (nonlinear_arith)
                requires
                    inn == 0,
            ;
        }
    } else if k % 2 == 0 {
        let x = b[k].cap - c[k].cap;
        assert(x * (0 - 0) == 0) by (nonlinear_arith);
    }
}

/// Summed over the arcs or over the vertices, the fall of the prices along
/// what has been moved is the same.
pub proof fn lemma_fall_is_drain(b: Network, c: Network, limit: int, phi: Seq<int>, k: int)
    requires
        b.wf(limit),
        b.same_shape(c),
        0 <= k <= b.m(),
    ensures
        fall_sum(b.arcs, c.arcs, phi, k) == drain_sum(b.arcs, c.arcs, phi, b.n(), k),
    decreases k,
{
    if k > 0 {
        lemma_fall_is_drain(b, c, limit, phi, k - 1);
        lemma_drain_step(b.arcs, c.arcs, phi, b.n(), k - 1);
        assert(b.arc_ok(k - 1, limit));
    } else {
        lemma_drain_nothing(b.arcs, c.arcs, phi, b.n());
    }
}

/// Over no arcs nothing drains.
pub proof fn lemma_drain_nothing(b: Seq<Arc>, c: Seq<Arc>, phi: Seq<int>, j: int)
    requires
        0 <= j,
    ensures
        drain_sum(b, c, phi, j, 0) == 0,
    decreases j,
{
    if j > 0 {
        lemma_drain_nothing(b, c, phi, j - 1);
        assert(phi[j - 1] * (flow_out(b, c, j - 1, 0) - flow_in(b, c, j - 1, 0)) == 0)
            by (nonlinear_arith)
            requires
                flow_out(b, c, j - 1, 0) - flow_in(b, c, j - 1, 0) == 0,
        ;
    }
}

/// Where as much enters every vertex as leaves it, nothing drains.
pub proof fn lemma_drain_balanced(b: Seq<Arc>, c: Seq<Arc>, phi: Seq<int>, j: int, k: int)
    requires
        0 <= j,
        forall|v: int| 0 <= v < j ==> flow_out(b, c, v, k) == #[trigger] flow_in(b, c, v, k),
    ensures
        drain_sum(b, c, phi, j, k) == 0,
    decreases j,
{
    if j > 0 {
        lemma_drain_balanced(b, c, phi, j - 1, k);
        assert(flow_out(b, c, j - 1, k) == flow_in(b, c, j - 1, k));
        assert(phi[j - 1] * (flow_out(b, c, j - 1, k) - flow_in(b, c, j - 1, k)) == 0)
            by (nonlinear_arith)
            requires
                flow_out(b, c, j - 1, k) - flow_in(b, c, j - 1, k) == 0,
        ;
    }
}

/// Against prices that a network admits, getting from it to another
/// division of the capacities of its pairs costs at least as much as the
/// prices fall along what is moved.
pub proof fn lemma_cost_above_fall(
    a: Network,
    b: Network,
    c: Network,
    limit: int,
    phi: Seq<int>,
    k: int,
)
    requires
        a.wf(limit),
        a.same_shape(b),
        a.same_pairs(b),
        a.same_shape(c),
        a.same_pairs(c),
        forall|e: int| 0 <= e < c.m() ==> 0 <= (#[trigger] c.arcs[e]).cap,
        forall|e: int| 0 <= e < b.m() ==> 0 <= (#[trigger] b.arcs[e]).cap,
        b.admits(phi),
        0 <= k <= a.m(),
        k % 2 == 0,
    ensures
        routing_cost(a.arcs, c.arcs, k) - routing_cost(a.arcs, b.arcs, k) >= fall_sum(
            b.arcs,
            c.arcs,
            phi,
            k,
        ),
    decreases k,
{
    if k > 0 {
        lemma_cost_above_fall(a, b, c, limit, phi, k - 2);
        lemma_shape_wf(a, b, limit);
        let e = k - 2;
        assert(a.arc_ok(e, limit));
        assert(b.arc_ok(e, limit));
        assert(b.arc_ok(e + 1, limit));
        assert(mate(e) == e + 1);
        let ae = a.arcs[e];
        let be = b.arcs[e];
        let bm = b.arcs[e + 1];
        let ce = c.arcs[e];
        assert(0 <= c.arcs[e + 1].cap);
        assert(be.cap + b.arcs[mate(e)].cap == ae.cap + a.arcs[mate(e)].cap);
        assert(ce.cap + c.arcs[mate(e)].cap == ae.cap + a.arcs[mate(e)].cap);
        let x = be.cap - ce.cap;
        let cost = ae.cost;
        let fall = phi[be.from] - phi[be.to];
        // the reduced cost of the arc has the sign of what is moved along it
        assert(x * (cost - fall) >= 0) by {
            if x > 0 {
                assert(be.cap > 0);
                assert(price(be) + phi[be.to] - phi[be.from] >= 0);
                assert(x * (cost - fall) >= 0) by (nonlinear_arith)
                    requires
                        x > 0,
                        cost - fall >= 0,
                ;
            } else if x < 0 {
                assert(bm.cap > 0);
                assert(price(bm) + phi[bm.to] - phi[bm.from] >= 0);
                assert(x * (cost - fall) >= 0) by (nonlinear_arith)
                    requires
                        x < 0,
                        cost - fall <= 0,
                ;
            } else {
                assert(x * (cost - fall) == 0) by (nonlinear_arith)
                    requires
                        x == 0,
                ;
            }
        }
        assert((ae.cap - ce.cap) * cost - (ae.cap - be.cap) * cost == x * cost)
            by (nonlinear_arith)
            requires
                x == be.cap - ce.cap,
        ;
        assert(x * (cost - fall) == x * cost - x * fall) by (nonlinear_arith);
        assert(routing_cost(a.arcs, c.arcs, k) == routing_cost(a.arcs, c.arcs, k - 1));
        assert(routing_cost(a.arcs, b.arcs, k) == routing_cost(a.arcs, b.arcs, k - 1));
        assert(fall_sum(b.arcs, c.arcs, phi, k) == fall_sum(b.arcs, c.arcs, phi, k - 1));
    }
}

/// Min-cost optimality: of all the ways to route `f` units from `s` to `t`,
/// one that leaves a network without a cycle of negative cost, which is
/// one that admits prices, costs the least.
pub proof fn lemma_cheapest(
    a: Network,
    b: Network,
    c: Network,
    limit: int,
    s: int,
    t: int,
    f: int,
    phi: Seq<int>,
)
    requires
        a.wf(limit),
        a.routes(b, s, t, f),
        a.routes(c, s, t, f),
        b.admits(phi),
    ensures
        a.cost_to(b) <= a.cost_to(c),
{
    let m = a.m();
    lemma_shape_wf(a, b, limit);
    lemma_cost_above_fall(a, b, c, limit, phi, m);
    lemma_shape_back(a, b);
    lemma_shape_twice(b, a, c);
    lemma_pairs_back(a, b);
    lemma_pairs_twice(b, a, c);
    lemma_fall_is_drain(b, c, limit, phi, m);
    assert forall|v: int| 0 <= v < b.n() implies flow_out(b.arcs, c.arcs, v, m)
        == #[trigger] flow_in(b.arcs, c.arcs, v, m) by {
        lemma_net_flow(b, c, limit, v, m);
        assert(b.out_capacity(v) == c.out_capacity(v)) by {
            if v != s && v != t {
                assert(b.out_capacity(v) == a.out_capacity(v));
                assert(c.out_capacity(v) == a.out_capacity(v));
            }
        }
    }
    lemma_drain_balanced(b.arcs, c.arcs, phi, b.n(), m);
}

/// A search that finds the capacity `w` on arc `e` hands on as its
/// budget `w`, or `flow` where that is less and not zero; what the rest of
/// the walk yields with that budget is what the walk with `e` before it
/// yields with `flow`, and moving it along the rest and then along `e` is
/// moving it along the walk.
pub proof fn lemma_walk_grown(net: Network, e: int, q: Seq<int>, flow: int, budget: int, f: int)
    requires
        0 <= flow,
        0 < net.arcs[e].cap,
        budget == if flow == 0 || net.arcs[e].cap <= flow {
            net.arcs[e].cap
        } else {
            flow
        },
        f == reach_of(net.arcs, q, budget),
    ensures
        f == reach_of(net.arcs, seq![e] + q, flow),
        net.moved_along(seq![e] + q, f) == net.moved_along(q, f).pushed(e, f),
{
    let p = seq![e] + q;
    assert(p.drop_first() =~= q);
    assert(p[0] == e);
}

} // verus!
