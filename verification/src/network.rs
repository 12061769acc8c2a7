//! The mathematical model of a residual network, and the facts about flows
//! and cuts that the engines rest on.
use vstd::prelude::*;

pub mod laws;
pub mod walks;

verus! {

/// A residual arc as the contracts see it.
pub struct Arc {
    /// Tail vertex.
    pub from: int,
    /// Head vertex.
    pub to: int,
    /// Index of the next arc with the same tail, or `absent()`.
    pub next: int,
    /// Index of the arc that is this arc's residual inverse.
    pub opp: int,
    /// Remaining residual capacity.
    pub cap: int,
    /// Cost per unit of flow on the user-added arc of the pair.
    pub cost: int,
    /// Whether this arc is the synthetic inverse of a user-added arc.
    pub reversed: bool,
}

/// The link value that marks the end of an adjacency chain.
pub open spec fn absent() -> int {
    usize::MAX as int
}

/// The arc stored beside arc `e`: arcs are stored in pairs `(2k, 2k + 1)`.
pub open spec fn mate(e: int) -> int {
    if e % 2 == 0 {
        e + 1
    } else {
        e - 1
    }
}

/// The largest index below `k` of an arc that leaves `v`, or `absent()`.
pub open spec fn last_from(arcs: Seq<Arc>, v: int, k: int) -> int
    decreases k,
{
    if k <= 0 {
        absent()
    } else if arcs[k - 1].from == v {
        k - 1
    } else {
        last_from(arcs, v, k - 1)
    }
}

/// Total residual capacity of the arcs below `k` that leave `v`.
pub open spec fn out_cap(arcs: Seq<Arc>, v: int, k: int) -> int
    decreases k,
{
    if k <= 0 {
        0
    } else {
        out_cap(arcs, v, k - 1) + if arcs[k - 1].from == v {
            arcs[k - 1].cap
        } else {
            0
        }
    }
}

/// Total residual capacity of the arcs below `k` that enter `v`.
pub open spec fn in_cap(arcs: Seq<Arc>, v: int, k: int) -> int
    decreases k,
{
    if k <= 0 {
        0
    } else {
        in_cap(arcs, v, k - 1) + if arcs[k - 1].to == v {
            arcs[k - 1].cap
        } else {
            0
        }
    }
}

/// Total residual capacity of the arcs below `k` whose tail lies in `side`.
pub open spec fn from_cap(arcs: Seq<Arc>, side: Set<int>, k: int) -> int
    decreases k,
{
    if k <= 0 {
        0
    } else {
        from_cap(arcs, side, k - 1) + if side.contains(arcs[k - 1].from) {
            arcs[k - 1].cap
        } else {
            0
        }
    }
}

/// Total residual capacity of the arcs below `k` that lead out of `side`.
pub open spec fn cut_cap(arcs: Seq<Arc>, side: Set<int>, k: int) -> int
    decreases k,
{
    if k <= 0 {
        0
    } else {
        cut_cap(arcs, side, k - 1) + if side.contains(arcs[k - 1].from) && !side.contains(
            arcs[k - 1].to,
        ) {
            arcs[k - 1].cap
        } else {
            0
        }
    }
}

/// Total residual capacity of the arcs below `k` that stay inside `side`.
pub open spec fn inner_cap(arcs: Seq<Arc>, side: Set<int>, k: int) -> int
    decreases k,
{
    if k <= 0 {
        0
    } else {
        inner_cap(arcs, side, k - 1) + if side.contains(arcs[k - 1].from) && side.contains(
            arcs[k - 1].to,
        ) {
            arcs[k - 1].cap
        } else {
            0
        }
    }
}

/// The flow that leaves `v` on the way from the capacities of `a` to those
/// of `b`: what the user-added arcs below `k` with tail `v` have lost.
pub open spec fn flow_out(a: Seq<Arc>, b: Seq<Arc>, v: int, k: int) -> int
    decreases k,
{
    if k <= 0 {
        0
    } else {
        flow_out(a, b, v, k - 1) + if (k - 1) % 2 == 0 && a[k - 1].from == v {
            a[k - 1].cap - b[k - 1].cap
        } else {
            0
        }
    }
}

/// The flow that enters `v` on the way from the capacities of `a` to those
/// of `b`: what the user-added arcs below `k` with head `v` have lost.
pub open spec fn flow_in(a: Seq<Arc>, b: Seq<Arc>, v: int, k: int) -> int
    decreases k,
{
    if k <= 0 {
        0
    } else {
        flow_in(a, b, v, k - 1) + if (k - 1) % 2 == 0 && a[k - 1].to == v {
            a[k - 1].cap - b[k - 1].cap
        } else {
            0
        }
    }
}

/// What it has cost to get from the capacities of `a` to those of `b`: for
/// every user-added arc below `k`, the capacity that it has lost times its cost.
pub open spec fn routing_cost(a: Seq<Arc>, b: Seq<Arc>, k: int) -> int
    decreases k,
{
    if k <= 0 {
        0
    } else {
        routing_cost(a, b, k - 1) + if (k - 1) % 2 == 0 {
            (a[k - 1].cap - b[k - 1].cap) * a[k - 1].cost
        } else {
            0
        }
    }
}

/// The largest value of `x * c` for `x` between `-q` and `p`.
pub open spec fn most(c: int, p: int, q: int) -> int {
    if c >= 0 {
        p * c
    } else {
        q * (-c)
    }
}

/// The smaller of two integers.
pub open spec fn least(x: int, y: int) -> int {
    if x <= y {
        x
    } else {
        y
    }
}

/// An upper bound of what a routing can cost that moves at most `bound`
/// units along any arc: every user-added arc below `k` at its dearest.
pub open spec fn cost_ceiling(a: Seq<Arc>, bound: int, k: int) -> int
    decreases k,
{
    if k <= 0 {
        0
    } else {
        cost_ceiling(a, bound, k - 1) + if (k - 1) % 2 == 0 {
            most(a[k - 1].cost, least(a[k - 1].cap, bound), least(a[k].cap, bound))
        } else {
            0
        }
    }
}

/// A lower bound of what a routing can cost that moves at most `bound`
/// units along any arc: every user-added arc below `k` at its cheapest.
pub open spec fn cost_floor(a: Seq<Arc>, bound: int, k: int) -> int
    decreases k,
{
    if k <= 0 {
        0
    } else {
        cost_floor(a, bound, k - 1) - if (k - 1) % 2 == 0 {
            most(-a[k - 1].cost, least(a[k - 1].cap, bound), least(a[k].cap, bound))
        } else {
            0
        }
    }
}

/// What it costs to move one unit along an arc: the cost of a user-added
/// arc, and what moving along its mate returns.
pub open spec fn price(a: Arc) -> int {
    if a.reversed {
        -a.cost
    } else {
        a.cost
    }
}

/// What it costs to move one unit along the arcs that `p` lists.
pub open spec fn walk_cost(arcs: Seq<Arc>, p: Seq<int>) -> int
    decreases p.len(),
{
    if p.len() == 0 {
        0
    } else {
        price(arcs[p[0]]) + walk_cost(arcs, p.drop_first())
    }
}

/// The sum, over the user-added arcs below `k`, of the capacity that the
/// arc has lost from `b` to `c` times the fall of `phi` along it.
pub open spec fn fall_sum(b: Seq<Arc>, c: Seq<Arc>, phi: Seq<int>, k: int) -> int
    decreases k,
{
    if k <= 0 {
        0
    } else {
        fall_sum(b, c, phi, k - 1) + if (k - 1) % 2 == 0 {
            (b[k - 1].cap - c[k - 1].cap) * (phi[b[k - 1].from] - phi[b[k - 1].to])
        } else {
            0
        }
    }
}

/// The sum, over the vertices below `j`, of `phi` at the vertex times the
/// flow that leaves it less the flow that enters it, from `b` to `c` over
/// the arcs below `k`.
pub open spec fn drain_sum(b: Seq<Arc>, c: Seq<Arc>, phi: Seq<int>, j: int, k: int) -> int
    decreases j,
{
    if j <= 0 {
        0
    } else {
        drain_sum(b, c, phi, j - 1, k) + phi[j - 1] * (flow_out(b, c, j - 1, k) - flow_in(
            b,
            c,
            j - 1,
            k,
        ))
    }
}

/// The least capacity of the arcs that `p` lists, of which there is one at least.
pub open spec fn least_on(arcs: Seq<Arc>, p: Seq<int>) -> int
    decreases p.len(),
{
    if p.len() == 0 {
        0
    } else if p.len() == 1 {
        arcs[p[0]].cap
    } else {
        least(arcs[p[0]].cap, least_on(arcs, p.drop_first()))
    }
}

/// What a search moves along the arcs that `p` lists when it may move no
/// more than `flow`, or as much as it can where `flow` is zero: the least
/// capacity of the arcs, or `flow` where that is less; and `flow` itself
/// where `p` lists no arc.
pub open spec fn reach_of(arcs: Seq<Arc>, p: Seq<int>, flow: int) -> int {
    if p.len() == 0 {
        flow
    } else if 0 < flow < least_on(arcs, p) {
        flow
    } else {
        least_on(arcs, p)
    }
}

/// Whether `p` lists the arcs of a walk from `x` to `y` along arcs of
/// positive residual capacity.
pub open spec fn walk(arcs: Seq<Arc>, p: Seq<int>, x: int, y: int) -> bool
    decreases p.len(),
{
    if p.len() == 0 {
        x == y
    } else {
        &&& 0 <= p[0] < arcs.len()
        &&& arcs[p[0]].from == x
        &&& arcs[p[0]].cap > 0
        &&& walk(arcs, p.drop_first(), arcs[p[0]].to, y)
    }
}

/// Whether `y` can be reached from `x` along arcs of positive residual capacity.
pub open spec fn reachable(arcs: Seq<Arc>, x: int, y: int) -> bool {
    exists|p: Seq<int>| walk(arcs, p, x, y)
}

/// Whether no arc of positive residual capacity leads out of `side`.
pub open spec fn closed(arcs: Seq<Arc>, side: Set<int>) -> bool {
    forall|e: int|
        0 <= e < arcs.len() && side.contains(#[trigger] arcs[e].from) && arcs[e].cap > 0
            ==> side.contains(arcs[e].to)
}

/// A residual network: one synthetic head arc per vertex and the stored arcs.
pub struct Network {
    /// The adjacency head of each vertex.
    pub heads: Seq<Arc>,
    /// The stored arcs, in insertion order.
    pub arcs: Seq<Arc>,
}

impl Network {
    /// Number of vertices.
    pub open spec fn n(self) -> int {
        self.heads.len() as int
    }

    /// Number of stored arcs.
    pub open spec fn m(self) -> int {
        self.arcs.len() as int
    }

    /// What the head arc of vertex `v` must be.
    pub open spec fn head_ok(self, v: int) -> bool {
        self.heads[v] == (Arc {
            from: v,
            to: v,
            next: last_from(self.arcs, v, self.m()),
            opp: absent(),
            cap: 0,
            cost: 0,
            reversed: false,
        })
    }

    /// What must hold of the stored arc `e`, with `limit` the largest
    /// capacity that the store can hold.
    pub open spec fn arc_ok(self, e: int, limit: int) -> bool {
        let a = self.arcs[e];
        let b = self.arcs[mate(e)];
        &&& 0 <= a.from < self.n()
        &&& 0 <= a.to < self.n()
        &&& a.opp == mate(e)
        &&& a.next == last_from(self.arcs, a.from, e)
        &&& a.reversed == (e % 2 == 1)
        &&& b.from == a.to
        &&& b.to == a.from
        &&& b.cost == a.cost
        &&& 0 <= a.cap
        &&& a.cap + b.cap <= limit
    }

    /// Well-formedness: arcs come in residual pairs, every adjacency chain
    /// lists exactly the arcs that leave its vertex, newest first, and every
    /// capacity is non-negative with the capacity of a pair within `limit`.
    pub open spec fn wf(self, limit: int) -> bool {
        &&& self.m() % 2 == 0
        &&& self.m() <= absent()
        &&& forall|v: int| 0 <= v < self.n() ==> #[trigger] self.head_ok(v)
        &&& forall|e: int| 0 <= e < self.m() ==> #[trigger] self.arc_ok(e, limit)
    }

    /// The arcs after a user-added arc from `from` to `to` with capacity
    /// `cap` and cost `cost` has been stored with its residual inverse.
    pub open spec fn added(self, from: int, to: int, cap: int, cost: int) -> Seq<Arc> {
        self.arcs.push(
            Arc {
                from,
                to,
                next: last_from(self.arcs, from, self.m()),
                opp: self.m() + 1,
                cap,
                cost,
                reversed: false,
            },
        ).push(
            Arc {
                from: to,
                to: from,
                next: if to == from {
                    self.m()
                } else {
                    last_from(self.arcs, to, self.m())
                },
                opp: self.m(),
                cap: 0,
                cost,
                reversed: true,
            },
        )
    }

    /// The network after `f` units have been moved from arc `e` to its mate.
    pub open spec fn pushed(self, e: int, f: int) -> Network {
        let a = self.arcs[e];
        let b = self.arcs[mate(e)];
        Network {
            heads: self.heads,
            arcs: self.arcs.update(e, Arc { cap: a.cap - f, ..a }).update(
                mate(e),
                Arc { cap: b.cap + f, ..b },
            ),
        }
    }

    /// The network after `f` units have been moved along each of the arcs
    /// that `p` lists, the last of them first.
    pub open spec fn moved_along(self, p: Seq<int>, f: int) -> Network
        decreases p.len(),
    {
        if p.len() == 0 {
            self
        } else {
            self.moved_along(p.drop_first(), f).pushed(p[0], f)
        }
    }

    /// Total residual capacity leaving `v`.
    pub open spec fn out_capacity(self, v: int) -> int {
        out_cap(self.arcs, v, self.m())
    }

    /// Total residual capacity entering `v`.
    pub open spec fn in_capacity(self, v: int) -> int {
        in_cap(self.arcs, v, self.m())
    }

    /// Total residual capacity of the arcs that lead out of `side`.
    pub open spec fn cut_capacity(self, side: Set<int>) -> int {
        cut_cap(self.arcs, side, self.m())
    }

    /// The vertices that can be reached from `s` along arcs of positive
    /// residual capacity.
    pub open spec fn reach_set(self, s: int) -> Set<int> {
        Set::new(|v: int| 0 <= v < self.n() && reachable(self.arcs, s, v))
    }

    /// Whether `other` has the same vertices and arcs, apart from capacities.
    pub open spec fn same_shape(self, other: Network) -> bool {
        &&& self.heads == other.heads
        &&& self.m() == other.m()
        &&& forall|e: int|
            0 <= e < self.m() ==> (#[trigger] other.arcs[e]) == (Arc {
                cap: other.arcs[e].cap,
                ..self.arcs[e]
            })
    }

    /// Whether every residual pair has the same total capacity in `other`.
    pub open spec fn same_pairs(self, other: Network) -> bool {
        forall|e: int|
            0 <= e < self.m() ==> (#[trigger] other.arcs[e]).cap + other.arcs[mate(e)].cap
                == self.arcs[e].cap + self.arcs[mate(e)].cap
    }

    /// Whether `other` arises from `self` by routing `f` units from `s` to `t`:
    /// capacity moves only between the two arcs of a pair, the capacity that
    /// leaves any other vertex is what it was, `s` has `f` less and `t` has
    /// `f` more.
    pub open spec fn routes(self, other: Network, s: int, t: int, f: int) -> bool {
        &&& self.same_shape(other)
        &&& self.same_pairs(other)
        &&& forall|e: int| 0 <= e < self.m() ==> 0 <= (#[trigger] other.arcs[e]).cap
        &&& other.out_capacity(s) == self.out_capacity(s) - f
        &&& other.out_capacity(t) == self.out_capacity(t) + f
        &&& forall|v: int|
            v != s && v != t ==> #[trigger] other.out_capacity(v) == self.out_capacity(v)
    }

    /// What it has cost to get from the capacities of `self` to those of `other`.
    pub open spec fn cost_to(self, other: Network) -> int {
        routing_cost(self.arcs, other.arcs, self.m())
    }

    /// Whether no arc has gained or lost more than `bound` units from `self`
    /// to `other`.
    pub open spec fn within(self, other: Network, bound: int) -> bool {
        forall|e: int|
            0 <= e < self.m() ==> -bound <= self.arcs[e].cap - (#[trigger] other.arcs[e]).cap
                <= bound
    }

    /// Whether `phi` gives every vertex a price such that moving a unit
    /// along an arc with capacity left costs no less than the price falls
    /// along the arc.  A network admits such prices just when it has no
    /// cycle of negative cost along arcs with capacity left.
    pub open spec fn admits(self, phi: Seq<int>) -> bool {
        &&& phi.len() == self.n()
        &&& forall|e: int|
            0 <= e < self.m() && (#[trigger] self.arcs[e]).cap > 0 ==> price(self.arcs[e])
                + phi[self.arcs[e].to] - phi[self.arcs[e].from] >= 0
    }

    /// Whether no routing from `s` to `t` carries more than `limit`.
    pub open spec fn carries_within(self, s: int, t: int, limit: int) -> bool {
        forall|b: Network, f: int| #[trigger] self.routes(b, s, t, f) ==> f <= limit
    }

    /// Whether `side` separates `s` from `t`.
    pub open spec fn separates(side: Set<int>, s: int, t: int) -> bool {
        side.contains(s) && !side.contains(t)
    }
}

} // verus!
