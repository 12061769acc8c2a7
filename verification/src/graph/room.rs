//! Testing at run time whether a number type has room for the costs.
use crate::costtype::MulTE;
use crate::graph::maxflow::lemma_nonnegative;
use crate::graph::mincost::{cost_room, priced};
use crate::graph::Graph;
use crate::network::laws::{lemma_carries_nothing, lemma_carries_within};
use crate::network::{cost_ceiling, cost_floor, least, mate, most, reachable, Arc, Network};
use crate::scalar::{checked_plus, fits, signed, try_join, Scalar};
use vstd::prelude::*;

verus! {

/// The ceiling of the costs over more arcs is no less, and the floor no
/// more, where no capacity and no bound is negative; and the one is not
/// negative and the other not positive.
pub proof fn lemma_span_grows(arcs: Seq<Arc>, bound: int, j: int, k: int)
    requires
        0 <= j <= k <= arcs.len(),
        arcs.len() % 2 == 0,
        0 <= bound,
        forall|e: int| 0 <= e < arcs.len() ==> 0 <= (#[trigger] arcs[e]).cap,
    ensures
        cost_ceiling(arcs, bound, j) <= cost_ceiling(arcs, bound, k),
        cost_floor(arcs, bound, k) <= cost_floor(arcs, bound, j),
        j == 0 ==> 0 <= cost_ceiling(arcs, bound, k) && cost_floor(arcs, bound, k) <= 0,
    decreases k,
{
    if j < k {
        lemma_span_grows(arcs, bound, j, k - 1);
        if (k - 1) % 2 == 0 {
            lemma_most_nonnegative(
                arcs[k - 1].cost,
                least(arcs[k - 1].cap, bound),
                least(arcs[k].cap, bound),
            );
            lemma_most_nonnegative(
                -arcs[k - 1].cost,
                least(arcs[k - 1].cap, bound),
                least(arcs[k].cap, bound),
            );
        }
    }
}

/// The most that a product can be is not negative where its bounds are not.
pub proof fn lemma_most_nonnegative(c: int, p: int, q: int)
    requires
        0 <= p,
        0 <= q,
    ensures
        0 <= most(c, p, q),
{
    if c >= 0 {
        assert(0 <= p * c) by (nonlinear_arith)
            requires
                0 <= p,
                0 <= c,
        ;
    } else {
        assert(0 <= q * (-c)) by (nonlinear_arith)
            requires
                0 <= q,
                c < 0,
        ;
    }
}

/// The product of two magnitudes with a sign.
pub open spec fn signed_product(a: u128, b: u128, negative: bool) -> int {
    if negative {
        -(a * b)
    } else {
        a * b
    }
}

/// The number of type `S` that is `a` times `b`, with the sign given, if
/// `S` can hold it.
pub fn product<S: Scalar>(a: u128, b: u128, negative: bool) -> (r: Option<S>)
    ensures
        match r {
            Some(x) => x.value() == signed_product(a, b, negative),
            None => !fits::<S>(signed_product(a, b, negative)),
        },
{
    let highest = S::highest();
    let lowest = S::lowest();
    proof {
        highest.lemma_wide();
        lowest.lemma_wide();
    }
    match a.checked_mul(b) {
        None => None,
        Some(m) => try_join::<S>(negative, m),
    }
}

/// What the products of magnitudes are that bound the cost of a pair of
/// arcs with the cost `c`, of which at most `p` can be moved forth and at
/// most `q` back, where at most `bound` can be moved at all.
pub proof fn lemma_products(
    c: int,
    p: int,
    q: int,
    bound: int,
    negative: bool,
    cost: u128,
    forth: u128,
    there: u128,
    wide: u128,
)
    requires
        c == signed(negative, cost),
        negative ==> cost > 0,
        forth == p,
        there == q,
        wide == bound,
    ensures
        signed_product(wide, cost, negative) == bound * c,
        most(c, p, q) == if negative {
            signed_product(there, cost, false)
        } else {
            signed_product(forth, cost, false)
        },
        -most(-c, p, q) == if negative || cost == 0 {
            signed_product(forth, cost, true)
        } else {
            signed_product(there, cost, true)
        },
{
    if negative {
        assert(bound * c == -(wide * cost)) by (nonlinear_arith)
            requires
                wide == bound,
                c == -(cost as int),
        ;
        assert(q * (-c) == there * cost) by (nonlinear_arith)
            requires
                there == q,
                c == -(cost as int),
        ;
        assert(p * (-c) == forth * cost) by (nonlinear_arith)
            requires
                forth == p,
                c == -(cost as int),
        ;
    } else {
        assert(bound * c == wide * cost) by (nonlinear_arith)
            requires
                wide == bound,
                c == cost as int,
        ;
        assert(p * c == forth * cost) by (nonlinear_arith)
            requires
                forth == p,
                c == cost as int,
        ;
        assert(q * (-(-c)) == there * cost) by (nonlinear_arith)
            requires
                there == q,
                c == cost as int,
        ;
        if cost == 0 {
            assert(p * (-c) == 0) by (nonlinear_arith)
                requires
                    c == 0,
            ;
            assert(forth * cost == 0) by (nonlinear_arith)
                requires
                    cost == 0,
            ;
        }
    }
}

impl<L, T: Scalar, E: Scalar, M: MulTE<T, E>> Graph<L, T, E, M> {
    /// Whether `mcmf` can be asked for a flow to `t`: the capacity that
    /// enters `t` is within the range of `T`, and `E` has room for the costs.
    pub fn has_cost_room(&self, t: usize) -> (r: bool)
        requires
            self.wf(),
        ensures
            r == (self@.in_capacity(t as int) <= T::max_value() && cost_room::<E>(self@, t as int)),
    {
        reveal(cost_room);
        let ghost net = self@;
        let ghost limit = T::max_value();
        let m = self.edges.len();
        let top = match self.in_capacity_of(t) {
            Some(top) => top,
            None => {
                return false;
            },
        };
        let ghost bound = net.in_capacity(t as int);
        let (_, wide) = top.split();
        proof {
            lemma_nonnegative(net, limit);
            crate::network::laws::lemma_caps_nonnegative(net.arcs, Set::empty(), t as int, net.m());
        }
        match try_join::<E>(false, wide) {
            Some(held) => {
                proof {
                    held.lemma_bounds();
                }
            },
            None => {
                return false;
            },
        }
        let mut high = E::zero();
        let mut low = E::zero();
        let mut e: usize = 0;
        while e < m
            invariant
                self.wf(),
                net == self@,
                limit == T::max_value(),
                m == net.m(),
                m % 2 == 0,
                e % 2 == 0,
                0 <= e <= m,
                bound == net.in_capacity(t as int),
                0 <= bound,
                wide == bound,
                top.value() == bound,
                fits::<E>(bound),
                forall|j: int| 0 <= j < net.arcs.len() ==> 0 <= (#[trigger] net.arcs[j]).cap,
                forall|j: int| 0 <= j < e ==> fits::<E>(bound * (#[trigger] net.arcs[j]).cost),
                high.value() == cost_ceiling(net.arcs, bound, e as int),
                low.value() == cost_floor(net.arcs, bound, e as int),
            decreases m - e,
        {
            let edge = &self.edges[e];
            let back = &self.edges[e + 1];
            let ghost c = net.arcs[e as int].cost;
            let ghost p = least(net.arcs[e as int].cap, bound);
            let ghost q = least(net.arcs[e + 1].cap, bound);
            proof {
                assert(net.arc_ok(e as int, limit));
                assert(net.arc_ok(e + 1, limit));
                assert(mate(e as int) == e + 1);
                assert(edge@ == net.arcs[e as int]);
                assert(back@ == net.arcs[e + 1]);
                reveal(cost_room);
                lemma_span_grows(net.arcs, bound, e + 2, m as int);
                lemma_span_grows(net.arcs, bound, 0, e as int);
                assert(cost_ceiling(net.arcs, bound, e + 1) == cost_ceiling(
                    net.arcs,
                    bound,
                    e as int,
                ) + most(c, p, q));
                assert(cost_ceiling(net.arcs, bound, e + 2) == cost_ceiling(
                    net.arcs,
                    bound,
                    e + 1,
                ));
                assert(cost_floor(net.arcs, bound, e + 1) == cost_floor(net.arcs, bound, e as int)
                    - most(-c, p, q));
                assert(cost_floor(net.arcs, bound, e + 2) == cost_floor(net.arcs, bound, e + 1));
                lemma_most_nonnegative(c, p, q);
                lemma_most_nonnegative(-c, p, q);
                high.lemma_bounds();
                low.lemma_bounds();
            }
            let (negative, cost) = edge.cost.split();
            let (_, forth) = if edge.weight.less(&top) {
                edge.weight.split()
            } else {
                top.split()
            };
            let (_, there) = if back.weight.less(&top) {
                back.weight.split()
            } else {
                top.split()
            };
            proof {
                assert(forth == p);
                assert(there == q);
                lemma_products(c, p, q, bound, negative, cost, forth, there, wide);
            }
            // all that can enter `t`, at the cost of the arc
            match product::<E>(wide, cost, negative) {
                Some(held) => {
                    proof {
                        held.lemma_bounds();
                    }
                },
                None => {
                    return false;
                },
            }
            proof {
                assert(net.arcs[e + 1].cost == c);
                assert forall|j: int| 0 <= j < e + 2 implies fits::<E>(
                    bound * (#[trigger] net.arcs[j]).cost,
                ) by {
                    if j >= e {
                        assert(net.arcs[j].cost == c);
                    }
                }
            }
            // what the pair can cost at most, and at least
            let dearest = if negative {
                product::<E>(there, cost, false)
            } else {
                product::<E>(forth, cost, false)
            };
            let cheapest = if negative || cost == 0 {
                product::<E>(forth, cost, true)
            } else {
                product::<E>(there, cost, true)
            };
            let more = match dearest {
                Some(term) => checked_plus(&high, &term),
                None => None,
            };
            let less = match cheapest {
                Some(term) => checked_plus(&low, &term),
                None => None,
            };
            match (more, less) {
                (Some(higher), Some(lower)) => {
                    high = higher;
                    low = lower;
                },
                _ => {
                    return false;
                },
            }
            e = e + 2;
        }
        proof {
            reveal(cost_room);
            high.lemma_bounds();
            low.lemma_bounds();
            top.lemma_bounds();
        }
        true
    }

    /// Routes a maximum flow of least cost from `s` to `t` and returns its
    /// value and what it costs, as `mcmf` does, where `s` and `t` are two
    /// vertices and either `t` cannot be reached from `s`, or the capacity
    /// that enters `t` is within the range of `T` and `E` has room for the
    /// costs; does nothing and returns nothing otherwise.
    pub fn checked_mcmf(&mut self, s: usize, t: usize) -> (r: Option<(T, E)>)
        requires
            old(self).wf(),
        ensures
            final(self).wf(),
            final(self).labels() == old(self).labels(),
            r is Some <==> s < old(self)@.n() && t < old(self)@.n() && s != t && (!reachable(
                old(self)@.arcs,
                s as int,
                t as int,
            ) || (old(self)@.in_capacity(t as int) <= T::max_value() && cost_room::<E>(
                old(self)@,
                t as int,
            ))),
            r is None ==> final(self)@ == old(self)@,
            r matches Some(found) ==> {
                &&& 0 <= found.0.value()
                &&& old(self)@.routes(final(self)@, s as int, t as int, found.0.value())
                &&& !reachable(final(self)@.arcs, s as int, t as int)
                &&& final(self)@.in_capacity(t as int) == old(self)@.in_capacity(t as int)
                    - found.0.value()
                &&& found.0.value() == old(self)@.cut_capacity(final(self)@.reach_set(s as int))
                &&& found.1.value() == old(self)@.cost_to(final(self)@)
                &&& priced::<E>(old(self)@, t as int) ==> forall|c: Network|
                    #[trigger] old(self)@.routes(c, s as int, t as int, found.0.value())
                        ==> found.1.value() <= old(self)@.cost_to(c)
            },
    {
        let n = self.first.len();
        if s >= n || t >= n || s == t {
            return None;
        }
        let nothing = T::zero();
        if !self.reaches(s, t) {
            proof {
                nothing.lemma_bounds();
                lemma_carries_nothing(self@, T::max_value(), s as int, t as int, T::max_value());
            }
            return Some(self.mcmf(s, t));
        }
        if !self.has_cost_room(t) {
            return None;
        }
        proof {
            lemma_carries_within(self@, T::max_value(), s as int, t as int, T::max_value());
        }
        Some(self.mcmf(s, t))
    }
}

} // verus!
