//! The arcs that a graph stores.
use crate::network::{absent, Arc};
use crate::scalar::Scalar;
use vstd::prelude::*;

verus! {

/// A stored arc: `T` is the type of its capacity, `E` the type of its cost.
#[derive(Debug)]
pub struct Edge<T, E> {
    pub(crate) from: usize,
    pub(crate) to: usize,
    pub(crate) next_edge: usize,
    pub(crate) opp_edge: usize,
    pub(crate) weight: T,
    pub(crate) cost: E,
    pub(crate) reversed: bool,
}

impl<T: Scalar, E: Scalar> Edge<T, E> {
    /// The arc that this edge stands for.
    pub open(crate) spec fn view(&self) -> Arc {
        Arc {
            from: self.from as int,
            to: self.to as int,
            next: self.next_edge as int,
            opp: self.opp_edge as int,
            cap: self.weight.value(),
            cost: self.cost.value(),
            reversed: self.reversed,
        }
    }

    /// The adjacency head of vertex `i` while no arc leaves it.
    pub fn empty_edge(i: usize) -> (r: Edge<T, E>)
        ensures
            r@ == (Arc {
                from: i as int,
                to: i as int,
                next: absent(),
                opp: absent(),
                cap: 0,
                cost: 0,
                reversed: false,
            }),
    {
        Edge::<T, E> {
            from: i,
            to: i,
            next_edge: usize::MAX,
            opp_edge: usize::MAX,
            weight: T::zero(),
            cost: E::zero(),
            reversed: false,
        }
    }

    /// A user-added arc with the given links, capacity and cost.
    pub fn create_edge(
        from: usize,
        to: usize,
        next_edge: usize,
        opp_edge: usize,
        weight: T,
        cost: E,
    ) -> (r: Edge<T, E>)
        ensures
            r@ == (Arc {
                from: from as int,
                to: to as int,
                next: next_edge as int,
                opp: opp_edge as int,
                cap: weight.value(),
                cost: cost.value(),
                reversed: false,
            }),
    {
        Edge::<T, E> { from, to, next_edge, opp_edge, weight, cost, reversed: false }
    }

    /// Whether this arc is the synthetic inverse of a user-added arc.
    pub fn is_reversed(&self) -> (r: bool)
        ensures
            r == self@.reversed,
    {
        self.reversed
    }

    /// The vertex that this arc leads to.
    pub fn get_to(&self) -> (r: usize)
        ensures
            r as int == self@.to,
    {
        self.to
    }

    /// The vertex that this arc leaves.
    pub fn get_from(&self) -> (r: usize)
        ensures
            r as int == self@.from,
    {
        self.from
    }

    /// The index of the mate of this arc.
    pub fn get_opp(&self) -> (r: usize)
        ensures
            r as int == self@.opp,
    {
        self.opp_edge
    }

    /// The residual capacity that is left on this arc.
    pub fn get_weight(&self) -> (r: &T)
        ensures
            r.value() == self@.cap,
    {
        &self.weight
    }

    /// The cost of the user-added arc of the pair.
    pub fn get_cost(&self) -> (r: &E)
        ensures
            r.value() == self@.cost,
    {
        &self.cost
    }

    /// Whether no residual capacity is left on this arc.
    pub fn is_full(&self) -> (r: bool)
        ensures
            r == (self@.cap == 0),
    {
        let zero = T::zero();
        self.weight.same(&zero)
    }
}

} // verus!
