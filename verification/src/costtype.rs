//! Multiplying a capacity by a cost, where the two may be of different types.
use crate::scalar::{fits, Scalar};
use vstd::prelude::*;

verus! {

/// The product of a quantity of flow and a cost per unit, as a cost.
///
/// A graph is given an implementation of this trait as its fourth type
/// parameter.  `MulTEDefaultType` serves every pair of number types; a type
/// of one's own can come with its own implementation.
pub trait MulTE<T: Scalar, E: Scalar> {
    /// `a` times `b`, where both `a` and the product can be held by `E`.
    fn mul(a: &T, b: &E) -> (r: E)
        requires
            fits::<E>(a.value()),
            fits::<E>(a.value() * b.value()),
        ensures
            r.value() == a.value() * b.value(),
    ;
}

/// The multiplication that converts the quantity to the type of the cost and
/// multiplies there.
pub struct MulTEDefaultType;

impl<T: Scalar, E: Scalar> MulTE<T, E> for MulTEDefaultType {
    fn mul(a: &T, b: &E) -> (r: E) {
        let (negative, magnitude) = a.split();
        let quantity = E::join(negative, magnitude);
        quantity.times(b)
    }
}

} // verus!
