//! The distance metric: a capability with a single method.

use vstd::prelude::*;

verus! {

/// A distance between two points of type `P`.
///
/// `metric` is the distance as a mathematical function; `distance` computes
/// it. An implementation promises that the two agree, so that equal points
/// always lie equally far apart.
pub trait Distance<P> {
    /// The distance from `a` to `b`.
    spec fn metric(a: P, b: P) -> u32;

    /// Computes the distance from `a` to `b`.
    fn distance(a: &P, b: &P) -> (d: u32)
        ensures
            d == Self::metric(*a, *b),
    ;
}

} // verus!
