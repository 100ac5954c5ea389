use vstd::prelude::*;

verus! {

/// A node of a tour: a value that knows the cost of the edge to another node.
///
/// `metric` is the cost as the contracts of this crate see it, and `cost`
/// computes it. An implementation promises that `cost` is a function of the two
/// nodes alone: what this crate proves of tours of such nodes rests on that
/// promise.
pub trait Metrizable: Sized {
    /// The cost of the edge from `self` to `other`.
    spec fn metric(&self, other: &Self) -> u64;

    /// Computes the cost of the edge from `self` to `other`.
    fn cost(&self, other: &Self) -> (c: u64)
        ensures
            c == self.metric(other),
    ;
}

/// Whether the cost of an edge is the same in both directions, for every pair
/// of nodes of type `T`.
pub open spec fn symmetric<T: Metrizable>() -> bool {
    forall|a: T, b: T| #[trigger] a.metric(&b) == b.metric(&a)
}

/// Whether `clone` hands back a value equal to the one it was called on, for
/// every node of type `T`.
pub open spec fn faithful_clone<T: Clone>() -> bool {
    forall|a: T, b: T| #[trigger] cloned(a, b) ==> a == b
}

} // verus!
