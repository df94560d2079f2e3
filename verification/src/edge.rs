//! Edge payloads that expose a distance.

use vstd::prelude::*;

verus! {

/// An edge payload with a non-negative distance, as the shortest-path search
/// needs it.
pub trait DistanceEdge: Clone + Sized {
    /// The distance that the edge stands for. An implementation that gives no
    /// definition of its own leaves it an unspecified function of the edge.
    open spec fn distance_spec(&self) -> u64 {
        arbitrary::<spec_fn(Self) -> u64>()(*self)
    }

    /// The distance that the edge stands for.
    fn distance(&self) -> (d: u64)
        ensures
            d == self.distance_spec(),
    ;
}

/// An edge of distance one.
#[derive(Clone, Copy, Debug, PartialEq, Eq)]
pub struct UnitEdge;

impl DistanceEdge for UnitEdge {
    open spec fn distance_spec(&self) -> u64 {
        1
    }

    fn distance(&self) -> (d: u64) {
        1
    }
}

/// Whether a clone of an edge of type `E` has the distance of the edge.
pub open spec fn clone_keeps_distance<E: DistanceEdge>() -> bool {
    forall|edge: E, copy: E| cloned(edge, copy) ==> edge.distance_spec() == copy.distance_spec()
}

/// A clone of a unit edge has distance one, as every unit edge has.
pub proof fn unit_edge_clone_keeps_distance()
    ensures
        clone_keeps_distance::<UnitEdge>(),
{
}

} // verus!
