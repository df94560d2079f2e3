//! Entries of the fringe, ordered by nearness.

use vstd::prelude::*;
use std::cmp::Ordering;
use crate::NodeIndex;

verus! {

/// A node with a tentative distance from the source.
///
/// Entries compare by distance alone, and the nearer entry is the greater one,
/// so that a heap which keeps the greatest entry on top keeps the nearest.
#[derive(Clone, Copy, Debug)]
pub struct NodeDist(pub NodeIndex, pub u128);

impl PartialEq for NodeDist {
    fn eq(&self, other: &Self) -> (same: bool) {
        self.1 == other.1
    }
}

impl vstd::std_specs::cmp::PartialEqSpecImpl for NodeDist {
    open spec fn obeys_eq_spec() -> bool {
        true
    }

    open spec fn eq_spec(&self, other: &Self) -> bool {
        self.1 == other.1
    }
}

impl Eq for NodeDist {

}

impl PartialOrd for NodeDist {
    fn partial_cmp(&self, other: &Self) -> (order: Option<Ordering>) {
        if other.1 < self.1 {
            Some(Ordering::Less)
        } else if self.1 < other.1 {
            Some(Ordering::Greater)
        } else {
            Some(Ordering::Equal)
        }
    }
}

impl vstd::std_specs::cmp::PartialOrdSpecImpl for NodeDist {
    open spec fn obeys_partial_cmp_spec() -> bool {
        true
    }

    open spec fn partial_cmp_spec(&self, other: &Self) -> Option<Ordering> {
        if other.1 < self.1 {
            Some(Ordering::Less)
        } else if self.1 < other.1 {
            Some(Ordering::Greater)
        } else {
            Some(Ordering::Equal)
        }
    }
}

} // verus!
