//! A distance model that needs no floating point: it counts steps.
use crate::geoloc::{is_lawful, Distance, DistanceModel, Geoloc};
use vstd::prelude::*;

verus! {

/// The model in which every way between two locations is one step long, and
/// steps are counted up to the greatest count there is. Under it the length
/// of a path is the number of its legs, and the shortest way through a graph
/// is one with the fewest edges.
pub struct Hops;

impl DistanceModel for Hops {
    open spec fn distance_spec(&self, origin: Geoloc, destination: Geoloc) -> Distance {
        Distance(1)
    }

    open spec fn sum_spec(&self, travelled: Distance, leg: Distance) -> Distance {
        if travelled.0 + leg.0 > u64::MAX {
            Distance(u64::MAX)
        } else {
            Distance((travelled.0 + leg.0) as u64)
        }
    }

    fn distance(&self, origin: &Geoloc, destination: &Geoloc) -> (d: Distance) {
        Distance(1)
    }

    fn sum(&self, travelled: Distance, leg: Distance) -> (d: Distance) {
        if leg.0 > u64::MAX - travelled.0 {
            Distance(u64::MAX)
        } else {
            Distance(travelled.0 + leg.0)
        }
    }
}

/// Counting steps is adding lengths: the count is monotone, and never below
/// what was added to.
pub proof fn lemma_hops_is_lawful(model: &Hops)
    ensures
        is_lawful(model),
{
}

} // verus!
