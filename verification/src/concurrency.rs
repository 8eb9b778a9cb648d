//! Batch queries: the shortest route of each of many legs, in their order.
use crate::geograph::{Geograph, NodeId, NodeView};
use crate::geoloc::{DistanceModel, Geolocalizable};
use crate::route::{route, route_view, DistanceResult};
use vstd::prelude::*;

verus! {

/// One query of a batch: an origin and a destination.
pub struct Leg<T: Geolocalizable>(pub (T, T));

impl<T: Geolocalizable> Leg<T> {
    pub fn origin(&self) -> (origin: &T)
        ensures
            *origin == self.0.0,
    {
        &self.0.0
    }

    pub fn destination(&self) -> (destination: &T)
        ensures
            *destination == self.0.1,
    {
        &self.0.1
    }
}

/// A batch gives for each leg what a query for that leg alone gives.
pub proof fn lemma_batch_is_each_leg_alone<T: Geolocalizable, M: DistanceModel>(
    model: &M,
    graph: Map<NodeId, NodeView>,
    legs: Seq<Leg<T>>,
    batch: Seq<DistanceResult>,
    at: int,
    alone: DistanceResult,
)
    requires
        0 <= at < legs.len(),
        batch.len() == legs.len(),
        forall|i: int|
            0 <= i < legs.len() ==> route_view(#[trigger] batch[i]) == route(
                model,
                graph,
                legs[i].0.0.location(),
                legs[i].0.1.location(),
            ),
        route_view(alone) == route(
            model,
            graph,
            legs[at].0.0.location(),
            legs[at].0.1.location(),
        ),
    ensures
        route_view(batch[at]) == route_view(alone),
{
}

impl Geograph {
    /// The shortest route of each leg, in the order of the legs: as many
    /// routes as there are legs, and each what `shortest_path` gives for the
    /// origin and the destination of its leg, whatever the other legs are.
    pub fn batch_shortest_path<T: Geolocalizable, M: DistanceModel>(
        &self,
        legs: &[Leg<T>],
        model: &M,
    ) -> (found: Vec<DistanceResult>)
        ensures
            found@.len() == legs@.len(),
            forall|i: int|
                0 <= i < legs@.len() ==> route_view(#[trigger] found@[i]) == route(
                    model,
                    self@,
                    legs@[i].0.0.location(),
                    legs@[i].0.1.location(),
                ),
    {
        let mut found: Vec<DistanceResult> = Vec::new();
        let mut i: usize = 0;
        while i < legs.len()
            invariant
                i <= legs@.len(),
                found@.len() == i,
                forall|k: int|
                    0 <= k < i ==> route_view(#[trigger] found@[k]) == route(
                        model,
                        self@,
                        legs@[k].0.0.location(),
                        legs@[k].0.1.location(),
                    ),
            decreases legs@.len() - i,
        {
            let leg = &legs[i];
            let way = self.shortest_path(leg.origin(), leg.destination(), model);
            found.push(way);
            i += 1;
        }
        found
    }
}

} // verus!
