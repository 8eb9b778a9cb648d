//! The nearest-node locator.
use crate::geograph::{Geograph, Node, NodeId, NodeView};
use crate::geoloc::{DistanceModel, Geoloc, Geolocalizable};
use crate::queue::precedes;
use vstd::prelude::*;

verus! {

/// Whether the node `a` is at least as near to `point` as the node `b`: by
/// the shorter length from the node to the point, and of two equal lengths
/// by the lower identifier.
pub open spec fn at_least_as_near<M: DistanceModel>(
    model: &M,
    graph: Map<NodeId, NodeView>,
    point: Geoloc,
    a: NodeId,
    b: NodeId,
) -> bool {
    precedes(
        (model.distance_spec(graph[a].geoloc, point), a),
        (model.distance_spec(graph[b].geoloc, point), b),
    )
}

/// Whether `id` is the node of the graph nearest to `point`.
pub open spec fn is_nearest<M: DistanceModel>(
    model: &M,
    graph: Map<NodeId, NodeView>,
    point: Geoloc,
    id: NodeId,
) -> bool {
    &&& graph.contains_key(id)
    &&& forall|other: NodeId|
        graph.contains_key(other) ==> at_least_as_near(model, graph, point, id, other)
}

/// The node of the graph nearest to `point`, if the graph has a node.
pub open spec fn nearest<M: DistanceModel>(
    model: &M,
    graph: Map<NodeId, NodeView>,
    point: Geoloc,
) -> Option<NodeId> {
    if exists|id: NodeId| is_nearest(model, graph, point, id) {
        Some(choose|id: NodeId| is_nearest(model, graph, point, id))
    } else {
        None
    }
}

/// A graph has at most one node nearest to a point.
pub proof fn lemma_nearest_is_unique<M: DistanceModel>(
    model: &M,
    graph: Map<NodeId, NodeView>,
    point: Geoloc,
    a: NodeId,
    b: NodeId,
)
    requires
        is_nearest(model, graph, point, a),
        is_nearest(model, graph, point, b),
    ensures
        a == b,
{
    assert(at_least_as_near(model, graph, point, a, b));
    assert(at_least_as_near(model, graph, point, b, a));
}

impl Geograph {
    /// The node nearest to `loc`, where the route to or from `loc` enters the
    /// network. Every node is measured; of the nodes at the shortest length
    /// the one with the lowest identifier is the nearest.
    pub fn closest<T: Geolocalizable, M: DistanceModel>(&self, loc: &T, model: &M) -> (found:
        Option<&Node>)
        ensures
            found is None <==> self@.len() == 0,
            found is None <==> nearest(model, self@, loc.location()) is None,
            found matches Some(node) ==> {
                &&& nearest(model, self@, loc.location()) == Some(node.id)
                &&& is_nearest(model, self@, loc.location(), node.id)
                &&& node@ == self@[node.id]
            },
    {
        let point = loc.geoloc();
        let nodes = self.iter_nodes();
        if nodes.len() == 0 {
            assert(nearest(model, self@, point) is None) by {
                if exists|id: NodeId| is_nearest(model, self@, point, id) {
                    let id = choose|id: NodeId| is_nearest(model, self@, point, id);
                    assert(self@.contains_key(id));
                }
            }
            return None;
        }
        let mut best: &Node = nodes[0];
        let mut shortest = model.distance(&best.geoloc(), &point);
        let mut i: usize = 1;
        while i < nodes.len()
            invariant
                1 <= i <= nodes@.len(),
                forall|k: int|
                    0 <= k < nodes@.len() ==> self@.contains_key(#[trigger] nodes@[k].id)
                        && nodes@[k]@ == self@[nodes@[k].id],
                self@.contains_key(best.id),
                best@ == self@[best.id],
                shortest == model.distance_spec(best.geoloc, point),
                forall|k: int|
                    0 <= k < i ==> at_least_as_near(
                        model,
                        self@,
                        point,
                        best.id,
                        #[trigger] nodes@[k].id,
                    ),
            decreases nodes@.len() - i,
        {
            let node: &Node = nodes[i];
            let length = model.distance(&node.geoloc(), &point);
            if length.0 < shortest.0 || (length.0 == shortest.0 && node.id < best.id) {
                best = node;
                shortest = length;
            }
            i += 1;
        }
        proof {
            assert forall|other: NodeId| self@.contains_key(other) implies at_least_as_near(
                model,
                self@,
                point,
                best.id,
                other,
            ) by {
                let k = choose|k: int| 0 <= k < nodes@.len() && #[trigger] nodes@[k].id == other;
                assert(at_least_as_near(model, self@, point, best.id, nodes@[k].id));
            }
            assert(is_nearest(model, self@, point, best.id));
            let chosen = choose|id: NodeId| is_nearest(model, self@, point, id);
            lemma_nearest_is_unique(model, self@, point, chosen, best.id);
        }
        Some(best)
    }
}

} // verus!
