//! Whether a graph is connected: a walk over the waypoints from the node with
//! the lowest identifier.
use crate::geograph::{Geograph, NodeId, NodeView};
use crate::walk::{
    connects, has_edge, is_closed, is_symmetric, lemma_reaches_itself, lemma_reaches_one_further,
    lemma_walk_leads_back, lemma_walk_stays_inside, lemma_walks_join, reachable,
};
use std::collections::HashSet;
use vstd::prelude::*;

verus! {

broadcast use vstd::std_specs::hash::group_hash_axioms;

/// Whether `id` is the lowest identifier in the graph.
pub open spec fn is_lowest_id(graph: Map<NodeId, NodeView>, id: NodeId) -> bool {
    &&& graph.contains_key(id)
    &&& forall|other: NodeId| graph.contains_key(other) ==> id <= other
}

/// The lowest identifier in the graph.
pub open spec fn lowest_id(graph: Map<NodeId, NodeView>) -> NodeId {
    choose|id: NodeId| is_lowest_id(graph, id)
}

/// Whether the graph has a node, and a way from the node with the lowest
/// identifier to every node.
pub open spec fn connected(graph: Map<NodeId, NodeView>) -> bool {
    &&& exists|id: NodeId| graph.contains_key(id)
    &&& forall|id: NodeId| graph.contains_key(id) ==> reachable(graph, lowest_id(graph), id)
}

/// A graph that has a node has a lowest identifier.
pub proof fn lemma_has_lowest_id(graph: Map<NodeId, NodeView>, id: NodeId)
    requires
        graph.contains_key(id),
    ensures
        is_lowest_id(graph, lowest_id(graph)),
    decreases id - i32::MIN,
{
    if forall|other: NodeId| graph.contains_key(other) ==> id <= other {
        assert(is_lowest_id(graph, id));
    } else {
        let lower = choose|other: NodeId| graph.contains_key(other) && other < id;
        lemma_has_lowest_id(graph, lower);
    }
}

/// In a graph whose edges all lead back, it does not matter where the walk
/// starts: the graph is connected if and only if it has a node and a way
/// from every node to every node.
pub proof fn lemma_connected_from_anywhere(graph: Map<NodeId, NodeView>)
    requires
        is_symmetric(graph),
    ensures
        connected(graph) <==> (exists|id: NodeId| graph.contains_key(id)) && forall|
            from: NodeId,
            to: NodeId,
        |
            graph.contains_key(from) && graph.contains_key(to) ==> reachable(graph, from, to),
{
    let start = lowest_id(graph);
    if connected(graph) {
        assert forall|from: NodeId, to: NodeId|
            graph.contains_key(from) && graph.contains_key(to) implies reachable(
            graph,
            from,
            to,
        ) by {
            let out = choose|walk: Seq<NodeId>| connects(graph, walk, start, from);
            let on = choose|walk: Seq<NodeId>| connects(graph, walk, start, to);
            lemma_walk_leads_back(graph, out, start, from);
            lemma_walks_join(graph, out.reverse(), on, from, start, to);
        }
    }
    if (exists|id: NodeId| graph.contains_key(id)) && forall|from: NodeId, to: NodeId|
        graph.contains_key(from) && graph.contains_key(to) ==> reachable(graph, from, to) {
        let id = choose|id: NodeId| graph.contains_key(id);
        lemma_has_lowest_id(graph, id);
    }
}

impl Geograph {
    /// The lowest identifier in the graph, if the graph has a node.
    pub fn first_id(&self) -> (first: Option<NodeId>)
        ensures
            first is None <==> self@.len() == 0,
            first is None ==> forall|id: NodeId| !self@.contains_key(id),
            first matches Some(id) ==> is_lowest_id(self@, id) && id == lowest_id(self@),
    {
        let ids = self.ids();
        if ids.len() == 0 {
            assert forall|id: NodeId| !self@.contains_key(id) by {
                if self@.contains_key(id) {
                    assert(ids@.to_set().contains(id));
                    assert(ids@.contains(id));
                }
            }
            return None;
        }
        let mut lowest = ids[0];
        let mut i: usize = 1;
        while i < ids.len()
            invariant
                1 <= i <= ids@.len(),
                ids@.contains(lowest),
                forall|j: int| 0 <= j < i ==> lowest <= ids@[j],
            decreases ids@.len() - i,
        {
            if ids[i] < lowest {
                lowest = ids[i];
            }
            i += 1;
        }
        proof {
            assert(ids@.to_set().contains(lowest));
            assert forall|other: NodeId| self@.contains_key(other) implies lowest <= other by {
                assert(ids@.to_set().contains(other));
                assert(ids@.contains(other));
            }
            assert(is_lowest_id(self@, lowest));
            let chosen = lowest_id(self@);
            assert(is_lowest_id(self@, chosen));
        }
        Some(lowest)
    }

    /// Whether every node can be reached from the node with the lowest
    /// identifier, along waypoints. A graph without nodes is not connected.
    pub fn is_connected(&self) -> (b: bool)
        ensures
            b == connected(self@),
    {
        let start = match self.first_id() {
            None => {
                return false;
            },
            Some(id) => id,
        };
        let total = self.len();
        let mut visited: HashSet<NodeId> = HashSet::new();
        let mut stack: Vec<NodeId> = Vec::new();
        stack.push(start);
        proof {
            lemma_reaches_itself(self@, start);
            assert(stack@[0] == start);
        }
        while stack.len() > 0
            invariant
                self@.dom().finite(),
                total == self@.len(),
                is_lowest_id(self@, start),
                visited@.finite(),
                visited@.subset_of(self@.dom()),
                forall|id: NodeId| visited@.contains(id) ==> reachable(self@, start, id),
                forall|i: int|
                    0 <= i < stack@.len() && self@.contains_key(#[trigger] stack@[i]) ==> reachable(
                        self@,
                        start,
                        stack@[i],
                    ),
                visited@.contains(start) || stack@.contains(start),
                forall|from: NodeId, to: NodeId|
                    visited@.contains(from) && #[trigger] has_edge(self@, from, to)
                        ==> visited@.contains(to) || stack@.contains(to),
            decreases total - visited@.len(), stack@.len(),
        {
            proof {
                vstd::set_lib::lemma_len_subset(visited@, self@.dom());
            }
            let ghost waiting = stack@;
            let id = stack.pop().unwrap();
            assert(waiting =~= stack@.push(id));
            assert forall|other: NodeId| waiting.contains(other) implies stack@.contains(other)
                || other == id by {
                let k = choose|k: int| 0 <= k < waiting.len() && waiting[k] == other;
                if k < stack@.len() {
                    assert(stack@[k] == other);
                }
            }
            if !visited.contains(&id) {
                match self.get(id) {
                    None => {
                        assert(id != start);
                    },
                    Some(node) => {
                        let ghost seen = visited@;
                        visited.insert(id);
                        proof {
                            assert(reachable(self@, start, id)) by {
                                assert(waiting[waiting.len() - 1] == id);
                            }
                            assert(visited@.subset_of(self@.dom()));
                            vstd::set_lib::lemma_len_subset(visited@, self@.dom());
                            assert(visited@.len() == seen.len() + 1);
                        }
                        let mut j: usize = 0;
                        while j < node.waypoints.len()
                            invariant
                                j <= node.waypoints@.len(),
                                node@ == self@[id],
                                self@.contains_key(id),
                                visited@ == seen.insert(id),
                                reachable(self@, start, id),
                                forall|i: int|
                                    0 <= i < stack@.len() && self@.contains_key(
                                        #[trigger] stack@[i],
                                    ) ==> reachable(self@, start, stack@[i]),
                                visited@.contains(start) || stack@.contains(start),
                                forall|from: NodeId, to: NodeId|
                                    seen.contains(from) && #[trigger] has_edge(self@, from, to)
                                        ==> visited@.contains(to) || stack@.contains(to),
                                forall|k: int|
                                    0 <= k < j && self@.contains_key(node.waypoints@[k])
                                        ==> visited@.contains(#[trigger] node.waypoints@[k])
                                        || stack@.contains(node.waypoints@[k]),
                            decreases node.waypoints@.len() - j,
                        {
                            let next = node.waypoints[j];
                            let ghost held = stack@;
                            if !visited.contains(&next) {
                                stack.push(next);
                                proof {
                                    assert(stack@[stack@.len() - 1] == next);
                                    assert forall|other: NodeId|
                                        held.contains(other) implies stack@.contains(other) by {
                                        let k = choose|k: int|
                                            0 <= k < held.len() && held[k] == other;
                                        assert(stack@[k] == other);
                                    }
                                    if self@.contains_key(next) {
                                        assert(node.waypoints@.contains(next));
                                        assert(has_edge(self@, id, next));
                                        lemma_reaches_one_further(self@, start, id, next);
                                    }
                                }
                            }
                            j += 1;
                        }
                        proof {
                            assert forall|from: NodeId, to: NodeId|
                                visited@.contains(from) && #[trigger] has_edge(
                                    self@,
                                    from,
                                    to,
                                ) implies visited@.contains(to) || stack@.contains(to) by {
                                if from == id {
                                    let k = choose|k: int|
                                        0 <= k < node.waypoints@.len() && node.waypoints@[k] == to;
                                    assert(visited@.contains(node.waypoints@[k]) || stack@.contains(
                                        node.waypoints@[k],
                                    ));
                                }
                            }
                        }
                    },
                }
            }
        }
        proof {
            assert(stack@.len() == 0);
            assert(is_closed(self@, visited@)) by {
                assert forall|from: NodeId, to: NodeId|
                    visited@.contains(from) && #[trigger] has_edge(
                        self@,
                        from,
                        to,
                    ) implies visited@.contains(to) by {
                    assert(!stack@.contains(to));
                }
            }
            assert(!stack@.contains(start));
            assert(start == lowest_id(self@)) by {
                let chosen = lowest_id(self@);
                assert(is_lowest_id(self@, chosen));
            }
            vstd::set_lib::lemma_len_subset(visited@, self@.dom());
            if visited@.len() == self@.dom().len() {
                vstd::set_lib::lemma_subset_equality(visited@, self@.dom());
                assert(connected(self@));
            } else {
                if connected(self@) {
                    assert forall|id: NodeId| self@.dom().contains(id) implies visited@.contains(
                        id,
                    ) by {
                        let walk = choose|walk: Seq<NodeId>| connects(self@, walk, start, id);
                        lemma_walk_stays_inside(self@, visited@, walk, walk.len() - 1);
                    }
                    assert(visited@ =~= self@.dom());
                }
            }
        }
        visited.len() == total
    }
}

} // verus!
