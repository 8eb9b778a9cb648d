//! The graph store: nodes, and the graph that holds them by identifier.
use crate::geoloc::{Geoloc, Geolocalizable};
use std::collections::HashMap;
use vstd::std_specs::iter::IteratorSpec;
use vstd::prelude::*;

verus! {

broadcast use vstd::std_specs::hash::group_hash_axioms;

/// How a route came about.
#[derive(Clone, Copy, Debug, PartialEq, Eq, Structural)]
pub enum PathType {
    /// No usable way through the network: the straight line between the two
    /// endpoints.
    Direct,
    /// Through the network, between the nodes nearest to the two endpoints.
    ViaWaypoints,
}

/// The identifier of a node, unique within a graph.
pub type NodeId = i32;

/// A node of a geograph: an identifier, a place, and the identifiers of the
/// nodes that can be reached from it, its waypoints.
#[derive(Debug)]
pub struct Node {
    pub id: NodeId,
    pub waypoints: Vec<NodeId>,
    pub geoloc: Geoloc,
}

/// What a node is, as contracts speak of it.
pub struct NodeView {
    pub id: NodeId,
    pub waypoints: Seq<NodeId>,
    pub geoloc: Geoloc,
}

impl View for Node {
    type V = NodeView;

    open spec fn view(&self) -> NodeView {
        NodeView { id: self.id, waypoints: self.waypoints@, geoloc: self.location() }
    }
}

impl Geolocalizable for Node {
    open spec fn location(&self) -> Geoloc {
        self.geoloc
    }

    fn geoloc(&self) -> (g: Geoloc) {
        self.geoloc
    }
}

impl Node {
    pub fn new(id: NodeId, geoloc: Geoloc, waypoints: Vec<NodeId>) -> (node: Node)
        ensures
            node@ == (NodeView { id, waypoints: waypoints@, geoloc }),
            node.waypoints == waypoints,
    {
        Node { id, geoloc, waypoints }
    }

}

impl Clone for Node {
    fn clone(&self) -> (node: Node)
        ensures
            node@ == self@,
    {
        let waypoints = self.waypoints.clone();
        assert(waypoints@ =~= self.waypoints@);
        Node { id: self.id, geoloc: self.geoloc, waypoints }
    }
}

/// A named set of nodes, each stored under its identifier.
#[derive(Debug)]
pub struct Geograph {
    name: String,
    graph: HashMap<NodeId, Node>,
}

impl View for Geograph {
    type V = Map<NodeId, NodeView>;

    /// The nodes of the graph by identifier.
    closed spec fn view(&self) -> Map<NodeId, NodeView> {
        Map::new(|id: NodeId| self.graph@.contains_key(id), |id: NodeId| self.graph@[id]@)
    }
}

impl Geograph {
    #[verifier::type_invariant]
    spec fn keyed_by_id(&self) -> bool {
        forall|id: NodeId| #[trigger] self.graph@.contains_key(id) ==> self.graph@[id].id == id
    }

    /// The name of the graph, as contracts speak of it.
    pub closed spec fn name_view(&self) -> Seq<char> {
        self.name@
    }

    /// An empty graph.
    pub fn new(name: &str) -> (graph: Geograph)
        ensures
            graph@ == Map::<NodeId, NodeView>::empty(),
            graph.name_view() == name@,
    {
        let graph = Geograph { name: name.to_string(), graph: HashMap::new() };
        assert(graph@ =~= Map::<NodeId, NodeView>::empty());
        graph
    }

    /// The name of the graph.
    pub fn name(&self) -> (name: &String)
        ensures
            name@ == self.name_view(),
    {
        &self.name
    }

    /// Stores `node` under its identifier, in place of any node that was
    /// stored under it.
    pub fn add(&mut self, node: Node) -> (graph: &mut Geograph)
        ensures
            graph@ == old(self)@.insert(node.id, node@),
            graph.name_view() == old(self).name_view(),
            *final(self) == *final(graph),
    {
        let ghost before = self@;
        proof {
            use_type_invariant(&*self);
        }
        // The nodes leave the graph while they change, so that whatever the
        // graph holds at any moment is keyed by identifier.
        let mut nodes: HashMap<NodeId, Node> = HashMap::new();
        core::mem::swap(&mut self.graph, &mut nodes);
        nodes.insert(node.id, node);
        core::mem::swap(&mut self.graph, &mut nodes);
        assert(self@ =~= before.insert(node.id, node@));
        self
    }

    /// The node stored under `id`, if there is one.
    pub fn get(&self, id: NodeId) -> (found: Option<&Node>)
        ensures
            found is Some == self@.contains_key(id),
            found matches Some(node) ==> node@ == self@[id] && node.id == id,
    {
        proof {
            use_type_invariant(self);
        }
        self.graph.get(&id)
    }

    /// A copy of the node stored under `id`, if there is one.
    pub fn get_copy(&self, id: NodeId) -> (found: Option<Node>)
        ensures
            found is Some == self@.contains_key(id),
            found matches Some(node) ==> node@ == self@[id] && node.id == id,
    {
        match self.get(id) {
            Some(node) => Some(node.clone()),
            None => None,
        }
    }

    /// The identifiers of the nodes, each once, in no particular order.
    pub fn ids(&self) -> (ids: Vec<NodeId>)
        ensures
            ids@.no_duplicates(),
            ids@.to_set() == self@.dom(),
            ids@.len() == self@.len(),
    {
        let mut ids: Vec<NodeId> = Vec::new();
        let keys = self.graph.keys();
        let ghost all = keys.remaining();
        assert(self@.dom() =~= self.graph@.dom());
        for id in it: keys
            invariant
                it.seq() == all,
                all.no_duplicates(),
                all.unref().to_set() == self@.dom(),
                all.len() == self@.dom().len(),
                ids@.len() == it.index(),
                forall|i: int| 0 <= i < ids@.len() ==> ids@[i] == *all[i],
        {
            ids.push(*id);
        }
        proof {
            assert(ids@ =~= all.unref());
            assert(ids@.no_duplicates()) by {
                assert forall|i: int, j: int|
                    0 <= i < ids@.len() && 0 <= j < ids@.len() && i != j implies ids@[i]
                    != ids@[j] by {
                    assert(all[i] != all[j]);
                }
            }
        }
        ids
    }

    /// The nodes, each once, in no particular order.
    pub fn iter_nodes(&self) -> (nodes: Vec<&Node>)
        ensures
            nodes@.len() == self@.len(),
            forall|i: int|
                0 <= i < nodes@.len() ==> self@.contains_key(#[trigger] nodes@[i].id)
                    && nodes@[i]@ == self@[nodes@[i].id],
            forall|i: int, j: int|
                0 <= i < j < nodes@.len() ==> #[trigger] nodes@[i].id != #[trigger] nodes@[j].id,
            forall|id: NodeId|
                self@.contains_key(id) ==> exists|i: int|
                    0 <= i < nodes@.len() && #[trigger] nodes@[i].id == id,
    {
        proof {
            use_type_invariant(self);
        }
        let mut nodes: Vec<&Node> = Vec::new();
        let entries = self.graph.iter();
        let ghost all = entries.remaining();
        assert(self@.dom() =~= self.graph@.dom());
        for entry in it: entries
            invariant
                it.seq() == all,
                nodes@.len() == it.index(),
                forall|i: int| 0 <= i < nodes@.len() ==> nodes@[i] == all[i].1,
        {
            nodes.push(entry.1);
        }
        proof {
            assert forall|i: int| 0 <= i < nodes@.len() implies self@.contains_key(
                #[trigger] nodes@[i].id,
            ) && nodes@[i]@ == self@[nodes@[i].id] by {
                assert(self.graph@.contains_key(*all[i].0));
            }
            assert forall|i: int, j: int| 0 <= i < j < nodes@.len() implies #[trigger] nodes@[i].id
                != #[trigger] nodes@[j].id by {
                assert(self.graph@.contains_key(*all[i].0));
                assert(self.graph@.contains_key(*all[j].0));
                assert(all[i] != all[j]);
            }
            assert forall|id: NodeId| self@.contains_key(id) implies exists|i: int|
                0 <= i < nodes@.len() && #[trigger] nodes@[i].id == id by {
                assert(self.graph@.contains_key(id));
                let entry = (&id, &self.graph@[id]);
                assert(all.contains(entry));
                let i = choose|i: int| 0 <= i < all.len() && all[i] == entry;
                assert(nodes@[i].id == id);
            }
        }
        nodes
    }

    /// How many nodes the graph has.
    pub fn len(&self) -> (n: usize)
        ensures
            n == self@.len(),
            self@.dom().finite(),
    {
        assert(self@.dom() =~= self.graph@.dom());
        self.graph.len()
    }

    /// Whether the graph has no node.
    #[must_use]
    pub fn is_empty(&self) -> (b: bool)
        ensures
            b == (self@.len() == 0),
    {
        self.len() == 0
    }
}

} // verus!
