//! Graphs as a dataset lists them, and how they become graphs of the engine.
use crate::geograph::{Geograph, Node, NodeId, NodeView};
use crate::geoloc::Coord;
use vstd::prelude::*;

verus! {

/// A node as a dataset lists it: its identifier, its coordinates with the
/// latitude first and the longitude second, and its waypoints.
#[derive(Debug, Clone)]
pub struct JsonNode {
    pub id: NodeId,
    pub coordinates: Vec<Coord>,
    pub waypoints: Vec<NodeId>,
}

/// A graph as a dataset lists it: its name and its nodes.
#[derive(Debug, Clone)]
pub struct JsonGeograph {
    pub geograph: String,
    pub nodes: Vec<JsonNode>,
}

/// The node that a listed node stands for.
pub open spec fn listed_node(node: JsonNode) -> NodeView {
    NodeView {
        id: node.id,
        waypoints: node.waypoints@,
        geoloc: (node.coordinates@[0], node.coordinates@[1]),
    }
}

/// The graph that holds the listed nodes, each stored in its turn: of two
/// nodes with one identifier the later one stays.
pub open spec fn listed_graph(nodes: Seq<JsonNode>) -> Map<NodeId, NodeView>
    decreases nodes.len(),
{
    if nodes.len() == 0 {
        Map::empty()
    } else {
        listed_graph(nodes.drop_last()).insert(nodes.last().id, listed_node(nodes.last()))
    }
}

impl JsonNode {
    /// Whether the node lists a latitude and a longitude.
    pub fn is_located(&self) -> (b: bool)
        ensures
            b == (self.coordinates@.len() >= 2),
    {
        self.coordinates.len() >= 2
    }
}

impl JsonGeograph {
    /// Whether every node lists a latitude and a longitude.
    pub fn is_located(&self) -> (b: bool)
        ensures
            b == (forall|i: int|
                0 <= i < self.nodes@.len() ==> (#[trigger] self.nodes@[i]).coordinates@.len() >= 2),
    {
        let mut i: usize = 0;
        while i < self.nodes.len()
            invariant
                i <= self.nodes@.len(),
                forall|k: int|
                    0 <= k < i ==> (#[trigger] self.nodes@[k]).coordinates@.len() >= 2,
            decreases self.nodes@.len() - i,
        {
            if !self.nodes[i].is_located() {
                return false;
            }
            i += 1;
        }
        true
    }
}

impl Node {
    /// The node that `node` lists.
    pub fn from_json(node: JsonNode) -> (made: Node)
        requires
            node.coordinates@.len() >= 2,
        ensures
            made@ == listed_node(node),
    {
        let geoloc = (node.coordinates[0], node.coordinates[1]);
        Node::new(node.id, geoloc, node.waypoints)
    }
}

impl Geograph {
    /// The graph that `json` lists.
    pub fn from_json(json: JsonGeograph) -> (made: Geograph)
        requires
            forall|i: int|
                0 <= i < json.nodes@.len() ==> (#[trigger] json.nodes@[i]).coordinates@.len() >= 2,
        ensures
            made@ == listed_graph(json.nodes@),
            made.name_view() == json.geograph@,
    {
        let mut made = Geograph::new(json.geograph.as_str());
        let ghost listed = json.nodes@;
        for node in it: json.nodes
            invariant
                it.seq() == listed,
                forall|i: int|
                    0 <= i < listed.len() ==> (#[trigger] listed[i]).coordinates@.len() >= 2,
                made@ == listed_graph(listed.take(it.index())),
                made.name_view() == json.geograph@,
        {
            proof {
                let done = it.index();
                assert(listed.take(done + 1).drop_last() =~= listed.take(done));
                assert(listed.take(done + 1).last() == listed[done]);
            }
            made.add(Node::from_json(node));
        }
        assert(listed.take(listed.len() as int) =~= listed);
        made
    }
}

} // verus!
