//! Ways through a graph: edges, walks, and what can be reached.
use crate::geograph::{NodeId, NodeView};
use vstd::prelude::*;

verus! {

/// Whether the graph leads from `from` straight to `to`: both are nodes of
/// the graph, and `to` is among the waypoints of `from`.
pub open spec fn has_edge(graph: Map<NodeId, NodeView>, from: NodeId, to: NodeId) -> bool {
    &&& graph.contains_key(from)
    &&& graph.contains_key(to)
    &&& graph[from].waypoints.contains(to)
}

/// Whether `walk` is a way through the graph: a node, and from each node on
/// it an edge to the next.
pub open spec fn is_walk(graph: Map<NodeId, NodeView>, walk: Seq<NodeId>) -> bool {
    &&& walk.len() > 0
    &&& graph.contains_key(walk[0])
    &&& forall|i: int| 0 <= i < walk.len() - 1 ==> has_edge(graph, #[trigger] walk[i], walk[i + 1])
}

/// Whether `walk` is a way through the graph from `from` to `to`.
pub open spec fn connects(
    graph: Map<NodeId, NodeView>,
    walk: Seq<NodeId>,
    from: NodeId,
    to: NodeId,
) -> bool {
    &&& is_walk(graph, walk)
    &&& walk[0] == from
    &&& walk.last() == to
}

/// Whether the graph has a way from `from` to `to`.
pub open spec fn reachable(graph: Map<NodeId, NodeView>, from: NodeId, to: NodeId) -> bool {
    exists|walk: Seq<NodeId>| connects(graph, walk, from, to)
}

/// Every node on a way through the graph is a node of the graph.
pub proof fn lemma_walk_is_inside(graph: Map<NodeId, NodeView>, walk: Seq<NodeId>)
    requires
        is_walk(graph, walk),
    ensures
        forall|i: int| 0 <= i < walk.len() ==> graph.contains_key(#[trigger] walk[i]),
{
    assert forall|i: int| 0 <= i < walk.len() implies graph.contains_key(#[trigger] walk[i]) by {
        if i > 0 {
            assert(has_edge(graph, walk[i - 1], walk[i]));
        }
    }
}

/// A node reaches itself.
pub proof fn lemma_reaches_itself(graph: Map<NodeId, NodeView>, id: NodeId)
    requires
        graph.contains_key(id),
    ensures
        reachable(graph, id, id),
{
    assert(connects(graph, seq![id], id, id));
}

/// A way that is taken one edge further is a way.
pub proof fn lemma_walk_goes_on(
    graph: Map<NodeId, NodeView>,
    walk: Seq<NodeId>,
    from: NodeId,
    to: NodeId,
    next: NodeId,
)
    requires
        connects(graph, walk, from, to),
        has_edge(graph, to, next),
    ensures
        connects(graph, walk.push(next), from, next),
{
    let longer = walk.push(next);
    assert forall|i: int| 0 <= i < longer.len() - 1 implies has_edge(
        graph,
        #[trigger] longer[i],
        longer[i + 1],
    ) by {
        if i < walk.len() - 1 {
            assert(has_edge(graph, walk[i], walk[i + 1]));
        }
    }
}

/// What can be reached from a node can be reached from whatever reaches
/// that node.
pub proof fn lemma_reaches_one_further(
    graph: Map<NodeId, NodeView>,
    from: NodeId,
    to: NodeId,
    next: NodeId,
)
    requires
        reachable(graph, from, to),
        has_edge(graph, to, next),
    ensures
        reachable(graph, from, next),
{
    let walk = choose|walk: Seq<NodeId>| connects(graph, walk, from, to);
    lemma_walk_goes_on(graph, walk, from, to, next);
}

/// Whether no edge of the graph leads out of `nodes`.
pub open spec fn is_closed(graph: Map<NodeId, NodeView>, nodes: Set<NodeId>) -> bool {
    forall|from: NodeId, to: NodeId|
        nodes.contains(from) && #[trigger] has_edge(graph, from, to) ==> nodes.contains(to)
}

/// A way that starts in a set which no edge leaves stays in it.
pub proof fn lemma_walk_stays_inside(
    graph: Map<NodeId, NodeView>,
    nodes: Set<NodeId>,
    walk: Seq<NodeId>,
    upto: int,
)
    requires
        is_closed(graph, nodes),
        is_walk(graph, walk),
        nodes.contains(walk[0]),
        0 <= upto < walk.len(),
    ensures
        nodes.contains(walk[upto]),
    decreases upto,
{
    if upto > 0 {
        lemma_walk_stays_inside(graph, nodes, walk, upto - 1);
        assert(has_edge(graph, walk[upto - 1], walk[upto]));
    }
}

/// Whether every edge of the graph has an edge that leads back.
pub open spec fn is_symmetric(graph: Map<NodeId, NodeView>) -> bool {
    forall|from: NodeId, to: NodeId| #[trigger] has_edge(graph, from, to) ==> has_edge(graph, to, from)
}

/// A way that ends where another way starts goes on with that way.
pub proof fn lemma_walks_join(
    graph: Map<NodeId, NodeView>,
    first: Seq<NodeId>,
    second: Seq<NodeId>,
    from: NodeId,
    over: NodeId,
    to: NodeId,
)
    requires
        connects(graph, first, from, over),
        connects(graph, second, over, to),
    ensures
        connects(graph, first + second.drop_first(), from, to),
{
    let joined = first + second.drop_first();
    assert forall|i: int| 0 <= i < joined.len() - 1 implies has_edge(
        graph,
        #[trigger] joined[i],
        joined[i + 1],
    ) by {
        if i < first.len() - 1 {
            assert(has_edge(graph, first[i], first[i + 1]));
        } else {
            let k = i - (first.len() - 1);
            assert(has_edge(graph, second[k], second[k + 1]));
        }
    }
}

/// In a graph whose edges all lead back, a way walked backwards is a way.
pub proof fn lemma_walk_leads_back(
    graph: Map<NodeId, NodeView>,
    walk: Seq<NodeId>,
    from: NodeId,
    to: NodeId,
)
    requires
        is_symmetric(graph),
        connects(graph, walk, from, to),
    ensures
        connects(graph, walk.reverse(), to, from),
{
    let back = walk.reverse();
    lemma_walk_is_inside(graph, walk);
    assert(graph.contains_key(walk[walk.len() - 1]));
    assert forall|i: int| 0 <= i < back.len() - 1 implies has_edge(
        graph,
        #[trigger] back[i],
        back[i + 1],
    ) by {
        let k = walk.len() - 2 - i;
        assert(has_edge(graph, walk[k], walk[k + 1]));
    }
}

} // verus!
