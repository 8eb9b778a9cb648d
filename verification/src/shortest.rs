//! Why a search finds the shortest way: what holds of a search between two
//! steps, and the proof that every step keeps it.
use crate::dijkstra::{
    best_known, edge_length, has_missing_neighbor, initial_distance, is_well_formed, least_of,
    relax, relax_all, run, start, step, trail, walk_length, Progress, Search,
};
use crate::error::GraphError;
use crate::geograph::{NodeId, NodeView};
use crate::geoloc::{
    is_inflationary, is_lawful, Distance, DistanceModel, INFINITY_BITS, ZERO_BITS,
};
use crate::queue::{is_least, precedes, Entry};
use crate::walk::{connects, has_edge, is_walk, lemma_walk_goes_on, lemma_walk_is_inside};
use vstd::multiset::Multiset;
use vstd::prelude::*;

verus! {

/// Whether `found` is what a search for the shortest way from `origin` to
/// `destination` owes: a way short of not reached that no other way
/// undercuts; no way, where every way is as long as not reached; an error,
/// where the graph is not well formed.
pub open spec fn is_shortest<M: DistanceModel>(
    model: &M,
    graph: Map<NodeId, NodeView>,
    origin: NodeId,
    destination: NodeId,
    found: Result<Option<Seq<NodeId>>, GraphError>,
) -> bool {
    match found {
        Ok(Some(way)) => {
            &&& connects(graph, way, origin, destination)
            &&& walk_length(model, graph, way).0 < INFINITY_BITS
            &&& forall|other: Seq<NodeId>| #[trigger]
                connects(graph, other, origin, destination) ==> walk_length(model, graph, way).0
                    <= walk_length(model, graph, other).0
        },
        Ok(None) => forall|other: Seq<NodeId>| #[trigger]
            connects(graph, other, origin, destination) ==> walk_length(model, graph, other).0
                >= INFINITY_BITS,
        Err(_) => !is_well_formed(graph),
    }
}

/// The first nodes of a way are a way.
proof fn lemma_walk_starts_with_walk(
    graph: Map<NodeId, NodeView>,
    walk: Seq<NodeId>,
    origin: NodeId,
    upto: int,
)
    requires
        is_walk(graph, walk),
        walk[0] == origin,
        0 <= upto < walk.len(),
    ensures
        connects(graph, walk.take(upto + 1), origin, walk[upto]),
{
    let head = walk.take(upto + 1);
    assert forall|i: int| 0 <= i < head.len() - 1 implies has_edge(
        graph,
        #[trigger] head[i],
        head[i + 1],
    ) by {
        assert(has_edge(graph, walk[i], walk[i + 1]));
    }
}

/// A way is no shorter than its first nodes are.
proof fn lemma_walk_grows<M: DistanceModel>(
    model: &M,
    graph: Map<NodeId, NodeView>,
    walk: Seq<NodeId>,
    upto: int,
)
    requires
        is_inflationary(model),
        0 <= upto < walk.len(),
    ensures
        walk_length(model, graph, walk.take(upto + 1)).0 <= walk_length(model, graph, walk).0,
    decreases walk.len(),
{
    if upto + 1 == walk.len() {
        assert(walk.take(upto + 1) =~= walk);
    } else {
        let shorter = walk.drop_last();
        lemma_walk_grows(model, graph, shorter, upto);
        assert(shorter.take(upto + 1) =~= walk.take(upto + 1));
        let leg = edge_length(model, graph, walk[walk.len() - 2], walk[walk.len() - 1]);
        assert(walk_length(model, graph, shorter).0 <= model.sum_spec(
            walk_length(model, graph, shorter),
            leg,
        ).0);
    }
}

/// A way that starts inside a set and ends outside of it leaves the set at
/// some edge.
proof fn lemma_walk_leaves(nodes: Set<NodeId>, walk: Seq<NodeId>, from: int) -> (at: int)
    requires
        0 < from < walk.len(),
        nodes.contains(walk[0]),
        !nodes.contains(walk[from]),
    ensures
        0 <= at < walk.len() - 1,
        nodes.contains(walk[at]),
        !nodes.contains(walk[at + 1]),
    decreases from,
{
    if nodes.contains(walk[from - 1]) {
        from - 1
    } else {
        lemma_walk_leaves(nodes, walk, from - 1)
    }
}

/// A trail that is found within some steps is found within more.
proof fn lemma_trail_needs_no_more(
    previous: Map<NodeId, NodeId>,
    origin: NodeId,
    at: NodeId,
    fuel: nat,
    more: nat,
)
    requires
        trail(previous, origin, at, fuel) is Some,
        fuel <= more,
    ensures
        trail(previous, origin, at, more) == trail(previous, origin, at, fuel),
    decreases fuel,
{
    if at != origin {
        lemma_trail_needs_no_more(
            previous,
            origin,
            previous[at],
            (fuel - 1) as nat,
            (more - 1) as nat,
        );
    }
}

/// A trail does not change when a node that is not on it gets another
/// predecessor.
proof fn lemma_trail_stays(
    previous: Map<NodeId, NodeId>,
    origin: NodeId,
    at: NodeId,
    fuel: nat,
    inside: Set<NodeId>,
    changed: NodeId,
    before: NodeId,
)
    requires
        trail(previous, origin, at, fuel) is Some,
        forall|i: int|
            0 <= i < trail(previous, origin, at, fuel)->0.len() ==> inside.contains(
                #[trigger] trail(previous, origin, at, fuel)->0[i],
            ),
        !inside.contains(changed),
    ensures
        trail(previous.insert(changed, before), origin, at, fuel) == trail(
            previous,
            origin,
            at,
            fuel,
        ),
    decreases fuel,
{
    if at != origin {
        let way = trail(previous, origin, at, fuel)->0;
        let rest = trail(previous, origin, previous[at], (fuel - 1) as nat)->0;
        assert(way == rest.push(at));
        assert(way[way.len() - 1] == at);
        assert(at != changed);
        assert forall|i: int| 0 <= i < rest.len() implies inside.contains(#[trigger] rest[i]) by {
            assert(way[i] == rest[i]);
        }
        lemma_trail_stays(
            previous,
            origin,
            previous[at],
            (fuel - 1) as nat,
            inside,
            changed,
            before,
        );
    }
}

/// What a queue holds after an entry was added to it.
proof fn lemma_queue_with(queue: Multiset<Entry>, added: Entry)
    ensures
        forall|entry: Entry| #[trigger]
            queue.insert(added).contains(entry) <==> queue.contains(entry) || entry == added,
{
    broadcast use vstd::multiset::group_multiset_axioms;

    assert forall|entry: Entry| #[trigger]
        queue.insert(added).contains(entry) <==> queue.contains(entry) || entry == added by {
        assert(queue.insert(added).count(entry) == queue.count(entry) + if entry == added {
            1nat
        } else {
            0nat
        });
    }
}

/// What a queue holds after an entry was taken from it.
proof fn lemma_queue_without(queue: Multiset<Entry>, taken: Entry)
    ensures
        forall|entry: Entry| #[trigger] queue.remove(taken).contains(entry) ==> queue.contains(entry),
        forall|entry: Entry|
            queue.contains(entry) && entry != taken ==> #[trigger] queue.remove(taken).contains(
                entry,
            ),
{
    broadcast use vstd::multiset::group_multiset_axioms;

    assert forall|entry: Entry| #[trigger]
        queue.remove(taken).contains(entry) implies queue.contains(entry) by {
        assert(queue.remove(taken).count(entry) <= queue.count(entry));
    }
    assert forall|entry: Entry| queue.contains(entry) && entry != taken implies #[trigger]
        queue.remove(taken).contains(entry) by {
        assert(queue.remove(taken).count(entry) == queue.count(entry));
    }
}

/// The bookkeeping of a search: every node has a best length, none beyond
/// not reached; the origin has travelled nothing and has no predecessor; a
/// node without a predecessor, other than the origin, is not reached; and
/// the destination is not settled.
spec fn kept(
    graph: Map<NodeId, NodeView>,
    origin: NodeId,
    destination: NodeId,
    search: Search,
) -> bool {
    &&& graph.dom().finite()
    &&& search.best.dom() == graph.dom()
    &&& search.settled.subset_of(graph.dom())
    &&& !search.settled.contains(destination)
    &&& forall|id: NodeId|
        graph.contains_key(id) ==> (#[trigger] search.best[id]).0 <= INFINITY_BITS
    &&& graph.contains_key(origin) ==> search.best[origin] == Distance(ZERO_BITS)
        && !search.previous.contains_key(origin)
    &&& forall|id: NodeId|
        graph.contains_key(id) && id != origin && !search.previous.contains_key(id)
            ==> #[trigger] search.best[id] == Distance(INFINITY_BITS)
}

/// Every predecessor is settled, has an edge to its node, and gives the
/// node its best length, which is short of not reached.
spec fn linked<M: DistanceModel>(model: &M, graph: Map<NodeId, NodeView>, search: Search) -> bool {
    forall|id: NodeId| #[trigger]
        search.previous.contains_key(id) ==> {
            let before = search.previous[id];
            &&& graph.contains_key(id)
            &&& search.settled.contains(before)
            &&& has_edge(graph, before, id)
            &&& search.best[id] == model.sum_spec(
                search.best[before],
                edge_length(model, graph, before, id),
            )
            &&& search.best[id].0 < INFINITY_BITS
        }
}

/// What waits in the queue: lengths of nodes of the graph, none below the
/// best length of its node and none below the length of a settled node; and
/// every node that is not settled waits with its best length.
spec fn queued(graph: Map<NodeId, NodeView>, search: Search) -> bool {
    &&& forall|entry: Entry| #[trigger]
        search.queue.contains(entry) ==> graph.contains_key(entry.1) && search.best[entry.1].0
            <= entry.0.0
    &&& forall|id: NodeId|
        graph.contains_key(id) && !search.settled.contains(id) ==> search.queue.contains(
            (#[trigger] search.best[id], id),
        )
    &&& forall|id: NodeId, entry: Entry|
        search.settled.contains(id) && #[trigger] search.queue.contains(entry) ==> (
        #[trigger] search.best[id]).0 <= entry.0.0
}

/// Whether the node `to` has a best length that the way over `from` does not
/// undercut.
spec fn is_relaxed<M: DistanceModel>(
    model: &M,
    graph: Map<NodeId, NodeView>,
    search: Search,
    from: NodeId,
    to: NodeId,
) -> bool {
    search.best[to].0 <= model.sum_spec(search.best[from], edge_length(model, graph, from, to)).0
}

/// Whether `to` is among the first `done` waypoints of `from`.
spec fn is_among(graph: Map<NodeId, NodeView>, from: NodeId, done: int, to: NodeId) -> bool {
    exists|k: int| 0 <= k < done && k < graph[from].waypoints.len() && #[trigger] graph[from].waypoints[k] == to
}

/// Every edge from a settled node was looked at, but for the edges of
/// `pending` to the waypoints after its first `done`.
spec fn relaxed<M: DistanceModel>(
    model: &M,
    graph: Map<NodeId, NodeView>,
    search: Search,
    pending: NodeId,
    done: int,
) -> bool {
    forall|from: NodeId, to: NodeId|
        search.settled.contains(from) && #[trigger] has_edge(graph, from, to) ==> is_relaxed(
            model,
            graph,
            search,
            from,
            to,
        ) || (from == pending && !is_among(graph, pending, done, to))
}

/// No way to a settled node is shorter than the best length of the node.
spec fn optimal<M: DistanceModel>(
    model: &M,
    graph: Map<NodeId, NodeView>,
    origin: NodeId,
    search: Search,
) -> bool {
    forall|id: NodeId, way: Seq<NodeId>|
        search.settled.contains(id) && #[trigger] connects(graph, way, origin, id)
            ==> search.best[id].0 <= walk_length(model, graph, way).0
}

/// Whether the trail to `id` is a way over settled nodes that has the best
/// length of `id`.
spec fn has_trail<M: DistanceModel>(
    model: &M,
    graph: Map<NodeId, NodeView>,
    origin: NodeId,
    search: Search,
    id: NodeId,
    fuel: nat,
) -> bool {
    &&& trail(search.previous, origin, id, fuel) matches Some(way)
    &&& connects(graph, way, origin, id)
    &&& walk_length(model, graph, way) == search.best[id]
    &&& forall|i: int| 0 <= i < way.len() ==> search.settled.contains(#[trigger] way[i])
}

/// Every settled node that was reached has its trail.
spec fn trailed<M: DistanceModel>(
    model: &M,
    graph: Map<NodeId, NodeView>,
    origin: NodeId,
    search: Search,
) -> bool {
    forall|id: NodeId| #[trigger]
        search.settled.contains(id) && (id == origin || search.previous.contains_key(id))
            ==> has_trail(model, graph, origin, search, id, search.settled.len())
}

/// What holds of a search while the waypoints of `pending` are looked at.
spec fn sound_during<M: DistanceModel>(
    model: &M,
    graph: Map<NodeId, NodeView>,
    origin: NodeId,
    destination: NodeId,
    search: Search,
    pending: NodeId,
    done: int,
) -> bool {
    &&& kept(graph, origin, destination, search)
    &&& linked(model, graph, search)
    &&& queued(graph, search)
    &&& relaxed(model, graph, search, pending, done)
    &&& optimal(model, graph, origin, search)
    &&& trailed(model, graph, origin, search)
    &&& graph.contains_key(pending)
    &&& search.settled.contains(pending)
    &&& forall|id: NodeId| #[trigger]
        search.settled.contains(id) ==> search.best[id].0 <= search.best[pending].0
}

/// What holds of a search between two steps.
spec fn sound<M: DistanceModel>(
    model: &M,
    graph: Map<NodeId, NodeView>,
    origin: NodeId,
    destination: NodeId,
    search: Search,
) -> bool {
    &&& kept(graph, origin, destination, search)
    &&& linked(model, graph, search)
    &&& queued(graph, search)
    &&& forall|from: NodeId, to: NodeId|
        search.settled.contains(from) && #[trigger] has_edge(graph, from, to) ==> is_relaxed(
            model,
            graph,
            search,
            from,
            to,
        )
    &&& optimal(model, graph, origin, search)
    &&& trailed(model, graph, origin, search)
}

/// The entry that leaves the queue for a node that is not settled holds the
/// best length of the node.
proof fn lemma_popped_is_best(graph: Map<NodeId, NodeView>, search: Search, popped: Entry)
    requires
        queued(graph, search),
        is_least(search.queue, popped),
        !search.settled.contains(popped.1),
    ensures
        graph.contains_key(popped.1),
        popped.0 == search.best[popped.1],
{
    let id = popped.1;
    assert(search.queue.contains(popped));
    let waiting = (search.best[id], id);
    assert(search.queue.contains(waiting));
    assert(precedes(popped, waiting));
}

/// No way to the node that is settled next is shorter than the length with
/// which the node leaves the queue.
proof fn lemma_next_is_optimal<M: DistanceModel>(
    model: &M,
    graph: Map<NodeId, NodeView>,
    origin: NodeId,
    destination: NodeId,
    search: Search,
    popped: Entry,
    way: Seq<NodeId>,
)
    requires
        is_lawful(model),
        sound(model, graph, origin, destination, search),
        is_least(search.queue, popped),
        !search.settled.contains(popped.1),
        connects(graph, way, origin, popped.1),
    ensures
        search.best[popped.1].0 <= walk_length(model, graph, way).0,
{
    let id = popped.1;
    lemma_popped_is_best(graph, search, popped);
    if !search.settled.contains(origin) {
        let waiting = (search.best[origin], origin);
        assert(search.queue.contains(waiting));
        assert(precedes(popped, waiting));
    } else {
        let at = lemma_walk_leaves(search.settled, way, way.len() - 1);
        let inside = way[at];
        let outside = way[at + 1];
        assert(has_edge(graph, inside, outside));
        lemma_walk_starts_with_walk(graph, way, origin, at);
        lemma_walk_starts_with_walk(graph, way, origin, at + 1);
        let head = way.take(at + 1);
        let longer = way.take(at + 2);
        assert(longer.drop_last() =~= head);
        assert(search.best[inside].0 <= walk_length(model, graph, head).0);
        let leg = edge_length(model, graph, inside, outside);
        assert(walk_length(model, graph, longer) == model.sum_spec(
            walk_length(model, graph, head),
            leg,
        ));
        assert(model.sum_spec(search.best[inside], leg).0 <= model.sum_spec(
            walk_length(model, graph, head),
            leg,
        ).0);
        assert(is_relaxed(model, graph, search, inside, outside));
        let waiting = (search.best[outside], outside);
        assert(search.queue.contains(waiting));
        assert(precedes(popped, waiting));
        lemma_walk_grows(model, graph, way, at + 1);
    }
}

/// A queue that holds an entry has a least entry.
proof fn lemma_has_least(queue: Multiset<Entry>)
    requires
        queue.len() > 0,
    ensures
        is_least(queue, least_of(queue)),
    decreases queue.len(),
{
    broadcast use vstd::multiset::group_multiset_axioms;

    let one = queue.choose();
    assert(queue.contains(one));
    let rest = queue.remove(one);
    lemma_queue_without(queue, one);
    let least = if rest.len() == 0 {
        assert forall|other: Entry| queue.contains(other) implies precedes(one, other) by {
            if other != one {
                assert(rest.contains(other));
                assert(rest.count(other) <= rest.len());
            }
        }
        one
    } else {
        lemma_has_least(rest);
        let next = least_of(rest);
        let first = if precedes(one, next) {
            one
        } else {
            next
        };
        assert forall|other: Entry| queue.contains(other) implies precedes(first, other) by {
            if other != one {
                assert(rest.contains(other));
                assert(precedes(next, other));
            }
        }
        first
    };
    assert(is_least(queue, least));
}

/// What waits in the queue when a search starts.
proof fn lemma_start_queue(graph: Map<NodeId, NodeView>, origin: NodeId)
    requires
        graph.dom().finite(),
    ensures
        forall|entry: Entry| #[trigger]
            start(graph, origin).queue.contains(entry) <==> graph.contains_key(entry.1)
                && entry.0 == initial_distance(origin, entry.1),
{
    broadcast use vstd::multiset::group_multiset_axioms;

    let counts = Map::new(
        |entry: Entry| graph.contains_key(entry.1) && entry.0 == initial_distance(origin, entry.1),
        |entry: Entry| 1nat,
    );
    let first = |id: NodeId| (initial_distance(origin, id), id);
    graph.dom().lemma_map_finite(first);
    assert(counts.dom() =~= graph.dom().map(first)) by {
        assert forall|entry: Entry| counts.dom().contains(entry) implies graph.dom().map(
            first,
        ).contains(entry) by {
            assert(graph.dom().contains(entry.1) && first(entry.1) == entry);
        }
    }
    assert forall|entry: Entry| #[trigger]
        start(graph, origin).queue.contains(entry) <==> graph.contains_key(entry.1) && entry.0
            == initial_distance(origin, entry.1) by {
        if counts.dom().contains(entry) {
            assert(Multiset::from_map(counts).count(entry) == counts[entry]);
        } else {
            assert(Multiset::from_map(counts).count(entry) == 0);
        }
    }
}

/// A search starts sound.
proof fn lemma_start_is_sound<M: DistanceModel>(
    model: &M,
    graph: Map<NodeId, NodeView>,
    origin: NodeId,
    destination: NodeId,
)
    requires
        graph.dom().finite(),
    ensures
        sound(model, graph, origin, destination, start(graph, origin)),
{
    let search = start(graph, origin);
    lemma_start_queue(graph, origin);
    assert(search.best.dom() =~= graph.dom());
    assert(queued(graph, search)) by {
        assert forall|id: NodeId|
            graph.contains_key(id) && !search.settled.contains(id) implies search.queue.contains(
            (#[trigger] search.best[id], id),
        ) by {
            let entry = (search.best[id], id);
            assert(entry.0 == initial_distance(origin, entry.1));
        }
    }
}

/// A stale entry that leaves the queue leaves the search sound.
proof fn lemma_stale_keeps_sound<M: DistanceModel>(
    model: &M,
    graph: Map<NodeId, NodeView>,
    origin: NodeId,
    destination: NodeId,
    search: Search,
    popped: Entry,
)
    requires
        sound(model, graph, origin, destination, search),
        search.settled.contains(popped.1),
    ensures
        sound(
            model,
            graph,
            origin,
            destination,
            Search { queue: search.queue.remove(popped), ..search },
        ),
{
    let after = Search { queue: search.queue.remove(popped), ..search };
    lemma_queue_without(search.queue, popped);
    assert(queued(graph, after)) by {
        assert forall|id: NodeId|
            graph.contains_key(id) && !after.settled.contains(id) implies after.queue.contains(
            (#[trigger] after.best[id], id),
        ) by {
            assert(search.queue.contains((search.best[id], id)));
        }
    }
    assert(trailed(model, graph, origin, after)) by {
        assert forall|id: NodeId| #[trigger]
            after.settled.contains(id) && (id == origin || after.previous.contains_key(
                id,
            )) implies has_trail(model, graph, origin, after, id, after.settled.len()) by {
            assert(has_trail(model, graph, origin, search, id, search.settled.len()));
        }
    }
}

/// A settled node that was reached has a predecessor that was reached, or
/// is the origin.
proof fn lemma_predecessor_was_reached<M: DistanceModel>(
    model: &M,
    graph: Map<NodeId, NodeView>,
    origin: NodeId,
    destination: NodeId,
    search: Search,
    id: NodeId,
)
    requires
        is_inflationary(model),
        kept(graph, origin, destination, search),
        linked(model, graph, search),
        search.previous.contains_key(id),
    ensures
        search.previous[id] == origin || search.previous.contains_key(search.previous[id]),
{
    let before = search.previous[id];
    if before != origin && !search.previous.contains_key(before) {
        assert(has_edge(graph, before, id));
        assert(search.best[before] == Distance(INFINITY_BITS));
        let leg = edge_length(model, graph, before, id);
        assert(search.best[before].0 <= model.sum_spec(search.best[before], leg).0);
    }
}

/// The trail to a node whose predecessor has its trail.
proof fn lemma_trail_goes_on<M: DistanceModel>(
    model: &M,
    graph: Map<NodeId, NodeView>,
    origin: NodeId,
    destination: NodeId,
    search: Search,
    id: NodeId,
    fuel: nat,
)
    requires
        is_inflationary(model),
        kept(graph, origin, destination, search),
        linked(model, graph, search),
        trailed(model, graph, origin, search),
        graph.contains_key(id),
        id == origin || search.previous.contains_key(id),
        fuel > search.settled.len(),
    ensures
        trail(search.previous, origin, id, fuel) matches Some(way) && connects(
            graph,
            way,
            origin,
            id,
        ) && walk_length(model, graph, way) == search.best[id] && forall|i: int|
            0 <= i < way.len() - 1 ==> search.settled.contains(#[trigger] way[i]),
{
    if id == origin {
        let way = seq![origin];
        assert(trail(search.previous, origin, id, fuel) == Some(way));
        assert(connects(graph, way, origin, id));
    } else {
        let before = search.previous[id];
        lemma_predecessor_was_reached(model, graph, origin, destination, search, id);
        assert(search.settled.contains(before));
        assert(has_trail(model, graph, origin, search, before, search.settled.len()));
        lemma_trail_needs_no_more(
            search.previous,
            origin,
            before,
            search.settled.len(),
            (fuel - 1) as nat,
        );
        let head = trail(search.previous, origin, before, (fuel - 1) as nat)->0;
        let way = head.push(id);
        assert(trail(search.previous, origin, id, fuel) == Some(way));
        lemma_walk_goes_on(graph, head, origin, before, id);
        assert(way.drop_last() =~= head);
        assert(way[way.len() - 2] == before);
    }
}

/// The node that leaves the queue next is settled soundly, before any of
/// its waypoints is looked at.
proof fn lemma_settling_is_sound<M: DistanceModel>(
    model: &M,
    graph: Map<NodeId, NodeView>,
    origin: NodeId,
    destination: NodeId,
    search: Search,
    popped: Entry,
)
    requires
        is_lawful(model),
        sound(model, graph, origin, destination, search),
        is_least(search.queue, popped),
        !search.settled.contains(popped.1),
        popped.1 != destination,
    ensures
        sound_during(
            model,
            graph,
            origin,
            destination,
            Search {
                queue: search.queue.remove(popped),
                settled: search.settled.insert(popped.1),
                ..search
            },
            popped.1,
            0,
        ),
        search.best[popped.1] == popped.0,
{
    let id = popped.1;
    let after = Search {
        queue: search.queue.remove(popped),
        settled: search.settled.insert(id),
        ..search
    };
    lemma_popped_is_best(graph, search, popped);
    lemma_queue_without(search.queue, popped);
    vstd::set_lib::lemma_len_subset(search.settled, graph.dom());
    assert(after.settled.len() == search.settled.len() + 1);
    assert(queued(graph, after)) by {
        assert forall|other: NodeId|
            graph.contains_key(other) && !after.settled.contains(
                other,
            ) implies after.queue.contains((#[trigger] after.best[other], other)) by {
            assert(search.queue.contains((search.best[other], other)));
        }
        assert forall|other: NodeId, entry: Entry|
            after.settled.contains(other) && #[trigger] after.queue.contains(entry) implies (
        #[trigger] after.best[other]).0 <= entry.0.0 by {
            assert(search.queue.contains(entry));
            if other == id {
                assert(precedes(popped, entry));
            }
        }
    }
    assert(relaxed(model, graph, after, id, 0)) by {
        assert forall|from: NodeId, to: NodeId|
            after.settled.contains(from) && #[trigger] has_edge(graph, from, to) implies is_relaxed(
            model,
            graph,
            after,
            from,
            to,
        ) || (from == id && !is_among(graph, id, 0, to)) by {
            if from != id {
                assert(is_relaxed(model, graph, search, from, to));
            }
        }
    }
    assert(optimal(model, graph, origin, after)) by {
        assert forall|other: NodeId, way: Seq<NodeId>|
            after.settled.contains(other) && #[trigger] connects(
                graph,
                way,
                origin,
                other,
            ) implies after.best[other].0 <= walk_length(model, graph, way).0 by {
            if other == id {
                lemma_next_is_optimal(model, graph, origin, destination, search, popped, way);
            }
        }
    }
    assert(trailed(model, graph, origin, after)) by {
        assert forall|other: NodeId| #[trigger]
            after.settled.contains(other) && (other == origin || after.previous.contains_key(
                other,
            )) implies has_trail(model, graph, origin, after, other, after.settled.len()) by {
            if other == id {
                lemma_trail_goes_on(
                    model,
                    graph,
                    origin,
                    destination,
                    search,
                    id,
                    after.settled.len(),
                );
                let way = trail(search.previous, origin, id, after.settled.len())->0;
                assert(way[way.len() - 1] == id);
            } else {
                assert(has_trail(model, graph, origin, search, other, search.settled.len()));
                lemma_trail_needs_no_more(
                    search.previous,
                    origin,
                    other,
                    search.settled.len(),
                    after.settled.len(),
                );
            }
        }
    }
    assert forall|other: NodeId| #[trigger] after.settled.contains(other) implies after.best[other].0
        <= after.best[id].0 by {
        if other != id {
            assert(search.queue.contains(popped));
        }
    }
}

/// A waypoint that is looked at leaves the search sound.
proof fn lemma_relax_keeps_sound<M: DistanceModel>(
    model: &M,
    graph: Map<NodeId, NodeView>,
    origin: NodeId,
    destination: NodeId,
    search: Search,
    pending: NodeId,
    done: int,
)
    requires
        is_lawful(model),
        sound_during(model, graph, origin, destination, search, pending, done),
        0 <= done < graph[pending].waypoints.len(),
        graph.contains_key(graph[pending].waypoints[done]),
    ensures
        sound_during(
            model,
            graph,
            origin,
            destination,
            relax(
                model,
                graph,
                search,
                pending,
                search.best[pending],
                graph[pending].waypoints[done],
            ),
            pending,
            done + 1,
        ),
        relax(
            model,
            graph,
            search,
            pending,
            search.best[pending],
            graph[pending].waypoints[done],
        ).settled == search.settled,
        relax(
            model,
            graph,
            search,
            pending,
            search.best[pending],
            graph[pending].waypoints[done],
        ).best[pending] == search.best[pending],
{
    let to = graph[pending].waypoints[done];
    let travelled = search.best[pending];
    let leg = edge_length(model, graph, pending, to);
    let candidate = model.sum_spec(travelled, leg);
    let after = relax(model, graph, search, pending, travelled, to);
    assert(graph[pending].waypoints.contains(to));
    assert(has_edge(graph, pending, to));
    assert(search.best.dom().contains(to));
    assert(best_known(search, to) == search.best[to]);
    assert(travelled.0 <= candidate.0);
    assert(is_among(graph, pending, done + 1, to));
    if !search.settled.contains(to) && candidate.0 < search.best[to].0 {
        assert(to != pending);
        assert(to != origin);
        lemma_queue_with(search.queue, (candidate, to));
        assert(after.best.dom() =~= graph.dom());
        assert(kept(graph, origin, destination, after));
        assert(linked(model, graph, after)) by {
            assert forall|id: NodeId| #[trigger] after.previous.contains_key(id) implies {
                let before = after.previous[id];
                &&& graph.contains_key(id)
                &&& after.settled.contains(before)
                &&& has_edge(graph, before, id)
                &&& after.best[id] == model.sum_spec(
                    after.best[before],
                    edge_length(model, graph, before, id),
                )
                &&& after.best[id].0 < INFINITY_BITS
            } by {
                if id != to {
                    assert(search.previous.contains_key(id));
                }
            }
        }
        assert(queued(graph, after)) by {
            assert forall|entry: Entry| #[trigger]
                after.queue.contains(entry) implies graph.contains_key(entry.1)
                && after.best[entry.1].0 <= entry.0.0 by {
                if entry != (candidate, to) {
                    assert(search.queue.contains(entry));
                }
            }
            assert forall|id: NodeId|
                graph.contains_key(id) && !after.settled.contains(
                    id,
                ) implies after.queue.contains((#[trigger] after.best[id], id)) by {
                if id != to {
                    assert(search.queue.contains((search.best[id], id)));
                }
            }
            assert forall|id: NodeId, entry: Entry|
                after.settled.contains(id) && #[trigger] after.queue.contains(entry) implies (
            #[trigger] after.best[id]).0 <= entry.0.0 by {
                if entry != (candidate, to) {
                    assert(search.queue.contains(entry));
                } else {
                    assert(search.best[id].0 <= search.best[pending].0);
                }
            }
        }
        assert(relaxed(model, graph, after, pending, done + 1)) by {
            assert forall|from: NodeId, next: NodeId|
                after.settled.contains(from) && #[trigger] has_edge(
                    graph,
                    from,
                    next,
                ) implies is_relaxed(model, graph, after, from, next) || (from == pending
                && !is_among(graph, pending, done + 1, next)) by {
                if next == to {
                    if from != pending {
                        assert(is_relaxed(model, graph, search, from, next));
                    }
                } else {
                    if is_relaxed(model, graph, search, from, next) {
                    } else {
                        assert(!is_among(graph, pending, done, next));
                        if is_among(graph, pending, done + 1, next) {
                            let k = choose|k: int|
                                0 <= k < done + 1 && k < graph[pending].waypoints.len()
                                    && #[trigger] graph[pending].waypoints[k] == next;
                            assert(k == done);
                        }
                    }
                }
            }
        }
        assert(optimal(model, graph, origin, after)) by {
            assert forall|id: NodeId, way: Seq<NodeId>|
                after.settled.contains(id) && #[trigger] connects(
                    graph,
                    way,
                    origin,
                    id,
                ) implies after.best[id].0 <= walk_length(model, graph, way).0 by {
                assert(search.best[id].0 <= walk_length(model, graph, way).0);
            }
        }
        assert(trailed(model, graph, origin, after)) by {
            assert forall|id: NodeId| #[trigger]
                after.settled.contains(id) && (id == origin || after.previous.contains_key(
                    id,
                )) implies has_trail(model, graph, origin, after, id, after.settled.len()) by {
                assert(id != to);
                assert(id == origin || search.previous.contains_key(id));
                assert(has_trail(model, graph, origin, search, id, search.settled.len()));
                lemma_trail_stays(
                    search.previous,
                    origin,
                    id,
                    search.settled.len(),
                    search.settled,
                    to,
                    pending,
                );
            }
        }
        assert forall|id: NodeId| #[trigger] after.settled.contains(id) implies after.best[id].0
            <= after.best[pending].0 by {
            assert(search.best[id].0 <= search.best[pending].0);
        }
    } else {
        assert(after == search);
        assert(relaxed(model, graph, after, pending, done + 1)) by {
            assert forall|from: NodeId, next: NodeId|
                after.settled.contains(from) && #[trigger] has_edge(
                    graph,
                    from,
                    next,
                ) implies is_relaxed(model, graph, after, from, next) || (from == pending
                && !is_among(graph, pending, done + 1, next)) by {
                if from == pending && next == to {
                    if search.settled.contains(to) {
                        assert(search.best[to].0 <= search.best[pending].0);
                    }
                } else if is_relaxed(model, graph, search, from, next) {
                } else {
                    assert(!is_among(graph, pending, done, next));
                    if is_among(graph, pending, done + 1, next) {
                        let k = choose|k: int|
                            0 <= k < done + 1 && k < graph[pending].waypoints.len()
                                && #[trigger] graph[pending].waypoints[k] == next;
                        assert(k == done);
                    }
                }
            }
        }
    }
}

/// The waypoints of a node that are looked at in their order leave the
/// search sound.
proof fn lemma_relax_all_keeps_sound<M: DistanceModel>(
    model: &M,
    graph: Map<NodeId, NodeView>,
    origin: NodeId,
    destination: NodeId,
    search: Search,
    pending: NodeId,
    done: nat,
)
    requires
        is_lawful(model),
        sound_during(model, graph, origin, destination, search, pending, 0),
        !has_missing_neighbor(graph, pending),
        done <= graph[pending].waypoints.len(),
    ensures
        sound_during(
            model,
            graph,
            origin,
            destination,
            relax_all(model, graph, search, pending, search.best[pending], done),
            pending,
            done as int,
        ),
        relax_all(model, graph, search, pending, search.best[pending], done).settled
            == search.settled,
        relax_all(model, graph, search, pending, search.best[pending], done).best[pending]
            == search.best[pending],
    decreases done,
{
    if done > 0 {
        let before = (done - 1) as nat;
        lemma_relax_all_keeps_sound(model, graph, origin, destination, search, pending, before);
        let held = relax_all(model, graph, search, pending, search.best[pending], before);
        assert(graph.contains_key(graph[pending].waypoints[before as int]));
        lemma_relax_keeps_sound(model, graph, origin, destination, held, pending, before as int);
    }
}

/// A search is sound again when every waypoint of the pending node was
/// looked at.
proof fn lemma_all_looked_at<M: DistanceModel>(
    model: &M,
    graph: Map<NodeId, NodeView>,
    origin: NodeId,
    destination: NodeId,
    search: Search,
    pending: NodeId,
)
    requires
        sound_during(
            model,
            graph,
            origin,
            destination,
            search,
            pending,
            graph[pending].waypoints.len() as int,
        ),
    ensures
        sound(model, graph, origin, destination, search),
{
    assert forall|from: NodeId, to: NodeId|
        search.settled.contains(from) && #[trigger] has_edge(graph, from, to) implies is_relaxed(
        model,
        graph,
        search,
        from,
        to,
    ) by {
        if from == pending {
            let k = choose|k: int|
                0 <= k < graph[pending].waypoints.len() && graph[pending].waypoints[k] == to;
            assert(is_among(graph, pending, graph[pending].waypoints.len() as int, to));
        }
    }
}

/// The trail to the destination, when the destination leaves the queue, is
/// the shortest way to it.
proof fn lemma_destination_is_shortest<M: DistanceModel>(
    model: &M,
    graph: Map<NodeId, NodeView>,
    origin: NodeId,
    destination: NodeId,
    search: Search,
    popped: Entry,
)
    requires
        is_lawful(model),
        sound(model, graph, origin, destination, search),
        is_least(search.queue, popped),
        popped.1 == destination,
    ensures
        is_shortest(
            model,
            graph,
            origin,
            destination,
            Ok(trail(search.previous, origin, destination, graph.len())),
        ),
{
    lemma_popped_is_best(graph, search, popped);
    let found = trail(search.previous, origin, destination, graph.len());
    assert forall|other: Seq<NodeId>| #[trigger]
        connects(graph, other, origin, destination) implies search.best[destination].0
        <= walk_length(model, graph, other).0 by {
        lemma_next_is_optimal(model, graph, origin, destination, search, popped, other);
    }
    let rest = graph.dom().remove(destination);
    assert(search.settled.subset_of(rest));
    vstd::set_lib::lemma_len_subset(search.settled, rest);
    assert(graph.len() > search.settled.len());
    if destination == origin || search.previous.contains_key(destination) {
        lemma_trail_goes_on(model, graph, origin, destination, search, destination, graph.len());
    } else {
        assert(found is None);
        assert(search.best[destination] == Distance(INFINITY_BITS));
    }
}

/// A search whose queue is empty has no way to look for.
proof fn lemma_empty_queue_is_shortest<M: DistanceModel>(
    model: &M,
    graph: Map<NodeId, NodeView>,
    origin: NodeId,
    destination: NodeId,
    search: Search,
)
    requires
        sound(model, graph, origin, destination, search),
        search.queue.len() == 0,
    ensures
        is_shortest(model, graph, origin, destination, Ok(None)),
{
    broadcast use vstd::multiset::group_multiset_axioms;

    assert forall|other: Seq<NodeId>| #[trigger]
        connects(graph, other, origin, destination) implies walk_length(model, graph, other).0
        >= INFINITY_BITS by {
        lemma_walk_is_inside(graph, other);
        assert(graph.contains_key(other[other.len() - 1]));
        let waiting = (search.best[destination], destination);
        assert(search.queue.contains(waiting));
        assert(search.queue.count(waiting) <= search.queue.len());
    }
}

/// Whether a search that stands at `progress` is sound where it runs, and
/// has found the shortest way where it has finished.
spec fn is_right<M: DistanceModel>(
    model: &M,
    graph: Map<NodeId, NodeView>,
    origin: NodeId,
    destination: NodeId,
    progress: Progress,
) -> bool {
    match progress {
        Progress::Running(search) => sound(model, graph, origin, destination, search),
        Progress::Finished(found) => is_shortest(model, graph, origin, destination, found),
    }
}

/// A step of a sound search is right.
proof fn lemma_step_is_right<M: DistanceModel>(
    model: &M,
    graph: Map<NodeId, NodeView>,
    origin: NodeId,
    destination: NodeId,
    search: Search,
)
    requires
        is_lawful(model),
        sound(model, graph, origin, destination, search),
    ensures
        is_right(model, graph, origin, destination, step(model, graph, origin, destination, search)),
{
    if search.queue.len() == 0 {
        lemma_empty_queue_is_shortest(model, graph, origin, destination, search);
    } else {
        lemma_has_least(search.queue);
        let popped = least_of(search.queue);
        let (travelled, current) = popped;
        if search.settled.contains(current) {
            lemma_stale_keeps_sound(model, graph, origin, destination, search, popped);
        } else if current == destination {
            lemma_destination_is_shortest(model, graph, origin, destination, search, popped);
        } else if has_missing_neighbor(graph, current) {
            lemma_popped_is_best(graph, search, popped);
        } else {
            lemma_settling_is_sound(model, graph, origin, destination, search, popped);
            let entered = Search {
                queue: search.queue.remove(popped),
                settled: search.settled.insert(current),
                ..search
            };
            let all = graph[current].waypoints.len();
            lemma_relax_all_keeps_sound(model, graph, origin, destination, entered, current, all);
            lemma_all_looked_at(
                model,
                graph,
                origin,
                destination,
                relax_all(model, graph, entered, current, travelled, all),
                current,
            );
        }
    }
}

/// A search is right after however many steps.
proof fn lemma_run_is_right<M: DistanceModel>(
    model: &M,
    graph: Map<NodeId, NodeView>,
    origin: NodeId,
    destination: NodeId,
    steps: nat,
)
    requires
        is_lawful(model),
        graph.dom().finite(),
    ensures
        is_right(model, graph, origin, destination, run(model, graph, origin, destination, steps)),
    decreases steps,
{
    if steps == 0 {
        lemma_start_is_sound(model, graph, origin, destination);
    } else {
        lemma_run_is_right(model, graph, origin, destination, (steps - 1) as nat);
        match run(model, graph, origin, destination, (steps - 1) as nat) {
            Progress::Running(search) => {
                lemma_step_is_right(model, graph, origin, destination, search);
            },
            Progress::Finished(_) => {},
        }
    }
}

/// Dijkstra's algorithm finds the shortest way. Where the sums of the model
/// are those of lengths, a search that finishes on a finite graph has found
/// a way from `origin` to `destination` that no other way undercuts, or has
/// found none and every way is as long as not reached, or has met a node
/// that names a waypoint which the graph does not hold.
pub proof fn lemma_search_is_shortest<M: DistanceModel>(
    model: &M,
    graph: Map<NodeId, NodeView>,
    origin: NodeId,
    destination: NodeId,
    steps: nat,
)
    requires
        is_lawful(model),
        graph.dom().finite(),
        run(model, graph, origin, destination, steps) is Finished,
    ensures
        is_shortest(
            model,
            graph,
            origin,
            destination,
            crate::dijkstra::search(model, graph, origin, destination),
        ),
{
    lemma_run_is_right(model, graph, origin, destination, steps);
    crate::dijkstra::lemma_search_finds(model, graph, origin, destination, steps);
}

} // verus!
