//! The shortest-path engine: what a search over a graph is, step by step, and
//! the function that carries it out.
use crate::error::GraphError;
use crate::geograph::{Geograph, NodeId, NodeView};
use crate::geoloc::{
    is_lawful, Distance, DistanceModel, Geolocalizable, INFINITY_BITS, ZERO_BITS,
};
use crate::shortest::{is_shortest, lemma_search_is_shortest};
use crate::queue::{is_least, lemma_least_is_unique, Entry, MinQueue};
use crate::walk::{connects, has_edge};
use std::collections::{HashMap, HashSet};
use vstd::multiset::Multiset;
use vstd::prelude::*;

verus! {

broadcast use {
    vstd::std_specs::hash::group_hash_axioms,
    vstd::seq_lib::group_to_multiset_ensures,
    vstd::multiset::group_multiset_axioms,
};

/// The state of a search: what waits in the queue, the best length known
/// to each node, the node from which that length was reached, and the nodes
/// whose length is final.
pub struct Search {
    pub queue: Multiset<Entry>,
    pub best: Map<NodeId, Distance>,
    pub previous: Map<NodeId, NodeId>,
    pub settled: Set<NodeId>,
}

/// Where a search stands: under way, or finished with what it found.
pub enum Progress {
    Running(Search),
    Finished(Result<Option<Seq<NodeId>>, GraphError>),
}

/// The length a search starts a node with: nothing for the origin, and not
/// reached for every other node.
pub open spec fn initial_distance(origin: NodeId, id: NodeId) -> Distance {
    if id == origin {
        Distance(ZERO_BITS)
    } else {
        Distance(INFINITY_BITS)
    }
}

/// The state in which a search from `origin` starts: every node waits in the
/// queue with its initial length, and no node is settled.
pub open spec fn start(graph: Map<NodeId, NodeView>, origin: NodeId) -> Search {
    Search {
        queue: Multiset::from_map(
            Map::new(
                |entry: Entry|
                    graph.contains_key(entry.1) && entry.0 == initial_distance(origin, entry.1),
                |entry: Entry| 1nat,
            ),
        ),
        best: Map::new(
            |id: NodeId| graph.contains_key(id),
            |id: NodeId| initial_distance(origin, id),
        ),
        previous: Map::empty(),
        settled: Set::empty(),
    }
}

/// The length of the edge from the node `from` to the node `to`.
pub open spec fn edge_length<M: DistanceModel>(
    model: &M,
    graph: Map<NodeId, NodeView>,
    from: NodeId,
    to: NodeId,
) -> Distance {
    model.distance_spec(graph[from].geoloc, graph[to].geoloc)
}

/// The length of a way through the graph as a search adds it up: nothing at
/// its first node, and then edge by edge.
pub open spec fn walk_length<M: DistanceModel>(
    model: &M,
    graph: Map<NodeId, NodeView>,
    walk: Seq<NodeId>,
) -> Distance
    decreases walk.len(),
{
    if walk.len() <= 1 {
        Distance(ZERO_BITS)
    } else {
        model.sum_spec(
            walk_length(model, graph, walk.drop_last()),
            edge_length(model, graph, walk[walk.len() - 2], walk[walk.len() - 1]),
        )
    }
}

/// The best length known to `id`: not reached, where none is recorded.
pub open spec fn best_known(search: Search, id: NodeId) -> Distance {
    if search.best.contains_key(id) {
        search.best[id]
    } else {
        Distance(INFINITY_BITS)
    }
}

/// The entry that leaves `queue` first.
pub open spec fn least_of(queue: Multiset<Entry>) -> Entry {
    choose|entry: Entry| is_least(queue, entry)
}

/// The search after the edge from `from`, reached after `travelled`, to its
/// waypoint `to` was looked at: where the way over `from` is shorter than the
/// best known to `to`, and `to` is not settled, `to` gets the new length and
/// waits in the queue with it.
pub open spec fn relax<M: DistanceModel>(
    model: &M,
    graph: Map<NodeId, NodeView>,
    search: Search,
    from: NodeId,
    travelled: Distance,
    to: NodeId,
) -> Search {
    let candidate = model.sum_spec(travelled, edge_length(model, graph, from, to));
    if !search.settled.contains(to) && candidate.0 < best_known(search, to).0 {
        Search {
            queue: search.queue.insert((candidate, to)),
            best: search.best.insert(to, candidate),
            previous: search.previous.insert(to, from),
            settled: search.settled,
        }
    } else {
        search
    }
}

/// The search after the first `upto` waypoints of `from` were looked at, in
/// their order.
pub open spec fn relax_all<M: DistanceModel>(
    model: &M,
    graph: Map<NodeId, NodeView>,
    search: Search,
    from: NodeId,
    travelled: Distance,
    upto: nat,
) -> Search
    decreases upto,
{
    if upto == 0 {
        search
    } else {
        relax(
            model,
            graph,
            relax_all(model, graph, search, from, travelled, (upto - 1) as nat),
            from,
            travelled,
            graph[from].waypoints[upto - 1],
        )
    }
}

/// Whether the node `id` names a waypoint that the graph does not hold.
pub open spec fn has_missing_neighbor(graph: Map<NodeId, NodeView>, id: NodeId) -> bool {
    exists|k: int|
        0 <= k < graph[id].waypoints.len() && !graph.contains_key(#[trigger] graph[id].waypoints[k])
}

/// Whether every waypoint of every node is a node of the graph.
pub open spec fn is_well_formed(graph: Map<NodeId, NodeView>) -> bool {
    forall|id: NodeId| graph.contains_key(id) ==> !#[trigger] has_missing_neighbor(graph, id)
}

/// The way from `origin` to `at` that the recorded predecessors give, walked
/// back from `at` in at most `fuel` steps: none where a node on it has no
/// predecessor, or where the steps run out.
pub open spec fn trail(
    previous: Map<NodeId, NodeId>,
    origin: NodeId,
    at: NodeId,
    fuel: nat,
) -> Option<Seq<NodeId>>
    decreases fuel,
{
    if at == origin {
        Some(seq![origin])
    } else if fuel == 0 || !previous.contains_key(at) {
        None
    } else {
        match trail(previous, origin, previous[at], (fuel - 1) as nat) {
            Some(walk) => Some(walk.push(at)),
            None => None,
        }
    }
}

/// One step of a search. The least entry leaves the queue. An entry for a
/// settled node is stale and changes nothing more. Otherwise its node is
/// settled: the destination ends the search with the trail that leads to it,
/// a node with a missing neighbor ends it with an error, and any other node
/// has its waypoints looked at. An empty queue ends the search without a way.
pub open spec fn step<M: DistanceModel>(
    model: &M,
    graph: Map<NodeId, NodeView>,
    origin: NodeId,
    destination: NodeId,
    search: Search,
) -> Progress {
    if search.queue.len() == 0 {
        Progress::Finished(Ok(None))
    } else {
        let (travelled, current) = least_of(search.queue);
        let rest = search.queue.remove((travelled, current));
        if search.settled.contains(current) {
            Progress::Running(Search { queue: rest, ..search })
        } else if current == destination {
            Progress::Finished(Ok(trail(search.previous, origin, destination, graph.len())))
        } else if has_missing_neighbor(graph, current) {
            Progress::Finished(Err(GraphError::MissingNeighbor))
        } else {
            Progress::Running(
                relax_all(
                    model,
                    graph,
                    Search { queue: rest, settled: search.settled.insert(current), ..search },
                    current,
                    travelled,
                    graph[current].waypoints.len(),
                ),
            )
        }
    }
}

/// Where a search from `origin` for `destination` stands after `steps` steps.
pub open spec fn run<M: DistanceModel>(
    model: &M,
    graph: Map<NodeId, NodeView>,
    origin: NodeId,
    destination: NodeId,
    steps: nat,
) -> Progress
    decreases steps,
{
    if steps == 0 {
        Progress::Running(start(graph, origin))
    } else {
        match run(model, graph, origin, destination, (steps - 1) as nat) {
            Progress::Running(search) => step(model, graph, origin, destination, search),
            finished => finished,
        }
    }
}

/// What a search from `origin` for `destination` finds: the nodes of the way,
/// from `origin` to `destination`; no way; or an error.
pub open spec fn search<M: DistanceModel>(
    model: &M,
    graph: Map<NodeId, NodeView>,
    origin: NodeId,
    destination: NodeId,
) -> Result<Option<Seq<NodeId>>, GraphError> {
    let steps = choose|steps: nat| run(model, graph, origin, destination, steps) is Finished;
    run(model, graph, origin, destination, steps)->Finished_0
}

/// A search that has finished stays as it is.
pub proof fn lemma_finished_is_final<M: DistanceModel>(
    model: &M,
    graph: Map<NodeId, NodeView>,
    origin: NodeId,
    destination: NodeId,
    early: nat,
    late: nat,
)
    requires
        early <= late,
        run(model, graph, origin, destination, early) is Finished,
    ensures
        run(model, graph, origin, destination, late) == run(
            model,
            graph,
            origin,
            destination,
            early,
        ),
    decreases late,
{
    if early < late {
        lemma_finished_is_final(model, graph, origin, destination, early, (late - 1) as nat);
    }
}

/// What a search finds is what it has found when it finishes, after however
/// many steps.
pub proof fn lemma_search_finds<M: DistanceModel>(
    model: &M,
    graph: Map<NodeId, NodeView>,
    origin: NodeId,
    destination: NodeId,
    steps: nat,
)
    requires
        run(model, graph, origin, destination, steps) is Finished,
    ensures
        search(model, graph, origin, destination) == run(
            model,
            graph,
            origin,
            destination,
            steps,
        )->Finished_0,
{
    let chosen = choose|n: nat| run(model, graph, origin, destination, n) is Finished;
    if chosen <= steps {
        lemma_finished_is_final(model, graph, origin, destination, chosen, steps);
    } else {
        lemma_finished_is_final(model, graph, origin, destination, steps, chosen);
    }
}

/// Where every recorded predecessor has an edge to its node, a trail is a way
/// through the graph.
pub proof fn lemma_trail_is_walk(
    graph: Map<NodeId, NodeView>,
    previous: Map<NodeId, NodeId>,
    origin: NodeId,
    at: NodeId,
    fuel: nat,
)
    requires
        graph.contains_key(at),
        forall|id: NodeId| previous.contains_key(id) ==> has_edge(graph, #[trigger] previous[id], id),
        trail(previous, origin, at, fuel) is Some,
    ensures
        connects(graph, trail(previous, origin, at, fuel)->0, origin, at),
    decreases fuel,
{
    if at != origin {
        let before = previous[at];
        assert(has_edge(graph, before, at));
        lemma_trail_is_walk(graph, previous, origin, before, (fuel - 1) as nat);
        let walk = trail(previous, origin, before, (fuel - 1) as nat)->0;
        crate::walk::lemma_walk_goes_on(graph, walk, origin, before, at);
    }
}

/// What was found, as contracts speak of it.
pub open spec fn found_view(found: Result<Option<Vec<NodeId>>, GraphError>) -> Result<
    Option<Seq<NodeId>>,
    GraphError,
> {
    match found {
        Ok(Some(path)) => Ok(Some(path@)),
        Ok(None) => Ok(None),
        Err(error) => Err(error),
    }
}

/// The state of a search that holds these four.
spec fn state(
    queue: Multiset<Entry>,
    best: Map<NodeId, Distance>,
    previous: Map<NodeId, NodeId>,
    settled: Set<NodeId>,
) -> Search {
    Search { queue, best, previous, settled }
}

/// The entries with which the nodes `ids` start to wait.
spec fn first_entries(origin: NodeId, ids: Seq<NodeId>) -> Seq<Entry> {
    Seq::new(ids.len(), |i: int| (initial_distance(origin, ids[i]), ids[i]))
}

proof fn lemma_first_entries(graph: Map<NodeId, NodeView>, origin: NodeId, ids: Seq<NodeId>)
    requires
        ids.no_duplicates(),
        ids.to_set() == graph.dom(),
    ensures
        first_entries(origin, ids).to_multiset() == start(graph, origin).queue,
{
    let entries = first_entries(origin, ids);
    let counts = Map::new(
        |entry: Entry| graph.contains_key(entry.1) && entry.0 == initial_distance(origin, entry.1),
        |entry: Entry| 1nat,
    );
    assert(entries.no_duplicates());
    assert(counts.dom() =~= entries.to_set()) by {
        assert forall|entry: Entry| counts.dom().contains(entry) implies entries.to_set().contains(
            entry,
        ) by {
            assert(ids.to_set().contains(entry.1));
            let i = choose|i: int| 0 <= i < ids.len() && ids[i] == entry.1;
            assert(entries[i] == entry);
        }
        assert forall|entry: Entry| entries.to_set().contains(entry) implies counts.dom().contains(
            entry,
        ) by {
            let i = choose|i: int| 0 <= i < entries.len() && entries[i] == entry;
            assert(ids.to_set().contains(ids[i]));
        }
    }
    vstd::seq_lib::seq_to_set_is_finite(entries);
    entries.lemma_multiset_has_no_duplicates();
    assert forall|entry: Entry|
        entries.to_multiset().count(entry) == Multiset::from_map(counts).count(entry) by {
        if counts.dom().contains(entry) {
            assert(entries.to_set().contains(entry));
            assert(entries.contains(entry));
            assert(entries.to_multiset().contains(entry));
        } else {
            assert(!entries.to_set().contains(entry));
            assert(!entries.contains(entry));
        }
    }
    assert(entries.to_multiset() =~= Multiset::from_map(counts));
}

/// Walks the recorded predecessors back from `destination`, in at most
/// `fuel` steps, and gives the way from `origin`.
fn trace(
    previous: &HashMap<NodeId, NodeId>,
    origin: NodeId,
    destination: NodeId,
    fuel: usize,
) -> (found: Option<Vec<NodeId>>)
    ensures
        found is Some == trail(previous@, origin, destination, fuel as nat) is Some,
        found matches Some(path) ==> Some(path@) == trail(
            previous@,
            origin,
            destination,
            fuel as nat,
        ),
{
    let mut reversed: Vec<NodeId> = Vec::new();
    let mut at = destination;
    let mut left = fuel;
    let ghost whole = trail(previous@, origin, destination, fuel as nat);
    assert(Seq::<NodeId>::empty().reverse() =~= Seq::<NodeId>::empty());
    while at != origin
        invariant
            whole == trail(previous@, origin, destination, fuel as nat),
            whole == (match trail(previous@, origin, at, left as nat) {
                Some(walk) => Some(walk + reversed@.reverse()),
                None => None,
            }),
        decreases left,
    {
        if left == 0 {
            return None;
        }
        match previous.get(&at) {
            None => {
                return None;
            },
            Some(before) => {
                proof {
                    let longer = reversed@.push(at);
                    assert(longer.reverse() =~= seq![at] + reversed@.reverse());
                    match trail(previous@, origin, *before, (left - 1) as nat) {
                        Some(walk) => {
                            assert(walk.push(at) + reversed@.reverse() =~= walk
                                + longer.reverse());
                        },
                        None => {},
                    }
                }
                reversed.push(at);
                at = *before;
                left = left - 1;
            },
        }
    }
    let ghost steps = reversed@;
    reversed.push(origin);
    proof {
        assert(reversed@.reverse() =~= seq![origin] + steps.reverse());
    }
    let mut path: Vec<NodeId> = Vec::new();
    let mut k = reversed.len();
    while k > 0
        invariant
            k <= reversed@.len(),
            path@.len() == reversed@.len() - k,
            forall|i: int| 0 <= i < path@.len() ==> path@[i] == reversed@[reversed@.len() - 1 - i],
        decreases k,
    {
        k = k - 1;
        path.push(reversed[k]);
    }
    assert(path@ =~= reversed@.reverse());
    Some(path)
}

impl Geograph {
    /// The shortest way through the graph from the node `origin` to the node
    /// `destination`, by Dijkstra's algorithm: the nodes of the way in order,
    /// or none where the search ends without one. A search that settles a
    /// node with a waypoint that the graph does not hold ends with an error.
    pub fn dijkstra<M: DistanceModel>(
        &self,
        origin: NodeId,
        destination: NodeId,
        model: &M,
    ) -> (found: Result<Option<Vec<NodeId>>, GraphError>)
        ensures
            found_view(found) == search(model, self@, origin, destination),
            found matches Ok(Some(path)) ==> connects(self@, path@, origin, destination),
            found matches Err(error) ==> error == GraphError::MissingNeighbor && !is_well_formed(
                self@,
            ),
            is_lawful(model) ==> is_shortest(
                model,
                self@,
                origin,
                destination,
                found_view(found),
            ),
    {
        let ids = self.ids();
        let total = self.len();
        let mut queue = MinQueue::new();
        let mut best: HashMap<NodeId, Distance> = HashMap::new();
        let mut previous: HashMap<NodeId, NodeId> = HashMap::new();
        let mut settled: HashSet<NodeId> = HashSet::new();

        let mut i: usize = 0;
        assert(first_entries(origin, ids@.take(0)).to_multiset() =~= Multiset::<Entry>::empty());
        while i < ids.len()
            invariant
                i <= ids@.len(),
                queue@ == first_entries(origin, ids@.take(i as int)).to_multiset(),
                best@ =~= Map::new(
                    |id: NodeId| ids@.take(i as int).contains(id),
                    |id: NodeId| initial_distance(origin, id),
                ),
            decreases ids@.len() - i,
        {
            let id = ids[i];
            let length = if id == origin {
                Distance::zero()
            } else {
                Distance::infinity()
            };
            proof {
                let shorter = ids@.take(i as int);
                let longer = ids@.take(i + 1);
                assert(longer =~= shorter.push(id));
                assert(first_entries(origin, longer) =~= first_entries(origin, shorter).push(
                    (length, id),
                ));
                assert forall|other: NodeId| longer.contains(other) <==> shorter.contains(other)
                    || other == id by {
                    if shorter.contains(other) {
                        let k = choose|k: int| 0 <= k < shorter.len() && shorter[k] == other;
                        assert(longer[k] == other);
                    }
                    if other == id {
                        assert(longer[i as int] == id);
                    }
                }
            }
            best.insert(id, length);
            queue.push((length, id));
            i += 1;
        }
        let ghost mut steps: nat = 0;
        proof {
            assert(ids@.take(ids@.len() as int) =~= ids@);
            lemma_first_entries(self@, origin, ids@);
            assert(best@ =~= start(self@, origin).best) by {
                assert forall|id: NodeId| ids@.contains(id) <==> self@.contains_key(id) by {
                    assert(ids@.to_set().contains(id) <==> self@.dom().contains(id));
                }
            }
            assert(previous@ =~= start(self@, origin).previous);
            assert(settled@ =~= start(self@, origin).settled);
            assert forall|entry: Entry| queue@.contains(entry) implies self@.contains_key(
                entry.1,
            ) by {
                let entries = first_entries(origin, ids@);
                assert(entries.contains(entry));
                let k = choose|k: int| 0 <= k < entries.len() && entries[k] == entry;
                assert(ids@.to_set().contains(ids@[k]));
            }
        }
        loop
            invariant
                self@.dom().finite(),
                total == self@.len(),
                run(model, self@, origin, destination, steps) == Progress::Running(
                    state(queue@, best@, previous@, settled@),
                ),
                forall|entry: Entry| queue@.contains(entry) ==> self@.contains_key(entry.1),
                settled@.subset_of(self@.dom()),
                forall|id: NodeId|
                    previous@.contains_key(id) ==> has_edge(self@, #[trigger] previous@[id], id),
            decreases total - settled@.len(), queue@.len(),
        {
            let ghost now = state(queue@, best@, previous@, settled@);
            proof {
                vstd::set_lib::lemma_len_subset(settled@, self@.dom());
            }
            let (travelled, current) = match queue.pop() {
                None => {
                    proof {
                        assert(step(model, self@, origin, destination, now) == Progress::Finished(
                            Ok(None),
                        ));
                        assert(run(model, self@, origin, destination, steps + 1)
                            == Progress::Finished(Ok(None)));
                        lemma_search_finds(model, self@, origin, destination, steps + 1);
                        if is_lawful(model) {
                            lemma_search_is_shortest(
                                model,
                                self@,
                                origin,
                                destination,
                                steps + 1,
                            );
                        }
                    }
                    return Ok(None);
                },
                Some(entry) => entry,
            };
            proof {
                assert(now.queue.len() > 0);
                let chosen = least_of(now.queue);
                assert(is_least(now.queue, chosen));
                lemma_least_is_unique(now.queue, chosen, (travelled, current));
                assert(self@.contains_key(current));
                assert forall|entry: Entry| queue@.contains(entry) implies self@.contains_key(
                    entry.1,
                ) by {
                    assert(now.queue.contains(entry));
                }
            }
            if settled.contains(&current) {
                proof {
                    assert(run(model, self@, origin, destination, steps + 1) == step(
                        model,
                        self@,
                        origin,
                        destination,
                        now,
                    ));
                    steps = steps + 1;
                }
            } else if current == destination {
                let found = trace(&previous, origin, destination, total);
                proof {
                    let way = trail(previous@, origin, destination, self@.len());
                    assert(step(model, self@, origin, destination, now) == Progress::Finished(
                        Ok(way),
                    ));
                    assert(run(model, self@, origin, destination, steps + 1)
                        == Progress::Finished(Ok(way)));
                    lemma_search_finds(model, self@, origin, destination, steps + 1);
                        if is_lawful(model) {
                            lemma_search_is_shortest(
                                model,
                                self@,
                                origin,
                                destination,
                                steps + 1,
                            );
                        }
                    if way is Some {
                        lemma_trail_is_walk(self@, previous@, origin, destination, self@.len());
                    }
                }
                return Ok(found);
            } else {
                let node = match self.get(current) {
                    None => {
                        assert(false);
                        return Ok(None);
                    },
                    Some(node) => node,
                };
                let ghost seen = settled@;
                settled.insert(current);
                let ghost entered = state(queue@, best@, previous@, settled@);
                proof {
                    vstd::set_lib::lemma_len_subset(settled@, self@.dom());
                    assert(settled@.len() == seen.len() + 1);
                }
                let mut j: usize = 0;
                while j < node.waypoints.len()
                    invariant
                        j <= node.waypoints@.len(),
                        self@.dom().finite(),
                        self@.contains_key(current),
                        node@ == self@[current],
                        settled@ == seen.insert(current),
                        run(model, self@, origin, destination, steps) == Progress::Running(now),
                        now.queue.len() > 0,
                        least_of(now.queue) == (travelled, current),
                        !now.settled.contains(current),
                        current != destination,
                        state(queue@, best@, previous@, settled@) == relax_all(model, self@, entered, current, travelled, j as nat),
                        forall|k: int|
                            0 <= k < j ==> self@.contains_key(#[trigger] node.waypoints@[k]),
                        forall|entry: Entry| queue@.contains(entry) ==> self@.contains_key(entry.1),
                        forall|id: NodeId|
                            previous@.contains_key(id) ==> has_edge(
                                self@,
                                #[trigger] previous@[id],
                                id,
                            ),
                    decreases node.waypoints@.len() - j,
                {
                    let next = node.waypoints[j];
                    let neighbor = match self.get(next) {
                        None => {
                            proof {
                                assert(!self@.contains_key(self@[current].waypoints[j as int]));
                                assert(has_missing_neighbor(self@, current));
                                assert(step(model, self@, origin, destination, now)
                                    == Progress::Finished(Err(GraphError::MissingNeighbor)));
                                assert(run(model, self@, origin, destination, steps + 1)
                                    == Progress::Finished(Err(GraphError::MissingNeighbor)));
                                lemma_search_finds(model, self@, origin, destination, steps + 1);
                        if is_lawful(model) {
                            lemma_search_is_shortest(
                                model,
                                self@,
                                origin,
                                destination,
                                steps + 1,
                            );
                        }
                            }
                            return Err(GraphError::MissingNeighbor);
                        },
                        Some(neighbor) => neighbor,
                    };
                    let ghost held = state(queue@, best@, previous@, settled@);
                    if !settled.contains(&next) {
                        let leg = model.distance(&node.geoloc(), &neighbor.geoloc());
                        let candidate = model.sum(travelled, leg);
                        let known = match best.get(&next) {
                            Some(length) => *length,
                            None => Distance::infinity(),
                        };
                        if candidate.shorter_than(&known) {
                            best.insert(next, candidate);
                            previous.insert(next, current);
                            queue.push((candidate, next));
                            proof {
                                assert(node.waypoints@.contains(next));
                                assert(has_edge(self@, current, next));
                                assert forall|entry: Entry|
                                    queue@.contains(entry) implies self@.contains_key(entry.1) by {
                                    if entry != (candidate, next) {
                                        assert(held.queue.contains(entry));
                                    }
                                }
                            }
                        }
                    }
                    proof {
                        assert(state(queue@, best@, previous@, settled@) == relax(model, self@, held, current, travelled, next));
                    }
                    j += 1;
                }
                proof {
                    assert(!has_missing_neighbor(self@, current));
                    assert(run(model, self@, origin, destination, steps + 1) == step(
                        model,
                        self@,
                        origin,
                        destination,
                        now,
                    ));
                    steps = steps + 1;
                }
            }
        }
    }
}

} // verus!
