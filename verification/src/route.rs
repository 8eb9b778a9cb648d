//! The route assembler: from two arbitrary locations to a route between
//! them.
use crate::dijkstra::{is_well_formed, search};
use crate::error::GraphError;
use crate::geograph::{Geograph, NodeId, NodeView, PathType};
use crate::geoloc::{
    is_lawful, path_length, Distance, DistanceModel, Geoloc, Geolocalizable, Path,
};
use crate::shortest::is_shortest;
use crate::locator::nearest;
use crate::walk::reachable;
use vstd::prelude::*;

verus! {

/// A route: its length, its points in order, and how it came about.
pub type ShortestPath = (Distance, Path<Geoloc>, PathType);

/// A route, or why there is none.
pub type DistanceResult = Result<ShortestPath, GraphError>;

/// What a route is, as contracts speak of it.
pub struct RouteView {
    pub distance: Distance,
    pub path: Seq<Geoloc>,
    pub path_type: PathType,
}

/// The straight line from `origin` to `destination`.
pub open spec fn direct<M: DistanceModel>(
    model: &M,
    origin: Geoloc,
    destination: Geoloc,
) -> RouteView {
    RouteView {
        distance: model.distance_spec(origin, destination),
        path: seq![origin, destination],
        path_type: PathType::Direct,
    }
}

/// The points of the route from `origin` over the nodes `ids` to
/// `destination`.
pub open spec fn points_over(
    graph: Map<NodeId, NodeView>,
    origin: Geoloc,
    ids: Seq<NodeId>,
    destination: Geoloc,
) -> Seq<Geoloc> {
    seq![origin] + Seq::new(ids.len(), |i: int| graph[ids[i]].geoloc) + seq![destination]
}

/// The route from `origin` over the nodes `ids` to `destination`.
pub open spec fn via_waypoints<M: DistanceModel>(
    model: &M,
    graph: Map<NodeId, NodeView>,
    origin: Geoloc,
    ids: Seq<NodeId>,
    destination: Geoloc,
) -> RouteView {
    let path = points_over(graph, origin, ids, destination);
    RouteView { distance: path_length(model, path), path, path_type: PathType::ViaWaypoints }
}

/// The route from `origin` to `destination`. Where the graph has a node, the
/// route enters the graph at the node nearest to `origin` and leaves it at
/// the node nearest to `destination`, and goes over the way that the search
/// between the two finds. Where the graph has no node, or the search finds no
/// way, the route is the straight line.
pub open spec fn route<M: DistanceModel>(
    model: &M,
    graph: Map<NodeId, NodeView>,
    origin: Geoloc,
    destination: Geoloc,
) -> Result<RouteView, GraphError> {
    match (nearest(model, graph, origin), nearest(model, graph, destination)) {
        (Some(entry), Some(exit)) => match search(model, graph, entry, exit) {
            Ok(Some(ids)) => Ok(via_waypoints(model, graph, origin, ids, destination)),
            Ok(None) => Ok(direct(model, origin, destination)),
            Err(error) => Err(error),
        },
        _ => Ok(direct(model, origin, destination)),
    }
}

/// The route from `origin` to `destination` where a graph without nodes is
/// an error.
pub open spec fn strict_route<M: DistanceModel>(
    model: &M,
    graph: Map<NodeId, NodeView>,
    origin: Geoloc,
    destination: Geoloc,
) -> Result<RouteView, GraphError> {
    if nearest(model, graph, origin) is None || nearest(model, graph, destination) is None {
        Err(GraphError::NoClosestNode)
    } else {
        route(model, graph, origin, destination)
    }
}

/// Whether the search on which the route from `origin` to `destination`
/// rests has found the shortest way between the two nearest nodes.
pub open spec fn rests_on_shortest<M: DistanceModel>(
    model: &M,
    graph: Map<NodeId, NodeView>,
    origin: Geoloc,
    destination: Geoloc,
) -> bool {
    match (nearest(model, graph, origin), nearest(model, graph, destination)) {
        (Some(entry), Some(exit)) => is_shortest(
            model,
            graph,
            entry,
            exit,
            search(model, graph, entry, exit),
        ),
        _ => true,
    }
}

/// Whether the graph has a way from the node nearest to `origin` to the
/// node nearest to `destination`.
pub open spec fn is_joined<M: DistanceModel>(
    model: &M,
    graph: Map<NodeId, NodeView>,
    origin: Geoloc,
    destination: Geoloc,
) -> bool {
    match (nearest(model, graph, origin), nearest(model, graph, destination)) {
        (Some(entry), Some(exit)) => reachable(graph, entry, exit),
        _ => false,
    }
}

/// The length of a route is the length of its path: the lengths between
/// consecutive points, added from the first on.
pub proof fn lemma_route_is_as_long_as_its_path<M: DistanceModel>(
    model: &M,
    graph: Map<NodeId, NodeView>,
    origin: Geoloc,
    destination: Geoloc,
)
    ensures
        route(model, graph, origin, destination) matches Ok(way) ==> way.distance == path_length(
            model,
            way.path,
        ),
{
}

/// Two answers to one query on one graph are one route.
pub proof fn lemma_same_query_same_route<M: DistanceModel>(
    model: &M,
    graph: Map<NodeId, NodeView>,
    origin: Geoloc,
    destination: Geoloc,
    first: DistanceResult,
    second: DistanceResult,
)
    requires
        route_view(first) == route(model, graph, origin, destination),
        route_view(second) == route(model, graph, origin, destination),
    ensures
        route_view(first) == route_view(second),
{
}

/// What a query gave, as contracts speak of it.
pub open spec fn route_view(found: DistanceResult) -> Result<RouteView, GraphError> {
    match found {
        Ok((distance, path, path_type)) => Ok(RouteView { distance, path: path@, path_type }),
        Err(error) => Err(error),
    }
}

impl Geograph {
    fn direct_path<M: DistanceModel>(origin: Geoloc, destination: Geoloc, model: &M) -> (found:
        ShortestPath)
        ensures
            route_view(Ok(found)) == Ok::<RouteView, GraphError>(direct(model, origin, destination)),
    {
        let length = model.distance(&origin, &destination);
        let mut points: Vec<Geoloc> = Vec::new();
        points.push(origin);
        points.push(destination);
        let path = Path::new(points);
        assert(path@ =~= seq![origin, destination]);
        (length, path, PathType::Direct)
    }

    fn path_over<M: DistanceModel>(
        &self,
        origin: Geoloc,
        ids: &Vec<NodeId>,
        destination: Geoloc,
        model: &M,
    ) -> (found: ShortestPath)
        requires
            forall|i: int| 0 <= i < ids@.len() ==> self@.contains_key(#[trigger] ids@[i]),
        ensures
            route_view(Ok(found)) == Ok::<RouteView, GraphError>(
                via_waypoints(model, self@, origin, ids@, destination),
            ),
    {
        let mut points: Vec<Geoloc> = Vec::new();
        points.push(origin);
        let mut i: usize = 0;
        while i < ids.len()
            invariant
                i <= ids@.len(),
                forall|k: int| 0 <= k < ids@.len() ==> self@.contains_key(#[trigger] ids@[k]),
                points@ =~= seq![origin] + Seq::new(i as nat, |k: int| self@[ids@[k]].geoloc),
            decreases ids@.len() - i,
        {
            match self.get(ids[i]) {
                Some(node) => {
                    points.push(node.geoloc());
                },
                None => {
                    assert(self@.contains_key(ids@[i as int]));
                },
            }
            i += 1;
        }
        points.push(destination);
        let path = Path::new(points);
        assert(path@ =~= points_over(self@, origin, ids@, destination));
        let length = path.length(model);
        (length, path, PathType::ViaWaypoints)
    }

    /// The route from `origin` to `destination` that enters the graph at the
    /// node `entry` and leaves it at the node `exit`.
    fn route_between<M: DistanceModel>(
        &self,
        origin: Geoloc,
        destination: Geoloc,
        entry: NodeId,
        exit: NodeId,
        model: &M,
    ) -> (found: DistanceResult)
        ensures
            route_view(found) == (match search(model, self@, entry, exit) {
                Ok(Some(ids)) => Ok(via_waypoints(model, self@, origin, ids, destination)),
                Ok(None) => Ok(direct(model, origin, destination)),
                Err(error) => Err(error),
            }),
            found matches Err(error) ==> error == GraphError::MissingNeighbor && !is_well_formed(
                self@,
            ),
            found matches Ok(way) ==> (way.2 == PathType::ViaWaypoints ==> reachable(
                self@,
                entry,
                exit,
            )),
            is_lawful(model) ==> is_shortest(
                model,
                self@,
                entry,
                exit,
                search(model, self@, entry, exit),
            ),
    {
        match self.dijkstra(entry, exit, model) {
            Err(error) => Err(error),
            Ok(None) => Ok(Self::direct_path(origin, destination, model)),
            Ok(Some(ids)) => {
                proof {
                    crate::walk::lemma_walk_is_inside(self@, ids@);
                }
                Ok(self.path_over(origin, &ids, destination, model))
            },
        }
    }

    /// The shortest route from `origin` to `destination`, neither of which
    /// needs to be a node of the graph: its length, its points from `origin`
    /// to `destination`, and how it came about. The length is the length of
    /// the path. A graph without nodes gives the straight line, and so does a
    /// graph without a way between the two nearest nodes. The one error is a
    /// node met on the search that names a waypoint the graph does not hold.
    pub fn shortest_path<A: Geolocalizable, B: Geolocalizable, M: DistanceModel>(
        &self,
        origin: &A,
        destination: &B,
        model: &M,
    ) -> (found: DistanceResult)
        ensures
            route_view(found) == route(model, self@, origin.location(), destination.location()),
            found matches Ok(way) ==> way.0 == path_length(model, way.1@),
            found matches Ok(way) ==> way.1@.len() >= 2 && way.1@.first() == origin.location()
                && way.1@.last() == destination.location(),
            found matches Ok(way) ==> (way.2 == PathType::Direct ==> way.0 == model.distance_spec(
                origin.location(),
                destination.location(),
            ) && way.1@ == seq![origin.location(), destination.location()]),
            self@.len() == 0 ==> (found matches Ok(way) && way.2 == PathType::Direct),
            found matches Ok(way) ==> (way.2 == PathType::ViaWaypoints ==> is_joined(
                model,
                self@,
                origin.location(),
                destination.location(),
            )),
            found matches Err(error) ==> error == GraphError::MissingNeighbor && !is_well_formed(
                self@,
            ),
            is_lawful(model) ==> rests_on_shortest(
                model,
                self@,
                origin.location(),
                destination.location(),
            ),
    {
        let from = origin.geoloc();
        let to = destination.geoloc();
        let entry = match self.closest(&from, model) {
            Some(node) => node.id,
            None => {
                return Ok(Self::direct_path(from, to, model));
            },
        };
        let exit = match self.closest(&to, model) {
            Some(node) => node.id,
            None => {
                return Ok(Self::direct_path(from, to, model));
            },
        };
        self.route_between(from, to, entry, exit, model)
    }

    /// The shortest route from `origin` to `destination`, as `shortest_path`
    /// gives it, but for a graph without nodes, which is an error.
    pub fn distance<A: Geolocalizable, B: Geolocalizable, M: DistanceModel>(
        &self,
        origin: &A,
        destination: &B,
        model: &M,
    ) -> (found: DistanceResult)
        ensures
            route_view(found) == strict_route(
                model,
                self@,
                origin.location(),
                destination.location(),
            ),
            found matches Err(GraphError::NoClosestNode) <==> self@.len() == 0,
            found matches Err(GraphError::MissingNeighbor) ==> !is_well_formed(self@),
            found matches Ok(way) ==> way.0 == path_length(model, way.1@),
            found matches Ok(way) ==> (way.2 == PathType::ViaWaypoints ==> is_joined(
                model,
                self@,
                origin.location(),
                destination.location(),
            )),
            is_lawful(model) ==> rests_on_shortest(
                model,
                self@,
                origin.location(),
                destination.location(),
            ),
    {
        let from = origin.geoloc();
        let to = destination.geoloc();
        let entry = match self.closest(&from, model) {
            Some(node) => node.id,
            None => {
                return Err(GraphError::NoClosestNode);
            },
        };
        let exit = match self.closest(&to, model) {
            Some(node) => node.id,
            None => {
                return Err(GraphError::NoClosestNode);
            },
        };
        self.route_between(from, to, entry, exit, model)
    }
}

} // verus!
