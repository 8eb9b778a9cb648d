use routrs::concurrency::Leg;
use routrs::error::GraphError;
use routrs::hops::Hops;
use routrs::{Distance, DistanceModel, Geograph, Geoloc, Geolocalizable, Node, PathType};

struct Haversine;

fn haversine(origin: (f64, f64), destination: (f64, f64)) -> f64 {
    let lat1 = origin.0.to_radians();
    let lng1 = origin.1.to_radians();
    let lat2 = destination.0.to_radians();
    let lng2 = destination.1.to_radians();
    let d_lat = lat2 - lat1;
    let d_lng = lng2 - lng1;
    let sin_half_d_lat = (d_lat / 2.0).sin();
    let sin_half_d_lng = (d_lng / 2.0).sin();
    let a = sin_half_d_lat * sin_half_d_lat
        + lat1.cos() * lat2.cos() * sin_half_d_lng * sin_half_d_lng;
    let c = 2.0 * a.sqrt().atan2((1.0 - a).sqrt());
    6_371.0 * c
}

impl DistanceModel for Haversine {
    fn distance_spec(&self, origin: Geoloc, destination: Geoloc) -> Distance {
        self.distance(&origin, &destination)
    }

    fn sum_spec(&self, travelled: Distance, leg: Distance) -> Distance {
        self.sum(travelled, leg)
    }

    fn distance(&self, origin: &Geoloc, destination: &Geoloc) -> Distance {
        let from = (f64::from_bits(origin.0), f64::from_bits(origin.1));
        let to = (f64::from_bits(destination.0), f64::from_bits(destination.1));
        Distance(haversine(from, to).to_bits())
    }

    fn sum(&self, travelled: Distance, leg: Distance) -> Distance {
        Distance((f64::from_bits(travelled.0) + f64::from_bits(leg.0)).to_bits())
    }
}

fn at(lat: f64, lng: f64) -> Geoloc {
    (lat.to_bits(), lng.to_bits())
}

fn km(distance: Distance) -> f64 {
    f64::from_bits(distance.0)
}

fn geograph_fixture() -> Geograph {
    let mut geograph = Geograph::new("Test Geograph");
    geograph
        .add(Node::new(0, at(0.0, 0.0), vec![1]))
        .add(Node::new(1, at(1.0, 1.0), vec![0, 2, 3, 4]))
        .add(Node::new(2, at(2.0, 2.0), vec![1, 3, 5]))
        .add(Node::new(3, at(3.0, 3.0), vec![1, 2, 3, 4, 5]))
        .add(Node::new(4, at(4.0, 4.0), vec![1, 3, 4, 5]))
        .add(Node::new(5, at(5.0, 5.0), vec![3, 4]));

    geograph
}

fn small_fixture() -> Geograph {
    let node1 = Node::new(1, at(0.0, 0.0), vec![2, 3]);
    let node2 = Node::new(2, at(1.0, 1.0), vec![1]);
    let node3 = Node::new(3, at(2.0, 2.0), vec![1]);

    let mut geograph = Geograph::new("Test Geograph");
    geograph.add(node1).add(node2).add(node3);
    geograph
}

fn two_islands() -> Geograph {
    let mut geograph = Geograph::new("Two islands");
    geograph
        .add(Node::new(0, at(0.0, 0.0), vec![1]))
        .add(Node::new(1, at(1.0, 1.0), vec![0]))
        .add(Node::new(10, at(50.0, 50.0), vec![11]))
        .add(Node::new(11, at(51.0, 51.0), vec![10]));
    geograph
}

#[test]
fn mod_test_add() {
    let mut geograph = geograph_fixture();
    geograph.add(Node::new(6, at(6.0, 6.0), vec![]));

    assert_eq!(geograph.len(), 7);
    assert!(!geograph.is_empty());
}

#[test]
fn test_add() {
    let geograph = small_fixture();

    assert_eq!(geograph.len(), 3);
    assert!(!geograph.is_empty());
}

#[test]
fn test_add_overwrites_same_id() {
    let mut geograph = geograph_fixture();
    geograph.add(Node::new(2, at(20.0, 20.0), vec![0]));

    assert_eq!(geograph.len(), 6);
    let node = geograph.get(2).unwrap();
    assert_eq!(node.geoloc(), at(20.0, 20.0));
    assert_eq!(node.waypoints, vec![0]);
}

#[test]
fn test_new_is_empty() {
    let geograph = Geograph::new("Nothing");
    assert_eq!(geograph.name(), "Nothing");
    assert_eq!(geograph.len(), 0);
    assert!(geograph.is_empty());
    assert!(geograph.ids().is_empty());
    assert!(geograph.iter_nodes().is_empty());
    assert!(geograph.get(0).is_none());
    assert_eq!(geograph.first_id(), None);
}

#[test]
fn mod_test_get_existing_node() {
    let geograph = geograph_fixture();
    let retrieved_node = geograph.get(2);

    assert!(retrieved_node.is_some());
    assert_eq!(retrieved_node.unwrap().id, 2);
}

#[test]
fn test_get_existing_node() {
    let geograph = small_fixture();
    let retrieved_node = geograph.get(2);

    assert!(retrieved_node.is_some());
    assert_eq!(retrieved_node.unwrap().id, 2);
}

#[test]
fn test_get_copy() {
    let geograph = geograph_fixture();
    let copy = geograph.get_copy(3).unwrap();

    assert_eq!(copy.id, 3);
    assert_eq!(copy.waypoints, vec![1, 2, 3, 4, 5]);
    assert_eq!(copy.geoloc(), at(3.0, 3.0));
    assert!(geograph.get_copy(100).is_none());
}

#[test]
fn mod_test_get_non_existent_node() {
    let geograph = geograph_fixture();
    let non_existent_node = geograph.get(100);

    assert!(non_existent_node.is_none());
}

#[test]
fn test_get_non_existent_node() {
    let geograph = small_fixture();
    let non_existent_node = geograph.get(4);

    assert!(non_existent_node.is_none());
}

#[test]
fn mod_test_nodes() {
    let geograph = geograph_fixture();
    let nodes: Vec<&Node> = geograph.iter_nodes();

    assert_eq!(nodes.len(), 6);
}

#[test]
fn test_nodes() {
    let geograph = small_fixture();
    let nodes: Vec<&Node> = geograph.iter_nodes();

    assert_eq!(nodes.len(), 3);
}

#[test]
fn test_ids_and_nodes_hold_each_node_once() {
    let geograph = geograph_fixture();
    let mut ids = geograph.ids();
    ids.sort();
    assert_eq!(ids, vec![0, 1, 2, 3, 4, 5]);

    let mut seen: Vec<i32> = geograph.iter_nodes().iter().map(|node| node.id).collect();
    seen.sort();
    assert_eq!(seen, vec![0, 1, 2, 3, 4, 5]);
    assert_eq!(geograph.first_id(), Some(0));
}

#[test]
fn test_node_accessors() {
    let node = Node::new(7, at(1.5, -2.5), vec![1, 2]);
    assert_eq!(node.id, 7);
    assert_eq!(f64::from_bits(node.lat()), 1.5);
    assert_eq!(f64::from_bits(node.lng()), -2.5);
    assert_eq!(node.geoloc(), at(1.5, -2.5));
    let copy = node.clone();
    assert_eq!(copy.id, 7);
    assert_eq!(copy.waypoints, vec![1, 2]);
    assert_eq!(copy.geoloc(), at(1.5, -2.5));
}

#[test]
fn test_is_connected() {
    let mut geograph = geograph_fixture();
    assert!(geograph.is_connected());

    geograph.add(Node::new(6, at(6.0, 6.0), vec![3, 4]));
    assert!(!geograph.is_connected());
}

#[test]
fn test_is_connected_edge_cases() {
    let empty = Geograph::new("Nothing");
    assert!(!empty.is_connected());

    let mut single = Geograph::new("One");
    single.add(Node::new(4, at(0.0, 0.0), vec![]));
    assert!(single.is_connected());

    assert!(!two_islands().is_connected());

    // A waypoint that the graph does not hold is no node: it is neither
    // counted nor walked over.
    let mut dangling = Geograph::new("Dangling");
    dangling
        .add(Node::new(0, at(0.0, 0.0), vec![7]))
        .add(Node::new(1, at(1.0, 1.0), vec![]));
    assert!(!dangling.is_connected());

    let mut one_way = Geograph::new("One way");
    one_way
        .add(Node::new(0, at(0.0, 0.0), vec![1]))
        .add(Node::new(1, at(1.0, 1.0), vec![]));
    assert!(one_way.is_connected());
    let mut other_way = Geograph::new("Other way");
    other_way
        .add(Node::new(0, at(0.0, 0.0), vec![]))
        .add(Node::new(1, at(1.0, 1.0), vec![0]));
    assert!(!other_way.is_connected());
}

#[test]
fn mod_test_closest() {
    let geograph = geograph_fixture();
    let origin = geograph.get(0).unwrap();
    let very_close_to_origin = Node::new(6, at(0.01, 0.01), vec![1]);

    let closest = geograph.closest(&very_close_to_origin, &Haversine).unwrap();

    assert_eq!(closest.id, origin.id);
}

#[test]
fn test_closest_of_nothing() {
    let geograph = Geograph::new("Nothing");
    assert!(geograph.closest(&at(1.0, 1.0), &Haversine).is_none());
}

#[test]
fn test_closest_breaks_ties_by_lowest_id() {
    let mut geograph = Geograph::new("Ties");
    geograph
        .add(Node::new(9, at(1.0, 1.0), vec![]))
        .add(Node::new(3, at(1.0, 1.0), vec![]))
        .add(Node::new(5, at(1.0, 1.0), vec![]))
        .add(Node::new(1, at(40.0, 40.0), vec![]));
    for _ in 0..20 {
        assert_eq!(geograph.closest(&at(1.2, 0.9), &Haversine).unwrap().id, 3);
    }
    assert_eq!(geograph.closest(&at(39.0, 39.0), &Haversine).unwrap().id, 1);
}

#[test]
fn mod_test_shortest_path() {
    let geograph = geograph_fixture();

    let path = geograph.dijkstra(0, 5, &Haversine).unwrap().unwrap();
    assert_eq!(path, vec![0, 1, 2, 5]);

    let path = geograph.dijkstra(2, 0, &Haversine).unwrap().unwrap();
    assert_eq!(path, vec![2, 1, 0]);

    let path = geograph.dijkstra(4, 0, &Haversine).unwrap().unwrap();
    assert_eq!(path, vec![4, 1, 0]);

    let path = geograph.dijkstra(5, 0, &Haversine).unwrap().unwrap();
    assert_eq!(path, vec![5, 4, 1, 0]);
}

#[test]
fn test_dijkstra_edge_cases() {
    let geograph = geograph_fixture();
    assert_eq!(geograph.dijkstra(3, 3, &Haversine), Ok(Some(vec![3])));
    assert_eq!(geograph.dijkstra(0, 100, &Haversine), Ok(None));
    assert_eq!(geograph.dijkstra(100, 0, &Haversine), Ok(None));
    assert_eq!(geograph.dijkstra(100, 100, &Haversine), Ok(None));

    let islands = two_islands();
    assert_eq!(islands.dijkstra(0, 1, &Haversine), Ok(Some(vec![0, 1])));
    assert_eq!(islands.dijkstra(0, 11, &Haversine), Ok(None));
    assert_eq!(islands.dijkstra(10, 1, &Haversine), Ok(None));

    let empty = Geograph::new("Nothing");
    assert_eq!(empty.dijkstra(0, 1, &Haversine), Ok(None));
}

#[test]
fn test_dijkstra_missing_neighbor() {
    let mut geograph = Geograph::new("Corrupt");
    geograph
        .add(Node::new(0, at(0.0, 0.0), vec![1, 7]))
        .add(Node::new(1, at(1.0, 1.0), vec![0, 2]))
        .add(Node::new(2, at(2.0, 2.0), vec![1]));
    // The origin is settled first and names the node 7.
    assert_eq!(geograph.dijkstra(0, 2, &Haversine), Err(GraphError::MissingNeighbor));
    // The destination ends the search before the node 0 is settled.
    assert_eq!(geograph.dijkstra(2, 1, &Haversine), Ok(Some(vec![2, 1])));
    assert_eq!(geograph.dijkstra(0, 0, &Haversine), Ok(Some(vec![0])));
    assert_eq!(GraphError::MissingNeighbor.message(), "Missing neighbor");
    assert_eq!(GraphError::NoClosestNode.message(), "No closest node found");
}

#[test]
fn test_shortest_path_via_waypoints() {
    let geograph = geograph_fixture();
    let from = at(40.6759, -74.0504);
    let to = at(41.0067858, 28.9732219);

    let (distance, path, path_type) = geograph.shortest_path(&from, &to, &Haversine).unwrap();

    assert_eq!(km(distance), 14116.87577572815);
    assert_eq!(path.len(), 6);
    assert_eq!(path_type, PathType::ViaWaypoints);
    assert_eq!(path.points()[0], from);
    assert_eq!(path.points()[5], to);
    // The length is the sum of the lengths between consecutive points.
    let mut sum = 0.0;
    for pair in path.points().windows(2) {
        sum += km(Haversine.distance(&pair[0], &pair[1]));
    }
    assert_eq!(km(distance), sum);
    assert_eq!(km(path.length(&Haversine)), km(distance));
}

#[test]
fn test_shortest_path_between_nodes() {
    let geograph = geograph_fixture();
    let from = geograph.get(0).unwrap();
    let to = geograph.get(5).unwrap();

    let (distance, path, path_type) = geograph.shortest_path(from, to, &Haversine).unwrap();

    assert_eq!(path_type, PathType::ViaWaypoints);
    assert_eq!(
        path.points(),
        &vec![at(0.0, 0.0), at(0.0, 0.0), at(1.0, 1.0), at(2.0, 2.0), at(5.0, 5.0), at(5.0, 5.0)]
    );
    let expected = 0.0
        + haversine((0.0, 0.0), (0.0, 0.0))
        + haversine((0.0, 0.0), (1.0, 1.0))
        + haversine((1.0, 1.0), (2.0, 2.0))
        + haversine((2.0, 2.0), (5.0, 5.0))
        + haversine((5.0, 5.0), (5.0, 5.0));
    assert_eq!(km(distance), expected);
}

#[test]
fn test_shortest_path_is_repeatable() {
    let geograph = geograph_fixture();
    let from = at(0.3, 0.2);
    let to = at(4.9, 5.2);
    let (distance, path, path_type) = geograph.shortest_path(&from, &to, &Haversine).unwrap();
    for _ in 0..10 {
        let (again, same_path, same_type) =
            geograph_fixture().shortest_path(&from, &to, &Haversine).unwrap();
        assert_eq!(again, distance);
        assert_eq!(same_path.points(), path.points());
        assert_eq!(same_type, path_type);
    }
}

#[test]
fn test_shortest_path_disconnected_is_direct() {
    let geograph = two_islands();
    let from = at(0.1, 0.1);
    let to = at(50.9, 50.9);

    let (distance, path, path_type) = geograph.shortest_path(&from, &to, &Haversine).unwrap();

    assert_eq!(path_type, PathType::Direct);
    assert_eq!(km(distance), haversine((0.1, 0.1), (50.9, 50.9)));
    assert_eq!(path.points(), &vec![from, to]);

    let (_, path, path_type) = geograph.shortest_path(&from, &at(0.9, 0.9), &Haversine).unwrap();
    assert_eq!(path_type, PathType::ViaWaypoints);
    assert_eq!(path.len(), 4);
}

#[test]
fn test_shortest_path_empty_graph_is_direct() {
    let geograph = Geograph::new("Nothing");
    let from = at(1.0, 2.0);
    let to = at(3.0, 4.0);

    assert!(geograph.closest(&from, &Haversine).is_none());
    let (distance, path, path_type) = geograph.shortest_path(&from, &to, &Haversine).unwrap();

    assert_eq!(path_type, PathType::Direct);
    assert_eq!(km(distance), 314.4029510236249);
    assert_eq!(path.points(), &vec![from, to]);
}

#[test]
fn test_shortest_path_missing_neighbor() {
    let mut geograph = Geograph::new("Corrupt");
    geograph
        .add(Node::new(0, at(0.0, 0.0), vec![1, 7]))
        .add(Node::new(1, at(1.0, 1.0), vec![0, 2]))
        .add(Node::new(2, at(2.0, 2.0), vec![1]));
    let found = geograph.shortest_path(&at(0.0, 0.1), &at(2.0, 2.1), &Haversine);
    assert!(matches!(found, Err(GraphError::MissingNeighbor)));
    let found = geograph.distance(&at(0.0, 0.1), &at(2.0, 2.1), &Haversine);
    assert!(matches!(found, Err(GraphError::MissingNeighbor)));
}

#[test]
fn test_distance_is_strict_about_empty_graphs() {
    let geograph = Geograph::new("Nothing");
    let found = geograph.distance(&at(1.0, 2.0), &at(3.0, 4.0), &Haversine);
    assert!(matches!(found, Err(GraphError::NoClosestNode)));

    let geograph = geograph_fixture();
    let from = at(40.6759, -74.0504);
    let to = at(41.0067858, 28.9732219);
    let (distance, path, path_type) = geograph.distance(&from, &to, &Haversine).unwrap();
    assert_eq!(km(distance), 14116.87577572815);
    assert_eq!(path.len(), 6);
    assert_eq!(path_type, PathType::ViaWaypoints);

    let (distance, path, path_type) =
        two_islands().distance(&at(0.1, 0.1), &at(50.9, 50.9), &Haversine).unwrap();
    assert_eq!(path_type, PathType::Direct);
    assert_eq!(km(distance), haversine((0.1, 0.1), (50.9, 50.9)));
    assert_eq!(path.len(), 2);
}

#[test]
fn mod_it_calculates_distance() {
    let geograph = geograph_fixture();
    let from: Geoloc = at(40.6759, -74.0504); // USNYC
    let to: Geoloc = at(41.0067858, 28.9732219); // TRIST
    let legs: Vec<_> = (0..100).map(|_| Leg((from, to))).collect();

    let shortest_paths = geograph.batch_shortest_path(&legs, &Haversine);
    let first = shortest_paths.first().unwrap().as_ref().unwrap();
    let (distance, path, path_type) = first;

    assert_eq!(shortest_paths.len(), legs.len());
    assert_eq!(km(*distance), 14116.87577572815);
    assert_eq!(path.len(), 6);
    assert_eq!(*path_type, PathType::ViaWaypoints);
}

#[test]
fn test_batch_is_index_aligned() {
    let geograph = geograph_fixture();
    let places = [at(0.1, 0.1), at(2.2, 1.9), at(5.0, 4.8), at(3.1, 3.0)];
    let mut legs = Vec::new();
    for from in places.iter() {
        for to in places.iter() {
            legs.push(Leg((*from, *to)));
        }
    }
    let found = geograph.batch_shortest_path(&legs, &Haversine);
    assert_eq!(found.len(), legs.len());
    for (leg, way) in legs.iter().zip(found.iter()) {
        let (distance, path, path_type) = way.as_ref().unwrap();
        let (alone, alone_path, alone_type) =
            geograph.shortest_path(leg.origin(), leg.destination(), &Haversine).unwrap();
        assert_eq!(*distance, alone);
        assert_eq!(path.points(), alone_path.points());
        assert_eq!(*path_type, alone_type);
    }
    assert!(geograph.batch_shortest_path::<Geoloc, Haversine>(&[], &Haversine).is_empty());
}

#[test]
fn test_batch_isolates_failures() {
    let mut geograph = two_islands();
    geograph.add(Node::new(20, at(-30.0, -30.0), vec![21, 99]));
    geograph.add(Node::new(21, at(-31.0, -31.0), vec![20]));
    let legs = vec![
        Leg((at(0.0, 0.1), at(1.0, 1.1))),
        Leg((at(-30.0, -30.1), at(-31.0, -31.1))),
        Leg((at(50.0, 50.1), at(51.0, 51.1))),
    ];
    let found = geograph.batch_shortest_path(&legs, &Haversine);
    assert_eq!(found.len(), 3);
    assert_eq!(found[0].as_ref().unwrap().2, PathType::ViaWaypoints);
    assert!(matches!(found[1], Err(GraphError::MissingNeighbor)));
    assert_eq!(found[2].as_ref().unwrap().2, PathType::ViaWaypoints);
}

#[test]
fn test_dijkstra_counts_steps() {
    let geograph = geograph_fixture();
    // Three ways of three edges lead from 0 to 5; the search settles 2 before
    // 3 and 4, so the way over 2 is the one that reaches 5 first.
    assert_eq!(geograph.dijkstra(0, 5, &Hops), Ok(Some(vec![0, 1, 2, 5])));
    assert_eq!(geograph.dijkstra(5, 0, &Hops), Ok(Some(vec![5, 3, 1, 0])));
    assert_eq!(geograph.dijkstra(2, 4, &Hops), Ok(Some(vec![2, 1, 4])));

    // Every node is one step from every place, so the node with the lowest
    // identifier is the nearest to both ends.
    let (distance, path, path_type) =
        geograph.shortest_path(&at(0.0, 0.0), &at(5.0, 5.0), &Hops).unwrap();
    assert_eq!(path_type, PathType::ViaWaypoints);
    assert_eq!(path.points(), &vec![at(0.0, 0.0), at(0.0, 0.0), at(5.0, 5.0)]);
    assert_eq!(distance, Distance(2));
    assert_eq!(Hops.sum(Distance(u64::MAX), Distance(1)), Distance(u64::MAX));
    assert_eq!(Hops.sum(Distance(2), Distance(3)), Distance(5));
    assert_eq!(Hops.distance(&at(1.0, 1.0), &at(2.0, 2.0)), Distance(1));
}

struct Dice(u64);

impl Dice {
    fn roll(&mut self, sides: u64) -> u64 {
        self.0 = self.0.wrapping_mul(6364136223846793005).wrapping_add(1442695040888963407);
        (self.0 >> 33) % sides
    }
}

/// A graph of `count` nodes at scattered places, each with a few waypoints
/// among the others.
fn scattered(count: i32, dice: &mut Dice) -> (Geograph, Vec<(i32, Geoloc, Vec<i32>)>) {
    let mut listed = Vec::new();
    let mut geograph = Geograph::new("Scattered");
    for id in 0..count {
        let place = at(dice.roll(120) as f64 - 60.0, dice.roll(300) as f64 - 150.0);
        let mut waypoints = Vec::new();
        for _ in 0..dice.roll(4) {
            waypoints.push(dice.roll(count as u64) as i32);
        }
        geograph.add(Node::new(id, place, waypoints.clone()));
        listed.push((id, place, waypoints));
    }
    (geograph, listed)
}

/// The least length of a way from `origin` to every node, found by looking
/// at every edge again and again until nothing gets shorter.
fn least_lengths(listed: &[(i32, Geoloc, Vec<i32>)], origin: i32) -> Vec<f64> {
    let mut least = vec![f64::INFINITY; listed.len()];
    least[origin as usize] = 0.0;
    let mut changed = true;
    while changed {
        changed = false;
        for (id, place, waypoints) in listed {
            for next in waypoints {
                let leg = km(Haversine.distance(place, &listed[*next as usize].1));
                let candidate = least[*id as usize] + leg;
                if candidate < least[*next as usize] {
                    least[*next as usize] = candidate;
                    changed = true;
                }
            }
        }
    }
    least
}

#[test]
fn test_dijkstra_finds_the_least_length() {
    let mut dice = Dice(2024);
    for round in 0..40 {
        let count = 2 + (round % 12);
        let (geograph, listed) = scattered(count, &mut dice);
        for origin in 0..count {
            let least = least_lengths(&listed, origin);
            for destination in 0..count {
                let found = geograph.dijkstra(origin, destination, &Haversine).unwrap();
                match found {
                    None => assert_eq!(least[destination as usize], f64::INFINITY),
                    Some(path) => {
                        assert_eq!(path[0], origin);
                        assert_eq!(*path.last().unwrap(), destination);
                        let mut length = 0.0;
                        for pair in path.windows(2) {
                            let from = &listed[pair[0] as usize];
                            assert!(from.2.contains(&pair[1]));
                            length += km(Haversine.distance(&from.1, &listed[pair[1] as usize].1));
                        }
                        assert_eq!(length, least[destination as usize]);
                    }
                }
            }
        }
    }
}

#[test]
fn test_is_connected_is_reachability_from_the_lowest_id() {
    let mut dice = Dice(7);
    for round in 0..200 {
        let count = 1 + (round % 9);
        let (geograph, listed) = scattered(count, &mut dice);
        let mut reached = vec![false; listed.len()];
        let mut waiting = vec![0usize];
        while let Some(id) = waiting.pop() {
            if !reached[id] {
                reached[id] = true;
                for next in &listed[id].2 {
                    waiting.push(*next as usize);
                }
            }
        }
        assert_eq!(geograph.is_connected(), reached.iter().all(|seen| *seen));
    }
}

#[test]
fn test_closest_is_the_least_by_length_then_id() {
    let mut dice = Dice(99);
    for round in 0..100 {
        let count = 1 + (round % 15);
        let (geograph, listed) = scattered(count, &mut dice);
        let point = at(dice.roll(120) as f64 - 60.0, dice.roll(300) as f64 - 150.0);
        let expected = listed
            .iter()
            .map(|(id, place, _)| (Haversine.distance(place, &point), *id))
            .min()
            .unwrap();
        assert_eq!(geograph.closest(&point, &Haversine).unwrap().id, expected.1);
    }
}
