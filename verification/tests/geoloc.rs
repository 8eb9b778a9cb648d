use routrs::{Distance, DistanceModel, Geoloc, Geolocalizable, Path};

struct Haversine;

fn haversine(origin: (f64, f64), destination: (f64, f64)) -> f64 {
    let lat1 = origin.0.to_radians();
    let lng1 = origin.1.to_radians();
    let lat2 = destination.0.to_radians();
    let lng2 = destination.1.to_radians();
    let d_lat = lat2 - lat1;
    let d_lng = lng2 - lng1;
    let sin_half_d_lat = (d_lat / 2.0).sin();
    let sin_half_d_lng = (d_lng / 2.0).sin();
    let a = sin_half_d_lat * sin_half_d_lat
        + lat1.cos() * lat2.cos() * sin_half_d_lng * sin_half_d_lng;
    let c = 2.0 * a.sqrt().atan2((1.0 - a).sqrt());
    6_371.0 * c
}

impl DistanceModel for Haversine {
    fn distance_spec(&self, origin: Geoloc, destination: Geoloc) -> Distance {
        self.distance(&origin, &destination)
    }

    fn sum_spec(&self, travelled: Distance, leg: Distance) -> Distance {
        self.sum(travelled, leg)
    }

    fn distance(&self, origin: &Geoloc, destination: &Geoloc) -> Distance {
        let from = (f64::from_bits(origin.0), f64::from_bits(origin.1));
        let to = (f64::from_bits(destination.0), f64::from_bits(destination.1));
        Distance(haversine(from, to).to_bits())
    }

    fn sum(&self, travelled: Distance, leg: Distance) -> Distance {
        Distance((f64::from_bits(travelled.0) + f64::from_bits(leg.0)).to_bits())
    }
}

/// Every way is one step long: the length of a path counts its steps.
struct Steps;

impl DistanceModel for Steps {
    fn distance_spec(&self, origin: Geoloc, destination: Geoloc) -> Distance {
        self.distance(&origin, &destination)
    }

    fn sum_spec(&self, travelled: Distance, leg: Distance) -> Distance {
        self.sum(travelled, leg)
    }

    fn distance(&self, _origin: &Geoloc, _destination: &Geoloc) -> Distance {
        Distance(1)
    }

    fn sum(&self, travelled: Distance, leg: Distance) -> Distance {
        Distance(travelled.0 + leg.0)
    }
}

fn at(lat: f64, lng: f64) -> Geoloc {
    (lat.to_bits(), lng.to_bits())
}

fn km(distance: Distance) -> f64 {
    f64::from_bits(distance.0)
}

#[test]
fn geoloc_test_haversine_distance() {
    let path = Path::new(vec![at(1.0, 2.0), at(3.0, 4.0)]);
    assert_eq!(km(path.length(&Haversine)), 314.4029510236249);
}

#[test]
fn test_haversine_is_symmetric_and_zero_on_itself() {
    let a = at(1.0, 2.0);
    let b = at(3.0, 4.0);
    assert_eq!(Haversine.distance(&a, &b), Haversine.distance(&b, &a));
    assert_eq!(km(Haversine.distance(&a, &a)), 0.0);
    assert_eq!(Haversine.distance(&b, &b), Distance::zero());
}

#[test]
fn test_path_length_adds_consecutive_distances() {
    let points = vec![at(0.0, 0.0), at(1.0, 1.0), at(2.0, 2.0), at(5.0, 5.0)];
    let path = Path::new(points.clone());
    let mut expected = 0.0;
    for pair in points.windows(2) {
        expected += km(Haversine.distance(&pair[0], &pair[1]));
    }
    assert_eq!(path.len(), 4);
    assert_eq!(path.points(), &points);
    assert_eq!(km(path.length(&Haversine)), expected);
    assert_eq!(km(path.length(&Haversine)), 785.7679001452395);
}

#[test]
fn test_path_length_of_short_paths() {
    let none: Path<Geoloc> = Path::new(vec![]);
    let one = Path::new(vec![at(1.0, 2.0)]);
    assert_eq!(none.len(), 0);
    assert_eq!(none.length(&Haversine), Distance::zero());
    assert_eq!(one.length(&Haversine), Distance::zero());
    assert_eq!(none.length(&Steps), Distance(0));
}

#[test]
fn test_path_length_counts_steps() {
    let two = Path::new(vec![at(0.0, 0.0), at(1.0, 1.0)]);
    let five = Path::new(vec![at(0.0, 0.0); 5]);
    assert_eq!(two.length(&Steps), Distance(1));
    assert_eq!(five.length(&Steps), Distance(4));
}

#[test]
fn test_distance_orders_as_its_length() {
    let lengths = [0.0, 1.0e-300, 0.5, 1.0, 314.4029510236249, 20037.5, f64::MAX, f64::INFINITY];
    for pair in lengths.windows(2) {
        let shorter = Distance(pair[0].to_bits());
        let longer = Distance(pair[1].to_bits());
        assert!(shorter.shorter_than(&longer));
        assert!(!longer.shorter_than(&shorter));
        assert!(!shorter.shorter_than(&shorter));
        assert!(shorter < longer);
    }
    assert_eq!(km(Distance::zero()), 0.0);
    assert_eq!(km(Distance::infinity()), f64::INFINITY);
    assert_eq!(Distance::infinity().value(), f64::INFINITY.to_bits());
}

#[test]
fn test_geoloc_is_its_own_location() {
    let place = at(48.8768, 2.3592);
    assert_eq!(place.geoloc(), place);
    assert_eq!(f64::from_bits(place.lat()), 48.8768);
    assert_eq!(f64::from_bits(place.lng()), 2.3592);
}
