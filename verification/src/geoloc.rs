//! Locations, lengths, the model that measures them, and paths.
use vstd::prelude::*;

verus! {

/// A coordinate in decimal degrees, held as the bit pattern of an IEEE-754
/// double. The engine carries coordinates and never computes with them.
pub type Coord = u64;

/// A latitude.
pub type Lat = Coord;

/// A longitude.
pub type Lng = Coord;

/// A geographic location: latitude, then longitude.
pub type Geoloc = (Lat, Lng);

/// Bit pattern of the double 0.0.
pub const ZERO_BITS: u64 = 0;

/// Bit pattern of the double +infinity.
pub const INFINITY_BITS: u64 = 0x7FF0_0000_0000_0000;

/// A length in kilometres, held as the bit pattern of a non-negative IEEE-754
/// double. For such patterns the order of the integers is the order of the
/// lengths they stand for, so the engine compares lengths as integers.
#[derive(Clone, Copy, Debug, PartialEq, Eq, Structural, PartialOrd, Ord, Hash)]
pub struct Distance(pub u64);

impl Distance {
    /// The length of a route that has not left its origin.
    pub fn zero() -> (d: Distance)
        ensures
            d == Distance(ZERO_BITS),
    {
        Distance(ZERO_BITS)
    }

    /// The length that stands for "not reached".
    pub fn infinity() -> (d: Distance)
        ensures
            d == Distance(INFINITY_BITS),
    {
        Distance(INFINITY_BITS)
    }

    /// The bit pattern of the length.
    pub fn value(&self) -> (bits: u64)
        ensures
            bits == self.0,
    {
        self.0
    }

    /// Whether `self` is strictly shorter than `other`.
    pub fn shorter_than(&self, other: &Distance) -> (b: bool)
        ensures
            b == (self.0 < other.0),
    {
        self.0 < other.0
    }
}

/// Anything that has a place on the globe.
pub trait Geolocalizable {
    /// The place, as contracts speak of it.
    spec fn location(&self) -> Geoloc;

    fn geoloc(&self) -> (g: Geoloc)
        ensures
            g == self.location(),
    ;

    fn lat(&self) -> (c: Lat)
        ensures
            c == self.location().0,
    {
        self.geoloc().0
    }

    fn lng(&self) -> (c: Lng)
        ensures
            c == self.location().1,
    {
        self.geoloc().1
    }
}

impl Geolocalizable for Geoloc {
    open spec fn location(&self) -> Geoloc {
        *self
    }

    fn geoloc(&self) -> (g: Geoloc) {
        *self
    }
}

/// How far apart two locations are, and how lengths add up.
///
/// The engine is verified for every model, and what it proves of a route is
/// stated over the two functions that a model names, `distance_spec` and
/// `sum_spec`. An implementation promises that its methods are these
/// functions: the same arguments give the same length, whenever they are
/// asked. A model that computes in floating point, as the great-circle
/// distance does, is implemented outside of this crate, and its promise is
/// not checked here; `Hops` is a model that is.
pub trait DistanceModel {
    /// The length of the way from `origin` to `destination`.
    spec fn distance_spec(&self, origin: Geoloc, destination: Geoloc) -> Distance;

    /// The length of a way of length `travelled` followed by one of length `leg`.
    spec fn sum_spec(&self, travelled: Distance, leg: Distance) -> Distance;

    fn distance(&self, origin: &Geoloc, destination: &Geoloc) -> (d: Distance)
        ensures
            d == self.distance_spec(*origin, *destination),
    ;

    fn sum(&self, travelled: Distance, leg: Distance) -> (d: Distance)
        ensures
            d == self.sum_spec(travelled, leg),
    ;
}

/// Whether a way that is no shorter stays no shorter when one leg is added
/// to both.
pub open spec fn is_monotone<M: DistanceModel>(model: &M) -> bool {
    forall|shorter: Distance, longer: Distance, leg: Distance|
        shorter.0 <= longer.0 ==> (#[trigger] model.sum_spec(shorter, leg)).0 <= (
        #[trigger] model.sum_spec(longer, leg)).0
}

/// Whether no way gets shorter by a leg added to it.
pub open spec fn is_inflationary<M: DistanceModel>(model: &M) -> bool {
    forall|travelled: Distance, leg: Distance|
        travelled.0 <= (#[trigger] model.sum_spec(travelled, leg)).0
}

/// Whether the sums of the model are those of lengths: monotone, and never
/// below what was added to. The sum of two doubles that are not below zero
/// is of this kind.
pub open spec fn is_lawful<M: DistanceModel>(model: &M) -> bool {
    is_monotone(model) && is_inflationary(model)
}

/// The length of a route through `points`: nothing for fewer than two points,
/// else the lengths between consecutive points, added from the first on.
pub open spec fn path_length<M: DistanceModel>(model: &M, points: Seq<Geoloc>) -> Distance
    decreases points.len(),
{
    if points.len() < 2 {
        Distance(ZERO_BITS)
    } else if points.len() == 2 {
        model.distance_spec(points[0], points[1])
    } else {
        model.sum_spec(
            path_length(model, points.drop_last()),
            model.distance_spec(points[points.len() - 2], points[points.len() - 1]),
        )
    }
}

/// The places of a sequence of located values.
pub open spec fn locations<T: Geolocalizable>(items: Seq<T>) -> Seq<Geoloc> {
    Seq::new(items.len(), |i: int| items[i].location())
}

/// The geometry of a route: its points in order.
#[derive(Debug)]
pub struct Path<T: Geolocalizable>(pub Vec<T>);

impl<T: Geolocalizable> View for Path<T> {
    type V = Seq<Geoloc>;

    open spec fn view(&self) -> Seq<Geoloc> {
        locations(self.0@)
    }
}

impl<T: Geolocalizable> Path<T> {
    /// A path through `points`.
    pub fn new(points: Vec<T>) -> (p: Path<T>)
        ensures
            p.0 == points,
    {
        Path(points)
    }

    /// How many points the path has.
    pub fn len(&self) -> (n: usize)
        ensures
            n == self@.len(),
    {
        self.0.len()
    }

    /// The points of the path, in order.
    pub fn points(&self) -> (points: &Vec<T>)
        ensures
            *points == self.0,
    {
        &self.0
    }

    /// The length of the path under `model`.
    pub fn length<M: DistanceModel>(&self, model: &M) -> (d: Distance)
        ensures
            d == path_length(model, self@),
    {
        let n = self.0.len();
        if n < 2 {
            return Distance::zero();
        }
        let mut total = model.distance(&self.0[0].geoloc(), &self.0[1].geoloc());
        let mut i: usize = 2;
        assert(self@.take(2) =~= seq![self@[0], self@[1]]);
        while i < n
            invariant
                2 <= i <= n,
                n == self.0@.len(),
                total == path_length(model, self@.take(i as int)),
            decreases n - i,
        {
            let leg = model.distance(&self.0[i - 1].geoloc(), &self.0[i].geoloc());
            total = model.sum(total, leg);
            proof {
                let next = self@.take(i + 1);
                assert(next.drop_last() =~= self@.take(i as int));
            }
            i += 1;
        }
        assert(self@.take(n as int) =~= self@);
        total
    }
}

} // verus!
