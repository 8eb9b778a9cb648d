//! A routing engine over geographic graphs: the shortest travel distance and
//! route between two arbitrary points, given a fixed network of nodes.
//!
//! The engine holds no floating-point code. Coordinates and lengths are kept
//! as the bit patterns of IEEE-754 doubles, and whoever uses the engine brings
//! a [`DistanceModel`] that measures and adds them.
pub mod concurrency;
pub mod connectivity;
pub mod dijkstra;
pub mod error;
pub mod geograph;
pub mod geoloc;
pub mod hops;
pub mod json;
pub mod locator;
pub mod queue;
pub mod route;
pub mod shortest;
pub mod walk;

pub use geograph::{Geograph, Node, NodeId, NodeView, PathType};
pub use geoloc::{Coord, Distance, DistanceModel, Geoloc, Geolocalizable, Lat, Lng, Path};
