//! Route planning over positioned waypoints: an exact permutation solver,
//! a nearest-neighbour heuristic, a rotation-sampling heuristic, an
//! ordinal (name-derived) ordering, and composition of sub-routes into
//! one itinerary, together with the catalog data model the routes are
//! built from.

pub mod alliance;
pub mod chain;
pub mod cloud;
pub mod common;
pub mod killmails;
pub mod market;
pub mod messages;
pub mod naming;
pub mod position;
pub mod route;
pub mod solver;
pub mod universe;
pub mod waypoint;

pub use chain::Cluster;
pub use cloud::{Cloud, CloudError, Place};
pub use common::{Category, ItemType, Names, Object, SearchResult, Status, Uid};
pub use position::{Position, COORD_LIMIT};
pub use route::Route;
pub use solver::WalkRule;
pub use waypoint::WayPoint;
