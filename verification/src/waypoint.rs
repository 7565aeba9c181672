//! A waypoint: identity and display name bound to a position.

use vstd::prelude::*;

use crate::position::{dist, Position, DIST_MAX};

verus! {

/// A named, positioned point that can be visited.
#[derive(Debug, Clone, PartialEq)]
pub struct WayPoint {
    pub id: i32,
    pub name: String,
    pub position: Position,
}

impl WayPoint {
    pub open spec fn wf(self) -> bool {
        self.position.wf()
    }

    pub fn new(id: i32, name: &str, position: &Position) -> (r: Self)
        ensures
            r.id == id,
            r.name@ == name@,
            r.position == *position,
    {
        WayPoint { id, name: name.to_owned(), position: *position }
    }

    /// An equal copy of this waypoint.
    pub fn duplicate(&self) -> (r: Self)
        ensures
            r == *self,
    {
        WayPoint { id: self.id, name: self.name.clone(), position: self.position }
    }

    /// The distance from this waypoint to `other`.
    pub fn distance_to(&self, other: &Self) -> (r: u64)
        requires
            self.wf(),
            other.wf(),
        ensures
            r == dist(self.position, other.position),
            r <= DIST_MAX,
    {
        self.position.distance_to(&other.position)
    }
}

} // verus!
