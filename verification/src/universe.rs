//! The catalog's universe records: regions down to belts and moons.

use vstd::prelude::*;

use crate::position::Position;

verus! {

/// A top-level item category of the catalog.
#[derive(Debug, Clone, PartialEq)]
pub struct Category {
    pub category_id: i32,
    pub name: String,
    pub published: bool,
    pub groups: Vec<i32>,
}

/// An item group of the catalog.
#[derive(Debug, Clone, PartialEq)]
pub struct Group {
    pub group_id: i32,
    pub name: String,
    pub category_id: i32,
    pub published: bool,
    pub types: Vec<i32>,
}

/// A region: the largest named area of space.
#[derive(Debug, Clone, PartialEq)]
pub struct Region {
    pub region_id: i32,
    pub name: String,
    pub description: Option<String>,
    pub constellations: Vec<i32>,
}

/// A constellation of systems within a region.
#[derive(Debug, Clone, PartialEq)]
pub struct Constellation {
    pub constellation_id: i32,
    pub name: String,
    pub position: Position,
    pub region_id: i32,
    pub systems: Vec<i32>,
}

/// A star at the centre of a system.
#[derive(Debug, Clone, PartialEq)]
pub struct Star {
    pub name: String,
    pub age: u64,
    pub spectral_class: String,
    pub temperature: i32,
    pub radius: i64,
    pub solar_system_id: i32,
    pub type_id: i32,
}

/// A planet of a system.
#[derive(Debug, Clone, PartialEq)]
pub struct Planet {
    pub planet_id: i32,
    pub name: String,
    pub position: Position,
    pub system_id: i32,
    pub type_id: i32,
}

/// A moon of a planet.
#[derive(Debug, Clone, PartialEq)]
pub struct Moon {
    pub moon_id: i32,
    pub name: String,
    pub position: Position,
    pub system_id: i32,
}

/// An asteroid belt of a planet.
#[derive(Debug, Clone, PartialEq)]
pub struct AsteroidBelt {
    pub name: String,
    pub position: Position,
    pub system_id: i32,
}

/// A stargate of a system, with its destination.
#[derive(Debug, Clone, PartialEq)]
pub struct Stargate {
    pub stargate_id: i32,
    pub name: String,
    pub position: Position,
    pub destination: StargateDestination,
    pub system_id: i32,
    pub type_id: i32,
}

/// Where a stargate leads: the partner gate and its system.
#[derive(Debug, Clone, Copy, PartialEq, Eq, Structural)]
pub struct StargateDestination {
    pub stargate_id: i32,
    pub system_id: i32,
}

/// A planet of a system together with its belt and moon ids.
#[derive(Debug, Clone, PartialEq)]
pub struct PlanetarySystem {
    pub planet_id: i32,
    pub asteroid_belts: Option<Vec<i32>>,
    pub moons: Option<Vec<i32>>,
}

/// One dogma effect reference of an item type.
#[derive(Debug, Clone, Copy, PartialEq, Eq, Structural)]
pub struct DogmaEffects {
    pub effect_id: i32,
    pub is_default: bool,
}

} // verus!
