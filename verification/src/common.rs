//! Shared catalog records: lookups, resolved names, search results and
//! the server status.

use vstd::prelude::*;

verus! {

/// How a catalog lookup is addressed: nothing, a plain id, or a
/// killmail id with its hash.
#[derive(Debug, Clone, PartialEq)]
pub enum Uid {
    Empty,
    Id(i32),
    Killmail(i32, String),
}

/// A resolved name: an id, the display name, and the category the
/// catalog filed it under.
#[derive(Debug, Clone, PartialEq)]
pub struct Names {
    pub id: i32,
    pub name: String,
    pub category: Category,
}

/// The categories a resolved name may belong to.
#[derive(Debug, Clone, Copy, PartialEq, Eq, Structural)]
pub enum Category {
    Alliance,
    Character,
    Constellation,
    Corporation,
    InventoryType,
    Region,
    SolarSystem,
    Station,
    Faction,
}

/// An identified object of the catalog: an id and a display name.
#[derive(Debug, Clone, PartialEq)]
pub struct Object {
    pub id: i32,
    pub name: String,
}

impl Object {
    pub fn new(id: i32, name: &str) -> (r: Self)
        ensures
            r.id == id,
            r.name@ == name@,
    {
        Object { id, name: name.to_owned() }
    }
}

/// What a catalog search returned, one optional list per category.
#[derive(Debug, Clone, PartialEq)]
pub struct SearchResult {
    pub agents: Option<Vec<Object>>,
    pub alliances: Option<Vec<Object>>,
    pub characters: Option<Vec<Object>>,
    pub constellations: Option<Vec<Object>>,
    pub corporations: Option<Vec<Object>>,
    pub factions: Option<Vec<Object>>,
    pub inventory_types: Option<Vec<Object>>,
    pub regions: Option<Vec<Object>>,
    pub stations: Option<Vec<Object>>,
    pub systems: Option<Vec<Object>>,
}

/// The categories a search result can be asked for.
#[derive(Debug, Clone, Copy, PartialEq, Eq, Structural)]
pub enum ItemType {
    Agents,
    Alliances,
    Characters,
    Constellations,
    Corporations,
    Factions,
    Inventory,
    Regions,
    Stations,
    Systems,
}

impl SearchResult {
    /// The first entry of the agents list, whichever category is
    /// asked for.
    pub fn one(&self, requested_type: ItemType) -> (r: Option<Object>)
        ensures
            match self.agents {
                Some(v) => if v@.len() > 0 {
                    r matches Some(o) && o == v@[0]
                } else {
                    r is None
                },
                None => r is None,
            },
    {
        let _ = requested_type;
        match &self.agents {
            Some(v) => {
                if v.len() > 0 {
                    Some(Object { id: v[0].id, name: v[0].name.clone() })
                } else {
                    None
                }
            },
            None => None,
        }
    }
}

/// The game server's status report.
#[derive(Debug, Clone, PartialEq)]
pub struct Status {
    pub players: i32,
    pub server_version: String,
    pub start_time: String,
    pub vip: Option<bool>,
}

} // verus!
