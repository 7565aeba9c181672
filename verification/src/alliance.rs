//! Alliance records of the catalog.

use vstd::prelude::*;

verus! {

/// An alliance record of the catalog.
#[derive(Debug, Clone, PartialEq)]
pub struct Alliance {
    pub creator_corporation_id: i32,
    pub creator_id: i32,
    pub date_founded: String,
    pub executor_corporation_id: Option<i32>,
    pub faction_id: Option<i32>,
    pub name: String,
    pub ticker: String,
}

} // verus!
