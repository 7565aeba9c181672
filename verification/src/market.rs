//! The catalog's market records.

use vstd::prelude::*;

verus! {

/// A market group: a named set of item types, optionally nested
/// under a parent group.
#[derive(Debug, Clone, PartialEq)]
pub struct Group {
    pub market_group_id: i32,
    pub name: String,
    pub parent_group_id: Option<i32>,
    pub description: String,
    pub types: Vec<i32>,
}

} // verus!
