//! Kill record items.

use vstd::prelude::*;

verus! {

/// An item carried by a destroyed ship.
#[derive(Debug, Clone, PartialEq)]
pub struct Item {
    pub flag: i32,
    pub item_type_id: i32,
    pub quantity_destroyed: Option<u64>,
    pub quantity_dropped: Option<u64>,
    pub singleton: i32,
}

} // verus!
