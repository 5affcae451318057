//! Harvestable resources: a named deposit with a current fill level that
//! effects can deplete.

use vstd::prelude::*;

verus! {

/// A bounded fill level.
#[derive(Clone, Copy, Debug)]
pub struct Level {
    pub max: u8,
    pub current: u8,
}

/// A compact resource description keyed by a fill `Level`.
#[derive(Clone, Debug)]
pub struct Resource {
    pub name: String,
    pub level: Level,
    pub replenish_time: Option<u16>,
}

/// Static data of a resource entity on the grid.
#[derive(Clone, Debug)]
pub struct ResourceProperties {
    pub max_amount: u32,
    pub name: String,
    pub replenish_amount: Option<u32>,
}

/// Mutable data of a resource entity on the grid.
#[derive(Clone, Copy, Debug)]
pub struct ResourceState {
    pub current_amount: u32,
}

} // verus!
