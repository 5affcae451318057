//! Walkers: mobile, non-blocking entities with an optional life countdown.

use vstd::prelude::*;

verus! {

/// Static data of a walker entity.
#[derive(Clone, Debug)]
pub struct WalkerProperties {
    pub name: String,
    pub patrol: Option<u32>,
    pub max_life: Option<u32>,
}

/// Mutable data of a walker entity. Commodities are an association list from
/// commodity name to carried amount.
#[derive(Clone, Debug)]
pub struct WalkerState {
    pub current_life: Option<u32>,
    pub commodities: Vec<(String, u32)>,
}

} // verus!
