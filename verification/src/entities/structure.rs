//! Buildings: multi-cell entities with employment, stored commodities and
//! accumulated risk.

use vstd::prelude::*;

verus! {

/// Footprint extent of a structure, in cells.
#[derive(Clone, Copy, Debug)]
pub struct Size {
    pub width: usize,
    pub height: usize,
}

/// The broad category a structure belongs to.
#[derive(Clone, Copy, PartialEq, Eq, Structural, Debug)]
pub enum Type {
    Housing,
    Industry,
    Commerce,
}

/// Desirability of a structure on its surroundings, by ring distance.
#[derive(Clone, Copy, PartialEq, Eq, Structural, Debug)]
pub struct Desirability(pub i32, pub i32, pub i32, pub i32, pub i32, pub i32);

/// Accumulated hazard levels of a structure.
#[derive(Clone, Copy, PartialEq, Eq, Structural, Debug)]
pub struct Risk {
    pub damage: u32,
    pub fire: u32,
}

/// Static data of a structure entity.
#[derive(Clone, Debug)]
pub struct StructureProperties {
    pub name: String,
    pub size: Size,
    pub max_employees: u32,
    pub cost: u32,
    pub desirability: Desirability,
    pub structure_type: Type,
}

/// Mutable data of a structure entity. Commodities are an association list
/// from commodity name to stored amount.
#[derive(Clone, Debug)]
pub struct StructureState {
    pub current_employees: u32,
    pub commodities: Vec<(String, u32)>,
    pub risk: Risk,
}

} // verus!
