//! The entity model: tagged variants for everything that can be placed on the
//! grid, together with the spec-level projections (kind, name, footprint size,
//! blocking behaviour) that the grid's contracts are written over.

pub mod doodad;
pub mod resource;
pub mod structure;
pub mod walker;

use vstd::prelude::*;

use crate::entities::doodad::Doodad;
use crate::entities::resource::ResourceProperties;
use crate::entities::resource::ResourceState;
use crate::entities::structure::StructureProperties;
use crate::entities::structure::StructureState;
use crate::entities::walker::WalkerProperties;
use crate::entities::walker::WalkerState;
use crate::production::exchange::Producer;

verus! {

/// A placeable thing: the closed sum of every entity kind the grid knows.
#[derive(Clone)]
pub enum Entity {
    Doodad { props: Doodad },
    Resource { props: ResourceProperties, state: ResourceState, producer: Option<Producer> },
    Structure { props: StructureProperties, state: StructureState, producer: Option<Producer> },
    Walker { props: WalkerProperties, state: WalkerState },
    Road,
}

/// The variant tag alone, for name/type lookups. `Road` carries no name and is
/// not addressable this way, so it has no tag here.
#[derive(Clone, Copy, PartialEq, Eq, Structural, Debug)]
pub enum EntityType {
    Doodad,
    Resource,
    Structure,
    Walker,
}

/// The lookup tag of an entity, if it has one.
pub open spec fn spec_entity_type(e: Entity) -> Option<EntityType> {
    match e {
        Entity::Doodad { .. } => Some(EntityType::Doodad),
        Entity::Resource { .. } => Some(EntityType::Resource),
        Entity::Structure { .. } => Some(EntityType::Structure),
        Entity::Walker { .. } => Some(EntityType::Walker),
        Entity::Road => None,
    }
}

/// The name an entity answers to in lookups; `Road` has none.
pub open spec fn spec_entity_name(e: Entity) -> Option<Seq<char>> {
    match e {
        Entity::Doodad { props } => Some(props.name@),
        Entity::Resource { props, .. } => Some(props.name@),
        Entity::Structure { props, .. } => Some(props.name@),
        Entity::Walker { props, .. } => Some(props.name@),
        Entity::Road => None,
    }
}

/// The footprint extent of an entity: structures occupy their configured
/// rectangle, everything else a single cell.
pub open spec fn spec_entity_size(e: Entity) -> (usize, usize) {
    match e {
        Entity::Structure { props, .. } => (props.size.width, props.size.height),
        _ => (1usize, 1usize),
    }
}

/// Whether an entity's footprint makes its cells impassable. Walkers are the
/// only non-blocking kind: they pass through and can share a cell.
pub open spec fn spec_is_blocking(e: Entity) -> bool {
    !(e is Walker)
}

/// Executable footprint extent; agrees with `spec_entity_size`.
pub fn entity_size(e: &Entity) -> (r: (usize, usize))
    ensures
        r == spec_entity_size(*e),
{
    match e {
        Entity::Structure { props, .. } => (props.size.width, props.size.height),
        _ => (1usize, 1usize),
    }
}

/// Executable blocking test; agrees with `spec_is_blocking`.
pub fn entity_is_blocking(e: &Entity) -> (r: bool)
    ensures
        r == spec_is_blocking(*e),
{
    match e {
        Entity::Walker { .. } => false,
        _ => true,
    }
}

/// Executable lookup tag; agrees with `spec_entity_type`.
pub fn entity_type_of(e: &Entity) -> (r: Option<EntityType>)
    ensures
        r == spec_entity_type(*e),
{
    match e {
        Entity::Doodad { .. } => Some(EntityType::Doodad),
        Entity::Resource { .. } => Some(EntityType::Resource),
        Entity::Structure { .. } => Some(EntityType::Structure),
        Entity::Walker { .. } => Some(EntityType::Walker),
        Entity::Road => None,
    }
}

} // verus!
