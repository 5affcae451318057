//! Effects: value-comparable transformations of entity state. A cell or the
//! grid holds at most one instance of a given effect value; the cursor applies
//! them to every entity in range using a copy-apply-replace discipline.

use vstd::prelude::*;

use crate::entities::Entity;

verus! {

/// A transformation of an entity's mutable state. Each variant touches one
/// entity kind and leaves every other kind unchanged.
#[derive(Clone, Debug)]
pub enum Effect {
    /// Renames every doodad in range.
    RenameDoodads { name: String },
    /// Draws `amount` units out of every resource in range, stopping at zero.
    DepleteResource { amount: u32 },
    /// Raises every structure's damage by `damage` up to `damage_limit`, and
    /// its fire risk by `fire` without a limit.
    AccrueStructureRisk { damage: u32, damage_limit: u32, fire: u32 },
    /// Starts every walker's life countdown at its configured maximum, and
    /// counts an already started one down towards zero.
    WalkerLifeTick,
}

/// Value equality of effects: same variant, same payload. String payloads are
/// compared by their characters.
pub open spec fn effect_eq(a: Effect, b: Effect) -> bool {
    match (a, b) {
        (Effect::RenameDoodads { name: n1 }, Effect::RenameDoodads { name: n2 }) => n1@ == n2@,
        (Effect::DepleteResource { amount: a1 }, Effect::DepleteResource { amount: a2 }) => a1
            == a2,
        (
            Effect::AccrueStructureRisk { damage: d1, damage_limit: l1, fire: f1 },
            Effect::AccrueStructureRisk { damage: d2, damage_limit: l2, fire: f2 },
        ) => d1 == d2 && l1 == l2 && f1 == f2,
        (Effect::WalkerLifeTick, Effect::WalkerLifeTick) => true,
        _ => false,
    }
}

/// What applying `e` to `ent` yields. Only the state that the variant targets
/// changes; every other entity value is returned as it is.
pub open spec fn spec_apply_effect(e: Effect, ent: Entity) -> Entity {
    match ent {
        Entity::Doodad { props } => match e {
            Effect::RenameDoodads { name } => Entity::Doodad {
                props: crate::entities::doodad::Doodad {
                    name,
                    is_removable: props.is_removable,
                },
            },
            _ => Entity::Doodad { props },
        },
        Entity::Resource { props, state, producer } => match e {
            Effect::DepleteResource { amount } => Entity::Resource {
                props,
                state: crate::entities::resource::ResourceState {
                    current_amount: if state.current_amount >= amount {
                        (state.current_amount - amount) as u32
                    } else {
                        0u32
                    },
                },
                producer,
            },
            _ => Entity::Resource { props, state, producer },
        },
        Entity::Structure { props, state, producer } => match e {
            Effect::AccrueStructureRisk { damage, damage_limit, fire } => Entity::Structure {
                props,
                state: crate::entities::structure::StructureState {
                    current_employees: state.current_employees,
                    commodities: state.commodities,
                    risk: crate::entities::structure::Risk {
                        damage: if state.risk.damage >= damage_limit {
                            state.risk.damage
                        } else if state.risk.damage + damage <= damage_limit {
                            (state.risk.damage + damage) as u32
                        } else {
                            damage_limit
                        },
                        fire: if state.risk.fire + fire <= u32::MAX {
                            (state.risk.fire + fire) as u32
                        } else {
                            u32::MAX
                        },
                    },
                },
                producer,
            },
            _ => Entity::Structure { props, state, producer },
        },
        Entity::Walker { props, state } => match e {
            Effect::WalkerLifeTick => Entity::Walker {
                props,
                state: crate::entities::walker::WalkerState {
                    current_life: match state.current_life {
                        None => props.max_life,
                        Some(n) => Some(if n > 0 {
                            (n - 1) as u32
                        } else {
                            0u32
                        }),
                    },
                    commodities: state.commodities,
                },
            },
            _ => Entity::Walker { props, state },
        },
        Entity::Road => Entity::Road,
    }
}

impl Effect {
    /// Executable value equality; agrees with `effect_eq`.
    pub fn same_as(&self, other: &Effect) -> (r: bool)
        ensures
            r == effect_eq(*self, *other),
    {
        match (self, other) {
            (Effect::RenameDoodads { name: n1 }, Effect::RenameDoodads { name: n2 }) => *n1 == *n2,
            (Effect::DepleteResource { amount: a1 }, Effect::DepleteResource { amount: a2 }) => a1
                == a2,
            (
                Effect::AccrueStructureRisk { damage: d1, damage_limit: l1, fire: f1 },
                Effect::AccrueStructureRisk { damage: d2, damage_limit: l2, fire: f2 },
            ) => d1 == d2 && l1 == l2 && f1 == f2,
            (Effect::WalkerLifeTick, Effect::WalkerLifeTick) => true,
            _ => false,
        }
    }

    /// Applies this effect to a copy of `target`'s state and commits the copy,
    /// per the snapshot-apply-commit discipline.
    pub fn apply(&self, target: &mut Entity)
        ensures
            *final(target) == spec_apply_effect(*self, *old(target)),
    {
        match &mut *target {
            Entity::Doodad { props } => {
                match self {
                    Effect::RenameDoodads { name } => {
                        props.name = name.clone();
                    },
                    _ => {},
                }
            },
            Entity::Resource { state, .. } => {
                match self {
                    Effect::DepleteResource { amount } => {
                        state.current_amount = if state.current_amount >= *amount {
                            state.current_amount - *amount
                        } else {
                            0
                        };
                    },
                    _ => {},
                }
            },
            Entity::Structure { state, .. } => {
                match self {
                    Effect::AccrueStructureRisk { damage, damage_limit, fire } => {
                        if state.risk.damage < *damage_limit {
                            state.risk.damage = if *damage <= *damage_limit - state.risk.damage {
                                state.risk.damage + *damage
                            } else {
                                *damage_limit
                            };
                        }
                        state.risk.fire = if *fire <= u32::MAX - state.risk.fire {
                            state.risk.fire + *fire
                        } else {
                            u32::MAX
                        };
                    },
                    _ => {},
                }
            },
            Entity::Walker { props, state } => {
                match self {
                    Effect::WalkerLifeTick => {
                        state.current_life = match state.current_life {
                            None => props.max_life,
                            Some(n) => Some(if n > 0 {
                                n - 1
                            } else {
                                0
                            }),
                        };
                    },
                    _ => {},
                }
            },
            Entity::Road => {},
        }
    }
}

/// Applying an effect never changes an entity's kind, name-bearing variant,
/// footprint size or blocking behaviour: only the targeted mutable state moves.
pub proof fn lemma_apply_preserves_shape(e: Effect, ent: Entity)
    ensures
        crate::entities::spec_entity_type(spec_apply_effect(e, ent))
            == crate::entities::spec_entity_type(ent),
        crate::entities::spec_entity_size(spec_apply_effect(e, ent))
            == crate::entities::spec_entity_size(ent),
        crate::entities::spec_is_blocking(spec_apply_effect(e, ent))
            == crate::entities::spec_is_blocking(ent),
{
}

} // verus!
