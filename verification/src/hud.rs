use vstd::prelude::*;

use crate::data::EntityType;
use crate::entities::{Action, EntityState};

verus! {

/// Whether an entity's state is the one that an action button starts, so that the button is
/// shown as active: training that type of unit, going to build that type of structure,
/// moving, attacking, gathering or bringing back a resource. Stopping is never shown as
/// active.
pub open spec fn spec_state_matches_action(state: EntityState, action: Action) -> bool {
    match action {
        Action::Train(unit_type, _) => state matches EntityState::TrainingUnit(t) && t == unit_type,
        Action::Construct(structure_type, _) => state matches EntityState::MovingToConstruction(t, _)
            && t == structure_type,
        Action::Move => state is Moving,
        Action::Attack => state is Attacking,
        Action::GatherResource => state is GatheringResource,
        Action::ReturnResource => state is ReturningResource,
        Action::Stop => false,
    }
}

/// Whether an entity's state is the one that the action starts.
pub fn state_matches_action(state: EntityState, action: Action) -> (matches: bool)
    ensures
        matches == spec_state_matches_action(state, action),
{
    match action {
        Action::Train(unit_type, _) => match state {
            EntityState::TrainingUnit(t) => t == unit_type,
            _ => false,
        },
        Action::Construct(structure_type, _) => match state {
            EntityState::MovingToConstruction(t, _) => t == structure_type,
            _ => false,
        },
        Action::Move => match state {
            EntityState::Moving => true,
            _ => false,
        },
        Action::Attack => match state {
            EntityState::Attacking(_) => true,
            _ => false,
        },
        Action::GatherResource => match state {
            EntityState::GatheringResource(_) => true,
            _ => false,
        },
        Action::ReturnResource => match state {
            EntityState::ReturningResource(_) => true,
            _ => false,
        },
        Action::Stop => false,
    }
}

/// Whether an action has a key: training engineers and enforcers, building battle academies
/// and tech labs, and every action that is not training or building.
pub open spec fn action_has_hotkey(action: Action) -> bool {
    match action {
        Action::Train(unit_type, _) => unit_type == EntityType::Engineer || unit_type == EntityType::Enforcer,
        Action::Construct(structure_type, _) => structure_type == EntityType::BattleAcademy
            || structure_type == EntityType::TechLab,
        _ => true,
    }
}

/// The key that uses an action.
pub open spec fn spec_action_hotkey(action: Action) -> char {
    match action {
        Action::Train(unit_type, _) => if unit_type == EntityType::Engineer {
            'E'
        } else {
            'F'
        },
        Action::Construct(structure_type, _) => if structure_type == EntityType::BattleAcademy {
            'B'
        } else {
            'T'
        },
        Action::Stop => 'S',
        Action::Move => 'M',
        Action::Attack => 'A',
        Action::GatherResource => 'G',
        Action::ReturnResource => 'R',
    }
}

/// The key that uses an action: E and F train engineers and enforcers, B and T build battle
/// academies and tech labs, and S, M, A, G and R stop, move, attack, gather and return.
pub fn action_hotkey(action: Action) -> (key: char)
    requires
        action_has_hotkey(action),
    ensures
        key == spec_action_hotkey(action),
{
    match action {
        Action::Train(unit_type, _) => match unit_type {
            EntityType::Engineer => 'E',
            _ => 'F',
        },
        Action::Construct(structure_type, _) => match structure_type {
            EntityType::BattleAcademy => 'B',
            _ => 'T',
        },
        Action::Stop => 'S',
        Action::Move => 'M',
        Action::Attack => 'A',
        Action::GatherResource => 'G',
        Action::ReturnResource => 'R',
    }
}

} // verus!
