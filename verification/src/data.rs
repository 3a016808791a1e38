use vstd::prelude::*;

use crate::entities::{
    Action, ConstructionConfig, Entity, HealthComponent, EntityConfig, EntityId, PhysicalTypeConfig, Team,
    TrainingConfig, NANOS_PER_MILLI, NANOS_PER_SEC, NUM_ENTITY_ACTIONS,
};

verus! {

#[derive(Debug, PartialEq, Eq, Structural, Copy, Clone, Hash)]
pub enum EntityType {
    FuelRift,
    Enforcer,
    Engineer,
    BattleAcademy,
    TechLab,
}

/// What an entity created with the given id, type, position and team is: idle, with the
/// size, health and actions of its type, and a unit without plan, movement or load.
pub open spec fn is_created(
    entity: Entity,
    id: EntityId,
    entity_type: EntityType,
    position: [u32; 2],
    team: Team,
) -> bool {
    &&& entity.id == id
    &&& entity.entity_type == entity_type
    &&& entity.position == position
    &&& entity.team == team
    &&& entity.state is Idle
    &&& entity.spec_size() == spec_entity_size(entity_type)
    &&& entity.is_unit() == is_unit_type(entity_type)
    &&& entity.health == spec_initial_health(entity_type)
    &&& entity.actions == spec_entity_actions(entity_type)
    &&& entity.wf()
    &&& entity.is_unit() ==> {
        &&& entity.spec_unit().movement_plan.movement_plan@.len() == 0
        &&& entity.spec_unit().sub_cell_movement.remaining == 0
        &&& entity.spec_unit().gathering matches Some(g) ==> g.held_resource is None
        &&& entity.spec_unit().direction == crate::entities::Direction::South
    }
    &&& match entity.training {
        Some(training) => {
            &&& training.ongoing is None
            &&& training.options@ == crate::entities::training_options_of(spec_entity_actions(entity_type)@)
            &&& training.options@.len() > 0
        },
        None => crate::entities::training_options_of(spec_entity_actions(entity_type)@).len() == 0,
    }
    &&& entity_type == EntityType::FuelRift ==> entity.resource_remaining_spec() == Some(10u32)
}

/// Creates an entity of the given type with its configuration.
pub fn create_entity(id: EntityId, entity_type: EntityType, position: [u32; 2], team: Team) -> (entity:
    Entity)
    ensures
        is_created(entity, id, entity_type, position, team),
{
    let config = entity_config(entity_type);
    crate::entities::Entity::new(id, entity_type, config, position, team)
}

/// The health an entity of this type starts with.
pub open spec fn spec_initial_health(entity_type: EntityType) -> Option<HealthComponent> {
    match spec_max_health(entity_type) {
        Some(max) => Some(HealthComponent { max, current: max }),
        None => None,
    }
}

/// Whether entities of this type are units.
pub open spec fn is_unit_type(entity_type: EntityType) -> bool {
    entity_type == EntityType::Enforcer || entity_type == EntityType::Engineer
}

/// Whether entities of this type are structures.
pub open spec fn is_structure_type(entity_type: EntityType) -> bool {
    entity_type == EntityType::BattleAcademy || entity_type == EntityType::TechLab
}

/// The cells that an entity of this type covers.
pub open spec fn spec_entity_size(entity_type: EntityType) -> [u32; 2] {
    if is_structure_type(entity_type) {
        [3, 3]
    } else {
        [1, 1]
    }
}

pub open spec fn spec_max_health(entity_type: EntityType) -> Option<u32> {
    match entity_type {
        EntityType::Enforcer => Some(3),
        EntityType::Engineer => Some(5),
        EntityType::BattleAcademy => Some(3),
        EntityType::TechLab => Some(5),
        EntityType::FuelRift => None,
    }
}

pub open spec fn battle_academy_construction() -> ConstructionConfig {
    ConstructionConfig { construction_time: 10_000_000_000u64, cost: 2 }
}

pub open spec fn tech_lab_construction() -> ConstructionConfig {
    ConstructionConfig { construction_time: 5_000_000_000u64, cost: 1 }
}

/// The action slots of each entity type.
pub open spec fn spec_entity_actions(entity_type: EntityType) -> [Option<Action>; NUM_ENTITY_ACTIONS] {
    match entity_type {
        EntityType::Enforcer => [
            Some(Action::Move),
            Some(Action::Stop),
            Some(Action::Attack),
            None,
            None,
            None,
        ],
        EntityType::Engineer => [
            Some(Action::Move),
            Some(Action::Stop),
            Some(Action::GatherResource),
            Some(Action::ReturnResource),
            Some(Action::Construct(EntityType::BattleAcademy, battle_academy_construction())),
            Some(Action::Construct(EntityType::TechLab, tech_lab_construction())),
        ],
        EntityType::BattleAcademy => [
            Some(
                Action::Train(
                    EntityType::Enforcer,
                    TrainingConfig { duration: 7_000_000_000u64, cost: 1 },
                ),
            ),
            None,
            None,
            None,
            None,
            None,
        ],
        EntityType::TechLab => [
            Some(
                Action::Train(
                    EntityType::Engineer,
                    TrainingConfig { duration: 4_000_000_000u64, cost: 1 },
                ),
            ),
            None,
            None,
            None,
            None,
            None,
        ],
        EntityType::FuelRift => [None, None, None, None, None, None],
    }
}

/// The sizes of the entity types that workers can construct.
pub fn structure_sizes() -> (sizes: Vec<(EntityType, [u32; 2])>)
    ensures
        sizes@ == seq![
            (EntityType::BattleAcademy, [3u32, 3u32]),
            (EntityType::TechLab, [3u32, 3u32]),
        ],
{
    let mut sizes: Vec<(EntityType, [u32; 2])> = Vec::new();
    let config = entity_config(EntityType::BattleAcademy);
    match config.physical_type {
        PhysicalTypeConfig::StructureSize(size) => sizes.push((EntityType::BattleAcademy, size)),
        _ => {},
    }
    let config = entity_config(EntityType::TechLab);
    match config.physical_type {
        PhysicalTypeConfig::StructureSize(size) => sizes.push((EntityType::TechLab, size)),
        _ => {},
    }
    assert(sizes@ =~= seq![
        (EntityType::BattleAcademy, [3u32, 3u32]),
        (EntityType::TechLab, [3u32, 3u32]),
    ]);
    sizes
}

/// The configuration of each entity type; durations are in nanoseconds.
pub fn entity_config(entity_type: EntityType) -> (config: EntityConfig)
    ensures
        config.is_solid,
        config.max_health == spec_max_health(entity_type),
        config.actions == spec_entity_actions(entity_type),
        config.physical_type == match entity_type {
            EntityType::Enforcer => PhysicalTypeConfig::MovementCooldown(600_000_000u64),
            EntityType::Engineer => PhysicalTypeConfig::MovementCooldown(900_000_000u64),
            EntityType::BattleAcademy => PhysicalTypeConfig::StructureSize([3, 3]),
            EntityType::TechLab => PhysicalTypeConfig::StructureSize([3, 3]),
            EntityType::FuelRift => PhysicalTypeConfig::ResourceCapacity(10),
        },
{
    match entity_type {
        EntityType::Enforcer => EntityConfig {
            is_solid: true,
            max_health: Some(3),
            physical_type: PhysicalTypeConfig::MovementCooldown(600 * NANOS_PER_MILLI),
            actions: [Some(Action::Move), Some(Action::Stop), Some(Action::Attack), None, None, None],
        },
        EntityType::Engineer => EntityConfig {
            is_solid: true,
            max_health: Some(5),
            physical_type: PhysicalTypeConfig::MovementCooldown(900 * NANOS_PER_MILLI),
            actions: [
                Some(Action::Move),
                Some(Action::Stop),
                Some(Action::GatherResource),
                Some(Action::ReturnResource),
                Some(
                    Action::Construct(
                        EntityType::BattleAcademy,
                        ConstructionConfig { construction_time: 10 * NANOS_PER_SEC, cost: 2 },
                    ),
                ),
                Some(
                    Action::Construct(
                        EntityType::TechLab,
                        ConstructionConfig { construction_time: 5 * NANOS_PER_SEC, cost: 1 },
                    ),
                ),
            ],
        },
        EntityType::BattleAcademy => EntityConfig {
            is_solid: true,
            max_health: Some(3),
            physical_type: PhysicalTypeConfig::StructureSize([3, 3]),
            actions: [
                Some(
                    Action::Train(
                        EntityType::Enforcer,
                        TrainingConfig { duration: 7 * NANOS_PER_SEC, cost: 1 },
                    ),
                ),
                None,
                None,
                None,
                None,
                None,
            ],
        },
        EntityType::TechLab => EntityConfig {
            is_solid: true,
            max_health: Some(5),
            physical_type: PhysicalTypeConfig::StructureSize([3, 3]),
            actions: [
                Some(
                    Action::Train(
                        EntityType::Engineer,
                        TrainingConfig { duration: 4 * NANOS_PER_SEC, cost: 1 },
                    ),
                ),
                None,
                None,
                None,
                None,
                None,
            ],
        },
        EntityType::FuelRift => EntityConfig {
            is_solid: true,
            max_health: None,
            physical_type: PhysicalTypeConfig::ResourceCapacity(10),
            actions: [None, None, None, None, None, None],
        },
    }
}

} // verus!
