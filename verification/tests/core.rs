use rts_core::data::{create_entity, EntityType};
use rts_core::entities::{Entity, EntityId, EntityState, Team};
use rts_core::game_core::{
    AttackCommand, Command, CommandError, ConstructCommand, Core, GatherResourceCommand,
    MoveCommand, ObstacleType, ReturnResourceCommand, StopCommand, TrainCommand,
};

const MILLI: u64 = 1_000_000;
const SEC: u64 = 1_000_000_000;

fn entity_by_id(core: &Core, id: EntityId) -> Option<&Entity> {
    core.entities().iter().find(|e| e.id == id)
}

fn resources(core: &Core, team: Team) -> u32 {
    core.team_state(&team).unwrap().resources
}

fn run_for(core: &mut Core, total: u64, step: u64) -> (Vec<EntityId>, Vec<EntityId>) {
    let mut removed = Vec::new();
    let mut finished = Vec::new();
    let mut t = 0;
    while t < total {
        let outcome = core.update(step);
        removed.extend(outcome.removed_entities);
        finished.extend(outcome.finished_structures);
        t += step;
    }
    (removed, finished)
}

fn basic_core() -> Core {
    let entities = vec![
        create_entity(EntityId(1), EntityType::Engineer, [2, 2], Team::Player),
        create_entity(EntityId(2), EntityType::TechLab, [5, 5], Team::Player),
        create_entity(EntityId(3), EntityType::FuelRift, [2, 5], Team::Neutral),
        create_entity(EntityId(4), EntityType::Enforcer, [10, 10], Team::Enemy1),
    ];
    Core::new(entities, [16, 16], vec![[0, 15], [1, 15]])
}

#[test]
fn new_core_marks_entities_and_water() {
    let core = basic_core();
    assert_eq!(core.dimensions(), [16, 16]);
    assert_eq!(core.entities().len(), 4);
    let grid = core.obstacle_grid();
    assert_eq!(grid.get(&[2, 2]), Some(ObstacleType::Entity(Team::Player)));
    assert_eq!(grid.get(&[7, 7]), Some(ObstacleType::Entity(Team::Player)));
    assert_eq!(grid.get(&[8, 8]), Some(ObstacleType::Free));
    assert_eq!(grid.get(&[0, 15]), Some(ObstacleType::Water));
    assert_eq!(grid.get(&[2, 5]), Some(ObstacleType::Entity(Team::Neutral)));
    assert_eq!(grid.get(&[16, 0]), None);
}

#[test]
fn every_team_with_entities_starts_with_fifteen_resources() {
    let core = basic_core();
    assert_eq!(resources(&core, Team::Player), 15);
    assert_eq!(resources(&core, Team::Enemy1), 15);
    assert_eq!(resources(&core, Team::Neutral), 15);
    assert!(core.team_state(&Team::Enemy2).is_none());
}

#[test]
fn structure_size_is_three_by_three() {
    let core = basic_core();
    assert_eq!(core.structure_size(&EntityType::TechLab), [3, 3]);
    assert_eq!(core.structure_size(&EntityType::BattleAcademy), [3, 3]);
}

#[test]
fn structure_fits_only_on_free_cells() {
    let core = basic_core();
    assert!(core.can_structure_fit([2, 2], [1, 1], [3, 3]));
    assert!(!core.can_structure_fit([0, 0], [1, 1], [3, 3]));
    assert!(!core.can_structure_fit([2, 2], [4, 4], [3, 3]));
    assert!(!core.can_structure_fit([2, 2], [14, 14], [3, 3]));
}

#[test]
fn training_costs_and_places_a_new_engineer() {
    let mut core = basic_core();
    let command = Command::Train(TrainCommand {
        trainer: EntityId(2),
        trained_unit_type: EntityType::Engineer,
    });
    assert!(core.command_is_valid(&command, Team::Player));
    assert_eq!(core.issue_command(command, Team::Player), None);
    assert_eq!(resources(&core, Team::Player), 14);
    assert!(matches!(
        entity_by_id(&core, EntityId(2)).unwrap().state,
        EntityState::TrainingUnit(EntityType::Engineer)
    ));
    run_for(&mut core, 4 * SEC + 100 * MILLI, 100 * MILLI);
    assert_eq!(core.entities().len(), 5);
    let new_unit = &core.entities()[4];
    assert_eq!(new_unit.entity_type, EntityType::Engineer);
    assert_eq!(new_unit.team, Team::Player);
    assert_eq!(new_unit.position, [4, 4]);
    assert!(new_unit.id.0 > 4);
    assert!(matches!(entity_by_id(&core, EntityId(2)).unwrap().state, EntityState::Idle));
    assert_eq!(
        core.obstacle_grid().get(&[4, 4]),
        Some(ObstacleType::Entity(Team::Player))
    );
}

#[test]
fn second_training_is_refused_while_one_is_going_on() {
    let mut core = basic_core();
    let train = || {
        Command::Train(TrainCommand {
            trainer: EntityId(2),
            trained_unit_type: EntityType::Engineer,
        })
    };
    assert_eq!(core.issue_command(train(), Team::Player), None);
    let second = core.issue_command(train(), Team::Player);
    assert_eq!(second, None);
    assert_eq!(resources(&core, Team::Player), 14);
}

#[test]
fn gathering_brings_resources_back_to_the_tech_lab() {
    let mut core = basic_core();
    let command = Command::GatherResource(GatherResourceCommand {
        gatherer: EntityId(1),
        resource: EntityId(3),
    });
    assert_eq!(core.issue_command(command, Team::Player), None);
    run_for(&mut core, 20 * SEC, 50 * MILLI);
    assert!(resources(&core, Team::Player) > 15);
    let rift = entity_by_id(&core, EntityId(3)).unwrap();
    assert!(rift.resource_remaining().unwrap() < 10);
}

#[test]
fn return_without_load_is_refused() {
    let mut core = basic_core();
    let command = Command::ReturnResource(ReturnResourceCommand {
        gatherer: EntityId(1),
        structure: None,
    });
    assert_eq!(
        core.issue_command(command, Team::Player),
        Some(CommandError::NotCarryingResource)
    );
}

#[test]
fn moving_unit_reaches_its_destination_and_idles() {
    let mut core = basic_core();
    let command = Command::Move(MoveCommand {
        unit: EntityId(1),
        destination: [2, 0],
    });
    assert_eq!(core.issue_command(command, Team::Player), None);
    assert!(matches!(entity_by_id(&core, EntityId(1)).unwrap().state, EntityState::Moving));
    run_for(&mut core, 5 * SEC, 100 * MILLI);
    let engineer = entity_by_id(&core, EntityId(1)).unwrap();
    assert_eq!(engineer.position, [2, 0]);
    assert!(matches!(engineer.state, EntityState::Idle));
    assert_eq!(core.obstacle_grid().get(&[2, 2]), Some(ObstacleType::Free));
    assert_eq!(
        core.obstacle_grid().get(&[2, 0]),
        Some(ObstacleType::Entity(Team::Player))
    );
}

#[test]
fn stop_makes_a_moving_unit_idle() {
    let mut core = basic_core();
    let command = Command::Move(MoveCommand {
        unit: EntityId(1),
        destination: [12, 2],
    });
    assert_eq!(core.issue_command(command, Team::Player), None);
    let stop = Command::Stop(StopCommand { entity: EntityId(1) });
    assert_eq!(core.issue_command(stop, Team::Player), None);
    assert!(matches!(entity_by_id(&core, EntityId(1)).unwrap().state, EntityState::Idle));
}

#[test]
fn attacker_kills_its_victim_and_it_is_removed() {
    let entities = vec![
        create_entity(EntityId(1), EntityType::Enforcer, [2, 2], Team::Player),
        create_entity(EntityId(2), EntityType::Enforcer, [3, 2], Team::Enemy1),
    ];
    let mut core = Core::new(entities, [8, 8], vec![]);
    let command = Command::Attack(AttackCommand {
        attacker: EntityId(1),
        victim: EntityId(2),
    });
    assert!(core.command_is_valid(&command, Team::Player));
    assert_eq!(core.issue_command(command, Team::Player), None);
    let (removed, _) = run_for(&mut core, 12 * SEC, 100 * MILLI);
    assert_eq!(removed, vec![EntityId(2)]);
    assert!(entity_by_id(&core, EntityId(2)).is_none());
    assert_eq!(core.obstacle_grid().get(&[3, 2]), Some(ObstacleType::Free));
    let attacker = entity_by_id(&core, EntityId(1)).unwrap();
    assert!(matches!(attacker.state, EntityState::Idle));
}

#[test]
fn attacking_an_own_entity_is_not_a_valid_command() {
    let core = basic_core();
    let command = Command::Attack(AttackCommand {
        attacker: EntityId(4),
        victim: EntityId(4),
    });
    assert!(!core.command_is_valid(&command, Team::Enemy1));
    let command = Command::Attack(AttackCommand {
        attacker: EntityId(4),
        victim: EntityId(1),
    });
    assert!(!core.command_is_valid(&command, Team::Player));
    assert!(core.command_is_valid(&command, Team::Enemy1));
}

#[test]
fn construction_turns_the_builder_into_a_structure() {
    let mut core = basic_core();
    let command = Command::Construct(ConstructCommand {
        builder: EntityId(1),
        structure_position: [9, 1],
        structure_type: EntityType::BattleAcademy,
    });
    assert_eq!(core.issue_command(command, Team::Player), None);
    assert_eq!(resources(&core, Team::Player), 13);
    let (removed, finished) = run_for(&mut core, 30 * SEC, 100 * MILLI);
    assert_eq!(removed, vec![EntityId(1)]);
    assert_eq!(finished.len(), 1);
    let academy = entity_by_id(&core, finished[0]).unwrap();
    assert_eq!(academy.entity_type, EntityType::BattleAcademy);
    assert_eq!(academy.position, [9, 1]);
    assert!(matches!(academy.state, EntityState::Idle));
    for x in 9..12 {
        for y in 1..4 {
            assert_eq!(
                core.obstacle_grid().get(&[x, y]),
                Some(ObstacleType::Entity(Team::Player))
            );
        }
    }
}

#[test]
fn construction_without_resources_is_refused() {
    let mut entities = Vec::new();
    for k in 0..8u32 {
        entities.push(create_entity(EntityId(k as usize + 1), EntityType::Engineer, [k, 0], Team::Player));
    }
    let mut core = Core::new(entities, [16, 16], vec![]);
    for k in 0..7usize {
        let command = Command::Construct(ConstructCommand {
            builder: EntityId(k + 1),
            structure_position: [9, 1],
            structure_type: EntityType::BattleAcademy,
        });
        assert_eq!(core.issue_command(command, Team::Player), None);
    }
    assert_eq!(resources(&core, Team::Player), 1);
    let command = Command::Construct(ConstructCommand {
        builder: EntityId(8),
        structure_position: [9, 1],
        structure_type: EntityType::BattleAcademy,
    });
    assert_eq!(
        core.issue_command(command, Team::Player),
        Some(CommandError::NotEnoughResources)
    );
    assert_eq!(resources(&core, Team::Player), 1);
}

#[test]
fn a_new_command_refunds_a_construction_not_started() {
    let mut core = basic_core();
    let command = Command::Construct(ConstructCommand {
        builder: EntityId(1),
        structure_position: [9, 1],
        structure_type: EntityType::BattleAcademy,
    });
    assert_eq!(core.issue_command(command, Team::Player), None);
    assert_eq!(resources(&core, Team::Player), 13);
    let stop = Command::Stop(StopCommand { entity: EntityId(1) });
    assert_eq!(core.issue_command(stop, Team::Player), None);
    assert_eq!(resources(&core, Team::Player), 15);
}

#[test]
fn construction_on_occupied_cells_is_refused() {
    let mut core = basic_core();
    let command = Command::Construct(ConstructCommand {
        builder: EntityId(1),
        structure_position: [4, 4],
        structure_type: EntityType::TechLab,
    });
    assert_eq!(
        core.issue_command(command, Team::Player),
        Some(CommandError::NotEnoughSpaceForStructure)
    );
    assert_eq!(resources(&core, Team::Player), 15);
}

#[test]
fn move_to_unreachable_cell_is_refused() {
    let entities = vec![create_entity(EntityId(1), EntityType::Engineer, [0, 0], Team::Player)];
    let water = vec![[2, 0], [2, 1]];
    let mut core = Core::new(entities, [6, 2], water);
    let command = Command::Move(MoveCommand {
        unit: EntityId(1),
        destination: [4, 0],
    });
    assert_eq!(
        core.issue_command(command, Team::Player),
        Some(CommandError::NoPathFound)
    );
    assert!(matches!(entity_by_id(&core, EntityId(1)).unwrap().state, EntityState::Idle));
}

#[test]
fn update_without_commands_changes_nothing_of_idle_entities() {
    let mut core = basic_core();
    let outcome = core.update(SEC);
    assert!(outcome.removed_entities.is_empty());
    assert!(outcome.finished_structures.is_empty());
    assert_eq!(core.entities().len(), 4);
    assert_eq!(resources(&core, Team::Player), 15);
}

#[test]
fn command_of_another_team_is_not_valid() {
    let core = basic_core();
    let command = Command::Move(MoveCommand {
        unit: EntityId(1),
        destination: [3, 3],
    });
    assert!(core.command_is_valid(&command, Team::Player));
    assert!(!core.command_is_valid(&command, Team::Enemy1));
    let outside = Command::Move(MoveCommand {
        unit: EntityId(1),
        destination: [16, 3],
    });
    assert!(!core.command_is_valid(&outside, Team::Player));
    let missing = Command::Stop(StopCommand { entity: EntityId(99) });
    assert!(!core.command_is_valid(&missing, Team::Player));
}

#[test]
fn a_command_changes_only_its_actor() {
    let mut core = basic_core();
    let before: Vec<(EntityId, [u32; 2], Team)> = core
        .entities()
        .iter()
        .map(|e| (e.id, e.position, e.team))
        .collect();
    let command = Command::Move(MoveCommand {
        unit: EntityId(4),
        destination: [12, 12],
    });
    assert_eq!(core.issue_command(command, Team::Enemy1), None);
    for (k, entity) in core.entities().iter().enumerate() {
        assert_eq!((entity.id, entity.position, entity.team), before[k]);
        if entity.id != EntityId(4) {
            assert!(matches!(entity.state, EntityState::Idle));
        }
    }
    assert_eq!(resources(&core, Team::Player), 15);
}

#[test]
fn resources_never_drop_while_time_passes() {
    let mut core = basic_core();
    let command = Command::GatherResource(GatherResourceCommand {
        gatherer: EntityId(1),
        resource: EntityId(3),
    });
    assert_eq!(core.issue_command(command, Team::Player), None);
    let mut last = resources(&core, Team::Player);
    for _ in 0..300 {
        core.update(100 * MILLI);
        let now = resources(&core, Team::Player);
        assert!(now >= last);
        last = now;
    }
    assert!(last > 15);
}

#[test]
fn a_unit_moves_at_most_one_cell_per_update() {
    let mut core = basic_core();
    let command = Command::Move(MoveCommand {
        unit: EntityId(4),
        destination: [12, 14],
    });
    assert_eq!(core.issue_command(command, Team::Enemy1), None);
    let mut last = entity_by_id(&core, EntityId(4)).unwrap().position;
    for _ in 0..40 {
        core.update(SEC);
        let now = entity_by_id(&core, EntityId(4)).unwrap().position;
        let dx = (now[0] as i64 - last[0] as i64).abs();
        let dy = (now[1] as i64 - last[1] as i64).abs();
        assert!(dx <= 1 && dy <= 1);
        last = now;
    }
    assert_eq!(last, [12, 14]);
}

#[test]
fn health_only_goes_down_while_fighting() {
    let entities = vec![
        create_entity(EntityId(1), EntityType::Enforcer, [2, 2], Team::Player),
        create_entity(EntityId(2), EntityType::Enforcer, [3, 2], Team::Enemy1),
    ];
    let mut core = Core::new(entities, [8, 8], vec![]);
    let command = Command::Attack(AttackCommand {
        attacker: EntityId(1),
        victim: EntityId(2),
    });
    assert_eq!(core.issue_command(command, Team::Player), None);
    let start = entity_by_id(&core, EntityId(2)).unwrap().health.unwrap();
    let mut last = start.current;
    let mut fell = false;
    while let Some(victim) = entity_by_id(&core, EntityId(2)) {
        let health = victim.health.unwrap();
        assert_eq!(health.max, start.max);
        assert!(health.current <= last);
        fell = fell || health.current < last;
        last = health.current;
        core.update(100 * MILLI);
    }
    assert!(fell);
}

#[test]
fn what_is_left_in_a_resource_only_goes_down() {
    let mut core = basic_core();
    let command = Command::GatherResource(GatherResourceCommand {
        gatherer: EntityId(1),
        resource: EntityId(3),
    });
    assert_eq!(core.issue_command(command, Team::Player), None);
    let mut last = entity_by_id(&core, EntityId(3)).unwrap().resource_remaining().unwrap();
    let start = last;
    for _ in 0..400 {
        core.update(50 * MILLI);
        let now = entity_by_id(&core, EntityId(3)).unwrap().resource_remaining().unwrap();
        assert!(now <= last);
        last = now;
    }
    assert!(last < start);
}

#[test]
fn created_entities_face_south_and_can_start_training() {
    let engineer = create_entity(EntityId(1), EntityType::Engineer, [2, 2], Team::Player);
    assert_eq!(engineer.unit().direction, rts_core::entities::Direction::South);
    let mut lab = create_entity(EntityId(2), EntityType::TechLab, [5, 5], Team::Player);
    let training = lab.training.as_mut().unwrap();
    assert!(training.ongoing.is_none());
    assert!(matches!(
        training.try_start(EntityType::Engineer),
        rts_core::entities::TrainingPerformStatus::NewTrainingStarted
    ));
    assert!(training.ongoing.is_some());
}

#[test]
fn a_structure_under_construction_can_be_handed_over_and_finishes() {
    let mut lab = create_entity(EntityId(1), EntityType::TechLab, [2, 2], Team::Player);
    lab.state = EntityState::UnderConstruction(2 * SEC, 5 * SEC);
    let mut core = Core::new(vec![lab], [10, 10], vec![]);
    let first = core.update(SEC);
    assert!(first.finished_structures.is_empty());
    assert!(matches!(
        entity_by_id(&core, EntityId(1)).unwrap().state,
        EntityState::UnderConstruction(r, t) if r == SEC && t == 5 * SEC
    ));
    let second = core.update(SEC);
    assert_eq!(second.finished_structures, vec![EntityId(1)]);
    assert!(matches!(entity_by_id(&core, EntityId(1)).unwrap().state, EntityState::Idle));
}

#[test]
fn a_dead_structure_is_removed_while_another_is_finished() {
    let mut a = create_entity(EntityId(1), EntityType::TechLab, [0, 0], Team::Player);
    a.health.as_mut().unwrap().receive_damage(5);
    let mut b = create_entity(EntityId(2), EntityType::BattleAcademy, [3, 0], Team::Player);
    b.state = EntityState::UnderConstruction(2 * SEC, 10 * SEC);
    let mut core = Core::new(vec![a, b], [6, 3], vec![]);
    let outcome = core.update(2 * SEC);
    assert_eq!(outcome.removed_entities, vec![EntityId(1)]);
    assert_eq!(outcome.finished_structures, vec![EntityId(2)]);
    assert_eq!(core.entities().len(), 1);
    assert_eq!(core.entities()[0].id, EntityId(2));
    assert!(matches!(core.entities()[0].state, EntityState::Idle));
    for x in 0..3 {
        for y in 0..3 {
            assert_eq!(core.obstacle_grid().get(&[x, y]), Some(ObstacleType::Free));
        }
    }
}
