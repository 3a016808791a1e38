use rts_core::data::{create_entity, EntityType};
use rts_core::entities::{EntityId, Team};
use rts_core::game_core::{Command, Core};
use rts_core::team_ai::{spiral_search, TeamAi};
use rts_core::team_ai::computer_opponents;
use rts_core::enemy_ai::{enemy_decisions, EnemyDraw, EnemyPlayerAi};

const SEC: u64 = 1_000_000_000;

#[test]
fn spiral_search_takes_the_start_when_it_fits() {
    let entities = vec![create_entity(EntityId(1), EntityType::Engineer, [0, 0], Team::Enemy1)];
    let core = Core::new(entities, [20, 20], vec![]);
    assert_eq!(spiral_search(&core, [0, 0], [3, 3], (5, 5)), Some([5, 5]));
}

#[test]
fn spiral_search_walks_east_then_north() {
    let entities = vec![
        create_entity(EntityId(1), EntityType::Engineer, [5, 5], Team::Enemy1),
        create_entity(EntityId(2), EntityType::Engineer, [6, 7], Team::Enemy1),
    ];
    let core = Core::new(entities, [20, 20], vec![]);
    // [5, 5] is the worker's own cell, so the structure fits there despite the worker, but
    // [6, 7] blocks a structure at [5, 5]; the next cell east, [6, 5], is blocked too, and the
    // spiral then goes north to [6, 4], where the 3x3 structure covers [6..9, 4..7].
    assert_eq!(spiral_search(&core, [5, 5], [3, 3], (5, 5)), Some([6, 4]));
}

#[test]
fn spiral_search_gives_up_when_nothing_fits() {
    let entities = vec![create_entity(EntityId(1), EntityType::Engineer, [0, 0], Team::Enemy1)];
    let core = Core::new(entities, [2, 2], vec![]);
    assert_eq!(spiral_search(&core, [0, 0], [3, 3], (0, 0)), None);
}

#[test]
fn ai_acts_once_per_second() {
    let entities = vec![
        create_entity(EntityId(1), EntityType::TechLab, [0, 0], Team::Enemy1),
        create_entity(EntityId(2), EntityType::Enforcer, [10, 10], Team::Player),
    ];
    let core = Core::new(entities, [20, 20], vec![]);
    let mut ai = TeamAi::new(Team::Enemy1, Team::Player);
    let mut rng = rand::thread_rng();
    assert_eq!(ai.team(), Team::Enemy1);
    let first = ai.run(SEC / 10, &core, &mut rng);
    match first {
        Some(Command::Train(c)) => {
            assert_eq!(c.trainer, EntityId(1));
            assert_eq!(c.trained_unit_type, EntityType::Engineer);
        }
        _ => panic!("expected a training command"),
    }
    assert!(ai.run(SEC / 2, &core, &mut rng).is_none());
    assert!(ai.run(SEC / 4, &core, &mut rng).is_none());
    assert!(ai.run(SEC / 4, &core, &mut rng).is_some());
}

#[test]
fn ai_sends_idle_engineer_to_gather() {
    let entities = vec![
        create_entity(EntityId(1), EntityType::TechLab, [0, 0], Team::Enemy1),
        create_entity(EntityId(2), EntityType::BattleAcademy, [0, 5], Team::Enemy1),
        create_entity(EntityId(3), EntityType::BattleAcademy, [0, 10], Team::Enemy1),
        create_entity(EntityId(4), EntityType::Engineer, [5, 5], Team::Enemy1),
        create_entity(EntityId(5), EntityType::FuelRift, [8, 8], Team::Neutral),
    ];
    let core = Core::new(entities, [20, 20], vec![]);
    let mut ai = TeamAi::new(Team::Enemy1, Team::Player);
    let mut rng = rand::thread_rng();
    match ai.run(SEC, &core, &mut rng) {
        Some(Command::GatherResource(c)) => {
            assert_eq!(c.gatherer, EntityId(4));
            assert_eq!(c.resource, EntityId(5));
        }
        _ => panic!("expected a gathering command"),
    }
}

#[test]
fn ai_builds_a_missing_tech_lab_near_its_engineer() {
    let entities = vec![create_entity(EntityId(1), EntityType::Engineer, [10, 10], Team::Enemy1)];
    let core = Core::new(entities, [30, 30], vec![]);
    let mut ai = TeamAi::new(Team::Enemy1, Team::Player);
    let mut rng = rand::thread_rng();
    match ai.run(SEC, &core, &mut rng) {
        Some(Command::Construct(c)) => {
            assert_eq!(c.builder, EntityId(1));
            assert_eq!(c.structure_type, EntityType::TechLab);
            assert!(c.structure_position[0] >= 8 && c.structure_position[0] <= 12);
            assert!(c.structure_position[1] >= 8 && c.structure_position[1] <= 12);
        }
        _ => panic!("expected a construction command"),
    }
}

#[test]
fn ai_attacks_with_its_idle_enforcer() {
    let entities = vec![
        create_entity(EntityId(1), EntityType::Enforcer, [1, 1], Team::Enemy1),
        create_entity(EntityId(2), EntityType::Enforcer, [2, 1], Team::Enemy1),
        create_entity(EntityId(3), EntityType::Engineer, [9, 9], Team::Player),
        create_entity(EntityId(4), EntityType::Engineer, [9, 8], Team::Player),
        create_entity(EntityId(5), EntityType::Engineer, [9, 7], Team::Player),
    ];
    let core = Core::new(entities, [20, 20], vec![]);
    let mut ai = TeamAi::new(Team::Enemy1, Team::Player);
    let mut rng = rand::thread_rng();
    match ai.run(SEC, &core, &mut rng) {
        Some(Command::Attack(c)) => {
            assert_eq!(c.attacker, EntityId(1));
            assert_eq!(c.victim, EntityId(4));
        }
        _ => panic!("expected an attack command"),
    }
}

#[test]
fn ai_without_anything_to_do_gives_no_command() {
    let entities = vec![create_entity(EntityId(1), EntityType::Enforcer, [1, 1], Team::Enemy1)];
    let core = Core::new(entities, [20, 20], vec![]);
    let mut ai = TeamAi::new(Team::Enemy1, Team::Player);
    let mut rng = rand::thread_rng();
    assert!(ai.run(SEC, &core, &mut rng).is_none());
}

#[test]
fn computer_opponents_fight_the_player_or_each_other() {
    let with_player = vec![
        create_entity(EntityId(1), EntityType::Engineer, [0, 0], Team::Player),
        create_entity(EntityId(2), EntityType::Engineer, [1, 0], Team::Enemy2),
    ];
    let ais = computer_opponents(&with_player);
    assert_eq!(ais.len(), 1);
    assert_eq!(ais[0].team(), Team::Enemy2);
    let spectating = vec![
        create_entity(EntityId(1), EntityType::Engineer, [0, 0], Team::Enemy1),
        create_entity(EntityId(2), EntityType::Engineer, [1, 0], Team::Enemy2),
    ];
    let ais = computer_opponents(&spectating);
    assert_eq!(ais.len(), 2);
    assert_eq!(ais[0].team(), Team::Enemy1);
    assert_eq!(ais[1].team(), Team::Enemy2);
}

#[test]
fn enemy_player_ai_commands_come_from_enemy_entities() {
    let entities = vec![
        create_entity(EntityId(1), EntityType::Enforcer, [0, 0], Team::Enemy1),
        create_entity(EntityId(2), EntityType::Engineer, [5, 5], Team::Player),
        create_entity(EntityId(3), EntityType::TechLab, [8, 8], Team::Enemy1),
    ];
    let mut ai = EnemyPlayerAi::new([20, 20]);
    let mut rng = rand::thread_rng();
    let mut seen = 0;
    for _ in 0..200 {
        let commands = ai.run(SEC, &entities, &mut rng);
        for command in commands {
            seen += 1;
            match command {
                Command::Attack(c) => {
                    assert_eq!(c.attacker, EntityId(1));
                    assert_eq!(c.victim, EntityId(2));
                }
                Command::Move(c) => {
                    assert_eq!(c.unit, EntityId(1));
                    assert!(c.destination[0] < 20 && c.destination[1] < 20);
                }
                Command::Train(c) => {
                    assert_eq!(c.trainer, EntityId(3));
                    assert_eq!(c.trained_unit_type, EntityType::Engineer);
                }
                _ => panic!("unexpected command"),
            }
        }
    }
    assert!(seen > 0);
    assert!(ai.run(SEC / 2, &entities, &mut rng).is_empty());
}

#[test]
fn enemy_decisions_follow_the_drawn_values() {
    let entities = vec![
        create_entity(EntityId(1), EntityType::Enforcer, [0, 0], Team::Enemy1),
        create_entity(EntityId(2), EntityType::Engineer, [5, 5], Team::Player),
        create_entity(EntityId(3), EntityType::TechLab, [8, 8], Team::Enemy1),
        create_entity(EntityId(4), EntityType::Enforcer, [9, 9], Team::Enemy1),
    ];
    let idle = EnemyDraw { acts: false, attacks: true, moves: true, destination: [1, 1] };
    let draws = vec![
        EnemyDraw { acts: true, attacks: true, moves: false, destination: [3, 4] },
        idle,
        EnemyDraw { acts: true, attacks: false, moves: false, destination: [0, 0] },
        EnemyDraw { acts: true, attacks: true, moves: true, destination: [7, 2] },
    ];
    let commands = enemy_decisions(&entities, &draws);
    assert_eq!(commands.len(), 3);
    assert!(matches!(&commands[0], Command::Attack(c) if c.attacker == EntityId(1) && c.victim == EntityId(2)));
    assert!(matches!(&commands[1], Command::Train(c) if c.trainer == EntityId(3) && c.trained_unit_type == EntityType::Engineer));
    assert!(matches!(&commands[2], Command::Move(c) if c.unit == EntityId(4) && c.destination == [7, 2]));
    let none_acting = vec![idle; 4];
    assert!(enemy_decisions(&entities, &none_acting).is_empty());
}
