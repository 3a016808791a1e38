use rts_core::data::EntityType;
use rts_core::entities::{Action, EntityId, EntityState, Team, TrainingConfig, ConstructionConfig};
use rts_core::hud::{action_hotkey, state_matches_action};
use rts_core::player::{
    decide_action, decide_left_click, decide_right_click, ClickTarget, CursorState, EntityHighlight,
    HighlightType, PlayerOrder,
};

const MILLI: u64 = 1_000_000;

#[test]
fn highlight_blinks_every_two_hundred_milliseconds() {
    let mut highlight = EntityHighlight::new(EntityId(7), HighlightType::Hostile);
    assert_eq!(highlight.entity_id, EntityId(7));
    assert_eq!(highlight.highlight_type, HighlightType::Hostile);
    assert!(highlight.is_visible());
    highlight.update(100 * MILLI);
    assert!(!highlight.is_visible());
    highlight.update(200 * MILLI);
    assert!(highlight.is_visible());
    highlight.update(200 * MILLI);
    assert!(!highlight.is_visible());
    highlight.update(10_000 * MILLI);
    assert!(highlight.is_visible());
}

#[test]
fn action_buttons_match_the_states_they_start() {
    let train = Action::Train(EntityType::Engineer, TrainingConfig { duration: 1, cost: 1 });
    assert!(state_matches_action(EntityState::TrainingUnit(EntityType::Engineer), train));
    assert!(!state_matches_action(EntityState::TrainingUnit(EntityType::Enforcer), train));
    let construct = Action::Construct(
        EntityType::TechLab,
        ConstructionConfig { construction_time: 1, cost: 1 },
    );
    assert!(state_matches_action(
        EntityState::MovingToConstruction(EntityType::TechLab, [1, 1]),
        construct
    ));
    assert!(!state_matches_action(EntityState::Idle, construct));
    assert!(state_matches_action(EntityState::Moving, Action::Move));
    assert!(state_matches_action(EntityState::Attacking(EntityId(1)), Action::Attack));
    assert!(!state_matches_action(EntityState::MovingToAttackTarget(EntityId(1)), Action::Attack));
    assert!(state_matches_action(EntityState::GatheringResource(EntityId(1)), Action::GatherResource));
    assert!(state_matches_action(EntityState::ReturningResource(EntityId(1)), Action::ReturnResource));
    assert!(!state_matches_action(EntityState::Idle, Action::Stop));
}

#[test]
fn clicks_and_actions_become_orders() {
    let enemy = ClickTarget { id: EntityId(7), team: Team::Enemy1, entity_type: EntityType::Enforcer, has_health: true };
    let rift = ClickTarget { id: EntityId(8), team: Team::Neutral, entity_type: EntityType::FuelRift, has_health: false };
    let lab = ClickTarget { id: EntityId(9), team: Team::Player, entity_type: EntityType::TechLab, has_health: true };
    assert!(matches!(decide_right_click(Some(enemy), [1, 1]), PlayerOrder::AttackWithSelection(EntityId(7))));
    assert!(matches!(decide_right_click(Some(rift), [1, 1]), PlayerOrder::GatherWithSelection(EntityId(8))));
    assert!(matches!(decide_right_click(Some(lab), [1, 1]), PlayerOrder::ReturnWithSelection(Some(EntityId(9)))));
    assert!(matches!(decide_right_click(None, [3, 4]), PlayerOrder::MoveSelection([3, 4])));
    assert!(matches!(decide_left_click(CursorState::Default, Some(lab), [0, 0]), PlayerOrder::Select(Some(EntityId(9)))));
    assert!(matches!(decide_left_click(CursorState::SelectingAttackTarget, Some(lab), [0, 0]), PlayerOrder::Nothing));
    assert!(matches!(decide_left_click(CursorState::SelectingAttackTarget, Some(enemy), [0, 0]), PlayerOrder::AttackWithSelection(EntityId(7))));
    assert!(matches!(
        decide_left_click(CursorState::PlacingStructure(EntityType::TechLab), None, [5, 6]),
        PlayerOrder::ConstructWithFirst(EntityType::TechLab, [5, 6])
    ));
    assert!(matches!(decide_action(Some(Action::Attack)), PlayerOrder::SetCursor(CursorState::SelectingAttackTarget)));
    assert!(matches!(decide_action(Some(Action::Stop)), PlayerOrder::StopSelection));
    assert!(matches!(decide_action(None), PlayerOrder::Nothing));
}

#[test]
fn each_action_has_its_own_key() {
    let training = TrainingConfig { duration: 5_000_000_000, cost: 3 };
    let construction = ConstructionConfig { construction_time: 10_000_000_000, cost: 5 };
    assert_eq!(action_hotkey(Action::Train(EntityType::Engineer, training)), 'E');
    assert_eq!(action_hotkey(Action::Train(EntityType::Enforcer, training)), 'F');
    assert_eq!(action_hotkey(Action::Construct(EntityType::BattleAcademy, construction)), 'B');
    assert_eq!(action_hotkey(Action::Construct(EntityType::TechLab, construction)), 'T');
    assert_eq!(action_hotkey(Action::Stop), 'S');
    assert_eq!(action_hotkey(Action::Move), 'M');
    assert_eq!(action_hotkey(Action::Attack), 'A');
    assert_eq!(action_hotkey(Action::GatherResource), 'G');
    assert_eq!(action_hotkey(Action::ReturnResource), 'R');
}
