use vstd::prelude::*;

use crate::data::EntityType;
use crate::entities::{Action, EntityId, Team, NANOS_PER_MILLI};

verus! {

/// How long an entity stays highlighted, in nanoseconds.
pub const HIGHLIGHT_DURATION: u64 = 800 * NANOS_PER_MILLI;

/// How long each blink of a highlight lasts, in milliseconds.
pub const HIGHLIGHT_BLINK_MILLIS: u64 = 200;

/// Whether a highlighted entity is an enemy or one of the player's own.
#[derive(Debug, Copy, Clone, PartialEq, Eq, Structural)]
pub enum HighlightType {
    Hostile,
    Friendly,
}

/// An entity that blinks for a moment after the player gave a command about it.
pub struct EntityHighlight {
    pub entity_id: EntityId,
    remaining: u64,
    pub highlight_type: HighlightType,
}

impl EntityHighlight {
    /// Nanoseconds left of the highlight.
    pub closed spec fn spec_remaining(&self) -> u64 {
        self.remaining
    }

    pub closed spec fn spec_entity_id(&self) -> EntityId {
        self.entity_id
    }

    pub closed spec fn spec_highlight_type(&self) -> HighlightType {
        self.highlight_type
    }

    pub fn new(entity_id: EntityId, highlight_type: HighlightType) -> (highlight: Self)
        ensures
            highlight.spec_entity_id() == entity_id,
            highlight.spec_highlight_type() == highlight_type,
            highlight.spec_remaining() == HIGHLIGHT_DURATION,
    {
        Self { entity_id, remaining: HIGHLIGHT_DURATION, highlight_type }
    }

    /// Lets `dt` nanoseconds of the highlight pass; it stops at zero.
    pub fn update(&mut self, dt: u64)
        ensures
            final(self).spec_entity_id() == old(self).spec_entity_id(),
            final(self).spec_highlight_type() == old(self).spec_highlight_type(),
            final(self).spec_remaining() == if dt <= old(self).spec_remaining() {
                old(self).spec_remaining() - dt
            } else {
                0
            },
    {
        self.remaining = self.remaining.saturating_sub(dt);
    }

    /// Nanoseconds left of the highlight; it is over at zero.
    pub fn remaining(&self) -> (remaining: u64)
        ensures
            remaining == self.spec_remaining(),
    {
        self.remaining
    }

    /// Whether the highlight is shown now: it blinks, shown during even blinks counted from
    /// the end, and stays shown once over.
    pub fn is_visible(&self) -> (visible: bool)
        ensures
            visible == ((self.spec_remaining() / NANOS_PER_MILLI / HIGHLIGHT_BLINK_MILLIS) % 2 == 0),
    {
        (self.remaining / NANOS_PER_MILLI / HIGHLIGHT_BLINK_MILLIS) % 2 == 0
    }
}

/// What the next click in the world does: select, or pick the target of an action that the
/// player chose.
#[derive(Debug, Copy, Clone, PartialEq, Eq, Structural)]
pub enum CursorState {
    Default,
    SelectingAttackTarget,
    SelectingMovementDestination,
    PlacingStructure(EntityType),
    SelectingResourceTarget,
}

/// The entity under a click, with what the decision about the click needs of it.
#[derive(Debug, Copy, Clone)]
pub struct ClickTarget {
    pub id: EntityId,
    pub team: Team,
    pub entity_type: EntityType,
    pub has_health: bool,
}

/// What the player's input asks for: a selection, an order for the selected entities (or
/// for the first of them), a new cursor, or nothing.
#[derive(Debug, Copy, Clone)]
pub enum PlayerOrder {
    Select(Option<EntityId>),
    AttackWithSelection(EntityId),
    MoveSelection([u32; 2]),
    ConstructWithFirst(EntityType, [u32; 2]),
    GatherWithSelection(EntityId),
    ReturnWithSelection(Option<EntityId>),
    TrainWithFirst(EntityType),
    StopSelection,
    SetCursor(CursorState),
    Nothing,
}

/// What a left click on `cell` asks for, with the cursor in `cursor`: a plain click selects
/// what is there; otherwise it picks the target of the chosen action (an enemy with health
/// to attack, a cell to move to, the place of a structure, a fuel rift to gather from). The
/// cursor goes back to plain clicks afterwards.
pub open spec fn left_click_order(cursor: CursorState, target: Option<ClickTarget>, cell: [u32; 2]) -> PlayerOrder {
    match cursor {
        CursorState::Default => PlayerOrder::Select(
            match target {
                Some(t) => Some(t.id),
                None => None,
            },
        ),
        CursorState::SelectingAttackTarget => match target {
            Some(t) if t.team != Team::Player && t.has_health => PlayerOrder::AttackWithSelection(t.id),
            _ => PlayerOrder::Nothing,
        },
        CursorState::SelectingMovementDestination => PlayerOrder::MoveSelection(cell),
        CursorState::PlacingStructure(structure_type) => PlayerOrder::ConstructWithFirst(structure_type, cell),
        CursorState::SelectingResourceTarget => match target {
            Some(t) if t.entity_type == EntityType::FuelRift => PlayerOrder::GatherWithSelection(t.id),
            _ => PlayerOrder::Nothing,
        },
    }
}

/// What a right click on `cell` asks of the selected entities: to attack an enemy with
/// health, to gather from a fuel rift, to bring resources to one of the player's tech labs,
/// and otherwise to move there.
pub open spec fn right_click_order(target: Option<ClickTarget>, cell: [u32; 2]) -> PlayerOrder {
    match target {
        Some(t) if t.has_health && (t.team == Team::Enemy1 || t.team == Team::Enemy2) => PlayerOrder::AttackWithSelection(t.id),
        Some(t) if t.entity_type == EntityType::FuelRift => PlayerOrder::GatherWithSelection(t.id),
        Some(t) if t.team == Team::Player && t.entity_type == EntityType::TechLab => PlayerOrder::ReturnWithSelection(Some(t.id)),
        _ => PlayerOrder::MoveSelection(cell),
    }
}

/// Choosing an action that waits for a target sets a cursor under which the next left click
/// carries out that very action: a chosen move moves the selection to the clicked cell, a
/// chosen attack attacks a clicked enemy with health, a chosen gathering gathers from a
/// clicked fuel rift, and a chosen construction places that structure at the clicked cell.
/// The other actions set no cursor.
pub proof fn law_chosen_action_is_carried_out_by_next_click(action: Action, target: Option<ClickTarget>, cell: [u32; 2])
    ensures
        (action_order(Some(action)) is SetCursor) == (action is Move || action is Attack
            || action is GatherResource || action is Construct),
        action_order(Some(action)) matches PlayerOrder::SetCursor(cursor) ==> {
            let next = left_click_order(cursor, target, cell);
            &&& action is Move ==> next == PlayerOrder::MoveSelection(cell)
            &&& action is Attack ==> (target matches Some(t) ==> (t.team != Team::Player && t.has_health ==> next
                == PlayerOrder::AttackWithSelection(t.id)))
            &&& action is GatherResource ==> (target matches Some(t) ==> (t.entity_type == EntityType::FuelRift
                ==> next == PlayerOrder::GatherWithSelection(t.id)))
            &&& action matches Action::Construct(structure_type, _) ==> next == PlayerOrder::ConstructWithFirst(
                structure_type,
                cell,
            )
        },
{
}

/// The actions that need no target are ordered at once, each as itself: training that very
/// unit type, stopping, and bringing resources back to the nearest tech lab.
pub proof fn law_immediate_actions_are_ordered_at_once(action: Action)
    ensures
        action matches Action::Train(unit_type, _) ==> action_order(Some(action)) == PlayerOrder::TrainWithFirst(
            unit_type,
        ),
        action is Stop ==> action_order(Some(action)) == PlayerOrder::StopSelection,
        action is ReturnResource ==> action_order(Some(action)) == PlayerOrder::ReturnWithSelection(None),
        action_order(None) == PlayerOrder::Nothing,
{
}

/// Different actions that wait for a target set different cursors.
pub proof fn law_chosen_actions_set_distinct_cursors(a: Action, b: Action)
    ensures
        action_order(Some(a)) is SetCursor && action_order(Some(b)) is SetCursor && action_order(Some(a))
            == action_order(Some(b)) ==> (a is Construct && b is Construct) || a == b,
{
}

/// What choosing an action of the first selected entity asks for: training starts at once,
/// stopping and bringing resources back are ordered at once, and the other actions wait for
/// their target under a new cursor.
pub open spec fn action_order(action: Option<Action>) -> PlayerOrder {
    match action {
        Some(Action::Train(unit_type, _)) => PlayerOrder::TrainWithFirst(unit_type),
        Some(Action::Construct(structure_type, _)) => PlayerOrder::SetCursor(CursorState::PlacingStructure(structure_type)),
        Some(Action::Stop) => PlayerOrder::StopSelection,
        Some(Action::Move) => PlayerOrder::SetCursor(CursorState::SelectingMovementDestination),
        Some(Action::Attack) => PlayerOrder::SetCursor(CursorState::SelectingAttackTarget),
        Some(Action::GatherResource) => PlayerOrder::SetCursor(CursorState::SelectingResourceTarget),
        Some(Action::ReturnResource) => PlayerOrder::ReturnWithSelection(None),
        None => PlayerOrder::Nothing,
    }
}

/// Decides what a left click on `cell` asks for (see `left_click_order`).
pub fn decide_left_click(cursor: CursorState, target: Option<ClickTarget>, cell: [u32; 2]) -> (order: PlayerOrder)
    ensures
        order == left_click_order(cursor, target, cell),
{
    match cursor {
        CursorState::Default => PlayerOrder::Select(
            match target {
                Some(t) => Some(t.id),
                None => None,
            },
        ),
        CursorState::SelectingAttackTarget => match target {
            Some(t) => {
                if t.team != Team::Player && t.has_health {
                    PlayerOrder::AttackWithSelection(t.id)
                } else {
                    PlayerOrder::Nothing
                }
            },
            None => PlayerOrder::Nothing,
        },
        CursorState::SelectingMovementDestination => PlayerOrder::MoveSelection(cell),
        CursorState::PlacingStructure(structure_type) => PlayerOrder::ConstructWithFirst(structure_type, cell),
        CursorState::SelectingResourceTarget => match target {
            Some(t) => {
                if t.entity_type == EntityType::FuelRift {
                    PlayerOrder::GatherWithSelection(t.id)
                } else {
                    PlayerOrder::Nothing
                }
            },
            None => PlayerOrder::Nothing,
        },
    }
}

/// Decides what a right click on `cell` asks for (see `right_click_order`).
pub fn decide_right_click(target: Option<ClickTarget>, cell: [u32; 2]) -> (order: PlayerOrder)
    ensures
        order == right_click_order(target, cell),
{
    match target {
        Some(t) => {
            if t.has_health && (t.team == Team::Enemy1 || t.team == Team::Enemy2) {
                PlayerOrder::AttackWithSelection(t.id)
            } else if t.entity_type == EntityType::FuelRift {
                PlayerOrder::GatherWithSelection(t.id)
            } else if t.team == Team::Player && t.entity_type == EntityType::TechLab {
                PlayerOrder::ReturnWithSelection(Some(t.id))
            } else {
                PlayerOrder::MoveSelection(cell)
            }
        },
        None => PlayerOrder::MoveSelection(cell),
    }
}

/// Decides what choosing an action asks for (see `action_order`).
pub fn decide_action(action: Option<Action>) -> (order: PlayerOrder)
    ensures
        order == action_order(action),
{
    match action {
        Some(Action::Train(unit_type, _)) => PlayerOrder::TrainWithFirst(unit_type),
        Some(Action::Construct(structure_type, _)) => PlayerOrder::SetCursor(CursorState::PlacingStructure(structure_type)),
        Some(Action::Stop) => PlayerOrder::StopSelection,
        Some(Action::Move) => PlayerOrder::SetCursor(CursorState::SelectingMovementDestination),
        Some(Action::Attack) => PlayerOrder::SetCursor(CursorState::SelectingAttackTarget),
        Some(Action::GatherResource) => PlayerOrder::SetCursor(CursorState::SelectingResourceTarget),
        Some(Action::ReturnResource) => PlayerOrder::ReturnWithSelection(None),
        None => PlayerOrder::Nothing,
    }
}

} // verus!
