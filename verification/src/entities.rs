use vstd::prelude::*;

use crate::data::EntityType;
use crate::grid::CellRect;

verus! {

/// Number of action slots an entity has.
pub const NUM_ENTITY_ACTIONS: usize = 6;

/// Nanoseconds in a millisecond.
pub const NANOS_PER_MILLI: u64 = 1_000_000;

/// Nanoseconds in a second.
pub const NANOS_PER_SEC: u64 = 1_000_000_000;

/// How long an attacker waits between two blows, in nanoseconds.
pub const ATTACK_COOLDOWN: u64 = 3 * NANOS_PER_SEC;

/// How long a gatherer works on a resource before it carries one unit, in nanoseconds.
pub const GATHERING_DURATION: u64 = 2 * NANOS_PER_SEC;

/// After how many consecutive blocked steps a unit looks for another path.
pub const MAX_BLOCKED_STEPS: u32 = 30;

#[derive(Debug, PartialEq, Eq, Structural, Copy, Clone)]
pub struct EntityId(pub usize);

/// What an entity is currently doing. Durations are in nanoseconds.
#[derive(Debug, Copy, Clone)]
pub enum EntityState {
    Idle,
    TrainingUnit(EntityType),
    MovingToConstruction(EntityType, [u32; 2]),
    Moving,
    MovingToAttackTarget(EntityId),
    Attacking(EntityId),
    MovingToResource(EntityId),
    GatheringResource(EntityId),
    ReturningResource(EntityId),
    UnderConstruction(u64, u64),
}

impl EntityState {
    pub fn is_idle(&self) -> (idle: bool)
        ensures
            idle == (*self is Idle),
    {
        match self {
            EntityState::Idle => true,
            _ => false,
        }
    }

    pub fn is_moving(&self) -> (moving: bool)
        ensures
            moving == (*self is Moving),
    {
        match self {
            EntityState::Moving => true,
            _ => false,
        }
    }
}

#[derive(Debug, Copy, Clone, PartialEq, Eq, Structural)]
pub enum Direction {
    North,
    NorthEast,
    East,
    SouthEast,
    South,
    SouthWest,
    West,
    NorthWest,
}

/// The direction of the step `[dx, dy]` between two neighbouring cells.
pub open spec fn step_direction(dx: int, dy: int) -> Option<Direction> {
    if dx == 0 && dy == -1 {
        Some(Direction::North)
    } else if dx == 1 && dy == -1 {
        Some(Direction::NorthEast)
    } else if dx == 1 && dy == 0 {
        Some(Direction::East)
    } else if dx == 1 && dy == 1 {
        Some(Direction::SouthEast)
    } else if dx == 0 && dy == 1 {
        Some(Direction::South)
    } else if dx == -1 && dy == 1 {
        Some(Direction::SouthWest)
    } else if dx == -1 && dy == 0 {
        Some(Direction::West)
    } else if dx == -1 && dy == -1 {
        Some(Direction::NorthWest)
    } else {
        None
    }
}

/// Whether two cells are distinct and touch, sideways or diagonally.
pub open spec fn adjacent(a: [u32; 2], b: [u32; 2]) -> bool {
    step_direction(b[0] - a[0], b[1] - a[1]) is Some
}

pub struct Entity {
    pub entity_type: EntityType,
    pub id: EntityId,
    pub position: [u32; 2],
    pub is_solid: bool,
    pub physical_type: PhysicalType,
    pub team: Team,
    pub animation: AnimationState,
    pub health: Option<HealthComponent>,
    pub training: Option<TrainingComponent>,
    pub actions: [Option<Action>; NUM_ENTITY_ACTIONS],
    pub state: EntityState,
}

pub struct AnimationState {
    pub ms_counter: u16,
}

pub enum PhysicalType {
    Unit(UnitComponent),
    Structure { size: [u32; 2] },
    Resource { remaining: u32 },
}

pub struct EntityConfig {
    pub is_solid: bool,
    pub max_health: Option<u32>,
    pub physical_type: PhysicalTypeConfig,
    pub actions: [Option<Action>; NUM_ENTITY_ACTIONS],
}

/// Movement cooldowns are in nanoseconds.
pub enum PhysicalTypeConfig {
    MovementCooldown(u64),
    StructureSize([u32; 2]),
    ResourceCapacity(u32),
}

/// The training options that a list of actions offers, later entries replacing earlier ones
/// of the same unit type.
pub open spec fn training_options_of(actions: Seq<Option<Action>>) -> Seq<
    (EntityType, TrainingConfig),
>
    decreases actions.len(),
{
    if actions.len() == 0 {
        Seq::empty()
    } else {
        let prefix = training_options_of(actions.drop_last());
        match actions.last() {
            Some(Action::Train(unit_type, config)) => keyed_insert(prefix, unit_type, config),
            _ => prefix,
        }
    }
}

/// The construction options that a list of actions offers, later entries replacing earlier
/// ones of the same structure type.
pub open spec fn construction_options_of(actions: Seq<Option<Action>>) -> Seq<
    (EntityType, ConstructionConfig),
>
    decreases actions.len(),
{
    if actions.len() == 0 {
        Seq::empty()
    } else {
        let prefix = construction_options_of(actions.drop_last());
        match actions.last() {
            Some(Action::Construct(structure_type, config)) => keyed_insert(
                prefix,
                structure_type,
                config,
            ),
            _ => prefix,
        }
    }
}

/// Whether a list of actions holds the given action.
pub open spec fn offers(actions: Seq<Option<Action>>, action: Action) -> bool {
    exists|i: int| 0 <= i < actions.len() && actions[i] == Some(action)
}

/// Associates `value` with `key`: replaces the entry of that key, or appends one.
pub open spec fn keyed_insert<V>(entries: Seq<(EntityType, V)>, key: EntityType, value: V) -> Seq<
    (EntityType, V),
> {
    if exists|i: int| 0 <= i < entries.len() && entries[i].0 == key {
        let i = choose|i: int| 0 <= i < entries.len() && entries[i].0 == key;
        entries.update(i, (key, value))
    } else {
        entries.push((key, value))
    }
}

/// The value associated with `key`, if any.
pub open spec fn keyed_get<V>(entries: Seq<(EntityType, V)>, key: EntityType) -> Option<V> {
    if exists|i: int| 0 <= i < entries.len() && entries[i].0 == key {
        let i = choose|i: int| 0 <= i < entries.len() && entries[i].0 == key;
        Some(entries[i].1)
    } else {
        None
    }
}

/// No key occurs twice.
pub open spec fn keys_unique<V>(entries: Seq<(EntityType, V)>) -> bool {
    forall|i: int, j: int|
        0 <= i < entries.len() && 0 <= j < entries.len() && i != j ==> entries[i].0
            != entries[j].0
}

proof fn lemma_keyed_insert<V>(entries: Seq<(EntityType, V)>, key: EntityType, value: V)
    requires
        keys_unique(entries),
    ensures
        keys_unique(keyed_insert(entries, key, value)),
        keyed_get(keyed_insert(entries, key, value), key) == Some(value),
        forall|k: EntityType|
            k != key ==> #[trigger] keyed_get(keyed_insert(entries, key, value), k) == keyed_get(
                entries,
                k,
            ),
{
    let r = keyed_insert(entries, key, value);
    if exists|i: int| 0 <= i < entries.len() && entries[i].0 == key {
        let i = choose|i: int| 0 <= i < entries.len() && entries[i].0 == key;
        assert(r == entries.update(i, (key, value)));
        assert(r[i].0 == key);
        assert forall|k: EntityType| k != key implies #[trigger] keyed_get(r, k) == keyed_get(
            entries,
            k,
        ) by {
            if exists|j: int| 0 <= j < entries.len() && entries[j].0 == k {
                let j = choose|j: int| 0 <= j < entries.len() && entries[j].0 == k;
                assert(r[j].0 == k);
                let j2 = choose|j: int| 0 <= j < r.len() && r[j].0 == k;
                assert(j2 == j);
            } else {
                assert forall|j: int| 0 <= j < r.len() implies r[j].0 != k by {
                    if j != i {
                        assert(r[j] == entries[j]);
                    }
                }
            }
        }
        let j2 = choose|j: int| 0 <= j < r.len() && r[j].0 == key;
        assert(j2 == i);
    } else {
        assert(r == entries.push((key, value)));
        let n = entries.len() as int;
        assert(r[n].0 == key);
        let j2 = choose|j: int| 0 <= j < r.len() && r[j].0 == key;
        assert(j2 == n);
        assert forall|k: EntityType| k != key implies #[trigger] keyed_get(r, k) == keyed_get(
            entries,
            k,
        ) by {
            if exists|j: int| 0 <= j < entries.len() && entries[j].0 == k {
                let j = choose|j: int| 0 <= j < entries.len() && entries[j].0 == k;
                assert(r[j].0 == k);
                let j3 = choose|j: int| 0 <= j < r.len() && r[j].0 == k;
                assert(j3 == j);
            } else {
                assert forall|j: int| 0 <= j < r.len() implies r[j].0 != k by {
                    if j < n {
                        assert(r[j] == entries[j]);
                    }
                }
            }
        }
    }
}

/// Associates `value` with `key` in a list of entries with unique keys.
fn keyed_insert_exec<V: Copy>(entries: &mut Vec<(EntityType, V)>, key: EntityType, value: V)
    requires
        keys_unique(old(entries)@),
    ensures
        final(entries)@ == keyed_insert(old(entries)@, key, value),
        keys_unique(final(entries)@),
{
    proof {
        lemma_keyed_insert(entries@, key, value);
    }
    let n = entries.len();
    let mut i: usize = 0;
    while i < n
        invariant
            n == entries@.len(),
            i <= n,
            entries@ == old(entries)@,
            keys_unique(old(entries)@),
            forall|j: int| 0 <= j < i ==> entries@[j].0 != key,
        decreases n - i,
    {
        if entries[i].0 == key {
            let ghost before = entries@;
            entries.set(i, (key, value));
            proof {
                let c = choose|j: int| 0 <= j < before.len() && before[j].0 == key;
                assert(c == i as int) by {
                    if c != i as int {
                        assert(before[c].0 == before[i as int].0);
                    }
                }
                assert(entries@ =~= before.update(i as int, (key, value)));
            }
            return;
        }
        i = i + 1;
    }
    proof {
        assert(!(exists|j: int| 0 <= j < entries@.len() && entries@[j].0 == key));
    }
    entries.push((key, value));
}

/// Looks up the value associated with `key`.
pub(crate) fn keyed_get_exec<V: Copy>(entries: &Vec<(EntityType, V)>, key: EntityType) -> (value: Option<V>)
    requires
        keys_unique(entries@),
    ensures
        value == keyed_get(entries@, key),
{
    let n = entries.len();
    let mut i: usize = 0;
    while i < n
        invariant
            n == entries@.len(),
            i <= n,
            keys_unique(entries@),
            forall|j: int| 0 <= j < i ==> entries@[j].0 != key,
        decreases n - i,
    {
        if entries[i].0 == key {
            proof {
                let c = choose|j: int| 0 <= j < entries@.len() && entries@[j].0 == key;
                assert(c == i as int) by {
                    if c != i as int {
                        assert(entries@[c].0 == entries@[i as int].0);
                    }
                }
            }
            return Some(entries[i].1);
        }
        i = i + 1;
    }
    None
}

impl Entity {
    /// Creates an entity in the `Idle` state from its configuration.
    pub fn new(
        id: EntityId,
        entity_type: EntityType,
        config: EntityConfig,
        position: [u32; 2],
        team: Team,
    ) -> (entity: Self)
        ensures
            entity.entity_type == entity_type,
            entity.id == id,
            entity.position == position,
            entity.is_solid == config.is_solid,
            entity.team == team,
            entity.animation.ms_counter == 0,
            entity.state is Idle,
            entity.actions == config.actions,
            entity.health == match config.max_health {
                Some(max) => Some(HealthComponent { max, current: max }),
                None => None,
            },
            match entity.training {
                Some(training) => {
                    &&& training.ongoing is None
                    &&& training.options@ == training_options_of(config.actions@)
                    &&& training_options_of(config.actions@).len() > 0
                },
                None => training_options_of(config.actions@).len() == 0,
            },
            match config.physical_type {
                PhysicalTypeConfig::MovementCooldown(cooldown) => match entity.physical_type {
                    PhysicalType::Unit(unit) => {
                        &&& unit.movement_plan.movement_plan@.len() == 0
                        &&& unit.sub_cell_movement.previous_position == position
                        &&& unit.sub_cell_movement.remaining == 0
                        &&& unit.sub_cell_movement.straight_movement_cooldown == cooldown
                        &&& unit.sub_cell_movement.diagonal_movement_cooldown
                            == spec_diagonal_cooldown(cooldown)
                        &&& unit.direction == Direction::South
                        &&& unit.combat == if offers(config.actions@, Action::Attack) {
                            Some(Combat { cooldown: 0 })
                        } else {
                            None
                        }
                        &&& unit.gathering == if offers(config.actions@, Action::GatherResource) {
                            Some(Gathering { held_resource: None, progress_remaining: 0 })
                        } else {
                            None
                        }
                        &&& match unit.construction_options {
                            Some(options) => {
                                &&& options@ == construction_options_of(config.actions@)
                                &&& options@.len() > 0
                            },
                            None => construction_options_of(config.actions@).len() == 0,
                        }
                    },
                    _ => false,
                },
                PhysicalTypeConfig::StructureSize(size) => entity.physical_type
                    == PhysicalType::Structure { size },
                PhysicalTypeConfig::ResourceCapacity(capacity) => entity.physical_type
                    == PhysicalType::Resource { remaining: capacity },
            },
            entity.wf(),
    {
        let health = match config.max_health {
            Some(max) => Some(HealthComponent::new(max)),
            None => None,
        };
        let mut training_options: Vec<(EntityType, TrainingConfig)> = Vec::new();
        let mut construction_options: Vec<(EntityType, ConstructionConfig)> = Vec::new();
        let mut can_fight = false;
        let mut can_gather = false;
        let mut i: usize = 0;
        while i < NUM_ENTITY_ACTIONS
            invariant
                i <= NUM_ENTITY_ACTIONS,
                training_options@ == training_options_of(config.actions@.take(i as int)),
                construction_options@ == construction_options_of(config.actions@.take(i as int)),
                keys_unique(training_options@),
                keys_unique(construction_options@),
                can_fight == offers(config.actions@.take(i as int), Action::Attack),
                can_gather == offers(config.actions@.take(i as int), Action::GatherResource),
            decreases NUM_ENTITY_ACTIONS - i,
        {
            let ghost prefix = config.actions@.take(i as int);
            let ghost next = config.actions@.take(i + 1);
            assert(next.drop_last() =~= prefix);
            assert(next.last() == config.actions@[i as int]);
            match config.actions[i] {
                Some(Action::Train(unit_type, training_config)) => {
                    keyed_insert_exec(&mut training_options, unit_type, training_config);
                },
                Some(Action::Construct(structure_type, construction_config)) => {
                    keyed_insert_exec(&mut construction_options, structure_type, construction_config);
                },
                Some(Action::Attack) => {
                    can_fight = true;
                },
                Some(Action::GatherResource) => {
                    can_gather = true;
                },
                _ => {},
            }
            proof {
                if can_fight {
                    if !offers(prefix, Action::Attack) {
                        assert(next[i as int] == Some(Action::Attack));
                    } else {
                        let k = choose|k: int| 0 <= k < prefix.len() && prefix[k] == Some(Action::Attack);
                        assert(next[k] == prefix[k]);
                    }
                } else {
                    assert forall|k: int| 0 <= k < next.len() implies next[k] != Some(
                        Action::Attack,
                    ) by {
                        if k < i {
                            assert(next[k] == prefix[k]);
                        }
                    }
                }
                if can_gather {
                    if !offers(prefix, Action::GatherResource) {
                        assert(next[i as int] == Some(Action::GatherResource));
                    } else {
                        let k = choose|k: int| 0 <= k < prefix.len() && prefix[k] == Some(Action::GatherResource);
                        assert(next[k] == prefix[k]);
                    }
                } else {
                    assert forall|k: int| 0 <= k < next.len() implies next[k] != Some(
                        Action::GatherResource,
                    ) by {
                        if k < i {
                            assert(next[k] == prefix[k]);
                        }
                    }
                }
            }
            i = i + 1;
        }
        assert(config.actions@.take(NUM_ENTITY_ACTIONS as int) =~= config.actions@);
        let training = if training_options.len() > 0 {
            Some(TrainingComponent::new(training_options))
        } else {
            None
        };
        let construction_options = if construction_options.len() > 0 {
            Some(construction_options)
        } else {
            None
        };
        let physical_type = match config.physical_type {
            PhysicalTypeConfig::MovementCooldown(cooldown) => {
                let combat = if can_fight {
                    Some(Combat::new())
                } else {
                    None
                };
                let gathering = if can_gather {
                    Some(Gathering::new())
                } else {
                    None
                };
                PhysicalType::Unit(
                    UnitComponent::new(position, cooldown, combat, gathering, construction_options),
                )
            },
            PhysicalTypeConfig::StructureSize(size) => PhysicalType::Structure { size },
            PhysicalTypeConfig::ResourceCapacity(capacity) => PhysicalType::Resource {
                remaining: capacity,
            },
        };
        let animation = AnimationState { ms_counter: 0 };
        Self {
            entity_type,
            id,
            position,
            is_solid: config.is_solid,
            physical_type,
            team,
            animation,
            health,
            training,
            actions: config.actions,
            state: EntityState::Idle,
        }
    }

    /// The entity's own invariants: option lists have unique keys, and a resource
    /// remembered by a gatherer is not worked on anymore once picked up.
    pub open spec fn wf(&self) -> bool {
        &&& match self.training {
            Some(training) => training.wf(),
            None => true,
        }
        &&& match self.physical_type {
            PhysicalType::Unit(unit) => unit.wf(),
            _ => true,
        }
    }

    pub open spec fn spec_size(&self) -> [u32; 2] {
        match self.physical_type {
            PhysicalType::Structure { size } => size,
            _ => [1, 1],
        }
    }

    pub open spec fn spec_cell_rect(&self) -> CellRect {
        CellRect { position: self.position, size: self.spec_size() }
    }

    pub open spec fn is_unit(&self) -> bool {
        self.physical_type is Unit
    }

    pub open spec fn spec_unit(&self) -> UnitComponent
        recommends
            self.is_unit(),
    {
        self.physical_type->Unit_0
    }

    pub fn size(&self) -> (size: [u32; 2])
        ensures
            size == self.spec_size(),
    {
        match self.physical_type {
            PhysicalType::Structure { size } => size,
            _ => [1, 1],
        }
    }

    pub fn cell_rect(&self) -> (rect: CellRect)
        ensures
            rect == self.spec_cell_rect(),
    {
        CellRect { position: self.position, size: self.size() }
    }

    pub fn unit(&self) -> (unit: &UnitComponent)
        requires
            self.is_unit(),
        ensures
            *unit == self.spec_unit(),
    {
        match &self.physical_type {
            PhysicalType::Unit(unit) => unit,
            _ => vstd::pervasive::unreached(),
        }
    }

    pub fn unit_mut(&mut self) -> (unit: &mut UnitComponent)
        requires
            old(self).is_unit(),
        ensures
            *unit == old(self).spec_unit(),
            final(self).physical_type == PhysicalType::Unit(*final(unit)),
            final(self).entity_type == old(self).entity_type,
            final(self).id == old(self).id,
            final(self).position == old(self).position,
            final(self).is_solid == old(self).is_solid,
            final(self).team == old(self).team,
            final(self).animation == old(self).animation,
            final(self).health == old(self).health,
            final(self).training == old(self).training,
            final(self).actions == old(self).actions,
            final(self).state == old(self).state,
    {
        match &mut self.physical_type {
            PhysicalType::Unit(unit) => unit,
            _ => vstd::pervasive::unreached(),
        }
    }

    pub fn direction(&self) -> (direction: Direction)
        ensures
            direction == match self.physical_type {
                PhysicalType::Unit(unit) => unit.direction,
                _ => Direction::South,
            },
    {
        match &self.physical_type {
            PhysicalType::Unit(unit) => unit.direction,
            _ => Direction::South,
        }
    }

    /// Sets what is left in a resource.
    pub fn set_resource_remaining(&mut self, remaining: u32)
        requires
            old(self).physical_type is Resource,
        ensures
            final(self).physical_type == (PhysicalType::Resource { remaining }),
            final(self).entity_type == old(self).entity_type,
            final(self).id == old(self).id,
            final(self).position == old(self).position,
            final(self).is_solid == old(self).is_solid,
            final(self).team == old(self).team,
            final(self).animation == old(self).animation,
            final(self).health == old(self).health,
            final(self).training == old(self).training,
            final(self).actions == old(self).actions,
            final(self).state == old(self).state,
    {
        self.physical_type = PhysicalType::Resource { remaining };
    }

    /// Whether this entity is a unit.
    pub fn physical_type_is_unit(&self) -> (unit: bool)
        ensures
            unit == self.is_unit(),
    {
        match &self.physical_type {
            PhysicalType::Unit(_) => true,
            _ => false,
        }
    }

    /// Whether this entity is a structure.
    pub fn is_structure(&self) -> (structure: bool)
        ensures
            structure == (self.physical_type is Structure),
    {
        match &self.physical_type {
            PhysicalType::Structure { .. } => true,
            _ => false,
        }
    }

    pub open spec fn resource_remaining_spec(&self) -> Option<u32> {
        match self.physical_type {
            PhysicalType::Resource { remaining } => Some(remaining),
            _ => None,
        }
    }

    /// The amount left in a resource, or `None` for entities that are not resources.
    pub fn resource_remaining(&self) -> (remaining: Option<u32>)
        ensures
            remaining == match self.physical_type {
                PhysicalType::Resource { remaining } => Some(remaining),
                _ => None,
            },
    {
        match &self.physical_type {
            PhysicalType::Resource { remaining } => Some(*remaining),
            _ => None,
        }
    }
}

#[derive(Debug, Copy, Clone, PartialEq, Eq, Structural)]
pub struct HealthComponent {
    pub max: u32,
    pub current: u32,
}

impl HealthComponent {
    pub fn new(max_health: u32) -> (health: Self)
        ensures
            health.max == max_health,
            health.current == max_health,
    {
        Self { max: max_health, current: max_health }
    }

    pub fn receive_healing(&mut self, amount: u32)
        requires
            old(self).current + amount <= u32::MAX,
        ensures
            final(self).max == old(self).max,
            final(self).current == if old(self).current + amount < old(self).max {
                old(self).current + amount
            } else {
                old(self).max as int
            },
    {
        let healed = self.current + amount;
        self.current = if healed < self.max {
            healed
        } else {
            self.max
        };
    }

    pub fn receive_damage(&mut self, amount: u32)
        ensures
            final(self).max == old(self).max,
            final(self).current == if old(self).current >= amount {
                old(self).current - amount
            } else {
                0
            },
    {
        self.current = self.current.saturating_sub(amount);
    }
}

#[derive(Debug, PartialEq, Eq, Structural, Copy, Clone)]
pub enum Team {
    Player,
    Enemy1,
    Enemy2,
    Neutral,
}

pub struct UnitComponent {
    pub sub_cell_movement: SubCellMovement,
    pub movement_plan: MovementPlan,
    pub direction: Direction,
    pub combat: Option<Combat>,
    pub gathering: Option<Gathering>,
    pub construction_options: Option<Vec<(EntityType, ConstructionConfig)>>,
}

impl UnitComponent {
    pub open spec fn wf(&self) -> bool {
        match self.construction_options {
            Some(options) => keys_unique(options@),
            None => true,
        }
    }

    pub fn new(
        position: [u32; 2],
        movement_cooldown: u64,
        combat: Option<Combat>,
        gathering: Option<Gathering>,
        construction_options: Option<Vec<(EntityType, ConstructionConfig)>>,
    ) -> (unit: Self)
        ensures
            unit.sub_cell_movement.previous_position == position,
            unit.sub_cell_movement.remaining == 0,
            unit.sub_cell_movement.straight_movement_cooldown == movement_cooldown,
            unit.sub_cell_movement.diagonal_movement_cooldown == spec_diagonal_cooldown(
                movement_cooldown,
            ),
            unit.movement_plan.movement_plan@.len() == 0,
            unit.movement_plan.blocked_steps == 0,
            unit.direction == Direction::South,
            unit.combat == combat,
            unit.gathering == gathering,
            unit.construction_options == construction_options,
    {
        Self {
            sub_cell_movement: SubCellMovement::new(position, movement_cooldown),
            movement_plan: MovementPlan::new(),
            direction: Direction::South,
            combat,
            gathering,
            construction_options,
        }
    }

    /// Turns the unit towards a neighbouring cell and starts the step's animation.
    pub fn move_to_adjacent_cell(&mut self, old_position: [u32; 2], new_position: [u32; 2])
        requires
            adjacent(old_position, new_position),
            old(self).sub_cell_movement.remaining == 0,
        ensures
            Some(final(self).direction) == step_direction(
                new_position[0] - old_position[0],
                new_position[1] - old_position[1],
            ),
            final(self).sub_cell_movement.remaining == spec_step_cooldown(
                old(self).sub_cell_movement,
                old_position,
                new_position,
            ),
            final(self).sub_cell_movement.previous_position
                == old(self).sub_cell_movement.previous_position,
            final(self).sub_cell_movement.straight_movement_cooldown
                == old(self).sub_cell_movement.straight_movement_cooldown,
            final(self).sub_cell_movement.diagonal_movement_cooldown
                == old(self).sub_cell_movement.diagonal_movement_cooldown,
            final(self).movement_plan == old(self).movement_plan,
            final(self).combat == old(self).combat,
            final(self).gathering == old(self).gathering,
            final(self).construction_options == old(self).construction_options,
    {
        self.direction = direction_between(old_position, new_position);
        self.sub_cell_movement.set_moving(old_position, new_position);
    }
}

/// The direction from a cell to a neighbouring cell.
pub fn direction_between(from: [u32; 2], to: [u32; 2]) -> (direction: Direction)
    requires
        adjacent(from, to),
    ensures
        Some(direction) == step_direction(to[0] - from[0], to[1] - from[1]),
{
    if to[0] == from[0] {
        if to[1] < from[1] {
            Direction::North
        } else {
            Direction::South
        }
    } else if to[0] > from[0] {
        if to[1] < from[1] {
            Direction::NorthEast
        } else if to[1] == from[1] {
            Direction::East
        } else {
            Direction::SouthEast
        }
    } else {
        if to[1] < from[1] {
            Direction::NorthWest
        } else if to[1] == from[1] {
            Direction::West
        } else {
            Direction::SouthWest
        }
    }
}

/// The cells a unit still has to walk through, the next one last.
pub struct MovementPlan {
    pub movement_plan: Vec<[u32; 2]>,
    pub blocked_steps: u32,
}

impl MovementPlan {
    pub fn new() -> (plan: Self)
        ensures
            plan.movement_plan@.len() == 0,
            plan.blocked_steps == 0,
    {
        Self { movement_plan: Vec::new(), blocked_steps: 0 }
    }

    pub fn set(&mut self, movement_plan: Vec<[u32; 2]>)
        ensures
            final(self).movement_plan@ == movement_plan@,
            final(self).blocked_steps == 0,
    {
        self.movement_plan = movement_plan;
        self.blocked_steps = 0;
    }

    /// The next cell to step into.
    pub fn peek(&self) -> (next: Option<[u32; 2]>)
        ensures
            next == if self.movement_plan@.len() == 0 {
                None
            } else {
                Some(self.movement_plan@.last())
            },
    {
        let n = self.movement_plan.len();
        if n == 0 {
            None
        } else {
            Some(self.movement_plan[n - 1])
        }
    }

    /// Removes and returns the next cell.
    pub fn advance(&mut self) -> (next: [u32; 2])
        requires
            old(self).movement_plan@.len() > 0,
        ensures
            next == old(self).movement_plan@.last(),
            final(self).movement_plan@ == old(self).movement_plan@.drop_last(),
            final(self).blocked_steps == 0,
    {
        self.blocked_steps = 0;
        self.movement_plan.pop().unwrap()
    }

    pub fn clear(&mut self)
        ensures
            final(self).movement_plan@.len() == 0,
            final(self).blocked_steps == 0,
    {
        self.movement_plan.clear();
        self.blocked_steps = 0;
    }

    /// The last cell of the plan.
    pub fn destination(&self) -> (destination: [u32; 2])
        requires
            self.movement_plan@.len() > 0,
        ensures
            destination == self.movement_plan@[0],
    {
        self.movement_plan[0]
    }

    /// Records that the next step is blocked; says whether the unit has now been
    /// blocked for too long, in which case the count starts over.
    pub fn on_movement_blocked(&mut self) -> (too_long: bool)
        ensures
            final(self).movement_plan == old(self).movement_plan,
            too_long == (old(self).blocked_steps + 1 >= MAX_BLOCKED_STEPS),
            final(self).blocked_steps == if too_long {
                0
            } else {
                old(self).blocked_steps + 1
            },
    {
        if self.blocked_steps >= MAX_BLOCKED_STEPS - 1 {
            self.blocked_steps = 0;
            true
        } else {
            self.blocked_steps = self.blocked_steps + 1;
            false
        }
    }
}

/// The diagonal step time for a straight step time: the straight one times the square
/// root of two, rounded down to the nanosecond, capped at `u64::MAX`.
pub open spec fn spec_diagonal_cooldown(straight: u64) -> u64 {
    let d = straight * 1_414_213_562 / 1_000_000_000;
    if d > u64::MAX {
        u64::MAX
    } else {
        d as u64
    }
}

pub enum MovementDirection {
    Straight,
    Diagonal,
    Stationary,
}

/// How a step between two cells is drawn: not at all, diagonally, or straight.
pub open spec fn spec_movement_direction(from: [u32; 2], to: [u32; 2]) -> MovementDirection {
    let dx = if from[0] >= to[0] {
        from[0] - to[0]
    } else {
        to[0] - from[0]
    };
    let dy = if from[1] >= to[1] {
        from[1] - to[1]
    } else {
        to[1] - from[1]
    };
    if dx == 0 && dy == 0 {
        MovementDirection::Stationary
    } else if dx == 1 && dy == 1 {
        MovementDirection::Diagonal
    } else {
        MovementDirection::Straight
    }
}

/// The time that a step between two cells takes.
pub open spec fn spec_step_cooldown(
    movement: SubCellMovement,
    from: [u32; 2],
    to: [u32; 2],
) -> u64 {
    match spec_movement_direction(from, to) {
        MovementDirection::Straight => movement.straight_movement_cooldown,
        MovementDirection::Diagonal => movement.diagonal_movement_cooldown,
        MovementDirection::Stationary => movement.remaining,
    }
}

/// The progress of a unit between two cells; times in nanoseconds.
pub struct SubCellMovement {
    pub previous_position: [u32; 2],
    pub remaining: u64,
    pub straight_movement_cooldown: u64,
    pub diagonal_movement_cooldown: u64,
}

impl SubCellMovement {
    pub fn new(position: [u32; 2], movement_cooldown: u64) -> (movement: Self)
        ensures
            movement.previous_position == position,
            movement.remaining == 0,
            movement.straight_movement_cooldown == movement_cooldown,
            movement.diagonal_movement_cooldown == spec_diagonal_cooldown(movement_cooldown),
    {
        let product: u128 = (movement_cooldown as u128) * 1_414_213_562u128;
        let scaled: u128 = product / 1_000_000_000u128;
        let diagonal: u64 = if scaled > u64::MAX as u128 {
            u64::MAX
        } else {
            scaled as u64
        };
        Self {
            previous_position: position,
            remaining: 0,
            straight_movement_cooldown: movement_cooldown,
            diagonal_movement_cooldown: diagonal,
        }
    }

    /// Lets `dt` nanoseconds of the current step pass; once the step is over the
    /// unit is drawn at `position`.
    pub fn update(&mut self, dt: u64, position: [u32; 2])
        ensures
            final(self).remaining == if old(self).remaining >= dt {
                old(self).remaining - dt
            } else {
                0
            },
            final(self).previous_position == if final(self).remaining == 0 {
                position
            } else {
                old(self).previous_position
            },
            final(self).straight_movement_cooldown == old(self).straight_movement_cooldown,
            final(self).diagonal_movement_cooldown == old(self).diagonal_movement_cooldown,
    {
        self.remaining = self.remaining.saturating_sub(dt);
        if self.remaining == 0 {
            self.previous_position = position;
        }
    }

    pub fn is_ready(&self) -> (ready: bool)
        ensures
            ready == (self.remaining == 0),
    {
        self.remaining == 0
    }

    /// Whether the unit is still on its way from one cell to the next.
    pub fn is_between_cells(&self) -> (between: bool)
        ensures
            between == (self.remaining != 0),
    {
        !self.is_ready()
    }

    fn set_moving(&mut self, old_position: [u32; 2], new_position: [u32; 2])
        requires
            old(self).remaining == 0,
        ensures
            final(self).remaining == spec_step_cooldown(*old(self), old_position, new_position),
            final(self).previous_position == old(self).previous_position,
            final(self).straight_movement_cooldown == old(self).straight_movement_cooldown,
            final(self).diagonal_movement_cooldown == old(self).diagonal_movement_cooldown,
    {
        match SubCellMovement::direction(old_position, new_position) {
            MovementDirection::Straight => self.remaining = self.straight_movement_cooldown,
            MovementDirection::Diagonal => self.remaining = self.diagonal_movement_cooldown,
            MovementDirection::Stationary => {},
        }
    }

    pub fn direction(from: [u32; 2], to: [u32; 2]) -> (direction: MovementDirection)
        ensures
            direction == spec_movement_direction(from, to),
    {
        let dx = if from[0] >= to[0] {
            from[0] - to[0]
        } else {
            to[0] - from[0]
        };
        let dy = if from[1] >= to[1] {
            from[1] - to[1]
        } else {
            to[1] - from[1]
        };
        if dx == 0 && dy == 0 {
            MovementDirection::Stationary
        } else if dx == 1 && dy == 1 {
            MovementDirection::Diagonal
        } else {
            MovementDirection::Straight
        }
    }
}

pub struct TrainingComponent {
    pub ongoing: Option<OngoingTraining>,
    pub options: Vec<(EntityType, TrainingConfig)>,
}

/// Durations are in nanoseconds.
#[derive(Debug, Copy, Clone, PartialEq, Eq, Structural)]
pub struct TrainingConfig {
    pub duration: u64,
    pub cost: u32,
}

#[derive(Debug, Copy, Clone, PartialEq, Eq, Structural)]
pub struct OngoingTraining {
    pub remaining: u64,
}

impl TrainingComponent {
    pub open spec fn wf(&self) -> bool {
        keys_unique(self.options@)
    }

    pub open spec fn spec_config(&self, unit_type: EntityType) -> Option<TrainingConfig> {
        keyed_get(self.options@, unit_type)
    }

    fn new(options: Vec<(EntityType, TrainingConfig)>) -> (training: Self)
        ensures
            training.ongoing is None,
            training.options == options,
    {
        Self { ongoing: None, options }
    }

    /// The training configuration of a unit type that this trainer offers.
    pub fn config(&self, unit_type: &EntityType) -> (config: TrainingConfig)
        requires
            self.wf(),
            self.spec_config(*unit_type) is Some,
        ensures
            Some(config) == self.spec_config(*unit_type),
    {
        keyed_get_exec(&self.options, *unit_type).unwrap()
    }

    /// Starts training a unit unless a training is already going on.
    pub fn try_start(&mut self, trained_entity_type: EntityType) -> (status: TrainingPerformStatus)
        requires
            old(self).wf(),
            old(self).spec_config(trained_entity_type) is Some,
        ensures
            final(self).options == old(self).options,
            match old(self).ongoing {
                Some(_) => {
                    &&& status is AlreadyOngoing
                    &&& final(self).ongoing == old(self).ongoing
                },
                None => {
                    &&& status is NewTrainingStarted
                    &&& final(self).ongoing == Some(
                        OngoingTraining {
                            remaining: old(self).spec_config(trained_entity_type)->Some_0.duration,
                        },
                    )
                },
            },
    {
        if self.ongoing.is_some() {
            TrainingPerformStatus::AlreadyOngoing
        } else {
            let config = keyed_get_exec(&self.options, trained_entity_type).unwrap();
            self.ongoing = Some(OngoingTraining { remaining: config.duration });
            TrainingPerformStatus::NewTrainingStarted
        }
    }

    /// Lets `dt` nanoseconds of the ongoing training pass.
    pub fn update(&mut self, dt: u64) -> (status: TrainingUpdateStatus)
        ensures
            final(self).options == old(self).options,
            match old(self).ongoing {
                None => status is NothingOngoing && final(self).ongoing is None,
                Some(ongoing) => if ongoing.remaining <= dt {
                    status is Done && final(self).ongoing is None
                } else {
                    &&& status is Ongoing
                    &&& final(self).ongoing == Some(
                        OngoingTraining { remaining: (ongoing.remaining - dt) as u64 },
                    )
                },
            },
    {
        match self.ongoing.take() {
            Some(ongoing) => {
                let remaining = ongoing.remaining.saturating_sub(dt);
                if remaining == 0 {
                    TrainingUpdateStatus::Done
                } else {
                    self.ongoing = Some(OngoingTraining { remaining });
                    TrainingUpdateStatus::Ongoing
                }
            },
            None => TrainingUpdateStatus::NothingOngoing,
        }
    }

    /// The time left of the ongoing training, if any.
    pub fn remaining(&self) -> (remaining: Option<u64>)
        ensures
            remaining == match self.ongoing {
                Some(ongoing) => Some(ongoing.remaining),
                None => None,
            },
    {
        match &self.ongoing {
            Some(ongoing) => Some(ongoing.remaining),
            None => None,
        }
    }

    pub fn options(&self) -> (options: &Vec<(EntityType, TrainingConfig)>)
        ensures
            options == &self.options,
    {
        &self.options
    }
}

pub enum TrainingUpdateStatus {
    NothingOngoing,
    Ongoing,
    Done,
}

pub enum TrainingPerformStatus {
    NewTrainingStarted,
    AlreadyOngoing,
}

/// Time in nanoseconds until the next blow.
#[derive(Debug, Copy, Clone, PartialEq, Eq, Structural)]
pub struct Combat {
    pub cooldown: u64,
}

impl Combat {
    fn new() -> (combat: Self)
        ensures
            combat.cooldown == 0,
    {
        Self { cooldown: 0 }
    }

    /// Lets `dt` nanoseconds pass; says whether the next blow may be struck.
    pub fn count_down_cooldown(&mut self, dt: u64) -> (ready: bool)
        ensures
            final(self).cooldown == if old(self).cooldown >= dt {
                old(self).cooldown - dt
            } else {
                0
            },
            ready == (final(self).cooldown == 0),
    {
        self.cooldown = self.cooldown.saturating_sub(dt);
        self.cooldown == 0
    }

    pub fn start_cooldown(&mut self)
        ensures
            final(self).cooldown == ATTACK_COOLDOWN,
    {
        self.cooldown = ATTACK_COOLDOWN;
    }

    pub fn is_attack_ready(&self) -> (ready: bool)
        ensures
            ready == (self.cooldown == 0),
    {
        self.cooldown == 0
    }
}

pub enum GatheringProgress {
    Ongoing,
    Done,
}

/// The resource a unit carries, and the time in nanoseconds until it has gathered one.
#[derive(Debug, Copy, Clone, PartialEq, Eq, Structural)]
pub struct Gathering {
    pub held_resource: Option<EntityId>,
    pub progress_remaining: u64,
}

impl Gathering {
    fn new() -> (gathering: Self)
        ensures
            gathering.held_resource is None,
            gathering.progress_remaining == 0,
    {
        Self { held_resource: None, progress_remaining: 0 }
    }

    pub fn is_carrying(&self) -> (carrying: bool)
        ensures
            carrying == (self.held_resource is Some),
    {
        self.held_resource.is_some()
    }

    pub fn pick_up_resource(&mut self, resource_id: EntityId)
        requires
            old(self).held_resource is None,
        ensures
            final(self).held_resource == Some(resource_id),
            final(self).progress_remaining == old(self).progress_remaining,
    {
        self.held_resource = Some(resource_id);
    }

    pub fn drop_resource(&mut self) -> (resource_id: EntityId)
        requires
            old(self).held_resource is Some,
        ensures
            Some(resource_id) == old(self).held_resource,
            final(self).held_resource is None,
            final(self).progress_remaining == old(self).progress_remaining,
    {
        self.held_resource.take().unwrap()
    }

    /// Starts working on a resource.
    pub fn start_gathering(&mut self)
        ensures
            final(self).held_resource == old(self).held_resource,
            final(self).progress_remaining == GATHERING_DURATION,
    {
        self.progress_remaining = GATHERING_DURATION;
    }

    /// Lets `dt` nanoseconds of work on a resource pass; when the work is done the
    /// unit picks up one unit of the resource.
    pub fn make_progress_on_gathering(&mut self, dt: u64, resource_id: EntityId) -> (progress:
        GatheringProgress)
        requires
            old(self).held_resource is None,
        ensures
            final(self).progress_remaining == if old(self).progress_remaining >= dt {
                old(self).progress_remaining - dt
            } else {
                0
            },
            progress is Done <==> final(self).progress_remaining == 0,
            final(self).held_resource == if progress is Done {
                Some(resource_id)
            } else {
                None
            },
    {
        self.progress_remaining = self.progress_remaining.saturating_sub(dt);
        if self.progress_remaining == 0 {
            self.pick_up_resource(resource_id);
            GatheringProgress::Done
        } else {
            GatheringProgress::Ongoing
        }
    }
}

/// Durations are in nanoseconds.
#[derive(Debug, Copy, Clone, PartialEq, Eq, Structural)]
pub struct ConstructionConfig {
    pub construction_time: u64,
    pub cost: u32,
}

#[derive(Debug, Copy, Clone, PartialEq, Eq, Structural)]
pub enum Action {
    Train(EntityType, TrainingConfig),
    Construct(EntityType, ConstructionConfig),
    Stop,
    Move,
    Attack,
    GatherResource,
    ReturnResource,
}

} // verus!
