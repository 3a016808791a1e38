use vstd::prelude::*;

use crate::data::{self, is_structure_type, spec_entity_size, EntityType};
use crate::entities::{
    adjacent, keyed_get, Direction, Entity, EntityId, EntityState, GatheringProgress, PhysicalType,
    Team, TrainingPerformStatus, TrainingUpdateStatus, NANOS_PER_MILLI,
};
use crate::grid::{area_settable, in_bounds, rect_fits, valid_dimensions, CellRect, Grid};
use crate::pathfind::{self, is_walk_from, Destination};

verus! {

/// Resources that each team starts with.
pub const STARTING_RESOURCES: u32 = 15;

/// The simulation: teams, entities and the grid of obstacles they stand on.
pub struct Core {
    teams: Vec<(Team, TeamState)>,
    entities: Vec<Entity>,
    obstacle_grid: Grid<ObstacleType>,
    structure_sizes: Vec<(EntityType, [u32; 2])>,
    next_entity_id: usize,
}

#[derive(Debug, Copy, Clone, PartialEq, Eq, Structural)]
pub struct TeamState {
    pub resources: u32,
}

/// The first entry for `team`, if any.
pub open spec fn team_state_of(teams: Seq<(Team, TeamState)>, team: Team) -> Option<TeamState> {
    if exists|i: int| 0 <= i < teams.len() && teams[i].0 == team {
        let i = choose|i: int| 0 <= i < teams.len() && teams[i].0 == team;
        Some(teams[i].1)
    } else {
        None
    }
}

/// No team occurs twice.
pub open spec fn teams_unique(teams: Seq<(Team, TeamState)>) -> bool {
    forall|i: int, j: int|
        0 <= i < teams.len() && 0 <= j < teams.len() && i != j ==> teams[i].0 != teams[j].0
}

/// No two entities share an id.
pub open spec fn ids_unique(entities: Seq<Entity>) -> bool {
    forall|i: int, j: int|
        0 <= i < entities.len() && 0 <= j < entities.len() && i != j ==> entities[i].id
            != entities[j].id
}

/// Whether some entity has the given id.
pub open spec fn has_entity(entities: Seq<Entity>, id: EntityId) -> bool {
    exists|i: int| 0 <= i < entities.len() && entities[i].id == id
}

/// The entity with the given id, when there is one.
pub open spec fn entity_with_id(entities: Seq<Entity>, id: EntityId) -> Entity {
    let i = choose|i: int| 0 <= i < entities.len() && entities[i].id == id;
    entities[i]
}

/// A unit's movement plan leads, step by step, from where it stands through cells of the grid.
pub open spec fn plan_ok(entity: Entity, dimensions: [u32; 2]) -> bool {
    entity.is_unit() ==> {
        let plan = entity.spec_unit().movement_plan.movement_plan@;
        &&& is_walk_from(entity.position, plan)
        &&& forall|k: int| 0 <= k < plan.len() ==> in_bounds(dimensions, #[trigger] plan[k])
    }
}

/// The entity has what its state needs: a unit for states of movement, a way to fight when
/// attacking, a way to gather (and a load, or none) for gathering states, and the option to
/// build what it is going to build. No state refers to the entity itself.
pub open spec fn state_ok(entity: Entity) -> bool {
    match entity.state {
        EntityState::Idle => true,
        EntityState::TrainingUnit(unit_type) => crate::data::is_unit_type(unit_type),
        EntityState::UnderConstruction(_, _) => !entity.is_unit(),
        EntityState::Moving => entity.is_unit(),
        EntityState::MovingToAttackTarget(victim) => {
            &&& entity.is_unit()
            &&& entity.spec_unit().combat is Some
            &&& victim != entity.id
        },
        EntityState::Attacking(victim) => {
            &&& entity.is_unit()
            &&& entity.spec_unit().combat is Some
            &&& victim != entity.id
        },
        EntityState::MovingToResource(resource) => {
            &&& entity.is_unit()
            &&& entity.spec_unit().gathering matches Some(g) && g.held_resource is None
            &&& resource != entity.id
        },
        EntityState::GatheringResource(resource) => {
            &&& entity.is_unit()
            &&& entity.spec_unit().gathering matches Some(g) && g.held_resource is None
            &&& resource != entity.id
        },
        EntityState::ReturningResource(structure) => {
            &&& entity.is_unit()
            &&& entity.spec_unit().gathering matches Some(g) && g.held_resource is Some
            &&& structure != entity.id
        },
        EntityState::MovingToConstruction(structure_type, position) => {
            &&& entity.is_unit()
            &&& entity.spec_unit().construction_options matches Some(options) && keyed_get(
                options@,
                structure_type,
            ) is Some
            &&& is_structure_type(structure_type)
            &&& position[0] + spec_entity_size(structure_type)[0] <= u32::MAX
            &&& position[1] + spec_entity_size(structure_type)[1] <= u32::MAX
        },
    }
}

/// A path returned by the path finder, from a cell of the grid towards a destination
/// whose target cell is in the grid, is a walk through cells of the grid.
pub proof fn lemma_route_in_grid(
    grid: Grid<ObstacleType>,
    start: [u32; 2],
    destination: Destination,
    path: Seq<[u32; 2]>,
)
    requires
        grid.wf(),
        in_bounds(grid.spec_dimensions(), start),
        in_bounds(grid.spec_dimensions(), pathfind::destination_center(destination)),
        pathfind::destination_squared_distance(destination, start) >= pathfind::SEARCH_RADIUS
            * pathfind::SEARCH_RADIUS ==> path == pathfind::spec_naive_path(
            start,
            pathfind::destination_center(destination),
        ),
        pathfind::destination_squared_distance(destination, start) < pathfind::SEARCH_RADIUS
            * pathfind::SEARCH_RADIUS ==> pathfind::is_found_path(grid, start, destination, path),
    ensures
        is_walk_from(start, path),
        forall|k: int| 0 <= k < path.len() ==> in_bounds(grid.spec_dimensions(), #[trigger] path[k]),
{
    let dims = grid.spec_dimensions();
    let center = pathfind::destination_center(destination);
    if pathfind::destination_squared_distance(destination, start) >= pathfind::SEARCH_RADIUS
        * pathfind::SEARCH_RADIUS {
        pathfind::lemma_naive_path_walk(start, center);
        pathfind::lemma_naive_path_in_bounds(start, center, dims);
    } else {
        assert forall|k: int| 0 <= k < path.len() implies in_bounds(dims, #[trigger] path[k]) by {
            assert(pathfind::is_free(grid, path[k]));
            grid.lemma_cell_in_bounds(path[k]);
        }
    }
}

/// A carried resource is never the carrier itself.
pub open spec fn load_ok(entity: Entity) -> bool {
    entity.is_unit() ==> (entity.spec_unit().gathering matches Some(g) ==> g.held_resource != Some(
        entity.id,
    ))
}

/// What holds of each entity of a well-formed core.
pub open spec fn entity_ok(entity: Entity, dimensions: [u32; 2], next_id: usize) -> bool {
    &&& entity.wf()
    &&& entity.id.0 < next_id
    &&& attack_target(entity) matches Some(victim) ==> victim.0 < next_id
    &&& rect_fits(entity.spec_cell_rect(), dimensions)
    &&& entity.spec_size()[0] > 0 && entity.spec_size()[1] > 0
    &&& plan_ok(entity, dimensions)
    &&& state_ok(entity)
    &&& load_ok(entity)
}

/// The victim that an entity attacks or moves to attack, if any.
pub open spec fn attack_target(entity: Entity) -> Option<EntityId> {
    match entity.state {
        EntityState::MovingToAttackTarget(victim) => Some(victim),
        EntityState::Attacking(victim) => Some(victim),
        _ => None,
    }
}

/// An attacked entity that still exists has health to lose.
pub open spec fn attack_target_ok(attacker: Entity, other: Entity) -> bool {
    attack_target(attacker) == Some(other.id) ==> other.health is Some
}

/// The invariants that tie the entities of a core together.
pub open spec fn entities_inv(
    entities: Seq<Entity>,
    dimensions: [u32; 2],
    next_id: usize,
    teams: Seq<(Team, TeamState)>,
) -> bool {
    &&& ids_unique(entities)
    &&& forall|i: int| 0 <= i < entities.len() ==> entity_ok(#[trigger] entities[i], dimensions, next_id)
    &&& forall|i: int|
        0 <= i < entities.len() ==> team_state_of(teams, #[trigger] entities[i].team) is Some
    &&& forall|i: int, j: int|
        0 <= i < entities.len() && 0 <= j < entities.len() ==> attack_target_ok(
            #[trigger] entities[i],
            #[trigger] entities[j],
        )
}

/// What an entity keeps when it acts: its id, its team, whether it has health, and whether
/// it is a unit, a structure or a resource; its maximum health stays, and neither its health
/// nor what is left in it rises.
pub open spec fn same_identity(a: Entity, b: Entity) -> bool {
    &&& a.id == b.id
    &&& a.team == b.team
    &&& (a.health is Some) == (b.health is Some)
    &&& a.is_unit() == b.is_unit()
    &&& (a.physical_type is Structure) == (b.physical_type is Structure)
    &&& (a.physical_type is Resource) == (b.physical_type is Resource)
    &&& b.health matches Some(hb) ==> hb.max == a.health->Some_0.max && hb.current <= a.health->Some_0.current
    &&& b.resource_remaining_spec() matches Some(rb) ==> rb <= a.resource_remaining_spec()->Some_0
}

proof fn lemma_entities_update(
    entities: Seq<Entity>,
    dimensions: [u32; 2],
    next_id: usize,
    teams: Seq<(Team, TeamState)>,
    i: int,
    entity: Entity,
)
    requires
        entities_inv(entities, dimensions, next_id, teams),
        0 <= i < entities.len(),
        same_identity(entities[i], entity),
        entity_ok(entity, dimensions, next_id),
        forall|j: int| 0 <= j < entities.len() ==> attack_target_ok(entity, #[trigger] entities[j]),
    ensures
        entities_inv(entities.update(i, entity), dimensions, next_id, teams),
{
    let s = entities.update(i, entity);
    assert forall|a: int, b: int| 0 <= a < s.len() && 0 <= b < s.len() implies attack_target_ok(
        #[trigger] s[a],
        #[trigger] s[b],
    ) by {
        if a == i {
            if b == i {
                assert(attack_target_ok(entity, entities[i]));
            } else {
                assert(attack_target_ok(entity, entities[b]));
            }
        } else {
            assert(attack_target_ok(entities[a], entities[b]));
        }
    }
    assert forall|a: int, b: int|
        0 <= a < s.len() && 0 <= b < s.len() && a != b implies s[a].id != s[b].id by {
        assert(entities[a].id != entities[b].id);
    }
    assert forall|a: int| 0 <= a < s.len() implies team_state_of(teams, #[trigger] s[a].team) is Some by {
        assert(team_state_of(teams, entities[a].team) is Some);
    }
}

/// What the grid of obstacles holds for each cell.
#[derive(Debug, Copy, Clone, PartialEq, Eq, Structural)]
pub enum ObstacleType {
    Entity(Team),
    Water,
    Free,
}

impl Default for ObstacleType {
    fn default() -> (obstacle: Self)
        ensures
            obstacle == ObstacleType::Free,
    {
        ObstacleType::Free
    }
}

#[derive(Debug, Copy, Clone, PartialEq, Eq, Structural)]
pub enum CommandError {
    NotEnoughResources,
    NoPathFound,
    NotCarryingResource,
    NotEnoughSpaceForStructure,
}

pub struct UpdateOutcome {
    pub removed_entities: Vec<EntityId>,
    pub finished_structures: Vec<EntityId>,
}

/// Whether `[x, y]` is a cell of `rect`.
pub open spec fn rect_has(rect: CellRect, x: u32, y: u32) -> bool {
    rect.spec_contains([x, y])
}

/// Whether `[x, y]` is a cell of `rect` next to `unit_position`, and no cell of `rect`
/// that comes before it column by column is.
pub open spec fn first_touching_cell(unit_position: [u32; 2], rect: CellRect, x: u32, y: u32) -> bool {
    &&& rect.spec_contains([x, y])
    &&& adjacent(unit_position, [x, y])
    &&& forall|px: u32, py: u32| #[trigger]
        rect_has(rect, px, py) && (px < x || (px == x && py < y)) ==> !adjacent(
            unit_position,
            [px, py],
        )
}

/// Squared straight-line distance between two cells.
pub open spec fn spec_square_distance(a: [u32; 2], b: [u32; 2]) -> int {
    (a[0] - b[0]) * (a[0] - b[0]) + (a[1] - b[1]) * (a[1] - b[1])
}

fn square_distance(a: [u32; 2], b: [u32; 2]) -> (d: u128)
    ensures
        d == spec_square_distance(a, b),
{
    let dx: u128 = if a[0] >= b[0] {
        (a[0] - b[0]) as u128
    } else {
        (b[0] - a[0]) as u128
    };
    let dy: u128 = if a[1] >= b[1] {
        (a[1] - b[1]) as u128
    } else {
        (b[1] - a[1]) as u128
    };
    assert(dx * dx <= 0xffff_fffe_0000_0001) by (nonlinear_arith)
        requires
            dx <= 0xffff_ffff,
    ;
    assert(dy * dy <= 0xffff_fffe_0000_0001) by (nonlinear_arith)
        requires
            dy <= 0xffff_ffff,
    ;
    assert(dx * dx == (a[0] - b[0]) * (a[0] - b[0])) by (nonlinear_arith)
        requires
            dx == a[0] - b[0] || dx == b[0] - a[0],
    ;
    assert(dy * dy == (a[1] - b[1]) * (a[1] - b[1])) by (nonlinear_arith)
        requires
            dy == a[1] - b[1] || dy == b[1] - a[1],
    ;
    dx * dx + dy * dy
}

/// Whether a cell at squared distance at most 2 is a neighbour.
proof fn lemma_square_distance_adjacent(a: [u32; 2], b: [u32; 2])
    ensures
        (spec_square_distance(a, b) <= 2 && a != b) <==> adjacent(a, b),
{
    let dx = b[0] - a[0];
    let dy = b[1] - a[1];
    assert(spec_square_distance(a, b) == dx * dx + dy * dy) by (nonlinear_arith)
        requires
            dx == b[0] - a[0],
            dy == b[1] - a[1],
    ;
    if a == b {
        assert(dx == 0 && dy == 0);
    }
    if dx * dx + dy * dy <= 2 {
        assert(-1 <= dx <= 1 && -1 <= dy <= 1) by (nonlinear_arith)
            requires
                dx * dx + dy * dy <= 2,
        ;
        if dx == 0 && dy == 0 {
            assert(a =~= b);
        }
    }
    if adjacent(a, b) {
        assert(dx * dx + dy * dy <= 2) by (nonlinear_arith)
            requires
                -1 <= dx <= 1,
                -1 <= dy <= 1,
        ;
    }
}

/// The direction in which a unit faces a neighbouring cell of `rect`, scanning the
/// rectangle column by column; `None` when no cell of `rect` touches the unit.
fn unit_melee_direction(unit_position: [u32; 2], rect: CellRect) -> (direction: Option<Direction>)
    requires
        rect.position[0] + rect.size[0] <= u32::MAX,
        rect.position[1] + rect.size[1] <= u32::MAX,
    ensures
        direction is None <==> !(exists|x: u32, y: u32| #[trigger]
            rect_has(rect, x, y) && adjacent(unit_position, [x, y])),
        direction matches Some(d) ==> exists|x: u32, y: u32| #[trigger]
            first_touching_cell(unit_position, rect, x, y) && crate::entities::step_direction(
                x - unit_position[0],
                y - unit_position[1],
            ) == Some(d),
{
    let x_end = rect.position[0] + rect.size[0];
    let y_end = rect.position[1] + rect.size[1];
    let mut x = rect.position[0];
    while x < x_end
        invariant
            rect.position[0] <= x <= x_end,
            x_end == rect.position[0] + rect.size[0],
            y_end == rect.position[1] + rect.size[1],
            forall|px: u32, py: u32| #[trigger]
                rect_has(rect, px, py) && px < x ==> !adjacent(unit_position, [px, py]),
        decreases x_end - x,
    {
        let mut y = rect.position[1];
        while y < y_end
            invariant
                rect.position[0] <= x < x_end,
                rect.position[1] <= y <= y_end,
                x_end == rect.position[0] + rect.size[0],
                y_end == rect.position[1] + rect.size[1],
                forall|px: u32, py: u32| #[trigger]
                    rect_has(rect, px, py) && (px < x || (px == x && py < y)) ==> !adjacent(
                        unit_position,
                        [px, py],
                    ),
            decreases y_end - y,
        {
            proof {
                lemma_square_distance_adjacent(unit_position, [x, y]);
            }
            if square_distance(unit_position, [x, y]) <= 2 {
                if !(x == unit_position[0] && y == unit_position[1]) {
                    assert([x, y] != unit_position);
                    assert(rect_has(rect, x, y));
                    assert(first_touching_cell(unit_position, rect, x, y));
                    return Some(crate::entities::direction_between(unit_position, [x, y]));
                }
                assert([x, y] =~= unit_position);
            }
            y = y + 1;
        }
        x = x + 1;
    }
    None
}

/// The team of the last entity in the list that covers `cell`, if any.
pub open spec fn last_cover(entities: Seq<Entity>, cell: [u32; 2]) -> Option<Team>
    decreases entities.len(),
{
    if entities.len() == 0 {
        None
    } else if entities.last().spec_cell_rect().spec_contains(cell) {
        Some(entities.last().team)
    } else {
        last_cover(entities.drop_last(), cell)
    }
}

/// What a fresh grid holds at an in-grid cell: the team of the last entity placed on it,
/// otherwise water where there is water, otherwise nothing.
pub open spec fn initial_obstacle(entities: Seq<Entity>, water_cells: Seq<[u32; 2]>, cell: [u32; 2]) -> ObstacleType {
    match last_cover(entities, cell) {
        Some(team) => ObstacleType::Entity(team),
        None => if water_cells.contains(cell) {
            ObstacleType::Water
        } else {
            ObstacleType::Free
        },
    }
}

/// Whether every cell of `rect` other than the worker's is in the grid and free.
pub open spec fn structure_fits(
    grid: Grid<ObstacleType>,
    worker_position: [u32; 2],
    rect: CellRect,
) -> bool {
    forall|x: u32, y: u32|
        #[trigger] rect_has(rect, x, y) && [x, y] != worker_position ==> grid.cell([x, y]) == Some(
            ObstacleType::Free,
        )
}

/// Whether some entry of `teams` is for `team`.
pub open spec fn team_listed(teams: Seq<(Team, TeamState)>, team: Team) -> bool {
    exists|k: int| 0 <= k < teams.len() && teams[k].0 == team
}

/// Whether one of the first `n` cells is `cell`.
pub open spec fn water_upto(water: Seq<[u32; 2]>, n: int, cell: [u32; 2]) -> bool {
    exists|m: int| 0 <= m < n && water[m] == cell
}

/// Whether one of the first `n` entities belongs to `team`.
pub open spec fn team_among(entities: Seq<Entity>, n: int, team: Team) -> bool {
    exists|k: int| 0 <= k < n && entities[k].team == team
}

/// What an entity handed to a new core must be, in whatever state: inside the grid, with a
/// plan that walks from where it stands through the grid, with what its state needs (a way
/// to fight for an attack, a load for bringing one back, the options for a construction),
/// and without carrying itself.
pub open spec fn admissible_entity(entity: Entity, dimensions: [u32; 2]) -> bool {
    &&& entity.wf()
    &&& rect_fits(entity.spec_cell_rect(), dimensions)
    &&& entity.spec_size()[0] > 0 && entity.spec_size()[1] > 0
    &&& plan_ok(entity, dimensions)
    &&& state_ok(entity)
    &&& load_ok(entity)
    &&& attack_target(entity) matches Some(victim) ==> victim.0 < usize::MAX
}

/// Whether `cell` is among the cells searched for a place for a freshly trained unit: the
/// trainer's own cells and the ring around them, clipped to the grid.
pub open spec fn spawn_area_has(rect: CellRect, dimensions: [u32; 2], cell: [u32; 2]) -> bool {
    let left = if rect.position[0] > 0 { rect.position[0] - 1 } else { 0 };
    let top = if rect.position[1] > 0 { rect.position[1] - 1 } else { 0 };
    let right = if rect.position[0] + rect.size[0] < dimensions[0] - 1 {
        rect.position[0] + rect.size[0]
    } else {
        dimensions[0] - 1
    };
    let bot = if rect.position[1] + rect.size[1] < dimensions[1] - 1 {
        rect.position[1] + rect.size[1]
    } else {
        dimensions[1] - 1
    };
    &&& left <= cell[0] <= right
    &&& top <= cell[1] <= bot
}

/// Whether `p` is the first free cell, column by column and each column from the top, of
/// the cells around `rect` where a unit trained there appears.
pub open spec fn first_free_spawn_cell(grid: Grid<ObstacleType>, rect: CellRect, p: [u32; 2]) -> bool {
    &&& spawn_area_has(rect, grid.spec_dimensions(), p)
    &&& grid.cell(p) == Some(ObstacleType::Free)
    &&& forall|c: [u32; 2]| #![trigger grid.cell(c)]
        spawn_area_has(rect, grid.spec_dimensions(), c) && scans_before(c, p) ==> grid.cell(c) != Some(ObstacleType::Free)
}

/// What placing a unit whose training is over does: a new unit of the trained type and
/// team, with the next id, appears on the first free cell around its trainer, which is then
/// marked as its team's; without a free cell (or once ids have run out) nothing appears.
pub open spec fn trained_placed(before: Core, after: Core, item: (EntityType, Team, CellRect)) -> bool {
    let grid = before.spec_grid();
    if exists|p: [u32; 2]| first_free_spawn_cell(grid, item.2, p) {
        let p = choose|p: [u32; 2]| first_free_spawn_cell(grid, item.2, p);
        if before.spec_next_id() < usize::MAX {
            &&& after.spec_entities().len() == before.spec_entities().len() + 1
            &&& after.spec_entities().drop_last() == before.spec_entities()
            &&& data::is_created(after.spec_entities().last(), EntityId(before.spec_next_id()), item.0, p, item.1)
            &&& after.spec_grid().spec_dimensions() == grid.spec_dimensions()
            &&& forall|c: [u32; 2]| #[trigger] after.spec_grid().cell(c) == if c == p {
                Some(ObstacleType::Entity(item.1))
            } else {
                grid.cell(c)
            }
        } else {
            after.spec_entities() == before.spec_entities() && after.spec_grid() == grid
        }
    } else {
        after.spec_entities() == before.spec_entities() && after.spec_grid() == grid
    }
}

/// Each state of `states` comes from the one before it by placing the unit of the training
/// at the same place of `items`.
pub open spec fn placement_chain(states: Seq<Core>, items: Seq<(EntityType, Team, CellRect)>) -> bool {
    &&& states.len() == items.len() + 1
    &&& forall|k: int| #![trigger states[k]] 0 <= k < items.len() ==> trained_placed(states[k], states[k + 1], items[k])
}

/// `after` comes from `before` by placing the units of the trainings in `items`, in order.
pub open spec fn trained_units_placed(before: Core, after: Core, items: Seq<(EntityType, Team, CellRect)>) -> bool {
    exists|states: Seq<Core>| #![trigger placement_chain(states, items)]
        placement_chain(states, items) && states[0] == before && states[items.len() as int] == after
}

/// Two cells that are both the first free spawn cell are the same cell.
proof fn lemma_first_free_spawn_cell_unique(grid: Grid<ObstacleType>, rect: CellRect, p: [u32; 2], q: [u32; 2])
    requires
        first_free_spawn_cell(grid, rect, p),
        first_free_spawn_cell(grid, rect, q),
    ensures
        p == q,
{
    if scans_before(p, q) {
        assert(grid.cell(p) != Some(ObstacleType::Free));
    } else if scans_before(q, p) {
        assert(grid.cell(q) != Some(ObstacleType::Free));
    } else {
        assert(p =~= q);
    }
}

/// Whether `a` comes before `b` when cells are walked column by column, each from the top.
pub open spec fn scans_before(a: [u32; 2], b: [u32; 2]) -> bool {
    a[0] < b[0] || (a[0] == b[0] && a[1] < b[1])
}

impl Core {
    /// Creates the simulation: every team that has an entity starts with the same resources;
    /// water cells and the entities' cells are marked on the grid.
    pub fn new(entities: Vec<Entity>, world_dimensions: [u32; 2], water_cells: Vec<[u32; 2]>) -> (core:
        Self)
        requires
            valid_dimensions(world_dimensions),
            forall|k: int| 0 <= k < water_cells@.len() ==> in_bounds(world_dimensions, #[trigger] water_cells@[k]),
            forall|k: int| 0 <= k < entities@.len() ==> admissible_entity(#[trigger] entities@[k], world_dimensions),
            forall|k: int| 0 <= k < entities@.len() ==> (#[trigger] entities@[k]).id.0 < usize::MAX,
            forall|a: int, b: int|
                0 <= a < entities@.len() && 0 <= b < entities@.len() ==> attack_target_ok(
                    #[trigger] entities@[a],
                    #[trigger] entities@[b],
                ),
            ids_unique(entities@),
        ensures
            core.wf(),
            core.spec_entities() == entities@,
            core.spec_grid().spec_dimensions() == world_dimensions,
            forall|cell: [u32; 2]| in_bounds(world_dimensions, cell) ==> #[trigger] core.spec_grid().cell(cell) == Some(
                initial_obstacle(entities@, water_cells@, cell),
            ),
            forall|team: Team| #[trigger] core.resources(team) == if exists|k: int| 0 <= k < entities@.len() && entities@[k].team == team {
                Some(STARTING_RESOURCES)
            } else {
                None
            },
    {
        let mut teams: Vec<(Team, TeamState)> = Vec::new();
        let mut next_entity_id: usize = 0;
        let n = entities.len();
        let mut i: usize = 0;
        while i < n
            invariant
                n == entities@.len(),
                i <= n,
                teams_unique(teams@),
                forall|k: int| 0 <= k < teams@.len() ==> (#[trigger] teams@[k]).1.resources == STARTING_RESOURCES,
                forall|team: Team| #[trigger] team_listed(teams@, team) <==> team_among(entities@, i as int, team),
                forall|k: int| 0 <= k < entities@.len() ==> (#[trigger] entities@[k]).id.0 < usize::MAX,
                forall|k: int| 0 <= k < i ==> (#[trigger] entities@[k]).id.0 < next_entity_id,
                forall|k: int| 0 <= k < i ==> (attack_target(#[trigger] entities@[k]) matches Some(v) ==> v.0 < next_entity_id),
                forall|k: int| 0 <= k < entities@.len() ==> admissible_entity(#[trigger] entities@[k], world_dimensions),
                next_entity_id <= usize::MAX,
            decreases n - i,
        {
            let team = entities[i].team;
            let mut known = false;
            let mut j: usize = 0;
            while j < teams.len()
                invariant
                    j <= teams@.len(),
                    known <==> exists|k: int| 0 <= k < j && teams@[k].0 == team,
                decreases teams@.len() - j,
            {
                if teams[j].0 == team {
                    known = true;
                }
                j = j + 1;
            }
            let ghost before = teams@;
            if !known {
                teams.push((team, TeamState { resources: STARTING_RESOURCES }));
            }
            proof {
                if !known {
                    assert(teams@ == before.push((team, TeamState { resources: STARTING_RESOURCES })));
                    assert(teams@[teams@.len() - 1].0 == team);
                }
                assert forall|team2: Team| #[trigger] team_listed(teams@, team2) <==> team_listed(before, team2) || team2 == team by {
                    if team2 == team && known {
                        let k = choose|k: int| 0 <= k < before.len() && before[k].0 == team;
                        assert(teams@[k].0 == team2);
                    }
                    if team_listed(teams@, team2) && team2 != team {
                        let k = choose|k: int| 0 <= k < teams@.len() && teams@[k].0 == team2;
                        assert(before[k].0 == team2);
                    }
                    if team_listed(before, team2) {
                        let k = choose|k: int| 0 <= k < before.len() && before[k].0 == team2;
                        assert(teams@[k].0 == team2);
                    }
                }
                assert forall|team2: Team| #[trigger] team_listed(teams@, team2) <==> team_among(entities@, i + 1, team2) by {
                    if team_among(entities@, i + 1, team2) && !team_among(entities@, i as int, team2) {
                        assert(entities@[i as int].team == team2);
                    }
                    if team_among(entities@, i as int, team2) {
                        let k = choose|k: int| 0 <= k < i && entities@[k].team == team2;
                        assert(0 <= k < i + 1 && entities@[k].team == team2);
                    }
                }
            }
            if entities[i].id.0 >= next_entity_id {
                next_entity_id = entities[i].id.0 + 1;
            }
            let victim: Option<EntityId> = match entities[i].state {
                EntityState::MovingToAttackTarget(v) => Some(v),
                EntityState::Attacking(v) => Some(v),
                _ => None,
            };
            proof {
                assert(admissible_entity(entities@[i as int], world_dimensions));
            }
            if let Some(v) = victim {
                if v.0 >= next_entity_id {
                    next_entity_id = v.0 + 1;
                }
            }
            i = i + 1;
        }
        let mut obstacle_grid: Grid<ObstacleType> = Grid::new(world_dimensions);
        let ghost water = water_cells@;
        let w = water_cells.len();
        let mut k: usize = 0;
        while k < w
            invariant
                w == water.len(),
                water == water_cells@,
                k <= w,
                obstacle_grid.wf(),
                obstacle_grid.spec_dimensions() == world_dimensions,
                forall|k2: int| 0 <= k2 < water.len() ==> in_bounds(world_dimensions, #[trigger] water[k2]),
                forall|cell: [u32; 2]| #[trigger] obstacle_grid.cell(cell) == if in_bounds(world_dimensions, cell) {
                    Some(if water_upto(water, k as int, cell) { ObstacleType::Water } else { ObstacleType::Free })
                } else {
                    None
                },
            decreases w - k,
        {
            obstacle_grid.set(water_cells[k], ObstacleType::Water);
            proof {
                assert forall|cell: [u32; 2]| #[trigger] water_upto(water, k + 1, cell) == (water_upto(water, k as int, cell) || cell == water[k as int]) by {
                    if cell == water[k as int] {
                        assert(0 <= k < k + 1 && water[k as int] == cell);
                    }
                }
            }
            k = k + 1;
        }
        assert forall|cell: [u32; 2]| #[trigger] water_upto(water, w as int, cell) == water.contains(cell) by {
        }
        let mut e: usize = 0;
        while e < n
            invariant
                n == entities@.len(),
                e <= n,
                obstacle_grid.wf(),
                obstacle_grid.spec_dimensions() == world_dimensions,
                forall|k2: int| 0 <= k2 < entities@.len() ==> admissible_entity(#[trigger] entities@[k2], world_dimensions),
                forall|cell: [u32; 2]| #[trigger] obstacle_grid.cell(cell) == if in_bounds(world_dimensions, cell) {
                    Some(initial_obstacle(entities@.subrange(0, e as int), water, cell))
                } else {
                    None
                },
            decreases n - e,
        {
            let rect = entities[e].cell_rect();
            let team = entities[e].team;
            obstacle_grid.set_area(rect, ObstacleType::Entity(team));
            proof {
                let prefix = entities@.subrange(0, e + 1);
                assert(prefix.drop_last() =~= entities@.subrange(0, e as int));
                assert(prefix.last() == entities@[e as int]);
                assert forall|cell: [u32; 2]| #[trigger] obstacle_grid.cell(cell) == if in_bounds(world_dimensions, cell) {
                    Some(initial_obstacle(prefix, water, cell))
                } else {
                    None
                } by {
                    if rect.spec_contains(cell) {
                        assert(in_bounds(world_dimensions, cell));
                    }
                }
            }
            e = e + 1;
        }
        assert(entities@.subrange(0, n as int) =~= entities@);
        let structure_sizes = data::structure_sizes();
        let core = Self { teams, entities, obstacle_grid, structure_sizes, next_entity_id };
        proof {
            let es = core.entities@;
            assert forall|a: int| 0 <= a < es.len() implies team_state_of(core.teams@, #[trigger] es[a].team) is Some by {
                assert(team_among(es, n as int, es[a].team));
                assert(team_listed(core.teams@, es[a].team));
            }
            assert forall|a: int| 0 <= a < es.len() implies entity_ok(#[trigger] es[a], world_dimensions, next_entity_id) by {
                assert(admissible_entity(es[a], world_dimensions));
            }
            assert forall|team: Team| #[trigger] core.resources(team) == if exists|k: int| 0 <= k < es.len() && es[k].team == team {
                Some(STARTING_RESOURCES)
            } else {
                None
            } by {
                assert(team_listed(core.teams@, team) <==> team_among(es, n as int, team));
                if team_listed(core.teams@, team) {
                    let k = choose|k: int| 0 <= k < core.teams@.len() && core.teams@[k].0 == team;
                    assert(core.teams@[k].1.resources == STARTING_RESOURCES);
                }
            }
        }
        core
    }

    /// The state of a known team.
    pub fn team_state_unchecked(&self, team: &Team) -> (state: TeamState)
        requires
            self.wf(),
            self.resources(*team) is Some,
        ensures
            Some(state.resources) == self.resources(*team),
    {
        self.team_state(team).unwrap()
    }

    /// The state of a team, or `None` for a team without entities at the start.
    pub fn team_state(&self, team: &Team) -> (state: Option<TeamState>)
        requires
            self.wf(),
        ensures
            match state {
                Some(s) => Some(s.resources) == self.resources(*team),
                None => self.resources(*team) is None,
            },
    {
        match self.team_index(*team) {
            Some(i) => Some(self.teams[i].1),
            None => None,
        }
    }

    fn team_index(&self, team: Team) -> (index: Option<usize>)
        requires
            teams_unique(self.teams@),
        ensures
            match index {
                Some(i) => i < self.teams@.len() && self.teams@[i as int].0 == team && team_state_of(self.teams@, team) == Some(self.teams@[i as int].1),
                None => team_state_of(self.teams@, team) is None,
            },
    {
        let mut i: usize = 0;
        while i < self.teams.len()
            invariant
                i <= self.teams@.len(),
                teams_unique(self.teams@),
                forall|k: int| 0 <= k < i ==> self.teams@[k].0 != team,
            decreases self.teams@.len() - i,
        {
            if self.teams[i].0 == team {
                proof {
                    let k = choose|k: int| 0 <= k < self.teams@.len() && self.teams@[k].0 == team;
                    assert(k == i as int) by {
                        if k != i as int {
                            assert(self.teams@[k].0 != self.teams@[i as int].0);
                        }
                    }
                }
                return Some(i);
            }
            i = i + 1;
        }
        None
    }

    /// Gives a known team more resources, stopping at `u32::MAX`.
    fn add_resources(&mut self, team: Team, amount: u32)
        requires
            old(self).wf(),
            old(self).resources(team) is Some,
        ensures
            final(self).wf(),
            final(self).resources(team) == Some(
                (if old(self).resources(team)->Some_0 + amount > u32::MAX {
                    u32::MAX as int
                } else {
                    old(self).resources(team)->Some_0 + amount
                }) as u32,
            ),
            forall|t: Team| t != team ==> #[trigger] final(self).resources(t) == old(self).resources(t),
            final(self).spec_entities() == old(self).spec_entities(),
            final(self).spec_grid() == old(self).spec_grid(),
            final(self).spec_next_id() == old(self).spec_next_id(),
    {
        let i = self.team_index(team).unwrap();
        let current = self.teams[i].1.resources;
        self.teams.set(i, (team, TeamState { resources: current.saturating_add(amount) }));
        proof {
            self.lemma_teams_set(*old(self), i as int);
        }
    }

    /// Takes resources from a known team that has enough.
    fn spend_resources(&mut self, team: Team, amount: u32)
        requires
            old(self).wf(),
            old(self).resources(team) matches Some(r) && r >= amount,
        ensures
            final(self).wf(),
            final(self).resources(team) == Some((old(self).resources(team)->Some_0 - amount) as u32),
            forall|t: Team| t != team ==> #[trigger] final(self).resources(t) == old(self).resources(t),
            final(self).spec_entities() == old(self).spec_entities(),
            final(self).spec_grid() == old(self).spec_grid(),
            final(self).spec_next_id() == old(self).spec_next_id(),
    {
        let i = self.team_index(team).unwrap();
        let current = self.teams[i].1.resources;
        self.teams.set(i, (team, TeamState { resources: current - amount }));
        proof {
            self.lemma_teams_set(*old(self), i as int);
        }
    }

    /// Replacing the state at one team's entry leaves the other teams and the invariants alone.
    proof fn lemma_teams_set(&self, before: Core, i: int)
        requires
            before.wf(),
            0 <= i < before.teams@.len(),
            self.teams@.len() == before.teams@.len(),
            self.teams@ == before.teams@.update(i, (before.teams@[i].0, self.teams@[i].1)),
            self.entities == before.entities,
            self.obstacle_grid == before.obstacle_grid,
            self.structure_sizes == before.structure_sizes,
            self.next_entity_id == before.next_entity_id,
        ensures
            self.wf(),
            self.resources(before.teams@[i].0) == Some(self.teams@[i].1.resources),
            forall|t: Team| t != before.teams@[i].0 ==> #[trigger] self.resources(t) == before.resources(t),
    {
        let team = before.teams@[i].0;
        assert forall|t: Team| #[trigger] team_listed(self.teams@, t) == team_listed(before.teams@, t) by {
            if team_listed(self.teams@, t) {
                let k = choose|k: int| 0 <= k < self.teams@.len() && self.teams@[k].0 == t;
                assert(before.teams@[k].0 == t);
            }
            if team_listed(before.teams@, t) {
                let k = choose|k: int| 0 <= k < before.teams@.len() && before.teams@[k].0 == t;
                assert(self.teams@[k].0 == t);
            }
        }
        assert(teams_unique(self.teams@)) by {
            assert forall|a: int, b: int| 0 <= a < self.teams@.len() && 0 <= b < self.teams@.len() && a != b implies self.teams@[a].0 != self.teams@[b].0 by {
                assert(before.teams@[a].0 != before.teams@[b].0);
            }
        }
        let es = self.entities@;
        assert forall|a: int| 0 <= a < es.len() implies team_state_of(self.teams@, #[trigger] es[a].team) is Some by {
            assert(team_state_of(before.teams@, es[a].team) is Some);
            assert(team_listed(before.teams@, es[a].team));
            assert(team_listed(self.teams@, es[a].team));
        }
        let k = choose|k: int| 0 <= k < self.teams@.len() && self.teams@[k].0 == team;
        assert(k == i) by {
            if k != i {
                assert(before.teams@[k].0 != before.teams@[i].0);
            }
        }
        assert forall|t: Team| t != team implies #[trigger] self.resources(t) == before.resources(t) by {
            if team_listed(self.teams@, t) {
                let k1 = choose|k: int| 0 <= k < self.teams@.len() && self.teams@[k].0 == t;
                let k2 = choose|k: int| 0 <= k < before.teams@.len() && before.teams@[k].0 == t;
                assert(k1 == k2) by {
                    if k1 != k2 {
                        assert(before.teams@[k1].0 != before.teams@[k2].0);
                    }
                }
                assert(k1 != i);
            }
        }
    }

    pub fn entities(&self) -> (entities: &[Entity])
        ensures
            entities@ == self.spec_entities(),
    {
        self.entities.as_slice()
    }

    pub fn dimensions(&self) -> (dimensions: [u32; 2])
        ensures
            dimensions == self.spec_grid().spec_dimensions(),
    {
        self.obstacle_grid.dimensions()
    }

    /// The size of a structure type.
    pub fn structure_size(&self, structure_type: &EntityType) -> (size: [u32; 2])
        requires
            self.wf(),
            is_structure_type(*structure_type),
        ensures
            size == spec_entity_size(*structure_type),
    {
        let n = self.structure_sizes.len();
        let mut i: usize = 0;
        while i < n
            invariant
                n == self.structure_sizes@.len(),
                self.structure_sizes@ == seq![
                    (EntityType::BattleAcademy, [3u32, 3u32]),
                    (EntityType::TechLab, [3u32, 3u32]),
                ],
                i <= n,
                forall|k: int| 0 <= k < i ==> self.structure_sizes@[k].0 != *structure_type,
            decreases n - i,
        {
            if self.structure_sizes[i].0 == *structure_type {
                return self.structure_sizes[i].1;
            }
            i = i + 1;
        }
        proof {
            assert(self.structure_sizes@[0].0 == EntityType::BattleAcademy);
            assert(self.structure_sizes@[1].0 == EntityType::TechLab);
        }
        vstd::pervasive::unreached()
    }

    pub fn obstacle_grid(&self) -> (grid: &Grid<ObstacleType>)
        ensures
            *grid == self.spec_grid(),
    {
        &self.obstacle_grid
    }

    /// Whether a structure of the given size fits at `structure_position`: every cell it
    /// would cover is in the grid and free, except the one the worker stands on, which the
    /// worker leaves when the structure goes up.
    pub fn can_structure_fit(
        &self,
        worker_position: [u32; 2],
        structure_position: [u32; 2],
        structure_size: [u32; 2],
    ) -> (can_fit: bool)
        requires
            self.wf(),
            structure_position[0] + structure_size[0] <= u32::MAX,
            structure_position[1] + structure_size[1] <= u32::MAX,
        ensures
            can_fit == structure_fits(
                self.spec_grid(),
                worker_position,
                CellRect { position: structure_position, size: structure_size },
            ),
    {
        let ghost rect = CellRect { position: structure_position, size: structure_size };
        let mut can_fit = true;
        let x_end = structure_position[0] + structure_size[0];
        let y_end = structure_position[1] + structure_size[1];
        let mut x = structure_position[0];
        while x < x_end
            invariant
                self.obstacle_grid.wf(),
                rect == (CellRect { position: structure_position, size: structure_size }),
                structure_position[0] <= x <= x_end,
                x_end == structure_position[0] + structure_size[0],
                y_end == structure_position[1] + structure_size[1],
                can_fit == forall|px: u32, py: u32|
                    #[trigger] rect_has(rect, px, py) && px < x && [px, py] != worker_position ==> self.obstacle_grid.cell([px, py]) == Some(ObstacleType::Free),
            decreases x_end - x,
        {
            let mut y = structure_position[1];
            while y < y_end
                invariant
                    self.obstacle_grid.wf(),
                    rect == (CellRect { position: structure_position, size: structure_size }),
                    structure_position[0] <= x < x_end,
                    structure_position[1] <= y <= y_end,
                    x_end == structure_position[0] + structure_size[0],
                    y_end == structure_position[1] + structure_size[1],
                    can_fit == forall|px: u32, py: u32|
                        #[trigger] rect_has(rect, px, py) && (px < x || (px == x && py < y)) && [px, py] != worker_position ==> self.obstacle_grid.cell([px, py]) == Some(ObstacleType::Free),
                decreases y_end - y,
            {
                let ghost before = can_fit;
                if !(x == worker_position[0] && y == worker_position[1]) {
                    let is_occupied = match self.obstacle_grid.get(&[x, y]) {
                        Some(ObstacleType::Free) => false,
                        _ => true,
                    };
                    if is_occupied {
                        can_fit = false;
                    }
                    proof {
                        assert([x, y] != worker_position);
                        assert(rect_has(rect, x, y));
                    }
                } else {
                    proof {
                        assert([x, y] =~= worker_position);
                    }
                }
                y = y + 1;
            }
            x = x + 1;
        }
        can_fit
    }

    /// Adds a new idle entity with the next free id; nothing happens once ids have run out.
    fn spawn_entity(&mut self, entity_type: EntityType, position: [u32; 2], team: Team) -> (id:
        Option<EntityId>)
        requires
            old(self).wf(),
            old(self).resources(team) is Some,
            rect_fits(
                CellRect { position, size: spec_entity_size(entity_type) },
                old(self).spec_grid().spec_dimensions(),
            ),
        ensures
            final(self).wf(),
            final(self).spec_grid() == old(self).spec_grid(),
            forall|t: Team| #[trigger] final(self).resources(t) == old(self).resources(t),
            old(self).spec_next_id() < usize::MAX ==> {
                &&& id == Some(EntityId(old(self).spec_next_id()))
                &&& final(self).spec_next_id() == old(self).spec_next_id() + 1
                &&& final(self).spec_entities().len() == old(self).spec_entities().len() + 1
                &&& final(self).spec_entities().drop_last() == old(self).spec_entities()
                &&& final(self).spec_entities().last().id == EntityId(old(self).spec_next_id())
                &&& final(self).spec_entities().last().entity_type == entity_type
                &&& final(self).spec_entities().last().position == position
                &&& final(self).spec_entities().last().team == team
                &&& final(self).spec_entities().last().state is Idle
                &&& final(self).spec_entities().last().spec_size() == spec_entity_size(entity_type)
                &&& final(self).spec_entities().last().health == data::spec_initial_health(entity_type)
                &&& data::is_created(final(self).spec_entities().last(), EntityId(old(self).spec_next_id()), entity_type, position, team)
            },
            old(self).spec_next_id() == usize::MAX ==> {
                &&& id is None
                &&& final(self).spec_entities() == old(self).spec_entities()
                &&& final(self).spec_next_id() == old(self).spec_next_id()
            },
    {
        if self.next_entity_id == usize::MAX {
            return None;
        }
        let id = EntityId(self.next_entity_id);
        let entity = data::create_entity(id, entity_type, position, team);
        let ghost before = self.entities@;
        let ghost dims = self.obstacle_grid.spec_dimensions();
        self.entities.push(entity);
        self.next_entity_id = self.next_entity_id + 1;
        proof {
            let es = self.entities@;
            let n = before.len() as int;
            assert(es.drop_last() =~= before);
            assert(es[n] == entity);
            assert forall|a: int, b: int| 0 <= a < es.len() && 0 <= b < es.len() && a != b implies es[a].id != es[b].id by {
                if a < n && b < n {
                    assert(before[a].id != before[b].id);
                } else if a < n {
                    assert(entity_ok(before[a], dims, old(self).next_entity_id));
                } else {
                    assert(entity_ok(before[b], dims, old(self).next_entity_id));
                }
            }
            assert forall|a: int| 0 <= a < es.len() implies entity_ok(#[trigger] es[a], dims, self.next_entity_id) by {
                if a < n {
                    assert(entity_ok(before[a], dims, old(self).next_entity_id));
                }
            }
            assert forall|a: int| 0 <= a < es.len() implies team_state_of(self.teams@, #[trigger] es[a].team) is Some by {
                if a < n {
                    assert(team_state_of(self.teams@, before[a].team) is Some);
                }
            }
            assert forall|a: int, b: int| 0 <= a < es.len() && 0 <= b < es.len() implies attack_target_ok(
                #[trigger] es[a],
                #[trigger] es[b],
            ) by {
                if a < n && b < n {
                    assert(attack_target_ok(before[a], before[b]));
                } else if a < n {
                    assert(entity_ok(before[a], dims, old(self).next_entity_id));
                }
            }
        }
        Some(id)
    }

    /// Places a freshly trained unit on the first free cell around `source_rect` (column by
    /// column from the top left), if there is one, and returns that cell.
    fn try_add_trained_entity(
        &mut self,
        entity_type: EntityType,
        team: Team,
        source_rect: CellRect,
    ) -> (position: Option<[u32; 2]>)
        requires
            old(self).wf(),
            old(self).resources(team) is Some,
            crate::data::is_unit_type(entity_type),
            rect_fits(source_rect, old(self).spec_grid().spec_dimensions()),
            source_rect.size[0] > 0 && source_rect.size[1] > 0,
        ensures
            trained_placed(*old(self), *final(self), (entity_type, team, source_rect)),
            forall|c: [u32; 2]| #[trigger] final(self).spec_grid().cell(c) != old(self).spec_grid().cell(c)
                ==> covered_by_added(final(self).spec_entities(), old(self).spec_entities().len() as int, c),
            final(self).wf(),
            forall|t: Team| #[trigger] final(self).resources(t) == old(self).resources(t),
            final(self).spec_grid().spec_dimensions() == old(self).spec_grid().spec_dimensions(),
            final(self).spec_next_id() >= old(self).spec_next_id(),
            extends_with_fresh(old(self).spec_entities(), final(self).spec_entities(), old(self).spec_next_id()),
            match position {
                Some(p) => {
                    &&& spawn_area_has(source_rect, old(self).spec_grid().spec_dimensions(), p)
                    &&& old(self).spec_grid().cell(p) == Some(ObstacleType::Free)
                    &&& forall|c: [u32; 2]| #![trigger old(self).spec_grid().cell(c)]
                        spawn_area_has(source_rect, old(self).spec_grid().spec_dimensions(), c)
                            && scans_before(c, p) ==> old(self).spec_grid().cell(c) != Some(ObstacleType::Free)
                    &&& old(self).spec_next_id() < usize::MAX ==> {
                        &&& final(self).spec_entities().len() == old(self).spec_entities().len() + 1
                        &&& final(self).spec_entities().drop_last() == old(self).spec_entities()
                        &&& final(self).spec_entities().last().id == EntityId(old(self).spec_next_id())
                        &&& final(self).spec_entities().last().entity_type == entity_type
                        &&& final(self).spec_entities().last().position == p
                        &&& final(self).spec_entities().last().team == team
                        &&& final(self).spec_entities().last().state is Idle
                        &&& final(self).spec_grid().cell(p) == Some(ObstacleType::Entity(team))
                    }
                },
                None => {
                    &&& forall|c: [u32; 2]| #![trigger old(self).spec_grid().cell(c)]
                        spawn_area_has(source_rect, old(self).spec_grid().spec_dimensions(), c)
                            ==> old(self).spec_grid().cell(c) != Some(ObstacleType::Free)
                    &&& *final(self) == *old(self)
                },
            },
    {
        let ghost start = *self;
        let dims = self.obstacle_grid.dimensions();
        proof {
            self.obstacle_grid.lemma_dimensions();
        }
        let left = source_rect.position[0].saturating_sub(1);
        let top = source_rect.position[1].saturating_sub(1);
        let right_edge = source_rect.position[0] + source_rect.size[0];
        let bottom_edge = source_rect.position[1] + source_rect.size[1];
        let right = if right_edge < dims[0] - 1 {
            right_edge
        } else {
            dims[0] - 1
        };
        let bot = if bottom_edge < dims[1] - 1 {
            bottom_edge
        } else {
            dims[1] - 1
        };
        let mut x = left;
        while x <= right
            invariant
                self.wf(),
                *self == start,
                start == *old(self),
                dims == self.obstacle_grid.spec_dimensions(),
                left <= x <= right + 1,
                top <= bot + 1,
                right < dims[0],
                bot < dims[1],
                crate::data::is_unit_type(entity_type),
                self.resources(team) is Some,
                left == (if source_rect.position[0] > 0 { source_rect.position[0] - 1 } else { 0 }),
                top == (if source_rect.position[1] > 0 { source_rect.position[1] - 1 } else { 0 }),
                right == (if source_rect.position[0] + source_rect.size[0] < dims[0] - 1 {
                    source_rect.position[0] + source_rect.size[0]
                } else {
                    dims[0] - 1
                }),
                bot == (if source_rect.position[1] + source_rect.size[1] < dims[1] - 1 {
                    source_rect.position[1] + source_rect.size[1]
                } else {
                    dims[1] - 1
                }),
                forall|c: [u32; 2]| #![trigger start.spec_grid().cell(c)]
                    spawn_area_has(source_rect, dims, c) && c[0] < x ==> start.spec_grid().cell(c)
                        != Some(ObstacleType::Free),
            decreases right + 1 - x,
        {
            let mut y = top;
            while y <= bot
                invariant
                    self.wf(),
                    *self == start,
                    start == *old(self),
                    dims == self.obstacle_grid.spec_dimensions(),
                    left <= x <= right,
                    top <= y <= bot + 1,
                    right < dims[0],
                    bot < dims[1],
                    crate::data::is_unit_type(entity_type),
                    self.resources(team) is Some,
                    left == (if source_rect.position[0] > 0 { source_rect.position[0] - 1 } else { 0 }),
                    top == (if source_rect.position[1] > 0 { source_rect.position[1] - 1 } else { 0 }),
                    right == (if source_rect.position[0] + source_rect.size[0] < dims[0] - 1 {
                        source_rect.position[0] + source_rect.size[0]
                    } else {
                        dims[0] - 1
                    }),
                    bot == (if source_rect.position[1] + source_rect.size[1] < dims[1] - 1 {
                        source_rect.position[1] + source_rect.size[1]
                    } else {
                        dims[1] - 1
                    }),
                    forall|c: [u32; 2]| #![trigger start.spec_grid().cell(c)]
                        spawn_area_has(source_rect, dims, c) && scans_before(c, [x, y])
                            ==> start.spec_grid().cell(c) != Some(ObstacleType::Free),
                decreases bot + 1 - y,
            {
                let is_free = match self.obstacle_grid.get(&[x, y]) {
                    Some(ObstacleType::Free) => true,
                    _ => false,
                };
                if is_free {
                    proof {
                        assert(spawn_area_has(source_rect, dims, [x, y]));
                    }
                    let ghost before = *self;
                    let spawned = self.spawn_entity(entity_type, [x, y], team);
                    if spawned.is_some() {
                        let rect = CellRect { position: [x, y], size: [1, 1] };
                        let ghost mid = *self;
                        proof {
                            assert forall|p: [u32; 2]| #[trigger] rect.spec_contains(p) implies mid.spec_grid().cell(p) == Some(ObstacleType::Free) by {
                                assert(p =~= [x, y]);
                            }
                        }
                        self.obstacle_grid.set_area(rect, ObstacleType::Entity(team));
                        proof {
                            assert(mid.wf());
                            self.lemma_grid_changed(mid);
                            assert(rect.spec_contains([x, y]));
                            assert(self.obstacle_grid.spec_dimensions() == start.obstacle_grid.spec_dimensions());
                            assert forall|t: Team| #[trigger] self.resources(t) == start.resources(t) by {
                                assert(self.resources(t) == mid.resources(t));
                                assert(mid.resources(t) == before.resources(t));
                            }
                            assert(self.entities@.subrange(0, before.entities@.len() as int) =~= before.entities@);
                            let last = self.entities@.len() - 1;
                            assert forall|c: [u32; 2]| #[trigger] self.spec_grid().cell(c) != start.spec_grid().cell(c)
                                implies covered_by_added(self.entities@, start.entities@.len() as int, c) by {
                                assert(rect.spec_contains(c));
                                assert(c =~= [x, y]);
                                assert(entity_ok(self.entities@[last], self.obstacle_grid.spec_dimensions(), self.next_entity_id));
                                assert(self.entities@[last].spec_cell_rect().spec_contains(c));
                            }
                        }
                    } else {
                        proof {
                            assert(self.entities@.subrange(0, before.entities@.len() as int) =~= before.entities@);
                        }
                    }
                    proof {
                        if spawned.is_some() {
                            assert forall|c: [u32; 2]| #[trigger] self.spec_grid().cell(c) == if c == [x, y] {
                                Some(ObstacleType::Entity(team))
                            } else {
                                start.spec_grid().cell(c)
                            } by {
                                let rect = CellRect { position: [x, y], size: [1, 1] };
                                if rect.spec_contains(c) {
                                    assert(c =~= [x, y]);
                                }
                            }
                        }
                        assert(before.spec_entities() == start.spec_entities());
                        assert(before.spec_grid() == start.spec_grid());
                        assert(first_free_spawn_cell(start.spec_grid(), source_rect, [x, y]));
                        let p = choose|p: [u32; 2]| first_free_spawn_cell(start.spec_grid(), source_rect, p);
                        lemma_first_free_spawn_cell_unique(start.spec_grid(), source_rect, p, [x, y]);
                        if start.spec_next_id() < usize::MAX {
                            assert(self.spec_entities().drop_last() =~= start.spec_entities());
                        }
                    }
                    return Some([x, y]);
                }
                proof {
                    assert forall|c: [u32; 2]| #![trigger start.spec_grid().cell(c)]
                        spawn_area_has(source_rect, dims, c) && scans_before(c, [x, (y + 1) as u32])
                            implies start.spec_grid().cell(c) != Some(ObstacleType::Free) by {
                        if c[0] == x && c[1] == y {
                            assert(c =~= [x, y]);
                        }
                    }
                }
                y = y + 1;
            }
            proof {
                assert forall|c: [u32; 2]| #![trigger start.spec_grid().cell(c)]
                    spawn_area_has(source_rect, dims, c) && c[0] < x + 1
                        implies start.spec_grid().cell(c) != Some(ObstacleType::Free) by {
                    if c[0] == x {
                        assert(scans_before(c, [x, y]));
                    }
                }
            }
            x = x + 1;
        }
        proof {
            assert(self.entities@.subrange(0, self.entities@.len() as int) =~= self.entities@);
            if exists|p: [u32; 2]| first_free_spawn_cell(start.spec_grid(), source_rect, p) {
                let p = choose|p: [u32; 2]| first_free_spawn_cell(start.spec_grid(), source_rect, p);
                assert(start.spec_grid().cell(p) == Some(ObstacleType::Free));
            }
        }
        None
    }

    /// Changing only the grid keeps a core well-formed when the grid keeps its dimensions.
    proof fn lemma_grid_changed(&self, before: Core)
        requires
            before.wf(),
            self.obstacle_grid.wf(),
            self.obstacle_grid.spec_dimensions() == before.obstacle_grid.spec_dimensions(),
            self.entities == before.entities,
            self.teams == before.teams,
            self.structure_sizes == before.structure_sizes,
            self.next_entity_id == before.next_entity_id,
        ensures
            self.wf(),
            forall|t: Team| #[trigger] self.resources(t) == before.resources(t),
    {
    }

    /// The index of the entity with the given id.
    fn find_entity(&self, id: EntityId) -> (index: Option<usize>)
        requires
            ids_unique(self.entities@),
        ensures
            match index {
                Some(i) => i < self.entities@.len() && self.entities@[i as int].id == id,
                None => !has_entity(self.entities@, id),
            },
    {
        let n = self.entities.len();
        let mut i: usize = 0;
        while i < n
            invariant
                n == self.entities@.len(),
                i <= n,
                forall|k: int| 0 <= k < i ==> self.entities@[k].id != id,
            decreases n - i,
        {
            if self.entities[i].id == id {
                return Some(i);
            }
            i = i + 1;
        }
        None
    }

    pub closed spec fn spec_entities(&self) -> Seq<Entity> {
        self.entities@
    }

    pub closed spec fn spec_grid(&self) -> Grid<ObstacleType> {
        self.obstacle_grid
    }

    pub closed spec fn spec_teams(&self) -> Seq<(Team, TeamState)> {
        self.teams@
    }

    pub closed spec fn spec_next_id(&self) -> usize {
        self.next_entity_id
    }

    /// The resources a team holds, or `None` for a team without entities at the start.
    pub open spec fn resources(&self, team: Team) -> Option<u32> {
        match team_state_of(self.spec_teams(), team) {
            Some(state) => Some(state.resources),
            None => None,
        }
    }

    pub closed spec fn wf(&self) -> bool {
        &&& self.obstacle_grid.wf()
        &&& teams_unique(self.teams@)
        &&& self.structure_sizes@ == seq![
            (EntityType::BattleAcademy, [3u32, 3u32]),
            (EntityType::TechLab, [3u32, 3u32]),
        ]
        &&& entities_inv(
            self.entities@,
            self.obstacle_grid.spec_dimensions(),
            self.next_entity_id,
            self.teams@,
        )
    }

    /// What a well-formed core offers its callers.
    pub proof fn lemma_wf(&self)
        requires
            self.wf(),
        ensures
            self.spec_grid().wf(),
            valid_dimensions(self.spec_grid().spec_dimensions()),
            ids_unique(self.spec_entities()),
            forall|i: int|
                0 <= i < self.spec_entities().len() ==> entity_ok(
                    #[trigger] self.spec_entities()[i],
                    self.spec_grid().spec_dimensions(),
                    self.spec_next_id(),
                ),
            forall|i: int|
                0 <= i < self.spec_entities().len() ==> self.resources(
                    #[trigger] self.spec_entities()[i].team,
                ) is Some,
    {
        self.obstacle_grid.lemma_dimensions();
        assert forall|i: int| 0 <= i < self.spec_entities().len() implies self.resources(
            #[trigger] self.spec_entities()[i].team,
        ) is Some by {
            assert(team_state_of(self.teams@, self.entities@[i].team) is Some);
        }
    }
}

} // verus!

verus! {

pub enum Command {
    Train(TrainCommand),
    Construct(ConstructCommand),
    Stop(StopCommand),
    Move(MoveCommand),
    Attack(AttackCommand),
    GatherResource(GatherResourceCommand),
    ReturnResource(ReturnResourceCommand),
}

pub struct TrainCommand {
    pub trainer: EntityId,
    pub trained_unit_type: EntityType,
}

pub struct ConstructCommand {
    pub builder: EntityId,
    pub structure_position: [u32; 2],
    pub structure_type: EntityType,
}

pub struct StopCommand {
    pub entity: EntityId,
}

pub struct MoveCommand {
    pub unit: EntityId,
    pub destination: [u32; 2],
}

pub struct AttackCommand {
    pub attacker: EntityId,
    pub victim: EntityId,
}

pub struct GatherResourceCommand {
    pub gatherer: EntityId,
    pub resource: EntityId,
}

pub struct ReturnResourceCommand {
    pub gatherer: EntityId,
    pub structure: Option<EntityId>,
}

impl Command {
    /// The entity that carries out the command.
    pub open spec fn spec_actor(&self) -> EntityId {
        match self {
            Command::Train(c) => c.trainer,
            Command::Construct(c) => c.builder,
            Command::Stop(c) => c.entity,
            Command::Move(c) => c.unit,
            Command::Attack(c) => c.attacker,
            Command::GatherResource(c) => c.gatherer,
            Command::ReturnResource(c) => c.gatherer,
        }
    }

    pub fn actor(&self) -> (actor: EntityId)
        ensures
            actor == self.spec_actor(),
    {
        match self {
            Command::Train(c) => c.trainer,
            Command::Construct(c) => c.builder,
            Command::Stop(c) => c.entity,
            Command::Move(c) => c.unit,
            Command::Attack(c) => c.attacker,
            Command::GatherResource(c) => c.gatherer,
            Command::ReturnResource(c) => c.gatherer,
        }
    }
}

/// `a + b`, stopping at `u32::MAX`.
pub open spec fn saturating_sum(a: u32, b: u32) -> u32 {
    if a + b > u32::MAX {
        u32::MAX
    } else {
        (a + b) as u32
    }
}

/// What a builder on its way to a construction site gets back when it does something else.
pub open spec fn construction_refund(entity: Entity) -> u32 {
    match entity.state {
        EntityState::MovingToConstruction(structure_type, _) => match entity.spec_unit().construction_options {
            Some(options) => match keyed_get(options@, structure_type) {
                Some(config) => config.cost,
                None => 0,
            },
            None => 0,
        },
        _ => 0,
    }
}

impl Core {
    /// What a command needs so that carrying it out cannot fail: its entities exist, the actor
    /// belongs to the issuing team and is able to do what is asked; targets are other
    /// entities (enemies with health for attacks, neutral ones for gathering), and a
    /// movement destination lies in the grid.
    pub open spec fn command_valid(&self, command: Command, issuing_team: Team) -> bool {
        let entities = self.spec_entities();
        let actor_id = command.spec_actor();
        let actor = entity_with_id(entities, actor_id);
        &&& has_entity(entities, actor_id)
        &&& actor.team == issuing_team
        &&& match command {
            Command::Train(c) => actor.training matches Some(training) && training.spec_config(
                c.trained_unit_type,
            ) is Some && crate::data::is_unit_type(c.trained_unit_type),
            Command::Construct(c) => {
                &&& actor.is_unit()
                &&& actor.spec_unit().construction_options matches Some(options) && keyed_get(
                    options@,
                    c.structure_type,
                ) is Some
                &&& is_structure_type(c.structure_type)
                &&& c.structure_position[0] + 3 <= u32::MAX
                &&& c.structure_position[1] + 3 <= u32::MAX
            },
            Command::Stop(_) => actor.is_unit(),
            Command::Move(c) => actor.is_unit() && in_bounds(
                self.spec_grid().spec_dimensions(),
                c.destination,
            ),
            Command::Attack(c) => {
                &&& actor.is_unit()
                &&& actor.spec_unit().combat is Some
                &&& has_entity(entities, c.victim)
                &&& c.victim != actor_id
                &&& entity_with_id(entities, c.victim).team != issuing_team
                &&& entity_with_id(entities, c.victim).health is Some
            },
            Command::GatherResource(c) => {
                &&& actor.is_unit()
                &&& actor.spec_unit().gathering is Some
                &&& has_entity(entities, c.resource)
                &&& c.resource != actor_id
                &&& entity_with_id(entities, c.resource).team == Team::Neutral
            },
            Command::ReturnResource(c) => {
                &&& actor.is_unit()
                &&& actor.spec_unit().gathering is Some
                &&& c.structure matches Some(s) ==> has_entity(entities, s) && s != actor_id
            },
        }
    }
}


/// The core changed nothing but entity `i`, which kept its id, team, health and position.
pub open spec fn changes_only_entity(before: Core, after: Core, i: int) -> bool {
    let old_entities = before.spec_entities();
    let new_entities = after.spec_entities();
    &&& after.spec_grid() == before.spec_grid()
    &&& after.spec_next_id() == before.spec_next_id()
    &&& new_entities.len() == old_entities.len()
    &&& forall|k: int| 0 <= k < new_entities.len() && k != i ==> new_entities[k] == old_entities[k]
    &&& same_identity(old_entities[i], new_entities[i])
    &&& new_entities[i].position == old_entities[i].position
}

proof fn lemma_entity_with_id(entities: Seq<Entity>, i: int)
    requires
        ids_unique(entities),
        0 <= i < entities.len(),
    ensures
        has_entity(entities, entities[i].id),
        entity_with_id(entities, entities[i].id) == entities[i],
{
    let j = choose|j: int| 0 <= j < entities.len() && entities[j].id == entities[i].id;
    assert(j == i) by {
        if j != i {
            assert(entities[j].id != entities[i].id);
        }
    }
}

/// A structure that fits next to a worker standing in the grid lies in the grid.
proof fn lemma_fitting_rect_in_grid(grid: Grid<ObstacleType>, worker: [u32; 2], rect: CellRect)
    requires
        structure_fits(grid, worker, rect),
        in_bounds(grid.spec_dimensions(), worker),
    ensures
        forall|x: u32, y: u32| #[trigger] rect_has(rect, x, y) ==> in_bounds(grid.spec_dimensions(), [x, y]),
{
    assert forall|x: u32, y: u32| #[trigger] rect_has(rect, x, y) implies in_bounds(grid.spec_dimensions(), [x, y]) by {
        if [x, y] != worker {
            grid.lemma_cell_in_bounds([x, y]);
        } else {
            assert([x, y] == worker);
        }
    }
}

/// A structure of `team`.
pub open spec fn is_team_structure(entity: Entity, team: Team) -> bool {
    entity.team == team && entity.physical_type is Structure
}

/// The entity at `j` is the first structure of `team` in the list.
pub open spec fn is_first_structure(entities: Seq<Entity>, team: Team, j: int) -> bool {
    &&& 0 <= j < entities.len()
    &&& is_team_structure(entities[j], team)
    &&& forall|k: int| 0 <= k < j ==> !is_team_structure(#[trigger] entities[k], team)
}

/// What an order to bring a carried resource back does to the unit: it sets out for the
/// structure named, or else for the first structure of its team, along the route there;
/// it idles when there is no such structure or no route to it.
pub open spec fn return_outcome(
    grid: Grid<ObstacleType>,
    entities: Seq<Entity>,
    before: Entity,
    after: Entity,
    structure: Option<EntityId>,
) -> bool {
    let reachable = |target: Entity|
        pathfind::route_exists(grid, before.position, Destination::AdjacentToEntity(target.spec_cell_rect()));
    match after.state {
        EntityState::ReturningResource(s) => {
            let target = entity_with_id(entities, s);
            &&& has_entity(entities, s)
            &&& structure matches Some(given) ==> s == given
            &&& structure is None ==> exists|j: int| is_first_structure(entities, before.team, j) && #[trigger] entities[j].id == s
            &&& pathfind::is_route(
                grid,
                before.position,
                Destination::AdjacentToEntity(target.spec_cell_rect()),
                after.spec_unit().movement_plan.movement_plan@,
            )
        },
        EntityState::Idle => match structure {
            Some(given) => !reachable(entity_with_id(entities, given)),
            None => forall|j: int| #[trigger] is_first_structure(entities, before.team, j) ==> !reachable(entities[j]),
        },
        _ => false,
    }
}

impl Core {
    /// Hands back the construction cost to a builder's team when the builder is on its way
    /// to a construction site.
    fn maybe_repay_construction_cost(&mut self, i: usize)
        requires
            old(self).wf(),
            i < old(self).spec_entities().len(),
        ensures
            final(self).wf(),
            final(self).spec_entities() == old(self).spec_entities(),
            final(self).spec_grid() == old(self).spec_grid(),
            final(self).spec_next_id() == old(self).spec_next_id(),
            final(self).resources(old(self).spec_entities()[i as int].team) == Some(
                saturating_sum(
                    old(self).resources(old(self).spec_entities()[i as int].team)->Some_0,
                    construction_refund(old(self).spec_entities()[i as int]),
                ),
            ),
            forall|t: Team| t != old(self).spec_entities()[i as int].team ==> #[trigger] final(self).resources(t) == old(self).resources(t),
    {
        proof {
            self.lemma_wf();
        }
        let team = self.entities[i].team;
        match self.entities[i].state {
            EntityState::MovingToConstruction(structure_type, _) => {
                let cost = match &self.entities[i].unit().construction_options {
                    Some(options) => crate::entities::keyed_get_exec(options, structure_type).unwrap().cost,
                    None => vstd::pervasive::unreached(),
                };
                self.add_resources(team, cost);
            },
            _ => {
                self.add_resources(team, 0);
            },
        }
    }

    /// Gives a unit that carries a resource the order to bring it to `structure`, or to the
    /// first structure of its team when none is named; the unit idles when there is no such
    /// structure or no way to it.
    fn unit_return_resource(&mut self, i: usize, structure: Option<EntityId>)
        requires
            old(self).wf(),
            i < old(self).spec_entities().len(),
            old(self).spec_entities()[i as int].is_unit(),
            old(self).spec_entities()[i as int].spec_unit().gathering matches Some(g) && g.held_resource is Some,
            structure matches Some(s) ==> has_entity(old(self).spec_entities(), s) && s != old(self).spec_entities()[i as int].id,
        ensures
            final(self).wf(),
            changes_only_entity(*old(self), *final(self), i as int),
            forall|t: Team| #[trigger] final(self).resources(t) == old(self).resources(t),
            return_outcome(
                old(self).spec_grid(),
                old(self).spec_entities(),
                old(self).spec_entities()[i as int],
                final(self).spec_entities()[i as int],
                structure,
            ),
            final(self).spec_entities()[i as int].spec_unit().gathering == old(self).spec_entities()[i as int].spec_unit().gathering,
    {
        proof {
            self.lemma_wf();
        }
        let team = self.entities[i].team;
        let target: Option<usize> = match structure {
            Some(id) => self.find_entity(id),
            None => self.first_structure_of(team),
        };
        let ghost before = *self;
        let ghost dims = self.obstacle_grid.spec_dimensions();
        match target {
            Some(j) => {
                let rect = self.entities[j].cell_rect();
                let structure_id = self.entities[j].id;
                let position = self.entities[i].position;
                proof {
                    assert(entity_ok(self.entities@[j as int], dims, self.next_entity_id));
                    assert(entity_ok(self.entities@[i as int], dims, self.next_entity_id));
                    lemma_entity_with_id(self.entities@, j as int);
                }
                let destination = Destination::AdjacentToEntity(rect);
                match pathfind::find_path(position, destination, &self.obstacle_grid) {
                    Some(plan) => {
                        proof {
                            lemma_route_in_grid(self.obstacle_grid, position, destination, plan@);
                        }
                        self.entities[i].state = EntityState::ReturningResource(structure_id);
                        self.entities[i].unit_mut().movement_plan.set(plan);
                    },
                    None => {
                        self.entities[i].state = EntityState::Idle;
                    },
                }
            },
            None => {
                self.entities[i].state = EntityState::Idle;
            },
        }
        proof {
            assert(self.entities@ == before.entities@.update(i as int, self.entities@[i as int]));
            lemma_entities_update(before.entities@, dims, self.next_entity_id, self.teams@, i as int, self.entities@[i as int]);
        }
    }

    /// The index of the first structure of a team.
    fn first_structure_of(&self, team: Team) -> (index: Option<usize>)
        ensures
            index matches Some(j) ==> is_first_structure(self.entities@, team, j as int),
            index is None ==> forall|k: int| 0 <= k < self.entities@.len() ==> !is_team_structure(#[trigger] self.entities@[k], team),
    {
        let n = self.entities.len();
        let mut j: usize = 0;
        while j < n
            invariant
                n == self.entities@.len(),
                j <= n,
                forall|k: int| 0 <= k < j ==> !is_team_structure(#[trigger] self.entities@[k], team),
            decreases n - j,
        {
            if self.entities[j].team == team && self.entities[j].is_structure() {
                return Some(j);
            }
            j = j + 1;
        }
        None
    }
}


impl Core {
    /// Carries out a command of `issuing_team`: a builder on its way to a construction site
    /// first gets its construction cost back, then the actor trains, builds, stops, moves,
    /// attacks, gathers or returns resources. Reports why a command could not be carried out.
    pub fn issue_command(&mut self, command: Command, issuing_team: Team) -> (error: Option<
        CommandError,
    >)
        requires
            old(self).wf(),
            old(self).command_valid(command, issuing_team),
        ensures
            final(self).wf(),
            exists|i: int|
                0 <= i < old(self).spec_entities().len() && old(self).spec_entities()[i].id
                    == command.spec_actor() && changes_only_entity(*old(self), *final(self), i),
            forall|t: Team| t != issuing_team ==> #[trigger] final(self).resources(t) == old(self).resources(t),
            command_outcome(*old(self), *final(self), command, issuing_team, error),
    {
        let i = self.find_entity(command.actor()).unwrap();
        proof {
            self.lemma_wf();
            lemma_entity_with_id(self.entities@, i as int);
        }
        let ghost start = *self;
        self.maybe_repay_construction_cost(i);
        let ghost repaid = *self;
        let error = match command {
            Command::Train(c) => self.issue_train(i, c.trained_unit_type),
            Command::Construct(c) => self.issue_construct(i, c.structure_position, c.structure_type),
            Command::Stop(_) => {
                self.issue_stop(i);
                None
            },
            Command::Move(c) => self.issue_move(i, c.destination),
            Command::Attack(c) => {
                let j = self.find_entity(c.victim).unwrap();
                proof {
                    lemma_entity_with_id(self.entities@, j as int);
                }
                self.issue_attack(i, j)
            },
            Command::GatherResource(c) => {
                let j = self.find_entity(c.resource).unwrap();
                proof {
                    lemma_entity_with_id(self.entities@, j as int);
                }
                self.issue_gather(i, j)
            },
            Command::ReturnResource(c) => {
                let carrying = match &self.entities[i].unit().gathering {
                    Some(gathering) => gathering.is_carrying(),
                    None => vstd::pervasive::unreached(),
                };
                if carrying {
                    self.unit_return_resource(i, c.structure);
                    None
                } else {
                    Some(CommandError::NotCarryingResource)
                }
            },
        };
        proof {
            assert(changes_only_entity(start, *self, i as int));
        }
        error
    }

    fn issue_train(&mut self, i: usize, unit_type: EntityType) -> (error: Option<CommandError>)
        requires
            old(self).wf(),
            i < old(self).spec_entities().len(),
            old(self).spec_entities()[i as int].training matches Some(t) && t.spec_config(unit_type) is Some,
            crate::data::is_unit_type(unit_type),
        ensures
            final(self).wf(),
            changes_only_entity(*old(self), *final(self), i as int),
            train_outcome(old(self).spec_entities()[i as int], final(self).spec_entities()[i as int], unit_type, old(self).resources(old(self).spec_entities()[i as int].team)->Some_0, final(self).resources(old(self).spec_entities()[i as int].team), error),
            forall|t: Team| t != old(self).spec_entities()[i as int].team ==> #[trigger] final(self).resources(t) == old(self).resources(t),
    {
        proof {
            self.lemma_wf();
        }
        let team = self.entities[i].team;
        let resources = self.team_state_unchecked(&team).resources;
        let cost = match &self.entities[i].training {
            Some(training) => training.config(&unit_type).cost,
            None => vstd::pervasive::unreached(),
        };
        let ghost before = *self;
        let ghost dims = self.obstacle_grid.spec_dimensions();
        if resources >= cost {
            let status = match &mut self.entities[i].training {
                Some(training) => training.try_start(unit_type),
                None => vstd::pervasive::unreached(),
            };
            match status {
                TrainingPerformStatus::NewTrainingStarted => {
                    self.entities[i].state = EntityState::TrainingUnit(unit_type);
                },
                TrainingPerformStatus::AlreadyOngoing => {},
            }
            proof {
                assert(self.entities@ == before.entities@.update(i as int, self.entities@[i as int]));
                assert(entity_ok(before.entities@[i as int], dims, self.next_entity_id));
                lemma_entities_update(before.entities@, dims, self.next_entity_id, self.teams@, i as int, self.entities@[i as int]);
            }
            match status {
                TrainingPerformStatus::NewTrainingStarted => {
                    self.spend_resources(team, cost);
                },
                TrainingPerformStatus::AlreadyOngoing => {},
            }
            None
        } else {
            Some(CommandError::NotEnoughResources)
        }
    }

    fn issue_construct(&mut self, i: usize, structure_position: [u32; 2], structure_type: EntityType) -> (error: Option<CommandError>)
        requires
            old(self).wf(),
            i < old(self).spec_entities().len(),
            old(self).spec_entities()[i as int].is_unit(),
            old(self).spec_entities()[i as int].spec_unit().construction_options matches Some(options) && keyed_get(options@, structure_type) is Some,
            is_structure_type(structure_type),
            structure_position[0] + 3 <= u32::MAX,
            structure_position[1] + 3 <= u32::MAX,
        ensures
            final(self).wf(),
            changes_only_entity(*old(self), *final(self), i as int),
            construct_outcome(*old(self), old(self).spec_entities()[i as int], final(self).spec_entities()[i as int], structure_position, structure_type, final(self).resources(old(self).spec_entities()[i as int].team), error),
            forall|t: Team| t != old(self).spec_entities()[i as int].team ==> #[trigger] final(self).resources(t) == old(self).resources(t),
    {
        proof {
            self.lemma_wf();
        }
        let team = self.entities[i].team;
        let position = self.entities[i].position;
        let cost = match &self.entities[i].unit().construction_options {
            Some(options) => crate::entities::keyed_get_exec(options, structure_type).unwrap().cost,
            None => vstd::pervasive::unreached(),
        };
        let resources = self.team_state_unchecked(&team).resources;
        if resources < cost {
            return Some(CommandError::NotEnoughResources);
        }
        let structure_size = self.structure_size(&structure_type);
        if !self.can_structure_fit(position, structure_position, structure_size) {
            return Some(CommandError::NotEnoughSpaceForStructure);
        }
        let structure_rect = CellRect { position: structure_position, size: structure_size };
        let destination = Destination::AdjacentToEntity(structure_rect);
        let ghost dims = self.obstacle_grid.spec_dimensions();
        proof {
            assert(entity_ok(self.entities@[i as int], dims, self.next_entity_id));
            lemma_fitting_rect_in_grid(self.obstacle_grid, position, structure_rect);
            assert(rect_has(structure_rect, (structure_position[0] + 1) as u32, (structure_position[1] + 1) as u32));
        }
        match pathfind::find_path(position, destination, &self.obstacle_grid) {
            Some(plan) => {
                let ghost before = *self;
                proof {
                    lemma_route_in_grid(self.obstacle_grid, position, destination, plan@);
                }
                self.entities[i].unit_mut().movement_plan.set(plan);
                self.entities[i].state = EntityState::MovingToConstruction(structure_type, structure_position);
                proof {
                    assert(self.entities@ == before.entities@.update(i as int, self.entities@[i as int]));
                    lemma_entities_update(before.entities@, dims, self.next_entity_id, self.teams@, i as int, self.entities@[i as int]);
                }
                self.spend_resources(team, cost);
                None
            },
            None => Some(CommandError::NoPathFound),
        }
    }

    fn issue_stop(&mut self, i: usize)
        requires
            old(self).wf(),
            i < old(self).spec_entities().len(),
            old(self).spec_entities()[i as int].is_unit(),
        ensures
            final(self).wf(),
            changes_only_entity(*old(self), *final(self), i as int),
            forall|t: Team| #[trigger] final(self).resources(t) == old(self).resources(t),
            final(self).spec_entities()[i as int].state is Idle,
            final(self).spec_entities()[i as int].spec_unit().movement_plan.movement_plan@.len() == 0,
    {
        proof {
            self.lemma_wf();
        }
        let ghost before = *self;
        let ghost dims = self.obstacle_grid.spec_dimensions();
        self.entities[i].state = EntityState::Idle;
        self.entities[i].unit_mut().movement_plan.clear();
        proof {
            assert(self.entities@ == before.entities@.update(i as int, self.entities@[i as int]));
            assert(entity_ok(before.entities@[i as int], dims, self.next_entity_id));
            lemma_entities_update(before.entities@, dims, self.next_entity_id, self.teams@, i as int, self.entities@[i as int]);
        }
    }

    fn issue_move(&mut self, i: usize, destination: [u32; 2]) -> (error: Option<CommandError>)
        requires
            old(self).wf(),
            i < old(self).spec_entities().len(),
            old(self).spec_entities()[i as int].is_unit(),
            in_bounds(old(self).spec_grid().spec_dimensions(), destination),
        ensures
            final(self).wf(),
            changes_only_entity(*old(self), *final(self), i as int),
            forall|t: Team| #[trigger] final(self).resources(t) == old(self).resources(t),
            route_outcome(old(self).spec_grid(), old(self).spec_entities()[i as int], final(self).spec_entities()[i as int], Destination::Point(destination), error),
            error is None ==> final(self).spec_entities()[i as int].state is Moving,
    {
        proof {
            self.lemma_wf();
        }
        let position = self.entities[i].position;
        let ghost dims = self.obstacle_grid.spec_dimensions();
        let target = Destination::Point(destination);
        proof {
            assert(entity_ok(self.entities@[i as int], dims, self.next_entity_id));
        }
        match pathfind::find_path(position, target, &self.obstacle_grid) {
            Some(plan) => {
                let ghost before = *self;
                proof {
                    lemma_route_in_grid(self.obstacle_grid, position, target, plan@);
                }
                self.entities[i].state = EntityState::Moving;
                self.entities[i].unit_mut().movement_plan.set(plan);
                proof {
                    assert(self.entities@ == before.entities@.update(i as int, self.entities@[i as int]));
                    lemma_entities_update(before.entities@, dims, self.next_entity_id, self.teams@, i as int, self.entities@[i as int]);
                }
                None
            },
            None => Some(CommandError::NoPathFound),
        }
    }

    fn issue_attack(&mut self, i: usize, j: usize) -> (error: Option<CommandError>)
        requires
            old(self).wf(),
            i < old(self).spec_entities().len(),
            j < old(self).spec_entities().len(),
            i != j,
            old(self).spec_entities()[i as int].is_unit(),
            old(self).spec_entities()[i as int].spec_unit().combat is Some,
            old(self).spec_entities()[j as int].health is Some,
        ensures
            final(self).wf(),
            changes_only_entity(*old(self), *final(self), i as int),
            forall|t: Team| #[trigger] final(self).resources(t) == old(self).resources(t),
            route_outcome(old(self).spec_grid(), old(self).spec_entities()[i as int], final(self).spec_entities()[i as int], Destination::AdjacentToEntity(old(self).spec_entities()[j as int].spec_cell_rect()), error),
            error is None ==> final(self).spec_entities()[i as int].state == EntityState::Attacking(old(self).spec_entities()[j as int].id),
    {
        proof {
            self.lemma_wf();
        }
        let position = self.entities[i].position;
        let victim_rect = self.entities[j].cell_rect();
        let victim_id = self.entities[j].id;
        let ghost dims = self.obstacle_grid.spec_dimensions();
        let target = Destination::AdjacentToEntity(victim_rect);
        proof {
            assert(entity_ok(self.entities@[i as int], dims, self.next_entity_id));
            assert(entity_ok(self.entities@[j as int], dims, self.next_entity_id));
        }
        match pathfind::find_path(position, target, &self.obstacle_grid) {
            Some(plan) => {
                let ghost before = *self;
                proof {
                    lemma_route_in_grid(self.obstacle_grid, position, target, plan@);
                }
                self.entities[i].state = EntityState::Attacking(victim_id);
                self.entities[i].unit_mut().movement_plan.set(plan);
                proof {
                    assert(self.entities@ == before.entities@.update(i as int, self.entities@[i as int]));
                    assert forall|k: int| 0 <= k < before.entities@.len() implies attack_target_ok(self.entities@[i as int], #[trigger] before.entities@[k]) by {
                        if before.entities@[k].id == victim_id {
                            assert(k == j as int) by {
                                if k != j as int {
                                    assert(before.entities@[k].id != before.entities@[j as int].id);
                                }
                            }
                        }
                    }
                    lemma_entities_update(before.entities@, dims, self.next_entity_id, self.teams@, i as int, self.entities@[i as int]);
                }
                None
            },
            None => Some(CommandError::NoPathFound),
        }
    }

    fn issue_gather(&mut self, i: usize, j: usize) -> (error: Option<CommandError>)
        requires
            old(self).wf(),
            i < old(self).spec_entities().len(),
            j < old(self).spec_entities().len(),
            i != j,
            old(self).spec_entities()[i as int].is_unit(),
            old(self).spec_entities()[i as int].spec_unit().gathering is Some,
        ensures
            final(self).wf(),
            changes_only_entity(*old(self), *final(self), i as int),
            forall|t: Team| #[trigger] final(self).resources(t) == old(self).resources(t),
            gather_outcome(old(self).spec_grid(), old(self).spec_entities(), old(self).spec_entities()[i as int], final(self).spec_entities()[i as int], old(self).spec_entities()[j as int], error),
    {
        proof {
            self.lemma_wf();
        }
        let carrying = match &self.entities[i].unit().gathering {
            Some(gathering) => gathering.is_carrying(),
            None => vstd::pervasive::unreached(),
        };
        if carrying {
            self.unit_return_resource(i, None);
            return None;
        }
        let position = self.entities[i].position;
        let resource_rect = self.entities[j].cell_rect();
        let resource_id = self.entities[j].id;
        let ghost dims = self.obstacle_grid.spec_dimensions();
        let target = Destination::AdjacentToEntity(resource_rect);
        proof {
            assert(entity_ok(self.entities@[i as int], dims, self.next_entity_id));
            assert(entity_ok(self.entities@[j as int], dims, self.next_entity_id));
            assert(self.entities@[i as int].id != self.entities@[j as int].id);
        }
        match pathfind::find_path(position, target, &self.obstacle_grid) {
            Some(plan) => {
                let ghost before = *self;
                proof {
                    lemma_route_in_grid(self.obstacle_grid, position, target, plan@);
                }
                self.entities[i].state = EntityState::MovingToResource(resource_id);
                self.entities[i].unit_mut().movement_plan.set(plan);
                proof {
                    assert(self.entities@ == before.entities@.update(i as int, self.entities@[i as int]));
                    lemma_entities_update(before.entities@, dims, self.next_entity_id, self.teams@, i as int, self.entities@[i as int]);
                }
                None
            },
            None => Some(CommandError::NoPathFound),
        }
    }
}

/// What a training order does to the trainer and its team's resources: not enough resources
/// is an error; otherwise a new training starts and is paid for, unless one is going on.
pub open spec fn train_outcome(
    before: Entity,
    after: Entity,
    unit_type: EntityType,
    resources: u32,
    new_resources: Option<u32>,
    error: Option<CommandError>,
) -> bool {
    let cost = before.training->Some_0.spec_config(unit_type)->Some_0.cost;
    if resources < cost {
        &&& error == Some(CommandError::NotEnoughResources)
        &&& after == before
        &&& new_resources == Some(resources)
    } else {
        &&& error is None
        &&& before.training->Some_0.ongoing is Some ==> after == before && new_resources == Some(resources)
        &&& before.training->Some_0.ongoing is None ==> {
            &&& after.state == EntityState::TrainingUnit(unit_type)
            &&& after.training matches Some(t) && t.ongoing is Some
            &&& new_resources == Some((resources - cost) as u32)
        }
    }
}

/// What a construction order does: not enough resources, then no room for the structure,
/// then no way to the site, are errors; otherwise the builder sets out and the cost is paid.
pub open spec fn construct_outcome(
    core: Core,
    before: Entity,
    after: Entity,
    structure_position: [u32; 2],
    structure_type: EntityType,
    new_resources: Option<u32>,
    error: Option<CommandError>,
) -> bool {
    let resources = core.resources(before.team)->Some_0;
    let cost = keyed_get(before.spec_unit().construction_options->Some_0@, structure_type)->Some_0.cost;
    let rect = CellRect { position: structure_position, size: spec_entity_size(structure_type) };
    if resources < cost {
        error == Some(CommandError::NotEnoughResources) && after == before && new_resources == Some(resources)
    } else if !structure_fits(core.spec_grid(), before.position, rect) {
        error == Some(CommandError::NotEnoughSpaceForStructure) && after == before && new_resources == Some(resources)
    } else {
        &&& route_outcome(core.spec_grid(), before, after, Destination::AdjacentToEntity(rect), error)
        &&& error is Some ==> new_resources == Some(resources)
        &&& error is None ==> {
            &&& after.state == EntityState::MovingToConstruction(structure_type, structure_position)
            &&& new_resources == Some((resources - cost) as u32)
        }
    }
}

/// What sending a unit toward `destination` does: it fails with `NoPathFound`, leaving the
/// unit as it was, exactly when no route exists; otherwise the unit's plan is that route.
pub open spec fn route_outcome(
    grid: Grid<ObstacleType>,
    before: Entity,
    after: Entity,
    destination: Destination,
    error: Option<CommandError>,
) -> bool {
    &&& (error is None) == pathfind::route_exists(grid, before.position, destination)
    &&& error is Some ==> error == Some(CommandError::NoPathFound) && after == before
    &&& error is None ==> pathfind::is_route(
        grid,
        before.position,
        destination,
        after.spec_unit().movement_plan.movement_plan@,
    )
}

/// What a gathering order does: a unit that carries a resource brings it back (or idles);
/// otherwise it sets out for the resource, unless there is no way to it.
pub open spec fn gather_outcome(
    grid: Grid<ObstacleType>,
    entities: Seq<Entity>,
    before: Entity,
    after: Entity,
    resource: Entity,
    error: Option<CommandError>,
) -> bool {
    if before.spec_unit().gathering->Some_0.held_resource is Some {
        error is None && return_outcome(grid, entities, before, after, None)
    } else {
        &&& route_outcome(grid, before, after, Destination::AdjacentToEntity(resource.spec_cell_rect()), error)
        &&& error is None ==> after.state == EntityState::MovingToResource(resource.id)
    }
}

/// What a command does to its actor and to the issuing team's resources, after the refund
/// of a construction the actor was on its way to.
pub open spec fn command_outcome(
    before: Core,
    after: Core,
    command: Command,
    issuing_team: Team,
    error: Option<CommandError>,
) -> bool {
    let actor_before = entity_with_id(before.spec_entities(), command.spec_actor());
    let actor_after = entity_with_id(after.spec_entities(), command.spec_actor());
    let refunded = saturating_sum(before.resources(issuing_team)->Some_0, construction_refund(actor_before));
    match command {
        Command::Train(c) => train_outcome(
            actor_before,
            actor_after,
            c.trained_unit_type,
            refunded,
            after.resources(issuing_team),
            error,
        ),
        Command::Construct(c) => {
            let cost = keyed_get(actor_before.spec_unit().construction_options->Some_0@, c.structure_type)->Some_0.cost;
            let rect = CellRect { position: c.structure_position, size: spec_entity_size(c.structure_type) };
            if refunded < cost {
                &&& error == Some(CommandError::NotEnoughResources)
                &&& after.resources(issuing_team) == Some(refunded)
                &&& actor_after == actor_before
            } else if !structure_fits(before.spec_grid(), actor_before.position, rect) {
                &&& error == Some(CommandError::NotEnoughSpaceForStructure)
                &&& after.resources(issuing_team) == Some(refunded)
                &&& actor_after == actor_before
            } else {
                &&& route_outcome(before.spec_grid(), actor_before, actor_after, Destination::AdjacentToEntity(rect), error)
                &&& error is Some ==> after.resources(issuing_team) == Some(refunded)
                &&& error is None ==> {
                    &&& actor_after.state == EntityState::MovingToConstruction(c.structure_type, c.structure_position)
                    &&& after.resources(issuing_team) == Some((refunded - cost) as u32)
                }
            }
        },
        Command::Stop(_) => {
            &&& error is None
            &&& actor_after.state is Idle
            &&& actor_after.spec_unit().movement_plan.movement_plan@.len() == 0
            &&& after.resources(issuing_team) == Some(refunded)
        },
        Command::Move(c) => {
            &&& route_outcome(before.spec_grid(), actor_before, actor_after, Destination::Point(c.destination), error)
            &&& error is None ==> actor_after.state is Moving
            &&& after.resources(issuing_team) == Some(refunded)
        },
        Command::Attack(c) => {
            &&& route_outcome(
                before.spec_grid(),
                actor_before,
                actor_after,
                Destination::AdjacentToEntity(entity_with_id(before.spec_entities(), c.victim).spec_cell_rect()),
                error,
            )
            &&& error is None ==> actor_after.state == EntityState::Attacking(c.victim)
            &&& after.resources(issuing_team) == Some(refunded)
        },
        Command::GatherResource(c) => {
            &&& gather_outcome(before.spec_grid(), before.spec_entities(), actor_before, actor_after, entity_with_id(before.spec_entities(), c.resource), error)
            &&& after.resources(issuing_team) == Some(refunded)
        },
        Command::ReturnResource(c) => {
            &&& (error is None) == (actor_before.spec_unit().gathering->Some_0.held_resource is Some)
            &&& error is Some ==> error == Some(CommandError::NotCarryingResource)
            &&& error is None ==> return_outcome(before.spec_grid(), before.spec_entities(), actor_before, actor_after, c.structure)
            &&& after.resources(issuing_team) == Some(refunded)
        },
    }
}


/// Two lists of entities have the same entities, in the same order, by id, team and health.
pub open spec fn same_roster(a: Seq<Entity>, b: Seq<Entity>) -> bool {
    &&& a.len() == b.len()
    &&& forall|k: int| 0 <= k < a.len() ==> same_identity(#[trigger] a[k], b[k])
}

/// Every team keeps its place, and no team has fewer resources than before.
pub open spec fn resources_kept(before: Core, after: Core) -> bool {
    forall|t: Team| {
        &&& (#[trigger] after.resources(t) is Some) == (before.resources(t) is Some)
        &&& before.resources(t) matches Some(r) ==> after.resources(t)->Some_0 >= r
    }
}

/// The state of a structure under construction, with `remaining` of `total` nanoseconds to
/// go, once `dt` nanoseconds have passed: idle when the time is up.
pub open spec fn construction_step(remaining: u64, total: u64, dt: u64) -> EntityState {
    if remaining <= dt {
        EntityState::Idle
    } else {
        EntityState::UnderConstruction((remaining - dt) as u64, total)
    }
}

/// What the construction phase does to an entity: a structure under construction moves on
/// by `dt` nanoseconds, and its id is among the finished ones exactly when it is done.
pub open spec fn construction_done(before: Entity, after: Entity, finished: Seq<EntityId>, dt: u64) -> bool {
    before.state matches EntityState::UnderConstruction(remaining, total) ==> {
        &&& after.state == construction_step(remaining, total, dt)
        &&& finished.contains(before.id) == (remaining <= dt)
    }
}

proof fn lemma_removal_state_kept(start: Seq<Entity>, mid: Seq<Entity>, k: int)
    requires
        constructions_kept(start, mid),
        start.len() == mid.len(),
        0 <= k < start.len(),
    ensures
        start[k].state is UnderConstruction ==> mid[k].state == start[k].state,
{
}

/// The training of a trainer once `dt` nanoseconds have passed: the time left shrinks, and
/// the training is over when it runs out.
pub open spec fn training_after(ongoing: Option<crate::entities::OngoingTraining>, dt: u64) -> Option<crate::entities::OngoingTraining> {
    match ongoing {
        Some(o) => if o.remaining <= dt {
            None
        } else {
            Some(crate::entities::OngoingTraining { remaining: (o.remaining - dt) as u64 })
        },
        None => None,
    }
}

/// What the training phase does to a structure that trains a unit: its training moves on by
/// `dt` nanoseconds, and once the training is over the structure is idle.
pub open spec fn training_done(before: Entity, after: Entity, dt: u64) -> bool {
    (!before.is_unit() && before.state is TrainingUnit && before.training is Some) ==> {
        let training = before.training->Some_0;
        let over = match training.ongoing {
            Some(o) => o.remaining <= dt,
            None => false,
        };
        &&& after.state == if over { EntityState::Idle } else { before.state }
        &&& after.training matches Some(t) && t.options == training.options && t.ongoing == training_after(
            training.ongoing,
            dt,
        )
    }
}

/// Structures that train a unit keep their state and training.
pub open spec fn trainings_kept(before: Seq<Entity>, after: Seq<Entity>) -> bool {
    forall|k: int|
        0 <= k < before.len() && k < after.len() && !before[k].is_unit() && (#[trigger] before[k]).state is TrainingUnit
            ==> after[k].state == before[k].state && after[k].training == before[k].training
}

proof fn lemma_trainings_kept_transitive(a: Seq<Entity>, b: Seq<Entity>, c: Seq<Entity>)
    requires
        trainings_kept(a, b),
        trainings_kept(b, c),
        a.len() == b.len(),
        forall|k: int| 0 <= k < a.len() ==> (#[trigger] b[k]).is_unit() == a[k].is_unit(),
    ensures
        trainings_kept(a, c),
{
    assert forall|k: int|
        0 <= k < a.len() && k < c.len() && !a[k].is_unit() && (#[trigger] a[k]).state is TrainingUnit implies c[k].state
            == a[k].state && c[k].training == a[k].training by {
        assert(b[k].state == a[k].state);
        assert(b[k].is_unit() == a[k].is_unit());
    }
}

/// Structures under construction keep their state.
pub open spec fn constructions_kept(before: Seq<Entity>, after: Seq<Entity>) -> bool {
    forall|k: int|
        0 <= k < before.len() && k < after.len() && (#[trigger] before[k]).state is UnderConstruction
            ==> after[k].state == before[k].state
}

proof fn lemma_constructions_kept_transitive(a: Seq<Entity>, b: Seq<Entity>, c: Seq<Entity>)
    requires
        constructions_kept(a, b),
        constructions_kept(b, c),
        a.len() == b.len(),
    ensures
        constructions_kept(a, c),
{
    assert forall|k: int|
        0 <= k < a.len() && k < c.len() && (#[trigger] a[k]).state is UnderConstruction implies c[k].state
            == a[k].state by {
        assert(b[k].state == a[k].state);
    }
}

/// What a step of the update that acts on the entities one by one keeps.
pub open spec fn roster_step(before: Core, after: Core) -> bool {
    &&& after.wf()
    &&& same_roster(before.spec_entities(), after.spec_entities())
    &&& after.spec_next_id() == before.spec_next_id()
    &&& after.spec_grid().spec_dimensions() == before.spec_grid().spec_dimensions()
    &&& resources_kept(before, after)
}

proof fn lemma_roster_step_transitive(a: Core, b: Core, c: Core)
    requires
        roster_step(a, b),
        roster_step(b, c),
    ensures
        roster_step(a, c),
{
    assert forall|k: int| 0 <= k < a.spec_entities().len() implies same_identity(#[trigger] a.spec_entities()[k], c.spec_entities()[k]) by {
        assert(same_identity(a.spec_entities()[k], b.spec_entities()[k]));
        assert(same_identity(b.spec_entities()[k], c.spec_entities()[k]));
    }
    assert forall|t: Team| {
        &&& (#[trigger] c.resources(t) is Some) == (a.resources(t) is Some)
        &&& a.resources(t) matches Some(r) ==> c.resources(t)->Some_0 >= r
    } by {
        assert(b.resources(t) is Some == a.resources(t) is Some);
        assert(c.resources(t) is Some == b.resources(t) is Some);
    }
}

/// Every entity stands where the entity at the same place in `before` stood.
pub open spec fn positions_kept(before: Seq<Entity>, after: Seq<Entity>) -> bool {
    &&& after.len() == before.len()
    &&& forall|k: int| 0 <= k < before.len() ==> #[trigger] after[k].position == before[k].position
}

/// A move from `a` to `b` of at most one cell.
pub open spec fn one_step(a: [u32; 2], b: [u32; 2]) -> bool {
    b == a || adjacent(a, b)
}

/// An entity that stood at `before.position` now stands at `position`: the same cell, or,
/// for a unit, the next cell of the plan it had.
pub open spec fn moved_along_plan(before: Entity, position: [u32; 2]) -> bool {
    let plan = before.spec_unit().movement_plan.movement_plan@;
    ||| position == before.position
    ||| before.is_unit() && plan.len() > 0 && position == plan.last()
}

/// Every entity stands where the entity at the same place in `before` stood, or, for a unit,
/// on the next cell of the plan it had.
pub open spec fn steps_taken(before: Seq<Entity>, after: Seq<Entity>) -> bool {
    &&& after.len() == before.len()
    &&& forall|k: int| 0 <= k < before.len() ==> moved_along_plan(before[k], #[trigger] after[k].position)
}

proof fn lemma_roster_step_refl(a: Core)
    requires
        a.wf(),
    ensures
        roster_step(a, a),
{
}

/// Whether a cell of `rect` is next to `position`.
pub open spec fn touches(position: [u32; 2], rect: CellRect) -> bool {
    exists|x: u32, y: u32| #[trigger] rect_has(rect, x, y) && adjacent(position, [x, y])
}

/// The cells a unit still has to walk through, the next one last.
pub open spec fn plan_of(entity: Entity) -> Seq<[u32; 2]> {
    entity.spec_unit().movement_plan.movement_plan@
}

/// What a unit's plan becomes when it sets out for `destination` only if it has no plan:
/// the route there if there is one, and otherwise what it was.
pub open spec fn replanned_if_idle(
    grid: Grid<ObstacleType>,
    before: Entity,
    after: Entity,
    destination: Destination,
) -> bool {
    if plan_of(before).len() == 0 && pathfind::route_exists(grid, before.position, destination) {
        pathfind::is_route(grid, before.position, destination, plan_of(after))
    } else {
        plan_of(after) == plan_of(before)
    }
}

/// What a unit's plan becomes when it sets out for `destination`: the route there if there
/// is one, and otherwise what it was.
pub open spec fn replanned(
    grid: Grid<ObstacleType>,
    before: Entity,
    after: Entity,
    destination: Destination,
) -> bool {
    if pathfind::route_exists(grid, before.position, destination) {
        pathfind::is_route(grid, before.position, destination, plan_of(after))
    } else {
        plan_of(after) == plan_of(before)
    }
}

/// What the step towards a victim does to the unit at `i`: next to the victim it starts
/// attacking; otherwise, without a plan, it looks for a way to the victim; when the victim
/// is gone it idles with no plan. Units in other states are left alone.
pub open spec fn moving_to_combat_outcome(before: Core, after: Core, i: int) -> bool {
    let entities = before.spec_entities();
    let e = entities[i];
    let f = after.spec_entities()[i];
    match e.state {
        EntityState::MovingToAttackTarget(v) => if !has_entity(entities, v) {
            f.state is Idle && plan_of(f).len() == 0
        } else {
            let rect = entity_with_id(entities, v).spec_cell_rect();
            if touches(e.position, rect) {
                f.state == EntityState::Attacking(v) && plan_of(f) == plan_of(e)
            } else {
                &&& f.state == e.state
                &&& replanned_if_idle(before.spec_grid(), e, f, Destination::AdjacentToEntity(rect))
            }
        },
        _ => after.spec_entities() == entities,
    }
}

/// What is left of a countdown after `dt` nanoseconds.
pub open spec fn counted_down(remaining: u64, dt: u64) -> u64 {
    if remaining >= dt {
        (remaining - dt) as u64
    } else {
        0
    }
}

/// The unit's combat, if it has one, waits `cooldown` nanoseconds before its next blow.
pub open spec fn combat_cooldown_is(before: Entity, after: Entity, cooldown: u64) -> bool {
    &&& (after.spec_unit().combat is Some) == (before.spec_unit().combat is Some)
    &&& after.spec_unit().combat matches Some(c) ==> c.cooldown == cooldown
}

/// The entity lost one point of health, or stays at none.
pub open spec fn damaged_by_one(before: Entity, after: Entity) -> bool {
    let h = before.health->Some_0;
    &&& before.health is Some
    &&& after.health == Some(crate::entities::HealthComponent {
        max: h.max,
        current: if h.current >= 1 { (h.current - 1) as u32 } else { 0 },
    })
}

/// What the attack step does to the unit at `i`: its attack cooldown counts down by `dt`;
/// an attacker whose next blow is due strikes a victim next to it for one point of damage
/// and waits a full cooldown again, goes after a victim that is not next to it, and idles
/// with no plan when the victim is gone. Nothing else changes.
pub open spec fn attacking_outcome(before: Core, after: Core, i: int, dt: u64) -> bool {
    let entities = before.spec_entities();
    let e = entities[i];
    let f = after.spec_entities()[i];
    let cooled = counted_down(e.spec_unit().combat->Some_0.cooldown, dt);
    if !e.is_unit() {
        after.spec_entities() == entities
    } else {
        match e.state {
            EntityState::Attacking(v) if cooled == 0 => if !has_entity(entities, v) {
                &&& f.state is Idle
                &&& plan_of(f).len() == 0
                &&& combat_cooldown_is(e, f, 0)
            } else {
                let victim = entity_with_id(entities, v);
                let rect = victim.spec_cell_rect();
                if touches(e.position, rect) {
                    &&& f.state == e.state
                    &&& plan_of(f) == plan_of(e)
                    &&& combat_cooldown_is(e, f, crate::entities::ATTACK_COOLDOWN)
                    &&& has_entity(after.spec_entities(), v)
                    &&& damaged_by_one(victim, entity_with_id(after.spec_entities(), v))
                    &&& forall|k: int| 0 <= k < entities.len() && k != i && entities[k].id != v
                        ==> #[trigger] after.spec_entities()[k] == entities[k]
                } else {
                    &&& f.state == EntityState::MovingToAttackTarget(v)
                    &&& replanned(before.spec_grid(), e, f, Destination::AdjacentToEntity(rect))
                    &&& combat_cooldown_is(e, f, 0)
                }
            },
            _ => {
                &&& f.state == e.state
                &&& plan_of(f) == plan_of(e)
                &&& combat_cooldown_is(e, f, cooled)
            },
        }
    }
}

/// The unit is between two cells, still stepping from one to the next.
pub open spec fn between_cells(entity: Entity) -> bool {
    entity.spec_unit().sub_cell_movement.remaining != 0
}

/// What the step towards a resource does to the unit at `i`: a unit that stands next to the
/// resource (and not between cells) starts gathering it, from the start of the work; when
/// the resource is gone it idles. Nothing else changes.
pub open spec fn moving_to_resource_outcome(before: Core, after: Core, i: int) -> bool {
    let entities = before.spec_entities();
    let e = entities[i];
    let f = after.spec_entities()[i];
    match e.state {
        EntityState::MovingToResource(r) if !between_cells(e) => if !has_entity(entities, r) {
            f.state is Idle && plan_of(f) == plan_of(e)
        } else if touches(e.position, entity_with_id(entities, r).spec_cell_rect()) {
            &&& f.state == EntityState::GatheringResource(r)
            &&& plan_of(f) == plan_of(e)
            &&& f.spec_unit().gathering == Some(crate::entities::Gathering {
                held_resource: e.spec_unit().gathering->Some_0.held_resource,
                progress_remaining: crate::entities::GATHERING_DURATION,
            })
        } else {
            after.spec_entities() == entities
        },
        _ => after.spec_entities() == entities,
    }
}

/// What the step of bringing a resource back does to the unit at `i`: a unit that stands
/// next to the structure (and not between cells) hands the resource over, so that its team
/// gains one, and sets out for the resource it came from along the route there, or idles
/// when the resource is gone or out of reach; when the structure is gone it idles. Nothing
/// else changes.
pub open spec fn returning_resource_outcome(before: Core, after: Core, i: int) -> bool {
    let entities = before.spec_entities();
    let e = entities[i];
    let f = after.spec_entities()[i];
    let grid = before.spec_grid();
    match e.state {
        EntityState::ReturningResource(s) if !between_cells(e) => if !has_entity(entities, s) {
            &&& f.state is Idle
            &&& plan_of(f) == plan_of(e)
            &&& after.resources(e.team) == before.resources(e.team)
        } else if touches(e.position, entity_with_id(entities, s).spec_cell_rect()) {
            let g = e.spec_unit().gathering->Some_0;
            let r = g.held_resource->Some_0;
            let route = Destination::AdjacentToEntity(entity_with_id(entities, r).spec_cell_rect());
            &&& after.resources(e.team) == Some(saturating_sum(before.resources(e.team)->Some_0, 1))
            &&& f.spec_unit().gathering == Some(crate::entities::Gathering {
                held_resource: None,
                progress_remaining: g.progress_remaining,
            })
            &&& if has_entity(entities, r) && pathfind::route_exists(grid, e.position, route) {
                &&& f.state == EntityState::MovingToResource(r)
                &&& pathfind::is_route(grid, e.position, route, plan_of(f))
            } else {
                f.state is Idle && plan_of(f) == plan_of(e)
            }
        } else {
            after.spec_entities() == entities && after.resources(e.team) == before.resources(e.team)
        },
        _ => after.spec_entities() == entities && after.resources(e.team) == before.resources(e.team),
    }
}

/// Where a unit brings a resource back to depends only on the structures of the game, so
/// it stays the same when other entities change.
proof fn lemma_return_outcome_kept(
    grid: Grid<ObstacleType>,
    a: Seq<Entity>,
    b: Seq<Entity>,
    ea: Entity,
    eb: Entity,
    f: Entity,
)
    requires
        ids_unique(a),
        a.len() == b.len(),
        forall|k: int| 0 <= k < a.len() ==> {
            &&& (#[trigger] b[k]).id == a[k].id
            &&& b[k].team == a[k].team
            &&& (b[k].physical_type is Structure) == (a[k].physical_type is Structure)
            &&& a[k].physical_type is Structure ==> b[k] == a[k]
        },
        ea.position == eb.position,
        ea.team == eb.team,
        return_outcome(grid, b, eb, f, None),
    ensures
        return_outcome(grid, a, ea, f, None),
{
    assert(ids_unique(b)) by {
        assert forall|x: int, y: int| 0 <= x < y < b.len() implies b[x].id != b[y].id by {
            assert(b[x].id == a[x].id && b[y].id == a[y].id);
        }
    }
    assert forall|k: int| 0 <= k < a.len() implies is_team_structure(#[trigger] a[k], ea.team) == is_team_structure(b[k], ea.team) by {
        assert(b[k].id == a[k].id);
    }
    assert forall|j: int| is_first_structure(a, ea.team, j) <==> #[trigger] is_first_structure(b, ea.team, j) by {
        if 0 <= j < a.len() {
            assert(is_team_structure(a[j], ea.team) == is_team_structure(b[j], ea.team));
        }
    }
    match f.state {
        EntityState::ReturningResource(s) => {
            let j = choose|j: int| is_first_structure(b, eb.team, j) && #[trigger] b[j].id == s;
            assert(is_team_structure(b[j], ea.team));
            assert(b[j] == a[j]);
            lemma_entity_with_id(a, j);
            lemma_entity_with_id(b, j);
            assert(is_first_structure(a, ea.team, j) && a[j].id == s);
        },
        EntityState::Idle => {
            assert forall|j: int| #[trigger] is_first_structure(a, ea.team, j) implies !pathfind::route_exists(
                grid,
                ea.position,
                Destination::AdjacentToEntity(a[j].spec_cell_rect()),
            ) by {
                assert(is_first_structure(b, ea.team, j));
                assert(is_team_structure(a[j], ea.team));
                assert(b[j] == a[j]);
            }
        },
        _ => {},
    }
}

/// The entities other than the one at `i` stay as they were.
pub open spec fn others_kept(before: Seq<Entity>, after: Seq<Entity>, i: int) -> bool {
    &&& after.len() == before.len()
    &&& forall|k: int| 0 <= k < before.len() && k != i ==> #[trigger] after[k] == before[k]
}

/// What the gathering step does to the unit at `i`: while something is left in its resource
/// the work goes on for `dt` nanoseconds; once it is done the resource shrinks by one, the
/// unit carries it and sets out to bring it back as `return_outcome` says, and the resource
/// is reported as used up when nothing is left in it. When the resource is gone the unit
/// idles. Nothing else changes.
pub open spec fn gathering_outcome(before: Core, after: Core, i: int, dt: u64, used_up: Option<EntityId>) -> bool {
    let entities = before.spec_entities();
    let e = entities[i];
    let f = after.spec_entities()[i];
    match e.state {
        EntityState::GatheringResource(r) => if !has_entity(entities, r) {
            &&& others_kept(entities, after.spec_entities(), i)
            &&& f.state is Idle
            &&& plan_of(f) == plan_of(e)
            &&& used_up is None
        } else {
            let resource = entity_with_id(entities, r);
            match resource.resource_remaining_spec() {
                Some(left) if left > 0 => {
                    let g = e.spec_unit().gathering->Some_0;
                    let progress = counted_down(g.progress_remaining, dt);
                    if progress > 0 {
                        &&& others_kept(entities, after.spec_entities(), i)
                        &&& f.state == e.state
                        &&& plan_of(f) == plan_of(e)
                        &&& f.spec_unit().gathering == Some(crate::entities::Gathering {
                            held_resource: None,
                            progress_remaining: progress,
                        })
                        &&& used_up is None
                    } else {
                        &&& forall|k: int| 0 <= k < entities.len() && k != i && entities[k].id != r
                            ==> #[trigger] after.spec_entities()[k] == entities[k]
                        &&& has_entity(after.spec_entities(), r)
                        &&& entity_with_id(after.spec_entities(), r).resource_remaining_spec() == Some((left - 1) as u32)
                        &&& f.spec_unit().gathering == Some(crate::entities::Gathering {
                            held_resource: Some(r),
                            progress_remaining: 0,
                        })
                        &&& return_outcome(before.spec_grid(), entities, e, f, None)
                        &&& used_up == if left == 1 {
                            Some(r)
                        } else {
                            None
                        }
                    }
                },
                _ => after.spec_entities() == entities && used_up is None,
            }
        },
        _ => after.spec_entities() == entities && used_up is None,
    }
}

/// What the movement step does to the unit at `i` after `dt` nanoseconds: a unit that is
/// still between cells goes on; one that is ready steps into the next cell of its plan when
/// that cell is free (its old cell is freed and the new one marked as its team's), and
/// otherwise counts the blocked step and, when blocked for too long, takes the route to
/// the end of its plan or, without one, gives up and idles; a moving unit without a plan
/// stops moving. Entities that are not units are left alone.
pub open spec fn movement_outcome(before: Core, after: Core, i: int, dt: u64) -> bool {
    let entities = before.spec_entities();
    let e = entities[i];
    let f = after.spec_entities()[i];
    let grid = before.spec_grid();
    let plan = plan_of(e);
    let ready = counted_down(e.spec_unit().sub_cell_movement.remaining, dt) == 0;
    if !e.is_unit() {
        after.spec_entities() == entities && after.spec_grid() == grid
    } else if !ready || plan.len() == 0 {
        &&& f.position == e.position
        &&& plan_of(f) == plan
        &&& after.spec_grid() == grid
        &&& f.state == if ready && e.state is Moving {
            EntityState::Idle
        } else {
            e.state
        }
    } else if grid.cell(plan.last()) == Some(ObstacleType::Free) {
        &&& f.position == plan.last()
        &&& plan_of(f) == plan.drop_last()
        &&& f.state == e.state
        &&& after.spec_grid().spec_dimensions() == grid.spec_dimensions()
        &&& forall|c: [u32; 2]| #[trigger] after.spec_grid().cell(c) == if c == plan.last() {
            Some(ObstacleType::Entity(e.team))
        } else if c == e.position {
            Some(ObstacleType::Free)
        } else {
            grid.cell(c)
        }
    } else {
        let blocked = e.spec_unit().movement_plan.blocked_steps;
        let destination = Destination::Point(plan[0]);
        &&& f.position == e.position
        &&& after.spec_grid() == grid
        &&& if blocked + 1 < crate::entities::MAX_BLOCKED_STEPS {
            &&& plan_of(f) == plan
            &&& f.state == e.state
            &&& f.spec_unit().movement_plan.blocked_steps == blocked + 1
        } else if pathfind::route_exists(grid, e.position, destination) {
            &&& pathfind::is_route(grid, e.position, destination, plan_of(f))
            &&& f.state == e.state
        } else {
            &&& plan_of(f).len() == 0
            &&& f.state is Idle
        }
    }
}

/// Each state of `states` comes from the one before it by a step on the entity at the same
/// place of the list.
pub open spec fn phase_chain(states: Seq<Core>, step: spec_fn(Core, Core, int) -> bool) -> bool {
    forall|k: int| #![trigger states[k]] 0 <= k < states.len() - 1 ==> step(states[k], states[k + 1], k)
}

/// `after` comes from `before` by a step on each of the first `n` entities, in order.
pub open spec fn phase_run(before: Core, after: Core, n: int, step: spec_fn(Core, Core, int) -> bool) -> bool {
    exists|states: Seq<Core>| #![trigger phase_chain(states, step)]
        states.len() == n + 1 && states[0] == before && states[n] == after && phase_chain(states, step)
}

proof fn lemma_phase_chain_push(states: Seq<Core>, step: spec_fn(Core, Core, int) -> bool, next: Core)
    requires
        states.len() > 0,
        phase_chain(states, step),
        step(states[states.len() - 1], next, states.len() - 1),
    ensures
        phase_chain(states.push(next), step),
{
    let t = states.push(next);
    assert forall|k: int| #![trigger t[k]] 0 <= k < t.len() - 1 implies step(t[k], t[k + 1], k) by {
        if k < states.len() - 1 {
            assert(step(states[k], states[k + 1], k));
        }
    }
}

/// The movement step of the unit at each place, after `dt` nanoseconds.
pub open spec fn movement_step(dt: u64) -> spec_fn(Core, Core, int) -> bool {
    |b: Core, a: Core, k: int| movement_outcome(b, a, k, dt)
}

/// The step towards a victim of the unit at each place.
pub open spec fn moving_to_combat_step() -> spec_fn(Core, Core, int) -> bool {
    |b: Core, a: Core, k: int| moving_to_combat_outcome(b, a, k)
}

/// The attack step of the unit at each place, after `dt` nanoseconds.
pub open spec fn attacking_step(dt: u64) -> spec_fn(Core, Core, int) -> bool {
    |b: Core, a: Core, k: int| attacking_outcome(b, a, k, dt)
}

/// The step towards a resource of the unit at each place.
pub open spec fn moving_to_resource_step() -> spec_fn(Core, Core, int) -> bool {
    |b: Core, a: Core, k: int| moving_to_resource_outcome(b, a, k)
}

/// The step of bringing a resource back of the unit at each place.
pub open spec fn returning_resource_step() -> spec_fn(Core, Core, int) -> bool {
    |b: Core, a: Core, k: int| returning_resource_outcome(b, a, k)
}

/// The ids among `found`, in order.
pub open spec fn found_ids(found: Seq<Option<EntityId>>) -> Seq<EntityId>
    decreases found.len(),
{
    if found.len() == 0 {
        Seq::empty()
    } else {
        let rest = found_ids(found.drop_last());
        match found.last() {
            Some(id) => rest.push(id),
            None => rest,
        }
    }
}

/// Each state of `states` comes from the one before it by the gathering step of the unit at
/// the same place, which reports a used-up resource or none in `found`.
pub open spec fn gathering_chain(states: Seq<Core>, found: Seq<Option<EntityId>>, dt: u64) -> bool {
    &&& found.len() == states.len() - 1
    &&& forall|k: int| #![trigger states[k]] 0 <= k < found.len() ==> gathering_outcome(states[k], states[k + 1], k, dt, found[k])
}

/// `after` comes from `before` by the gathering step of each of the first `n` entities, in
/// order; `used_up` lists the resources used up, in the order the steps report them.
pub open spec fn gathering_run(before: Core, after: Core, n: int, dt: u64, used_up: Seq<EntityId>) -> bool {
    exists|states: Seq<Core>, found: Seq<Option<EntityId>>| #![trigger gathering_chain(states, found, dt)]
        states.len() == n + 1 && states[0] == before && states[n] == after && gathering_chain(states, found, dt)
            && used_up == found_ids(found)
}

/// What the units do during an update, one phase after the other, each phase going
/// through the entities in order: movement, moving towards victims, attacks, moving
/// towards resources, gathering (with the resources used up) and bringing resources back.
#[verifier::opaque]
pub open spec fn units_updated(before: Core, after: Core, dt: u64, used_up: Seq<EntityId>) -> bool {
    let n = before.spec_entities().len() as int;
    exists|c1: Core, c2: Core, c3: Core, c4: Core, c5: Core|
        #![trigger phase_run(before, c1, n, movement_step(dt)), phase_run(c1, c2, n, moving_to_combat_step()), phase_run(c2, c3, n, attacking_step(dt)), phase_run(c3, c4, n, moving_to_resource_step()), gathering_run(c4, c5, n, dt, used_up)]
        {
            &&& phase_run(before, c1, n, movement_step(dt))
            &&& phase_run(c1, c2, n, moving_to_combat_step())
            &&& phase_run(c2, c3, n, attacking_step(dt))
            &&& phase_run(c3, c4, n, moving_to_resource_step())
            &&& gathering_run(c4, c5, n, dt, used_up)
            &&& phase_run(c5, after, n, returning_resource_step())
        }
}

impl Core {
    /// Lets `dt` nanoseconds of a unit's step pass; a unit between cells that is ready steps
    /// into the next cell of its plan when that cell is free, and otherwise counts the
    /// blocked step and, when blocked for too long, looks for a new path to its
    /// destination (or gives up and idles). A moving unit without plan stops moving.
    fn update_movement_of(&mut self, i: usize, dt: u64)
        requires
            old(self).wf(),
            i < old(self).spec_entities().len(),
        ensures
            final(self).spec_entities().len() == old(self).spec_entities().len(),
            moved_along_plan(old(self).spec_entities()[i as int], final(self).spec_entities()[i as int].position),
            movement_outcome(*old(self), *final(self), i as int, dt),
            trainings_kept(old(self).spec_entities(), final(self).spec_entities()),
            constructions_kept(old(self).spec_entities(), final(self).spec_entities()),
            roster_step(*old(self), *final(self)),
            forall|t: Team| #[trigger] final(self).resources(t) == old(self).resources(t),
            forall|k: int| 0 <= k < final(self).spec_entities().len() && k != i ==> final(self).spec_entities()[k] == old(self).spec_entities()[k],
    {
        proof {
            self.lemma_wf();
        }
        let ghost before = *self;
        let ghost dims = self.obstacle_grid.spec_dimensions();
        if !self.entities[i].physical_type_is_unit() {
            return;
        }
        proof {
            assert(entity_ok(self.entities@[i as int], dims, self.next_entity_id));
        }
        let pos = self.entities[i].position;
        let team = self.entities[i].team;
        self.entities[i].unit_mut().sub_cell_movement.update(dt, pos);
        if !self.entities[i].unit().sub_cell_movement.is_between_cells() {
            match self.entities[i].unit().movement_plan.peek() {
                Some(next_pos) => {
                    let next_is_free = match self.obstacle_grid.get(&next_pos) {
                        Some(ObstacleType::Free) => true,
                        _ => false,
                    };
                    if next_is_free {
                        let new_pos = self.entities[i].unit_mut().movement_plan.advance();
                        self.entities[i].unit_mut().move_to_adjacent_cell(pos, new_pos);
                        self.entities[i].position = new_pos;
                        self.obstacle_grid.set(pos, ObstacleType::Free);
                        self.obstacle_grid.set(new_pos, ObstacleType::Entity(team));
                    } else {
                        let blocked_for_too_long = self.entities[i].unit_mut().movement_plan.on_movement_blocked();
                        if blocked_for_too_long {
                            let destination = self.entities[i].unit().movement_plan.destination();
                            let target = Destination::Point(destination);
                            match pathfind::find_path(pos, target, &self.obstacle_grid) {
                                Some(plan) => {
                                    proof {
                                        lemma_route_in_grid(self.obstacle_grid, pos, target, plan@);
                                    }
                                    self.entities[i].unit_mut().movement_plan.set(plan);
                                },
                                None => {
                                    self.entities[i].unit_mut().movement_plan.clear();
                                    self.entities[i].state = EntityState::Idle;
                                },
                            }
                        }
                    }
                },
                None => {
                    if self.entities[i].state.is_moving() {
                        self.entities[i].state = EntityState::Idle;
                    }
                },
            }
        }
        let elapsed_millis: u16 = (dt / NANOS_PER_MILLI) as u16;
        self.entities[i].animation.ms_counter = self.entities[i].animation.ms_counter.wrapping_add(elapsed_millis);
        proof {
            assert(self.entities@ == before.entities@.update(i as int, self.entities@[i as int]));
            lemma_entities_update(before.entities@, dims, self.next_entity_id, self.teams@, i as int, self.entities@[i as int]);
            assert(same_roster(before.entities@, self.entities@)) by {
                assert forall|k: int| 0 <= k < before.entities@.len() implies same_identity(#[trigger] before.entities@[k], self.entities@[k]) by {
                    if k != i {
                        assert(self.entities@[k] == before.entities@[k]);
                    }
                }
            }
        }
    }
}


impl Core {
    /// An entity on its way to attack a victim starts attacking once next to it, facing it
    /// unless between cells; without a plan it looks for a way to the victim; when the
    /// victim is gone it idles.
    fn update_moving_to_combat_of(&mut self, i: usize)
        requires
            old(self).wf(),
            i < old(self).spec_entities().len(),
        ensures
            positions_kept(old(self).spec_entities(), final(self).spec_entities()),
            trainings_kept(old(self).spec_entities(), final(self).spec_entities()),
            constructions_kept(old(self).spec_entities(), final(self).spec_entities()),
            roster_step(*old(self), *final(self)),
            final(self).spec_grid() == old(self).spec_grid(),
            forall|t: Team| #[trigger] final(self).resources(t) == old(self).resources(t),
            forall|k: int| 0 <= k < final(self).spec_entities().len() && k != i ==> final(self).spec_entities()[k] == old(self).spec_entities()[k],
            moving_to_combat_outcome(*old(self), *final(self), i as int),
    {
        proof {
            self.lemma_wf();
        }
        let ghost before = *self;
        let ghost dims = self.obstacle_grid.spec_dimensions();
        let victim_id = match self.entities[i].state {
            EntityState::MovingToAttackTarget(victim_id) => victim_id,
            _ => {
                return;
            },
        };
        proof {
            assert(entity_ok(self.entities@[i as int], dims, self.next_entity_id));
        }
        let position = self.entities[i].position;
        match self.find_entity(victim_id) {
            Some(j) => {
                let victim_rect = self.entities[j].cell_rect();
                proof {
                    assert(entity_ok(self.entities@[j as int], dims, self.next_entity_id));
                    lemma_entity_with_id(self.entities@, j as int);
                }
                match unit_melee_direction(position, victim_rect) {
                    Some(direction) => {
                        self.entities[i].state = EntityState::Attacking(victim_id);
                        if !self.entities[i].unit().sub_cell_movement.is_between_cells() {
                            self.entities[i].unit_mut().direction = direction;
                        }
                    },
                    None => {
                        if self.entities[i].unit().movement_plan.peek().is_none() {
                            let target = Destination::AdjacentToEntity(victim_rect);
                            match pathfind::find_path(position, target, &self.obstacle_grid) {
                                Some(plan) => {
                                    proof {
                                        lemma_route_in_grid(self.obstacle_grid, position, target, plan@);
                                    }
                                    self.entities[i].unit_mut().movement_plan.set(plan);
                                },
                                None => {},
                            }
                        }
                    },
                }
            },
            None => {
                self.entities[i].state = EntityState::Idle;
                self.entities[i].unit_mut().movement_plan.clear();
            },
        }
        proof {
            assert(self.entities@ == before.entities@.update(i as int, self.entities@[i as int]));
            assert forall|k: int| 0 <= k < before.entities@.len() implies attack_target_ok(self.entities@[i as int], #[trigger] before.entities@[k]) by {
                assert(attack_target_ok(before.entities@[i as int], before.entities@[k]));
            }
            lemma_entities_update(before.entities@, dims, self.next_entity_id, self.teams@, i as int, self.entities@[i as int]);
        }
    }

    /// Counts down the attack cooldown of a fighter; an attacker whose next blow is due
    /// strikes its victim for one point of damage when next to it (facing it unless between
    /// cells, and waiting for the next blow), or goes after it when not; when the victim is
    /// gone it idles.
    fn update_attacking_of(&mut self, i: usize, dt: u64)
        requires
            old(self).wf(),
            i < old(self).spec_entities().len(),
        ensures
            positions_kept(old(self).spec_entities(), final(self).spec_entities()),
            trainings_kept(old(self).spec_entities(), final(self).spec_entities()),
            constructions_kept(old(self).spec_entities(), final(self).spec_entities()),
            roster_step(*old(self), *final(self)),
            final(self).spec_grid() == old(self).spec_grid(),
            forall|t: Team| #[trigger] final(self).resources(t) == old(self).resources(t),
            attacking_outcome(*old(self), *final(self), i as int, dt),
            !(old(self).spec_entities()[i as int].state is Attacking) ==> forall|k: int|
                0 <= k < old(self).spec_entities().len() && k != i ==> #[trigger] final(self).spec_entities()[k] == old(self).spec_entities()[k],
    {
        proof {
            self.lemma_wf();
        }
        let ghost before = *self;
        let ghost dims = self.obstacle_grid.spec_dimensions();
        if self.entities[i].physical_type_is_unit() {
            proof {
                assert(entity_ok(self.entities@[i as int], dims, self.next_entity_id));
            }
            match &mut self.entities[i].unit_mut().combat {
                Some(combat) => {
                    combat.count_down_cooldown(dt);
                },
                None => {},
            }
            proof {
                assert(self.entities@ == before.entities@.update(i as int, self.entities@[i as int]));
                assert forall|k: int| 0 <= k < before.entities@.len() implies attack_target_ok(self.entities@[i as int], #[trigger] before.entities@[k]) by {
                    assert(attack_target_ok(before.entities@[i as int], before.entities@[k]));
                }
                lemma_entities_update(before.entities@, dims, self.next_entity_id, self.teams@, i as int, self.entities@[i as int]);
            }
        }
        let ghost counted = *self;
        proof {
            self.lemma_wf();
            assert(same_roster(before.entities@, self.entities@)) by {
                assert forall|k: int| 0 <= k < before.entities@.len() implies same_identity(#[trigger] before.entities@[k], self.entities@[k]) by {
                    if k != i {
                        assert(self.entities@[k] == before.entities@[k]);
                    }
                }
            }
        }
        let victim_id = match self.entities[i].state {
            EntityState::Attacking(victim_id) => victim_id,
            _ => {
                return;
            },
        };
        proof {
            assert(entity_ok(self.entities@[i as int], dims, self.next_entity_id));
        }
        let ready = match &self.entities[i].unit().combat {
            Some(combat) => combat.is_attack_ready(),
            None => vstd::pervasive::unreached(),
        };
        if !ready {
            return;
        }
        let position = self.entities[i].position;
        match self.find_entity(victim_id) {
            Some(j) => {
                let victim_rect = self.entities[j].cell_rect();
                proof {
                    assert(entity_ok(self.entities@[j as int], dims, self.next_entity_id));
                    assert(attack_target_ok(self.entities@[i as int], self.entities@[j as int]));
                    lemma_entity_with_id(self.entities@, j as int);
                }
                match unit_melee_direction(position, victim_rect) {
                    Some(direction) => {
                        match &mut self.entities[j].health {
                            Some(health) => {
                                health.receive_damage(1);
                            },
                            None => vstd::pervasive::unreached(),
                        }
                        proof {
                            assert(self.entities@ == counted.entities@.update(j as int, self.entities@[j as int]));
                            assert forall|k: int| 0 <= k < counted.entities@.len() implies attack_target_ok(self.entities@[j as int], #[trigger] counted.entities@[k]) by {
                                assert(attack_target_ok(counted.entities@[j as int], counted.entities@[k]));
                            }
                            assert(entity_ok(counted.entities@[j as int], dims, self.next_entity_id));
                            lemma_entities_update(counted.entities@, dims, self.next_entity_id, self.teams@, j as int, self.entities@[j as int]);
                        }
                        let ghost damaged = *self;
                        if !self.entities[i].unit().sub_cell_movement.is_between_cells() {
                            self.entities[i].unit_mut().direction = direction;
                        }
                        match &mut self.entities[i].unit_mut().combat {
                            Some(combat) => {
                                combat.start_cooldown();
                            },
                            None => {},
                        }
                        proof {
                            assert(self.entities@ == damaged.entities@.update(i as int, self.entities@[i as int]));
                            assert forall|k: int| 0 <= k < damaged.entities@.len() implies attack_target_ok(self.entities@[i as int], #[trigger] damaged.entities@[k]) by {
                                assert(attack_target_ok(damaged.entities@[i as int], damaged.entities@[k]));
                            }
                            assert(entity_ok(damaged.entities@[i as int], dims, self.next_entity_id));
                            lemma_entities_update(damaged.entities@, dims, self.next_entity_id, self.teams@, i as int, self.entities@[i as int]);
                        }
                    },
                    None => {
                        self.entities[i].state = EntityState::MovingToAttackTarget(victim_id);
                        let target = Destination::AdjacentToEntity(victim_rect);
                        match pathfind::find_path(position, target, &self.obstacle_grid) {
                            Some(plan) => {
                                proof {
                                    lemma_route_in_grid(self.obstacle_grid, position, target, plan@);
                                }
                                self.entities[i].unit_mut().movement_plan.set(plan);
                            },
                            None => {},
                        }
                        proof {
                            assert(self.entities@ == counted.entities@.update(i as int, self.entities@[i as int]));
                            assert forall|k: int| 0 <= k < counted.entities@.len() implies attack_target_ok(self.entities@[i as int], #[trigger] counted.entities@[k]) by {
                                assert(attack_target_ok(counted.entities@[i as int], counted.entities@[k]));
                            }
                            lemma_entities_update(counted.entities@, dims, self.next_entity_id, self.teams@, i as int, self.entities@[i as int]);
                        }
                    },
                }
            },
            None => {
                self.entities[i].state = EntityState::Idle;
                self.entities[i].unit_mut().movement_plan.clear();
                proof {
                    assert(self.entities@ == counted.entities@.update(i as int, self.entities@[i as int]));
                    lemma_entities_update(counted.entities@, dims, self.next_entity_id, self.teams@, i as int, self.entities@[i as int]);
                }
            },
        }
        proof {
            assert(same_roster(counted.entities@, self.entities@)) by {
                assert forall|k: int| 0 <= k < counted.entities@.len() implies same_identity(#[trigger] counted.entities@[k], self.entities@[k]) by {
                    if k != i {
                        assert(same_identity(counted.entities@[k], self.entities@[k]));
                    }
                }
            }
            assert(roster_step(counted, *self));
            lemma_roster_step_transitive(before, counted, *self);
        }
    }
}


impl Core {
    /// A unit on its way to a resource that stands next to it (and not between cells) starts
    /// gathering, facing it; when the resource is gone it idles.
    fn update_moving_to_resource_of(&mut self, i: usize)
        requires
            old(self).wf(),
            i < old(self).spec_entities().len(),
        ensures
            positions_kept(old(self).spec_entities(), final(self).spec_entities()),
            trainings_kept(old(self).spec_entities(), final(self).spec_entities()),
            constructions_kept(old(self).spec_entities(), final(self).spec_entities()),
            roster_step(*old(self), *final(self)),
            final(self).spec_grid() == old(self).spec_grid(),
            forall|t: Team| #[trigger] final(self).resources(t) == old(self).resources(t),
            forall|k: int| 0 <= k < final(self).spec_entities().len() && k != i ==> #[trigger] final(self).spec_entities()[k] == old(self).spec_entities()[k],
            moving_to_resource_outcome(*old(self), *final(self), i as int),
    {
        proof {
            self.lemma_wf();
        }
        let ghost before = *self;
        let ghost dims = self.obstacle_grid.spec_dimensions();
        let resource_id = match self.entities[i].state {
            EntityState::MovingToResource(resource_id) => resource_id,
            _ => {
                return;
            },
        };
        proof {
            assert(entity_ok(self.entities@[i as int], dims, self.next_entity_id));
        }
        if self.entities[i].unit().sub_cell_movement.is_between_cells() {
            return;
        }
        let position = self.entities[i].position;
        match self.find_entity(resource_id) {
            Some(j) => {
                let resource_rect = self.entities[j].cell_rect();
                proof {
                    assert(entity_ok(self.entities@[j as int], dims, self.next_entity_id));
                    lemma_entity_with_id(self.entities@, j as int);
                }
                match unit_melee_direction(position, resource_rect) {
                    Some(direction) => {
                        self.entities[i].state = EntityState::GatheringResource(resource_id);
                        self.entities[i].unit_mut().direction = direction;
                        match &mut self.entities[i].unit_mut().gathering {
                            Some(gathering) => {
                                gathering.start_gathering();
                            },
                            None => vstd::pervasive::unreached(),
                        }
                    },
                    None => {},
                }
            },
            None => {
                self.entities[i].state = EntityState::Idle;
            },
        }
        proof {
            assert(self.entities@ == before.entities@.update(i as int, self.entities@[i as int]));
            lemma_entities_update(before.entities@, dims, self.next_entity_id, self.teams@, i as int, self.entities@[i as int]);
            assert(same_roster(before.entities@, self.entities@)) by {
                assert forall|k: int| 0 <= k < before.entities@.len() implies same_identity(#[trigger] before.entities@[k], self.entities@[k]) by {
                }
            }
        }
    }

    /// A gathering unit works on its resource while something is left in it; once it has
    /// gathered a unit of the resource, the resource shrinks by one and the unit sets out to
    /// bring it back. Returns the id of a resource that this used up. When the resource is
    /// gone the unit idles.
    fn update_gathering_of(&mut self, i: usize, dt: u64) -> (used_up: Option<EntityId>)
        requires
            old(self).wf(),
            i < old(self).spec_entities().len(),
        ensures
            positions_kept(old(self).spec_entities(), final(self).spec_entities()),
            trainings_kept(old(self).spec_entities(), final(self).spec_entities()),
            constructions_kept(old(self).spec_entities(), final(self).spec_entities()),
            roster_step(*old(self), *final(self)),
            final(self).spec_grid() == old(self).spec_grid(),
            forall|t: Team| #[trigger] final(self).resources(t) == old(self).resources(t),
            used_up matches Some(id) ==> exists|j: int| 0 <= j < final(self).spec_entities().len() && final(self).spec_entities()[j].id == id && final(self).spec_entities()[j].resource_remaining_spec() == Some(0u32),
            gathering_outcome(*old(self), *final(self), i as int, dt, used_up),
    {
        proof {
            self.lemma_wf();
        }
        let ghost before = *self;
        let ghost dims = self.obstacle_grid.spec_dimensions();
        let resource_id = match self.entities[i].state {
            EntityState::GatheringResource(resource_id) => resource_id,
            _ => {
                return None;
            },
        };
        proof {
            assert(entity_ok(self.entities@[i as int], dims, self.next_entity_id));
        }
        match self.find_entity(resource_id) {
            Some(j) => {
                proof {
                    lemma_entity_with_id(self.entities@, j as int);
                }
                let remaining = match self.entities[j].resource_remaining() {
                    Some(remaining) => remaining,
                    None => {
                        return None;
                    },
                };
                if remaining == 0 {
                    return None;
                }
                let progress = match &mut self.entities[i].unit_mut().gathering {
                    Some(gathering) => gathering.make_progress_on_gathering(dt, resource_id),
                    None => vstd::pervasive::unreached(),
                };
                match progress {
                    GatheringProgress::Done => {
                        self.entities[i].state = EntityState::Idle;
                        proof {
                            assert(self.entities@ == before.entities@.update(i as int, self.entities@[i as int]));
                            lemma_entities_update(before.entities@, dims, self.next_entity_id, self.teams@, i as int, self.entities@[i as int]);
                        }
                        let ghost progressed = *self;
                        let left = remaining - 1;
                        self.entities[j].set_resource_remaining(left);
                        proof {
                            assert(self.entities@ == progressed.entities@.update(j as int, self.entities@[j as int]));
                            assert(entity_ok(progressed.entities@[j as int], dims, self.next_entity_id));
                            assert forall|k: int| 0 <= k < progressed.entities@.len() implies attack_target_ok(self.entities@[j as int], #[trigger] progressed.entities@[k]) by {
                                assert(attack_target_ok(progressed.entities@[j as int], progressed.entities@[k]));
                            }
                            lemma_entities_update(progressed.entities@, dims, self.next_entity_id, self.teams@, j as int, self.entities@[j as int]);
                        }
                        let ghost shrunk = *self;
                        self.unit_return_resource(i, None);
                        proof {
                            assert(same_roster(before.entities@, self.entities@)) by {
                                assert forall|k: int| 0 <= k < before.entities@.len() implies same_identity(#[trigger] before.entities@[k], self.entities@[k]) by {
                                    assert(same_identity(before.entities@[k], progressed.entities@[k]));
                                    assert(same_identity(progressed.entities@[k], shrunk.entities@[k]));
                                    assert(same_identity(shrunk.entities@[k], self.entities@[k]));
                                }
                            }
                            assert(self.entities@[j as int] == shrunk.entities@[j as int]);
                            assert(i != j);
                            let a = before.entities@;
                            let b = shrunk.entities@;
                            assert forall|k: int| 0 <= k < a.len() implies {
                                &&& (#[trigger] b[k]).id == a[k].id
                                &&& b[k].team == a[k].team
                                &&& (b[k].physical_type is Structure) == (a[k].physical_type is Structure)
                                &&& a[k].physical_type is Structure ==> b[k] == a[k]
                            } by {
                                if k != i && k != j {
                                    assert(b[k] == a[k]);
                                }
                            }
                            lemma_return_outcome_kept(self.obstacle_grid, a, b, a[i as int], b[i as int], self.entities@[i as int]);
                            lemma_entity_with_id(self.entities@, j as int);
                        }
                        if left == 0 {
                            Some(resource_id)
                        } else {
                            None
                        }
                    },
                    GatheringProgress::Ongoing => {
                        proof {
                            assert(self.entities@ == before.entities@.update(i as int, self.entities@[i as int]));
                            lemma_entities_update(before.entities@, dims, self.next_entity_id, self.teams@, i as int, self.entities@[i as int]);
                            assert(same_roster(before.entities@, self.entities@)) by {
                                assert forall|k: int| 0 <= k < before.entities@.len() implies same_identity(#[trigger] before.entities@[k], self.entities@[k]) by {
                                }
                            }
                        }
                        None
                    },
                }
            },
            None => {
                self.entities[i].state = EntityState::Idle;
                proof {
                    assert(self.entities@ == before.entities@.update(i as int, self.entities@[i as int]));
                    lemma_entities_update(before.entities@, dims, self.next_entity_id, self.teams@, i as int, self.entities@[i as int]);
                    assert(same_roster(before.entities@, self.entities@)) by {
                        assert forall|k: int| 0 <= k < before.entities@.len() implies same_identity(#[trigger] before.entities@[k], self.entities@[k]) by {
                        }
                    }
                }
                None
            },
        }
    }
}


impl Core {
    /// A unit bringing back a resource that stands next to the structure (and not between
    /// cells) hands it over: its team gains one resource, the unit faces the structure and
    /// sets out for the resource it came from (or idles when it is gone or out of reach).
    /// When the structure is gone the unit idles.
    fn update_returning_resource_of(&mut self, i: usize)
        requires
            old(self).wf(),
            i < old(self).spec_entities().len(),
        ensures
            positions_kept(old(self).spec_entities(), final(self).spec_entities()),
            trainings_kept(old(self).spec_entities(), final(self).spec_entities()),
            constructions_kept(old(self).spec_entities(), final(self).spec_entities()),
            roster_step(*old(self), *final(self)),
            final(self).spec_grid() == old(self).spec_grid(),
            forall|k: int| 0 <= k < final(self).spec_entities().len() && k != i ==> #[trigger] final(self).spec_entities()[k] == old(self).spec_entities()[k],
            forall|t: Team| t != old(self).spec_entities()[i as int].team ==> #[trigger] final(self).resources(t) == old(self).resources(t),
            returning_resource_outcome(*old(self), *final(self), i as int),
    {
        proof {
            self.lemma_wf();
        }
        let ghost before = *self;
        let ghost dims = self.obstacle_grid.spec_dimensions();
        let structure_id = match self.entities[i].state {
            EntityState::ReturningResource(structure_id) => structure_id,
            _ => {
                return;
            },
        };
        proof {
            assert(entity_ok(self.entities@[i as int], dims, self.next_entity_id));
        }
        if self.entities[i].unit().sub_cell_movement.is_between_cells() {
            return;
        }
        let position = self.entities[i].position;
        let team = self.entities[i].team;
        match self.find_entity(structure_id) {
            Some(j) => {
                let structure_rect = self.entities[j].cell_rect();
                proof {
                    assert(entity_ok(self.entities@[j as int], dims, self.next_entity_id));
                    lemma_entity_with_id(self.entities@, j as int);
                }
                match unit_melee_direction(position, structure_rect) {
                    Some(direction) => {
                        proof {
                            assert(team_state_of(self.teams@, self.entities@[i as int].team) is Some);
                        }
                        self.add_resources(team, 1);
                        let ghost paid = *self;
                        self.entities[i].unit_mut().direction = direction;
                        let resource_id = match &mut self.entities[i].unit_mut().gathering {
                            Some(gathering) => gathering.drop_resource(),
                            None => vstd::pervasive::unreached(),
                        };
                        self.entities[i].state = EntityState::Idle;
                        proof {
                            assert(self.entities@ == paid.entities@.update(i as int, self.entities@[i as int]));
                            assert(entity_ok(paid.entities@[i as int], dims, self.next_entity_id));
                            lemma_entities_update(paid.entities@, dims, self.next_entity_id, self.teams@, i as int, self.entities@[i as int]);
                        }
                        let ghost dropped = *self;
                        match self.find_entity(resource_id) {
                            Some(k) => {
                                let resource_rect = self.entities[k].cell_rect();
                                proof {
                                    assert(entity_ok(self.entities@[k as int], dims, self.next_entity_id));
                                    lemma_entity_with_id(self.entities@, k as int);
                                    assert(k != i);
                                    assert(self.entities@[k as int] == before.entities@[k as int]);
                                    lemma_entity_with_id(before.entities@, k as int);
                                }
                                let target = Destination::AdjacentToEntity(resource_rect);
                                match pathfind::find_path(position, target, &self.obstacle_grid) {
                                    Some(plan) => {
                                        proof {
                                            lemma_route_in_grid(self.obstacle_grid, position, target, plan@);
                                        }
                                        self.entities[i].unit_mut().movement_plan.set(plan);
                                        self.entities[i].state = EntityState::MovingToResource(resource_id);
                                        proof {
                                            assert(self.entities@ == dropped.entities@.update(i as int, self.entities@[i as int]));
                                            lemma_entities_update(dropped.entities@, dims, self.next_entity_id, self.teams@, i as int, self.entities@[i as int]);
                                        }
                                    },
                                    None => {},
                                }
                            },
                            None => {},
                        }
                        proof {
                            assert(same_roster(before.entities@, self.entities@)) by {
                                assert forall|k: int| 0 <= k < before.entities@.len() implies same_identity(#[trigger] before.entities@[k], self.entities@[k]) by {
                                    assert(same_identity(paid.entities@[k], dropped.entities@[k]));
                                }
                            }
                            assert forall|t: Team| {
                                &&& (#[trigger] self.resources(t) is Some) == (before.resources(t) is Some)
                                &&& before.resources(t) matches Some(r) ==> self.resources(t)->Some_0 >= r
                            } by {
                                assert(self.resources(t) == paid.resources(t));
                            }
                            assert forall|t: Team| t != team implies #[trigger] self.resources(t) == before.resources(t) by {
                                assert(self.resources(t) == paid.resources(t));
                            }
                        }
                    },
                    None => {},
                }
            },
            None => {
                self.entities[i].state = EntityState::Idle;
                proof {
                    assert(self.entities@ == before.entities@.update(i as int, self.entities@[i as int]));
                    lemma_entities_update(before.entities@, dims, self.next_entity_id, self.teams@, i as int, self.entities@[i as int]);
                    assert(same_roster(before.entities@, self.entities@)) by {
                        assert forall|k: int| 0 <= k < before.entities@.len() implies same_identity(#[trigger] before.entities@[k], self.entities@[k]) by {
                        }
                    }
                }
            },
        }
    }
}


/// A structure to be put up: its team, position, type and construction time in nanoseconds.
pub struct PlannedStructure {
    pub team: Team,
    pub position: [u32; 2],
    pub structure_type: EntityType,
    pub construction_time: u64,
}

/// The unit has no steps left and is not between cells.
pub open spec fn arrived(entity: Entity) -> bool {
    plan_of(entity).len() == 0 && !between_cells(entity)
}

/// What the builder at `i` is told a structure of type `structure_type` costs and takes.
pub open spec fn construction_config(entity: Entity, structure_type: EntityType) -> crate::entities::ConstructionConfig {
    keyed_get(entity.spec_unit().construction_options->Some_0@, structure_type)->Some_0
}

/// The structure that the builder `e`, on its way to build `structure_type` at `position`,
/// puts up.
pub open spec fn planned_structure(e: Entity, structure_type: EntityType, position: [u32; 2]) -> PlannedStructure {
    PlannedStructure {
        team: e.team,
        position,
        structure_type,
        construction_time: construction_config(e, structure_type).construction_time,
    }
}

/// What the step of a builder at `i` does: once it has arrived, when its structure fits it
/// claims the cells (its own cell is freed, the structure's cells are marked as its team's)
/// and is reported with the structure to put up; when the structure does not fit, its team
/// gets the cost back and it idles. Nothing else changes.
pub open spec fn prepare_construction_outcome(
    before: Core,
    after: Core,
    i: int,
    planned: Option<(EntityId, PlannedStructure)>,
) -> bool {
    let entities = before.spec_entities();
    let e = entities[i];
    let f = after.spec_entities()[i];
    match e.state {
        EntityState::MovingToConstruction(t, p) if arrived(e) => {
            let rect = CellRect { position: p, size: spec_entity_size(t) };
            if structure_fits(before.spec_grid(), e.position, rect) {
                &&& planned == Some((e.id, planned_structure(e, t, p)))
                &&& after.spec_entities() == entities
                &&& forall|team: Team| #[trigger] after.resources(team) == before.resources(team)
                &&& after.spec_grid().spec_dimensions() == before.spec_grid().spec_dimensions()
                &&& forall|c: [u32; 2]| #[trigger] after.spec_grid().cell(c) == if rect.spec_contains(c) {
                    Some(ObstacleType::Entity(e.team))
                } else if e.spec_cell_rect().spec_contains(c) {
                    Some(ObstacleType::Free)
                } else {
                    before.spec_grid().cell(c)
                }
            } else {
                &&& planned is None
                &&& others_kept(entities, after.spec_entities(), i)
                &&& f.state is Idle
                &&& plan_of(f) == plan_of(e)
                &&& after.resources(e.team) == Some(
                    saturating_sum(before.resources(e.team)->Some_0, construction_config(e, t).cost),
                )
                &&& forall|team: Team| team != e.team ==> #[trigger] after.resources(team) == before.resources(team)
                &&& after.spec_grid() == before.spec_grid()
            }
        },
        _ => {
            &&& planned is None
            &&& after.spec_entities() == entities
            &&& forall|team: Team| #[trigger] after.resources(team) == before.resources(team)
            &&& after.spec_grid() == before.spec_grid()
        },
    }
}

/// A builder that has arrived at its construction site.
pub open spec fn builder_arrived(entity: Entity) -> bool {
    entity.state is MovingToConstruction && arrived(entity)
}

/// The builder `e`, which has arrived, is reported as `id` with the structure it puts up.
pub open spec fn planned_by(e: Entity, id: EntityId, structure: PlannedStructure) -> bool {
    &&& e.id == id
    &&& arrived(e)
    &&& e.state matches EntityState::MovingToConstruction(t, p) && structure == planned_structure(e, t, p)
}

/// Each of `builders` is an entity of `entities` among the first `n` that has arrived, and
/// the structure at the same place of `planned` is the one it puts up.
pub open spec fn all_planned_by(
    entities: Seq<Entity>,
    n: int,
    builders: Seq<EntityId>,
    planned: Seq<PlannedStructure>,
) -> bool {
    forall|k: int| #![trigger builders[k]] 0 <= k < builders.len() ==> exists|m: int|
        0 <= m < n && planned_by(#[trigger] entities[m], builders[k], planned[k])
}

/// The cells that a builder's structure is to stand on (for any other entity, its own cells).
pub open spec fn construction_site(e: Entity) -> CellRect {
    match e.state {
        EntityState::MovingToConstruction(t, p) => CellRect { position: p, size: spec_entity_size(t) },
        _ => e.spec_cell_rect(),
    }
}

/// Whether the site of the structure of the entity at `m` is clear of the sites and the
/// cells of every builder before it that has arrived: no earlier builder can have claimed
/// any of it.
pub open spec fn site_clear_of_earlier(entities: Seq<Entity>, m: int) -> bool {
    forall|j: int, c: [u32; 2]|
        #![trigger builder_arrived(entities[j]), construction_site(entities[m]).spec_contains(c)]
        0 <= j < m && builder_arrived(entities[j]) && construction_site(entities[m]).spec_contains(c) ==> !construction_site(
            entities[j],
        ).spec_contains(c) && !entities[j].spec_cell_rect().spec_contains(c)
}

/// What preparing constructions does to the game: the builders that have arrived are
/// reported in order with the structures they put up; each of them is left as it was (its
/// structure claimed its site) or idles (it did not fit); all other entities are left alone.
/// A builder whose structure fits the grid, on a site that no earlier arrived builder can
/// have claimed, is always among those reported.
pub open spec fn constructions_prepared(
    before: Core,
    after: Core,
    builders: Seq<EntityId>,
    planned: Seq<PlannedStructure>,
) -> bool {
    let entities = before.spec_entities();
    &&& after.spec_entities().len() == entities.len()
    &&& builders.len() == planned.len()
    &&& all_planned_by(entities, entities.len() as int, builders, planned)
    &&& forall|m: int| 0 <= m < entities.len() ==> prepared_entity(
        #[trigger] entities[m],
        after.spec_entities()[m],
        builders,
    )
    &&& forall|m: int|
        0 <= m < entities.len() && builder_arrived(entities[m]) && structure_fits(
            before.spec_grid(),
            entities[m].position,
            construction_site(entities[m]),
        ) && #[trigger] site_clear_of_earlier(entities, m) ==> builders.contains(entities[m].id)
            && after.spec_entities()[m] == entities[m]
}

/// What preparing constructions did to `e`, now `f`: a builder that has arrived was either
/// reported among `builders` and left as it was, or it idles (its structure did not fit);
/// any other entity is left as it was.
pub open spec fn prepared_entity(e: Entity, f: Entity, builders: Seq<EntityId>) -> bool {
    if builder_arrived(e) {
        (builders.contains(e.id) && f == e) || f.state is Idle
    } else {
        f == e
    }
}

/// A builder that has arrived, whose structure fits the grid on a site that no earlier
/// arrived builder can have claimed, turns into its structure: it is reported among the
/// builders with the structure it was sent to put up, and when the structures are put up
/// one of them is a structure of that type, of its team, at the planned position, under
/// construction with its whole construction time still to go.
pub proof fn law_arrived_builder_on_clear_site_is_built(
    before: Core,
    after: Core,
    builders: Seq<EntityId>,
    planned: Seq<PlannedStructure>,
    survivors: Seq<Entity>,
    started: Seq<Entity>,
    next_id: usize,
    m: int,
)
    requires
        before.wf(),
        constructions_prepared(before, after, builders, planned),
        constructions_started(survivors, started, planned, next_id),
        next_id + planned.len() < usize::MAX,
        0 <= m < before.spec_entities().len(),
        builder_arrived(before.spec_entities()[m]),
        structure_fits(
            before.spec_grid(),
            before.spec_entities()[m].position,
            construction_site(before.spec_entities()[m]),
        ),
        site_clear_of_earlier(before.spec_entities(), m),
    ensures
        after.spec_entities()[m] == before.spec_entities()[m],
        exists|k: int| 0 <= k < builders.len() && #[trigger] builders[k] == before.spec_entities()[m].id && {
            let e = before.spec_entities()[m];
            let s = started[survivors.len() + k];
            &&& e.state matches EntityState::MovingToConstruction(t, p) && {
                &&& planned[k] == planned_structure(e, t, p)
                &&& s.entity_type == t
                &&& s.position == p
                &&& s.team == e.team
                &&& s.state == EntityState::UnderConstruction(
                    construction_config(e, t).construction_time,
                    construction_config(e, t).construction_time,
                )
            }
        },
{
    before.lemma_wf();
    let es = before.spec_entities();
    let e = es[m];
    assert(builders.contains(e.id));
    let k = choose|k: int| 0 <= k < builders.len() && builders[k] == e.id;
    let j = choose|j: int| 0 <= j < es.len() && planned_by(#[trigger] es[j], builders[k], planned[k]);
    assert(es[j].id == es[m].id);
    assert(j == m);
    assert(structure_started(started[survivors.len() + k], EntityId((next_id + k) as usize), planned[k]));
}

/// A builder's structure that fits the grid at the start, on a site that no earlier arrived
/// builder can have claimed, still fits when its turn comes: only the sites and cells of
/// earlier arrived builders have changed.
proof fn lemma_clear_site_still_fits(start: Core, before: Core, i: int)
    requires
        0 <= i < start.spec_entities().len(),
        before.spec_entities().len() == start.spec_entities().len(),
        before.spec_entities()[i] == start.spec_entities()[i],
        forall|c: [u32; 2]| #[trigger] before.spec_grid().cell(c) != start.spec_grid().cell(c) ==> exists|j: int|
            0 <= j < i && #[trigger] builder_arrived(start.spec_entities()[j]) && (construction_site(
                start.spec_entities()[j],
            ).spec_contains(c) || start.spec_entities()[j].spec_cell_rect().spec_contains(c)),
    ensures
        builder_arrived(start.spec_entities()[i]) && structure_fits(
            start.spec_grid(),
            start.spec_entities()[i].position,
            construction_site(start.spec_entities()[i]),
        ) && site_clear_of_earlier(start.spec_entities(), i) ==> structure_fits(
            before.spec_grid(),
            start.spec_entities()[i].position,
            construction_site(start.spec_entities()[i]),
        ),
{
    let es = start.spec_entities();
    let e = es[i];
    if builder_arrived(e) && structure_fits(start.spec_grid(), e.position, construction_site(e))
        && site_clear_of_earlier(es, i) {
        assert forall|x: u32, y: u32|
            #[trigger] rect_has(construction_site(e), x, y) && [x, y] != e.position implies before.spec_grid().cell(
                [x, y],
            ) == Some(ObstacleType::Free) by {
            let c = [x, y];
            if before.spec_grid().cell(c) != start.spec_grid().cell(c) {
                let j = choose|j: int|
                    0 <= j < i && #[trigger] builder_arrived(es[j]) && (construction_site(es[j]).spec_contains(c)
                        || es[j].spec_cell_rect().spec_contains(c));
                assert(construction_site(e).spec_contains(c));
            }
        }
    }
}

impl Core {
    /// What a planned structure needs to be put up in this core.
    pub open spec fn planned_ok(&self, planned: PlannedStructure) -> bool {
        &&& self.resources(planned.team) is Some
        &&& is_structure_type(planned.structure_type)
        &&& rect_fits(
            CellRect { position: planned.position, size: spec_entity_size(planned.structure_type) },
            self.spec_grid().spec_dimensions(),
        )
    }

    /// A builder that has arrived (no steps left, not between cells) claims the cells of its
    /// structure when it fits: it frees its own cell, and the structure's cells are marked as
    /// its team's; the builder is to be removed and the structure to be put up. When the
    /// structure does not fit, the builder's team gets the cost back and the builder idles.
    fn update_prepare_construction_of(&mut self, i: usize) -> (planned: Option<(EntityId, PlannedStructure)>)
        requires
            old(self).wf(),
            i < old(self).spec_entities().len(),
        ensures
            positions_kept(old(self).spec_entities(), final(self).spec_entities()),
            trainings_kept(old(self).spec_entities(), final(self).spec_entities()),
            constructions_kept(old(self).spec_entities(), final(self).spec_entities()),
            roster_step(*old(self), *final(self)),
            planned matches Some((builder, structure)) ==> {
                &&& builder == old(self).spec_entities()[i as int].id
                &&& final(self).planned_ok(structure)
                &&& structure.team == old(self).spec_entities()[i as int].team
            },
            prepare_construction_outcome(*old(self), *final(self), i as int, planned),
    {
        proof {
            self.lemma_wf();
        }
        let ghost before = *self;
        let ghost dims = self.obstacle_grid.spec_dimensions();
        let (structure_type, structure_position) = match self.entities[i].state {
            EntityState::MovingToConstruction(structure_type, structure_position) => (structure_type, structure_position),
            _ => {
                return None;
            },
        };
        proof {
            assert(entity_ok(self.entities@[i as int], dims, self.next_entity_id));
            assert(team_state_of(self.teams@, self.entities@[i as int].team) is Some);
        }
        let has_arrived = self.entities[i].unit().movement_plan.peek().is_none() && !self.entities[i].unit().sub_cell_movement.is_between_cells();
        if !has_arrived {
            return None;
        }
        let structure_size = self.structure_size(&structure_type);
        let position = self.entities[i].position;
        let team = self.entities[i].team;
        let config = match &self.entities[i].unit().construction_options {
            Some(options) => crate::entities::keyed_get_exec(options, structure_type).unwrap(),
            None => vstd::pervasive::unreached(),
        };
        if self.can_structure_fit(position, structure_position, structure_size) {
            let builder_id = self.entities[i].id;
            let builder_rect = self.entities[i].cell_rect();
            let structure_rect = CellRect { position: structure_position, size: structure_size };
            proof {
                lemma_fitting_rect_in_grid(self.obstacle_grid, position, structure_rect);
                assert(rect_has(structure_rect, (structure_position[0] + 2) as u32, (structure_position[1] + 2) as u32));
            }
            self.obstacle_grid.set_area(builder_rect, ObstacleType::Free);
            self.obstacle_grid.set_area(structure_rect, ObstacleType::Entity(team));
            proof {
                self.lemma_grid_changed(before);
                assert(config == construction_config(before.entities@[i as int], structure_type));
            }
            Some(
                (
                    builder_id,
                    PlannedStructure {
                        team,
                        position: structure_position,
                        structure_type,
                        construction_time: config.construction_time,
                    },
                ),
            )
        } else {
            self.add_resources(team, config.cost);
            proof {
                assert(config == construction_config(before.entities@[i as int], structure_type));
            }
            let ghost refunded = *self;
            self.entities[i].state = EntityState::Idle;
            proof {
                assert(self.entities@ == refunded.entities@.update(i as int, self.entities@[i as int]));
                lemma_entities_update(refunded.entities@, dims, self.next_entity_id, self.teams@, i as int, self.entities@[i as int]);
                assert(same_roster(before.entities@, self.entities@)) by {
                    assert forall|k: int| 0 <= k < before.entities@.len() implies same_identity(#[trigger] before.entities@[k], self.entities@[k]) by {
                    }
                }
                assert forall|t: Team| {
                    &&& (#[trigger] self.resources(t) is Some) == (before.resources(t) is Some)
                    &&& before.resources(t) matches Some(r) ==> self.resources(t)->Some_0 >= r
                } by {
                    assert(self.resources(t) == refunded.resources(t));
                }
                assert forall|t: Team| t != team implies #[trigger] self.resources(t) == before.resources(t) by {
                    assert(self.resources(t) == refunded.resources(t));
                }
            }
            None
        }
    }
}


/// The entity has health and none of it is left.
pub open spec fn dead(entity: Entity) -> bool {
    entity.health matches Some(h) && h.current == 0
}

/// Whether `c` is a cell of a dead entity or of a used-up resource among `entities`: such
/// cells are freed when the entities are taken out.
pub open spec fn cleared_cell(entities: Seq<Entity>, used_up: Seq<EntityId>, c: [u32; 2]) -> bool {
    exists|k: int|
        0 <= k < entities.len() && (dead(entities[k]) || used_up.contains(entities[k].id))
            && (#[trigger] entities[k]).spec_cell_rect().spec_contains(c)
}

/// Whether `c` is a cell of an entity of `after` that comes after the first `n`.
pub open spec fn covered_by_added(after: Seq<Entity>, n: int, c: [u32; 2]) -> bool {
    exists|k: int| n <= k < after.len() && (#[trigger] after[k]).spec_cell_rect().spec_contains(c)
}

/// Whether the update takes an entity out of the game: it died, it turned into a
/// structure, or it is a resource that was used up.
pub open spec fn should_remove(entity: Entity, builders: Seq<EntityId>, used_up: Seq<EntityId>) -> bool {
    ||| entity.health matches Some(h) && h.current == 0
    ||| builders.contains(entity.id)
    ||| used_up.contains(entity.id)
}

/// The entities that stay, in their order.
pub open spec fn survivors(entities: Seq<Entity>, builders: Seq<EntityId>, used_up: Seq<EntityId>) -> Seq<Entity>
    decreases entities.len(),
{
    if entities.len() == 0 {
        Seq::empty()
    } else {
        let rest = survivors(entities.drop_last(), builders, used_up);
        if should_remove(entities.last(), builders, used_up) {
            rest
        } else {
            rest.push(entities.last())
        }
    }
}

/// The ids of the entities taken out, in their order.
pub open spec fn removed_ids(entities: Seq<Entity>, builders: Seq<EntityId>, used_up: Seq<EntityId>) -> Seq<EntityId>
    decreases entities.len(),
{
    if entities.len() == 0 {
        Seq::empty()
    } else {
        let rest = removed_ids(entities.drop_last(), builders, used_up);
        if should_remove(entities.last(), builders, used_up) {
            rest.push(entities.last().id)
        } else {
            rest
        }
    }
}

proof fn lemma_survivors(entities: Seq<Entity>, builders: Seq<EntityId>, used_up: Seq<EntityId>)
    ensures
        forall|k: int| 0 <= k < survivors(entities, builders, used_up).len() ==> entities.contains(#[trigger] survivors(entities, builders, used_up)[k]),
        forall|k: int| 0 <= k < survivors(entities, builders, used_up).len() ==> !should_remove(#[trigger] survivors(entities, builders, used_up)[k], builders, used_up),
        forall|k: int| 0 <= k < entities.len() && !should_remove(entities[k], builders, used_up) ==> survivors(entities, builders, used_up).contains(#[trigger] entities[k]),
        forall|k: int| 0 <= k < entities.len() && should_remove(entities[k], builders, used_up) ==> removed_ids(entities, builders, used_up).contains(#[trigger] entities[k].id),
        forall|k: int| 0 <= k < removed_ids(entities, builders, used_up).len() ==> exists|j: int| 0 <= j < entities.len() && entities[j].id == #[trigger] removed_ids(entities, builders, used_up)[k] && should_remove(entities[j], builders, used_up),
    decreases entities.len(),
{
    if entities.len() > 0 {
        let init = entities.drop_last();
        lemma_survivors(init, builders, used_up);
        let sv = survivors(entities, builders, used_up);
        let rv = removed_ids(entities, builders, used_up);
        let sv0 = survivors(init, builders, used_up);
        let rv0 = removed_ids(init, builders, used_up);
        let n = entities.len() - 1;
        assert forall|k: int| 0 <= k < sv.len() implies !should_remove(#[trigger] sv[k], builders, used_up) by {
            if k < sv0.len() {
                assert(sv[k] == sv0[k]);
            }
        }
        assert forall|k: int| 0 <= k < sv.len() implies entities.contains(#[trigger] sv[k]) by {
            if k < sv0.len() {
                assert(sv[k] == sv0[k]);
                let j = choose|j: int| 0 <= j < init.len() && init[j] == sv0[k];
                assert(entities[j] == sv[k]);
            } else {
                assert(sv[k] == entities[n]);
            }
        }
        assert forall|k: int| 0 <= k < entities.len() && !should_remove(entities[k], builders, used_up) implies sv.contains(#[trigger] entities[k]) by {
            if k < n {
                assert(init[k] == entities[k]);
                assert(sv0.contains(init[k]));
                let j = choose|j: int| 0 <= j < sv0.len() && sv0[j] == init[k];
                assert(sv[j] == entities[k]);
            } else {
                assert(sv[sv.len() - 1] == entities[k]);
            }
        }
        assert forall|k: int| 0 <= k < entities.len() && should_remove(entities[k], builders, used_up) implies rv.contains(#[trigger] entities[k].id) by {
            if k < n {
                assert(init[k] == entities[k]);
                assert(rv0.contains(init[k].id));
                let j = choose|j: int| 0 <= j < rv0.len() && rv0[j] == init[k].id;
                assert(rv[j] == entities[k].id);
            } else {
                assert(rv[rv.len() - 1] == entities[k].id);
            }
        }
        assert forall|k: int| 0 <= k < rv.len() implies exists|j: int| 0 <= j < entities.len() && entities[j].id == #[trigger] rv[k] && should_remove(entities[j], builders, used_up) by {
            if k < rv0.len() {
                assert(rv[k] == rv0[k]);
                let j = choose|j: int| 0 <= j < init.len() && init[j].id == rv0[k] && should_remove(init[j], builders, used_up);
                assert(entities[j] == init[j]);
            } else {
                assert(rv[k] == entities[n].id);
            }
        }
    }
}

proof fn lemma_entities_remove(
    entities: Seq<Entity>,
    dimensions: [u32; 2],
    next_id: usize,
    teams: Seq<(Team, TeamState)>,
    i: int,
)
    requires
        entities_inv(entities, dimensions, next_id, teams),
        0 <= i < entities.len(),
    ensures
        entities_inv(entities.remove(i), dimensions, next_id, teams),
{
    let s = entities.remove(i);
    assert forall|a: int| 0 <= a < s.len() implies s[a] == entities[if a < i { a } else { a + 1 }] by {
    }
    assert forall|a: int, b: int| 0 <= a < s.len() && 0 <= b < s.len() implies attack_target_ok(
        #[trigger] s[a],
        #[trigger] s[b],
    ) by {
        let a2 = if a < i { a } else { a + 1 };
        let b2 = if b < i { b } else { b + 1 };
        assert(attack_target_ok(entities[a2], entities[b2]));
    }
    assert forall|a: int, b: int|
        0 <= a < s.len() && 0 <= b < s.len() && a != b implies s[a].id != s[b].id by {
        let a2 = if a < i { a } else { a + 1 };
        let b2 = if b < i { b } else { b + 1 };
        assert(entities[a2].id != entities[b2].id);
    }
    assert forall|a: int| 0 <= a < s.len() implies entity_ok(#[trigger] s[a], dimensions, next_id) by {
        let a2 = if a < i { a } else { a + 1 };
        assert(entity_ok(entities[a2], dimensions, next_id));
    }
    assert forall|a: int| 0 <= a < s.len() implies team_state_of(teams, #[trigger] s[a].team) is Some by {
        let a2 = if a < i { a } else { a + 1 };
        assert(team_state_of(teams, entities[a2].team) is Some);
    }
}

proof fn lemma_resources_kept_same_teams(start: Core, mid: Core, end: Core)
    requires
        resources_kept(start, mid),
        end.spec_teams() == mid.spec_teams(),
    ensures
        resources_kept(start, end),
{
    assert forall|t: Team| {
        &&& (#[trigger] end.resources(t) is Some) == (start.resources(t) is Some)
        &&& start.resources(t) matches Some(r) ==> end.resources(t)->Some_0 >= r
    } by {
        assert(end.resources(t) == mid.resources(t));
    }
}

/// Whether an id occurs in a list of ids.
fn contains_id(ids: &Vec<EntityId>, id: EntityId) -> (found: bool)
    ensures
        found == ids@.contains(id),
{
    let n = ids.len();
    let mut k: usize = 0;
    while k < n
        invariant
            n == ids@.len(),
            k <= n,
            forall|m: int| 0 <= m < k ==> ids@[m] != id,
        decreases n - k,
    {
        if ids[k] == id {
            assert(ids@[k as int] == id);
            return true;
        }
        k = k + 1;
    }
    false
}

impl Core {
    /// Takes out the dead entities, the builders that turned into structures and the used up
    /// resources; the cells of the dead and the used up are freed, and a builder that dies on
    /// its way to a construction site gets the cost back to its team. Returns the ids taken out.
    fn remove_entities(&mut self, builders: &Vec<EntityId>, used_up: &Vec<EntityId>) -> (removed: Vec<EntityId>)
        requires
            old(self).wf(),
        ensures
            final(self).wf(),
            final(self).spec_entities() == survivors(old(self).spec_entities(), builders@, used_up@),
            removed@ == removed_ids(old(self).spec_entities(), builders@, used_up@),
            forall|c: [u32; 2]| #[trigger] final(self).spec_grid().cell(c) == if cleared_cell(old(self).spec_entities(), used_up@, c) {
                Some(ObstacleType::Free)
            } else {
                old(self).spec_grid().cell(c)
            },
            final(self).spec_next_id() == old(self).spec_next_id(),
            final(self).spec_grid().spec_dimensions() == old(self).spec_grid().spec_dimensions(),
            resources_kept(*old(self), *final(self)),
    {
        let ghost start = *self;
        let ghost old_entities = self.entities@;
        let total = self.entities.len();
        let ghost n = old_entities.len();
        let mut removed: Vec<EntityId> = Vec::new();
        let mut i: usize = 0;
        let mut j: usize = 0;
        let ghost dims = self.obstacle_grid.spec_dimensions();
        proof {
            assert(old_entities.take(0) =~= Seq::<Entity>::empty());
            assert(self.entities@ =~= survivors(old_entities.take(0), builders@, used_up@) + old_entities.skip(0));
        }
        while i < self.entities.len()
            invariant
                self.wf(),
                n == old_entities.len(),
                total == n,
                old_entities == start.entities@,
                j <= n,
                self.entities@ == survivors(old_entities.take(j as int), builders@, used_up@) + old_entities.skip(j as int),
                i == survivors(old_entities.take(j as int), builders@, used_up@).len(),
                removed@ == removed_ids(old_entities.take(j as int), builders@, used_up@),
                forall|c: [u32; 2]| #[trigger] self.obstacle_grid.cell(c) == if cleared_cell(old_entities.take(j as int), used_up@, c) {
                    Some(ObstacleType::Free)
                } else {
                    start.obstacle_grid.cell(c)
                },
                self.next_entity_id == start.next_entity_id,
                self.obstacle_grid.spec_dimensions() == dims,
                dims == start.obstacle_grid.spec_dimensions(),
                resources_kept(start, *self),
            decreases self.entities@.len() - i,
        {
            proof {
                assert(j < n) by {
                    if j >= n {
                        assert(old_entities.skip(j as int).len() == 0);
                    }
                }
                assert(self.entities@[i as int] == old_entities[j as int]);
                assert(old_entities.take(j + 1).drop_last() =~= old_entities.take(j as int));
                assert(old_entities.take(j + 1).last() == old_entities[j as int]);
            }
            let id = self.entities[i].id;
            let is_dead = match &self.entities[i].health {
                Some(health) => health.current == 0,
                None => false,
            };
            let ghost before_repay = *self;
            if is_dead {
                self.maybe_repay_construction_cost(i);
                proof {
                    assert forall|t: Team| {
                        &&& (#[trigger] self.resources(t) is Some) == (start.resources(t) is Some)
                        &&& start.resources(t) matches Some(r) ==> self.resources(t)->Some_0 >= r
                    } by {
                        assert(before_repay.resources(t) is Some == start.resources(t) is Some);
                    }
                }
            }
            let ghost after_repay = *self;
            let is_transforming = contains_id(builders, id);
            let is_used_up = contains_id(used_up, id);
            let ghost grid_before = self.obstacle_grid;
            proof {
                let t0 = old_entities.take(j as int);
                let t1 = old_entities.take(j + 1);
                assert forall|c: [u32; 2]| #[trigger] cleared_cell(t1, used_up@, c) == (cleared_cell(t0, used_up@, c) || ((dead(old_entities[j as int]) || used_up@.contains(old_entities[j as int].id)) && old_entities[j as int].spec_cell_rect().spec_contains(c))) by {
                    if cleared_cell(t0, used_up@, c) {
                        let w = choose|w: int| 0 <= w < t0.len() && (dead(t0[w]) || used_up@.contains(t0[w].id)) && (#[trigger] t0[w]).spec_cell_rect().spec_contains(c);
                        assert(t1[w] == t0[w]);
                    }
                    if (dead(old_entities[j as int]) || used_up@.contains(old_entities[j as int].id)) && old_entities[j as int].spec_cell_rect().spec_contains(c) {
                        assert(t1[j as int] == old_entities[j as int]);
                    }
                    if cleared_cell(t1, used_up@, c) {
                        let w = choose|w: int| 0 <= w < t1.len() && (dead(t1[w]) || used_up@.contains(t1[w].id)) && (#[trigger] t1[w]).spec_cell_rect().spec_contains(c);
                        if w < j {
                            assert(t0[w] == t1[w]);
                        }
                    }
                }
                assert(self.entities@[i as int] == old_entities[j as int]);
                assert(is_dead == dead(old_entities[j as int]));
            }
            if is_dead || is_used_up {
                let rect = self.entities[i].cell_rect();
                proof {
                    self.lemma_wf();
                    assert(entity_ok(self.entities@[i as int], dims, self.next_entity_id));
                }
                let ghost before_clear = *self;
                self.obstacle_grid.set_area(rect, ObstacleType::Free);
                proof {
                    self.lemma_grid_changed(before_clear);
                }
            }
            if is_dead || is_transforming || is_used_up {
                removed.push(id);
                let ghost before_remove = *self;
                self.entities.remove(i);
                proof {
                    lemma_entities_remove(before_remove.entities@, dims, self.next_entity_id, self.teams@, i as int);
                    assert(self.entities@ =~= survivors(old_entities.take(j + 1), builders@, used_up@) + old_entities.skip(j + 1));
                    assert(removed@ =~= removed_ids(old_entities.take(j + 1), builders@, used_up@));
                }
            } else {
                i = i + 1;
                proof {
                    assert(self.entities@ =~= survivors(old_entities.take(j + 1), builders@, used_up@) + old_entities.skip(j + 1));
                }
            }
            proof {
                lemma_resources_kept_same_teams(start, after_repay, *self);
            }
            j = j + 1;
        }
        proof {
            assert(j == n) by {
                if j < n {
                    assert(self.entities@.len() > i);
                }
            }
            assert(old_entities.take(n as int) =~= old_entities);
            assert(self.entities@ =~= survivors(old_entities, builders@, used_up@));
        }
        removed
    }
}


/// Whether some entity with the given id is idle.
pub open spec fn has_idle_entity(entities: Seq<Entity>, id: EntityId) -> bool {
    exists|j: int| 0 <= j < entities.len() && entities[j].id == id && entities[j].state is Idle
}

/// The later list starts with the earlier one, and what was added has fresh ids.
pub open spec fn extends_with_fresh(before: Seq<Entity>, after: Seq<Entity>, next_id: usize) -> bool {
    &&& after.len() >= before.len()
    &&& after.subrange(0, before.len() as int) == before
    &&& forall|k: int| before.len() <= k < after.len() ==> (#[trigger] after[k]).id.0 >= next_id
    &&& forall|k: int| before.len() <= k < after.len() ==> alive(#[trigger] after[k])
}

/// An entity with health has some left.
pub open spec fn alive(entity: Entity) -> bool {
    entity.health matches Some(h) ==> h.current > 0
}

/// Every entity with health has some left.
pub open spec fn all_alive(entities: Seq<Entity>) -> bool {
    forall|k: int| 0 <= k < entities.len() ==> alive(#[trigger] entities[k])
}

/// The structure put up for `planned`, with the given id: of the planned type, team and
/// position, under construction for its whole construction time.
pub open spec fn structure_started(e: Entity, id: EntityId, planned: PlannedStructure) -> bool {
    &&& e.id == id
    &&& e.entity_type == planned.structure_type
    &&& e.position == planned.position
    &&& e.team == planned.team
    &&& e.state == EntityState::UnderConstruction(planned.construction_time, planned.construction_time)
    &&& e.health == data::spec_initial_health(planned.structure_type)
}

/// The entities after the planned structures were put up: the earlier ones, then one new
/// structure for each planned one, in order, with ids that go on from `next_id` (when the
/// ids do not run out).
pub open spec fn constructions_started(
    before: Seq<Entity>,
    after: Seq<Entity>,
    planned: Seq<PlannedStructure>,
    next_id: usize,
) -> bool {
    next_id + planned.len() < usize::MAX ==> {
        &&& after.len() == before.len() + planned.len()
        &&& after.subrange(0, before.len() as int) == before
        &&& forall|m: int| 0 <= m < planned.len() ==> structure_started(
            #[trigger] after[before.len() + m],
            EntityId((next_id + m) as usize),
            planned[m],
        )
    }
}

impl Core {
    /// Puts up the planned structures, each under construction for its construction time.
    fn start_constructions(&mut self, planned: &Vec<PlannedStructure>)
        requires
            old(self).wf(),
            forall|k: int| 0 <= k < planned@.len() ==> old(self).planned_ok(#[trigger] planned@[k]),
        ensures
            final(self).wf(),
            forall|t: Team| #[trigger] final(self).resources(t) == old(self).resources(t),
            final(self).spec_grid() == old(self).spec_grid(),
            final(self).spec_next_id() >= old(self).spec_next_id(),
            extends_with_fresh(old(self).spec_entities(), final(self).spec_entities(), old(self).spec_next_id()),
            constructions_started(old(self).spec_entities(), final(self).spec_entities(), planned@, old(self).spec_next_id()),
            old(self).spec_next_id() + planned@.len() < usize::MAX ==> final(self).spec_next_id() == old(self).spec_next_id() + planned@.len(),
    {
        let ghost start = *self;
        let n = planned.len();
        let mut k: usize = 0;
        proof {
            assert(self.entities@.subrange(0, start.entities@.len() as int) =~= start.entities@);
        }
        while k < n
            invariant
                n == planned@.len(),
                k <= n,
                self.wf(),
                forall|t: Team| #[trigger] self.resources(t) == start.resources(t),
                self.obstacle_grid == start.obstacle_grid,
                self.next_entity_id >= start.next_entity_id,
                extends_with_fresh(start.entities@, self.entities@, start.next_entity_id),
                forall|m: int| 0 <= m < planned@.len() ==> start.planned_ok(#[trigger] planned@[m]),
                start.next_entity_id + n < usize::MAX ==> {
                    &&& self.entities@.len() == start.entities@.len() + k
                    &&& self.next_entity_id == start.next_entity_id + k
                    &&& forall|m: int| 0 <= m < k ==> structure_started(
                        #[trigger] self.entities@[start.entities@.len() + m],
                        EntityId((start.next_entity_id + m) as usize),
                        planned@[m],
                    )
                },
            decreases n - k,
        {
            let structure = &planned[k];
            proof {
                assert(start.planned_ok(planned@[k as int]));
                assert(self.resources(structure.team) == start.resources(structure.team));
            }
            let ghost before = *self;
            let spawned = self.spawn_entity(structure.structure_type, structure.position, structure.team);
            if spawned.is_some() {
                let ghost spawned_core = *self;
                let last = self.entities.len() - 1;
                let time = structure.construction_time;
                self.entities[last].state = EntityState::UnderConstruction(time, time);
                proof {
                    let dims = self.obstacle_grid.spec_dimensions();
                    assert(self.entities@ == spawned_core.entities@.update(last as int, self.entities@[last as int]));
                    assert(entity_ok(spawned_core.entities@[last as int], dims, self.next_entity_id));
                    lemma_entities_update(spawned_core.entities@, dims, self.next_entity_id, self.teams@, last as int, self.entities@[last as int]);
                    assert forall|t: Team| #[trigger] self.resources(t) == start.resources(t) by {
                        assert(self.resources(t) == spawned_core.resources(t));
                        assert(spawned_core.resources(t) == before.resources(t));
                    }
                    assert forall|m: int| start.entities@.len() <= m < self.entities@.len() implies (#[trigger] self.entities@[m]).id.0 >= start.next_entity_id by {
                        if m < before.entities@.len() {
                            assert(self.entities@[m] == before.entities@[m]);
                        }
                    }
                    assert forall|m: int| start.entities@.len() <= m < self.entities@.len() implies alive(#[trigger] self.entities@[m]) by {
                        if m < before.entities@.len() {
                            assert(self.entities@[m] == before.entities@[m]);
                        } else {
                            assert(self.entities@[m].health == spawned_core.entities@[m].health);
                        }
                    }
                    if start.next_entity_id + n < usize::MAX {
                        assert forall|m: int| 0 <= m < k + 1 implies structure_started(
                            #[trigger] self.entities@[start.entities@.len() + m],
                            EntityId((start.next_entity_id + m) as usize),
                            planned@[m],
                        ) by {
                            if m < k {
                                assert(self.entities@[start.entities@.len() + m] == before.entities@[start.entities@.len() + m]);
                            } else {
                                assert(start.entities@.len() + m == last);
                            }
                        }
                    }
                }
            } else {
                proof {
                    assert forall|m: int| start.entities@.len() <= m < self.entities@.len() implies (#[trigger] self.entities@[m]).id.0 >= start.next_entity_id by {
                        assert(self.entities@[m] == before.entities@[m]);
                    }
                }
            }
            proof {
                assert(self.entities@.subrange(0, start.entities@.len() as int) =~= start.entities@);
            }
            k = k + 1;
        }
    }
}


impl Core {
    /// Lets `dt` nanoseconds of a construction pass; a structure whose construction is over
    /// becomes idle, and its id is returned.
    fn update_construction_of(&mut self, i: usize, dt: u64) -> (finished: Option<EntityId>)
        requires
            old(self).wf(),
            i < old(self).spec_entities().len(),
        ensures
            final(self).spec_entities()[i as int].health == old(self).spec_entities()[i as int].health,
            positions_kept(old(self).spec_entities(), final(self).spec_entities()),
            roster_step(*old(self), *final(self)),
            final(self).spec_grid() == old(self).spec_grid(),
            forall|t: Team| #[trigger] final(self).resources(t) == old(self).resources(t),
            forall|k: int| 0 <= k < final(self).spec_entities().len() && k != i ==> final(self).spec_entities()[k] == old(self).spec_entities()[k],
            !(old(self).spec_entities()[i as int].state is UnderConstruction) ==> final(self).spec_entities()[i as int] == old(self).spec_entities()[i as int],
            finished matches Some(id) ==> id == final(self).spec_entities()[i as int].id && final(self).spec_entities()[i as int].state is Idle,
            old(self).spec_entities()[i as int].state matches EntityState::UnderConstruction(remaining, total) ==> {
                &&& final(self).spec_entities()[i as int].state == construction_step(remaining, total, dt)
                &&& (finished is Some) == (remaining <= dt)
            },
    {
        proof {
            self.lemma_wf();
        }
        let ghost before = *self;
        let ghost dims = self.obstacle_grid.spec_dimensions();
        let (remaining, total) = match self.entities[i].state {
            EntityState::UnderConstruction(remaining, total) => (remaining, total),
            _ => {
                return None;
            },
        };
        let left = remaining.saturating_sub(dt);
        let finished = if left == 0 {
            self.entities[i].state = EntityState::Idle;
            Some(self.entities[i].id)
        } else {
            self.entities[i].state = EntityState::UnderConstruction(left, total);
            None
        };
        proof {
            assert(self.entities@ == before.entities@.update(i as int, self.entities@[i as int]));
            assert(entity_ok(before.entities@[i as int], dims, self.next_entity_id));
            lemma_entities_update(before.entities@, dims, self.next_entity_id, self.teams@, i as int, self.entities@[i as int]);
            assert(same_roster(before.entities@, self.entities@)) by {
                assert forall|k: int| 0 <= k < before.entities@.len() implies same_identity(#[trigger] before.entities@[k], self.entities@[k]) by {
                }
            }
        }
        finished
    }

    /// Lets `dt` nanoseconds of a training pass; a structure whose training is done becomes
    /// idle, and what to place where is returned.
    fn update_training_of(&mut self, i: usize, dt: u64) -> (completed: Option<(EntityType, Team, CellRect)>)
        requires
            old(self).wf(),
            i < old(self).spec_entities().len(),
        ensures
            completed == training_finished(old(self).spec_entities()[i as int], dt),
            final(self).spec_entities()[i as int].health == old(self).spec_entities()[i as int].health,
            positions_kept(old(self).spec_entities(), final(self).spec_entities()),
            roster_step(*old(self), *final(self)),
            final(self).spec_grid() == old(self).spec_grid(),
            forall|t: Team| #[trigger] final(self).resources(t) == old(self).resources(t),
            forall|k: int| 0 <= k < final(self).spec_entities().len() && k != i ==> final(self).spec_entities()[k] == old(self).spec_entities()[k],
            !(old(self).spec_entities()[i as int].state is TrainingUnit) ==> final(self).spec_entities()[i as int] == old(self).spec_entities()[i as int],
            training_done(old(self).spec_entities()[i as int], final(self).spec_entities()[i as int], dt),
            completed matches Some((unit_type, team, rect)) ==> {
                &&& crate::data::is_unit_type(unit_type)
                &&& final(self).resources(team) is Some
                &&& rect_fits(rect, final(self).spec_grid().spec_dimensions())
                &&& rect.size[0] > 0 && rect.size[1] > 0
            },
    {
        proof {
            self.lemma_wf();
        }
        let ghost before = *self;
        let ghost dims = self.obstacle_grid.spec_dimensions();
        let unit_type = match self.entities[i].state {
            EntityState::TrainingUnit(unit_type) => unit_type,
            _ => {
                return None;
            },
        };
        proof {
            assert(entity_ok(self.entities@[i as int], dims, self.next_entity_id));
            assert(team_state_of(self.teams@, self.entities@[i as int].team) is Some);
        }
        let status = match &mut self.entities[i].training {
            Some(training) => Some(training.update(dt)),
            None => None,
        };
        let done = match status {
            Some(TrainingUpdateStatus::Done) => true,
            _ => false,
        };
        if done {
            self.entities[i].state = EntityState::Idle;
        }
        proof {
            assert(self.entities@ == before.entities@.update(i as int, self.entities@[i as int]));
            lemma_entities_update(before.entities@, dims, self.next_entity_id, self.teams@, i as int, self.entities@[i as int]);
            assert(same_roster(before.entities@, self.entities@)) by {
                assert forall|k: int| 0 <= k < before.entities@.len() implies same_identity(#[trigger] before.entities@[k], self.entities@[k]) by {
                }
            }
        }
        if done {
            Some((unit_type, self.entities[i].team, self.entities[i].cell_rect()))
        } else {
            None
        }
    }
}


proof fn lemma_resources_kept_trans(a: Core, b: Core, c: Core)
    requires
        resources_kept(a, b),
        forall|t: Team| #[trigger] c.resources(t) == b.resources(t),
    ensures
        resources_kept(a, c),
{
    assert forall|t: Team| {
        &&& (#[trigger] c.resources(t) is Some) == (a.resources(t) is Some)
        &&& a.resources(t) matches Some(r) ==> c.resources(t)->Some_0 >= r
    } by {
        assert(c.resources(t) == b.resources(t));
        assert(b.resources(t) is Some == a.resources(t) is Some);
    }
}

proof fn lemma_resources_kept_both(a: Core, b: Core, c: Core)
    requires
        resources_kept(a, b),
        resources_kept(b, c),
    ensures
        resources_kept(a, c),
{
    assert forall|t: Team| {
        &&& (#[trigger] c.resources(t) is Some) == (a.resources(t) is Some)
        &&& a.resources(t) matches Some(r) ==> c.resources(t)->Some_0 >= r
    } by {
        assert(c.resources(t) is Some == b.resources(t) is Some);
        assert(b.resources(t) is Some == a.resources(t) is Some);
    }
}

proof fn lemma_planned_kept(a: Core, b: Core, planned: PlannedStructure)
    requires
        a.planned_ok(planned),
        resources_kept(a, b),
        b.spec_grid().spec_dimensions() == a.spec_grid().spec_dimensions(),
    ensures
        b.planned_ok(planned),
{
    assert(b.resources(planned.team) is Some == a.resources(planned.team) is Some);
}

impl Core {
    /// Runs the phases in which units act, one entity after the other in each phase:
    /// movement, moving to combat, attacking, moving to a resource, gathering and
    /// bringing resources back. Returns the ids of the resources that were used up.
    fn update_units(&mut self, dt: u64) -> (used_up: Vec<EntityId>)
        requires
            old(self).wf(),
        ensures
            steps_taken(old(self).spec_entities(), final(self).spec_entities()),
            trainings_kept(old(self).spec_entities(), final(self).spec_entities()),
            constructions_kept(old(self).spec_entities(), final(self).spec_entities()),
            roster_step(*old(self), *final(self)),
            units_updated(*old(self), *final(self), dt, used_up@),
    {
        let ghost start = *self;
        proof {
            lemma_roster_step_refl(start);
        }
        let n = self.entities.len();
        let mut i: usize = 0;
        let ghost c10 = *self;
        let ghost mut s1: Seq<Core> = seq![*self];
        while i < n
            invariant
                i <= n,
                n == self.entities@.len(),
                roster_step(start, *self),
                constructions_kept(start.entities@, self.entities@),
                trainings_kept(start.entities@, self.entities@),
                forall|k: int| 0 <= k < i ==> moved_along_plan(start.entities@[k], #[trigger] self.entities@[k].position),
                forall|k: int| i <= k < n ==> #[trigger] self.entities@[k] == start.entities@[k],
                s1.len() == i + 1,
                s1[0] == c10,
                s1[i as int] == *self,
                phase_chain(s1, movement_step(dt)),
            decreases n - i,
        {
            let ghost before = *self;
            self.update_movement_of(i, dt);
            proof {
                lemma_phase_chain_push(s1, movement_step(dt), *self);
                s1 = s1.push(*self);
            }
            proof {
                lemma_roster_step_transitive(start, before, *self);
                lemma_constructions_kept_transitive(start.entities@, before.entities@, self.entities@);
                lemma_trainings_kept_transitive(start.entities@, before.entities@, self.entities@);
            }
            i = i + 1;
        }
        let mut i: usize = 0;
        let ghost c20 = *self;
        let ghost mut s2: Seq<Core> = seq![*self];
        while i < n
            invariant
                i <= n,
                n == self.entities@.len(),
                roster_step(start, *self),
                constructions_kept(start.entities@, self.entities@),
                trainings_kept(start.entities@, self.entities@),
                steps_taken(start.entities@, self.entities@),
                s2.len() == i + 1,
                s2[0] == c20,
                s2[i as int] == *self,
                phase_chain(s2, moving_to_combat_step()),
            decreases n - i,
        {
            let ghost before = *self;
            self.update_moving_to_combat_of(i);
            proof {
                lemma_phase_chain_push(s2, moving_to_combat_step(), *self);
                s2 = s2.push(*self);
            }
            proof {
                lemma_roster_step_transitive(start, before, *self);
                lemma_constructions_kept_transitive(start.entities@, before.entities@, self.entities@);
                lemma_trainings_kept_transitive(start.entities@, before.entities@, self.entities@);
            }
            i = i + 1;
        }
        let mut i: usize = 0;
        let ghost c30 = *self;
        let ghost mut s3: Seq<Core> = seq![*self];
        while i < n
            invariant
                i <= n,
                n == self.entities@.len(),
                roster_step(start, *self),
                constructions_kept(start.entities@, self.entities@),
                trainings_kept(start.entities@, self.entities@),
                steps_taken(start.entities@, self.entities@),
                s3.len() == i + 1,
                s3[0] == c30,
                s3[i as int] == *self,
                phase_chain(s3, attacking_step(dt)),
            decreases n - i,
        {
            let ghost before = *self;
            self.update_attacking_of(i, dt);
            proof {
                lemma_phase_chain_push(s3, attacking_step(dt), *self);
                s3 = s3.push(*self);
            }
            proof {
                lemma_roster_step_transitive(start, before, *self);
                lemma_constructions_kept_transitive(start.entities@, before.entities@, self.entities@);
                lemma_trainings_kept_transitive(start.entities@, before.entities@, self.entities@);
            }
            i = i + 1;
        }
        let mut i: usize = 0;
        let ghost c40 = *self;
        let ghost mut s4: Seq<Core> = seq![*self];
        while i < n
            invariant
                i <= n,
                n == self.entities@.len(),
                roster_step(start, *self),
                constructions_kept(start.entities@, self.entities@),
                trainings_kept(start.entities@, self.entities@),
                steps_taken(start.entities@, self.entities@),
                s4.len() == i + 1,
                s4[0] == c40,
                s4[i as int] == *self,
                phase_chain(s4, moving_to_resource_step()),
            decreases n - i,
        {
            let ghost before = *self;
            self.update_moving_to_resource_of(i);
            proof {
                lemma_phase_chain_push(s4, moving_to_resource_step(), *self);
                s4 = s4.push(*self);
            }
            proof {
                lemma_roster_step_transitive(start, before, *self);
                lemma_constructions_kept_transitive(start.entities@, before.entities@, self.entities@);
                lemma_trainings_kept_transitive(start.entities@, before.entities@, self.entities@);
            }
            i = i + 1;
        }
        let mut used_up: Vec<EntityId> = Vec::new();
        let mut i: usize = 0;
        let ghost c50 = *self;
        let ghost mut s5: Seq<Core> = seq![*self];
        let ghost mut found: Seq<Option<EntityId>> = Seq::empty();
        while i < n
            invariant
                i <= n,
                n == self.entities@.len(),
                roster_step(start, *self),
                constructions_kept(start.entities@, self.entities@),
                trainings_kept(start.entities@, self.entities@),
                steps_taken(start.entities@, self.entities@),
                s5.len() == i + 1,
                s5[0] == c50,
                s5[i as int] == *self,
                gathering_chain(s5, found, dt),
                used_up@ == found_ids(found),
            decreases n - i,
        {
            let ghost before = *self;
            let resource = self.update_gathering_of(i, dt);
            proof {
                let t = s5.push(*self);
                let fo = found.push(resource);
                assert(fo.drop_last() =~= found);
                assert forall|k: int| #![trigger t[k]] 0 <= k < fo.len() implies gathering_outcome(t[k], t[k + 1], k, dt, fo[k]) by {
                    if k < found.len() {
                        assert(gathering_outcome(s5[k], s5[k + 1], k, dt, found[k]));
                    }
                }
                s5 = t;
                found = fo;
            }
            if let Some(id) = resource {
                used_up.push(id);
            }
            proof {
                lemma_roster_step_transitive(start, before, *self);
                lemma_constructions_kept_transitive(start.entities@, before.entities@, self.entities@);
                lemma_trainings_kept_transitive(start.entities@, before.entities@, self.entities@);
            }
            i = i + 1;
        }
        let mut i: usize = 0;
        let ghost c60 = *self;
        let ghost mut s6: Seq<Core> = seq![*self];
        while i < n
            invariant
                i <= n,
                n == self.entities@.len(),
                roster_step(start, *self),
                constructions_kept(start.entities@, self.entities@),
                trainings_kept(start.entities@, self.entities@),
                steps_taken(start.entities@, self.entities@),
                s6.len() == i + 1,
                s6[0] == c60,
                s6[i as int] == *self,
                phase_chain(s6, returning_resource_step()),
            decreases n - i,
        {
            let ghost before = *self;
            self.update_returning_resource_of(i);
            proof {
                lemma_phase_chain_push(s6, returning_resource_step(), *self);
                s6 = s6.push(*self);
            }
            proof {
                lemma_roster_step_transitive(start, before, *self);
                lemma_constructions_kept_transitive(start.entities@, before.entities@, self.entities@);
                lemma_trainings_kept_transitive(start.entities@, before.entities@, self.entities@);
            }
            i = i + 1;
        }
        proof {
            let n = start.spec_entities().len() as int;
            assert(phase_run(c10, c20, n, movement_step(dt)));
            assert(phase_run(c20, c30, n, moving_to_combat_step()));
            assert(phase_run(c30, c40, n, attacking_step(dt)));
            assert(phase_run(c40, c50, n, moving_to_resource_step()));
            assert(gathering_run(c50, c60, n, dt, used_up@));
            assert(phase_run(c60, *self, n, returning_resource_step()));
            reveal(units_updated);
        }
        used_up
    }

    /// Lets every builder that has arrived claim the site of its structure. Returns the ids
    /// of the builders that are to turn into structures, and the structures to put up.
    fn prepare_constructions(&mut self) -> (prepared: (Vec<EntityId>, Vec<PlannedStructure>))
        requires
            old(self).wf(),
        ensures
            positions_kept(old(self).spec_entities(), final(self).spec_entities()),
            trainings_kept(old(self).spec_entities(), final(self).spec_entities()),
            constructions_kept(old(self).spec_entities(), final(self).spec_entities()),
            roster_step(*old(self), *final(self)),
            forall|k: int| 0 <= k < prepared.1@.len() ==> final(self).planned_ok(#[trigger] prepared.1@[k]),
            prepared.0@.len() == prepared.1@.len(),
            all_planned_by(old(self).spec_entities(), old(self).spec_entities().len() as int, prepared.0@, prepared.1@),
            forall|m: int| 0 <= m < old(self).spec_entities().len() ==> prepared_entity(
                #[trigger] old(self).spec_entities()[m],
                final(self).spec_entities()[m],
                prepared.0@,
            ),
            forall|m: int|
                0 <= m < old(self).spec_entities().len() && builder_arrived(old(self).spec_entities()[m])
                    && structure_fits(
                    old(self).spec_grid(),
                    old(self).spec_entities()[m].position,
                    construction_site(old(self).spec_entities()[m]),
                ) && #[trigger] site_clear_of_earlier(old(self).spec_entities(), m) ==> prepared.0@.contains(
                    old(self).spec_entities()[m].id,
                ) && final(self).spec_entities()[m] == old(self).spec_entities()[m],
    {
        let ghost start = *self;
        proof {
            lemma_roster_step_refl(start);
        }
        let mut builders: Vec<EntityId> = Vec::new();
        let mut planned: Vec<PlannedStructure> = Vec::new();
        let n = self.entities.len();
        let mut i: usize = 0;
        while i < n
            invariant
                i <= n,
                n == self.entities@.len(),
                roster_step(start, *self),
                positions_kept(start.entities@, self.entities@),
                constructions_kept(start.entities@, self.entities@),
                trainings_kept(start.entities@, self.entities@),
                forall|k: int| 0 <= k < planned@.len() ==> self.planned_ok(#[trigger] planned@[k]),
                builders@.len() == planned@.len(),
                forall|m: int| i <= m < n ==> #[trigger] self.entities@[m] == start.entities@[m],
                forall|m: int| 0 <= m < i ==> prepared_entity(#[trigger] start.entities@[m], self.entities@[m], builders@),
                all_planned_by(start.entities@, i as int, builders@, planned@),
                forall|c: [u32; 2]| #[trigger] self.spec_grid().cell(c) != start.spec_grid().cell(c) ==> exists|j: int|
                    0 <= j < i && #[trigger] builder_arrived(start.entities@[j]) && (construction_site(
                        start.entities@[j],
                    ).spec_contains(c) || start.entities@[j].spec_cell_rect().spec_contains(c)),
                forall|m: int|
                    0 <= m < i && builder_arrived(start.entities@[m]) && structure_fits(
                        start.spec_grid(),
                        start.entities@[m].position,
                        construction_site(start.entities@[m]),
                    ) && #[trigger] site_clear_of_earlier(start.entities@, m) ==> builders@.contains(
                        start.entities@[m].id,
                    ) && self.entities@[m] == start.entities@[m],
            decreases n - i,
        {
            proof {
                lemma_clear_site_still_fits(start, *self, i as int);
            }
            let ghost before = *self;
            let ghost old_builders = builders@;
            let prepared = self.update_prepare_construction_of(i);
            proof {
                assert(before.entities@[i as int] == start.entities@[i as int]);
                lemma_roster_step_transitive(start, before, *self);
                lemma_constructions_kept_transitive(start.entities@, before.entities@, self.entities@);
                lemma_trainings_kept_transitive(start.entities@, before.entities@, self.entities@);
                assert forall|k: int| 0 <= k < planned@.len() implies self.planned_ok(#[trigger] planned@[k]) by {
                    lemma_planned_kept(before, *self, planned@[k]);
                }
            }
            if let Some((builder, structure)) = prepared {
                builders.push(builder);
                planned.push(structure);
                proof {
                    assert(planned_by(start.entities@[i as int], builder, structure));
                    assert(builders@[builders@.len() - 1] == builder);
                }
            }
            proof {
                assert forall|m: int| 0 <= m < i + 1 implies prepared_entity(#[trigger] start.entities@[m], self.entities@[m], builders@) by {
                    if m < i {
                        assert(self.entities@[m] == before.entities@[m]);
                        assert(prepared_entity(start.entities@[m], before.entities@[m], old_builders));
                        if old_builders.contains(start.entities@[m].id) {
                            let w = choose|w: int| 0 <= w < old_builders.len() && old_builders[w] == start.entities@[m].id;
                            assert(builders@[w] == old_builders[w]);
                        }
                    } else if builder_arrived(start.entities@[m]) && prepared is Some {
                        assert(builders@[builders@.len() - 1] == start.entities@[m].id);
                    }
                }
                assert forall|k: int| #![trigger builders@[k]] 0 <= k < builders@.len() implies exists|m: int|
                    0 <= m < i + 1 && planned_by(#[trigger] start.entities@[m], builders@[k], planned@[k]) by {
                    if k < old_builders.len() {
                        assert(builders@[k] == old_builders[k]);
                    } else {
                        assert(planned_by(start.entities@[i as int], builders@[k], planned@[k]));
                    }
                }
                let e = start.entities@[i as int];
                assert forall|c: [u32; 2]| #[trigger] self.spec_grid().cell(c) != start.spec_grid().cell(c) implies exists|j: int|
                    0 <= j < i + 1 && #[trigger] builder_arrived(start.entities@[j]) && (construction_site(
                        start.entities@[j],
                    ).spec_contains(c) || start.entities@[j].spec_cell_rect().spec_contains(c)) by {
                    if self.spec_grid().cell(c) == before.spec_grid().cell(c) {
                        assert(before.spec_grid().cell(c) != start.spec_grid().cell(c));
                        let j = choose|j: int|
                            0 <= j < i && #[trigger] builder_arrived(start.entities@[j]) && (construction_site(
                                start.entities@[j],
                            ).spec_contains(c) || start.entities@[j].spec_cell_rect().spec_contains(c));
                    } else {
                        assert(builder_arrived(e));
                        assert(construction_site(e).spec_contains(c) || e.spec_cell_rect().spec_contains(c));
                    }
                }
                assert forall|m: int|
                    0 <= m < i + 1 && builder_arrived(start.entities@[m]) && structure_fits(
                        start.spec_grid(),
                        start.entities@[m].position,
                        construction_site(start.entities@[m]),
                    ) && #[trigger] site_clear_of_earlier(start.entities@, m) implies builders@.contains(
                        start.entities@[m].id,
                    ) && self.entities@[m] == start.entities@[m] by {
                    if m < i {
                        assert(old_builders.contains(start.entities@[m].id));
                        let w = choose|w: int| 0 <= w < old_builders.len() && old_builders[w] == start.entities@[m].id;
                        assert(builders@[w] == old_builders[w]);
                        assert(self.entities@[m] == before.entities@[m]);
                    } else {
                        assert(structure_fits(before.spec_grid(), e.position, construction_site(e)));
                        assert(prepared is Some);
                        assert(builders@[builders@.len() - 1] == e.id);
                    }
                }
            }
            i = i + 1;
        }
        proof {
            assert(start.spec_entities() == start.entities@);
        }
        (builders, planned)
    }

    /// Lets `dt` nanoseconds of every construction pass. Returns the ids of the structures
    /// that were finished.
    fn update_constructions(&mut self, dt: u64) -> (finished: Vec<EntityId>)
        requires
            old(self).wf(),
        ensures
            forall|x: int, y: int| 0 <= x < y < finished@.len() ==> finished@[x] != finished@[y],
            forall|k: int| 0 <= k < old(self).spec_entities().len() ==> (#[trigger] final(self).spec_entities()[k]).health == old(self).spec_entities()[k].health,
            positions_kept(old(self).spec_entities(), final(self).spec_entities()),
            roster_step(*old(self), *final(self)),
            final(self).spec_grid() == old(self).spec_grid(),
            forall|t: Team| #[trigger] final(self).resources(t) == old(self).resources(t),
            forall|m: int| 0 <= m < finished@.len() ==> has_idle_entity(final(self).spec_entities(), #[trigger] finished@[m]),
            forall|k: int| 0 <= k < old(self).spec_entities().len() ==> construction_done(
                #[trigger] old(self).spec_entities()[k],
                final(self).spec_entities()[k],
                finished@,
                dt,
            ),
            forall|k: int| 0 <= k < old(self).spec_entities().len() && !(old(self).spec_entities()[k].state is UnderConstruction)
                ==> #[trigger] final(self).spec_entities()[k] == old(self).spec_entities()[k],
    {
        let ghost start = *self;
        proof {
            lemma_roster_step_refl(start);
            start.lemma_wf();
        }
        let mut finished: Vec<EntityId> = Vec::new();
        let n = self.entities.len();
        let mut i: usize = 0;
        while i < n
            invariant
                i <= n,
                n == self.entities@.len(),
                n == start.entities@.len(),
                ids_unique(start.entities@),
                roster_step(start, *self),
                forall|k: int| 0 <= k < start.entities@.len() ==> (#[trigger] self.entities@[k]).health == start.entities@[k].health,
                positions_kept(start.entities@, self.entities@),
                self.obstacle_grid == start.obstacle_grid,
                forall|t: Team| #[trigger] self.resources(t) == start.resources(t),
                forall|m: int| 0 <= m < finished@.len() ==> exists|j: int|
                    0 <= j < i && self.entities@[j].id == #[trigger] finished@[m]
                        && self.entities@[j].state is Idle,
                forall|x: int, y: int| 0 <= x < y < finished@.len() ==> finished@[x] != finished@[y],
                forall|k: int| i <= k < n ==> #[trigger] self.entities@[k] == start.entities@[k],
                forall|k: int| 0 <= k < i && !(start.entities@[k].state is UnderConstruction) ==> #[trigger] self.entities@[k] == start.entities@[k],
                forall|k: int| 0 <= k < i ==> construction_done(
                    #[trigger] start.entities@[k],
                    self.entities@[k],
                    finished@,
                    dt,
                ),
            decreases n - i,
        {
            let ghost before = *self;
            let ghost finished_before = finished@;
            let done = self.update_construction_of(i, dt);
            proof {
                lemma_roster_step_transitive(start, before, *self);
                assert forall|t: Team| #[trigger] self.resources(t) == start.resources(t) by {
                    assert(self.resources(t) == before.resources(t));
                }
                assert forall|m: int| 0 <= m < finished@.len() implies exists|j: int|
                    0 <= j < i + 1 && self.entities@[j].id == #[trigger] finished@[m]
                        && self.entities@[j].state is Idle by {
                    let j = choose|j: int| 0 <= j < i && before.entities@[j].id == finished@[m]
                        && before.entities@[j].state is Idle;
                    assert(self.entities@[j] == before.entities@[j]);
                }
                assert(same_identity(before.entities@[i as int], self.entities@[i as int]));
            }
            if let Some(id) = done {
                proof {
                    assert forall|m: int| 0 <= m < finished@.len() implies finished@[m] != id by {
                        let j = choose|j: int| 0 <= j < i + 1 && self.entities@[j].id == #[trigger] finished_before[m]
                            && self.entities@[j].state is Idle;
                        if j == i {
                            let j2 = choose|j2: int| 0 <= j2 < i && before.entities@[j2].id == finished_before[m]
                                && before.entities@[j2].state is Idle;
                            assert(same_identity(start.entities@[j2], before.entities@[j2]));
                            assert(same_identity(start.entities@[i as int], self.entities@[i as int]));
                        }
                        assert(same_identity(start.entities@[j], self.entities@[j]));
                        assert(same_identity(start.entities@[i as int], self.entities@[i as int]));
                    }
                }
                finished.push(id);
                proof {
                    assert(self.entities@[i as int].id == finished@[finished@.len() - 1]);
                }
            }
            proof {
                assert forall|k: int| i + 1 <= k < n implies #[trigger] self.entities@[k] == start.entities@[k] by {
                    assert(self.entities@[k] == before.entities@[k]);
                }
                assert forall|k: int| 0 <= k < i + 1 && !(start.entities@[k].state is UnderConstruction) implies #[trigger] self.entities@[k] == start.entities@[k] by {
                    if k < i {
                        assert(self.entities@[k] == before.entities@[k]);
                    }
                }
                assert(before.entities@[i as int] == start.entities@[i as int]);
                assert forall|k: int| 0 <= k < i + 1 implies construction_done(
                    #[trigger] start.entities@[k],
                    self.entities@[k],
                    finished@,
                    dt,
                ) by {
                    let id = start.entities@[k].id;
                    if k < i {
                        assert(self.entities@[k] == before.entities@[k]);
                        assert(construction_done(start.entities@[k], before.entities@[k], finished_before, dt));
                        if done is Some {
                            assert(finished@ == finished_before.push(start.entities@[i as int].id));
                            assert(start.entities@[i as int].id != id);
                            assert(finished@.contains(id) == finished_before.contains(id)) by {
                                if finished@.contains(id) {
                                    let m = choose|m: int| 0 <= m < finished@.len() && finished@[m] == id;
                                    assert(m < finished_before.len());
                                    assert(finished_before[m] == id);
                                }
                                if finished_before.contains(id) {
                                    let m = choose|m: int| 0 <= m < finished_before.len() && finished_before[m] == id;
                                    assert(finished@[m] == id);
                                }
                            }
                        }
                    } else {
                        if let EntityState::UnderConstruction(remaining, total) = start.entities@[k].state {
                            if done is Some {
                                assert(finished@[finished@.len() - 1] == id);
                            } else {
                                assert(finished@ == finished_before);
                                assert(!finished_before.contains(id)) by {
                                    if finished_before.contains(id) {
                                        let m = choose|m: int| 0 <= m < finished_before.len() && finished_before[m] == id;
                                        let j = choose|j: int| 0 <= j < i && before.entities@[j].id == finished_before[m]
                                            && before.entities@[j].state is Idle;
                                        assert(same_identity(start.entities@[j], before.entities@[j]));
                                        assert(start.entities@[j].id == id);
                                    }
                                }
                            }
                        }
                    }
                }
            }
            i = i + 1;
        }
        proof {
            assert forall|m: int| 0 <= m < finished@.len() implies has_idle_entity(self.entities@, #[trigger] finished@[m]) by {
                let j = choose|j: int| 0 <= j < i && self.entities@[j].id == finished@[m]
                    && self.entities@[j].state is Idle;
                assert(self.entities@[j].id == finished@[m]);
            }
        }
        finished
    }
}


/// Whether a completed training can be placed in this core: a unit type, a known team and
/// a source inside the grid.
/// The unit whose training by `e` is over after `dt` nanoseconds, with the trainer's team
/// and cells; `None` when `e` finishes no training.
pub open spec fn training_finished(e: Entity, dt: u64) -> Option<(EntityType, Team, CellRect)> {
    match e.state {
        EntityState::TrainingUnit(unit_type) => if e.training matches Some(t) && t.ongoing matches Some(
            o,
        ) && o.remaining <= dt {
            Some((unit_type, e.team, e.spec_cell_rect()))
        } else {
            None
        },
        _ => None,
    }
}

/// The trainings that the first `n` entities finish after `dt` nanoseconds, in order.
pub open spec fn finished_trainings(entities: Seq<Entity>, n: int, dt: u64) -> Seq<(EntityType, Team, CellRect)>
    decreases n,
{
    if n <= 0 {
        Seq::empty()
    } else {
        let rest = finished_trainings(entities, n - 1, dt);
        match training_finished(entities[n - 1], dt) {
            Some(c) => rest.push(c),
            None => rest,
        }
    }
}

pub open spec fn trained_ok(core: Core, completed: (EntityType, Team, CellRect)) -> bool {
    &&& crate::data::is_unit_type(completed.0)
    &&& core.resources(completed.1) is Some
    &&& rect_fits(completed.2, core.spec_grid().spec_dimensions())
    &&& completed.2.size[0] > 0 && completed.2.size[1] > 0
}

/// The later list has the ids of the earlier one at the same places, and fresh ids after them.
pub open spec fn prefix_ids(a: Seq<Entity>, b: Seq<Entity>, next_id: usize) -> bool {
    &&& b.len() >= a.len()
    &&& forall|k: int| 0 <= k < a.len() ==> (#[trigger] b[k]).id == a[k].id
    &&& forall|k: int| a.len() <= k < b.len() ==> (#[trigger] b[k]).id.0 >= next_id
}

proof fn lemma_prefix_ids_extend(a: Seq<Entity>, b: Seq<Entity>, c: Seq<Entity>, n: usize, m: usize)
    requires
        prefix_ids(a, b, n),
        extends_with_fresh(b, c, m),
        m >= n,
    ensures
        prefix_ids(a, c, n),
{
    assert forall|k: int| 0 <= k < b.len() implies #[trigger] c[k] == b[k] by {
        assert(c.subrange(0, b.len() as int)[k] == c[k]);
    }
    assert forall|k: int| 0 <= k < a.len() implies (#[trigger] c[k]).id == a[k].id by {
        assert(c[k] == b[k]);
        assert(b[k].id == a[k].id);
    }
    assert forall|k: int| a.len() <= k < c.len() implies (#[trigger] c[k]).id.0 >= n by {
        if k < b.len() {
            assert(c[k] == b[k]);
            assert(b[k].id.0 >= n);
        }
    }
}

proof fn lemma_prefix_ids_roster(a: Seq<Entity>, b: Seq<Entity>, c: Seq<Entity>, n: usize)
    requires
        prefix_ids(a, b, n),
        same_roster(b, c),
    ensures
        prefix_ids(a, c, n),
{
    assert forall|k: int| 0 <= k < a.len() implies (#[trigger] c[k]).id == a[k].id by {
        assert(same_identity(b[k], c[k]));
        assert(b[k].id == a[k].id);
    }
    assert forall|k: int| a.len() <= k < c.len() implies (#[trigger] c[k]).id.0 >= n by {
        assert(same_identity(b[k], c[k]));
        assert(b[k].id.0 >= n);
    }
}

impl Core {
    /// Lets `dt` nanoseconds of every training pass. Returns, for each training that is
    /// done, the type of the trained unit, its team and the cells of the structure that
    /// trained it.
    fn update_trainings(&mut self, dt: u64) -> (completed: Vec<(EntityType, Team, CellRect)>)
        requires
            old(self).wf(),
        ensures
            forall|k: int| 0 <= k < old(self).spec_entities().len() ==> (#[trigger] final(self).spec_entities()[k]).health == old(self).spec_entities()[k].health,
            positions_kept(old(self).spec_entities(), final(self).spec_entities()),
            roster_step(*old(self), *final(self)),
            final(self).spec_grid() == old(self).spec_grid(),
            forall|t: Team| #[trigger] final(self).resources(t) == old(self).resources(t),
            forall|j: int| 0 <= j < old(self).spec_entities().len() && !(old(self).spec_entities()[j].state is TrainingUnit)
                ==> #[trigger] final(self).spec_entities()[j] == old(self).spec_entities()[j],
            forall|m: int| 0 <= m < completed@.len() ==> trained_ok(*final(self), #[trigger] completed@[m]),
            forall|k: int| 0 <= k < old(self).spec_entities().len() ==> training_done(
                #[trigger] old(self).spec_entities()[k],
                final(self).spec_entities()[k],
                dt,
            ),
            completed@ == finished_trainings(old(self).spec_entities(), old(self).spec_entities().len() as int, dt),
    {
        let ghost start = *self;
        proof {
            lemma_roster_step_refl(start);
        }
        let mut completed: Vec<(EntityType, Team, CellRect)> = Vec::new();
        let n = self.entities.len();
        let mut i: usize = 0;
        while i < n
            invariant
                i <= n,
                n == self.entities@.len(),
                n == start.entities@.len(),
                roster_step(start, *self),
                forall|k: int| 0 <= k < start.entities@.len() ==> (#[trigger] self.entities@[k]).health == start.entities@[k].health,
                positions_kept(start.entities@, self.entities@),
                self.obstacle_grid == start.obstacle_grid,
                forall|t: Team| #[trigger] self.resources(t) == start.resources(t),
                forall|j: int| 0 <= j < n && !(start.entities@[j].state is TrainingUnit)
                    ==> #[trigger] self.entities@[j] == start.entities@[j],
                forall|m: int| 0 <= m < completed@.len() ==> trained_ok(*self, #[trigger] completed@[m]),
                forall|k: int| i <= k < n ==> #[trigger] self.entities@[k] == start.entities@[k],
                forall|k: int| 0 <= k < i ==> training_done(#[trigger] start.entities@[k], self.entities@[k], dt),
                completed@ == finished_trainings(start.entities@, i as int, dt),
            decreases n - i,
        {
            let ghost before = *self;
            let done = self.update_training_of(i, dt);
            proof {
                lemma_roster_step_transitive(start, before, *self);
                assert forall|t: Team| #[trigger] self.resources(t) == start.resources(t) by {
                    assert(self.resources(t) == before.resources(t));
                }
                assert forall|j: int| 0 <= j < n && !(start.entities@[j].state is TrainingUnit)
                    implies #[trigger] self.entities@[j] == start.entities@[j] by {
                    assert(before.entities@[j] == start.entities@[j]);
                }
                assert forall|m: int| 0 <= m < completed@.len() implies trained_ok(*self, #[trigger] completed@[m]) by {
                    assert(trained_ok(before, completed@[m]));
                    assert(self.resources(completed@[m].1) == before.resources(completed@[m].1));
                }
            }
            proof {
                assert forall|k: int| i + 1 <= k < n implies #[trigger] self.entities@[k] == start.entities@[k] by {
                    assert(self.entities@[k] == before.entities@[k]);
                }
                assert(before.entities@[i as int] == start.entities@[i as int]);
                assert forall|k: int| 0 <= k < i + 1 implies training_done(#[trigger] start.entities@[k], self.entities@[k], dt) by {
                    if k < i {
                        assert(self.entities@[k] == before.entities@[k]);
                    }
                }
            }
            if let Some(c) = done {
                completed.push(c);
            }
            i = i + 1;
        }
        completed
    }

    /// Places the units whose training is done, each around the structure that trained it.
    fn add_trained_entities(&mut self, completed: &Vec<(EntityType, Team, CellRect)>)
        requires
            old(self).wf(),
            forall|m: int| 0 <= m < completed@.len() ==> trained_ok(*old(self), #[trigger] completed@[m]),
        ensures
            forall|c: [u32; 2]| #[trigger] final(self).spec_grid().cell(c) != old(self).spec_grid().cell(c)
                ==> covered_by_added(final(self).spec_entities(), old(self).spec_entities().len() as int, c),
            final(self).wf(),
            forall|t: Team| #[trigger] final(self).resources(t) == old(self).resources(t),
            final(self).spec_grid().spec_dimensions() == old(self).spec_grid().spec_dimensions(),
            final(self).spec_next_id() >= old(self).spec_next_id(),
            extends_with_fresh(old(self).spec_entities(), final(self).spec_entities(), old(self).spec_next_id()),
            trained_units_placed(*old(self), *final(self), completed@),
    {
        let ghost start = *self;
        proof {
            assert(self.entities@.subrange(0, self.entities@.len() as int) =~= self.entities@);
        }
        let n = completed.len();
        let mut k: usize = 0;
        let ghost mut states: Seq<Core> = seq![*self];
        while k < n
            invariant
                k <= n,
                n == completed@.len(),
                placement_chain(states, completed@.take(k as int)),
                states[0] == start,
                states[k as int] == *self,
                self.wf(),
                forall|t: Team| #[trigger] self.resources(t) == start.resources(t),
                self.obstacle_grid.spec_dimensions() == start.obstacle_grid.spec_dimensions(),
                self.next_entity_id >= start.next_entity_id,
                forall|c: [u32; 2]| #[trigger] self.spec_grid().cell(c) != start.spec_grid().cell(c)
                    ==> covered_by_added(self.entities@, start.entities@.len() as int, c),
                extends_with_fresh(start.entities@, self.entities@, start.next_entity_id),
                forall|m: int| 0 <= m < completed@.len() ==> trained_ok(start, #[trigger] completed@[m]),
            decreases n - k,
        {
            let (entity_type, team, source_rect) = completed[k];
            proof {
                assert(trained_ok(start, completed@[k as int]));
                assert(self.resources(team) == start.resources(team));
            }
            let ghost before = *self;
            let _ = self.try_add_trained_entity(entity_type, team, source_rect);
            proof {
                let items = completed@.take(k + 1);
                let t = states.push(*self);
                assert(completed@[k as int] == (entity_type, team, source_rect));
                assert forall|j: int| #![trigger t[j]] 0 <= j < items.len() implies trained_placed(t[j], t[j + 1], items[j]) by {
                    if j < k {
                        assert(items[j] == completed@.take(k as int)[j]);
                        assert(trained_placed(states[j], states[j + 1], completed@.take(k as int)[j]));
                    }
                }
                states = t;
                assert forall|t: Team| #[trigger] self.resources(t) == start.resources(t) by {
                    assert(self.resources(t) == before.resources(t));
                }
                let b = before.entities@;
                let c = self.entities@;
                assert forall|q: int| 0 <= q < b.len() implies #[trigger] c[q] == b[q] by {
                    assert(c.subrange(0, b.len() as int)[q] == c[q]);
                }
                assert(c.subrange(0, start.entities@.len() as int) =~= start.entities@) by {
                    assert forall|q: int| 0 <= q < start.entities@.len() implies c[q] == start.entities@[q] by {
                        assert(c[q] == b[q]);
                        assert(b.subrange(0, start.entities@.len() as int)[q] == b[q]);
                    }
                }
                assert forall|q: int| start.entities@.len() <= q < c.len() implies (#[trigger] c[q]).id.0 >= start.next_entity_id by {
                    if q < b.len() {
                        assert(c[q] == b[q]);
                        assert(b[q].id.0 >= start.next_entity_id);
                    }
                }
                assert forall|cell: [u32; 2]| #[trigger] self.spec_grid().cell(cell) != start.spec_grid().cell(cell)
                    implies covered_by_added(c, start.entities@.len() as int, cell) by {
                    if self.spec_grid().cell(cell) != before.spec_grid().cell(cell) {
                        let w = choose|w: int| b.len() <= w < c.len() && (#[trigger] c[w]).spec_cell_rect().spec_contains(cell);
                        assert(start.entities@.len() <= b.len());
                    } else {
                        let w = choose|w: int| start.entities@.len() <= w < b.len() && (#[trigger] b[w]).spec_cell_rect().spec_contains(cell);
                        assert(c[w] == b[w]);
                    }
                }
            }
            k = k + 1;
        }
        proof {
            assert(completed@.take(n as int) =~= completed@);
        }
    }
}


/// What the update puts into the world after the removal: the survivors keep their places
/// and are followed by one new structure for each planned one (see `constructions_started`);
/// constructions and trainings then go on by `dt` nanoseconds, the finished structures being
/// `finished`; and the units whose training is over appear after them, in order, each on the
/// first free cell around its trainer (see `trained_units_placed`).
#[verifier::opaque]
pub open spec fn additions_made(
    survivors: Seq<Entity>,
    after: Core,
    planned: Seq<PlannedStructure>,
    next_id: usize,
    finished: Seq<EntityId>,
    dt: u64,
) -> bool {
    exists|started: Core, trained: Core|
        #![trigger constructions_started(survivors, started.spec_entities(), planned, next_id), trained_units_placed(trained, after, finished_trainings(started.spec_entities(), started.spec_entities().len() as int, dt))]
        {
            let s = started.spec_entities();
            let t = trained.spec_entities();
            &&& s.len() >= survivors.len()
            &&& forall|k: int| 0 <= k < survivors.len() ==> #[trigger] s[k] == survivors[k]
            &&& constructions_started(survivors, s, planned, next_id)
            &&& t.len() == s.len()
            &&& forall|k: int| 0 <= k < s.len() ==> {
                &&& (#[trigger] t[k]).id == s[k].id
                &&& construction_done(s[k], t[k], finished, dt)
                &&& training_done(s[k], t[k], dt)
            }
            &&& trained_units_placed(trained, after, finished_trainings(s, s.len() as int, dt))
        }
}

/// The phases after the removal add what `additions_made` says.
proof fn lemma_additions(
    sv: Seq<Entity>,
    started: Core,
    constructed: Core,
    trained: Core,
    after: Core,
    planned: Seq<PlannedStructure>,
    next_id: usize,
    finished: Seq<EntityId>,
    completed: Seq<(EntityType, Team, CellRect)>,
    dt: u64,
)
    requires
        extends_with_fresh(sv, started.spec_entities(), next_id),
        constructions_started(sv, started.spec_entities(), planned, next_id),
        same_roster(started.spec_entities(), constructed.spec_entities()),
        forall|k: int| 0 <= k < started.spec_entities().len() ==> construction_done(
            #[trigger] started.spec_entities()[k],
            constructed.spec_entities()[k],
            finished,
            dt,
        ),
        forall|k: int| 0 <= k < started.spec_entities().len() && !(started.spec_entities()[k].state is UnderConstruction)
            ==> #[trigger] constructed.spec_entities()[k] == started.spec_entities()[k],
        same_roster(constructed.spec_entities(), trained.spec_entities()),
        forall|k: int| 0 <= k < constructed.spec_entities().len() ==> training_done(
            #[trigger] constructed.spec_entities()[k],
            trained.spec_entities()[k],
            dt,
        ),
        forall|k: int| 0 <= k < constructed.spec_entities().len() && !(constructed.spec_entities()[k].state is TrainingUnit)
            ==> #[trigger] trained.spec_entities()[k] == constructed.spec_entities()[k],
        completed == finished_trainings(constructed.spec_entities(), constructed.spec_entities().len() as int, dt),
        trained_units_placed(trained, after, completed),
    ensures
        additions_made(sv, after, planned, next_id, finished, dt),
{
    reveal(additions_made);
    let s_es = started.spec_entities();
    let c_es = constructed.spec_entities();
    let t_es = trained.spec_entities();
    assert forall|k: int| 0 <= k < sv.len() implies #[trigger] s_es[k] == sv[k] by {
        assert(s_es.subrange(0, sv.len() as int)[k] == s_es[k]);
    }
    assert forall|k: int| 0 <= k < s_es.len() && s_es[k].state is UnderConstruction implies !(#[trigger] c_es[k].state is TrainingUnit) by {
        assert(construction_done(s_es[k], c_es[k], finished, dt));
    }
    lemma_finished_trainings_kept(s_es, c_es, s_es.len() as int, dt);
    assert forall|k: int| 0 <= k < s_es.len() implies {
        &&& (#[trigger] t_es[k]).id == s_es[k].id
        &&& construction_done(s_es[k], t_es[k], finished, dt)
        &&& training_done(s_es[k], t_es[k], dt)
    } by {
        assert(construction_done(s_es[k], c_es[k], finished, dt));
        assert(training_done(c_es[k], t_es[k], dt));
        assert(same_identity(s_es[k], c_es[k]));
        assert(same_identity(c_es[k], t_es[k]));
        lemma_progress_compose(s_es[k], c_es[k], t_es[k], finished, dt);
    }
    assert(constructions_started(sv, s_es, planned, next_id));
    assert(trained_units_placed(trained, after, finished_trainings(s_es, s_es.len() as int, dt)));
}

/// Constructions and then trainings moving on: each entity progresses as the two phases say.
proof fn lemma_progress_compose(s: Entity, c: Entity, t: Entity, finished: Seq<EntityId>, dt: u64)
    requires
        construction_done(s, c, finished, dt),
        !(s.state is UnderConstruction) ==> c == s,
        training_done(c, t, dt),
        !(c.state is TrainingUnit) ==> t == c,
        same_identity(s, c),
        same_identity(c, t),
    ensures
        t.id == s.id,
        construction_done(s, t, finished, dt),
        training_done(s, t, dt),
{
    if s.state is UnderConstruction {
        assert(!(c.state is TrainingUnit));
    }
}

/// Constructions going on leave the finished trainings as they were.
proof fn lemma_finished_trainings_kept(s: Seq<Entity>, c: Seq<Entity>, n: int, dt: u64)
    requires
        0 <= n <= s.len(),
        c.len() == s.len(),
        forall|k: int| 0 <= k < s.len() && !(s[k].state is UnderConstruction) ==> #[trigger] c[k] == s[k],
        forall|k: int| 0 <= k < s.len() && s[k].state is UnderConstruction ==> !(#[trigger] c[k].state is TrainingUnit),
    ensures
        finished_trainings(c, n, dt) == finished_trainings(s, n, dt),
    decreases n,
{
    if n > 0 {
        lemma_finished_trainings_kept(s, c, n - 1, dt);
        if s[n - 1].state is UnderConstruction {
            assert(!(c[n - 1].state is TrainingUnit));
        } else {
            assert(c[n - 1] == s[n - 1]);
        }
    }
}

/// After the removal nobody is left without health, and the later phases keep it so: the
/// new entities have health left, and constructions and trainings do not touch health.
proof fn lemma_update_alive(
    mid: Seq<Entity>,
    builders: Seq<EntityId>,
    used_up: Seq<EntityId>,
    started: Seq<Entity>,
    constructed: Seq<Entity>,
    trained: Seq<Entity>,
    end: Seq<Entity>,
)
    requires
        extends_with_fresh(survivors(mid, builders, used_up), started, 0),
        constructed.len() == started.len(),
        forall|k: int| 0 <= k < started.len() ==> (#[trigger] constructed[k]).health == started[k].health,
        trained.len() == constructed.len(),
        forall|k: int| 0 <= k < constructed.len() ==> (#[trigger] trained[k]).health == constructed[k].health,
        extends_with_fresh(trained, end, 0),
    ensures
        all_alive(end),
{
    let sv = survivors(mid, builders, used_up);
    lemma_survivors(mid, builders, used_up);
    assert forall|k: int| 0 <= k < started.len() implies alive(#[trigger] started[k]) by {
        if k < sv.len() {
            assert(started.subrange(0, sv.len() as int)[k] == started[k]);
            assert(!should_remove(sv[k], builders, used_up));
        }
    }
    assert forall|k: int| 0 <= k < end.len() implies alive(#[trigger] end[k]) by {
        if k < trained.len() {
            assert(end.subrange(0, trained.len() as int)[k] == end[k]);
            assert(trained[k].health == constructed[k].health);
            assert(constructed[k].health == started[k].health);
            assert(alive(started[k]));
        }
    }
}

/// Where an entity of the start of an update that is still there at its end stands in the
/// end's list: among the survivors of the removal, at the place of its own survivor.
proof fn lemma_survivor_place(
    start: Seq<Entity>,
    mid: Seq<Entity>,
    builders: Seq<EntityId>,
    used_up: Seq<EntityId>,
    end: Seq<Entity>,
    n0: usize,
    k: int,
) -> (q: int)
    requires
        ids_unique(start),
        ids_unique(end),
        same_roster(start, mid),
        prefix_ids(survivors(mid, builders, used_up), end, n0),
        0 <= k < start.len(),
        start[k].id.0 < n0,
        has_entity(end, start[k].id),
    ensures
        0 <= q < survivors(mid, builders, used_up).len(),
        survivors(mid, builders, used_up)[q] == mid[k],
        end[q].id == start[k].id,
        entity_with_id(end, start[k].id) == end[q],
{
    let sv = survivors(mid, builders, used_up);
    lemma_survivors(mid, builders, used_up);
    let id = start[k].id;
    let q = choose|q: int| 0 <= q < end.len() && end[q].id == id;
    assert(q < sv.len());
    assert(end[q].id == sv[q].id);
    assert(mid.contains(sv[q]));
    let j = choose|j: int| 0 <= j < mid.len() && mid[j] == sv[q];
    assert(same_identity(start[j], mid[j]));
    assert(j == k) by {
        if j != k {
            assert(start[j].id != start[k].id);
        }
    }
    lemma_entity_with_id(end, q);
    q
}

/// What the removal of entities tells about ids: an id taken out belongs to an entity of the
/// earlier list and to none of the later one, whose entities all come from the survivors or
/// are new; an entity of the earlier list that is not taken out is still there.
proof fn lemma_removal_ids(
    start: Seq<Entity>,
    mid: Seq<Entity>,
    builders: Seq<EntityId>,
    used_up: Seq<EntityId>,
    end: Seq<Entity>,
    next_id: usize,
)
    requires
        same_roster(start, mid),
        ids_unique(mid),
        forall|k: int| 0 <= k < mid.len() ==> (#[trigger] mid[k]).id.0 < next_id,
        prefix_ids(survivors(mid, builders, used_up), end, next_id),
    ensures
        forall|k: int| 0 <= k < removed_ids(mid, builders, used_up).len() ==> {
            &&& has_entity(start, #[trigger] removed_ids(mid, builders, used_up)[k])
            &&& !has_entity(end, removed_ids(mid, builders, used_up)[k])
        },
        forall|k: int| 0 <= k < start.len() ==> removed_ids(mid, builders, used_up).contains(
            #[trigger] start[k].id,
        ) || has_entity(end, start[k].id),
        forall|k: int| 0 <= k < end.len() ==> has_entity(start, #[trigger] end[k].id) || end[k].id.0
            >= next_id,
{
    let sv = survivors(mid, builders, used_up);
    let rv = removed_ids(mid, builders, used_up);
    lemma_survivors(mid, builders, used_up);
    assert forall|k: int| 0 <= k < rv.len() implies {
        &&& has_entity(start, #[trigger] rv[k])
        &&& !has_entity(end, rv[k])
    } by {
        let j = choose|j: int| 0 <= j < mid.len() && mid[j].id == rv[k] && should_remove(mid[j], builders, used_up);
        assert(same_identity(start[j], mid[j]));
        assert(start[j].id == rv[k]);
        if has_entity(end, rv[k]) {
            let q = choose|q: int| 0 <= q < end.len() && end[q].id == rv[k];
            if q < sv.len() {
                assert(end[q].id == sv[q].id);
                assert(mid.contains(sv[q]));
                let j2 = choose|j2: int| 0 <= j2 < mid.len() && mid[j2] == sv[q];
                assert(!should_remove(sv[q], builders, used_up));
                assert(j2 != j);
                assert(mid[j2].id == mid[j].id);
            } else {
                assert(end[q].id.0 >= next_id);
                assert(mid[j].id.0 < next_id);
            }
        }
    }
    assert forall|k: int| 0 <= k < start.len() implies rv.contains(#[trigger] start[k].id) || has_entity(end, start[k].id) by {
        assert(same_identity(start[k], mid[k]));
        if !should_remove(mid[k], builders, used_up) {
            assert(sv.contains(mid[k]));
            let q = choose|q: int| 0 <= q < sv.len() && sv[q] == mid[k];
            assert(end[q].id == sv[q].id);
        }
    }
    assert forall|k: int| 0 <= k < end.len() implies has_entity(start, #[trigger] end[k].id) || end[k].id.0 >= next_id by {
        if k < sv.len() {
            assert(end[k].id == sv[k].id);
            assert(mid.contains(sv[k]));
            let j = choose|j: int| 0 <= j < mid.len() && mid[j] == sv[k];
            assert(same_identity(start[j], mid[j]));
            assert(start[j].id == end[k].id);
        }
    }
}

impl Core {
    /// Lets `dt` nanoseconds of the game pass. Units move, fight, gather and bring back
    /// resources; builders that have arrived turn into structures; the dead, the builders and
    /// the used up resources are taken out; constructions and trainings go on, and trained
    /// units are placed next to their structures. Returns the ids taken out and the ids of
    /// the structures finished.
    #[verifier::rlimit(40)]
    #[verifier::spinoff_prover]
    pub fn update(&mut self, dt: u64) -> (outcome: UpdateOutcome)
        requires
            old(self).wf(),
        ensures
            final(self).wf(),
            all_alive(final(self).spec_entities()),
            exists|units: Core, used_up: Seq<EntityId>, prepared: Core, builders: Seq<EntityId>, planned: Seq<PlannedStructure>|
                #![trigger units_updated(*old(self), units, dt, used_up), constructions_prepared(units, prepared, builders, planned)]
                {
                    &&& units_updated(*old(self), units, dt, used_up)
                    &&& constructions_prepared(units, prepared, builders, planned)
                    &&& outcome.removed_entities@ == removed_ids(prepared.spec_entities(), builders, used_up)
                    &&& forall|c: [u32; 2]|
                        cleared_cell(prepared.spec_entities(), used_up, c) && !covered_by_added(
                            final(self).spec_entities(),
                            survivors(prepared.spec_entities(), builders, used_up).len() as int,
                            c,
                        ) ==> #[trigger] final(self).spec_grid().cell(c) == Some(ObstacleType::Free)
                    &&& additions_made(
                        survivors(prepared.spec_entities(), builders, used_up),
                        *final(self),
                        planned,
                        old(self).spec_next_id(),
                        outcome.finished_structures@,
                        dt,
                    )
                },
            forall|x: int, y: int|
                0 <= x < y < outcome.finished_structures@.len() ==> outcome.finished_structures@[x]
                    != outcome.finished_structures@[y],
            resources_kept(*old(self), *final(self)),
            final(self).spec_grid().spec_dimensions() == old(self).spec_grid().spec_dimensions(),
            final(self).spec_next_id() >= old(self).spec_next_id(),
            forall|k: int| 0 <= k < outcome.removed_entities@.len() ==> {
                &&& has_entity(old(self).spec_entities(), #[trigger] outcome.removed_entities@[k])
                &&& !has_entity(final(self).spec_entities(), outcome.removed_entities@[k])
            },
            forall|k: int| 0 <= k < old(self).spec_entities().len() ==>
                outcome.removed_entities@.contains(#[trigger] old(self).spec_entities()[k].id)
                || has_entity(final(self).spec_entities(), old(self).spec_entities()[k].id),
            forall|k: int| 0 <= k < final(self).spec_entities().len() ==>
                has_entity(old(self).spec_entities(), #[trigger] final(self).spec_entities()[k].id)
                || final(self).spec_entities()[k].id.0 >= old(self).spec_next_id(),
            forall|m: int| 0 <= m < outcome.finished_structures@.len() ==> has_idle_entity(
                final(self).spec_entities(),
                #[trigger] outcome.finished_structures@[m],
            ),
            forall|k: int|
                0 <= k < old(self).spec_entities().len() && has_entity(
                    final(self).spec_entities(),
                    #[trigger] old(self).spec_entities()[k].id,
                ) ==> same_identity(
                    old(self).spec_entities()[k],
                    entity_with_id(final(self).spec_entities(), old(self).spec_entities()[k].id),
                ),
            forall|k: int|
                0 <= k < old(self).spec_entities().len() && has_entity(
                    final(self).spec_entities(),
                    #[trigger] old(self).spec_entities()[k].id,
                ) ==> one_step(
                    old(self).spec_entities()[k].position,
                    entity_with_id(final(self).spec_entities(), old(self).spec_entities()[k].id).position,
                ) && moved_along_plan(
                    old(self).spec_entities()[k],
                    entity_with_id(final(self).spec_entities(), old(self).spec_entities()[k].id).position,
                ),
            forall|k: int|
                0 <= k < old(self).spec_entities().len() && has_entity(
                    final(self).spec_entities(),
                    #[trigger] old(self).spec_entities()[k].id,
                ) ==> construction_done(
                    old(self).spec_entities()[k],
                    entity_with_id(final(self).spec_entities(), old(self).spec_entities()[k].id),
                    outcome.finished_structures@,
                    dt,
                ),
            forall|k: int|
                0 <= k < old(self).spec_entities().len() && has_entity(
                    final(self).spec_entities(),
                    #[trigger] old(self).spec_entities()[k].id,
                ) ==> training_done(
                    old(self).spec_entities()[k],
                    entity_with_id(final(self).spec_entities(), old(self).spec_entities()[k].id),
                    dt,
                ),
    {
        let ghost start = *self;
        let used_up = self.update_units(dt);
        let ghost after_units = *self;
        let (builders, planned) = self.prepare_constructions();
        let ghost mid = *self;
        proof {
            lemma_roster_step_transitive(start, after_units, mid);
            lemma_constructions_kept_transitive(start.entities@, after_units.entities@, mid.entities@);
            lemma_trainings_kept_transitive(start.entities@, after_units.entities@, mid.entities@);
        }
        let removed = self.remove_entities(&builders, &used_up);
        let ghost after_removal = *self;
        proof {
            assert forall|k: int| 0 <= k < planned@.len() implies self.planned_ok(#[trigger] planned@[k]) by {
                lemma_planned_kept(mid, *self, planned@[k]);
            }
        }
        self.start_constructions(&planned);
        let ghost after_start = *self;
        let finished = self.update_constructions(dt);
        let ghost after_constructions = *self;
        let completed = self.update_trainings(dt);
        let ghost after_trainings = *self;
        self.add_trained_entities(&completed);
        proof {
            lemma_resources_kept_both(start, mid, after_removal);
            lemma_resources_kept_trans(start, after_removal, after_start);
            lemma_resources_kept_both(start, after_start, after_constructions);
            lemma_resources_kept_trans(start, after_constructions, after_trainings);
            lemma_resources_kept_trans(start, after_trainings, *self);
            let sv = survivors(mid.entities@, builders@, used_up@);
            let n0 = start.next_entity_id;
            assert(prefix_ids(sv, after_start.entities@, n0)) by {
                assert(prefix_ids(sv, sv, n0));
                lemma_prefix_ids_extend(sv, sv, after_start.entities@, n0, n0);
            }
            lemma_prefix_ids_roster(sv, after_start.entities@, after_constructions.entities@, n0);
            lemma_prefix_ids_roster(sv, after_constructions.entities@, after_trainings.entities@, n0);
            lemma_prefix_ids_extend(sv, after_trainings.entities@, self.entities@, n0, after_trainings.next_entity_id);
            mid.lemma_wf();
            lemma_removal_ids(start.entities@, mid.entities@, builders@, used_up@, self.entities@, n0);
            assert forall|m: int| 0 <= m < finished@.len() implies has_idle_entity(self.entities@, #[trigger] finished@[m]) by {
                let c = after_constructions.entities@;
                let j = choose|j: int| 0 <= j < c.len() && c[j].id == finished@[m] && c[j].state is Idle;
                assert(after_trainings.entities@[j] == c[j]);
                assert(self.entities@.subrange(0, after_trainings.entities@.len() as int)[j] == self.entities@[j]);
                assert(self.entities@[j] == c[j]);
            }
            start.lemma_wf();
            self.lemma_wf();
            lemma_survivors(mid.entities@, builders@, used_up@);
            assert forall|k: int|
                0 <= k < start.entities@.len() && has_entity(self.entities@, #[trigger] start.entities@[k].id)
                    implies construction_done(
                    start.entities@[k],
                    entity_with_id(self.entities@, start.entities@[k].id),
                    finished@,
                    dt,
                ) by {
                assert(entity_ok(start.entities@[k], start.obstacle_grid.spec_dimensions(), n0));
                let q = lemma_survivor_place(start.entities@, mid.entities@, builders@, used_up@, self.entities@, n0, k);
                assert(after_start.entities@.subrange(0, sv.len() as int)[q] == after_start.entities@[q]);
                assert(after_start.entities@[q] == sv[q]);
                assert(construction_done(after_start.entities@[q], after_constructions.entities@[q], finished@, dt));
                lemma_removal_state_kept(start.entities@, mid.entities@, k);
                if start.entities@[k].state is UnderConstruction {
                    assert(!(after_constructions.entities@[q].state is TrainingUnit));
                    assert(after_trainings.entities@[q] == after_constructions.entities@[q]);
                }
                assert(self.entities@.subrange(0, after_trainings.entities@.len() as int)[q] == self.entities@[q]);
            }
            assert forall|k: int|
                0 <= k < start.entities@.len() && has_entity(self.entities@, #[trigger] start.entities@[k].id)
                    implies same_identity(start.entities@[k], entity_with_id(self.entities@, start.entities@[k].id)) by {
                assert(entity_ok(start.entities@[k], start.obstacle_grid.spec_dimensions(), n0));
                let q = lemma_survivor_place(start.entities@, mid.entities@, builders@, used_up@, self.entities@, n0, k);
                assert(after_start.entities@.subrange(0, sv.len() as int)[q] == after_start.entities@[q]);
                assert(after_start.entities@[q] == sv[q]);
                assert(same_identity(after_start.entities@[q], after_constructions.entities@[q]));
                assert(same_identity(after_constructions.entities@[q], after_trainings.entities@[q]));
                assert(self.entities@.subrange(0, after_trainings.entities@.len() as int)[q] == self.entities@[q]);
            }
            assert forall|k: int|
                0 <= k < start.entities@.len() && has_entity(self.entities@, #[trigger] start.entities@[k].id)
                    implies one_step(start.entities@[k].position, entity_with_id(self.entities@, start.entities@[k].id).position)
                    && moved_along_plan(start.entities@[k], entity_with_id(self.entities@, start.entities@[k].id).position) by {
                assert(entity_ok(start.entities@[k], start.obstacle_grid.spec_dimensions(), n0));
                let q = lemma_survivor_place(start.entities@, mid.entities@, builders@, used_up@, self.entities@, n0, k);
                assert(moved_along_plan(start.entities@[k], after_units.entities@[k].position));
                assert(mid.entities@[k].position == after_units.entities@[k].position);
                assert(after_start.entities@.subrange(0, sv.len() as int)[q] == after_start.entities@[q]);
                assert(after_start.entities@[q] == sv[q]);
                assert(after_constructions.entities@[q].position == after_start.entities@[q].position);
                assert(after_trainings.entities@[q].position == after_constructions.entities@[q].position);
                assert(self.entities@.subrange(0, after_trainings.entities@.len() as int)[q] == self.entities@[q]);
            }
            assert forall|k: int|
                0 <= k < start.entities@.len() && has_entity(self.entities@, #[trigger] start.entities@[k].id)
                    implies training_done(
                    start.entities@[k],
                    entity_with_id(self.entities@, start.entities@[k].id),
                    dt,
                ) by {
                assert(entity_ok(start.entities@[k], start.obstacle_grid.spec_dimensions(), n0));
                let q = lemma_survivor_place(start.entities@, mid.entities@, builders@, used_up@, self.entities@, n0, k);
                assert(after_start.entities@.subrange(0, sv.len() as int)[q] == after_start.entities@[q]);
                assert(after_start.entities@[q] == sv[q]);
                assert(self.entities@.subrange(0, after_trainings.entities@.len() as int)[q] == self.entities@[q]);
                if !start.entities@[k].is_unit() && start.entities@[k].state is TrainingUnit && start.entities@[k].training is Some {
                    assert(same_identity(start.entities@[k], mid.entities@[k]));
                    assert(mid.entities@[k].state == start.entities@[k].state);
                    assert(mid.entities@[k].training == start.entities@[k].training);
                    assert(after_constructions.entities@[q] == after_start.entities@[q]);
                    assert(training_done(after_constructions.entities@[q], after_trainings.entities@[q], dt));
                }
            }
        }
        proof {
            assert(constructions_prepared(after_units, mid, builders@, planned@));
            let svl = survivors(mid.entities@, builders@, used_up@).len() as int;
            assert forall|c: [u32; 2]|
                cleared_cell(mid.spec_entities(), used_up@, c) && !covered_by_added(self.spec_entities(), svl, c)
                    implies #[trigger] self.spec_grid().cell(c) == Some(ObstacleType::Free) by {
                assert(after_removal.spec_grid().cell(c) == Some(ObstacleType::Free));
                assert(after_trainings.spec_grid() == after_removal.spec_grid());
                if self.spec_grid().cell(c) != after_trainings.spec_grid().cell(c) {
                    let w = choose|w: int| after_trainings.entities@.len() <= w < self.entities@.len() && (#[trigger] self.entities@[w]).spec_cell_rect().spec_contains(c);
                    assert(svl <= after_trainings.entities@.len());
                    assert(covered_by_added(self.spec_entities(), svl, c));
                }
            }
            lemma_update_alive(mid.entities@, builders@, used_up@, after_start.entities@, after_constructions.entities@, after_trainings.entities@, self.entities@);
            assert(after_removal.spec_next_id() == start.spec_next_id());
            lemma_additions(
                survivors(mid.entities@, builders@, used_up@),
                after_start,
                after_constructions,
                after_trainings,
                *self,
                planned@,
                start.spec_next_id(),
                finished@,
                completed@,
                dt,
            );
        }
        UpdateOutcome { removed_entities: removed, finished_structures: finished }
    }
}

} // verus!

verus! {

impl Core {
    /// Whether a team may give the command: its actor is one of the team's entities and can
    /// carry it out, and what it refers to exists (see `command_valid`).
    pub fn command_is_valid(&self, command: &Command, issuing_team: Team) -> (valid: bool)
        requires
            self.wf(),
        ensures
            valid == self.command_valid(*command, issuing_team),
    {
        proof {
            self.lemma_wf();
        }
        let ghost entities = self.entities@;
        let actor_id = command.actor();
        let i = match self.find_entity(actor_id) {
            Some(i) => i,
            None => {
                return false;
            },
        };
        proof {
            lemma_entity_with_id(entities, i as int);
            assert(entity_ok(entities[i as int], self.obstacle_grid.spec_dimensions(), self.next_entity_id));
        }
        let actor = &self.entities[i];
        if actor.team != issuing_team {
            return false;
        }
        let is_unit = actor.physical_type_is_unit();
        match command {
            Command::Train(c) => {
                let unit_type_ok = match c.trained_unit_type {
                    EntityType::Engineer => true,
                    EntityType::Enforcer => true,
                    _ => false,
                };
                match &actor.training {
                    Some(training) => unit_type_ok && crate::entities::keyed_get_exec(
                        training.options(),
                        c.trained_unit_type,
                    ).is_some(),
                    None => false,
                }
            },
            Command::Construct(c) => {
                if !is_unit {
                    return false;
                }
                let structure_ok = match c.structure_type {
                    EntityType::BattleAcademy => true,
                    EntityType::TechLab => true,
                    _ => false,
                };
                let offered = match &actor.unit().construction_options {
                    Some(options) => crate::entities::keyed_get_exec(options, c.structure_type).is_some(),
                    None => false,
                };
                offered && structure_ok && c.structure_position[0] <= u32::MAX - 3
                    && c.structure_position[1] <= u32::MAX - 3
            },
            Command::Stop(_) => is_unit,
            Command::Move(c) => {
                let dims = self.obstacle_grid.dimensions();
                is_unit && c.destination[0] < dims[0] && c.destination[1] < dims[1]
            },
            Command::Attack(c) => {
                if !is_unit || actor.unit().combat.is_none() || c.victim == actor_id {
                    return false;
                }
                match self.find_entity(c.victim) {
                    Some(j) => {
                        proof {
                            lemma_entity_with_id(entities, j as int);
                        }
                        self.entities[j].team != issuing_team && self.entities[j].health.is_some()
                    },
                    None => false,
                }
            },
            Command::GatherResource(c) => {
                if !is_unit || actor.unit().gathering.is_none() || c.resource == actor_id {
                    return false;
                }
                match self.find_entity(c.resource) {
                    Some(j) => {
                        proof {
                            lemma_entity_with_id(entities, j as int);
                        }
                        self.entities[j].team == Team::Neutral
                    },
                    None => false,
                }
            },
            Command::ReturnResource(c) => {
                if !is_unit || actor.unit().gathering.is_none() {
                    return false;
                }
                match c.structure {
                    Some(s) => s != actor_id && self.find_entity(s).is_some(),
                    None => true,
                }
            },
        }
    }
}

} // verus!
