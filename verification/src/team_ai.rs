use vstd::prelude::*;

use crate::data::{spec_entity_size, EntityType};
use crate::entities::{Direction, Entity, EntityId, Team, NANOS_PER_SEC};
use crate::game_core::{
    structure_fits, AttackCommand, Command, ConstructCommand, Core, GatherResourceCommand,
    TrainCommand,
};
use crate::grid::{CellRect, Grid};
use crate::game_core::ObstacleType;
use crate::random::random_i64_inclusive;
use rand::rngs::ThreadRng;

verus! {

/// The cell `steps` cells from `p` towards `heading` (east, north, west or south).
pub open spec fn walk(p: (int, int), heading: Direction, steps: int) -> (int, int) {
    match heading {
        Direction::East => (p.0 + steps, p.1),
        Direction::North => (p.0, p.1 - steps),
        Direction::West => (p.0 - steps, p.1),
        Direction::South => (p.0, p.1 + steps),
        _ => p,
    }
}

/// The `n` cells from `p` on towards `heading`, `p` first.
pub open spec fn segment(p: (int, int), heading: Direction, n: nat) -> Seq<(int, int)> {
    Seq::new(n, |i: int| walk(p, heading, i))
}

/// The cells of `rounds` turns of an outward spiral from `p`: `side` cells east, `side`
/// north, `side + 1` west and `side + 1` south, then the next turn with sides two longer.
pub open spec fn spiral_from(p: (int, int), side: nat, rounds: nat) -> Seq<(int, int)>
    decreases rounds,
{
    if rounds == 0 {
        Seq::empty()
    } else {
        let p1 = walk(p, Direction::East, side as int);
        let p2 = walk(p1, Direction::North, side as int);
        let p3 = walk(p2, Direction::West, side + 1int);
        let p4 = walk(p3, Direction::South, side + 1int);
        segment(p, Direction::East, side) + segment(p1, Direction::North, side) + segment(
            p2,
            Direction::West,
            side + 1,
        ) + segment(p3, Direction::South, side + 1) + spiral_from(p4, side + 2, (rounds - 1) as nat)
    }
}

/// The cells tried when looking for a site from `p`: seven turns of the spiral.
pub open spec fn spiral_points(p: (int, int)) -> Seq<(int, int)> {
    spiral_from(p, 1, 7)
}

/// Whether a structure of the given size can be put up with its top left corner at `p`
/// by the worker standing at `worker_position`.
pub open spec fn site_fits(
    grid: Grid<ObstacleType>,
    worker_position: [u32; 2],
    size: [u32; 2],
    p: (int, int),
) -> bool {
    &&& 0 <= p.0
    &&& 0 <= p.1
    &&& p.0 + size[0] <= u32::MAX
    &&& p.1 + size[1] <= u32::MAX
    &&& structure_fits(grid, worker_position, CellRect { position: [p.0 as u32, p.1 as u32], size })
}

/// The first of the cells at which the structure fits.
pub open spec fn first_fit(
    grid: Grid<ObstacleType>,
    worker_position: [u32; 2],
    size: [u32; 2],
    points: Seq<(int, int)>,
) -> Option<[u32; 2]>
    decreases points.len(),
{
    if points.len() == 0 {
        None
    } else if site_fits(grid, worker_position, size, points[0]) {
        Some([points[0].0 as u32, points[0].1 as u32])
    } else {
        first_fit(grid, worker_position, size, points.drop_first())
    }
}

proof fn lemma_first_fit_concat(
    grid: Grid<ObstacleType>,
    worker_position: [u32; 2],
    size: [u32; 2],
    a: Seq<(int, int)>,
    b: Seq<(int, int)>,
)
    ensures
        first_fit(grid, worker_position, size, a + b) == match first_fit(grid, worker_position, size, a) {
            Some(p) => Some(p),
            None => first_fit(grid, worker_position, size, b),
        },
    decreases a.len(),
{
    if a.len() > 0 {
        assert((a + b).drop_first() =~= a.drop_first() + b);
        assert((a + b)[0] == a[0]);
        lemma_first_fit_concat(grid, worker_position, size, a.drop_first(), b);
    } else {
        assert(a + b =~= b);
    }
}

proof fn lemma_first_fit_prefix(
    grid: Grid<ObstacleType>,
    worker_position: [u32; 2],
    size: [u32; 2],
    points: Seq<(int, int)>,
    i: int,
)
    requires
        0 <= i <= points.len(),
        forall|j: int| 0 <= j < i ==> !site_fits(grid, worker_position, size, #[trigger] points[j]),
    ensures
        i < points.len() && site_fits(grid, worker_position, size, points[i]) ==> first_fit(
            grid,
            worker_position,
            size,
            points,
        ) == Some([points[i].0 as u32, points[i].1 as u32]),
        i == points.len() ==> first_fit(grid, worker_position, size, points) is None,
    decreases i,
{
    if i > 0 {
        let rest = points.drop_first();
        assert(!site_fits(grid, worker_position, size, points[0]));
        assert forall|j: int| 0 <= j < i - 1 implies !site_fits(grid, worker_position, size, #[trigger] rest[j]) by {
            assert(rest[j] == points[j + 1]);
        }
        lemma_first_fit_prefix(grid, worker_position, size, rest, i - 1);
        if i < points.len() {
            assert(rest[i - 1] == points[i]);
        }
    }
}

/// Whether the structure fits at `p`, looked up in the core.
fn fits_at(core: &Core, worker_position: [u32; 2], size: [u32; 2], p: (i64, i64)) -> (fits: bool)
    requires
        core.wf(),
    ensures
        fits == site_fits(core.spec_grid(), worker_position, size, (p.0 as int, p.1 as int)),
{
    if p.0 >= 0 && p.1 >= 0 && p.0 <= (u32::MAX - size[0]) as i64 && p.1 <= (u32::MAX - size[1]) as i64 {
        core.can_structure_fit(worker_position, [p.0 as u32, p.1 as u32], size)
    } else {
        false
    }
}

/// Tries the `n` cells from `start` on towards `heading`; returns the first at which the
/// structure fits.
fn scan_segment(
    core: &Core,
    worker_position: [u32; 2],
    size: [u32; 2],
    start: (i64, i64),
    heading: Direction,
    n: i64,
) -> (found: Option<[u32; 2]>)
    requires
        core.wf(),
        0 <= n <= 100,
        -1000 <= start.0 <= 0x1_0000_1000,
        -1000 <= start.1 <= 0x1_0000_1000,
        heading == Direction::East || heading == Direction::North || heading == Direction::West
            || heading == Direction::South,
    ensures
        found == first_fit(
            core.spec_grid(),
            worker_position,
            size,
            segment((start.0 as int, start.1 as int), heading, n as nat),
        ),
{
    let ghost points = segment((start.0 as int, start.1 as int), heading, n as nat);
    let mut i: i64 = 0;
    while i < n
        invariant
            core.wf(),
            0 <= i <= n <= 100,
            -1000 <= start.0 <= 0x1_0000_1000,
            -1000 <= start.1 <= 0x1_0000_1000,
            heading == Direction::East || heading == Direction::North || heading == Direction::West
                || heading == Direction::South,
            points == segment((start.0 as int, start.1 as int), heading, n as nat),
            forall|j: int| 0 <= j < i ==> !site_fits(core.spec_grid(), worker_position, size, #[trigger] points[j]),
        decreases n - i,
    {
        let p: (i64, i64) = match heading {
            Direction::East => (start.0 + i, start.1),
            Direction::North => (start.0, start.1 - i),
            Direction::West => (start.0 - i, start.1),
            _ => (start.0, start.1 + i),
        };
        proof {
            assert(points[i as int] == (p.0 as int, p.1 as int));
        }
        if fits_at(core, worker_position, size, p) {
            proof {
                lemma_first_fit_prefix(core.spec_grid(), worker_position, size, points, i as int);
            }
            return Some([p.0 as u32, p.1 as u32]);
        }
        i = i + 1;
    }
    proof {
        lemma_first_fit_prefix(core.spec_grid(), worker_position, size, points, n as int);
    }
    None
}

/// Looks for a site for a structure along an outward spiral from `start`: the first cell
/// of the spiral at which the structure fits, if any.
pub fn spiral_search(core: &Core, worker_position: [u32; 2], size: [u32; 2], start: (i64, i64)) -> (site: Option<[u32; 2]>)
    requires
        core.wf(),
        -100 <= start.0 <= 0x1_0000_0100,
        -100 <= start.1 <= 0x1_0000_0100,
    ensures
        site == first_fit(core.spec_grid(), worker_position, size, spiral_points((start.0 as int, start.1 as int))),
{
    let ghost grid = core.spec_grid();
    let mut x = start.0;
    let mut y = start.1;
    let mut side: i64 = 1;
    let mut round: i64 = 0;
    while side < 15
        invariant
            core.wf(),
            grid == core.spec_grid(),
            0 <= round <= 7,
            side == 2 * round + 1,
            x == start.0 - round,
            y == start.1 + round,
            -100 <= start.0 <= 0x1_0000_0100,
            -100 <= start.1 <= 0x1_0000_0100,
            first_fit(grid, worker_position, size, spiral_points((start.0 as int, start.1 as int)))
                == first_fit(grid, worker_position, size, spiral_from((x as int, y as int), side as nat, (7 - round) as nat)),
        decreases 15 - side,
    {
        let ghost p = (x as int, y as int);
        let ghost s = side as nat;
        let ghost p1 = walk(p, Direction::East, s as int);
        let ghost p2 = walk(p1, Direction::North, s as int);
        let ghost p3 = walk(p2, Direction::West, s + 1int);
        let ghost p4 = walk(p3, Direction::South, s + 1int);
        let ghost a = segment(p, Direction::East, s);
        let ghost b = segment(p1, Direction::North, s);
        let ghost c = segment(p2, Direction::West, s + 1);
        let ghost d = segment(p3, Direction::South, s + 1);
        let ghost rest = spiral_from(p4, s + 2, (7 - round - 1) as nat);
        proof {
            assert(spiral_from(p, s, (7 - round) as nat) == a + b + c + d + rest);
            lemma_first_fit_concat(grid, worker_position, size, a + b + c + d, rest);
            lemma_first_fit_concat(grid, worker_position, size, a + b + c, d);
            lemma_first_fit_concat(grid, worker_position, size, a + b, c);
            lemma_first_fit_concat(grid, worker_position, size, a, b);
        }
        if let Some(site) = scan_segment(core, worker_position, size, (x, y), Direction::East, side) {
            return Some(site);
        }
        x = x + side;
        if let Some(site) = scan_segment(core, worker_position, size, (x, y), Direction::North, side) {
            return Some(site);
        }
        y = y - side;
        if let Some(site) = scan_segment(core, worker_position, size, (x, y), Direction::West, side + 1) {
            return Some(site);
        }
        x = x - (side + 1);
        if let Some(site) = scan_segment(core, worker_position, size, (x, y), Direction::South, side + 1) {
            return Some(site);
        }
        y = y + (side + 1);
        side = side + 2;
        round = round + 1;
    }
    proof {
        assert(spiral_from((x as int, y as int), side as nat, 0) =~= Seq::<(int, int)>::empty());
    }
    None
}


/// Whether `s` lies within two cells of `w`, and not below zero.
pub open spec fn jittered(w: int, s: int) -> bool {
    &&& (if w - 2 > 0 { w - 2 } else { 0 }) <= s
    &&& s <= w + 2
}

/// Whether `site` is what a search for a site from the worker can give: the first fitting
/// cell of the spiral from a start within two cells of the worker.
pub open spec fn possible_site(
    grid: Grid<ObstacleType>,
    worker_position: [u32; 2],
    size: [u32; 2],
    site: Option<[u32; 2]>,
) -> bool {
    exists|sx: int, sy: int|
        jittered(worker_position[0] as int, sx) && jittered(worker_position[1] as int, sy) && site
            == #[trigger] first_fit(grid, worker_position, size, spiral_points((sx, sy)))
}

/// Looks for a site for a structure near a worker: the spiral search starts at a random
/// cell within two cells of the worker, to make the computer opponent less predictable.
fn find_free_position_for_structure(
    core: &Core,
    worker_position: [u32; 2],
    structure_size: [u32; 2],
    rng: &mut ThreadRng,
) -> (site: Option<[u32; 2]>)
    requires
        core.wf(),
    ensures
        possible_site(core.spec_grid(), worker_position, structure_size, site),
{
    let x = worker_position[0] as i64;
    let y = worker_position[1] as i64;
    let low_x = if x - 2 > 0 { x - 2 } else { 0 };
    let low_y = if y - 2 > 0 { y - 2 } else { 0 };
    let start_x = random_i64_inclusive(rng, low_x, x + 2);
    let start_y = random_i64_inclusive(rng, low_y, y + 2);
    let site = spiral_search(core, worker_position, structure_size, (start_x, start_y));
    proof {
        assert(jittered(worker_position[0] as int, start_x as int));
        assert(jittered(worker_position[1] as int, start_y as int));
        assert(site == first_fit(core.spec_grid(), worker_position, structure_size, spiral_points((start_x as int, start_y as int))));
    }
    site
}

/// The computer opponent of one team: once a second it looks at the game and gives at most
/// one command to its entities.
pub struct TeamAi {
    team: Team,
    opponent: Team,
    timer: u64,
}

/// The entities of `team` of the given type, in order.
pub open spec fn own_of_type(entities: Seq<Entity>, team: Team, entity_type: EntityType) -> Seq<Entity>
    decreases entities.len(),
{
    if entities.len() == 0 {
        Seq::empty()
    } else {
        let rest = own_of_type(entities.drop_last(), team, entity_type);
        let e = entities.last();
        if e.team == team && e.entity_type == entity_type {
            rest.push(e)
        } else {
            rest
        }
    }
}

/// The idle entities of `team` of the given type, in order.
pub open spec fn idle_of_type(entities: Seq<Entity>, team: Team, entity_type: EntityType) -> Seq<Entity>
    decreases entities.len(),
{
    if entities.len() == 0 {
        Seq::empty()
    } else {
        let rest = idle_of_type(entities.drop_last(), team, entity_type);
        let e = entities.last();
        if e.team == team && e.entity_type == entity_type && e.state is Idle {
            rest.push(e)
        } else {
            rest
        }
    }
}

/// The fuel rifts, in order.
pub open spec fn rifts(entities: Seq<Entity>) -> Seq<Entity>
    decreases entities.len(),
{
    if entities.len() == 0 {
        Seq::empty()
    } else {
        let rest = rifts(entities.drop_last());
        if entities.last().entity_type == EntityType::FuelRift {
            rest.push(entities.last())
        } else {
            rest
        }
    }
}

/// The entities of `team`, in order.
pub open spec fn of_team(entities: Seq<Entity>, team: Team) -> Seq<Entity>
    decreases entities.len(),
{
    if entities.len() == 0 {
        Seq::empty()
    } else {
        let rest = of_team(entities.drop_last(), team);
        if entities.last().team == team {
            rest.push(entities.last())
        } else {
            rest
        }
    }
}

/// Whether the team has no tech lab and an idle engineer, whose last one then looks for a
/// site for one.
pub open spec fn tries_base(entities: Seq<Entity>, team: Team) -> bool {
    own_of_type(entities, team, EntityType::TechLab).len() == 0
        && idle_of_type(entities, team, EntityType::Engineer).len() > 0
}

/// How many idle engineers are left after the search for a tech lab site.
pub open spec fn workers_after_base(entities: Seq<Entity>, team: Team) -> int {
    let n = idle_of_type(entities, team, EntityType::Engineer).len() as int;
    if tries_base(entities, team) { n - 1 } else { n }
}

/// Whether the team has fewer than two battle academies and an idle engineer left, whose
/// last one then looks for a site for one.
pub open spec fn tries_academy(entities: Seq<Entity>, team: Team) -> bool {
    own_of_type(entities, team, EntityType::BattleAcademy).len() < 2 && workers_after_base(entities, team) > 0
}

/// How many idle engineers are left after the search for a battle academy site.
pub open spec fn workers_after_academy(entities: Seq<Entity>, team: Team) -> int {
    let n = workers_after_base(entities, team);
    if tries_academy(entities, team) { n - 1 } else { n }
}

/// The command the computer opponent gives, from the entities and the sites found for a
/// tech lab and a battle academy: a missing tech lab is built first, then up to two
/// battle academies, idle engineers gather from the first fuel rift, a tech lab trains an
/// engineer while the team has fewer than three, a battle academy trains an enforcer, and
/// the first idle enforcer attacks an entity of the opponent (the last of as many as there
/// are idle enforcers).
pub open spec fn team_decision(
    entities: Seq<Entity>,
    team: Team,
    opponent: Team,
    base_site: Option<[u32; 2]>,
    academy_site: Option<[u32; 2]>,
) -> Option<Command> {
    let idle_workers = idle_of_type(entities, team, EntityType::Engineer);
    let idle_bases = idle_of_type(entities, team, EntityType::TechLab);
    let idle_academies = idle_of_type(entities, team, EntityType::BattleAcademy);
    let idle_fighters = idle_of_type(entities, team, EntityType::Enforcer);
    let opponents = of_team(entities, opponent);
    let n0 = idle_workers.len() as int;
    let n1 = workers_after_base(entities, team);
    let n2 = workers_after_academy(entities, team);
    let victims = if opponents.len() < idle_fighters.len() { opponents.len() as int } else { idle_fighters.len() as int };
    if tries_base(entities, team) && base_site is Some {
        Some(Command::Construct(ConstructCommand {
            builder: idle_workers[n0 - 1].id,
            structure_position: base_site->0,
            structure_type: EntityType::TechLab,
        }))
    } else if tries_academy(entities, team) && academy_site is Some {
        Some(Command::Construct(ConstructCommand {
            builder: idle_workers[n1 - 1].id,
            structure_position: academy_site->0,
            structure_type: EntityType::BattleAcademy,
        }))
    } else if n2 > 0 && rifts(entities).len() > 0 {
        Some(Command::GatherResource(GatherResourceCommand {
            gatherer: idle_workers[n2 - 1].id,
            resource: rifts(entities)[0].id,
        }))
    } else if own_of_type(entities, team, EntityType::Engineer).len() < 3 && idle_bases.len() > 0 {
        Some(Command::Train(TrainCommand { trainer: idle_bases[0].id, trained_unit_type: EntityType::Engineer }))
    } else if idle_academies.len() > 0 {
        Some(Command::Train(TrainCommand { trainer: idle_academies[0].id, trained_unit_type: EntityType::Enforcer }))
    } else if victims > 0 {
        Some(Command::Attack(AttackCommand { attacker: idle_fighters[0].id, victim: opponents[victims - 1].id }))
    } else {
        None
    }
}

/// The computer opponent builds only what its team lacks: a tech lab only while the team
/// has none, a battle academy only while it has fewer than two, and nothing else; the
/// builder is one of the team's idle engineers, and the structure goes to the site found
/// for it. Once the team has a tech lab, it builds a battle academy whenever it has fewer
/// than two, an idle engineer and a site for one.
pub proof fn law_team_builds_what_it_lacks(
    entities: Seq<Entity>,
    team: Team,
    opponent: Team,
    base_site: Option<[u32; 2]>,
    academy_site: Option<[u32; 2]>,
)
    ensures
        team_decision(entities, team, opponent, base_site, academy_site) matches Some(Command::Construct(c)) ==> {
            &&& c.structure_type == EntityType::TechLab || c.structure_type == EntityType::BattleAcademy
            &&& c.structure_type == EntityType::TechLab ==> own_of_type(entities, team, EntityType::TechLab).len() == 0
                && base_site == Some(c.structure_position)
            &&& c.structure_type == EntityType::BattleAcademy ==> own_of_type(
                entities,
                team,
                EntityType::BattleAcademy,
            ).len() < 2 && academy_site == Some(c.structure_position)
            &&& exists|j: int|
                0 <= j < idle_of_type(entities, team, EntityType::Engineer).len() && #[trigger] idle_of_type(
                    entities,
                    team,
                    EntityType::Engineer,
                )[j].id == c.builder
        },
        own_of_type(entities, team, EntityType::TechLab).len() > 0 && own_of_type(
            entities,
            team,
            EntityType::BattleAcademy,
        ).len() < 2 && idle_of_type(entities, team, EntityType::Engineer).len() > 0 && academy_site is Some
            ==> (team_decision(entities, team, opponent, base_site, academy_site) matches Some(
            Command::Construct(c),
        ) && c.structure_type == EntityType::BattleAcademy),
{
    let idle = idle_of_type(entities, team, EntityType::Engineer);
    if tries_base(entities, team) && base_site is Some {
        assert(idle[idle.len() - 1].id == idle[idle.len() - 1].id);
    } else if tries_academy(entities, team) && academy_site is Some {
        let j = workers_after_base(entities, team) - 1;
        assert(idle[j].id == idle[j].id);
    }
}

/// Every other command of the computer opponent is carried out by a fitting entity of its
/// team: an idle engineer gathers from a fuel rift, an idle tech lab trains an engineer, an
/// idle battle academy trains an enforcer, and an idle enforcer attacks an entity of the
/// opponent.
pub proof fn law_team_commands_use_fitting_entities(
    entities: Seq<Entity>,
    team: Team,
    opponent: Team,
    base_site: Option<[u32; 2]>,
    academy_site: Option<[u32; 2]>,
)
    ensures
        team_decision(entities, team, opponent, base_site, academy_site) matches Some(command) ==> match command {
            Command::GatherResource(g) => {
                &&& exists|j: int|
                    0 <= j < idle_of_type(entities, team, EntityType::Engineer).len() && #[trigger] idle_of_type(
                        entities,
                        team,
                        EntityType::Engineer,
                    )[j].id == g.gatherer
                &&& exists|j: int| 0 <= j < rifts(entities).len() && #[trigger] rifts(entities)[j].id == g.resource
            },
            Command::Train(t) => {
                ||| t.trained_unit_type == EntityType::Engineer && exists|j: int|
                    0 <= j < idle_of_type(entities, team, EntityType::TechLab).len() && #[trigger] idle_of_type(
                        entities,
                        team,
                        EntityType::TechLab,
                    )[j].id == t.trainer
                ||| t.trained_unit_type == EntityType::Enforcer && exists|j: int|
                    0 <= j < idle_of_type(entities, team, EntityType::BattleAcademy).len() && #[trigger] idle_of_type(
                        entities,
                        team,
                        EntityType::BattleAcademy,
                    )[j].id == t.trainer
            },
            Command::Attack(a) => {
                &&& exists|j: int|
                    0 <= j < idle_of_type(entities, team, EntityType::Enforcer).len() && #[trigger] idle_of_type(
                        entities,
                        team,
                        EntityType::Enforcer,
                    )[j].id == a.attacker
                &&& exists|j: int| 0 <= j < of_team(entities, opponent).len() && #[trigger] of_team(entities, opponent)[j].id
                    == a.victim
            },
            Command::Construct(_) => true,
            _ => false,
        },
{
    let idle = idle_of_type(entities, team, EntityType::Engineer);
    let n2 = workers_after_academy(entities, team);
    if n2 > 0 && rifts(entities).len() > 0 {
        assert(idle[n2 - 1].id == idle[n2 - 1].id);
        assert(rifts(entities)[0].id == rifts(entities)[0].id);
    }
    let bases = idle_of_type(entities, team, EntityType::TechLab);
    let academies = idle_of_type(entities, team, EntityType::BattleAcademy);
    if bases.len() > 0 {
        assert(bases[0].id == bases[0].id);
    }
    if academies.len() > 0 {
        assert(academies[0].id == academies[0].id);
    }
    let fighters = idle_of_type(entities, team, EntityType::Enforcer);
    let opponents = of_team(entities, opponent);
    let victims = if opponents.len() < fighters.len() { opponents.len() as int } else { fighters.len() as int };
    if victims > 0 {
        assert(fighters[0].id == fighters[0].id);
        assert(opponents[victims - 1].id == opponents[victims - 1].id);
    }
}

/// Whether the sites are what the searches from the searching engineers can give.
pub open spec fn sites_possible(
    core: Core,
    team: Team,
    base_site: Option<[u32; 2]>,
    academy_site: Option<[u32; 2]>,
) -> bool {
    let entities = core.spec_entities();
    let idle_workers = idle_of_type(entities, team, EntityType::Engineer);
    &&& tries_base(entities, team) ==> possible_site(
        core.spec_grid(),
        idle_workers[idle_workers.len() - 1].position,
        spec_entity_size(EntityType::TechLab),
        base_site,
    )
    &&& tries_academy(entities, team) ==> possible_site(
        core.spec_grid(),
        idle_workers[workers_after_base(entities, team) - 1].position,
        spec_entity_size(EntityType::BattleAcademy),
        academy_site,
    )
}


/// Whether the ids are those of the entities, in order.
pub open spec fn ids_of(ids: Seq<EntityId>, entities: Seq<Entity>) -> bool {
    &&& ids.len() == entities.len()
    &&& forall|j: int| 0 <= j < ids.len() ==> #[trigger] ids[j] == entities[j].id
}

proof fn lemma_own_of_type_len(entities: Seq<Entity>, team: Team, entity_type: EntityType)
    ensures
        own_of_type(entities, team, entity_type).len() <= entities.len(),
    decreases entities.len(),
{
    if entities.len() > 0 {
        lemma_own_of_type_len(entities.drop_last(), team, entity_type);
    }
}

/// Some site that a search from the worker can give.
proof fn lemma_some_site(grid: Grid<ObstacleType>, worker_position: [u32; 2], size: [u32; 2]) -> (site:
    Option<[u32; 2]>)
    ensures
        possible_site(grid, worker_position, size, site),
{
    let sx = worker_position[0] as int;
    let sy = worker_position[1] as int;
    let site = first_fit(grid, worker_position, size, spiral_points((sx, sy)));
    assert(jittered(worker_position[0] as int, sx));
    assert(jittered(worker_position[1] as int, sy));
    site
}

impl TeamAi {
    pub closed spec fn spec_team(&self) -> Team {
        self.team
    }

    pub closed spec fn spec_opponent(&self) -> Team {
        self.opponent
    }

    /// Nanoseconds until the next look at the game.
    pub closed spec fn spec_timer(&self) -> u64 {
        self.timer
    }

    /// A computer opponent for `team` that fights `opponent`; it acts at its first run.
    pub fn new(team: Team, opponent: Team) -> (ai: Self)
        ensures
            ai.spec_team() == team,
            ai.spec_opponent() == opponent,
            ai.spec_timer() == 0,
    {
        Self { team, opponent, timer: 0 }
    }

    pub fn team(&self) -> (team: Team)
        ensures
            team == self.spec_team(),
    {
        self.team
    }

    /// Lets `dt` nanoseconds pass; when the second is over, the computer opponent looks at
    /// the game, decides on a command, and waits another second.
    pub fn run(&mut self, dt: u64, core: &Core, rng: &mut ThreadRng) -> (command: Option<Command>)
        requires
            core.wf(),
        ensures
            final(self).spec_team() == old(self).spec_team(),
            final(self).spec_opponent() == old(self).spec_opponent(),
            dt >= old(self).spec_timer() ==> {
                &&& final(self).spec_timer() == NANOS_PER_SEC
                &&& exists|base_site: Option<[u32; 2]>, academy_site: Option<[u32; 2]>| #[trigger]
                    sites_possible(*core, old(self).spec_team(), base_site, academy_site) && command
                        == team_decision(
                        core.spec_entities(),
                        old(self).spec_team(),
                        old(self).spec_opponent(),
                        base_site,
                        academy_site,
                    )
            },
            dt < old(self).spec_timer() ==> {
                &&& final(self).spec_timer() == old(self).spec_timer() - dt
                &&& command is None
            },
    {
        if dt >= self.timer {
            self.timer = NANOS_PER_SEC;
            self.act(core, rng)
        } else {
            self.timer = self.timer - dt;
            None
        }
    }

    /// Looks at the game and decides on a command, as `team_decision` describes, with sites
    /// for structures searched for near the engineer that would build them.
    fn act(&self, core: &Core, rng: &mut ThreadRng) -> (command: Option<Command>)
        requires
            core.wf(),
        ensures
            exists|base_site: Option<[u32; 2]>, academy_site: Option<[u32; 2]>| #[trigger]
                sites_possible(*core, self.spec_team(), base_site, academy_site) && command
                    == team_decision(core.spec_entities(), self.spec_team(), self.spec_opponent(), base_site, academy_site),
    {
        let team = self.team;
        let opponent = self.opponent;
        let entities = core.entities();
        let ghost es = core.spec_entities();
        let mut idle_workers: Vec<(EntityId, [u32; 2])> = Vec::new();
        let mut worker_count: usize = 0;
        let mut base_count: usize = 0;
        let mut idle_bases: Vec<EntityId> = Vec::new();
        let mut academy_count: usize = 0;
        let mut idle_academies: Vec<EntityId> = Vec::new();
        let mut idle_fighters: Vec<EntityId> = Vec::new();
        let mut first_rift: Option<EntityId> = None;
        let mut opponents: Vec<EntityId> = Vec::new();
        let n = entities.len();
        let mut k: usize = 0;
        while k < n
            invariant
                n == es.len(),
                entities@ == es,
                k <= n,
                idle_workers@.len() == idle_of_type(es.take(k as int), team, EntityType::Engineer).len(),
                forall|j: int| 0 <= j < idle_workers@.len() ==> #[trigger] idle_workers@[j] == (
                    idle_of_type(es.take(k as int), team, EntityType::Engineer)[j].id,
                    idle_of_type(es.take(k as int), team, EntityType::Engineer)[j].position,
                ),
                worker_count == own_of_type(es.take(k as int), team, EntityType::Engineer).len(),
                base_count == own_of_type(es.take(k as int), team, EntityType::TechLab).len(),
                academy_count == own_of_type(es.take(k as int), team, EntityType::BattleAcademy).len(),
                ids_of(idle_bases@, idle_of_type(es.take(k as int), team, EntityType::TechLab)),
                ids_of(idle_academies@, idle_of_type(es.take(k as int), team, EntityType::BattleAcademy)),
                ids_of(idle_fighters@, idle_of_type(es.take(k as int), team, EntityType::Enforcer)),
                ids_of(opponents@, of_team(es.take(k as int), opponent)),
                first_rift == if rifts(es.take(k as int)).len() > 0 {
                    Some(rifts(es.take(k as int))[0].id)
                } else {
                    None::<EntityId>
                },
            decreases n - k,
        {
            let e = &entities[k];
            let ghost prefix = es.take(k as int);
            let ghost next = es.take(k + 1);
            proof {
                assert(next.drop_last() =~= prefix);
                assert(next.last() == es[k as int]);
                lemma_own_of_type_len(prefix, team, EntityType::Engineer);
                lemma_own_of_type_len(prefix, team, EntityType::TechLab);
                lemma_own_of_type_len(prefix, team, EntityType::BattleAcademy);
            }
            if e.team == team {
                match e.entity_type {
                    EntityType::Engineer => {
                        worker_count = worker_count + 1;
                        if e.state.is_idle() {
                            idle_workers.push((e.id, e.position));
                        }
                    },
                    EntityType::Enforcer => {
                        if e.state.is_idle() {
                            idle_fighters.push(e.id);
                        }
                    },
                    EntityType::TechLab => {
                        base_count = base_count + 1;
                        if e.state.is_idle() {
                            idle_bases.push(e.id);
                        }
                    },
                    EntityType::BattleAcademy => {
                        academy_count = academy_count + 1;
                        if e.state.is_idle() {
                            idle_academies.push(e.id);
                        }
                    },
                    _ => {},
                }
            }
            if e.entity_type == EntityType::FuelRift && first_rift.is_none() {
                first_rift = Some(e.id);
            }
            if e.team == opponent {
                opponents.push(e.id);
            }
            proof {
                assert(rifts(prefix).len() > 0 ==> rifts(next)[0] == rifts(prefix)[0]);
            }
            k = k + 1;
        }
        proof {
            assert(es.take(n as int) =~= es);
        }
        let ghost idle = idle_of_type(es, team, EntityType::Engineer);
        let ghost grid = core.spec_grid();
        let ghost mut base_site: Option<[u32; 2]> = None;
        let mut available = idle_workers.len();
        if base_count == 0 && available > 0 {
            let (builder, position) = idle_workers[available - 1];
            available = available - 1;
            let size = core.structure_size(&EntityType::TechLab);
            let site = find_free_position_for_structure(core, position, size, rng);
            proof {
                base_site = site;
            }
            if let Some(structure_position) = site {
                let command = Some(Command::Construct(ConstructCommand {
                    builder,
                    structure_position,
                    structure_type: EntityType::TechLab,
                }));
                proof {
                    let academy_site = if tries_academy(es, team) {
                        lemma_some_site(grid, idle[workers_after_base(es, team) - 1].position, spec_entity_size(EntityType::BattleAcademy))
                    } else {
                        None
                    };
                    assert(sites_possible(*core, team, base_site, academy_site));
                    assert(command == team_decision(es, team, opponent, base_site, academy_site));
                }
                return command;
            }
        }
        proof {
            if !tries_base(es, team) {
                base_site = lemma_some_site(grid, [0, 0], [3, 3]);
            }
        }
        let ghost mut academy_site: Option<[u32; 2]> = None;
        if academy_count < 2 && available > 0 {
            let (builder, position) = idle_workers[available - 1];
            available = available - 1;
            let size = core.structure_size(&EntityType::BattleAcademy);
            let site = find_free_position_for_structure(core, position, size, rng);
            proof {
                academy_site = site;
            }
            if let Some(structure_position) = site {
                let command = Some(Command::Construct(ConstructCommand {
                    builder,
                    structure_position,
                    structure_type: EntityType::BattleAcademy,
                }));
                proof {
                    assert(sites_possible(*core, team, base_site, academy_site));
                    assert(command == team_decision(es, team, opponent, base_site, academy_site));
                }
                return command;
            }
        }
        let command = if available > 0 && first_rift.is_some() {
            Some(Command::GatherResource(GatherResourceCommand {
                gatherer: idle_workers[available - 1].0,
                resource: first_rift.unwrap(),
            }))
        } else if worker_count < 3 && idle_bases.len() > 0 {
            Some(Command::Train(TrainCommand { trainer: idle_bases[0], trained_unit_type: EntityType::Engineer }))
        } else if idle_academies.len() > 0 {
            Some(Command::Train(TrainCommand { trainer: idle_academies[0], trained_unit_type: EntityType::Enforcer }))
        } else {
            let victims = if opponents.len() < idle_fighters.len() {
                opponents.len()
            } else {
                idle_fighters.len()
            };
            if victims > 0 {
                Some(Command::Attack(AttackCommand { attacker: idle_fighters[0], victim: opponents[victims - 1] }))
            } else {
                None
            }
        };
        proof {
            assert(sites_possible(*core, team, base_site, academy_site));
            assert(command == team_decision(es, team, opponent, base_site, academy_site));
        }
        command
    }
}

/// Whether some entity belongs to the team.
pub open spec fn team_present(entities: Seq<Entity>, team: Team) -> bool {
    exists|k: int| 0 <= k < entities.len() && #[trigger] entities[k].team == team
}

/// The opponent that a computer team fights: the player when present, else the other enemy.
pub open spec fn opponent_of(entities: Seq<Entity>, team: Team) -> Team {
    if team_present(entities, Team::Player) {
        Team::Player
    } else if team == Team::Enemy1 {
        Team::Enemy2
    } else {
        Team::Enemy1
    }
}

/// Whether some entity belongs to the team.
fn has_team(entities: &[Entity], team: Team) -> (present: bool)
    ensures
        present == team_present(entities@, team),
{
    let n = entities.len();
    let mut k: usize = 0;
    while k < n
        invariant
            n == entities@.len(),
            k <= n,
            forall|j: int| 0 <= j < k ==> entities@[j].team != team,
        decreases n - k,
    {
        if entities[k].team == team {
            assert(entities@[k as int].team == team);
            return true;
        }
        k = k + 1;
    }
    false
}

/// The computer opponents of a game: one for each enemy team that has entities, fighting
/// the player, or the other enemy when the player has no entities; the first enemy's first.
pub fn computer_opponents(entities: &[Entity]) -> (ais: Vec<TeamAi>)
    ensures
        ais@.len() == (if team_present(entities@, Team::Enemy1) { 1int } else { 0 }) + (if team_present(
            entities@,
            Team::Enemy2,
        ) { 1int } else { 0 }),
        forall|k: int| 0 <= k < ais@.len() ==> {
            let team = if k == 0 && team_present(entities@, Team::Enemy1) { Team::Enemy1 } else { Team::Enemy2 };
            &&& (#[trigger] ais@[k]).spec_team() == team
            &&& ais@[k].spec_opponent() == opponent_of(entities@, team)
            &&& ais@[k].spec_timer() == 0
        },
{
    let mut ais: Vec<TeamAi> = Vec::new();
    let player = has_team(entities, Team::Player);
    if has_team(entities, Team::Enemy1) {
        let opponent = if player { Team::Player } else { Team::Enemy2 };
        ais.push(TeamAi::new(Team::Enemy1, opponent));
    }
    if has_team(entities, Team::Enemy2) {
        let opponent = if player { Team::Player } else { Team::Enemy1 };
        ais.push(TeamAi::new(Team::Enemy2, opponent));
    }
    ais
}

} // verus!
