use vstd::prelude::*;

use crate::entities::{Action, Entity, Team, NANOS_PER_SEC, NUM_ENTITY_ACTIONS};
use crate::entities::EntityId;
use crate::game_core::{AttackCommand, Command, MoveCommand, TrainCommand};
use crate::grid::in_bounds;
use crate::random::{random_ratio, random_u32_below};
use crate::team_ai::of_team;
use rand::rngs::ThreadRng;

verus! {

/// A simple computer opponent for the first enemy team: once a second each of its entities,
/// with a chance of one in five, goes through its actions and may attack the player's first
/// entity, move to a random cell or train a unit.
pub struct EnemyPlayerAi {
    timer: u64,
    world_dimensions: [u32; 2],
}

/// What was drawn at random for one entity of the opponent: whether it acts this time,
/// whether it takes up an attack or a move that it offers, and where a move would go.
#[derive(Clone, Copy)]
pub struct EnemyDraw {
    pub acts: bool,
    pub attacks: bool,
    pub moves: bool,
    pub destination: [u32; 2],
}

/// The id of the player's first entity in the list, if any.
pub open spec fn first_player_id(entities: Seq<Entity>) -> Option<EntityId> {
    if of_team(entities, Team::Player).len() > 0 {
        Some(of_team(entities, Team::Player)[0].id)
    } else {
        None
    }
}

/// The command an acting entity of the opponent decides on, going through its action slots
/// from slot `a` on: the first attack it takes up (on `victim`, when there is one), move it
/// takes up (to the drawn cell) or training it offers.
pub open spec fn decision_from(entity: Entity, draw: EnemyDraw, victim: Option<EntityId>, a: int) -> Option<Command>
    decreases NUM_ENTITY_ACTIONS - a,
{
    if a < 0 || a >= NUM_ENTITY_ACTIONS {
        None
    } else {
        match entity.actions[a] {
            Some(Action::Attack) if draw.attacks && victim is Some => Some(
                Command::Attack(AttackCommand { attacker: entity.id, victim: victim->Some_0 }),
            ),
            Some(Action::Move) if draw.moves => Some(
                Command::Move(MoveCommand { unit: entity.id, destination: draw.destination }),
            ),
            Some(Action::Train(unit_type, _)) => Some(
                Command::Train(TrainCommand { trainer: entity.id, trained_unit_type: unit_type }),
            ),
            _ => decision_from(entity, draw, victim, a + 1),
        }
    }
}

/// The commands of the opponent's entities among the first `n`, in order: each entity of
/// the first enemy that acts gives the command it decides on, if any.
pub open spec fn enemy_commands(entities: Seq<Entity>, draws: Seq<EnemyDraw>, n: int) -> Seq<Command>
    decreases n,
{
    if n <= 0 {
        Seq::empty()
    } else {
        let rest = enemy_commands(entities, draws, n - 1);
        let entity = entities[n - 1];
        if entity.team == Team::Enemy1 && draws[n - 1].acts {
            match decision_from(entity, draws[n - 1], first_player_id(entities), 0) {
                Some(command) => rest.push(command),
                None => rest,
            }
        } else {
            rest
        }
    }
}

/// Whether `entity` offers what `command` asks of it: a training of that very unit type, an
/// attack on the drawn victim (when it takes up attacks), or a move to the drawn cell (when
/// it takes up moves), with the entity itself as the one that carries it out.
pub open spec fn offers_command(entity: Entity, command: Command, victim: Option<EntityId>, draw: EnemyDraw) -> bool {
    match command {
        Command::Train(tc) => {
            &&& tc.trainer == entity.id
            &&& exists|j: int| #![trigger entity.actions[j]]
                0 <= j < NUM_ENTITY_ACTIONS && (entity.actions[j] matches Some(Action::Train(t, _))
                    && t == tc.trained_unit_type)
        },
        Command::Attack(ac) => {
            &&& ac.attacker == entity.id
            &&& victim == Some(ac.victim)
            &&& draw.attacks
            &&& exists|j: int| #![trigger entity.actions[j]] 0 <= j < NUM_ENTITY_ACTIONS && entity.actions[j] == Some(Action::Attack)
        },
        Command::Move(mc) => {
            &&& mc.unit == entity.id
            &&& mc.destination == draw.destination
            &&& draw.moves
            &&& exists|j: int| #![trigger entity.actions[j]] 0 <= j < NUM_ENTITY_ACTIONS && entity.actions[j] == Some(Action::Move)
        },
        _ => false,
    }
}

proof fn lemma_decision_offered(entity: Entity, draw: EnemyDraw, victim: Option<EntityId>, a: int)
    ensures
        decision_from(entity, draw, victim, a) matches Some(command) ==> offers_command(entity, command, victim, draw),
    decreases NUM_ENTITY_ACTIONS - a,
{
    if 0 <= a < NUM_ENTITY_ACTIONS {
        lemma_decision_offered(entity, draw, victim, a + 1);
        let slot = entity.actions[a];
        assert(slot == entity.actions[a]);
    }
}

/// Whether one of the first `n` entities is of the opponent, acts this time, and offers what
/// `command` asks of it.
pub open spec fn offered_by_acting_entity(entities: Seq<Entity>, draws: Seq<EnemyDraw>, n: int, command: Command) -> bool {
    exists|i: int|
        0 <= i < n && entities[i].team == Team::Enemy1 && draws[i].acts && #[trigger] offers_command(
            entities[i],
            command,
            first_player_id(entities),
            draws[i],
        )
}

/// Every command the opponent gives comes from one of its entities that acts this time, and
/// asks of that entity what one of its actions offers: a training command trains the unit
/// type that the trainer's training action names, an attack goes for the player's first
/// entity, and a move goes to the drawn cell.
pub proof fn law_enemy_commands_come_from_offered_actions(entities: Seq<Entity>, draws: Seq<EnemyDraw>, n: int)
    requires
        0 <= n <= entities.len(),
        n <= draws.len(),
    ensures
        forall|k: int|
            0 <= k < enemy_commands(entities, draws, n).len() ==> offered_by_acting_entity(
                entities,
                draws,
                n,
                #[trigger] enemy_commands(entities, draws, n)[k],
            ),
    decreases n,
{
    if n > 0 {
        law_enemy_commands_come_from_offered_actions(entities, draws, n - 1);
        let rest = enemy_commands(entities, draws, n - 1);
        let all = enemy_commands(entities, draws, n);
        lemma_decision_offered(entities[n - 1], draws[n - 1], first_player_id(entities), 0);
        assert forall|k: int| 0 <= k < all.len() implies offered_by_acting_entity(entities, draws, n, #[trigger] all[k]) by {
            if k < rest.len() {
                assert(all[k] == rest[k]);
                assert(offered_by_acting_entity(entities, draws, n - 1, rest[k]));
                let i = choose|i: int|
                    0 <= i < n - 1 && entities[i].team == Team::Enemy1 && draws[i].acts && #[trigger] offers_command(
                        entities[i],
                        rest[k],
                        first_player_id(entities),
                        draws[i],
                    );
                assert(offers_command(entities[i], all[k], first_player_id(entities), draws[i]));
            } else {
                assert(offers_command(entities[n - 1], all[k], first_player_id(entities), draws[n - 1]));
            }
        }
    } else {
        assert(enemy_commands(entities, draws, n) =~= Seq::<Command>::empty());
    }
}

/// The id of the player's first entity in the list, if any.
fn find_first_player(entities: &[Entity]) -> (id: Option<EntityId>)
    ensures
        id == first_player_id(entities@),
{
    let ghost es = entities@;
    let n = entities.len();
    let mut first_player: Option<EntityId> = None;
    let mut p: usize = 0;
    while p < n
        invariant
            n == es.len(),
            entities@ == es,
            p <= n,
            first_player == first_player_id(es.take(p as int)),
        decreases n - p,
    {
        proof {
            assert(es.take(p + 1).drop_last() =~= es.take(p as int));
            assert(es.take(p + 1).last() == es[p as int]);
            let prefix = of_team(es.take(p as int), Team::Player);
            assert(prefix.len() > 0 ==> of_team(es.take(p + 1), Team::Player)[0] == prefix[0]);
        }
        if first_player.is_none() && entities[p].team == Team::Player {
            first_player = Some(entities[p].id);
        }
        p = p + 1;
    }
    proof {
        assert(es.take(n as int) =~= es);
    }
    first_player
}

/// The commands the opponent's entities give for the drawn values: each entity of the first
/// enemy that acts goes through its action slots and gives the first command it decides on.
pub fn enemy_decisions(entities: &[Entity], draws: &[EnemyDraw]) -> (commands: Vec<Command>)
    requires
        draws@.len() == entities@.len(),
    ensures
        commands@ == enemy_commands(entities@, draws@, entities@.len() as int),
{
    let first_player = find_first_player(entities);
    let ghost es = entities@;
    let n = entities.len();
    let mut commands: Vec<Command> = Vec::new();
    let mut k: usize = 0;
    while k < n
        invariant
            n == es.len(),
            entities@ == es,
            draws@.len() == n,
            k <= n,
            first_player == first_player_id(es),
            commands@ == enemy_commands(es, draws@, k as int),
        decreases n - k,
    {
        let entity = &entities[k];
        let draw = draws[k];
        if entity.team == Team::Enemy1 && draw.acts {
            let mut a: usize = 0;
            let mut decided: Option<Command> = None;
            while a < NUM_ENTITY_ACTIONS
                invariant
                    a <= NUM_ENTITY_ACTIONS,
                    decided is None ==> decision_from(*entity, draw, first_player, 0) == decision_from(*entity, draw, first_player, a as int),
                    decided is Some ==> decision_from(*entity, draw, first_player, 0) == decided,
                ensures
                    decision_from(*entity, draw, first_player, 0) == decided,
                decreases NUM_ENTITY_ACTIONS - a,
            {
                if decided.is_some() {
                    break;
                }
                match entity.actions[a] {
                    Some(Action::Attack) => {
                        if draw.attacks {
                            if let Some(victim) = first_player {
                                decided = Some(Command::Attack(AttackCommand { attacker: entity.id, victim }));
                            }
                        }
                    },
                    Some(Action::Move) => {
                        if draw.moves {
                            decided = Some(Command::Move(MoveCommand { unit: entity.id, destination: draw.destination }));
                        }
                    },
                    Some(Action::Train(unit_type, _)) => {
                        decided = Some(Command::Train(TrainCommand { trainer: entity.id, trained_unit_type: unit_type }));
                    },
                    _ => {},
                }
                a = a + 1;
            }
            if let Some(command) = decided {
                commands.push(command);
            }
        }
        proof {
            assert(es[k as int] == *entity);
            assert(draws@[k as int] == draw);
        }
        k = k + 1;
    }
    commands
}

impl EnemyPlayerAi {
    pub closed spec fn spec_timer(&self) -> u64 {
        self.timer
    }

    pub closed spec fn spec_world_dimensions(&self) -> [u32; 2] {
        self.world_dimensions
    }

    /// An opponent for a world of the given size; it acts at its first run.
    pub fn new(world_dimensions: [u32; 2]) -> (ai: Self)
        ensures
            ai.spec_timer() == 0,
            ai.spec_world_dimensions() == world_dimensions,
    {
        Self { timer: 0, world_dimensions }
    }

    /// Lets `dt` nanoseconds pass; when the second is over, the first enemy's entities decide
    /// on their commands, each acting with a chance of one in five, taking up an attack with a
    /// chance of four in five and a move with a chance of three in ten, to a random cell; and
    /// the opponent waits another second.
    pub fn run(&mut self, dt: u64, entities: &[Entity], rng: &mut ThreadRng) -> (commands: Vec<Command>)
        requires
            old(self).spec_world_dimensions()[0] > 0,
            old(self).spec_world_dimensions()[1] > 0,
        ensures
            final(self).spec_world_dimensions() == old(self).spec_world_dimensions(),
            dt >= old(self).spec_timer() ==> {
                &&& final(self).spec_timer() == NANOS_PER_SEC
                &&& exists|draws: Seq<EnemyDraw>| #![trigger enemy_commands(entities@, draws, entities@.len() as int)] {
                    &&& draws.len() == entities@.len()
                    &&& forall|k: int| 0 <= k < draws.len() ==> in_bounds(
                        old(self).spec_world_dimensions(),
                        #[trigger] draws[k].destination,
                    )
                    &&& commands@ == enemy_commands(entities@, draws, entities@.len() as int)
                }
            },
            dt < old(self).spec_timer() ==> {
                &&& final(self).spec_timer() == old(self).spec_timer() - dt
                &&& commands@.len() == 0
            },
    {
        if dt < self.timer {
            self.timer = self.timer - dt;
            return Vec::new();
        }
        self.timer = NANOS_PER_SEC;
        let dims = self.world_dimensions;
        let n = entities.len();
        let mut draws: Vec<EnemyDraw> = Vec::new();
        let mut k: usize = 0;
        while k < n
            invariant
                n == entities@.len(),
                k <= n,
                draws@.len() == k,
                dims[0] > 0,
                dims[1] > 0,
                forall|j: int| 0 <= j < k ==> in_bounds(dims, #[trigger] draws@[j].destination),
            decreases n - k,
        {
            let draw = if entities[k].team == Team::Enemy1 && random_ratio(rng, 1, 5) {
                let attacks = random_ratio(rng, 4, 5);
                let moves = random_ratio(rng, 3, 10);
                let x = random_u32_below(rng, dims[0]);
                let y = random_u32_below(rng, dims[1]);
                EnemyDraw { acts: true, attacks, moves, destination: [x, y] }
            } else {
                EnemyDraw { acts: false, attacks: false, moves: false, destination: [0, 0] }
            };
            draws.push(draw);
            k = k + 1;
        }
        let commands = enemy_decisions(entities, draws.as_slice());
        proof {
            assert(enemy_commands(entities@, draws@, entities@.len() as int) == commands@);
        }
        commands
    }
}

} // verus!
