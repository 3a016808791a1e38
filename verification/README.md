# rts_core

The game logic of a small real-time strategy game, written in Verus: every function of the
library comes with a contract, and Verus proves that the code meets it.

- `src/grid.rs`: grids of cells (obstacles, water, tiles) and cell rectangles.
- `src/entities.rs`: entities and their components (health, movement, training, combat,
  gathering) and the actions they offer.
- `src/data.rs`: the entity types and their configuration.
- `src/pathfind.rs`: path finding on the obstacle grid: A* search near the unit, a straight
  walk beyond the search radius. A found path is a walk of free cells to the destination,
  and the search gives up only when no such walk exists.
- `src/game_core.rs`: the simulation core: commands given by a team, and the update that lets
  time pass (movement, combat, gathering, construction, training).
- `src/map.rs`: maps created from a kind of map, read from a map file, written to one, and
  the tiles drawn for the water.
- `src/team_ai.rs`, `src/enemy_ai.rs`: the computer opponents.
- `src/player.rs`, `src/hud.rs`: what the player's view needs from the game state, and what
  the player's clicks and chosen actions ask of the game.
- `src/random.rs`: the random number generator, the one outside crate the logic calls.

`app/` holds the window, the input and the drawing (with `ggez`) around the library, and the
map editor. `tests/` runs the library on concrete games.

Time is counted in nanoseconds, positions are `[x, y]` cells.
