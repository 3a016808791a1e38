//! Game logic of a small real-time strategy game: the cell grid, entities and
//! their components, path finding, the simulation core that applies commands
//! and advances time, map construction, and the computer opponent's decisions.
//!
//! Time is counted in whole nanoseconds (`u64`), grid positions are `[x, y]`
//! cell coordinates.

pub mod data;
pub mod grid;
pub mod pathfind;
pub mod entities;
pub mod game_core;
pub mod map;
pub mod random;
pub mod team_ai;
pub mod enemy_ai;
pub mod player;
pub mod hud;
