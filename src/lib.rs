//! A Hashiwokakero-style puzzle board: a procedural generator that grows a
//! connected graph of islands, and the state machine that applies a player's
//! bridge toggles to it.

pub mod point;
pub mod island;
pub mod random;
pub mod game_map;
pub mod interact;
pub mod laws;
pub mod generate;
pub mod weights;
pub mod progress;
