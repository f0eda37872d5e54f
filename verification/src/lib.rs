//! An autonomous player for a line-oriented network maze game.
//!
//! The library holds the verified core: grid primitives, the belief state
//! reconstructed from position observations, the bounded search over
//! unexplored space, the move-ranking heuristic, and the decision procedure
//! that turns ranked candidates into at most one command per tick.
//! Transport (sockets, retries, configuration files) lives outside.
//!
//! All heuristic quantities are fixed-point integers scaled by
//! [`helper::SCALE`]; lower scores are better.

use vstd::prelude::*;

pub mod algorithm;
pub mod client;
pub mod graph;
pub mod helper;
pub mod search;

verus! {

/// A cell coordinate on the maze grid.
#[derive(Default, Clone, Copy, PartialEq, Eq, Structural, Hash, Debug)]
pub struct Position {
    pub x: u32,
    pub y: u32,
}

/// The wall configuration of the current cell: one flag per side.
#[derive(Default, Clone, Copy, PartialEq, Eq, Structural, Debug)]
pub struct Walls {
    pub top: bool,
    pub right: bool,
    pub bottom: bool,
    pub left: bool,
}

/// A movement direction. The enumeration order Up, Right, Down, Left is
/// significant: it breaks ties between equally scored candidates.
#[derive(Clone, Copy, PartialEq, Eq, Structural, Debug)]
pub enum MoveDirection {
    Up,
    Right,
    Down,
    Left,
}

/// Where the game server lives.
pub struct ServerConfig {
    pub address: String,
}

/// Credentials used when joining a game.
pub struct UserConfig {
    pub user: String,
    pub password: String,
}

/// Tuning knobs of the decision engine. The two cut values are fixed-point
/// numbers scaled by [`helper::SCALE`]: `heuristic_cut` is an absolute score
/// bound, `heuristic_decline_cut` a ratio against the best recent score.
pub struct AlgorithmConfig {
    pub heuristic_cut: u64,
    pub heuristic_decline_length: u32,
    pub heuristic_decline_cut: u64,
}

/// The whole player configuration.
pub struct Config {
    pub server: ServerConfig,
    pub user: UserConfig,
    pub algorithm: AlgorithmConfig,
}

} // verus!
