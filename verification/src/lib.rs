//! A verified engine for a deterministic two-player territory-capture game
//! on a fixed 16x16 grid.
//!
//! The engine is built from three layers: a bit-parallel 256-cell board
//! ([`mask::Mask`]) with flood fill and counting, a game state machine
//! ([`game::State`]) with monotonic capture and O(1) checkpoint/restore
//! backtracking, and a depth-bounded negamax search with alpha-beta pruning
//! ([`bot`]) over pluggable leaf evaluators.

pub mod mask;
pub mod rng;
pub mod game;
pub mod bot;
