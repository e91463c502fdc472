//! A decision engine for a multiplayer, turn-based grid game in which several
//! snake-like agents move simultaneously on a shared board, eliminate each
//! other through collisions, consume food, and survive hazards.
//!
//! The crate is organised leaf-first:
//! - [`board`] holds the geometry primitives and the per-tick transition and
//!   elimination logic;
//! - [`rulesets`] exposes the polymorphic ruleset capability, with the
//!   [`standard::Standard`] rules as its one implementation here;
//! - [`game`] pairs a board with the identifier of the controlled agent;
//! - [`eval`] is the pluggable heuristic-scoring capability;
//! - [`minimax`] is an adversarial fixed-depth search with alpha-beta pruning;
//! - [`mcts`] is a Monte Carlo tree search with UCB1-style selection.
//!
//! Scores are fixed-point integers throughout: the unit interval is scaled to
//! `0 ..= 1000` (see [`eval::MAX_SCORE`]), with `500` standing for a draw.

pub mod board;
pub mod rulesets;
pub mod standard;
pub mod game;
pub mod eval;
pub mod minimax;
pub mod mcts;
