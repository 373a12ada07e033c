//! An exact, exhaustive engine for two-player zero-sum sequential games.
//!
//! A game is described by a pluggable rule set ([`game_tree::rules::GameRules`]).
//! The engine expands the rules into an explicit extensive-form tree
//! ([`game_tree::GameTree`]), enumerates every pure strategy of each player,
//! simulates strategy pairs to expected payoffs, and assembles the induced
//! normal-form payoff matrix.  All payoffs and probabilities are exact
//! rational numbers ([`ratio::Ratio`]); an equilibrium solver consuming the
//! matrix is an external collaborator, not part of this crate.

pub mod game_tree;
pub mod games;
pub mod matrix_game;
pub mod ratio;
