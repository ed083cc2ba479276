//! A word-guessing game: the scoring of guesses against a secret word, the
//! game state machine, the filter that tells which words are still possible,
//! solver strategies, and a harness that plays many games.
pub mod constraint;
pub mod display;
pub mod game;
pub mod scoring;
pub mod solver;
pub mod solver_strategy;
mod support;
pub mod types;
