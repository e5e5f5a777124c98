//! A Pente-style five-in-a-row game with captures on a 19 x 19 board, and a
//! depth-limited alpha-beta computer opponent.
//!
//! `game` holds the board state and the rules engine; `search` the relevance
//! filter, the heuristic evaluator and the alpha-beta search; `input` the
//! move-input parser; `laws` the proved statements about the rules.

pub mod game;
pub mod input;
pub mod laws;
pub mod search;
