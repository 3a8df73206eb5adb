//! A Monte Carlo tree search engine for two-player, alternating-turn games,
//! together with the square notation used to exchange moves on an 8x8 board.

pub mod env;
pub mod evaluate;
pub mod mcts;

pub mod notation;
pub mod outside;
