//! The rules of Farkle, a dice game: scoring a throw, the turns of a game
//! and the bots' choices, with their contracts proved by Verus.

pub mod scoring;
pub mod dice;
pub mod game;
pub mod extra;
pub mod display;
