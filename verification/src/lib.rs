//! Wordle: answer feedback, candidate filtering, dictionaries, statistics and
//! the per-guess rules of a game round, each stated and proved with Verus.

pub mod letters;
pub mod feedback;
pub mod candidates;
pub mod solver;
pub mod text;
pub mod dict;
pub mod stats;
pub mod game;
pub mod round;
pub mod record;
