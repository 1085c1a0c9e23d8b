//! Scores and enumerates the valid words of a center-letter word puzzle:
//! given one mandatory center letter and a set of permitted non-center
//! letters, every dictionary word of at least four letters that uses only
//! permitted letters and contains the center letter earns points, with a
//! bonus for pangrams.  Four interchangeable solving strategies — plain and
//! parallel scans, with or without a precomputed letter index — are each
//! proved to return exactly the same mapping from accepted word to points.

mod dictionary;
mod evaluate;
mod game_result;
pub mod laws;
mod puzzle;
mod strategy;

pub use dictionary::Dictionary;
pub use evaluate::Guess;
pub use evaluate::GuessingError;
pub use game_result::GameResult;
pub use puzzle::Game;
pub use puzzle::GameError;
pub use puzzle::GameProcessed;
pub use strategy::BruteForce;
pub use strategy::GameSolver;
pub use strategy::LetterMap;
pub use strategy::ParallelBruteForce;
pub use strategy::ParallelLetterMap;
pub use strategy::SolveStrategy;
