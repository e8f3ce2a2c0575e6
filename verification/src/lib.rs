//! A solver for a word-guessing puzzle: feedback on a guess, scoring of
//! candidate guesses, filtering of the candidate pool, and the loop that
//! composes them.

pub mod agreement;
pub mod counting;
pub mod fact;
pub mod feedback;
pub mod filter;
pub mod scoring;
pub mod solver;
