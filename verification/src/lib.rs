//! Opening-hand analysis for card decks: exact counting of permutations and
//! combinations, closed-form probabilities of initial patterns, and an
//! exhaustive search over every possible hand.

pub mod agreement;
pub mod all_search;
pub mod combinations;
pub mod domain;
mod error;
pub mod probability;
pub mod sampling;

pub use error::AppError;
