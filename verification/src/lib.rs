//! Simulation of a custom 108-card deck: deck construction, shuffling,
//! dealing, and category counting for randomness analysis.

pub mod analyze;
pub mod cards;
pub mod deal;
pub mod rng;
pub mod shuffle;
pub mod trial;
