//! Decay-weighted aggregation of a player's best scores: the weighted total
//! of a roster, the gain from one new score, and the least new score that
//! reaches a wanted gain.
//!
//! Scores are non-negative integers in a caller-chosen unit (for example
//! hundredths of a point). Rank weights are fixed-point integers: rank 0 weighs
//! `WEIGHT_ONE`, and each lower rank weighs the one above times 95/100, rounded
//! up, so that every rank keeps a positive weight (from rank 357 on it stays at
//! 19). All totals and gains are exact integers in units of score unit times
//! weight unit.
//!
//! A roster holds at most `cap` scores. Below the cap a new score simply joins;
//! at the cap the lowest score leaves to make room.

pub mod weights;
pub mod roster;
pub mod solver;
