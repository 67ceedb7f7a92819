//! Assigns each member of a recurring feedback exchange a receiver to give
//! feedback to, preferring pairs that have not met for the longest time.
use vstd::prelude::*;

pub mod complete_givers;
pub mod error;
pub mod groups;
pub mod last_match_map;
pub mod matcher;
pub mod matching;
pub mod matching_round;
pub mod messages;
pub mod migrations;
pub mod participant;
pub mod participants_file;
pub mod search;

verus! {

/// Recency score of a giver/receiver pair that has never been matched.
pub const MAX_SCORE: i64 = 1000000;

/// Number of shuffled attempts made per group when searching for a matching.
pub const NUMBER_OF_TRIES: u32 = 50;

} // verus!
