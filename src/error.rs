//! Why a matching round could not be made.
use vstd::prelude::*;

verus! {

#[derive(Clone, Copy, Debug, PartialEq, Eq, Structural)]
pub enum MatchingError {
    /// The roster has more than two groups.
    TooManyGroups,
    /// A cross-team round was asked for a roster without exactly two groups.
    CrossTeamNeedsTwoGroups,
    /// No attempt found a matching for the group with this id.
    NoMatchingFound(i32),
    /// A past match names a participant with this id that no group holds.
    ParticipantWithoutGroup(u32),
}

} // verus!
