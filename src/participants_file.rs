//! The roster: participants partitioned into groups.
use vstd::prelude::*;

use crate::participant::Participant;

verus! {

/// A group of the roster. Only `participants` take part in matching.
#[derive(Clone, Debug)]
pub struct ParticipantsGroup {
    pub id: i32,
    pub participants: Vec<Participant>,
    pub excluded_participants: Vec<Participant>,
}

/// The whole roster.
#[derive(Clone, Debug)]
pub struct ParticipantsFile {
    pub groups: Vec<ParticipantsGroup>,
}

} // verus!
