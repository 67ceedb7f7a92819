//! Participants of the roster and their projection into a matching group.
use vstd::prelude::*;

verus! {

#[derive(Clone, Copy, Debug, PartialEq, Eq, Structural)]
pub enum Gender {
    Male,
    Female,
}

/// A member of the roster.
#[derive(Clone, Debug)]
pub struct Participant {
    pub id: u32,
    pub first_name: String,
    pub last_name: String,
    pub gender: Gender,
}

/// A participant as seen inside one matching group.
#[derive(Clone, Debug)]
pub struct MatchParticipant {
    pub id: u32,
    pub group_id: i32,
    pub first_name: String,
    pub last_name: String,
    pub gender: Gender,
}

/// A first name and a last name joined by one space.
pub open spec fn full_name_of(first: Seq<char>, last: Seq<char>) -> Seq<char> {
    first + seq![' '] + last
}

fn join_names(first: &String, last: &String) -> (r: String)
    ensures
        r@ == full_name_of(first@, last@),
{
    let mut name = first.clone();
    name.append(" ");
    name.append(last.as_str());
    proof {
        reveal_strlit(" ");
    }
    name
}

impl Participant {
    pub fn full_name(&self) -> (r: String)
        ensures
            r@ == full_name_of(self.first_name@, self.last_name@),
    {
        join_names(&self.first_name, &self.last_name)
    }

    /// A copy equal to this participant in every field.
    pub fn duplicate(&self) -> (r: Participant)
        ensures
            r == *self,
    {
        Participant {
            id: self.id,
            first_name: self.first_name.clone(),
            last_name: self.last_name.clone(),
            gender: self.gender,
        }
    }
}

impl MatchParticipant {
    pub fn full_name(&self) -> (r: String)
        ensures
            r@ == full_name_of(self.first_name@, self.last_name@),
    {
        join_names(&self.first_name, &self.last_name)
    }

    /// A copy equal to this participant in every field.
    pub fn duplicate(&self) -> (r: MatchParticipant)
        ensures
            r == *self,
    {
        MatchParticipant {
            id: self.id,
            group_id: self.group_id,
            first_name: self.first_name.clone(),
            last_name: self.last_name.clone(),
            gender: self.gender,
        }
    }
}

/// The participant placed in the group `group_id`.
pub open spec fn projected(p: Participant, group_id: i32) -> MatchParticipant {
    MatchParticipant {
        id: p.id,
        group_id,
        first_name: p.first_name,
        last_name: p.last_name,
        gender: p.gender,
    }
}

/// Every participant of `ps`, in order, placed in the group `group_id`.
pub open spec fn projected_all(ps: Seq<Participant>, group_id: i32) -> Seq<MatchParticipant> {
    ps.map_values(|p: Participant| projected(p, group_id))
}

pub fn map_participant_to_match_participant(participant: &Participant, group_id: i32) -> (r:
    MatchParticipant)
    ensures
        r == projected(*participant, group_id),
{
    MatchParticipant {
        id: participant.id,
        group_id,
        first_name: participant.first_name.clone(),
        last_name: participant.last_name.clone(),
        gender: participant.gender,
    }
}

pub fn map_participants_to_match_participants(participants: &Vec<Participant>, group_id: i32) -> (r:
    Vec<MatchParticipant>)
    ensures
        r@ == projected_all(participants@, group_id),
{
    let mut out: Vec<MatchParticipant> = Vec::new();
    let mut i: usize = 0;
    while i < participants.len()
        invariant
            i <= participants.len(),
            out@ == projected_all(participants@.take(i as int), group_id),
        decreases participants.len() - i,
    {
        out.push(map_participant_to_match_participant(&participants[i], group_id));
        proof {
            assert(participants@.take(i + 1) =~= participants@.take(i as int).push(participants@[i as int]));
        }
        i = i + 1;
    }
    proof {
        assert(participants@.take(i as int) =~= participants@);
    }
    out
}

} // verus!
