//! Matches and the rounds that hold them.
use vstd::prelude::*;

use crate::participant::MatchParticipant;

verus! {

/// A calendar day, as its Julian day number.
#[derive(Clone, Copy, Debug, PartialEq, Eq, Structural)]
pub struct Date {
    pub julian_day: i32,
}

/// One directed assignment: `giver` gives feedback to `receiver`.
#[derive(Clone, Debug)]
pub struct Match {
    pub giver: MatchParticipant,
    pub receiver: MatchParticipant,
    pub score: i64,
}

/// One round of matches, numbered from 1 and dated with the day it was made.
#[derive(Clone, Debug)]
pub struct MatchingRound {
    pub id: i32,
    pub date: Date,
    pub matches: Vec<Match>,
}

impl Match {
    /// Whether giver and receiver belong to different groups.
    pub fn is_cross_team(&self) -> (r: bool)
        ensures
            r == (self.giver.group_id != self.receiver.group_id),
    {
        self.giver.group_id != self.receiver.group_id
    }

    /// A copy equal to this match in every field.
    pub fn duplicate(&self) -> (r: Match)
        ensures
            r == *self,
    {
        Match { giver: self.giver.duplicate(), receiver: self.receiver.duplicate(), score: self.score }
    }
}

/// A copy of `v`, element for element.
pub fn duplicate_matches(v: &Vec<Match>) -> (r: Vec<Match>)
    ensures
        r@ == v@,
{
    let mut out: Vec<Match> = Vec::new();
    let mut i: usize = 0;
    while i < v.len()
        invariant
            i <= v.len(),
            out@ == v@.take(i as int),
        decreases v.len() - i,
    {
        out.push(v[i].duplicate());
        proof {
            assert(v@.take(i + 1) =~= v@.take(i as int).push(v@[i as int]));
        }
        i = i + 1;
    }
    proof {
        assert(v@.take(i as int) =~= v@);
    }
    out
}

impl MatchingRound {
    /// A copy equal to this round in every field.
    pub fn duplicate(&self) -> (r: MatchingRound)
        ensures
            r.id == self.id,
            r.date == self.date,
            r.matches@ == self.matches@,
    {
        MatchingRound { id: self.id, date: self.date, matches: duplicate_matches(&self.matches) }
    }
}


/// The position of the round to report: the first with id `matching_round_id`,
/// or, where no id is given, the last round.
pub fn find_matching_round(rounds: &Vec<MatchingRound>, matching_round_id: Option<i32>) -> (r:
    Option<usize>)
    ensures
        matching_round_id is None ==> r == (if rounds@.len() == 0 {
            None::<usize>
        } else {
            Some((rounds@.len() - 1) as usize)
        }),
        matching_round_id matches Some(id) ==> {
            &&& r is None <==> forall|k: int| 0 <= k < rounds@.len() ==> #[trigger] rounds@[k].id != id
            &&& r matches Some(k) ==> k < rounds@.len() && rounds@[k as int].id == id && forall|
                j: int,
            | 0 <= j < k ==> #[trigger] rounds@[j].id != id
        },
{
    match matching_round_id {
        None => {
            if rounds.len() == 0 {
                None
            } else {
                Some(rounds.len() - 1)
            }
        },
        Some(id) => {
            let mut k: usize = 0;
            while k < rounds.len()
                invariant
                    k <= rounds@.len(),
                    matching_round_id == Some(id),
                    forall|j: int| 0 <= j < k ==> #[trigger] rounds@[j].id != id,
                decreases rounds@.len() - k,
            {
                if rounds[k].id == id {
                    return Some(k);
                }
                k = k + 1;
            }
            None
        },
    }
}

} // verus!
