//! Complete givers: participants who have already given feedback to every
//! other member of their group.
use vstd::prelude::*;
use std::collections::HashMap;

use crate::last_match_map::{get_last_match_map, last_match_days, LastMatchMap};
use crate::matching_round::{Date, MatchingRound};
use crate::participant::Participant;
use crate::participants_file::{ParticipantsFile, ParticipantsGroup};

verus! {

broadcast use vstd::std_specs::hash::group_hash_axioms;

/// Whether the index holds a pair from `giver_id` to every other member of
/// `participants`.
pub open spec fn has_matched_all(
    m: Map<(u32, u32), i64>,
    giver_id: u32,
    participants: Seq<Participant>,
) -> bool {
    forall|k: int|
        0 <= k < participants.len() && participants[k].id != giver_id ==> m.contains_key(
            (giver_id, #[trigger] participants[k].id),
        )
}

pub open spec fn is_complete_giver(m: Map<(u32, u32), i64>, participants: Seq<Participant>) -> spec_fn(
    Participant,
) -> bool {
    |g: Participant| has_matched_all(m, g.id, participants)
}

/// The complete givers of a group, in the group's order.
pub open spec fn complete_givers_of(m: Map<(u32, u32), i64>, participants: Seq<Participant>) -> Seq<
    Participant,
> {
    participants.filter(is_complete_giver(m, participants))
}

/// The complete givers of each group, by group id; of two groups with one id
/// the later one counts.
pub open spec fn complete_givers_map(groups: Seq<ParticipantsGroup>, m: Map<(u32, u32), i64>) -> Map<
    i32,
    Seq<Participant>,
>
    decreases groups.len(),
{
    if groups.len() == 0 {
        Map::empty()
    } else {
        complete_givers_map(groups.drop_last(), m).insert(
            groups.last().id,
            complete_givers_of(m, groups.last().participants@),
        )
    }
}

pub(crate) proof fn lemma_complete_givers_map_domain(groups: Seq<ParticipantsGroup>, m: Map<(u32, u32), i64>)
    ensures
        forall|k: int|
            0 <= k < groups.len() ==> complete_givers_map(groups, m).contains_key(
                #[trigger] groups[k].id,
            ),
    decreases groups.len(),
{
    if groups.len() > 0 {
        lemma_complete_givers_map_domain(groups.drop_last(), m);
        assert forall|k: int| 0 <= k < groups.len() implies complete_givers_map(
            groups,
            m,
        ).contains_key(#[trigger] groups[k].id) by {
            if k < groups.len() - 1 {
                assert(groups.drop_last()[k] == groups[k]);
            }
        }
    }
}

fn has_giver_matched_all_receivers(
    last_match_map: &LastMatchMap,
    giver: &Participant,
    participants: &Vec<Participant>,
) -> (r: bool)
    ensures
        r == has_matched_all(last_match_map@, giver.id, participants@),
{
    let mut i: usize = 0;
    while i < participants.len()
        invariant
            i <= participants.len(),
            forall|k: int|
                0 <= k < i && participants@[k].id != giver.id ==> last_match_map@.contains_key(
                    (giver.id, #[trigger] participants@[k].id),
                ),
        decreases participants.len() - i,
    {
        let receiver_id = participants[i].id;
        if giver.id != receiver_id && !last_match_map.contains_pair(giver.id, receiver_id) {
            return false;
        }
        i = i + 1;
    }
    true
}

fn get_givers_who_have_matched_everyone_from_group(
    participants: &Vec<Participant>,
    last_match_map: &LastMatchMap,
) -> (r: Vec<Participant>)
    ensures
        r@ == complete_givers_of(last_match_map@, participants@),
{
    let ghost pred = is_complete_giver(last_match_map@, participants@);
    let mut out: Vec<Participant> = Vec::new();
    let mut i: usize = 0;
    while i < participants.len()
        invariant
            i <= participants.len(),
            pred == is_complete_giver(last_match_map@, participants@),
            out@ == participants@.take(i as int).filter(pred),
        decreases participants.len() - i,
    {
        let giver = &participants[i];
        proof {
            assert(participants@.take(i + 1).drop_last() =~= participants@.take(i as int));
            assert(participants@.take(i + 1).last() == participants@[i as int]);
        }
        let complete = has_giver_matched_all_receivers(last_match_map, giver, participants);
        if complete {
            out.push(giver.duplicate());
        }
        proof {
            reveal(Seq::filter);
            assert(pred(participants@[i as int]) == complete);
            assert(participants@.take(i + 1).filter(pred) == (if pred(participants@[i as int]) {
                participants@.take(i as int).filter(pred).push(participants@[i as int])
            } else {
                participants@.take(i as int).filter(pred)
            }));
        }
        i = i + 1;
    }
    proof {
        assert(participants@.take(i as int) =~= participants@);
    }
    out
}

/// The complete givers of every group, keyed by group id.
pub fn get_complete_givers_per_group(
    groups: &Vec<ParticipantsGroup>,
    last_match_map: &LastMatchMap,
) -> (r: HashMap<i32, Vec<Participant>>)
    ensures
        r@.dom() == complete_givers_map(groups@, last_match_map@).dom(),
        forall|id: i32| #[trigger]
            r@.contains_key(id) ==> r@[id]@ == complete_givers_map(groups@, last_match_map@)[id],
{
    let ghost m = last_match_map@;
    let mut out: HashMap<i32, Vec<Participant>> = HashMap::new();
    let mut i: usize = 0;
    while i < groups.len()
        invariant
            i <= groups.len(),
            m == last_match_map@,
            out@.dom() == complete_givers_map(groups@.take(i as int), m).dom(),
            forall|id: i32| #[trigger]
                out@.contains_key(id) ==> out@[id]@ == complete_givers_map(
                    groups@.take(i as int),
                    m,
                )[id],
        decreases groups.len() - i,
    {
        let group = &groups[i];
        let givers = get_givers_who_have_matched_everyone_from_group(&group.participants, last_match_map);
        out.insert(group.id, givers);
        proof {
            assert(groups@.take(i + 1).drop_last() =~= groups@.take(i as int));
            assert(groups@.take(i + 1).last() == groups@[i as int]);
            assert(out@.dom() =~= complete_givers_map(groups@.take(i + 1), m).dom());
        }
        i = i + 1;
    }
    proof {
        assert(groups@.take(i as int) =~= groups@);
    }
    out
}

/// The complete givers of every group of the roster, judged by the history
/// `past_matching_rounds` as seen on `today`.
pub fn get_complete_givers(
    participants_file: &ParticipantsFile,
    past_matching_rounds: &Vec<MatchingRound>,
    today: Date,
) -> (r: HashMap<i32, Vec<Participant>>)
    ensures
        r@.dom() == complete_givers_map(
            participants_file.groups@,
            last_match_days(past_matching_rounds@, today),
        ).dom(),
        forall|id: i32| #[trigger]
            r@.contains_key(id) ==> r@[id]@ == complete_givers_map(
                participants_file.groups@,
                last_match_days(past_matching_rounds@, today),
            )[id],
{
    let last_match_map = get_last_match_map(past_matching_rounds, today);
    get_complete_givers_per_group(&participants_file.groups, &last_match_map)
}

} // verus!
