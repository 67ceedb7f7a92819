//! Passes over the stored history: rescoring past rounds, and filling in the
//! group of every participant of past matches.
use vstd::prelude::*;
use std::collections::HashMap;

use crate::error::MatchingError;
use crate::last_match_map::{
    days_since, get_days_since_last_match, last_match_days, record_matches, record_round,
    LastMatchMap,
};
use crate::matching_round::{Date, Match, MatchingRound};
use crate::participant::{MatchParticipant, Participant};
use crate::participants_file::{ParticipantsFile, ParticipantsGroup};

verus! {

broadcast use vstd::std_specs::hash::group_hash_axioms;

/// `x` with the recency score that the index `m` gives its pair.
pub open spec fn rescored_match(m: Map<(u32, u32), i64>, x: Match) -> Match {
    Match { giver: x.giver, receiver: x.receiver, score: days_since(m, x.giver.id, x.receiver.id) }
}

pub open spec fn rescored_matches(m: Map<(u32, u32), i64>, ms: Seq<Match>) -> Seq<Match> {
    ms.map_values(|x: Match| rescored_match(m, x))
}

/// `out` is `rounds` with every score recomputed from the rounds strictly
/// before its own, as seen on `today`.
pub open spec fn is_rescoring(rounds: Seq<MatchingRound>, out: Seq<MatchingRound>, today: Date) -> bool {
    &&& out.len() == rounds.len()
    &&& forall|i: int|
        0 <= i < rounds.len() ==> {
            &&& (#[trigger] out[i]).id == rounds[i].id
            &&& out[i].date == rounds[i].date
            &&& out[i].matches@ == rescored_matches(
                last_match_days(rounds.take(i), today),
                rounds[i].matches@,
            )
        }
}

fn rescore_round(round: &MatchingRound, last_match_map: &LastMatchMap) -> (r: MatchingRound)
    ensures
        r.id == round.id,
        r.date == round.date,
        r.matches@ == rescored_matches(last_match_map@, round.matches@),
{
    let mut matches: Vec<Match> = Vec::new();
    let mut j: usize = 0;
    while j < round.matches.len()
        invariant
            j <= round.matches.len(),
            matches@ == rescored_matches(last_match_map@, round.matches@.take(j as int)),
        decreases round.matches.len() - j,
    {
        let old_match = &round.matches[j];
        let score = get_days_since_last_match(
            last_match_map,
            old_match.giver.id,
            old_match.receiver.id,
        );
        matches.push(
            Match {
                giver: old_match.giver.duplicate(),
                receiver: old_match.receiver.duplicate(),
                score,
            },
        );
        proof {
            assert(rescored_matches(last_match_map@, round.matches@.take(j + 1)) =~= rescored_matches(
                last_match_map@,
                round.matches@.take(j as int),
            ).push(rescored_match(last_match_map@, round.matches@[j as int])));
        }
        j = j + 1;
    }
    proof {
        assert(round.matches@.take(j as int) =~= round.matches@);
    }
    MatchingRound { id: round.id, date: round.date, matches }
}

/// Recomputes the score of every past match from the rounds before its own,
/// as seen on `today`.
pub fn calculate_scores(past_matching_rounds: &Vec<MatchingRound>, today: Date) -> (r: Vec<
    MatchingRound,
>)
    ensures
        is_rescoring(past_matching_rounds@, r@, today),
{
    let ghost rounds = past_matching_rounds@;
    let mut out: Vec<MatchingRound> = Vec::new();
    let mut map = LastMatchMap::new();
    let mut i: usize = 0;
    while i < past_matching_rounds.len()
        invariant
            i <= rounds.len(),
            rounds == past_matching_rounds@,
            map@ == last_match_days(rounds.take(i as int), today),
            out@.len() == i,
            forall|k: int|
                0 <= k < i ==> {
                    &&& (#[trigger] out@[k]).id == rounds[k].id
                    &&& out@[k].date == rounds[k].date
                    &&& out@[k].matches@ == rescored_matches(
                        last_match_days(rounds.take(k), today),
                        rounds[k].matches@,
                    )
                },
        decreases rounds.len() - i,
    {
        let round = &past_matching_rounds[i];
        out.push(rescore_round(round, &map));
        record_round(&mut map, round, today);
        proof {
            assert(rounds.take(i + 1).drop_last() =~= rounds.take(i as int));
            assert(rounds.take(i + 1).last() == rounds[i as int]);
        }
        i = i + 1;
    }
    out
}

/// The two histories hold rounds of the same dates, whose matches pair the
/// same ids in the same order.
pub open spec fn same_pairs(a: Seq<MatchingRound>, b: Seq<MatchingRound>) -> bool {
    &&& a.len() == b.len()
    &&& forall|i: int|
        0 <= i < a.len() ==> {
            &&& (#[trigger] a[i]).date == b[i].date
            &&& a[i].matches@.len() == b[i].matches@.len()
            &&& forall|j: int|
                0 <= j < a[i].matches@.len() ==> (#[trigger] a[i].matches@[j]).giver.id
                    == b[i].matches@[j].giver.id && a[i].matches@[j].receiver.id
                    == b[i].matches@[j].receiver.id
        }
}

proof fn lemma_record_matches_same_pairs(
    m: Map<(u32, u32), i64>,
    a: Seq<Match>,
    b: Seq<Match>,
    days: i64,
)
    requires
        a.len() == b.len(),
        forall|j: int|
            0 <= j < a.len() ==> (#[trigger] a[j]).giver.id == b[j].giver.id && a[j].receiver.id
                == b[j].receiver.id,
    ensures
        record_matches(m, a, days) == record_matches(m, b, days),
    decreases a.len(),
{
    if a.len() > 0 {
        lemma_record_matches_same_pairs(m, a.drop_last(), b.drop_last(), days);
        assert(a.last() == a[a.len() - 1]);
    }
}

proof fn lemma_last_match_days_same_pairs(a: Seq<MatchingRound>, b: Seq<MatchingRound>, today: Date)
    requires
        same_pairs(a, b),
    ensures
        last_match_days(a, today) == last_match_days(b, today),
    decreases a.len(),
{
    if a.len() > 0 {
        let k = a.len() - 1;
        assert(same_pairs(a.drop_last(), b.drop_last())) by {
            assert forall|i: int| 0 <= i < a.drop_last().len() implies (#[trigger] a.drop_last()[i]).date
                == b.drop_last()[i].date by {
                assert(a.drop_last()[i] == a[i]);
            }
        }
        lemma_last_match_days_same_pairs(a.drop_last(), b.drop_last(), today);
        assert(a[k].date == b[k].date);
        assert forall|j: int| 0 <= j < a[k].matches@.len() implies (#[trigger] a[k].matches@[j]).giver.id
            == b[k].matches@[j].giver.id && a[k].matches@[j].receiver.id
            == b[k].matches@[j].receiver.id by {
            assert(a[k].matches@[j] == a[k].matches@[j]);
        }
        lemma_record_matches_same_pairs(
            last_match_days(a.drop_last(), today),
            a[k].matches@,
            b[k].matches@,
            crate::last_match_map::days_between(a[k].date, today),
        );
    }
}

/// Rescoring is idempotent: rescoring a rescored history changes nothing, since
/// the scores of a round depend only on the pairs and dates of the rounds
/// before it.
pub proof fn lemma_rescoring_idempotent(
    rounds: Seq<MatchingRound>,
    once: Seq<MatchingRound>,
    twice: Seq<MatchingRound>,
    today: Date,
)
    requires
        is_rescoring(rounds, once, today),
        is_rescoring(once, twice, today),
    ensures
        twice.len() == once.len(),
        forall|i: int|
            0 <= i < once.len() ==> (#[trigger] twice[i]).id == once[i].id && twice[i].date
                == once[i].date && twice[i].matches@ == once[i].matches@,
{
    assert forall|i: int| 0 <= i < once.len() implies (#[trigger] twice[i]).id == once[i].id
        && twice[i].date == once[i].date && twice[i].matches@ == once[i].matches@ by {
        assert(same_pairs(once.take(i), rounds.take(i))) by {
            assert forall|k: int| 0 <= k < once.take(i).len() implies (#[trigger] once.take(
                i,
            )[k]).date == rounds.take(i)[k].date by {
                assert(once.take(i)[k] == once[k]);
            }
            assert forall|k: int, j: int|
                0 <= k < i && 0 <= j < once[k].matches@.len() implies (#[trigger] once[k].matches@[j]).giver.id
                == rounds[k].matches@[j].giver.id && once[k].matches@[j].receiver.id
                == rounds[k].matches@[j].receiver.id by {
                assert(once[k].matches@[j] == rescored_match(
                    last_match_days(rounds.take(k), today),
                    rounds[k].matches@[j],
                ));
            }
            assert forall|k: int| 0 <= k < once.take(i).len() implies once.take(i)[k].matches@.len()
                == #[trigger] rounds.take(i)[k].matches@.len() by {
                assert(once.take(i)[k] == once[k]);
                assert(rounds.take(i)[k] == rounds[k]);
            }
        }
        lemma_last_match_days_same_pairs(once.take(i), rounds.take(i), today);
        let m = last_match_days(rounds.take(i), today);
        assert(twice[i].matches@ =~= once[i].matches@);
    }
}


/// `m` after each of `participants`, in order, has been put in `group_id`.
pub open spec fn record_group(m: Map<u32, i32>, participants: Seq<Participant>, group_id: i32) -> Map<
    u32,
    i32,
>
    decreases participants.len(),
{
    if participants.len() == 0 {
        m
    } else {
        record_group(m, participants.drop_last(), group_id).insert(
            participants.last().id,
            group_id,
        )
    }
}

/// The group of every participant, active or excluded, of `groups`; where an
/// id occurs twice, the later occurrence counts.
pub open spec fn participant_groups(groups: Seq<ParticipantsGroup>) -> Map<u32, i32>
    decreases groups.len(),
{
    if groups.len() == 0 {
        Map::empty()
    } else {
        let g = groups.last();
        record_group(
            record_group(participant_groups(groups.drop_last()), g.participants@, g.id),
            g.excluded_participants@,
            g.id,
        )
    }
}

fn record_group_ids(map: &mut HashMap<u32, i32>, participants: &Vec<Participant>, group_id: i32)
    ensures
        final(map)@ == record_group(old(map)@, participants@, group_id),
{
    let ghost before = map@;
    let mut i: usize = 0;
    while i < participants.len()
        invariant
            i <= participants.len(),
            map@ == record_group(before, participants@.take(i as int), group_id),
        decreases participants.len() - i,
    {
        map.insert(participants[i].id, group_id);
        proof {
            assert(participants@.take(i + 1).drop_last() =~= participants@.take(i as int));
        }
        i = i + 1;
    }
    proof {
        assert(participants@.take(i as int) =~= participants@);
    }
}

/// The group id of every participant of the roster, by participant id.
pub fn create_participant_group_map(participants_file: &ParticipantsFile) -> (r: HashMap<u32, i32>)
    ensures
        r@ == participant_groups(participants_file.groups@),
{
    let groups = &participants_file.groups;
    let mut map: HashMap<u32, i32> = HashMap::new();
    let mut i: usize = 0;
    while i < groups.len()
        invariant
            i <= groups.len(),
            map@ == participant_groups(groups@.take(i as int)),
        decreases groups.len() - i,
    {
        record_group_ids(&mut map, &groups[i].participants, groups[i].id);
        record_group_ids(&mut map, &groups[i].excluded_participants, groups[i].id);
        proof {
            assert(groups@.take(i + 1).drop_last() =~= groups@.take(i as int));
            assert(groups@.take(i + 1).last() == groups@[i as int]);
        }
        i = i + 1;
    }
    proof {
        assert(groups@.take(i as int) =~= groups@);
    }
    map
}

/// The group that `map` gives the participant, if any.
pub fn get_group_id_for_participant(map: &HashMap<u32, i32>, participant_id: u32) -> (r: Option<
    i32,
>)
    ensures
        r == (if map@.contains_key(participant_id) {
            Some(map@[participant_id])
        } else {
            None::<i32>
        }),
{
    match map.get(&participant_id) {
        Some(group_id) => Some(*group_id),
        None => None,
    }
}

/// `p` placed in `group_id`.
pub open spec fn regrouped_participant(p: MatchParticipant, group_id: i32) -> MatchParticipant {
    MatchParticipant {
        id: p.id,
        group_id,
        first_name: p.first_name,
        last_name: p.last_name,
        gender: p.gender,
    }
}

/// `x` with giver and receiver placed in the groups that `g` gives them.
pub open spec fn regrouped_match(g: Map<u32, i32>, x: Match) -> Match {
    Match {
        giver: regrouped_participant(x.giver, g[x.giver.id]),
        receiver: regrouped_participant(x.receiver, g[x.receiver.id]),
        score: x.score,
    }
}

/// Whether `g` gives a group to everyone named in the matches `ms`.
pub open spec fn matches_grouped(g: Map<u32, i32>, ms: Seq<Match>) -> bool {
    forall|j: int|
        0 <= j < ms.len() ==> g.contains_key((#[trigger] ms[j]).giver.id) && g.contains_key(
            ms[j].receiver.id,
        )
}

fn with_group_id(p: &MatchParticipant, group_id: i32) -> (r: MatchParticipant)
    ensures
        r == regrouped_participant(*p, group_id),
{
    MatchParticipant {
        id: p.id,
        group_id,
        first_name: p.first_name.clone(),
        last_name: p.last_name.clone(),
        gender: p.gender,
    }
}

fn regroup_round(round: &MatchingRound, map: &HashMap<u32, i32>) -> (r: Result<
    MatchingRound,
    MatchingError,
>)
    ensures
        r is Ok <==> matches_grouped(map@, round.matches@),
        r matches Ok(out) ==> out.id == round.id && out.date == round.date && out.matches@
            == round.matches@.map_values(|x: Match| regrouped_match(map@, x)),
        r matches Err(e) ==> e matches MatchingError::ParticipantWithoutGroup(id)
            && !map@.contains_key(id),
{
    let mut matches: Vec<Match> = Vec::new();
    let mut j: usize = 0;
    while j < round.matches.len()
        invariant
            j <= round.matches.len(),
            matches_grouped(map@, round.matches@.take(j as int)),
            matches@ == round.matches@.take(j as int).map_values(
                |x: Match| regrouped_match(map@, x),
            ),
        decreases round.matches.len() - j,
    {
        let m = &round.matches[j];
        let giver_group = match get_group_id_for_participant(map, m.giver.id) {
            Some(g) => g,
            None => {
                return Err(MatchingError::ParticipantWithoutGroup(m.giver.id));
            },
        };
        let receiver_group = match get_group_id_for_participant(map, m.receiver.id) {
            Some(g) => g,
            None => {
                return Err(MatchingError::ParticipantWithoutGroup(m.receiver.id));
            },
        };
        matches.push(
            Match {
                giver: with_group_id(&m.giver, giver_group),
                receiver: with_group_id(&m.receiver, receiver_group),
                score: m.score,
            },
        );
        proof {
            assert(round.matches@.take(j + 1) =~= round.matches@.take(j as int).push(
                round.matches@[j as int],
            ));
            assert(round.matches@.take(j + 1).map_values(|x: Match| regrouped_match(map@, x))
                =~= round.matches@.take(j as int).map_values(
                |x: Match| regrouped_match(map@, x),
            ).push(regrouped_match(map@, round.matches@[j as int])));
            assert forall|k: int| 0 <= k < j + 1 implies map@.contains_key(
                (#[trigger] round.matches@.take(j + 1)[k]).giver.id,
            ) && map@.contains_key(round.matches@.take(j + 1)[k].receiver.id) by {
                if k < j {
                    assert(round.matches@.take(j + 1)[k] == round.matches@.take(j as int)[k]);
                }
            }
        }
        j = j + 1;
    }
    proof {
        assert(round.matches@.take(j as int) =~= round.matches@);
    }
    Ok(MatchingRound { id: round.id, date: round.date, matches })
}

/// Fills in, for every participant of every past match, the group that the
/// roster gives it. Fails on the first participant that no group holds.
pub fn update_matching_rounds_with_group_ids(
    past_matching_rounds: &Vec<MatchingRound>,
    participants_file: &ParticipantsFile,
) -> (r: Result<Vec<MatchingRound>, MatchingError>)
    ensures
        r is Ok <==> forall|i: int|
            0 <= i < past_matching_rounds@.len() ==> matches_grouped(
                participant_groups(participants_file.groups@),
                (#[trigger] past_matching_rounds@[i]).matches@,
            ),
        r matches Ok(out) ==> {
            let g = participant_groups(participants_file.groups@);
            &&& out@.len() == past_matching_rounds@.len()
            &&& forall|i: int|
                0 <= i < out@.len() ==> {
                    &&& (#[trigger] out@[i]).id == past_matching_rounds@[i].id
                    &&& out@[i].date == past_matching_rounds@[i].date
                    &&& out@[i].matches@ == past_matching_rounds@[i].matches@.map_values(
                        |x: Match| regrouped_match(g, x),
                    )
                }
        },
        r matches Err(e) ==> e matches MatchingError::ParticipantWithoutGroup(id)
            && !participant_groups(participants_file.groups@).contains_key(id),
{
    let map = create_participant_group_map(participants_file);
    let mut out: Vec<MatchingRound> = Vec::new();
    let mut i: usize = 0;
    while i < past_matching_rounds.len()
        invariant
            i <= past_matching_rounds@.len(),
            map@ == participant_groups(participants_file.groups@),
            out@.len() == i,
            forall|k: int|
                0 <= k < i ==> matches_grouped(map@, (#[trigger] past_matching_rounds@[k]).matches@),
            forall|k: int|
                0 <= k < i ==> {
                    &&& (#[trigger] out@[k]).id == past_matching_rounds@[k].id
                    &&& out@[k].date == past_matching_rounds@[k].date
                    &&& out@[k].matches@ == past_matching_rounds@[k].matches@.map_values(
                        |x: Match| regrouped_match(map@, x),
                    )
                },
        decreases past_matching_rounds@.len() - i,
    {
        match regroup_round(&past_matching_rounds[i], &map) {
            Ok(round) => {
                out.push(round);
            },
            Err(e) => {
                return Err(e);
            },
        }
        i = i + 1;
    }
    Ok(out)
}

} // verus!
