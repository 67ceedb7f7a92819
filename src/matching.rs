//! The round builder: matches every group and assembles the new round.
use vstd::prelude::*;

use rand_chacha::ChaCha8Rng;

use crate::error::MatchingError;
use crate::groups::{
    get_groups, groups_accepted, lemma_cross_team_givers_cover, participant_ids, lemma_empty_groups_plan_nothing, planned_givers, planned_receivers,
    rejection,
};
use crate::last_match_map::{get_last_match_map, last_match_days};
use crate::matching_round::{Date, Match, MatchingRound};
use crate::matcher::{givers_of, ids_of, receivers_of};
use crate::participants_file::{ParticipantsFile, ParticipantsGroup};
use crate::search::{
    get_good_matches, lemma_searched_ids, lemma_empty_group_searched, lemma_searched_no_self_match, searched,
};

verus! {

/// The id that follows the last round of `rounds`, or 1 where there is none.
pub open spec fn next_round_id(rounds: Seq<MatchingRound>) -> int {
    if rounds.len() == 0 {
        1
    } else {
        rounds.last().id + 1
    }
}

/// The matches of all `parts`, one after another.
pub open spec fn concat_all(parts: Seq<Seq<Match>>) -> Seq<Match>
    decreases parts.len(),
{
    if parts.len() == 0 {
        Seq::empty()
    } else {
        concat_all(parts.drop_last()) + parts.last()
    }
}

pub fn get_next_matching_round_id(past_matching_rounds: &Vec<MatchingRound>) -> (r: i32)
    requires
        past_matching_rounds@.len() > 0 ==> past_matching_rounds@.last().id < i32::MAX,
    ensures
        r == next_round_id(past_matching_rounds@),
{
    if past_matching_rounds.len() == 0 {
        1
    } else {
        past_matching_rounds[past_matching_rounds.len() - 1].id + 1
    }
}

/// Round ids: on a history whose rounds are numbered 1 to k in order, the next
/// round is numbered k + 1, which is 1 on an empty history.
pub proof fn lemma_next_round_id(rounds: Seq<MatchingRound>)
    requires
        forall|i: int| 0 <= i < rounds.len() ==> #[trigger] rounds[i].id == i + 1,
    ensures
        next_round_id(rounds) == rounds.len() + 1,
{
    if rounds.len() > 0 {
        assert(rounds.last().id == rounds.len());
    }
}

/// Makes a new round dated `today` for the roster, from the history
/// `past_matching_rounds`: each group in turn is searched for its best
/// matching, and the round holds their matches one group after another. Also
/// returns each group's id with the average score of its matching.
pub fn match_participants(
    participants_file: &ParticipantsFile,
    past_matching_rounds: &Vec<MatchingRound>,
    cross_team_round: bool,
    today: Date,
    rng: &mut ChaCha8Rng,
) -> (r: Result<(MatchingRound, Vec<(i32, i64)>), MatchingError>)
    requires
        past_matching_rounds@.len() > 0 ==> past_matching_rounds@.last().id < i32::MAX,
    ensures
        !groups_accepted(participants_file.groups@, cross_team_round) ==> r == Err::<
            (MatchingRound, Vec<(i32, i64)>),
            MatchingError,
        >(rejection(participants_file.groups@)),
        groups_accepted(participants_file.groups@, cross_team_round) && r is Err ==> r->Err_0
            is NoMatchingFound,
        r matches Err(MatchingError::NoMatchingFound(id)) ==> {
            let groups = participants_file.groups@;
            let m = last_match_days(past_matching_rounds@, today);
            exists|k: int|
                0 <= k < groups.len() && #[trigger] groups[k].id == id && searched(
                    m,
                    planned_givers(groups, cross_team_round, m, k),
                    planned_receivers(groups, k),
                    None,
                )
        },
        groups_accepted(participants_file.groups@, cross_team_round) && (forall|k: int|
            0 <= k < participants_file.groups@.len()
                ==> (#[trigger] participants_file.groups@[k]).participants@.len() == 0) ==> r is Ok,
        r matches Ok((round, scores)) ==> {
            let groups = participants_file.groups@;
            let m = last_match_days(past_matching_rounds@, today);
            &&& round.id == next_round_id(past_matching_rounds@)
            &&& round.date == today
            &&& scores@.len() == groups.len()
            &&& forall|k: int| 0 <= k < groups.len() ==> (#[trigger] scores@[k]).0 == groups[k].id
            &&& forall|k: int|
                0 <= k < round.matches@.len() ==> #[trigger] round.matches@[k].giver.id
                    != round.matches@[k].receiver.id
            &&& exists|found: Seq<Seq<Match>>|
                {
                    &&& found.len() == groups.len()
                    &&& round.matches@ == concat_all(found)
                    &&& forall|k: int|
                        0 <= k < groups.len() ==> searched(
                            m,
                            planned_givers(groups, cross_team_round, m, k),
                            planned_receivers(groups, k),
                            Some((#[trigger] found[k], scores@[k].1 as int)),
                        )
                }
        },
{
    let next_matching_round_id = get_next_matching_round_id(past_matching_rounds);
    let last_match_map = get_last_match_map(past_matching_rounds, today);
    let ghost m = last_match_map@;
    let ghost groups = participants_file.groups@;
    let matching_groups = match get_groups(participants_file, cross_team_round, &last_match_map) {
        Ok(gs) => gs,
        Err(e) => {
            return Err(e);
        },
    };
    let mut scores_by_group: Vec<(i32, i64)> = Vec::new();
    let mut matches: Vec<Match> = Vec::new();
    let ghost mut found: Seq<Seq<Match>> = Seq::empty();
    let mut i: usize = 0;
    while i < matching_groups.len()
        invariant
            i <= matching_groups@.len(),
            matching_groups@.len() == groups.len(),
            groups == participants_file.groups@,
            groups_accepted(groups, cross_team_round),
            m == last_match_map@,
            m == last_match_days(past_matching_rounds@, today),
            forall|k: int|
                0 <= k < groups.len() ==> {
                    &&& (#[trigger] matching_groups@[k]).id == groups[k].id
                    &&& matching_groups@[k].receivers@ == planned_receivers(groups, k)
                    &&& matching_groups@[k].givers@ == planned_givers(
                        groups,
                        cross_team_round,
                        m,
                        k,
                    )
                },
            scores_by_group@.len() == i,
            found.len() == i,
            forall|k: int| 0 <= k < i ==> (#[trigger] scores_by_group@[k]).0 == groups[k].id,
            matches@ == concat_all(found),
            forall|k: int|
                0 <= k < i ==> searched(
                    m,
                    planned_givers(groups, cross_team_round, m, k),
                    planned_receivers(groups, k),
                    Some((#[trigger] found[k], scores_by_group@[k].1 as int)),
                ),
            forall|k: int|
                0 <= k < matches@.len() ==> #[trigger] matches@[k].giver.id
                    != matches@[k].receiver.id,
        decreases matching_groups@.len() - i,
    {
        let group = &matching_groups[i];
        match get_good_matches(group, &last_match_map, rng) {
            Some((group_matches, score)) => {
                let mut group_matches = group_matches;
                proof {
                    lemma_searched_no_self_match(
                        m,
                        group.givers@,
                        group.receivers@,
                        group_matches@,
                        score as int,
                    );
                    let before = found;
                    found = found.push(group_matches@);
                    assert(found.drop_last() =~= before);
                    assert(found[i as int] == group_matches@);
                }
                let ghost old_matches = matches@;
                let ghost added = group_matches@;
                matches.append(&mut group_matches);
                scores_by_group.push((group.id, score));
                proof {
                    assert forall|k: int|
                        0 <= k < matches@.len() implies #[trigger] matches@[k].giver.id
                        != matches@[k].receiver.id by {
                        if k >= old_matches.len() {
                            assert(matches@[k] == added[k - old_matches.len()]);
                        }
                    }
                }
            },
            None => {
                assert(participants_file.groups@[i as int].id == group.id);
                proof {
                    if forall|k: int|
                        0 <= k < groups.len() ==> (#[trigger] groups[k]).participants@.len() == 0 {
                        lemma_empty_groups_plan_nothing(groups, cross_team_round, m, i as int);
                        lemma_empty_group_searched(m, None);
                    }
                }
                return Err(MatchingError::NoMatchingFound(group.id));
            },
        }
        i = i + 1;
    }
    let round = MatchingRound { id: next_matching_round_id, date: today, matches };
    Ok((round, scores_by_group))
}


/// The ids of the participants of every group, one group after another.
pub open spec fn roster_ids(groups: Seq<ParticipantsGroup>) -> Seq<u32>
    decreases groups.len(),
{
    if groups.len() == 0 {
        Seq::empty()
    } else {
        roster_ids(groups.drop_last()) + participant_ids(groups.last().participants@)
    }
}

proof fn lemma_ids_of_concat(a: Seq<Match>, b: Seq<Match>)
    ensures
        ids_of(givers_of(a + b)) == ids_of(givers_of(a)) + ids_of(givers_of(b)),
        ids_of(receivers_of(a + b)) == ids_of(receivers_of(a)) + ids_of(receivers_of(b)),
{
    assert(ids_of(givers_of(a + b)) =~= ids_of(givers_of(a)) + ids_of(givers_of(b)));
    assert(ids_of(receivers_of(a + b)) =~= ids_of(receivers_of(a)) + ids_of(receivers_of(b)));
}

/// Round coverage: in a round that is not cross-team, where the search found
/// the matching `found[k]` with average `averages[k]` for each group `k`, the
/// round has one match per participant, its giver ids are the participant
/// ids of all groups, each as often, and so are its receiver ids.
pub proof fn lemma_round_coverage(
    groups: Seq<ParticipantsGroup>,
    m: Map<(u32, u32), i64>,
    found: Seq<Seq<Match>>,
    averages: Seq<int>,
)
    requires
        found.len() == groups.len(),
        averages.len() == groups.len(),
        forall|k: int|
            0 <= k < groups.len() ==> searched(
                m,
                planned_givers(groups, false, m, k),
                planned_receivers(groups, k),
                Some((#[trigger] found[k], averages[k])),
            ),
    ensures
        concat_all(found).len() == roster_ids(groups).len(),
        ids_of(givers_of(concat_all(found))).to_multiset() == roster_ids(groups).to_multiset(),
        ids_of(receivers_of(concat_all(found))).to_multiset() == roster_ids(groups).to_multiset(),
    decreases groups.len(),
{
    broadcast use vstd::seq_lib::lemma_multiset_commutative;

    if groups.len() > 0 {
        let prev = groups.drop_last();
        let k = groups.len() - 1;
        assert forall|j: int| 0 <= j < prev.len() implies searched(
            m,
            planned_givers(prev, false, m, j),
            planned_receivers(prev, j),
            Some((#[trigger] found.drop_last()[j], averages.drop_last()[j])),
        ) by {
            assert(prev[j] == groups[j]);
            assert(found.drop_last()[j] == found[j]);
            assert(averages.drop_last()[j] == averages[j]);
            assert(planned_givers(prev, false, m, j) == planned_givers(groups, false, m, j));
        }
        lemma_round_coverage(prev, m, found.drop_last(), averages.drop_last());
        assert(found.last() == found[k]);
        let ps = planned_receivers(groups, k);
        lemma_searched_ids(m, ps, ps, found[k], averages[k]);
        assert(ids_of(ps) =~= participant_ids(groups[k].participants@));
        assert(groups.last() == groups[k]);
        lemma_ids_of_concat(concat_all(found.drop_last()), found[k]);
        assert(ids_of(givers_of(concat_all(found))).len() == concat_all(found).len());
        vstd::seq_lib::to_multiset_len(ids_of(givers_of(concat_all(found))));
        vstd::seq_lib::to_multiset_len(roster_ids(groups));
    } else {
        assert(ids_of(givers_of(concat_all(found))) =~= roster_ids(groups));
        assert(ids_of(receivers_of(concat_all(found))) =~= roster_ids(groups));
    }
}


/// Round coverage in a cross-team round: where the two groups have different
/// ids, each holds participants with distinct ids, and the search found the
/// matching `found[k]` with average `averages[k]` for each group `k`, the round
/// has one match per participant, its giver ids are the participant ids of
/// both groups, each as often, and so are its receiver ids. The swap changes
/// who gives in which group, not who gives.
pub proof fn lemma_cross_round_coverage(
    groups: Seq<ParticipantsGroup>,
    m: Map<(u32, u32), i64>,
    found: Seq<Seq<Match>>,
    averages: Seq<int>,
)
    requires
        groups.len() == 2,
        groups[0].id != groups[1].id,
        participant_ids(groups[0].participants@).no_duplicates(),
        participant_ids(groups[1].participants@).no_duplicates(),
        found.len() == 2,
        averages.len() == 2,
        forall|k: int|
            0 <= k < 2 ==> searched(
                m,
                planned_givers(groups, true, m, k),
                planned_receivers(groups, k),
                Some((#[trigger] found[k], averages[k])),
            ),
    ensures
        concat_all(found).len() == roster_ids(groups).len(),
        ids_of(givers_of(concat_all(found))).to_multiset() == roster_ids(groups).to_multiset(),
        ids_of(receivers_of(concat_all(found))).to_multiset() == roster_ids(groups).to_multiset(),
{
    broadcast use vstd::seq_lib::lemma_multiset_commutative;

    lemma_cross_team_givers_cover(groups, m);
    lemma_searched_ids(
        m,
        planned_givers(groups, true, m, 0),
        planned_receivers(groups, 0),
        found[0],
        averages[0],
    );
    lemma_searched_ids(
        m,
        planned_givers(groups, true, m, 1),
        planned_receivers(groups, 1),
        found[1],
        averages[1],
    );
    let first = found.drop_last();
    assert(first.drop_last().len() == 0);
    assert(concat_all(first.drop_last()) == Seq::<Match>::empty());
    assert(first.last() == found[0]);
    assert(concat_all(first) == concat_all(first.drop_last()) + first.last());
    assert(concat_all(first) =~= found[0]);
    assert(concat_all(found) =~= found[0] + found[1]);
    let g = groups.drop_last();
    assert(g.drop_last().len() == 0);
    assert(g.last() == groups[0]);
    assert(groups.last() == groups[1]);
    assert(roster_ids(g.drop_last()) == Seq::<u32>::empty());
    assert(roster_ids(g) == roster_ids(g.drop_last()) + participant_ids(g.last().participants@));
    assert(roster_ids(g) =~= participant_ids(groups[0].participants@));
    assert(roster_ids(groups) =~= participant_ids(groups[0].participants@) + participant_ids(
        groups[1].participants@,
    ));
    assert(ids_of(planned_receivers(groups, 0)) =~= participant_ids(groups[0].participants@));
    assert(ids_of(planned_receivers(groups, 1)) =~= participant_ids(groups[1].participants@));
    lemma_ids_of_concat(found[0], found[1]);
    vstd::seq_lib::to_multiset_len(ids_of(givers_of(concat_all(found))));
    vstd::seq_lib::to_multiset_len(roster_ids(groups));
}

} // verus!
