use feedback_matcher::complete_givers::{get_complete_givers, get_complete_givers_per_group};
use feedback_matcher::error::MatchingError;
use feedback_matcher::groups::{get_groups, MatchingGroup};
use feedback_matcher::last_match_map::{get_last_match_map, LastMatchMap};
use feedback_matcher::matcher::{get_matches, get_optimal_receiver_index_and_score};
use feedback_matcher::matching::{get_next_matching_round_id, match_participants};
use feedback_matcher::matching_round::{find_matching_round, Date, Match, MatchingRound};
use feedback_matcher::participant::{
    map_participant_to_match_participant, map_participants_to_match_participants, Gender,
    MatchParticipant, Participant,
};
use feedback_matcher::participants_file::{ParticipantsFile, ParticipantsGroup};
use feedback_matcher::search::{best_matching_of_orders, get_good_matches, score_matches};
use feedback_matcher::MAX_SCORE;
use rand::SeedableRng;
use rand_chacha::ChaCha8Rng;

fn get_seeded_rng() -> ChaCha8Rng {
    ChaCha8Rng::seed_from_u64(14)
}

fn participant(id: u32, first_name: &str, last_name: &str, gender: Gender) -> Participant {
    Participant { id, first_name: first_name.to_string(), last_name: last_name.to_string(), gender }
}

fn p(id: u32) -> Participant {
    participant(id, &format!("First{id}"), &format!("Last{id}"), Gender::Male)
}

fn file(groups: Vec<(i32, Vec<u32>)>) -> ParticipantsFile {
    ParticipantsFile {
        groups: groups
            .into_iter()
            .map(|(id, ids)| ParticipantsGroup {
                id,
                participants: ids.into_iter().map(p).collect(),
                excluded_participants: vec![],
            })
            .collect(),
    }
}

fn mp(id: u32, group_id: i32) -> MatchParticipant {
    map_participant_to_match_participant(&p(id), group_id)
}

fn past(id: i32, julian_day: i32, pairs: &[(u32, u32)]) -> MatchingRound {
    MatchingRound {
        id,
        date: Date { julian_day },
        matches: pairs.iter().map(|&(g, r)| Match { giver: mp(g, 1), receiver: mp(r, 1), score: 0 }).collect(),
    }
}

fn sorted(mut v: Vec<u32>) -> Vec<u32> {
    v.sort();
    v
}

#[test]
fn full_names_join_first_and_last_name() {
    let x = participant(1, "John", "Doe", Gender::Male);
    assert_eq!(x.full_name(), "John Doe");
    assert_eq!(map_participant_to_match_participant(&x, 3).full_name(), "John Doe");
}

#[test]
fn participants_are_placed_in_their_group() {
    let ps = vec![p(1), p(2)];
    let mps = map_participants_to_match_participants(&ps, 5);
    assert_eq!(mps.len(), 2);
    assert_eq!((mps[0].id, mps[0].group_id, mps[1].id, mps[1].group_id), (1, 5, 2, 5));
    assert_eq!(mps[1].last_name, "Last2");
}

#[test]
fn test_match_participants() {
    let participants_data = file(vec![(1, vec![1, 2, 3])]);
    let past_matching_rounds = vec![past(1, 100, &[(1, 3), (3, 2), (2, 1)])];
    let mut rng = get_seeded_rng();
    let (matching_round, scores) = match_participants(
        &participants_data,
        &past_matching_rounds,
        false,
        Date { julian_day: 110 },
        &mut rng,
    )
    .unwrap();
    assert_eq!(matching_round.matches.len(), participants_data.groups[0].participants.len());
    for matched_pair in matching_round.matches.iter() {
        assert_ne!(matched_pair.giver.id, matched_pair.receiver.id);
    }
    // Every participant gives once and receives once.
    assert_eq!(sorted(matching_round.matches.iter().map(|x| x.giver.id).collect()), vec![1, 2, 3]);
    assert_eq!(sorted(matching_round.matches.iter().map(|x| x.receiver.id).collect()), vec![1, 2, 3]);
    // The only matching of three avoiding last round's pairs is its reverse.
    assert_eq!(scores, vec![(1, MAX_SCORE)]);
    assert_eq!(matching_round.id, 2);
    assert_eq!(matching_round.date, Date { julian_day: 110 });
}

#[test]
fn test_match_participants_empty() {
    let participants_data = file(vec![(1, vec![])]);
    let mut rng = get_seeded_rng();
    let (matching_round, scores) =
        match_participants(&participants_data, &vec![], false, Date { julian_day: 0 }, &mut rng).unwrap();
    assert!(matching_round.matches.is_empty());
    assert_eq!(scores, vec![(1, 0)]);
    assert_eq!(matching_round.id, 1);
}

#[test]
fn test_match_participants_single_participant() {
    let participants_data = file(vec![(4, vec![1])]);
    let mut rng = get_seeded_rng();
    let result = match_participants(&participants_data, &vec![], false, Date { julian_day: 0 }, &mut rng);
    assert_eq!(result.unwrap_err(), MatchingError::NoMatchingFound(4));
    let map = LastMatchMap::new();
    assert!(get_matches(&map, vec![mp(1, 4)], vec![mp(1, 4)]).is_none());
}

#[test]
fn too_many_groups_are_refused() {
    let participants_data = file(vec![(1, vec![1, 2]), (2, vec![3, 4]), (3, vec![5, 6])]);
    let mut rng = get_seeded_rng();
    let result = match_participants(&participants_data, &vec![], false, Date { julian_day: 0 }, &mut rng);
    assert_eq!(result.unwrap_err(), MatchingError::TooManyGroups);
}

#[test]
fn cross_team_needs_two_groups() {
    let participants_data = file(vec![(1, vec![1, 2])]);
    let mut rng = get_seeded_rng();
    let result = match_participants(&participants_data, &vec![], true, Date { julian_day: 0 }, &mut rng);
    assert_eq!(result.unwrap_err(), MatchingError::CrossTeamNeedsTwoGroups);
}

#[test]
fn round_ids_follow_the_history() {
    assert_eq!(get_next_matching_round_id(&vec![]), 1);
    let history = vec![past(1, 0, &[]), past(2, 7, &[]), past(3, 14, &[])];
    assert_eq!(get_next_matching_round_id(&history), 4);
}

#[test]
fn never_paired_receiver_is_preferred() {
    let history = vec![past(1, 97, &[(1, 2)])];
    let map = get_last_match_map(&history, Date { julian_day: 100 });
    let receivers = vec![mp(2, 1), mp(3, 1)];
    assert_eq!(get_optimal_receiver_index_and_score(&map, 1, &receivers), Some((1, MAX_SCORE)));
    let receivers = vec![mp(3, 1), mp(2, 1)];
    assert_eq!(get_optimal_receiver_index_and_score(&map, 1, &receivers), Some((0, MAX_SCORE)));
}

#[test]
fn ties_go_to_the_first_receiver_and_self_is_skipped() {
    let map = LastMatchMap::new();
    let receivers = vec![mp(1, 1), mp(4, 1), mp(3, 1)];
    assert_eq!(get_optimal_receiver_index_and_score(&map, 1, &receivers), Some((1, MAX_SCORE)));
    assert_eq!(get_optimal_receiver_index_and_score(&map, 1, &vec![mp(1, 1)]), None);
    assert_eq!(get_optimal_receiver_index_and_score(&map, 1, &vec![]), None);
}

#[test]
fn greedy_pass_follows_the_given_order() {
    // 2 last gave to 1 ten days ago, 3 to 1 twenty days ago.
    let history = vec![past(1, 80, &[(3, 1)]), past(2, 90, &[(2, 1)])];
    let map = get_last_match_map(&history, Date { julian_day: 100 });
    let givers = vec![mp(1, 1), mp(2, 1), mp(3, 1)];
    let receivers = vec![mp(1, 1), mp(2, 1), mp(3, 1)];
    let matches = get_matches(&map, givers, receivers).unwrap();
    let pairs: Vec<(u32, u32, i64)> = matches.iter().map(|x| (x.giver.id, x.receiver.id, x.score)).collect();
    // 1 takes 2, the first of the tied receivers; 3 moves to the front of the
    // givers and takes 1, its only other choice (score 20); 2 is left with 3.
    assert_eq!(pairs, vec![(1, 2, MAX_SCORE), (3, 1, 20), (2, 3, MAX_SCORE)]);
}

#[test]
fn average_score_rounds_toward_zero() {
    let x = |score: i64| Match { giver: mp(1, 1), receiver: mp(2, 1), score };
    assert_eq!(score_matches(&vec![]), 0);
    assert_eq!(score_matches(&vec![x(3), x(4)]), 3);
    assert_eq!(score_matches(&vec![x(-3), x(-4)]), -3);
    assert_eq!(score_matches(&vec![x(i64::MAX), x(i64::MAX)]), i64::MAX);
    assert_eq!(score_matches(&vec![x(i64::MIN), x(i64::MIN), x(i64::MIN)]), i64::MIN);
}

#[test]
fn best_of_shuffles_beats_each_single_shuffle() {
    let history = vec![
        past(1, 60, &[(1, 2), (2, 3), (3, 4), (4, 1)]),
        past(2, 80, &[(1, 3), (3, 1), (2, 4), (4, 2)]),
        past(3, 95, &[(1, 4), (4, 3), (3, 2), (2, 1)]),
    ];
    let map = get_last_match_map(&history, Date { julian_day: 100 });
    let group: Vec<MatchParticipant> = (1..=4).map(|i| mp(i, 1)).collect();
    let mut rng = get_seeded_rng();
    let mut orders = Vec::new();
    for _ in 0..50 {
        let mut g = group.clone();
        let mut r = group.clone();
        rand::seq::SliceRandom::shuffle(g.as_mut_slice(), &mut rng);
        rand::seq::SliceRandom::shuffle(r.as_mut_slice(), &mut rng);
        orders.push((g, r));
    }
    let (_, best) = best_matching_of_orders(&map, &orders).unwrap();
    let mut any = false;
    for (g, r) in &orders {
        if let Some(single) = get_matches(&map, g.clone(), r.clone()) {
            any = true;
            assert!(best >= score_matches(&single));
        }
    }
    assert!(any);
    // The fixed order 1, 2, 3, 4 on both sides, tried on its own.
    let fixed = get_matches(&map, group.clone(), group.clone()).unwrap();
    let mut with_fixed = orders.clone();
    with_fixed.push((group.clone(), group.clone()));
    let (_, best_with_fixed) = best_matching_of_orders(&map, &with_fixed).unwrap();
    assert!(best_with_fixed >= score_matches(&fixed));

    let matching_group = MatchingGroup { id: 1, givers: group.clone(), receivers: group.clone() };
    let (found, average) = get_good_matches(&matching_group, &map, &mut get_seeded_rng()).unwrap();
    assert_eq!(average, score_matches(&found));
    assert_eq!(found.len(), 4);
}

#[test]
fn search_over_no_shuffles_finds_nothing() {
    let map = LastMatchMap::new();
    assert!(best_matching_of_orders(&map, &vec![]).is_none());
}

#[test]
fn shuffles_vary_the_first_giver() {
    // With no history every pair scores the maximum, so the first attempt is kept
    // and its first giver is the first giver of the shuffled order.
    let participants_data = file(vec![(1, vec![1, 2, 3, 4, 5])]);
    let mut first_givers = Vec::new();
    for seed in 0..20u64 {
        let mut rng = ChaCha8Rng::seed_from_u64(seed);
        let (round, _) =
            match_participants(&participants_data, &vec![], false, Date { julian_day: 0 }, &mut rng).unwrap();
        first_givers.push(round.matches[0].giver.id);
    }
    assert!(first_givers.iter().any(|&g| g != first_givers[0]));
}

#[test]
fn same_seed_gives_same_round() {
    let participants_data = file(vec![(1, vec![1, 2, 3, 4, 5, 6]), (2, vec![7, 8, 9])]);
    let history = vec![past(1, 10, &[(1, 2), (2, 3), (3, 1), (7, 8), (8, 9), (9, 7)])];
    let run = |seed: u64| {
        let mut rng = ChaCha8Rng::seed_from_u64(seed);
        let (round, scores) =
            match_participants(&participants_data, &history, true, Date { julian_day: 30 }, &mut rng).unwrap();
        (format!("{:?}", round), scores)
    };
    assert_eq!(run(3), run(3));
    assert_eq!(run(14), run(14));
}

#[test]
fn cross_team_swaps_as_many_as_the_smaller_group_has() {
    // Group 1: participants 1, 2, 3, 4; givers 1, 2 and 3 have given to all others.
    // Group 2: participants 5, 6; only 6 has given to 5.
    let pairs: Vec<(u32, u32)> = vec![
        (1, 2), (1, 3), (1, 4),
        (2, 1), (2, 3), (2, 4),
        (3, 1), (3, 2), (3, 4),
        (6, 5),
    ];
    let history = vec![past(1, 0, &pairs)];
    let map = get_last_match_map(&history, Date { julian_day: 10 });
    let participants_data = file(vec![(1, vec![1, 2, 3, 4]), (2, vec![5, 6])]);

    let complete = get_complete_givers_per_group(&participants_data.groups, &map);
    let ids = |v: &Vec<Participant>| v.iter().map(|x| x.id).collect::<Vec<u32>>();
    assert_eq!(ids(&complete[&1]), vec![1, 2, 3]);
    assert_eq!(ids(&complete[&2]), vec![6]);
    let same = get_complete_givers(&participants_data, &history, Date { julian_day: 10 });
    assert_eq!(ids(&same[&1]), vec![1, 2, 3]);

    let groups = get_groups(&participants_data, true, &map).unwrap();
    let giver_ids = |g: &MatchingGroup| g.givers.iter().map(|x| (x.id, x.group_id)).collect::<Vec<(u32, i32)>>();
    let receiver_ids = |g: &MatchingGroup| g.receivers.iter().map(|x| x.id).collect::<Vec<u32>>();
    // Exactly one giver moves each way: 1 to group 2, 6 to group 1.
    assert_eq!(giver_ids(&groups[0]), vec![(2, 1), (3, 1), (4, 1), (6, 2)]);
    assert_eq!(giver_ids(&groups[1]), vec![(5, 2), (1, 1)]);
    assert_eq!(groups[0].givers.len(), 4);
    assert_eq!(groups[1].givers.len(), 2);
    assert_eq!(receiver_ids(&groups[0]), vec![1, 2, 3, 4]);
    assert_eq!(receiver_ids(&groups[1]), vec![5, 6]);

    let plain = get_groups(&participants_data, false, &map).unwrap();
    assert_eq!(giver_ids(&plain[1]), vec![(5, 2), (6, 2)]);

    let mut rng = get_seeded_rng();
    let (round, scores) =
        match_participants(&participants_data, &history, true, Date { julian_day: 10 }, &mut rng).unwrap();
    assert_eq!(round.matches.len(), 6);
    assert_eq!(scores.iter().map(|s| s.0).collect::<Vec<i32>>(), vec![1, 2]);
    assert_eq!(round.matches.iter().filter(|x| x.is_cross_team()).count(), 2);
}

#[test]
fn rounds_are_found_by_id_or_last() {
    let history = vec![past(1, 0, &[]), past(2, 7, &[]), past(3, 14, &[])];
    assert_eq!(find_matching_round(&history, None), Some(2));
    assert_eq!(find_matching_round(&history, Some(2)), Some(1));
    assert_eq!(find_matching_round(&history, Some(9)), None);
    assert_eq!(find_matching_round(&vec![], None), None);
}
