use feedback_matcher::last_match_map::{get_days_since_last_match, get_last_match_map, LastMatchMap};
use feedback_matcher::matching_round::{Date, Match, MatchingRound};
use feedback_matcher::migrations::{calculate_scores, update_matching_rounds_with_group_ids};
use feedback_matcher::error::MatchingError;
use feedback_matcher::participant::{Gender, MatchParticipant, Participant};
use feedback_matcher::participants_file::{ParticipantsFile, ParticipantsGroup};
use feedback_matcher::MAX_SCORE;

fn mp(id: u32, group_id: i32) -> MatchParticipant {
    MatchParticipant {
        id,
        group_id,
        first_name: format!("First{id}"),
        last_name: format!("Last{id}"),
        gender: Gender::Female,
    }
}

fn m(giver: u32, receiver: u32, score: i64) -> Match {
    Match { giver: mp(giver, 1), receiver: mp(receiver, 1), score }
}

fn round(id: i32, julian_day: i32, matches: Vec<Match>) -> MatchingRound {
    MatchingRound { id, date: Date { julian_day }, matches }
}

#[test]
fn unseen_pair_scores_max() {
    let map = get_last_match_map(&vec![], Date { julian_day: 100 });
    assert_eq!(get_days_since_last_match(&map, 1, 2), MAX_SCORE);
    assert_eq!(LastMatchMap::new().get(1, 2), None);
}

#[test]
fn later_round_overwrites_earlier() {
    let rounds = vec![
        round(1, 10, vec![m(1, 2, 0), m(2, 1, 0)]),
        round(2, 40, vec![m(1, 2, 0)]),
    ];
    let map = get_last_match_map(&rounds, Date { julian_day: 50 });
    assert_eq!(get_days_since_last_match(&map, 1, 2), 10);
    assert_eq!(get_days_since_last_match(&map, 2, 1), 40);
    // Pairs are directed.
    assert_eq!(get_days_since_last_match(&map, 3, 1), MAX_SCORE);
    assert!(map.contains_pair(2, 1));
    assert!(!map.contains_pair(1, 3));
}

#[test]
fn large_ids_do_not_collide() {
    let mut map = LastMatchMap::new();
    map.insert(u32::MAX, 0, 5);
    map.insert(0, u32::MAX, 7);
    map.insert(1, 0, 9);
    assert_eq!(map.get(u32::MAX, 0), Some(5));
    assert_eq!(map.get(0, u32::MAX), Some(7));
    assert_eq!(map.get(1, 0), Some(9));
    assert_eq!(map.get(0, 1), None);
}

#[test]
fn rescoring_uses_only_earlier_rounds() {
    let rounds = vec![
        round(1, 10, vec![m(1, 2, 99), m(2, 1, 99)]),
        round(2, 20, vec![m(1, 2, 99), m(2, 3, 99)]),
        round(3, 30, vec![m(1, 2, 99)]),
    ];
    let rescored = calculate_scores(&rounds, Date { julian_day: 30 });
    let scores: Vec<Vec<i64>> =
        rescored.iter().map(|r| r.matches.iter().map(|x| x.score).collect()).collect();
    assert_eq!(scores, vec![vec![MAX_SCORE, MAX_SCORE], vec![20, MAX_SCORE], vec![10]]);
    assert_eq!(rescored[1].id, 2);
    assert_eq!(rescored[1].date, Date { julian_day: 20 });
}

#[test]
fn rescoring_twice_gives_the_same_scores() {
    let rounds = vec![
        round(1, 3, vec![m(1, 2, 0), m(2, 3, 0), m(3, 1, 0)]),
        round(2, 17, vec![m(1, 3, 0), m(3, 2, 0), m(2, 1, 0)]),
        round(3, 31, vec![m(1, 2, 0), m(2, 1, 0)]),
    ];
    let today = Date { julian_day: 45 };
    let once = calculate_scores(&rounds, today);
    let twice = calculate_scores(&once, today);
    let again = calculate_scores(&rounds, today);
    let scores = |rs: &Vec<MatchingRound>| -> Vec<i64> {
        rs.iter().flat_map(|r| r.matches.iter().map(|x| x.score)).collect()
    };
    assert_eq!(scores(&once), scores(&twice));
    assert_eq!(scores(&once), scores(&again));
    assert_eq!(scores(&once), vec![MAX_SCORE, MAX_SCORE, MAX_SCORE, MAX_SCORE, MAX_SCORE, MAX_SCORE, 42, 28]);
}

fn participant(id: u32) -> Participant {
    Participant { id, first_name: format!("F{id}"), last_name: format!("L{id}"), gender: Gender::Male }
}

#[test]
fn group_ids_are_filled_in() {
    let file = ParticipantsFile {
        groups: vec![
            ParticipantsGroup { id: 7, participants: vec![participant(1)], excluded_participants: vec![participant(2)] },
            ParticipantsGroup { id: 8, participants: vec![participant(3)], excluded_participants: vec![] },
        ],
    };
    let rounds = vec![round(1, 0, vec![m(1, 3, 4), m(2, 1, 5)])];
    let updated = update_matching_rounds_with_group_ids(&rounds, &file).unwrap();
    let x = &updated[0].matches;
    assert_eq!((x[0].giver.group_id, x[0].receiver.group_id), (7, 8));
    assert_eq!((x[1].giver.group_id, x[1].receiver.group_id), (7, 7));
    assert_eq!(x[1].score, 5);
    assert_eq!(x[0].giver.first_name, "First1");
}

#[test]
fn unknown_participant_in_history_is_reported() {
    let file = ParticipantsFile {
        groups: vec![ParticipantsGroup { id: 7, participants: vec![participant(1)], excluded_participants: vec![] }],
    };
    let rounds = vec![round(1, 0, vec![m(1, 9, 4)])];
    assert_eq!(
        update_matching_rounds_with_group_ids(&rounds, &file).unwrap_err(),
        MatchingError::ParticipantWithoutGroup(9)
    );
}
