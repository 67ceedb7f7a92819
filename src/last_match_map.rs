//! The history index: for each ordered pair of participants, the days since
//! the last round in which the first gave feedback to the second.
use vstd::prelude::*;
use std::collections::HashMap;

use crate::matching_round::{Date, Match, MatchingRound};
use crate::MAX_SCORE;

verus! {

broadcast use vstd::std_specs::hash::group_hash_axioms;

/// Days elapsed from `date` to `today`.
pub open spec fn days_between(date: Date, today: Date) -> i64 {
    (today.julian_day - date.julian_day) as i64
}

/// `m` after every match of `matches`, in order, has been recorded with `days`.
pub open spec fn record_matches(m: Map<(u32, u32), i64>, matches: Seq<Match>, days: i64) -> Map<
    (u32, u32),
    i64,
>
    decreases matches.len(),
{
    if matches.len() == 0 {
        m
    } else {
        record_matches(m, matches.drop_last(), days).insert(
            (matches.last().giver.id, matches.last().receiver.id),
            days,
        )
    }
}

/// The history index of `rounds` on the day `today`: each pair that occurs in a
/// round maps to the days since the latest such round.
pub open spec fn last_match_days(rounds: Seq<MatchingRound>, today: Date) -> Map<(u32, u32), i64>
    decreases rounds.len(),
{
    if rounds.len() == 0 {
        Map::empty()
    } else {
        record_matches(
            last_match_days(rounds.drop_last(), today),
            rounds.last().matches@,
            days_between(rounds.last().date, today),
        )
    }
}

/// The recency score of a pair: its entry, or `MAX_SCORE` where it has none.
pub open spec fn days_since(m: Map<(u32, u32), i64>, giver_id: u32, receiver_id: u32) -> i64 {
    if m.contains_key((giver_id, receiver_id)) {
        m[(giver_id, receiver_id)]
    } else {
        MAX_SCORE
    }
}

pub open spec fn pair_key(giver_id: u32, receiver_id: u32) -> u64 {
    (giver_id * 0x1_0000_0000int + receiver_id) as u64
}

proof fn lemma_pair_key_injective(g1: u32, r1: u32, g2: u32, r2: u32)
    requires
        pair_key(g1, r1) == pair_key(g2, r2),
    ensures
        g1 == g2 && r1 == r2,
{
    assert(g1 * 0x1_0000_0000int + r1 <= 0xffff_ffff_ffff_ffffint) by (nonlinear_arith)
        requires
            g1 <= 0xffff_ffffint,
            r1 <= 0xffff_ffffint,
    ;
    assert(g2 * 0x1_0000_0000int + r2 <= 0xffff_ffff_ffff_ffffint) by (nonlinear_arith)
        requires
            g2 <= 0xffff_ffffint,
            r2 <= 0xffff_ffffint,
    ;
    assert(g1 == g2 && r1 == r2) by (nonlinear_arith)
        requires
            g1 * 0x1_0000_0000int + r1 == g2 * 0x1_0000_0000int + r2,
            0 <= r1 < 0x1_0000_0000int,
            0 <= r2 < 0x1_0000_0000int,
            0 <= g1,
            0 <= g2,
    ;
}

fn key_of(giver_id: u32, receiver_id: u32) -> (r: u64)
    ensures
        r == pair_key(giver_id, receiver_id),
{
    assert(giver_id * 0x1_0000_0000int + receiver_id <= 0xffff_ffff_ffff_ffffint) by (nonlinear_arith)
        requires
            giver_id <= 0xffff_ffffint,
            receiver_id <= 0xffff_ffffint,
    ;
    (giver_id as u64) * 0x1_0000_0000u64 + (receiver_id as u64)
}

/// The history index, keyed by ordered pairs of participant ids.
pub struct LastMatchMap {
    days: HashMap<u64, i64>,
}

impl View for LastMatchMap {
    type V = Map<(u32, u32), i64>;

    closed spec fn view(&self) -> Map<(u32, u32), i64> {
        Map::new(
            |k: (u32, u32)| self.days@.contains_key(pair_key(k.0, k.1)),
            |k: (u32, u32)| self.days@[pair_key(k.0, k.1)],
        )
    }
}

impl LastMatchMap {
    pub fn new() -> (r: LastMatchMap)
        ensures
            r@ == Map::<(u32, u32), i64>::empty(),
    {
        let r = LastMatchMap { days: HashMap::new() };
        assert(r@ =~= Map::<(u32, u32), i64>::empty());
        r
    }

    pub fn insert(&mut self, giver_id: u32, receiver_id: u32, days: i64)
        ensures
            final(self)@ == old(self)@.insert((giver_id, receiver_id), days),
    {
        let key = key_of(giver_id, receiver_id);
        self.days.insert(key, days);
        proof {
            assert forall|k: (u32, u32)| k != (giver_id, receiver_id) implies pair_key(k.0, k.1)
                != key by {
                if pair_key(k.0, k.1) == key {
                    lemma_pair_key_injective(k.0, k.1, giver_id, receiver_id);
                }
            }
        }
        assert(self@ =~= old(self)@.insert((giver_id, receiver_id), days));
    }

    pub fn contains_pair(&self, giver_id: u32, receiver_id: u32) -> (r: bool)
        ensures
            r == self@.contains_key((giver_id, receiver_id)),
    {
        self.days.contains_key(&key_of(giver_id, receiver_id))
    }

    pub fn get(&self, giver_id: u32, receiver_id: u32) -> (r: Option<i64>)
        ensures
            r == (if self@.contains_key((giver_id, receiver_id)) {
                Some(self@[(giver_id, receiver_id)])
            } else {
                None::<i64>
            }),
    {
        match self.days.get(&key_of(giver_id, receiver_id)) {
            Some(d) => Some(*d),
            None => None,
        }
    }
}

/// Days from the date of `round` to `today`.
fn get_days_since_matching_round(round: &MatchingRound, today: Date) -> (r: i64)
    ensures
        r == days_between(round.date, today),
{
    today.julian_day as i64 - round.date.julian_day as i64
}

/// Records every match of `round` in the index, with the days since the round.
pub fn record_round(map: &mut LastMatchMap, round: &MatchingRound, today: Date)
    ensures
        final(map)@ == record_matches(old(map)@, round.matches@, days_between(round.date, today)),
{
    let days = get_days_since_matching_round(round, today);
    let ghost before = map@;
    let mut j: usize = 0;
    while j < round.matches.len()
        invariant
            j <= round.matches.len(),
            map@ == record_matches(before, round.matches@.take(j as int), days),
        decreases round.matches.len() - j,
    {
        let m = &round.matches[j];
        map.insert(m.giver.id, m.receiver.id, days);
        proof {
            assert(round.matches@.take(j + 1).drop_last() =~= round.matches@.take(j as int));
        }
        j = j + 1;
    }
    proof {
        assert(round.matches@.take(j as int) =~= round.matches@);
    }
}

/// Builds the history index of `past_matching_rounds` as seen on `today`.
pub fn get_last_match_map(past_matching_rounds: &Vec<MatchingRound>, today: Date) -> (r:
    LastMatchMap)
    ensures
        r@ == last_match_days(past_matching_rounds@, today),
{
    let mut map = LastMatchMap::new();
    let mut i: usize = 0;
    while i < past_matching_rounds.len()
        invariant
            i <= past_matching_rounds.len(),
            map@ == last_match_days(past_matching_rounds@.take(i as int), today),
        decreases past_matching_rounds.len() - i,
    {
        let round = &past_matching_rounds[i];
        record_round(&mut map, round, today);
        proof {
            assert(past_matching_rounds@.take(i + 1).drop_last() =~= past_matching_rounds@.take(
                i as int,
            ));
        }
        i = i + 1;
    }
    proof {
        assert(past_matching_rounds@.take(i as int) =~= past_matching_rounds@);
    }
    map
}

/// The recency score of the pair `(giver_id, receiver_id)`.
pub fn get_days_since_last_match(last_match_map: &LastMatchMap, giver_id: u32, receiver_id: u32) -> (r:
    i64)
    ensures
        r == days_since(last_match_map@, giver_id, receiver_id),
{
    match last_match_map.get(giver_id, receiver_id) {
        Some(days) => days,
        None => MAX_SCORE,
    }
}

} // verus!
