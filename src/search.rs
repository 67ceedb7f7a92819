//! The search driver: runs the greedy matcher on many shuffles of a group and
//! keeps the matching with the best average score.
use vstd::prelude::*;

use rand_chacha::ChaCha8Rng;

use crate::groups::{duplicate_participants, MatchingGroup};
use crate::last_match_map::LastMatchMap;
use crate::matcher::{get_matches, givers_of, greedy_matches, ids_of, receivers_of};
use crate::matching_round::Match;
use crate::participant::MatchParticipant;
use crate::{MAX_SCORE, NUMBER_OF_TRIES};

verus! {

/// The random generator that drives the shuffles, from rand_chacha.
#[verifier::external_type_specification]
#[verifier::external_body]
pub struct ExChaCha8Rng(ChaCha8Rng);

/// Relies on rand's `SliceRandom::shuffle`, which reorders the slice by
/// swapping its elements: the result is a permutation of what was there.
#[verifier::external_body]
fn shuffle(v: &mut Vec<MatchParticipant>, rng: &mut ChaCha8Rng)
    ensures
        final(v)@.to_multiset() == old(v)@.to_multiset(),
{
    rand::seq::SliceRandom::shuffle(v.as_mut_slice(), rng)
}

/// The sum of the scores of `ms`.
pub open spec fn total_score(ms: Seq<Match>) -> int
    decreases ms.len(),
{
    if ms.len() == 0 {
        0
    } else {
        total_score(ms.drop_last()) + ms.last().score
    }
}

/// `a / b` for `b > 0`, rounded toward zero.
pub open spec fn div_toward_zero(a: int, b: int) -> int {
    if a >= 0 {
        a / b
    } else {
        -((-a) / b)
    }
}

/// The average score of `ms`, rounded toward zero; 0 for no matches.
pub open spec fn average_score(ms: Seq<Match>) -> int {
    if ms.len() == 0 {
        0
    } else {
        div_toward_zero(total_score(ms), ms.len() as int)
    }
}

/// The average score of `matches`.
pub fn score_matches(matches: &Vec<Match>) -> (r: i64)
    ensures
        r == average_score(matches@),
{
    let n = matches.len();
    if n == 0 {
        return 0;
    }
    let mut sum: i128 = 0;
    let mut i: usize = 0;
    while i < n
        invariant
            i <= n,
            n == matches@.len(),
            sum == total_score(matches@.take(i as int)),
            -(i * 0x8000_0000_0000_0000int) <= sum <= i * 0x7fff_ffff_ffff_ffffint,
        decreases n - i,
    {
        proof {
            assert(matches@.take(i + 1).drop_last() =~= matches@.take(i as int));
        }
        sum = sum + matches[i].score as i128;
        i = i + 1;
    }
    proof {
        assert(matches@.take(i as int) =~= matches@);
    }
    if sum >= 0 {
        let q = (sum as u128) / (n as u128);
        assert(q <= 0x7fff_ffff_ffff_ffffint) by (nonlinear_arith)
            requires
                q == (sum as int) / (n as int),
                0 <= sum <= n * 0x7fff_ffff_ffff_ffffint,
                n > 0,
        ;
        q as i64
    } else {
        let q = ((-sum) as u128) / (n as u128);
        assert(q <= 0x8000_0000_0000_0000int) by (nonlinear_arith)
            requires
                q == (-sum) / (n as int),
                0 <= -sum <= n * 0x8000_0000_0000_0000int,
                n > 0,
        ;
        (-(q as i128)) as i64
    }
}

/// The best matching found so far with its average score, and whether the
/// search has stopped.
pub type SearchState = (Option<(Seq<Match>, int)>, bool);

/// The search after one more attempt: a failed attempt changes nothing; one
/// with the maximal average stops the search; one whose average beats the
/// best so far replaces it.
pub open spec fn search_step(state: SearchState, candidate: Option<Seq<Match>>) -> SearchState {
    if state.1 {
        state
    } else {
        match candidate {
            None => state,
            Some(ms) => {
                let s = average_score(ms);
                if s == MAX_SCORE {
                    (Some((ms, s)), true)
                } else if (match state.0 {
                    None => true,
                    Some(b) => b.1 < s,
                }) {
                    (Some((ms, s)), false)
                } else {
                    state
                }
            },
        }
    }
}

/// The search after the attempts `candidates`, in order.
pub open spec fn search_state(candidates: Seq<Option<Seq<Match>>>) -> SearchState
    decreases candidates.len(),
{
    if candidates.len() == 0 {
        (None, false)
    } else {
        search_step(search_state(candidates.drop_last()), candidates.last())
    }
}

/// The matching that the search keeps from the attempts `candidates`.
pub open spec fn best_of(candidates: Seq<Option<Seq<Match>>>) -> Option<(Seq<Match>, int)> {
    search_state(candidates).0
}

/// The greedy matching of each pair of giver and receiver orders.
pub open spec fn trial_results(
    m: Map<(u32, u32), i64>,
    orders: Seq<(Seq<MatchParticipant>, Seq<MatchParticipant>)>,
) -> Seq<Option<Seq<Match>>> {
    orders.map_values(
        |o: (Seq<MatchParticipant>, Seq<MatchParticipant>)| greedy_matches(m, o.0, o.1),
    )
}

/// `result` is what the search keeps from at most `NUMBER_OF_TRIES` attempts,
/// each on some order of `givers` and some order of `receivers`.
pub open spec fn searched(
    m: Map<(u32, u32), i64>,
    givers: Seq<MatchParticipant>,
    receivers: Seq<MatchParticipant>,
    result: Option<(Seq<Match>, int)>,
) -> bool {
    exists|orders: Seq<(Seq<MatchParticipant>, Seq<MatchParticipant>)>|
        {
            &&& 0 < orders.len() <= NUMBER_OF_TRIES
            &&& forall|k: int|
                0 <= k < orders.len() ==> (#[trigger] orders[k]).0.to_multiset()
                    == givers.to_multiset() && orders[k].1.to_multiset() == receivers.to_multiset()
            &&& result == best_of(trial_results(m, orders))
        }
}

pub open spec fn best_view(b: Option<(Vec<Match>, i64)>) -> Option<(Seq<Match>, int)> {
    match b {
        None => None,
        Some((v, s)) => Some((v@, s as int)),
    }
}

pub open spec fn candidate_view(c: Option<Vec<Match>>) -> Option<Seq<Match>> {
    match c {
        None => None,
        Some(v) => Some(v@),
    }
}

pub open spec fn orders_view(orders: Seq<(Vec<MatchParticipant>, Vec<MatchParticipant>)>) -> Seq<
    (Seq<MatchParticipant>, Seq<MatchParticipant>),
> {
    orders.map_values(
        |o: (Vec<MatchParticipant>, Vec<MatchParticipant>)| (o.0@, o.1@),
    )
}

proof fn lemma_stopped_search_stays(candidates: Seq<Option<Seq<Match>>>, n: int)
    requires
        0 <= n <= candidates.len(),
        search_state(candidates.take(n)).1,
    ensures
        search_state(candidates) == search_state(candidates.take(n)),
    decreases candidates.len() - n,
{
    if n < candidates.len() {
        assert(candidates.take(n + 1).drop_last() =~= candidates.take(n));
        lemma_stopped_search_stays(candidates, n + 1);
    } else {
        assert(candidates.take(n) =~= candidates);
    }
}

/// Takes `candidate` into the search: replaces `best` where the candidate is
/// better, and returns whether the search stops.
fn take_if_better(best: &mut Option<(Vec<Match>, i64)>, candidate: Option<Vec<Match>>) -> (stop:
    bool)
    ensures
        (best_view(*final(best)), stop) == search_step(
            (best_view(*old(best)), false),
            candidate_view(candidate),
        ),
{
    match candidate {
        None => false,
        Some(matches) => {
            let score = score_matches(&matches);
            if score == MAX_SCORE {
                *best = Some((matches, score));
                true
            } else {
                let better = match best {
                    None => true,
                    Some((_, best_score)) => *best_score < score,
                };
                if better {
                    *best = Some((matches, score));
                }
                false
            }
        },
    }
}

/// The search over given shuffles: runs the greedy matcher on each pair of
/// giver and receiver orders in turn and keeps the best result.
pub fn best_matching_of_orders(
    last_match_map: &LastMatchMap,
    orders: &Vec<(Vec<MatchParticipant>, Vec<MatchParticipant>)>,
) -> (r: Option<(Vec<Match>, i64)>)
    ensures
        best_view(r) == best_of(trial_results(last_match_map@, orders_view(orders@))),
{
    let ghost results = trial_results(last_match_map@, orders_view(orders@));
    let mut best: Option<(Vec<Match>, i64)> = None;
    let mut i: usize = 0;
    while i < orders.len()
        invariant
            i <= orders.len(),
            results == trial_results(last_match_map@, orders_view(orders@)),
            (best_view(best), false) == search_state(results.take(i as int)),
        decreases orders.len() - i,
    {
        let givers = duplicate_participants(&orders[i].0);
        let receivers = duplicate_participants(&orders[i].1);
        let candidate = get_matches(last_match_map, givers, receivers);
        let stop = take_if_better(&mut best, candidate);
        proof {
            assert(results.take(i + 1).drop_last() =~= results.take(i as int));
            assert(candidate_view(candidate) == results[i as int]);
        }
        if stop {
            proof {
                lemma_stopped_search_stays(results, i + 1);
            }
            return best;
        }
        i = i + 1;
    }
    proof {
        assert(results.take(i as int) =~= results);
    }
    best
}

/// Searches `NUMBER_OF_TRIES` random shuffles of the group for the matching
/// with the best average score. Whatever the shuffles were, the result is what
/// the search over them keeps.
pub fn get_good_matches(
    matching_group: &MatchingGroup,
    last_match_map: &LastMatchMap,
    rng: &mut ChaCha8Rng,
) -> (r: Option<(Vec<Match>, i64)>)
    ensures
        searched(
            last_match_map@,
            matching_group.givers@,
            matching_group.receivers@,
            best_view(r),
        ),
{
    let mut orders: Vec<(Vec<MatchParticipant>, Vec<MatchParticipant>)> = Vec::new();
    let mut trial: u32 = 0;
    while trial < NUMBER_OF_TRIES
        invariant
            trial <= NUMBER_OF_TRIES,
            orders@.len() == trial,
            forall|k: int|
                0 <= k < orders@.len() ==> (#[trigger] orders@[k]).0@.to_multiset()
                    == matching_group.givers@.to_multiset() && orders@[k].1@.to_multiset()
                    == matching_group.receivers@.to_multiset(),
        decreases NUMBER_OF_TRIES - trial,
    {
        let mut givers = duplicate_participants(&matching_group.givers);
        let mut receivers = duplicate_participants(&matching_group.receivers);
        shuffle(&mut givers, rng);
        shuffle(&mut receivers, rng);
        orders.push((givers, receivers));
        trial = trial + 1;
    }
    let r = best_matching_of_orders(last_match_map, &orders);
    proof {
        let tried = orders_view(orders@);
        assert(forall|k: int|
            0 <= k < tried.len() ==> (#[trigger] tried[k]).0.to_multiset()
                == matching_group.givers@.to_multiset() && tried[k].1.to_multiset()
                == matching_group.receivers@.to_multiset());
        assert(best_view(r) == best_of(trial_results(last_match_map@, tried)));
    }
    r
}

proof fn lemma_total_score_bounded(ms: Seq<Match>, c: int)
    requires
        forall|k: int| 0 <= k < ms.len() ==> #[trigger] ms[k].score <= c,
    ensures
        total_score(ms) <= ms.len() * c,
    decreases ms.len(),
{
    if ms.len() > 0 {
        lemma_total_score_bounded(ms.drop_last(), c);
        assert(ms.last() == ms[ms.len() - 1]);
        assert(ms.len() * c == (ms.len() - 1) * c + c) by (nonlinear_arith);
    }
}

proof fn lemma_average_score_bounded(ms: Seq<Match>, c: int)
    requires
        c >= 0,
        forall|k: int| 0 <= k < ms.len() ==> #[trigger] ms[k].score <= c,
    ensures
        average_score(ms) <= c,
{
    if ms.len() > 0 {
        lemma_total_score_bounded(ms, c);
        let t = total_score(ms);
        let n = ms.len() as int;
        if t >= 0 {
            assert(t / n <= c) by (nonlinear_arith)
                requires
                    0 <= t <= n * c,
                    n > 0,
            ;
        } else {
            assert((-t) / n >= 0) by (nonlinear_arith)
                requires
                    -t > 0,
                    n > 0,
            ;
        }
    }
}

proof fn lemma_greedy_scores_bounded(
    m: Map<(u32, u32), i64>,
    gs: Seq<MatchParticipant>,
    rs: Seq<MatchParticipant>,
)
    requires
        greedy_matches(m, gs, rs) is Some,
        forall|key: (u32, u32)| #[trigger] m.contains_key(key) ==> m[key] <= MAX_SCORE,
    ensures
        forall|k: int|
            0 <= k < greedy_matches(m, gs, rs)->0.len() ==> #[trigger] greedy_matches(
                m,
                gs,
                rs,
            )->0[k].score <= MAX_SCORE,
    decreases gs.len(),
{
    if gs.len() > 0 {
        let i = crate::matcher::best_receiver(m, gs[0].id, rs);
        let gs2 = crate::matcher::swap_removed(gs, 0);
        let rs2 = crate::matcher::swap_removed(rs, i);
        lemma_greedy_scores_bounded(m, gs2, rs2);
        let ms = greedy_matches(m, gs, rs)->0;
        let rest = greedy_matches(m, gs2, rs2)->0;
        assert forall|k: int| 0 <= k < ms.len() implies #[trigger] ms[k].score <= MAX_SCORE by {
            if k > 0 {
                assert(ms[k] == rest[k - 1]);
            }
        }
    }
}

proof fn lemma_search_dominates(candidates: Seq<Option<Seq<Match>>>)
    requires
        forall|j: int|
            0 <= j < candidates.len() && #[trigger] candidates[j] is Some ==> average_score(
                candidates[j]->0,
            ) <= MAX_SCORE,
    ensures
        search_state(candidates).1 ==> (search_state(candidates).0 matches Some(b) && b.1
            == MAX_SCORE),
        forall|j: int|
            0 <= j < candidates.len() && #[trigger] candidates[j] is Some ==> (search_state(
                candidates,
            ).0 matches Some(b) && b.1 >= average_score(candidates[j]->0)),
    decreases candidates.len(),
{
    if candidates.len() > 0 {
        let prev = candidates.drop_last();
        assert forall|j: int| 0 <= j < prev.len() && #[trigger] prev[j] is Some implies average_score(
            prev[j]->0,
        ) <= MAX_SCORE by {
            assert(prev[j] == candidates[j]);
        }
        lemma_search_dominates(prev);
        let last = candidates.len() - 1;
        assert(candidates.last() == candidates[last]);
        assert forall|j: int|
            0 <= j < candidates.len() && #[trigger] candidates[j] is Some implies (search_state(
            candidates,
        ).0 matches Some(b) && b.1 >= average_score(candidates[j]->0)) by {
            if j < last {
                assert(prev[j] == candidates[j]);
            }
        }
    }
}

/// Best of N: where no recency score in the index exceeds `MAX_SCORE`, the
/// search over given shuffles finds a matching whose average score is at
/// least that of the greedy matching of any one of those shuffles that
/// succeeds.
pub proof fn lemma_best_of_n(
    m: Map<(u32, u32), i64>,
    orders: Seq<(Seq<MatchParticipant>, Seq<MatchParticipant>)>,
    k: int,
)
    requires
        0 <= k < orders.len(),
        greedy_matches(m, orders[k].0, orders[k].1) is Some,
        forall|key: (u32, u32)| #[trigger] m.contains_key(key) ==> m[key] <= MAX_SCORE,
    ensures
        best_of(trial_results(m, orders)) matches Some(b) && b.1 >= average_score(
            greedy_matches(m, orders[k].0, orders[k].1)->0,
        ),
{
    let results = trial_results(m, orders);
    assert forall|j: int| 0 <= j < results.len() && #[trigger] results[j] is Some implies average_score(
        results[j]->0,
    ) <= MAX_SCORE by {
        lemma_greedy_scores_bounded(m, orders[j].0, orders[j].1);
        lemma_average_score_bounded(results[j]->0, MAX_SCORE as int);
    }
    lemma_search_dominates(results);
    assert(results[k] is Some);
}


proof fn lemma_search_keeps_a_candidate(candidates: Seq<Option<Seq<Match>>>)
    ensures
        best_of(candidates) matches Some((ms, s)) ==> exists|k: int|
            0 <= k < candidates.len() && candidates[k] == Some(ms) && s == average_score(ms),
    decreases candidates.len(),
{
    if candidates.len() > 0 {
        let prev = candidates.drop_last();
        lemma_search_keeps_a_candidate(prev);
        if let Some((ms, s)) = search_state(prev).0 {
            if search_state(candidates).0 == search_state(prev).0 {
                let k = choose|k: int|
                    0 <= k < prev.len() && prev[k] == Some(ms) && s == average_score(ms);
                assert(candidates[k] == prev[k]);
            }
        }
        assert(candidates.last() == candidates[candidates.len() - 1]);
    }
}

/// A matching kept by the search is the greedy matching of some order of the
/// givers and some order of the receivers, and comes with its average score.
pub proof fn lemma_searched_result(
    m: Map<(u32, u32), i64>,
    givers: Seq<MatchParticipant>,
    receivers: Seq<MatchParticipant>,
    ms: Seq<Match>,
    s: int,
)
    requires
        searched(m, givers, receivers, Some((ms, s))),
    ensures
        exists|gs: Seq<MatchParticipant>, rs: Seq<MatchParticipant>|
            {
                &&& gs.to_multiset() == givers.to_multiset()
                &&& rs.to_multiset() == receivers.to_multiset()
                &&& greedy_matches(m, gs, rs) == Some(ms)
            },
        s == average_score(ms),
{
    let orders = choose|orders: Seq<(Seq<MatchParticipant>, Seq<MatchParticipant>)>|
        {
            &&& 0 < orders.len() <= NUMBER_OF_TRIES
            &&& forall|k: int|
                0 <= k < orders.len() ==> (#[trigger] orders[k]).0.to_multiset()
                    == givers.to_multiset() && orders[k].1.to_multiset() == receivers.to_multiset()
            &&& Some((ms, s)) == best_of(trial_results(m, orders))
        };
    lemma_search_keeps_a_candidate(trial_results(m, orders));
    let k = choose|k: int|
        0 <= k < orders.len() && trial_results(m, orders)[k] == Some(ms) && s == average_score(ms);
    assert(orders[k].0.to_multiset() == givers.to_multiset());
    assert(greedy_matches(m, orders[k].0, orders[k].1) == Some(ms));
}

/// Every match of a matching kept by the search pairs two different
/// participants.
pub proof fn lemma_searched_no_self_match(
    m: Map<(u32, u32), i64>,
    givers: Seq<MatchParticipant>,
    receivers: Seq<MatchParticipant>,
    ms: Seq<Match>,
    s: int,
)
    requires
        searched(m, givers, receivers, Some((ms, s))),
    ensures
        forall|k: int| 0 <= k < ms.len() ==> #[trigger] ms[k].giver.id != ms[k].receiver.id,
{
    lemma_searched_result(m, givers, receivers, ms, s);
    let (gs, rs) = choose|gs: Seq<MatchParticipant>, rs: Seq<MatchParticipant>|
        {
            &&& gs.to_multiset() == givers.to_multiset()
            &&& rs.to_multiset() == receivers.to_multiset()
            &&& greedy_matches(m, gs, rs) == Some(ms)
        };
    crate::matcher::lemma_greedy_matches_cover(m, gs, rs);
}

/// Coverage: a matching that the search finds for a group whose givers and
/// receivers are both its participants, all with distinct ids, has one match
/// per participant, and each participant id occurs exactly once among its
/// givers and exactly once among its receivers, and no other id occurs there.
pub proof fn lemma_searched_coverage(
    m: Map<(u32, u32), i64>,
    participants: Seq<MatchParticipant>,
    ms: Seq<Match>,
    s: int,
)
    requires
        ids_of(participants).no_duplicates(),
        searched(m, participants, participants, Some((ms, s))),
    ensures
        ms.len() == participants.len(),
        forall|id: u32| #[trigger]
            ids_of(givers_of(ms)).to_multiset().count(id) == (if ids_of(participants).contains(
                id,
            ) {
                1nat
            } else {
                0nat
            }),
        forall|id: u32| #[trigger]
            ids_of(receivers_of(ms)).to_multiset().count(id) == (if ids_of(participants).contains(
                id,
            ) {
                1nat
            } else {
                0nat
            }),
{
    lemma_searched_result(m, participants, participants, ms, s);
    let (gs, rs) = choose|gs: Seq<MatchParticipant>, rs: Seq<MatchParticipant>|
        {
            &&& gs.to_multiset() == participants.to_multiset()
            &&& rs.to_multiset() == participants.to_multiset()
            &&& greedy_matches(m, gs, rs) == Some(ms)
        };
    crate::matcher::lemma_group_coverage(m, participants, gs, rs);
}


proof fn lemma_all_empty_candidates(candidates: Seq<Option<Seq<Match>>>)
    requires
        forall|k: int| 0 <= k < candidates.len() ==> #[trigger] candidates[k] == Some(Seq::<Match>::empty()),
    ensures
        candidates.len() > 0 ==> best_of(candidates) == Some((Seq::<Match>::empty(), 0int)),
        !search_state(candidates).1,
    decreases candidates.len(),
{
    if candidates.len() > 0 {
        let prev = candidates.drop_last();
        assert forall|k: int| 0 <= k < prev.len() implies #[trigger] prev[k] == Some(Seq::<Match>::empty()) by {
            assert(prev[k] == candidates[k]);
        }
        lemma_all_empty_candidates(prev);
        assert(candidates.last() == candidates[candidates.len() - 1]);
    }
}

proof fn lemma_all_failed_candidates(candidates: Seq<Option<Seq<Match>>>)
    requires
        forall|k: int| 0 <= k < candidates.len() ==> #[trigger] candidates[k] is None,
    ensures
        search_state(candidates) == (None::<(Seq<Match>, int)>, false),
    decreases candidates.len(),
{
    if candidates.len() > 0 {
        let prev = candidates.drop_last();
        assert forall|k: int| 0 <= k < prev.len() implies #[trigger] prev[k] is None by {
            assert(prev[k] == candidates[k]);
        }
        lemma_all_failed_candidates(prev);
        assert(candidates.last() == candidates[candidates.len() - 1]);
    }
}

/// Degenerate sizes: the search finds the empty matching, with average score
/// 0, for a group without participants, and no matching for a group whose
/// one participant is its only giver and only receiver.
/// The search over a group without participants finds the empty matching.
pub proof fn lemma_empty_group_searched(m: Map<(u32, u32), i64>, result: Option<(Seq<Match>, int)>)
    requires
        searched(m, Seq::empty(), Seq::empty(), result),
    ensures
        result == Some((Seq::<Match>::empty(), 0int)),
{
    broadcast use vstd::seq_lib::group_to_multiset_ensures;

    let empty = Seq::<MatchParticipant>::empty();
    let orders = choose|orders: Seq<(Seq<MatchParticipant>, Seq<MatchParticipant>)>|
        {
            &&& 0 < orders.len() <= NUMBER_OF_TRIES
            &&& forall|k: int|
                0 <= k < orders.len() ==> (#[trigger] orders[k]).0.to_multiset()
                    == empty.to_multiset() && orders[k].1.to_multiset() == empty.to_multiset()
            &&& result == best_of(trial_results(m, orders))
        };
    let results = trial_results(m, orders);
    assert forall|k: int| 0 <= k < results.len() implies #[trigger] results[k] == Some(
        Seq::<Match>::empty(),
    ) by {
        assert(orders[k].0.to_multiset().len() == 0);
        assert(orders[k].0.len() == 0);
    }
    lemma_all_empty_candidates(results);

}

pub proof fn lemma_degenerate_groups(
    m: Map<(u32, u32), i64>,
    p: MatchParticipant,
    empty_result: Option<(Seq<Match>, int)>,
    single_result: Option<(Seq<Match>, int)>,
)
    requires
        searched(m, Seq::empty(), Seq::empty(), empty_result),
        searched(m, seq![p], seq![p], single_result),
    ensures
        empty_result == Some((Seq::<Match>::empty(), 0int)),
        single_result is None,
{
    broadcast use vstd::seq_lib::group_to_multiset_ensures;

    lemma_empty_group_searched(m, empty_result);

    let single = seq![p];
    let orders1 = choose|orders: Seq<(Seq<MatchParticipant>, Seq<MatchParticipant>)>|
        {
            &&& 0 < orders.len() <= NUMBER_OF_TRIES
            &&& forall|k: int|
                0 <= k < orders.len() ==> (#[trigger] orders[k]).0.to_multiset()
                    == single.to_multiset() && orders[k].1.to_multiset() == single.to_multiset()
            &&& single_result == best_of(trial_results(m, orders))
        };
    let results1 = trial_results(m, orders1);
    assert forall|k: int| 0 <= k < results1.len() implies #[trigger] results1[k] is None by {
        let (gs, rs) = orders1[k];
        assert(gs.to_multiset().len() == 1);
        assert(rs.to_multiset().len() == 1);
        assert(single.to_multiset().count(p) > 0) by {
            assert(single.contains(p)) by {
                assert(single[0] == p);
            }
        }
        assert(gs.contains(p));
        assert(rs.contains(p));
        assert(gs[0] == p);
        assert(rs[0] == p);
        assert(!crate::matcher::has_eligible(gs[0].id, rs));
    }
    lemma_all_failed_candidates(results1);
}


/// Coverage of one group's search: a matching that the search finds for a
/// group with as many givers as receivers has one match per giver, its giver
/// ids are the ids of the group's givers and its receiver ids those of the
/// group's receivers, each as often.
pub proof fn lemma_searched_ids(
    m: Map<(u32, u32), i64>,
    givers: Seq<MatchParticipant>,
    receivers: Seq<MatchParticipant>,
    ms: Seq<Match>,
    s: int,
)
    requires
        searched(m, givers, receivers, Some((ms, s))),
        givers.len() == receivers.len(),
    ensures
        ms.len() == givers.len(),
        ids_of(givers_of(ms)).to_multiset() == ids_of(givers).to_multiset(),
        ids_of(receivers_of(ms)).to_multiset() == ids_of(receivers).to_multiset(),
{
    lemma_searched_result(m, givers, receivers, ms, s);
    let (gs, rs) = choose|gs: Seq<MatchParticipant>, rs: Seq<MatchParticipant>|
        {
            &&& gs.to_multiset() == givers.to_multiset()
            &&& rs.to_multiset() == receivers.to_multiset()
            &&& greedy_matches(m, gs, rs) == Some(ms)
        };
    vstd::seq_lib::to_multiset_len(gs);
    vstd::seq_lib::to_multiset_len(rs);
    vstd::seq_lib::to_multiset_len(givers);
    vstd::seq_lib::to_multiset_len(receivers);
    crate::matcher::lemma_greedy_matches_cover(m, gs, rs);
    let f = |p: MatchParticipant| p.id;
    crate::matcher::lemma_to_multiset_map(givers_of(ms), givers, f);
    crate::matcher::lemma_to_multiset_map(receivers_of(ms), receivers, f);
}


/// Best of N for the randomized search: where no recency score in the index
/// exceeds `MAX_SCORE`, the search tried between 1 and `NUMBER_OF_TRIES`
/// orders of the givers and receivers, and its result has an average score at
/// least that of every one of those orders on which the greedy matcher
/// succeeds.
pub proof fn lemma_searched_best_of_n(
    m: Map<(u32, u32), i64>,
    givers: Seq<MatchParticipant>,
    receivers: Seq<MatchParticipant>,
    result: Option<(Seq<Match>, int)>,
)
    requires
        searched(m, givers, receivers, result),
        forall|key: (u32, u32)| #[trigger] m.contains_key(key) ==> m[key] <= MAX_SCORE,
    ensures
        exists|orders: Seq<(Seq<MatchParticipant>, Seq<MatchParticipant>)>|
            {
                &&& 0 < orders.len() <= NUMBER_OF_TRIES
                &&& forall|k: int|
                    0 <= k < orders.len() ==> (#[trigger] orders[k]).0.to_multiset()
                        == givers.to_multiset() && orders[k].1.to_multiset()
                        == receivers.to_multiset()
                &&& result == #[trigger] best_of(trial_results(m, orders))
                &&& forall|k: int|
                    0 <= k < orders.len() && (#[trigger] greedy_matches(m, orders[k].0, orders[k].1))
                        is Some ==> (result matches Some(b) && b.1 >= average_score(
                        greedy_matches(m, orders[k].0, orders[k].1)->0,
                    ))
            },
{
    let orders = choose|orders: Seq<(Seq<MatchParticipant>, Seq<MatchParticipant>)>|
        {
            &&& 0 < orders.len() <= NUMBER_OF_TRIES
            &&& forall|k: int|
                0 <= k < orders.len() ==> (#[trigger] orders[k]).0.to_multiset()
                    == givers.to_multiset() && orders[k].1.to_multiset() == receivers.to_multiset()
            &&& result == best_of(trial_results(m, orders))
        };
    assert forall|k: int|
        0 <= k < orders.len() && (#[trigger] greedy_matches(m, orders[k].0, orders[k].1))
            is Some implies (result matches Some(b) && b.1 >= average_score(
        greedy_matches(m, orders[k].0, orders[k].1)->0,
    )) by {
        lemma_best_of_n(m, orders, k);
    }
}

} // verus!
