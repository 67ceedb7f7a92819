//! The candidate matcher: one greedy pass that gives each giver, in order, the
//! remaining receiver it has not met for the longest time.
use vstd::prelude::*;

use crate::last_match_map::{days_since, get_days_since_last_match, LastMatchMap};
use crate::matching_round::Match;
use crate::participant::MatchParticipant;

verus! {

/// Whether some receiver of `rs` is not the giver itself.
pub open spec fn has_eligible(giver_id: u32, rs: Seq<MatchParticipant>) -> bool {
    exists|j: int| 0 <= j < rs.len() && rs[j].id != giver_id
}

/// Position `i` holds the first eligible receiver of `rs` with the highest
/// recency score for the giver.
pub open spec fn is_best_receiver(
    m: Map<(u32, u32), i64>,
    giver_id: u32,
    rs: Seq<MatchParticipant>,
    i: int,
) -> bool {
    &&& 0 <= i < rs.len()
    &&& rs[i].id != giver_id
    &&& forall|j: int|
        0 <= j < i && rs[j].id != giver_id ==> days_since(m, giver_id, rs[j].id) < days_since(
            m,
            giver_id,
            rs[i].id,
        )
    &&& forall|j: int|
        i < j < rs.len() && rs[j].id != giver_id ==> days_since(m, giver_id, rs[j].id)
            <= days_since(m, giver_id, rs[i].id)
}

pub open spec fn best_receiver(m: Map<(u32, u32), i64>, giver_id: u32, rs: Seq<MatchParticipant>) -> int {
    choose|i: int| is_best_receiver(m, giver_id, rs, i)
}

/// `s` without position `i`, whose place the last element takes.
pub open spec fn swap_removed<A>(s: Seq<A>, i: int) -> Seq<A> {
    s.update(i, s.last()).drop_last()
}

pub open spec fn match_of(giver: MatchParticipant, receiver: MatchParticipant, score: i64) -> Match {
    Match { giver, receiver, score }
}

/// The greedy matching: the first giver takes its best receiver, both leave
/// their lists, and the rest are matched the same way. `None` where some giver
/// finds no receiver but itself.
pub open spec fn greedy_matches(
    m: Map<(u32, u32), i64>,
    gs: Seq<MatchParticipant>,
    rs: Seq<MatchParticipant>,
) -> Option<Seq<Match>>
    decreases gs.len(),
{
    if gs.len() == 0 {
        Some(Seq::empty())
    } else if !has_eligible(gs[0].id, rs) {
        None
    } else {
        let i = best_receiver(m, gs[0].id, rs);
        match greedy_matches(m, swap_removed(gs, 0), swap_removed(rs, i)) {
            Some(rest) => Some(
                seq![match_of(gs[0], rs[i], days_since(m, gs[0].id, rs[i].id))] + rest,
            ),
            None => None,
        }
    }
}

proof fn lemma_best_receiver_unique(
    m: Map<(u32, u32), i64>,
    giver_id: u32,
    rs: Seq<MatchParticipant>,
    i: int,
    k: int,
)
    requires
        is_best_receiver(m, giver_id, rs, i),
        is_best_receiver(m, giver_id, rs, k),
    ensures
        i == k,
{
}

/// Sentinel preference: where every recorded recency score is below
/// `MAX_SCORE`, a giver whose remaining receivers include one it has never
/// been paired with gets a receiver it has never been paired with.
pub proof fn lemma_never_paired_preferred(
    m: Map<(u32, u32), i64>,
    giver_id: u32,
    rs: Seq<MatchParticipant>,
    i: int,
    j: int,
)
    requires
        forall|key: (u32, u32)| #[trigger] m.contains_key(key) ==> m[key] < crate::MAX_SCORE,
        0 <= j < rs.len(),
        rs[j].id != giver_id,
        !m.contains_key((giver_id, rs[j].id)),
        is_best_receiver(m, giver_id, rs, i),
    ensures
        !m.contains_key((giver_id, rs[i].id)),
{
    if m.contains_key((giver_id, rs[i].id)) {
        assert(days_since(m, giver_id, rs[i].id) < days_since(m, giver_id, rs[j].id));
    }
}

/// Index and score of the best receiver for `giver_id` among `unmatched_receivers`,
/// or `None` where every one of them is the giver itself.
pub fn get_optimal_receiver_index_and_score(
    last_match_map: &LastMatchMap,
    giver_id: u32,
    unmatched_receivers: &Vec<MatchParticipant>,
) -> (r: Option<(usize, i64)>)
    ensures
        r is None <==> !has_eligible(giver_id, unmatched_receivers@),
        r matches Some((i, s)) ==> is_best_receiver(
            last_match_map@,
            giver_id,
            unmatched_receivers@,
            i as int,
        ) && s == days_since(last_match_map@, giver_id, unmatched_receivers@[i as int].id),
{
    let ghost m = last_match_map@;
    let ghost rs = unmatched_receivers@;
    let mut best: Option<(usize, i64)> = None;
    let mut i: usize = 0;
    while i < unmatched_receivers.len()
        invariant
            i <= rs.len(),
            rs == unmatched_receivers@,
            m == last_match_map@,
            best is None <==> forall|j: int| 0 <= j < i ==> rs[j].id == giver_id,
            best matches Some((b, s)) ==> {
                &&& b < i
                &&& rs[b as int].id != giver_id
                &&& s == days_since(m, giver_id, rs[b as int].id)
                &&& forall|j: int|
                    0 <= j < b && rs[j].id != giver_id ==> days_since(m, giver_id, rs[j].id) < s
                &&& forall|j: int|
                    b < j < i && rs[j].id != giver_id ==> days_since(m, giver_id, rs[j].id) <= s
            },
        decreases rs.len() - i,
    {
        let receiver_id = unmatched_receivers[i].id;
        if receiver_id != giver_id {
            let score = get_days_since_last_match(last_match_map, giver_id, receiver_id);
            match best {
                None => {
                    best = Some((i, score));
                },
                Some((_, best_score)) => {
                    if best_score < score {
                        best = Some((i, score));
                    }
                },
            }
        }
        i = i + 1;
    }
    best
}

pub fn create_match(giver: MatchParticipant, receiver: MatchParticipant, score: i64) -> (r: Match)
    ensures
        r == match_of(giver, receiver, score),
{
    Match { giver, receiver, score }
}

/// Runs the greedy matcher on givers and receivers in the order given.
pub fn get_matches(
    last_match_map: &LastMatchMap,
    unmatched_givers: Vec<MatchParticipant>,
    unmatched_receivers: Vec<MatchParticipant>,
) -> (r: Option<Vec<Match>>)
    ensures
        r matches Some(ms) ==> greedy_matches(last_match_map@, unmatched_givers@, unmatched_receivers@)
            == Some(ms@),
        r is None ==> greedy_matches(last_match_map@, unmatched_givers@, unmatched_receivers@) is None,
        r matches Some(ms) ==> forall|k: int|
            0 <= k < ms@.len() ==> #[trigger] ms@[k].giver.id != ms@[k].receiver.id,
        r matches Some(ms) ==> {
            &&& ms@.len() == unmatched_givers@.len()
            &&& givers_of(ms@).to_multiset() == unmatched_givers@.to_multiset()
            &&& receivers_of(ms@).to_multiset().subset_of(unmatched_receivers@.to_multiset())
            &&& unmatched_givers@.len() == unmatched_receivers@.len() ==> receivers_of(
                ms@,
            ).to_multiset() == unmatched_receivers@.to_multiset()
        },
{
    let ghost m = last_match_map@;
    let ghost gs0 = unmatched_givers@;
    let ghost rs0 = unmatched_receivers@;
    let mut givers = unmatched_givers;
    let mut receivers = unmatched_receivers;
    let mut matches: Vec<Match> = Vec::new();
    while givers.len() > 0
        invariant
            m == last_match_map@,
            gs0 == unmatched_givers@,
            rs0 == unmatched_receivers@,
            greedy_matches(m, gs0, rs0) == (match greedy_matches(m, givers@, receivers@) {
                Some(rest) => Some(matches@ + rest),
                None => None::<Seq<Match>>,
            }),
            forall|k: int|
                0 <= k < matches@.len() ==> #[trigger] matches@[k].giver.id
                    != matches@[k].receiver.id,
        decreases givers.len(),
    {
        let giver_id = givers[0].id;
        match get_optimal_receiver_index_and_score(last_match_map, giver_id, &receivers) {
            Some((index, score)) => {
                proof {
                    lemma_best_receiver_unique(
                        m,
                        giver_id,
                        receivers@,
                        index as int,
                        best_receiver(m, giver_id, receivers@),
                    );
                }
                let ghost gs = givers@;
                let ghost rs = receivers@;
                let giver = givers.swap_remove(0);
                let receiver = receivers.swap_remove(index);
                let new_match = create_match(giver, receiver, score);
                proof {
                    match greedy_matches(m, givers@, receivers@) {
                        Some(rest) => {
                            assert(matches@.push(new_match) + rest =~= matches@ + (seq![new_match]
                                + rest));
                        },
                        None => {},
                    }
                }
                matches.push(new_match);
            },
            None => {
                assert(greedy_matches(m, givers@, receivers@) is None);
                assert(greedy_matches(m, gs0, rs0) is None);
                return None;
            },
        }
    }
    proof {
        assert(matches@ + Seq::<Match>::empty() =~= matches@);
        lemma_greedy_matches_cover(m, gs0, rs0);
    }
    Some(matches)
}


/// The givers of `ms`, in order.
pub open spec fn givers_of(ms: Seq<Match>) -> Seq<MatchParticipant> {
    ms.map_values(|x: Match| x.giver)
}

/// The receivers of `ms`, in order.
pub open spec fn receivers_of(ms: Seq<Match>) -> Seq<MatchParticipant> {
    ms.map_values(|x: Match| x.receiver)
}

/// The ids of `ps`, in order.
pub open spec fn ids_of(ps: Seq<MatchParticipant>) -> Seq<u32> {
    ps.map_values(|p: MatchParticipant| p.id)
}

proof fn lemma_swap_removed_multiset<A>(s: Seq<A>, i: int)
    requires
        0 <= i < s.len(),
    ensures
        swap_removed(s, i).len() == s.len() - 1,
        swap_removed(s, i).to_multiset() == s.to_multiset().remove(s[i]),
{
    broadcast use vstd::seq_lib::group_to_multiset_ensures;
    broadcast use vstd::multiset::group_multiset_axioms;

    let d = s.drop_last();
    assert(s =~= d.push(s.last()));
    if i == s.len() - 1 {
        assert(swap_removed(s, i) =~= d);
        assert(d.to_multiset() =~= d.to_multiset().insert(s.last()).remove(s.last()));
    } else {
        assert(swap_removed(s, i) =~= d.update(i, s.last()));
        assert(d[i] == s[i]);
    }
}

proof fn lemma_cons_multiset<A>(a: A, rest: Seq<A>)
    ensures
        (seq![a] + rest).to_multiset() == rest.to_multiset().insert(a),
{
    broadcast use vstd::seq_lib::group_to_multiset_ensures;
    broadcast use vstd::multiset::group_multiset_axioms;

    assert(seq![a] + rest =~= rest.insert(0, a));
}

/// Sequences that are permutations of each other stay so under any map.
pub(crate) proof fn lemma_to_multiset_map<A, B>(a: Seq<A>, b: Seq<A>, f: spec_fn(A) -> B)
    requires
        a.to_multiset() == b.to_multiset(),
    ensures
        a.map_values(f).to_multiset() == b.map_values(f).to_multiset(),
    decreases a.len(),
{
    broadcast use vstd::seq_lib::group_to_multiset_ensures;
    broadcast use vstd::multiset::group_multiset_axioms;

    if a.len() == 0 {
        vstd::seq_lib::to_multiset_len(a);
        vstd::seq_lib::to_multiset_len(b);
        assert(b.len() == 0);
        assert(a.map_values(f) =~= Seq::<B>::empty());
        assert(b.map_values(f) =~= Seq::<B>::empty());
    } else {
        let x = a.last();
        let d = a.drop_last();
        assert(a =~= d.push(x));
        assert(a.to_multiset().count(x) > 0);
        assert(b.contains(x));
        let j = b.index_of(x);
        let b2 = b.remove(j);
        assert(d.to_multiset() =~= b2.to_multiset());
        lemma_to_multiset_map(d, b2, f);
        assert(a.map_values(f) =~= d.map_values(f).push(f(x)));
        assert(b.map_values(f).remove(j) =~= b2.map_values(f));
        assert(b.map_values(f).to_multiset().count(f(x)) > 0) by {
            assert(b.map_values(f)[j] == f(x));
        }
        assert(b.map_values(f).to_multiset() =~= b2.map_values(f).to_multiset().insert(f(x)));
    }
}

/// A greedy matching pairs no participant with itself, has one match per
/// giver, holds each giver once, and, where there are as many receivers as
/// givers, each receiver once.
pub proof fn lemma_greedy_matches_cover(
    m: Map<(u32, u32), i64>,
    gs: Seq<MatchParticipant>,
    rs: Seq<MatchParticipant>,
)
    requires
        greedy_matches(m, gs, rs) is Some,
    ensures
        ({
            let ms = greedy_matches(m, gs, rs)->0;
            &&& ms.len() == gs.len()
            &&& forall|k: int| 0 <= k < ms.len() ==> #[trigger] ms[k].giver.id != ms[k].receiver.id
            &&& givers_of(ms).to_multiset() == gs.to_multiset()
            &&& receivers_of(ms).to_multiset().subset_of(rs.to_multiset())
            &&& gs.len() == rs.len() ==> receivers_of(ms).to_multiset() == rs.to_multiset()
        }),
    decreases gs.len(),
{
    broadcast use vstd::multiset::group_multiset_axioms;

    let ms = greedy_matches(m, gs, rs)->0;
    if gs.len() == 0 {
        assert(givers_of(ms) =~= gs);
        assert(receivers_of(ms) =~= Seq::<MatchParticipant>::empty());
        vstd::seq_lib::to_multiset_len(receivers_of(ms));
        vstd::multiset::lemma_multiset_empty_len(receivers_of(ms).to_multiset());
        assert(receivers_of(ms).to_multiset().subset_of(rs.to_multiset()));
        if rs.len() == 0 {
            assert(receivers_of(ms) =~= rs);
        }
    } else {
        let i = best_receiver(m, gs[0].id, rs);
        let j = choose|j: int| 0 <= j < rs.len() && rs[j].id != gs[0].id;
        assert(is_best_receiver(m, gs[0].id, rs, i)) by {
            lemma_best_receiver_exists(m, gs[0].id, rs, j);
        }
        let gs2 = swap_removed(gs, 0);
        let rs2 = swap_removed(rs, i);
        lemma_greedy_matches_cover(m, gs2, rs2);
        let rest = greedy_matches(m, gs2, rs2)->0;
        let head = match_of(gs[0], rs[i], days_since(m, gs[0].id, rs[i].id));
        assert(ms == seq![head] + rest);
        lemma_swap_removed_multiset(gs, 0);
        lemma_swap_removed_multiset(rs, i);
        assert(givers_of(ms) =~= seq![gs[0]] + givers_of(rest));
        assert(receivers_of(ms) =~= seq![rs[i]] + receivers_of(rest));
        lemma_cons_multiset(gs[0], givers_of(rest));
        lemma_cons_multiset(rs[i], receivers_of(rest));
        assert(gs.to_multiset().count(gs[0]) > 0) by {
            broadcast use vstd::seq_lib::group_to_multiset_ensures;
            assert(gs.contains(gs[0]));
        }
        assert(rs.to_multiset().count(rs[i]) > 0) by {
            broadcast use vstd::seq_lib::group_to_multiset_ensures;
            assert(rs.contains(rs[i]));
        }
        assert(givers_of(ms).to_multiset() =~= gs.to_multiset());
        assert(receivers_of(ms).to_multiset().subset_of(rs.to_multiset()));
        if gs.len() == rs.len() {
            assert(receivers_of(ms).to_multiset() =~= rs.to_multiset());
        }
        assert forall|k: int| 0 <= k < ms.len() implies #[trigger] ms[k].giver.id
            != ms[k].receiver.id by {
            if k > 0 {
                assert(ms[k] == rest[k - 1]);
            }
        }
    }
}

proof fn lemma_best_receiver_exists(
    m: Map<(u32, u32), i64>,
    giver_id: u32,
    rs: Seq<MatchParticipant>,
    j: int,
)
    requires
        0 <= j < rs.len(),
        rs[j].id != giver_id,
    ensures
        exists|i: int| is_best_receiver(m, giver_id, rs, i),
    decreases rs.len(),
{
    let r = rs.drop_last();
    let last = rs.len() - 1;
    let s_last = days_since(m, giver_id, rs[last].id);
    if !has_eligible(giver_id, r) {
        assert forall|k: int| 0 <= k < last implies rs[k].id == giver_id by {
            assert(r[k] == rs[k]);
        }
        assert(is_best_receiver(m, giver_id, rs, last));
    } else {
        let j2 = choose|k: int| 0 <= k < r.len() && r[k].id != giver_id;
        lemma_best_receiver_exists(m, giver_id, r, j2);
        let b = choose|i: int| is_best_receiver(m, giver_id, r, i);
        assert(r[b] == rs[b]);
        let s_b = days_since(m, giver_id, rs[b].id);
        if rs[last].id != giver_id && s_b < s_last {
            assert forall|k: int| 0 <= k < last && rs[k].id != giver_id implies days_since(
                m,
                giver_id,
                rs[k].id,
            ) < s_last by {
                assert(r[k] == rs[k]);
            }
            assert(is_best_receiver(m, giver_id, rs, last));
        } else {
            assert forall|k: int| 0 <= k < b && rs[k].id != giver_id implies days_since(
                m,
                giver_id,
                rs[k].id,
            ) < s_b by {
                assert(r[k] == rs[k]);
            }
            assert forall|k: int| b < k < rs.len() && rs[k].id != giver_id implies days_since(
                m,
                giver_id,
                rs[k].id,
            ) <= s_b by {
                if k < last {
                    assert(r[k] == rs[k]);
                }
            }
            assert(is_best_receiver(m, giver_id, rs, b));
        }
    }
}

/// Coverage: a greedy matching found for shuffled copies of a group's
/// participants, all with distinct ids, has one match per participant, and
/// each participant id occurs exactly once among its givers and exactly once
/// among its receivers, and no other id occurs there.
pub proof fn lemma_group_coverage(
    m: Map<(u32, u32), i64>,
    participants: Seq<MatchParticipant>,
    givers: Seq<MatchParticipant>,
    receivers: Seq<MatchParticipant>,
)
    requires
        ids_of(participants).no_duplicates(),
        givers.to_multiset() == participants.to_multiset(),
        receivers.to_multiset() == participants.to_multiset(),
        greedy_matches(m, givers, receivers) is Some,
    ensures
        ({
            let ms = greedy_matches(m, givers, receivers)->0;
            &&& ms.len() == participants.len()
            &&& forall|id: u32| #[trigger]
                ids_of(givers_of(ms)).to_multiset().count(id) == (if ids_of(participants).contains(
                    id,
                ) {
                    1nat
                } else {
                    0nat
                })
            &&& forall|id: u32| #[trigger]
                ids_of(receivers_of(ms)).to_multiset().count(id) == (if ids_of(
                    participants,
                ).contains(id) {
                    1nat
                } else {
                    0nat
                })
        }),
{
    broadcast use vstd::seq_lib::group_to_multiset_ensures;

    let ms = greedy_matches(m, givers, receivers)->0;
    vstd::seq_lib::to_multiset_len(givers);
    vstd::seq_lib::to_multiset_len(receivers);
    vstd::seq_lib::to_multiset_len(participants);
    lemma_greedy_matches_cover(m, givers, receivers);
    let f = |p: MatchParticipant| p.id;
    lemma_to_multiset_map(givers_of(ms), participants, f);
    lemma_to_multiset_map(receivers_of(ms), participants, f);
    ids_of(participants).lemma_multiset_has_no_duplicates();
}

} // verus!
