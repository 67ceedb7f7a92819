//! Matching groups: who may give and who may receive in one group.
use vstd::prelude::*;

use crate::complete_givers::{
    complete_givers_map, get_complete_givers_per_group, lemma_complete_givers_map_domain,
};
use crate::error::MatchingError;
use crate::last_match_map::LastMatchMap;
use crate::matcher::ids_of;
use crate::participant::{
    map_participants_to_match_participants, projected_all, MatchParticipant, Participant,
};
use crate::participants_file::ParticipantsFile;

verus! {

broadcast use vstd::std_specs::hash::group_hash_axioms;

/// The givers and receivers that are matched together.
#[derive(Clone, Debug)]
pub struct MatchingGroup {
    pub id: i32,
    pub givers: Vec<MatchParticipant>,
    pub receivers: Vec<MatchParticipant>,
}

/// A copy of `v`, element for element.
pub fn duplicate_participants(v: &Vec<MatchParticipant>) -> (r: Vec<MatchParticipant>)
    ensures
        r@ == v@,
{
    let mut out: Vec<MatchParticipant> = Vec::new();
    let mut i: usize = 0;
    while i < v.len()
        invariant
            i <= v.len(),
            out@ == v@.take(i as int),
        decreases v.len() - i,
    {
        out.push(v[i].duplicate());
        proof {
            assert(v@.take(i + 1) =~= v@.take(i as int).push(v@[i as int]));
        }
        i = i + 1;
    }
    proof {
        assert(v@.take(i as int) =~= v@);
    }
    out
}


/// Whether a giver stays in its group, that is, is not one of `leaving`.
pub open spec fn stays(leaving: Seq<MatchParticipant>) -> spec_fn(MatchParticipant) -> bool {
    |g: MatchParticipant| !ids_of(leaving).contains(g.id)
}

/// The givers of a group after the swap: its own participants but those
/// leaving, followed by those arriving from the other group.
pub open spec fn givers_after_swap(
    own: Seq<MatchParticipant>,
    leaving: Seq<MatchParticipant>,
    arriving: Seq<MatchParticipant>,
) -> Seq<MatchParticipant> {
    own.filter(stays(leaving)) + arriving
}

/// How many complete givers each of two groups hands to the other.
pub open spec fn swap_count(first: Seq<Participant>, second: Seq<Participant>) -> int {
    if first.len() <= second.len() {
        first.len() as int
    } else {
        second.len() as int
    }
}

/// The complete givers that group `k` of `groups` hands to the other group.
pub open spec fn leaving_givers(
    groups: Seq<crate::participants_file::ParticipantsGroup>,
    m: Map<(u32, u32), i64>,
    k: int,
) -> Seq<MatchParticipant> {
    let complete = complete_givers_map(groups, m);
    let n = swap_count(complete[groups[0].id], complete[groups[1].id]);
    projected_all(complete[groups[k].id].take(n), groups[k].id)
}

/// Whether a roster of `groups` can be matched: at most two groups, and
/// exactly two for a cross-team round.
pub open spec fn groups_accepted(
    groups: Seq<crate::participants_file::ParticipantsGroup>,
    cross_team_round: bool,
) -> bool {
    groups.len() <= 2 && (!cross_team_round || groups.len() == 2)
}

/// Why a roster of `groups` that cannot be matched is refused.
pub open spec fn rejection(groups: Seq<crate::participants_file::ParticipantsGroup>) -> MatchingError {
    if groups.len() > 2 {
        MatchingError::TooManyGroups
    } else {
        MatchingError::CrossTeamNeedsTwoGroups
    }
}

/// The receivers of group `k`: its participants.
pub open spec fn planned_receivers(
    groups: Seq<crate::participants_file::ParticipantsGroup>,
    k: int,
) -> Seq<MatchParticipant> {
    projected_all(groups[k].participants@, groups[k].id)
}

/// The givers of group `k`: its participants, after the swap of complete
/// givers in a cross-team round.
pub open spec fn planned_givers(
    groups: Seq<crate::participants_file::ParticipantsGroup>,
    cross_team_round: bool,
    m: Map<(u32, u32), i64>,
    k: int,
) -> Seq<MatchParticipant> {
    if cross_team_round {
        givers_after_swap(
            planned_receivers(groups, k),
            leaving_givers(groups, m, k),
            leaving_givers(groups, m, 1 - k),
        )
    } else {
        planned_receivers(groups, k)
    }
}

fn contains_id(v: &Vec<MatchParticipant>, id: u32) -> (r: bool)
    ensures
        r == ids_of(v@).contains(id),
{
    let mut i: usize = 0;
    while i < v.len()
        invariant
            i <= v.len(),
            forall|k: int| 0 <= k < i ==> v@[k].id != id,
        decreases v.len() - i,
    {
        if v[i].id == id {
            proof {
                assert(ids_of(v@)[i as int] == id);
            }
            return true;
        }
        i = i + 1;
    }
    proof {
        if ids_of(v@).contains(id) {
            let k = choose|k: int| 0 <= k < ids_of(v@).len() && ids_of(v@)[k] == id;
            assert(v@[k].id == id);
        }
    }
    false
}

/// `own` without those of `leaving`, followed by `arriving`.
fn swap_givers(
    own: &Vec<MatchParticipant>,
    leaving: &Vec<MatchParticipant>,
    arriving: &Vec<MatchParticipant>,
) -> (r: Vec<MatchParticipant>)
    ensures
        r@ == givers_after_swap(own@, leaving@, arriving@),
{
    let ghost pred = stays(leaving@);
    let mut out: Vec<MatchParticipant> = Vec::new();
    let mut i: usize = 0;
    while i < own.len()
        invariant
            i <= own.len(),
            pred == stays(leaving@),
            out@ == own@.take(i as int).filter(pred),
        decreases own.len() - i,
    {
        let leaves = contains_id(leaving, own[i].id);
        if !leaves {
            out.push(own[i].duplicate());
        }
        proof {
            reveal(Seq::filter);
            assert(own@.take(i + 1).drop_last() =~= own@.take(i as int));
            assert(own@.take(i + 1).last() == own@[i as int]);
            assert(pred(own@[i as int]) == !leaves);
        }
        i = i + 1;
    }
    proof {
        assert(own@.take(i as int) =~= own@);
    }
    let mut j: usize = 0;
    let ghost kept = out@;
    while j < arriving.len()
        invariant
            j <= arriving.len(),
            out@ == kept + arriving@.take(j as int),
        decreases arriving.len() - j,
    {
        out.push(arriving[j].duplicate());
        proof {
            assert(kept + arriving@.take(j + 1) =~= (kept + arriving@.take(j as int)).push(
                arriving@[j as int],
            ));
        }
        j = j + 1;
    }
    proof {
        assert(arriving@.take(j as int) =~= arriving@);
    }
    out
}

/// Splits the roster into matching groups. Each group's participants are its
/// receivers; they are its givers too, but in a cross-team round, where the
/// two groups swap as many of their complete givers, first ones first, as the
/// smaller of the two lists of complete givers holds.
pub fn get_groups(
    participants_file: &ParticipantsFile,
    cross_team_round: bool,
    last_match_map: &LastMatchMap,
) -> (r: Result<Vec<MatchingGroup>, MatchingError>)
    ensures
        r is Ok <==> groups_accepted(participants_file.groups@, cross_team_round),
        r is Err ==> r->Err_0 == rejection(participants_file.groups@),
        r matches Ok(gs) ==> {
            let groups = participants_file.groups@;
            &&& gs@.len() == groups.len()
            &&& forall|k: int|
                0 <= k < groups.len() ==> {
                    &&& (#[trigger] gs@[k]).id == groups[k].id
                    &&& gs@[k].receivers@ == planned_receivers(groups, k)
                    &&& gs@[k].givers@ == planned_givers(
                        groups,
                        cross_team_round,
                        last_match_map@,
                        k,
                    )
                }
        },
{
    let groups = &participants_file.groups;
    if groups.len() > 2 {
        return Err(MatchingError::TooManyGroups);
    }
    if cross_team_round && groups.len() != 2 {
        return Err(MatchingError::CrossTeamNeedsTwoGroups);
    }
    let mut matching_groups: Vec<MatchingGroup> = Vec::new();
    let mut i: usize = 0;
    while i < groups.len()
        invariant
            i <= groups.len(),
            matching_groups@.len() == i,
            forall|k: int|
                0 <= k < i ==> (#[trigger] matching_groups@[k]).id == groups@[k].id
                    && matching_groups@[k].receivers@ == projected_all(
                    groups@[k].participants@,
                    groups@[k].id,
                ) && matching_groups@[k].givers@ == matching_groups@[k].receivers@,
        decreases groups.len() - i,
    {
        let group = &groups[i];
        matching_groups.push(
            MatchingGroup {
                id: group.id,
                givers: map_participants_to_match_participants(&group.participants, group.id),
                receivers: map_participants_to_match_participants(&group.participants, group.id),
            },
        );
        i = i + 1;
    }
    if !cross_team_round {
        return Ok(matching_groups);
    }
    let complete = get_complete_givers_per_group(groups, last_match_map);
    proof {
        lemma_complete_givers_map_domain(groups@, last_match_map@);
        assert(groups@[0].id == groups[0].id);
    }
    let id_1 = groups[0].id;
    let id_2 = groups[1].id;
    let complete_1 = complete.get(&id_1).unwrap();
    let complete_2 = complete.get(&id_2).unwrap();
    let n: usize = if complete_1.len() <= complete_2.len() {
        complete_1.len()
    } else {
        complete_2.len()
    };
    let first_1 = map_participants_to_match_participants(&first_participants(complete_1, n), id_1);
    let first_2 = map_participants_to_match_participants(&first_participants(complete_2, n), id_2);
    let givers_1 = swap_givers(&matching_groups[0].receivers, &first_1, &first_2);
    let givers_2 = swap_givers(&matching_groups[1].receivers, &first_2, &first_1);
    let group_1 = MatchingGroup {
        id: id_1,
        givers: givers_1,
        receivers: duplicate_participants(&matching_groups[0].receivers),
    };
    let group_2 = MatchingGroup {
        id: id_2,
        givers: givers_2,
        receivers: duplicate_participants(&matching_groups[1].receivers),
    };
    let mut swapped: Vec<MatchingGroup> = Vec::new();
    swapped.push(group_1);
    swapped.push(group_2);
    Ok(swapped)
}

/// The first `n` participants of `v`.
fn first_participants(v: &Vec<Participant>, n: usize) -> (r: Vec<Participant>)
    requires
        n <= v@.len(),
    ensures
        r@ == v@.take(n as int),
{
    let mut out: Vec<Participant> = Vec::new();
    let mut i: usize = 0;
    while i < n
        invariant
            i <= n <= v@.len(),
            out@ == v@.take(i as int),
        decreases n - i,
    {
        out.push(v[i].duplicate());
        proof {
            assert(v@.take(i + 1) =~= v@.take(i as int).push(v@[i as int]));
        }
        i = i + 1;
    }
    out
}


/// The ids of `ps`, in order.
pub open spec fn participant_ids(ps: Seq<Participant>) -> Seq<u32> {
    ps.map_values(|p: Participant| p.id)
}

/// Whether a giver's id is not one of `ids`.
pub open spec fn outside(ids: Set<u32>) -> spec_fn(MatchParticipant) -> bool {
    |g: MatchParticipant| !ids.contains(g.id)
}

proof fn lemma_filter_ext<A>(s: Seq<A>, p: spec_fn(A) -> bool, q: spec_fn(A) -> bool)
    requires
        forall|i: int| 0 <= i < s.len() ==> p(#[trigger] s[i]) == q(s[i]),
    ensures
        s.filter(p) == s.filter(q),
    decreases s.len(),
{
    reveal(Seq::filter);
    if s.len() > 0 {
        let d = s.drop_last();
        assert forall|i: int| 0 <= i < d.len() implies p(#[trigger] d[i]) == q(d[i]) by {
            assert(d[i] == s[i]);
        }
        lemma_filter_ext(d, p, q);
        assert(s.last() == s[s.len() - 1]);
    }
}

proof fn lemma_filter_keeps_distinct<A>(s: Seq<A>, p: spec_fn(A) -> bool, f: spec_fn(A) -> u32)
    requires
        s.map_values(f).no_duplicates(),
    ensures
        s.filter(p).map_values(f).no_duplicates(),
    decreases s.len(),
{
    reveal(Seq::filter);
    if s.len() > 0 {
        let d = s.drop_last();
        assert(d.map_values(f) =~= s.map_values(f).drop_last());
        lemma_filter_keeps_distinct(d, p, f);
        let fd = d.filter(p);
        if p(s.last()) {
            assert(s.filter(p) == fd.push(s.last()));
            assert(fd.push(s.last()).map_values(f) =~= fd.map_values(f).push(f(s.last())));
            assert forall|i: int| 0 <= i < fd.len() implies f(#[trigger] fd[i]) != f(s.last()) by {
                d.lemma_filter_contains_rev(p, fd[i]);
                let j = d.index_of(fd[i]);
                assert(s.map_values(f)[j] == f(fd[i]));
                assert(s.map_values(f)[s.len() - 1] == f(s.last()));
            }
            let ids = fd.map_values(f).push(f(s.last()));
            assert forall|i: int, j: int| 0 <= i < j < ids.len() implies #[trigger] ids[i]
                != #[trigger] ids[j] by {
                if j == fd.map_values(f).len() {
                    assert(f(fd[i]) != f(s.last()));
                }
            }
        }
    }
}

proof fn lemma_filter_out_ids(s: Seq<MatchParticipant>, ids: Set<u32>)
    requires
        ids_of(s).no_duplicates(),
        ids.finite(),
        forall|x: u32| ids.contains(x) ==> ids_of(s).contains(x),
    ensures
        s.filter(outside(ids)).len() == s.len() - ids.len(),
    decreases s.len(),
{
    reveal(Seq::filter);
    if s.len() == 0 {
        assert(ids =~= Set::<u32>::empty());
    } else {
        let d = s.drop_last();
        let x = s.last().id;
        assert(ids_of(d) =~= ids_of(s).drop_last());
        assert(ids_of(s)[s.len() - 1] == x);
        assert forall|i: int| 0 <= i < d.len() implies (#[trigger] d[i]).id != x by {
            assert(ids_of(s)[i] == d[i].id);
        }
        if ids.contains(x) {
            let ids2 = ids.remove(x);
            assert forall|y: u32| ids2.contains(y) implies ids_of(d).contains(y) by {
                let k = ids_of(s).index_of(y);
                assert(k != s.len() - 1);
                assert(ids_of(d)[k] == y);
            }
            lemma_filter_out_ids(d, ids2);
            lemma_filter_ext(d, outside(ids), outside(ids2));
        } else {
            assert forall|y: u32| ids.contains(y) implies ids_of(d).contains(y) by {
                let k = ids_of(s).index_of(y);
                assert(k != s.len() - 1);
                assert(ids_of(d)[k] == y);
            }
            lemma_filter_out_ids(d, ids);
        }
    }
}

proof fn lemma_swap_side(
    participants: Seq<Participant>,
    group_id: i32,
    complete: Seq<Participant>,
    n: int,
    arriving: Seq<MatchParticipant>,
    m: Map<(u32, u32), i64>,
)
    requires
        participant_ids(participants).no_duplicates(),
        complete == crate::complete_givers::complete_givers_of(m, participants),
        0 <= n <= complete.len(),
    ensures
        projected_all(complete.take(n), group_id).len() == n,
        givers_after_swap(
            projected_all(participants, group_id),
            projected_all(complete.take(n), group_id),
            arriving,
        ).len() == participants.len() - n + arriving.len(),
        ids_of(projected_all(participants, group_id)).no_duplicates(),
        ids_of(projected_all(complete.take(n), group_id)).no_duplicates(),
        forall|x: u32|
            ids_of(projected_all(complete.take(n), group_id)).contains(x) ==> ids_of(
                projected_all(participants, group_id),
            ).contains(x),
{
    let own = projected_all(participants, group_id);
    let leaving = projected_all(complete.take(n), group_id);
    assert(ids_of(own) =~= participant_ids(participants));
    assert(ids_of(leaving) =~= participant_ids(complete.take(n)));
    let id_of = |p: Participant| p.id;
    assert(participants.map_values(id_of) =~= participant_ids(participants));
    lemma_filter_keeps_distinct(
        participants,
        crate::complete_givers::is_complete_giver(m, participants),
        id_of,
    );
    assert(complete.map_values(id_of) =~= participant_ids(complete));
    assert(participant_ids(complete.take(n)) =~= participant_ids(complete).take(n));
    let ids = ids_of(leaving).to_set();
    ids_of(leaving).unique_seq_to_set();
    vstd::seq_lib::seq_to_set_is_finite(ids_of(leaving));
    assert forall|y: u32| ids.contains(y) implies ids_of(own).contains(y) by {
        let i = ids_of(leaving).index_of(y);
        let q = complete[i];
        participants.lemma_filter_contains_rev(
            crate::complete_givers::is_complete_giver(m, participants),
            q,
        );
        let j = participants.index_of(q);
        assert(ids_of(own)[j] == y);
    }
    lemma_filter_out_ids(own, ids);
    assert forall|x: u32| ids_of(leaving).contains(x) implies ids_of(own).contains(x) by {
        assert(ids.contains(x));
    }
    assert forall|i: int| 0 <= i < own.len() implies stays(leaving)(#[trigger] own[i]) == outside(
        ids,
    )(own[i]) by {}
    lemma_filter_ext(own, stays(leaving), outside(ids));
}

/// Cross-team swap bound: where the two groups have different ids and each
/// holds participants with distinct ids, each group hands the other exactly
/// as many complete givers as the shorter of the two lists of complete givers
/// holds, and each ends with as many givers as it has participants.
pub proof fn lemma_cross_team_swap_bound(
    groups: Seq<crate::participants_file::ParticipantsGroup>,
    m: Map<(u32, u32), i64>,
)
    requires
        groups.len() == 2,
        groups[0].id != groups[1].id,
        participant_ids(groups[0].participants@).no_duplicates(),
        participant_ids(groups[1].participants@).no_duplicates(),
    ensures
        ({
            let n = swap_count(
                crate::complete_givers::complete_givers_of(m, groups[0].participants@),
                crate::complete_givers::complete_givers_of(m, groups[1].participants@),
            );
            &&& leaving_givers(groups, m, 0).len() == n
            &&& leaving_givers(groups, m, 1).len() == n
        }),
        planned_givers(groups, true, m, 0).len() == groups[0].participants@.len(),
        planned_givers(groups, true, m, 1).len() == groups[1].participants@.len(),
        forall|k: int|
            0 <= k < 2 ==> {
                &&& ids_of(planned_receivers(groups, k)).no_duplicates()
                &&& ids_of(#[trigger] leaving_givers(groups, m, k)).no_duplicates()
                &&& forall|x: u32|
                    ids_of(leaving_givers(groups, m, k)).contains(x) ==> ids_of(
                        planned_receivers(groups, k),
                    ).contains(x)
            },
{
    let c0 = crate::complete_givers::complete_givers_of(m, groups[0].participants@);
    let c1 = crate::complete_givers::complete_givers_of(m, groups[1].participants@);
    let first = groups.drop_last();
    assert(first.drop_last().len() == 0);
    assert(first.last() == groups[0]);
    assert(groups.last() == groups[1]);
    let complete = complete_givers_map(groups, m);
    assert(complete_givers_map(first.drop_last(), m) == Map::<i32, Seq<Participant>>::empty());
    assert(complete_givers_map(first, m) == Map::<i32, Seq<Participant>>::empty().insert(
        groups[0].id,
        c0,
    ));
    assert(complete == complete_givers_map(first, m).insert(groups[1].id, c1));
    assert(complete[groups[0].id] == c0);
    assert(complete[groups[1].id] == c1);
    let n = swap_count(c0, c1);
    lemma_swap_side(
        groups[0].participants@,
        groups[0].id,
        c0,
        n,
        leaving_givers(groups, m, 1),
        m,
    );
    lemma_swap_side(
        groups[1].participants@,
        groups[1].id,
        c1,
        n,
        leaving_givers(groups, m, 0),
        m,
    );
}


proof fn lemma_complete_givers_of_empty_groups(
    groups: Seq<crate::participants_file::ParticipantsGroup>,
    m: Map<(u32, u32), i64>,
)
    requires
        forall|k: int| 0 <= k < groups.len() ==> (#[trigger] groups[k]).participants@.len() == 0,
    ensures
        forall|id: i32| #[trigger]
            complete_givers_map(groups, m).contains_key(id) ==> complete_givers_map(
                groups,
                m,
            )[id].len() == 0,
    decreases groups.len(),
{
    reveal(Seq::filter);
    if groups.len() > 0 {
        let prev = groups.drop_last();
        assert forall|k: int| 0 <= k < prev.len() implies (#[trigger] prev[k]).participants@.len()
            == 0 by {
            assert(prev[k] == groups[k]);
        }
        lemma_complete_givers_of_empty_groups(prev, m);
        assert(groups.last() == groups[groups.len() - 1]);
        let ps = groups.last().participants@;
        assert(ps.len() == 0);
        assert(ps.filter(crate::complete_givers::is_complete_giver(m, ps)).len() == 0);
        let map = complete_givers_map(groups, m);
        assert(map == complete_givers_map(prev, m).insert(
            groups.last().id,
            crate::complete_givers::complete_givers_of(m, ps),
        ));
        assert forall|id: i32| #[trigger] map.contains_key(id) implies map[id].len() == 0 by {
            if id != groups.last().id {
                assert(complete_givers_map(prev, m).contains_key(id));
            }
        }
    }
}

/// A roster whose groups have no participants plans no givers and no
/// receivers for any group.
pub proof fn lemma_empty_groups_plan_nothing(
    groups: Seq<crate::participants_file::ParticipantsGroup>,
    cross_team_round: bool,
    m: Map<(u32, u32), i64>,
    k: int,
)
    requires
        groups_accepted(groups, cross_team_round),
        0 <= k < groups.len(),
        forall|j: int| 0 <= j < groups.len() ==> (#[trigger] groups[j]).participants@.len() == 0,
    ensures
        planned_givers(groups, cross_team_round, m, k) == Seq::<MatchParticipant>::empty(),
        planned_receivers(groups, k) == Seq::<MatchParticipant>::empty(),
{
    reveal(Seq::filter);
    assert(groups[k].participants@.len() == 0);
    assert(planned_receivers(groups, k) =~= Seq::<MatchParticipant>::empty());
    if cross_team_round {
        lemma_complete_givers_of_empty_groups(groups, m);
        lemma_complete_givers_map_domain(groups, m);
        assert(groups[0].participants@.len() == 0);
        assert(groups[1].participants@.len() == 0);
        let complete = complete_givers_map(groups, m);
        assert(complete.contains_key(groups[0].id));
        assert(complete[groups[0].id].len() == 0);
        assert(leaving_givers(groups, m, 1 - k) =~= Seq::<MatchParticipant>::empty());
        assert(planned_receivers(groups, k).filter(stays(leaving_givers(groups, m, k)))
            =~= Seq::<MatchParticipant>::empty());
    }
    assert(planned_givers(groups, cross_team_round, m, k) =~= Seq::<MatchParticipant>::empty());
}


pub open spec fn leaves(leaving: Seq<MatchParticipant>) -> spec_fn(MatchParticipant) -> bool {
    |g: MatchParticipant| ids_of(leaving).contains(g.id)
}

proof fn lemma_filter_partition_ids(s: Seq<MatchParticipant>, leaving: Seq<MatchParticipant>)
    ensures
        ids_of(s.filter(stays(leaving))).to_multiset().add(
            ids_of(s.filter(leaves(leaving))).to_multiset(),
        ) == ids_of(s).to_multiset(),
    decreases s.len(),
{
    reveal(Seq::filter);
    broadcast use vstd::seq_lib::group_to_multiset_ensures;
    broadcast use vstd::multiset::group_multiset_axioms;

    if s.len() == 0 {
        assert(ids_of(s) =~= Seq::<u32>::empty());
        assert(ids_of(s.filter(stays(leaving))) =~= Seq::<u32>::empty());
        assert(ids_of(s.filter(leaves(leaving))) =~= Seq::<u32>::empty());
        assert(ids_of(s).to_multiset().add(ids_of(s).to_multiset()) =~= ids_of(s).to_multiset());
    } else {
        let d = s.drop_last();
        lemma_filter_partition_ids(d, leaving);
        let x = s.last();
        assert(ids_of(s) =~= ids_of(d).push(x.id));
        assert(ids_of(d.filter(stays(leaving)).push(x)) =~= ids_of(d.filter(stays(leaving))).push(
            x.id,
        ));
        assert(ids_of(d.filter(leaves(leaving)).push(x)) =~= ids_of(d.filter(leaves(leaving))).push(
            x.id,
        ));
        assert(ids_of(s.filter(stays(leaving))).to_multiset().add(
            ids_of(s.filter(leaves(leaving))).to_multiset(),
        ) =~= ids_of(s).to_multiset());
    }
}

proof fn lemma_leaving_ids(own: Seq<MatchParticipant>, leaving: Seq<MatchParticipant>)
    requires
        ids_of(own).no_duplicates(),
        ids_of(leaving).no_duplicates(),
        forall|x: u32| ids_of(leaving).contains(x) ==> ids_of(own).contains(x),
    ensures
        ids_of(own.filter(leaves(leaving))).to_multiset() == ids_of(leaving).to_multiset(),
{
    broadcast use vstd::seq_lib::group_to_multiset_ensures;

    let f = own.filter(leaves(leaving));
    let id_of = |g: MatchParticipant| g.id;
    assert(own.map_values(id_of) =~= ids_of(own));
    lemma_filter_keeps_distinct(own, leaves(leaving), id_of);
    assert(f.map_values(id_of) =~= ids_of(f));
    own.filter_lemma(leaves(leaving));
    assert forall|x: u32| ids_of(f).contains(x) <==> ids_of(leaving).contains(x) by {
        if ids_of(f).contains(x) {
            let i = ids_of(f).index_of(x);
            assert(leaves(leaving)(f[i]));
        }
        if ids_of(leaving).contains(x) {
            let j = ids_of(own).index_of(x);
            assert(leaves(leaving)(own[j]));
            assert(f.contains(own[j]));
            let i = f.index_of(own[j]);
            assert(ids_of(f)[i] == x);
        }
    }
    ids_of(f).lemma_multiset_has_no_duplicates();
    ids_of(leaving).lemma_multiset_has_no_duplicates();
    assert(ids_of(f).to_multiset() =~= ids_of(leaving).to_multiset());
}

/// The givers of the two groups of a cross-team round, taken together, hold the
/// ids of all participants of both groups, each as often, where the groups
/// have different ids and each holds participants with distinct ids.
pub proof fn lemma_cross_team_givers_cover(
    groups: Seq<crate::participants_file::ParticipantsGroup>,
    m: Map<(u32, u32), i64>,
)
    requires
        groups.len() == 2,
        groups[0].id != groups[1].id,
        participant_ids(groups[0].participants@).no_duplicates(),
        participant_ids(groups[1].participants@).no_duplicates(),
    ensures
        planned_givers(groups, true, m, 0).len() == planned_receivers(groups, 0).len(),
        planned_givers(groups, true, m, 1).len() == planned_receivers(groups, 1).len(),
        ids_of(planned_givers(groups, true, m, 0)).to_multiset().add(
            ids_of(planned_givers(groups, true, m, 1)).to_multiset(),
        ) == ids_of(planned_receivers(groups, 0)).to_multiset().add(
            ids_of(planned_receivers(groups, 1)).to_multiset(),
        ),
{
    broadcast use vstd::seq_lib::lemma_multiset_commutative;
    broadcast use vstd::multiset::group_multiset_axioms;

    lemma_cross_team_swap_bound(groups, m);
    let p0 = planned_receivers(groups, 0);
    let p1 = planned_receivers(groups, 1);
    let l0 = leaving_givers(groups, m, 0);
    let l1 = leaving_givers(groups, m, 1);
    assert(ids_of(p0) =~= participant_ids(groups[0].participants@));
    assert(ids_of(p1) =~= participant_ids(groups[1].participants@));
    lemma_filter_partition_ids(p0, l0);
    lemma_filter_partition_ids(p1, l1);
    lemma_leaving_ids(p0, l0);
    lemma_leaving_ids(p1, l1);
    assert(ids_of(planned_givers(groups, true, m, 0)) =~= ids_of(p0.filter(stays(l0))) + ids_of(l1));
    assert(ids_of(planned_givers(groups, true, m, 1)) =~= ids_of(p1.filter(stays(l1))) + ids_of(l0));
    assert(ids_of(planned_givers(groups, true, m, 0)).to_multiset().add(
        ids_of(planned_givers(groups, true, m, 1)).to_multiset(),
    ) =~= ids_of(p0).to_multiset().add(ids_of(p1).to_multiset()));
}

} // verus!
