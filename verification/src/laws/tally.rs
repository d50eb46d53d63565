//! Laws of the tally: which vote of a unit stands, and what the count comes to.

use crate::accounts::Registry;
use crate::directory::DirectoryModel;
use crate::laws::lists::{lemma_filter_keeps, lemma_filter_distinct, lemma_keys_distinct};
use crate::laws::votes::{lemma_latest_votes_finite};
use crate::ordmap::{list_at, sorted_keys};
use crate::records::{Str, Vote};
use crate::seqs::lemma_filter_holds;
use crate::text::{lemma_lex_irreflexive, lemma_lex_total, lemma_lex_transitive, lex_lt};
use crate::votes::{latest_votes, units_for};
use vstd::prelude::*;

verus! {

/// Vote `j` puts vote `i` aside: it is of a later time, or of the same time and of a greater
/// id, or of the same time and id and came first.
pub open spec fn displaces(votes: Seq<Vote>, j: int, i: int) -> bool {
    ||| votes[j].created_ts > votes[i].created_ts
    ||| votes[j].created_ts == votes[i].created_ts && lex_lt(votes[i].id@, votes[j].id@)
    ||| votes[j].created_ts == votes[i].created_ts && votes[j].id@ == votes[i].id@ && j < i
}

/// Vote `i` is the one that stands for `unit`: it is signed, by a key of the unit, and no
/// signed vote of the unit puts it aside.
pub open spec fn stands_for(reg: Registry, votes: Seq<Vote>, i: int, unit: Str) -> bool {
    &&& 0 <= i < votes.len()
    &&& votes[i].signed
    &&& reg.unit_of(votes[i].voter@) == unit
    &&& forall|j: int|
        0 <= j < votes.len() && (#[trigger] votes[j]).signed && reg.unit_of(votes[j].voter@) == unit ==> !displaces(votes, j, i)
}

/// Of each unit that cast a signed vote one vote stands, and it is the one that is counted.
pub proof fn law_one_vote_stands(reg: Registry, votes: Seq<Vote>, unit: Str)
    ensures
        latest_votes(reg, votes).contains_key(unit) <==> exists|i: int|
            0 <= i < votes.len() && (#[trigger] votes[i]).signed && reg.unit_of(votes[i].voter@) == unit,
        latest_votes(reg, votes).contains_key(unit) ==> exists|i: int|
            stands_for(reg, votes, i, unit) && latest_votes(reg, votes)[unit] == #[trigger] votes[i],
        forall|i: int, j: int|
            #[trigger] stands_for(reg, votes, i, unit) && #[trigger] stands_for(reg, votes, j, unit) ==> i == j,
    decreases votes.len(),
{
    assert forall|i: int, j: int| #[trigger] stands_for(reg, votes, i, unit) && #[trigger] stands_for(reg, votes, j, unit)
        implies i == j by {
        lemma_lex_total(votes[i].id@, votes[j].id@);
        assert(votes[i].signed && votes[j].signed);
    }
    if votes.len() > 0 {
        let t = votes.drop_last();
        let n = votes.len() - 1;
        law_one_vote_stands(reg, t, unit);
        let m = latest_votes(reg, t);
        let w = latest_votes(reg, votes);
        let v = votes.last();
        let u = reg.unit_of(v.voter@);
        assert forall|i: int| 0 <= i < n implies #[trigger] t[i] == votes[i] by {}
        if exists|i: int| 0 <= i < votes.len() && (#[trigger] votes[i]).signed && reg.unit_of(votes[i].voter@) == unit {
            let i = choose|i: int|
                0 <= i < votes.len() && (#[trigger] votes[i]).signed && reg.unit_of(votes[i].voter@) == unit;
            if i < n {
                assert(t[i].signed);
            }
        }
        if m.contains_key(unit) {
            let i = choose|i: int| 0 <= i < t.len() && (#[trigger] t[i]).signed && reg.unit_of(t[i].voter@) == unit;
            assert(votes[i].signed);
        }
        if u == unit && v.signed {
            assert(votes[n].signed);
        }
        if w.contains_key(unit) {
            if m.contains_key(unit) {
                let i = choose|i: int| stands_for(reg, t, i, unit) && m[unit] == #[trigger] t[i];
                lemma_lex_total(votes[i].id@, v.id@);
                if v.signed && u == unit && w[unit] != m[unit] {
                    assert forall|j: int|
                        0 <= j < votes.len() && (#[trigger] votes[j]).signed && reg.unit_of(votes[j].voter@) == unit implies !displaces(
                        votes,
                        j,
                        n,
                    ) by {
                        lemma_lex_irreflexive(v.id@);
                        if j < n {
                            assert(t[j].signed);
                            assert(!displaces(t, j, i));
                            lemma_lex_total(votes[j].id@, votes[i].id@);
                            if lex_lt(v.id@, votes[j].id@) && lex_lt(votes[i].id@, v.id@) {
                                lemma_lex_transitive(votes[i].id@, v.id@, votes[j].id@);
                            }
                        }
                    }
                    assert(stands_for(reg, votes, n, unit));
                    assert(w[unit] == votes[n]);
                } else {
                    assert(w[unit] == m[unit]) by {
                        if v.signed && u == unit {
                        }
                    }
                    assert forall|j: int|
                        0 <= j < votes.len() && (#[trigger] votes[j]).signed && reg.unit_of(votes[j].voter@) == unit implies !displaces(
                        votes,
                        j,
                        i,
                    ) by {
                        if j < n {
                            assert(t[j].signed);
                            assert(!displaces(t, j, i));
                        } else {
                            if displaces(votes, n, i) {
                                assert(w[unit] == v);
                                lemma_lex_irreflexive(v.id@);
                            }
                        }
                    }
                    assert(stands_for(reg, votes, i, unit));
                    assert(w[unit] == votes[i]);
                }
            } else {
                assert(v.signed && u == unit);
                assert forall|j: int|
                    0 <= j < votes.len() && (#[trigger] votes[j]).signed && reg.unit_of(votes[j].voter@) == unit implies !displaces(
                    votes,
                    j,
                    n,
                ) by {
                    lemma_lex_irreflexive(v.id@);
                    if j < n {
                        assert(t[j].signed);
                    }
                }
                assert(stands_for(reg, votes, n, unit));
                assert(w[unit] == votes[n]);
            }
        }
    }
}

/// The unit's standing vote on the target is `value`.
pub open spec fn votes_so(d: DirectoryModel, target: Str, unit: Str, value: int) -> bool {
    exists|i: int|
        #[trigger] stands_for(d.accounts, list_at(d.catalog.votes, target), i, unit) && list_at(d.catalog.votes, target)[i].value
            == value
}

/// The units whose standing vote on the target is `value`.
pub open spec fn camp(d: DirectoryModel, target: Str, value: int) -> Set<Str> {
    Set::new(|u: Str| votes_so(d, target, u, value))
}

proof fn lemma_camp(d: DirectoryModel, target: Str, value: int)
    ensures
        units_for(d.standing_votes(target), value).to_set() == camp(d, target, value),
        camp(d, target, value).finite(),
        units_for(d.standing_votes(target), value).len() == camp(d, target, value).len(),
        units_for(d.standing_votes(target), value).len() <= list_at(d.catalog.votes, target).len(),
{
    let votes = list_at(d.catalog.votes, target);
    let m = d.standing_votes(target);
    let keys = sorted_keys(m.dom());
    let p = |u: Str| m[u].value == value;
    let units = units_for(m, value);
    lemma_latest_votes_finite(d.accounts, votes);
    lemma_keys_distinct(m.dom());
    lemma_filter_holds(keys, p);
    lemma_filter_distinct(keys, p);
    assert forall|u: Str| units.to_set().contains(u) <==> camp(d, target, value).contains(u) by {
        law_one_vote_stands(d.accounts, votes, u);
        if units.contains(u) {
            let k = choose|k: int| 0 <= k < units.len() && units[k] == u;
            assert(p(keys.filter(p)[k]) && keys.contains(keys.filter(p)[k]));
            assert(m.contains_key(u));
            let i = choose|i: int| stands_for(d.accounts, votes, i, u) && m[u] == #[trigger] votes[i];
            assert(votes_so(d, target, u, value));
        }
        if votes_so(d, target, u, value) {
            let i = choose|i: int| #[trigger] stands_for(d.accounts, votes, i, u) && votes[i].value == value;
            assert(votes[i].signed);
            assert(m.contains_key(u));
            let k = choose|k: int| stands_for(d.accounts, votes, k, u) && m[u] == #[trigger] votes[k];
            assert(i == k);
            assert(m.dom().contains(u));
            assert(keys.contains(u));
            let x = choose|x: int| 0 <= x < keys.len() && keys[x] == u;
            lemma_filter_keeps(keys, p, x);
        }
    }
    assert(units.to_set() =~= camp(d, target, value));
    units.unique_seq_to_set();
    vstd::seq_lib::seq_to_set_is_finite(units);
    lemma_latest_bound(d.accounts, votes);
    assert(keys.to_set() =~= m.dom());
    keys.unique_seq_to_set();
}

proof fn lemma_latest_bound(reg: Registry, votes: Seq<Vote>)
    ensures
        latest_votes(reg, votes).dom().finite(),
        latest_votes(reg, votes).dom().len() <= votes.len(),
    decreases votes.len(),
{
    if votes.len() > 0 {
        lemma_latest_bound(reg, votes.drop_last());
        let m = latest_votes(reg, votes.drop_last());
        let v = votes.last();
        let u = reg.unit_of(v.voter@);
        assert(m.insert(u, v).dom() =~= m.dom().insert(u));
    }
}

/// The tally counts the units whose standing vote is up, and those whose is down, and its
/// score is what is left of the one over the other.
pub proof fn law_tally_counts_units(d: DirectoryModel, target: Str)
    requires
        list_at(d.catalog.votes, target).len() <= i64::MAX,
    ensures
        camp(d, target, 1).finite() && camp(d, target, -1).finite(),
        d.tally(target).up == camp(d, target, 1).len(),
        d.tally(target).down == camp(d, target, -1).len(),
        d.tally(target).score == camp(d, target, 1).len() - camp(d, target, -1).len(),
        camp(d, target, 1).disjoint(camp(d, target, -1)),
{
    lemma_camp(d, target, 1);
    lemma_camp(d, target, -1);
    let votes = list_at(d.catalog.votes, target);
    assert forall|u: Str| !(camp(d, target, 1).contains(u) && camp(d, target, -1).contains(u)) by {
        law_one_vote_stands(d.accounts, votes, u);
        if camp(d, target, 1).contains(u) && camp(d, target, -1).contains(u) {
            let i = choose|i: int| #[trigger] stands_for(d.accounts, votes, i, u) && votes[i].value == 1int;
            let j = choose|j: int| #[trigger] stands_for(d.accounts, votes, j, u) && votes[j].value == -1int;
            assert(i == j);
        }
    }
}

/// The units' votes on a target before and after one more vote, of `unit`, that no earlier
/// vote of its puts aside.
proof fn lemma_camp_after(d: DirectoryModel, v: Vote, value: int)
    requires
        v.signed,
        !d.standing_votes(v.target@).contains_key(d.accounts.unit_of(v.voter@)),
    ensures
        ({
            let after = DirectoryModel { catalog: d.catalog.with_vote(v), ..d };
            let unit = d.accounts.unit_of(v.voter@);
            &&& !camp(d, v.target@, value).contains(unit)
            &&& camp(after, v.target@, value) == if v.value == value {
                camp(d, v.target@, value).insert(unit)
            } else {
                camp(d, v.target@, value)
            }
        }),
{
    let after = DirectoryModel { catalog: d.catalog.with_vote(v), ..d };
    let unit = d.accounts.unit_of(v.voter@);
    let old_votes = list_at(d.catalog.votes, v.target@);
    let votes = list_at(after.catalog.votes, v.target@);
    let n = old_votes.len() as int;
    assert(votes == old_votes.push(v));
    law_one_vote_stands(d.accounts, old_votes, unit);
    assert forall|i: int| 0 <= i < n implies #[trigger] votes[i] == old_votes[i] by {}
    if camp(d, v.target@, value).contains(unit) {
        let i = choose|i: int| #[trigger] stands_for(d.accounts, old_votes, i, unit) && old_votes[i].value == value;
        assert(old_votes[i].signed);
    }
    assert(stands_for(d.accounts, votes, n, unit)) by {
        assert forall|j: int|
            0 <= j < votes.len() && (#[trigger] votes[j]).signed && d.accounts.unit_of(votes[j].voter@) == unit implies !displaces(
            votes,
            j,
            n,
        ) by {
            lemma_lex_irreflexive(v.id@);
            if j < n {
                assert(old_votes[j].signed);
            }
        }
    }
    assert forall|u: Str| camp(after, v.target@, value).contains(u) == (if v.value == value {
        camp(d, v.target@, value).insert(unit)
    } else {
        camp(d, v.target@, value)
    }).contains(u) by {
        law_one_vote_stands(d.accounts, votes, u);
        if u != unit {
            assert forall|i: int| 0 <= i < n implies stands_for(d.accounts, votes, i, u) == stands_for(
                d.accounts,
                old_votes,
                i,
                u,
            ) by {
                if stands_for(d.accounts, old_votes, i, u) {
                    assert forall|j: int|
                        0 <= j < votes.len() && (#[trigger] votes[j]).signed && d.accounts.unit_of(votes[j].voter@) == u implies !displaces(
                        votes,
                        j,
                        i,
                    ) by {
                        assert(j < n);
                        assert(old_votes[j].signed);
                        assert(!displaces(old_votes, j, i));
                    }
                }
                if stands_for(d.accounts, votes, i, u) {
                    assert forall|j: int|
                        0 <= j < old_votes.len() && (#[trigger] old_votes[j]).signed && d.accounts.unit_of(old_votes[j].voter@) == u
                            implies !displaces(old_votes, j, i) by {
                        assert(votes[j].signed);
                        assert(!displaces(votes, j, i));
                    }
                }
            }
            if votes_so(after, v.target@, u, value) {
                let i = choose|i: int| #[trigger] stands_for(d.accounts, votes, i, u) && votes[i].value == value;
                assert(i < n);
                assert(stands_for(d.accounts, old_votes, i, u));
                assert(votes_so(d, v.target@, u, value));
            }
            if votes_so(d, v.target@, u, value) {
                let i = choose|i: int| #[trigger] stands_for(d.accounts, old_votes, i, u) && old_votes[i].value == value;
                assert(stands_for(d.accounts, votes, i, u));
                assert(votes[i] == old_votes[i]);
                assert(list_at(after.catalog.votes, v.target@)[i].value == value);
                assert(stands_for(after.accounts, list_at(after.catalog.votes, v.target@), i, u));
                assert(votes_so(after, v.target@, u, value));
            }
            assert(camp(after, v.target@, value).contains(u) == camp(d, v.target@, value).contains(u));
        } else {
            if votes_so(after, v.target@, u, value) {
                let i = choose|i: int| #[trigger] stands_for(d.accounts, votes, i, u) && votes[i].value == value;
                assert(i == n);
            }
            if v.value == value {
                assert(votes[n] == v);
                assert(list_at(after.catalog.votes, v.target@)[n].value == value);
                assert(stands_for(after.accounts, list_at(after.catalog.votes, v.target@), n, u));
                assert(votes_so(after, v.target@, u, value));
            }
            assert(!camp(d, v.target@, value).contains(u));
            assert(camp(after, v.target@, value).contains(u) == (v.value == value));
        }
    }
    assert(camp(after, v.target@, value) =~= if v.value == value {
        camp(d, v.target@, value).insert(unit)
    } else {
        camp(d, v.target@, value)
    });
}

/// The first signed vote of a unit on a target moves its count by one: up raises the score,
/// down lowers it, and any other leaves it. The count of every other target stays.
pub proof fn law_a_vote_moves_the_tally(d: DirectoryModel, v: Vote, other: Str)
    requires
        v.signed,
        !d.standing_votes(v.target@).contains_key(d.accounts.unit_of(v.voter@)),
        list_at(d.catalog.votes, v.target@).len() < i64::MAX,
        other != v.target@,
    ensures
        ({
            let after = DirectoryModel { catalog: d.catalog.with_vote(v), ..d };
            &&& after.tally(v.target@).up == d.tally(v.target@).up + (if v.value == 1 { 1int } else { 0 })
            &&& after.tally(v.target@).down == d.tally(v.target@).down + (if v.value == -1 { 1int } else { 0 })
            &&& after.tally(v.target@).score == d.tally(v.target@).score + (if v.value == 1 { 1int } else if v.value == -1 { -1 } else { 0 })
            &&& after.tally(other) == d.tally(other)
        }),
{
    let after = DirectoryModel { catalog: d.catalog.with_vote(v), ..d };
    law_tally_counts_units(d, v.target@);
    law_tally_counts_units(after, v.target@);
    lemma_camp_after(d, v, 1);
    lemma_camp_after(d, v, -1);
    assert(list_at(after.catalog.votes, other) == list_at(d.catalog.votes, other));
}

} // verus!
