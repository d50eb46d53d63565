//! Laws of settlement and leases: who solved a task, on whose word, and who holds it.

use crate::accounts::Registry;
use crate::directory::DirectoryModel;
use crate::economy::{claim_times, horde_claim_times, lease_index, lemma_lease_index, vouchers};
use crate::laws::quests::law_vouchers_are_independent;
use crate::ordmap::list_at;
use crate::records::{Attestation, Str, TaskResult};
use crate::seqs::{lemma_first_match, lemma_first_match_at, lemma_first_match_none};
use vstd::prelude::*;

verus! {

/// Verdict `i` on the result is a signed one for it, by an agent of `unit`, which is not the
/// worker's account.
pub open spec fn vouches(d: DirectoryModel, r: TaskResult, i: int, unit: Str) -> bool {
    let list = list_at(d.catalog.verifications, r.id@);
    &&& 0 <= i < list.len()
    &&& list[i].signed
    &&& list[i].reproduced
    &&& d.accounts.unit_of(list[i].attester@) == unit
    &&& unit != d.accounts.unit_of(r.worker@)
}

/// The result is the work of the account that posted the quest.
pub open spec fn posters_own(d: DirectoryModel, quest: Str, r: TaskResult) -> bool {
    d.catalog.quests.contains_key(quest) && d.accounts.unit_of(d.catalog.quests[quest].author@) == d.accounts.unit_of(r.worker@)
}

/// The result is the one that the quest's author accepted: the first with the accepted id,
/// and not the author's own work.
pub open spec fn accepted_at(d: DirectoryModel, quest: Str, task: Str, i: int) -> bool {
    let rs = list_at(d.catalog.results, (quest, task));
    &&& d.catalog.accepts.contains_key((quest, task))
    &&& 0 <= i < rs.len()
    &&& rs[i].id@ == d.catalog.accepts[(quest, task)].result_id@
    &&& forall|j: int| 0 <= j < i ==> (#[trigger] rs[j]).id@ != d.catalog.accepts[(quest, task)].result_id@
    &&& !posters_own(d, quest, rs[i])
}

/// Two different accounts, neither of them the worker's, vouched for the result, and it is
/// not the work of the account that posted the quest.
pub open spec fn confirmed_at(d: DirectoryModel, quest: Str, task: Str, i: int) -> bool {
    let rs = list_at(d.catalog.results, (quest, task));
    &&& 0 <= i < rs.len()
    &&& !posters_own(d, quest, rs[i])
    &&& exists|a: Str, b: Str, j: int, k: int| a != b && #[trigger] vouches(d, rs[i], j, a) && #[trigger] vouches(d, rs[i], k, b)
}

proof fn lemma_vouchers_complete(reg: Registry, list: Seq<Attestation>, solver: Str, u: Str)
    requires
        exists|i: int|
            0 <= i < list.len() && (#[trigger] list[i]).signed && list[i].reproduced && reg.unit_of(list[i].attester@) == u,
        u != solver,
    ensures
        vouchers(reg, list, solver).contains(u),
    decreases list.len(),
{
    let t = list.drop_last();
    let i = choose|i: int|
        0 <= i < list.len() && (#[trigger] list[i]).signed && list[i].reproduced && reg.unit_of(list[i].attester@) == u;
    let rest = vouchers(reg, t, solver);
    let all = vouchers(reg, list, solver);
    if i < t.len() {
        assert(t[i] == list[i]);
        lemma_vouchers_complete(reg, t, solver, u);
        let k = choose|k: int| 0 <= k < rest.len() && rest[k] == u;
        assert(all[k] == u);
    } else {
        if rest.contains(u) {
            let k = choose|k: int| 0 <= k < rest.len() && rest[k] == u;
            assert(all[k] == u);
        } else {
            assert(all[rest.len() as int] == u);
        }
    }
}

/// Those who vouched for a result are the accounts with a signed verdict for it, other than
/// the worker's own, each once.
pub proof fn law_vouchers_are_those_who_vouched(d: DirectoryModel, r: TaskResult)
    ensures
        d.vouched(r).no_duplicates(),
        forall|u: Str| #[trigger] d.vouched(r).contains(u) <==> exists|i: int| vouches(d, r, i, u),
{
    let list = list_at(d.catalog.verifications, r.id@);
    let solver = d.accounts.unit_of(r.worker@);
    law_vouchers_are_independent(d.accounts, list, solver);
    assert forall|u: Str| #[trigger] d.vouched(r).contains(u) <==> exists|i: int| vouches(d, r, i, u) by {
        if d.vouched(r).contains(u) {
            let i = choose|i: int|
                0 <= i < list.len() && (#[trigger] list[i]).signed && list[i].reproduced && d.accounts.unit_of(
                    list[i].attester@,
                ) == u;
            assert(vouches(d, r, i, u));
        }
        if exists|i: int| vouches(d, r, i, u) {
            let i = choose|i: int| vouches(d, r, i, u);
            assert(list[i].signed);
            lemma_vouchers_complete(d.accounts, list, solver, u);
        }
    }
}

/// A quorum is two different accounts besides the worker's.
pub proof fn law_quorum_is_two_accounts(d: DirectoryModel, quest: Str, task: Str, i: int)
    requires
        0 <= i < d.results_of(quest, task).len(),
    ensures
        d.has_quorum(quest, d.results_of(quest, task)[i]) <==> confirmed_at(d, quest, task, i),
{
    let rs = list_at(d.catalog.results, (quest, task));
    let r = rs[i];
    let vs = d.vouched(r);
    law_vouchers_are_those_who_vouched(d, r);
    if vs.len() >= 2 {
        assert(vs.contains(vs[0]) && vs.contains(vs[1]));
        assert(vs[0] != vs[1]);
        let j = choose|j: int| vouches(d, r, j, vs[0]);
        let k = choose|k: int| vouches(d, r, k, vs[1]);
        assert(vouches(d, r, j, vs[0]) && vouches(d, r, k, vs[1]));
    }
    if exists|a: Str, b: Str, j: int, k: int| a != b && #[trigger] vouches(d, r, j, a) && #[trigger] vouches(d, r, k, b) {
        let (a, b, j, k) = choose|a: Str, b: Str, j: int, k: int|
            a != b && #[trigger] vouches(d, r, j, a) && #[trigger] vouches(d, r, k, b);
        assert(vs.contains(a) && vs.contains(b));
        let x = choose|x: int| 0 <= x < vs.len() && vs[x] == a;
        let y = choose|y: int| 0 <= y < vs.len() && vs[y] == b;
        assert(x != y);
    }
}

/// A task settles to the worker whose result the author accepted, on nobody else's word. Else
/// it settles to the worker of the first result that two other accounts vouched for, on the
/// word of all that did. Else it is not settled.
pub proof fn law_settlement(d: DirectoryModel, quest: Str, task: Str)
    ensures
        forall|i: int| #[trigger]
            accepted_at(d, quest, task, i) ==> d.settlement(quest, task) == Some(
                (d.accounts.unit_of(list_at(d.catalog.results, (quest, task))[i].worker@), Seq::<Str>::empty()),
            ),
        (forall|i: int| !#[trigger] accepted_at(d, quest, task, i)) ==> forall|i: int|
            #![trigger confirmed_at(d, quest, task, i)]
            confirmed_at(d, quest, task, i) && (forall|j: int| 0 <= j < i ==> !#[trigger] confirmed_at(d, quest, task, j)) ==> {
                let r = list_at(d.catalog.results, (quest, task))[i];
                &&& d.settlement(quest, task) is Some
                &&& d.settlement(quest, task)->Some_0.0 == d.accounts.unit_of(r.worker@)
                &&& d.settlement(quest, task)->Some_0.1 == d.vouched(r)
                &&& d.settlement(quest, task)->Some_0.1.no_duplicates()
                &&& forall|u: Str| #[trigger]
                    d.settlement(quest, task)->Some_0.1.contains(u) <==> exists|k: int| vouches(d, r, k, u)
            },
        (forall|i: int| !#[trigger] accepted_at(d, quest, task, i)) && (forall|i: int| !#[trigger] confirmed_at(d, quest, task, i))
            ==> d.settlement(quest, task) is None,
{
    let rs = list_at(d.catalog.results, (quest, task));
    let id = d.catalog.accepts[(quest, task)].result_id@;
    let p = |r: TaskResult| r.id@ == id;
    let q = |r: TaskResult| d.has_quorum(quest, r);
    lemma_first_match(rs, p);
    lemma_first_match(rs, q);
    assert forall|i: int| 0 <= i < rs.len() implies q(#[trigger] rs[i]) == confirmed_at(d, quest, task, i) by {
        law_quorum_is_two_accounts(d, quest, task, i);
    }
    assert forall|i: int| #[trigger] accepted_at(d, quest, task, i) implies d.settlement(quest, task) == Some(
        (d.accounts.unit_of(rs[i].worker@), Seq::<Str>::empty()),
    ) by {
        assert forall|j: int| 0 <= j < i implies !p(#[trigger] rs[j]) by {}
        lemma_first_match_at(rs, p, i);
    }
    if forall|i: int| !#[trigger] accepted_at(d, quest, task, i) {
        assert(d.accepted(quest, task) is None) by {
            if let Some(i) = d.accepted(quest, task) {
                assert(p(rs[i]));
                assert forall|j: int| 0 <= j < i implies (#[trigger] rs[j]).id@ != id by {
                    assert(!p(rs[j]));
                }
                assert(accepted_at(d, quest, task, i));
            }
        }
        assert forall|i: int|
            #![trigger confirmed_at(d, quest, task, i)]
            confirmed_at(d, quest, task, i) && (forall|j: int| 0 <= j < i ==> !#[trigger] confirmed_at(d, quest, task, j)) implies {
            let r = rs[i];
            &&& d.settlement(quest, task) is Some
            &&& d.settlement(quest, task)->Some_0.0 == d.accounts.unit_of(r.worker@)
            &&& d.settlement(quest, task)->Some_0.1 == d.vouched(r)
            &&& d.settlement(quest, task)->Some_0.1.no_duplicates()
            &&& forall|u: Str| #[trigger]
                d.settlement(quest, task)->Some_0.1.contains(u) <==> exists|k: int| vouches(d, r, k, u)
        } by {
            assert(q(rs[i]));
            assert forall|j: int| 0 <= j < i implies !q(#[trigger] rs[j]) by {
                assert(!confirmed_at(d, quest, task, j));
            }
            lemma_first_match_at(rs, q, i);
            law_vouchers_are_those_who_vouched(d, rs[i]);
        }
        if forall|i: int| !#[trigger] confirmed_at(d, quest, task, i) {
            assert forall|j: int| 0 <= j < rs.len() implies !q(#[trigger] rs[j]) by {
                assert(!confirmed_at(d, quest, task, j));
            }
            lemma_first_match_none(rs, q);
        }
    }
}

/// A settled task stays settled whoever asks and whenever: what settles it is in the
/// catalog and the accounts. A task without a result is never settled.
pub proof fn law_no_result_no_settlement(d: DirectoryModel, quest: Str, task: Str)
    requires
        list_at(d.catalog.results, (quest, task)).len() == 0,
    ensures
        d.settlement(quest, task) is None,
{
    law_settlement(d, quest, task);
    assert forall|i: int| !#[trigger] accepted_at(d, quest, task, i) by {}
    assert forall|i: int| !#[trigger] confirmed_at(d, quest, task, i) by {}
}

/// A claim holds a task for 1800 seconds from when it was made, unless there is a result or a
/// later claim that holds it; and of claims made at once the one that came last.
pub proof fn law_holder_of_a_task(d: DirectoryModel, quest: Str, task: Str, now: i64)
    ensures
        ({
            let cs = list_at(d.catalog.claims, (quest, task));
            let rs = list_at(d.catalog.results, (quest, task));
            &&& d.claim_on(quest, task, now) is None <==> rs.len() > 0 || forall|i: int|
                0 <= i < cs.len() ==> now - (#[trigger] cs[i]).created_ts >= 1800
            &&& d.claim_on(quest, task, now) matches Some(c) ==> exists|i: int|
                {
                    &&& 0 <= i < cs.len()
                    &&& #[trigger] cs[i] == c
                    &&& now - c.created_ts < 1800
                    &&& forall|j: int|
                        0 <= j < cs.len() && now - (#[trigger] cs[j]).created_ts < 1800 ==> cs[j].created_ts < c.created_ts || (
                        cs[j].created_ts == c.created_ts && j <= i)
                }
        }),
{
    let cs = list_at(d.catalog.claims, (quest, task));
    let ts = claim_times(cs);
    lemma_lease_index(ts, now);
    assert forall|i: int| 0 <= i < cs.len() implies #[trigger] ts[i] == cs[i].created_ts by {}
    match lease_index(ts, now) {
        Some(i) => {
            assert(now - cs[i].created_ts < 1800);
            if d.claim_on(quest, task, now) is Some {
                assert forall|j: int| 0 <= j < cs.len() && now - (#[trigger] cs[j]).created_ts < 1800 implies cs[j].created_ts
                    < cs[i].created_ts || (cs[j].created_ts == cs[i].created_ts && j <= i) by {
                    assert(ts[j] == cs[j].created_ts);
                }
                assert(cs[i] == d.claim_on(quest, task, now)->Some_0);
            }
        },
        None => {
            assert forall|i: int| 0 <= i < cs.len() implies now - (#[trigger] cs[i]).created_ts >= 1800 by {
                assert(ts[i] == cs[i].created_ts);
            }
        },
    }
}

/// A claim holds a piece of the account's own work for 1800 seconds, unless there is a result
/// or a later claim that holds it.
pub proof fn law_holder_of_own_work(d: DirectoryModel, task: Str, now: i64)
    ensures
        ({
            let cs = list_at(d.catalog.horde_claims, task);
            let rs = list_at(d.catalog.horde_results, task);
            &&& d.horde_claim_on(task, now) is None <==> rs.len() > 0 || forall|i: int|
                0 <= i < cs.len() ==> now - (#[trigger] cs[i]).created_ts >= 1800
            &&& d.horde_claim_on(task, now) matches Some(c) ==> exists|i: int|
                {
                    &&& 0 <= i < cs.len()
                    &&& #[trigger] cs[i] == c
                    &&& now - c.created_ts < 1800
                    &&& forall|j: int|
                        0 <= j < cs.len() && now - (#[trigger] cs[j]).created_ts < 1800 ==> cs[j].created_ts < c.created_ts || (
                        cs[j].created_ts == c.created_ts && j <= i)
                }
        }),
{
    let cs = list_at(d.catalog.horde_claims, task);
    let ts = horde_claim_times(cs);
    lemma_lease_index(ts, now);
    assert forall|i: int| 0 <= i < cs.len() implies #[trigger] ts[i] == cs[i].created_ts by {}
    match lease_index(ts, now) {
        Some(i) => {
            assert(now - cs[i].created_ts < 1800);
            if d.horde_claim_on(task, now) is Some {
                assert forall|j: int| 0 <= j < cs.len() && now - (#[trigger] cs[j]).created_ts < 1800 implies cs[j].created_ts
                    < cs[i].created_ts || (cs[j].created_ts == cs[i].created_ts && j <= i) by {
                    assert(ts[j] == cs[j].created_ts);
                }
                assert(cs[i] == d.horde_claim_on(task, now)->Some_0);
            }
        },
        None => {
            assert forall|i: int| 0 <= i < cs.len() implies now - (#[trigger] cs[i]).created_ts >= 1800 by {
                assert(ts[i] == cs[i].created_ts);
            }
        },
    }
}

} // verus!
