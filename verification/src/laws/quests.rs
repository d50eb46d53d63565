//! Laws of quests: no self-dealing, honest settlement, leases that lapse, and boards that
//! show what they should.

use crate::accounts::Registry;
use crate::board::{QuestStatus, TaskStatus};
use crate::catalog::has_result;
use crate::credits::share;
use crate::directory::DirectoryModel;
use crate::economy::{claim_times, lease_index, lease_live, lemma_lease_index, vouchers, QUORUM_VERIFICATIONS};
use crate::admission::granted;
use crate::order::{by_rank, lemma_by_rank_keeps, newest_first, oldest_first, RankKey};
use crate::ordmap::{list_at, values_of};
use crate::records::{Attestation, HordeTask, Quest, Str, TaskAccept, TaskClaim, TaskResult};
use crate::seqs::{first_match, lemma_filter_holds, lemma_first_match, lemma_first_match_ext};
use vstd::prelude::*;

verus! {

/// Those who vouch for a result are distinct accounts, none of them the solver's, and each
/// gave a signed verdict for it.
pub proof fn law_vouchers_are_independent(reg: Registry, list: Seq<Attestation>, solver: Str)
    ensures
        vouchers(reg, list, solver).no_duplicates(),
        !vouchers(reg, list, solver).contains(solver),
        forall|u: Str| #[trigger]
            vouchers(reg, list, solver).contains(u) ==> exists|i: int|
                0 <= i < list.len() && (#[trigger] list[i]).signed && list[i].reproduced && reg.unit_of(list[i].attester@) == u,
    decreases list.len(),
{
    let all = vouchers(reg, list, solver);
    if list.len() > 0 {
        let t = list.drop_last();
        law_vouchers_are_independent(reg, t, solver);
        let rest = vouchers(reg, t, solver);
        let a = list.last();
        let w = reg.unit_of(a.attester@);
        assert forall|u: Str| #[trigger] all.contains(u) implies exists|i: int|
            0 <= i < list.len() && (#[trigger] list[i]).signed && list[i].reproduced && reg.unit_of(list[i].attester@) == u by {
            let k = choose|k: int| 0 <= k < all.len() && all[k] == u;
            if k < rest.len() {
                assert(rest[k] == u);
                assert(rest.contains(u));
                let i = choose|i: int|
                    0 <= i < t.len() && (#[trigger] t[i]).signed && t[i].reproduced && reg.unit_of(t[i].attester@) == u;
                assert(list[i] == t[i]);
            } else {
                assert(list[list.len() - 1] == a);
            }
        }
        if all.contains(solver) {
            let k = choose|k: int| 0 <= k < all.len() && all[k] == solver;
            if k < rest.len() {
                assert(rest[k] == solver);
            }
        }
        if all != rest {
            assert(all == rest.push(w));
            assert forall|i: int, j: int| 0 <= i < all.len() && 0 <= j < all.len() && i != j implies all[i] != all[j] by {
                if i < rest.len() && j < rest.len() {
                    assert(rest[i] != rest[j]);
                } else if i < rest.len() {
                    assert(rest.contains(rest[i]));
                } else {
                    assert(rest.contains(rest[j]));
                }
            }
        }
    }
}

/// A settled task was answered by an account that did not post the quest; and where it
/// settled without the author, enough distinct accounts other than the solver's vouched.
pub proof fn law_settlement_is_independent(d: DirectoryModel, quest: Str, task: Str)
    requires
        d.settlement(quest, task) is Some,
    ensures
        ({
            let (solver, verifiers) = d.settlement(quest, task)->Some_0;
            &&& !d.posted_by(quest, solver)
            &&& exists|i: int|
                0 <= i < d.results_of(quest, task).len() && d.unit((#[trigger] d.results_of(quest, task)[i]).worker@) == solver
            &&& d.accepted(quest, task) is None ==> verifiers.len() >= QUORUM_VERIFICATIONS
            &&& verifiers.no_duplicates()
            &&& !verifiers.contains(solver)
        }),
{
    let rs = d.results_of(quest, task);
    let (solver, verifiers) = d.settlement(quest, task)->Some_0;
    let p = |r: TaskResult| d.has_quorum(quest, r);
    lemma_first_match(rs, p);
    match d.accepted(quest, task) {
        Some(i) => {
            let id = d.catalog.accepts[(quest, task)].result_id@;
            lemma_first_match(rs, |r: TaskResult| r.id@ == id);
            assert(d.unit(rs[i].worker@) == solver);
        },
        None => {
            let i = first_match(rs, p)->Some_0;
            assert(p(rs[i]));
            assert(d.unit(rs[i].worker@) == solver);
            law_vouchers_are_independent(d.accounts, list_at(d.catalog.verifications, rs[i].id@), solver);
        },
    }
}

/// The author's acceptance settles the task: it pays whoever answered, unless that is the
/// author's own account.
pub proof fn law_acceptance_settles(d: DirectoryModel, a: TaskAccept)
    requires
        d.judge_accept(a) == granted(),
    ensures
        ({
            let after = DirectoryModel { catalog: d.catalog.with_accept(a), ..d };
            exists|i: int|
                {
                    &&& 0 <= i < d.results_of(a.quest@, a.task@).len()
                    &&& (#[trigger] d.results_of(a.quest@, a.task@)[i]).id@ == a.result_id@
                    &&& !d.posted_by(a.quest@, d.unit(d.results_of(a.quest@, a.task@)[i].worker@)) ==> after.settlement(
                        a.quest@,
                        a.task@,
                    ) == Some((d.unit(d.results_of(a.quest@, a.task@)[i].worker@), Seq::<Str>::empty()))
                }
        }),
{
    let after = DirectoryModel { catalog: d.catalog.with_accept(a), ..d };
    let rs = d.results_of(a.quest@, a.task@);
    let id = a.result_id@;
    let p = |r: TaskResult| r.id@ == id;
    assert(has_result(rs, id));
    lemma_first_match(rs, p);
    let w = choose|i: int| 0 <= i < rs.len() && (#[trigger] rs[i]).id@ == id;
    assert(p(rs[w]));
    let i = first_match(rs, p)->Some_0;
    assert(p(rs[i]));
    assert(after.results_of(a.quest@, a.task@) == rs);
    assert(after.catalog.accepts[(a.quest@, a.task@)] == a);
    assert(after.posted_by(a.quest@, d.unit(rs[i].worker@)) == d.posted_by(a.quest@, d.unit(rs[i].worker@)));
    let id2 = after.catalog.accepts[(a.quest@, a.task@)].result_id@;
    lemma_first_match_ext(rs, p, |r: TaskResult| r.id@ == id2);
    assert(rs[i].id@ == a.result_id@);
}

/// A quorum settles a task without the author.
pub proof fn law_quorum_settles(d: DirectoryModel, quest: Str, task: Str, i: int)
    requires
        0 <= i < d.results_of(quest, task).len(),
        d.has_quorum(quest, d.results_of(quest, task)[i]),
    ensures
        d.settlement(quest, task) is Some,
{
    let rs = d.results_of(quest, task);
    let p = |r: TaskResult| d.has_quorum(quest, r);
    lemma_first_match(rs, p);
    assert(p(rs[i]));
}

/// No account works on, or vouches on, a quest that it posted, and no account vouches for
/// its own result: such requests are refused.
pub proof fn law_no_self_dealing(d: DirectoryModel, c: TaskClaim, r: TaskResult, a: Attestation, now: i64)
    ensures
        d.posted_by(c.quest@, d.unit(c.worker@)) ==> d.judge_claim(c, now) is Err,
        d.posted_by(r.quest@, d.unit(r.worker@)) ==> d.judge_result(r) is Err,
        d.catalog.result_loc.contains_key(a.artifact_id@) && d.posted_by(
            d.catalog.result_loc[a.artifact_id@].0,
            d.unit(a.attester@),
        ) ==> d.judge_verify(a) is Err,
        d.catalog.result_loc.contains_key(a.artifact_id@) && d.own_result(a.artifact_id@, a.attester@) ==> d.judge_verify(a) is Err,
{
}

/// A claim that is let in makes its worker the holder of the task, while it is live and
/// until there is a result.
pub proof fn law_claim_takes_hold(d: DirectoryModel, c: TaskClaim, now: i64)
    requires
        d.judge_claim(c, now) == granted(),
        lease_live(c.created_ts, now),
        d.results_of(c.quest@, c.task@).len() == 0,
    ensures
        ({
            let after = DirectoryModel { catalog: d.catalog.with_claim(c), ..d };
            &&& after.claim_on(c.quest@, c.task@, now) is Some
            &&& after.claim_on(c.quest@, c.task@, now)->Some_0.worker@ == c.worker@
        }),
{
    let after = DirectoryModel { catalog: d.catalog.with_claim(c), ..d };
    let key = (c.quest@, c.task@);
    let list = list_at(d.catalog.claims, key);
    let more = list_at(after.catalog.claims, key);
    assert(more == list.push(c));
    let ts = claim_times(more);
    assert(ts.drop_last() =~= claim_times(list));
    assert(ts.last() == c.created_ts);
    lemma_lease_index(claim_times(list), now);
    assert(after.results_of(c.quest@, c.task@) == d.results_of(c.quest@, c.task@));
    match lease_index(claim_times(list), now) {
        Some(i) => {
            assert(d.claim_on(c.quest@, c.task@, now) == Some(list[i]));
            assert(more[i] == list[i]);
        },
        None => {},
    }
}

/// A lapsed lease opens the task again: once no claim is live, nobody holds it.
pub proof fn law_leases_lapse(d: DirectoryModel, quest: Str, task: Str, now: i64)
    requires
        forall|i: int|
            0 <= i < list_at(d.catalog.claims, (quest, task)).len() ==> !lease_live(
                (#[trigger] list_at(d.catalog.claims, (quest, task))[i]).created_ts,
                now,
            ),
        d.results_of(quest, task).len() == 0,
        d.settlement(quest, task) is None,
    ensures
        d.claim_on(quest, task, now) is None,
        d.is_open(quest, task, now),
{
    let list = list_at(d.catalog.claims, (quest, task));
    let ts = claim_times(list);
    lemma_lease_index(ts, now);
    match lease_index(ts, now) {
        Some(i) => {
            assert(ts[i] == list[i].created_ts);
        },
        None => {},
    }
}

/// A closed quest is completed only if every task settled; otherwise it was withdrawn.
pub proof fn law_completion_is_proven(d: DirectoryModel, quest: Str, q: Quest)
    ensures
        d.quest_standing(quest, q) == QuestStatus::Completed ==> d.catalog.closed.contains_key(quest) && q.tasks@.len() > 0
            && forall|i: int| 0 <= i < q.tasks@.len() ==> d.settlement(quest, (#[trigger] q.tasks@[i]).id@) is Some,
        d.quest_standing(quest, q) == QuestStatus::Withdrawn ==> d.catalog.closed.contains_key(quest) && (q.tasks@.len() == 0
            || exists|i: int| 0 <= i < q.tasks@.len() && d.settlement(quest, (#[trigger] q.tasks@[i]).id@) is None),
        !d.catalog.closed.contains_key(quest) ==> d.quest_standing(quest, q) == QuestStatus::Open || d.quest_standing(quest, q)
            == QuestStatus::Complete,
{
}

/// The shares of a quest's tasks never exceed its bounty, and leave less than one credit
/// per task over.
pub proof fn law_shares_are_covered(q: Quest)
    requires
        q.tasks@.len() > 0,
    ensures
        share(q) * q.tasks@.len() <= q.bounty,
        q.bounty < (share(q) + 1) * q.tasks@.len(),
{
    let b = q.bounty as int;
    let n = q.tasks@.len() as int;
    assert((b / n) * n <= b && b < (b / n + 1) * n) by (nonlinear_arith)
        requires
            n > 0,
            b >= 0,
    ;
}

/// The private board shows an agent the work of its own account and no other.
pub proof fn law_board_is_private(d: DirectoryModel, agent: Str, run: Option<Str>, now: i64)
    ensures
        forall|i: int|
            0 <= i < d.horde_board(agent, run, now).len() ==> d.unit((#[trigger] d.horde_board(agent, run, now)[i]).author@)
                == d.unit(agent),
        run matches Some(r) ==> forall|i: int|
            0 <= i < d.run_tasks(agent, r).len() ==> d.unit((#[trigger] d.run_tasks(agent, r)[i]).author@) == d.unit(agent),
{
    let p = |t: HordeTask| d.on_board(t, agent, run) && d.horde_standing(t.id@, now) == TaskStatus::Open;
    let all = values_of(d.catalog.horde_tasks);
    let open = all.filter(p);
    let keys = open.map_values(|t: HordeTask| newest_first(t.created_ts));
    lemma_filter_holds(all, p);
    lemma_by_rank_keeps(open, keys);
    assert(d.horde_board(agent, run, now) == by_rank(open, keys));
    assert forall|i: int| 0 <= i < d.horde_board(agent, run, now).len() implies d.unit(
        (#[trigger] d.horde_board(agent, run, now)[i]).author@,
    ) == d.unit(agent) by {
        let t = d.horde_board(agent, run, now)[i];
        assert(open.contains(t));
        let k = choose|k: int| 0 <= k < open.len() && open[k] == t;
        assert(p(open[k]));
    }
    if let Some(r) = run {
        let q = |t: HordeTask| d.on_board(t, agent, Some(r));
        let mine = all.filter(q);
        let ages = mine.map_values(|t: HordeTask| oldest_first(t.created_ts));
        lemma_filter_holds(all, q);
        lemma_by_rank_keeps(mine, ages);
        assert(d.run_tasks(agent, r) == by_rank(mine, ages));
        assert forall|i: int| 0 <= i < d.run_tasks(agent, r).len() implies d.unit(
            (#[trigger] d.run_tasks(agent, r)[i]).author@,
        ) == d.unit(agent) by {
            let t = d.run_tasks(agent, r)[i];
            assert(mine.contains(t));
            let k = choose|k: int| 0 <= k < mine.len() && mine[k] == t;
            assert(q(mine[k]));
        }
    }
}

/// A closed or expired quest, and one with nothing left to take, is not on the board.
pub proof fn law_board_offers_work(d: DirectoryModel, sigil: Option<Str>, now: i64)
    ensures
        forall|i: int|
            0 <= i < d.quest_board(sigil, now).len() ==> {
                let q = #[trigger] d.quest_board(sigil, now)[i];
                &&& !d.catalog.closed.contains_key(q.id@)
                &&& q.deadline_ts == 0 || q.deadline_ts > now
                &&& d.open_tasks(q, now).len() > 0
            },
{
    let p = |q: Quest| d.on_offer(q, sigil, now);
    let all = values_of(d.catalog.quests);
    let offers = all.filter(p);
    let keys = offers.map_values(
        |q: Quest| RankKey { first: d.boost_of(q.id@) as i128, second: q.created_ts as i128, third: 0 },
    );
    lemma_filter_holds(all, p);
    lemma_by_rank_keeps(offers, keys);
    assert(d.quest_board(sigil, now) == by_rank(offers, keys));
    assert forall|i: int| 0 <= i < d.quest_board(sigil, now).len() implies ({
        let q = #[trigger] d.quest_board(sigil, now)[i];
        &&& !d.catalog.closed.contains_key(q.id@)
        &&& q.deadline_ts == 0 || q.deadline_ts > now
        &&& d.open_tasks(q, now).len() > 0
    }) by {
        let q = d.quest_board(sigil, now)[i];
        assert(offers.contains(q));
        let k = choose|k: int| 0 <= k < offers.len() && offers[k] == q;
        assert(p(offers[k]));
    }
}

} // verus!
