//! Laws of what is let in: for each request, exactly when it is, and what it is answered
//! otherwise.

use crate::admission::{granted, Gate, Refusal, Seal};
use crate::credits::share;
use crate::directory::DirectoryModel;
use crate::laws::lists::{lemma_filter_count, places_of};
use crate::ordmap::list_at;
use crate::records::{
    Attestation, Boost, Handle, HordeClaim, HordeResult, Quest, QuestClose, Reply, Str, Task, TaskAccept, TaskClaim, TaskResult,
};
use vstd::prelude::*;

verus! {

/// The key may publish: accounts are not asked for, or it has a verified one.
pub open spec fn may_publish(d: DirectoryModel, pubkey: Str) -> bool {
    d.require_account ==> d.accounts.account_of(pubkey) is Some
}

/// The quest is there and one of its tasks is `task`.
pub open spec fn task_is_there(d: DirectoryModel, quest: Str, task: Str) -> bool {
    d.catalog.quests.contains_key(quest) && exists|i: int|
        0 <= i < d.catalog.quests[quest].tasks@.len() && (#[trigger] d.catalog.quests[quest].tasks@[i]).id@ == task
}

/// The account behind the key posted the quest.
pub open spec fn own_quest(d: DirectoryModel, quest: Str, pubkey: Str) -> bool {
    d.catalog.quests.contains_key(quest) && d.accounts.unit_of(d.catalog.quests[quest].author@) == d.accounts.unit_of(pubkey)
}

/// The account behind the key answered the task with the result of this id.
pub open spec fn own_answer(d: DirectoryModel, at: (Str, Str), id: Str, pubkey: Str) -> bool {
    exists|i: int|
        0 <= i < list_at(d.catalog.results, at).len() && (#[trigger] list_at(d.catalog.results, at)[i]).id@ == id
            && d.accounts.unit_of(list_at(d.catalog.results, at)[i].worker@) == d.accounts.unit_of(pubkey)
}

/// A record is let in exactly where its signature is sound and its signer may publish; the
/// signature is looked at first.
pub proof fn law_records_are_let_in(d: DirectoryModel, signed: bool, by: Str, seal: Seal, gate: Gate)
    ensures
        d.judge(signed, by, seal, gate) == granted() <==> signed && may_publish(d, by),
        d.judge(signed, by, seal, gate) == Err::<(), Refusal>(Refusal::Unsigned(seal)) <==> !signed,
        d.judge(signed, by, seal, gate) == Err::<(), Refusal>(Refusal::NoAccount(gate)) <==> signed && !may_publish(d, by),
{
}

/// A reply is let in exactly where it names the scroll that it is posted under, is signed,
/// and its author may publish.
pub proof fn law_replies_are_let_in(d: DirectoryModel, path: Str, r: Reply)
    ensures
        d.judge_reply(path, r) == granted() <==> r.parent@ == path && r.signed && may_publish(d, r.author@),
        d.judge_reply(path, r) == Err::<(), Refusal>(Refusal::WrongParent) <==> r.parent@ != path,
        d.judge_reply(path, r) == Err::<(), Refusal>(Refusal::Unsigned(Seal::Reply)) <==> r.parent@ == path && !r.signed,
        d.judge_reply(path, r) == Err::<(), Refusal>(Refusal::NoAccount(Gate::Reply)) <==> r.parent@ == path && r.signed
            && !may_publish(d, r.author@),
{
}

/// A name is let in exactly where the claim is signed, its owner may publish, and nobody
/// else holds the name.
pub proof fn law_names_are_let_in(d: DirectoryModel, h: Handle)
    ensures
        ({
            let free = !d.catalog.handles.contains_key(h.key@) || d.catalog.handles[h.key@].owner@ == h.owner@;
            &&& d.judge_handle(h) == granted() <==> h.signed && may_publish(d, h.owner@) && free
            &&& d.judge_handle(h) == Err::<(), Refusal>(Refusal::Unsigned(Seal::Handle)) <==> !h.signed
            &&& d.judge_handle(h) == Err::<(), Refusal>(Refusal::NoAccount(Gate::Handle)) <==> h.signed && !may_publish(
                d,
                h.owner@,
            )
            &&& d.judge_handle(h) == Err::<(), Refusal>(Refusal::NameTaken) <==> h.signed && may_publish(d, h.owner@) && !free
        }),
{
}

/// What the author of a quest puts up: an even share of the bounty for each task.
pub open spec fn staked(q: Quest) -> int {
    if q.tasks@.len() == 0 {
        0
    } else {
        (q.bounty as int / q.tasks@.len() as int) * q.tasks@.len()
    }
}

/// A quest is let in exactly where it is signed, its author may publish, and the author's
/// account has what the quest puts up. One that puts up nothing needs nothing.
pub proof fn law_quests_are_let_in(d: DirectoryModel, q: Quest, now: i64)
    ensures
        ({
            let have = d.balance(d.accounts.unit_of(q.author@), now);
            let covered = staked(q) == 0 || have >= staked(q);
            &&& 0 <= staked(q) <= q.bounty
            &&& d.judge_quest(q, now) == granted() <==> q.signed && may_publish(d, q.author@) && covered
            &&& d.judge_quest(q, now) == Err::<(), Refusal>(Refusal::Unsigned(Seal::Quest)) <==> !q.signed
            &&& d.judge_quest(q, now) == Err::<(), Refusal>(Refusal::NoAccount(Gate::Quest)) <==> q.signed && !may_publish(
                d,
                q.author@,
            )
            &&& q.signed && may_publish(d, q.author@) && !covered ==> d.judge_quest(q, now) == Err::<(), Refusal>(
                Refusal::CannotStake { have, need: staked(q) as u64 },
            )
        }),
{
    let n = q.tasks@.len() as int;
    let b = q.bounty as int;
    if n > 0 {
        assert(0 <= (b / n) * n <= b) by (nonlinear_arith)
            requires
                n > 0,
                b >= 0,
        ;
        assert(share(q) == b / n);
        assert(d.stake(q) == share(q) * q.tasks@.len());
    } else {
        assert(d.stake(q) == 0) by (nonlinear_arith)
            requires
                d.stake(q) == share(q) * q.tasks@.len(),
                q.tasks@.len() == 0,
        ;
    }
}

/// A result is accepted exactly where the acceptance is signed by the very key that posted
/// the quest, and the task and the result are there.
pub proof fn law_acceptances_are_let_in(d: DirectoryModel, a: TaskAccept)
    ensures
        ({
            let there = d.catalog.quests.contains_key(a.quest@);
            let author = d.catalog.quests[a.quest@].author@ == a.author@;
            let task = task_is_there(d, a.quest@, a.task@);
            let rs = list_at(d.catalog.results, (a.quest@, a.task@));
            let result = exists|i: int| 0 <= i < rs.len() && (#[trigger] rs[i]).id@ == a.result_id@;
            &&& d.judge_accept(a) == granted() <==> a.signed && there && author && task && result
            &&& d.judge_accept(a) == Err::<(), Refusal>(Refusal::Unsigned(Seal::Accept)) <==> !a.signed
            &&& d.judge_accept(a) == Err::<(), Refusal>(Refusal::NoSuchQuest) <==> a.signed && !there
            &&& d.judge_accept(a) == Err::<(), Refusal>(Refusal::NotTheAuthor) <==> a.signed && there && !author
            &&& d.judge_accept(a) == Err::<(), Refusal>(Refusal::NoSuchTask) <==> a.signed && there && author && !task
            &&& d.judge_accept(a) == Err::<(), Refusal>(Refusal::NoSuchTaskResult) <==> a.signed && there && author && task
                && !result
        }),
{
    if d.catalog.quests.contains_key(a.quest@) {
        lemma_task_is_there(d, a.quest@, a.task@);
    }
}

proof fn lemma_task_is_there(d: DirectoryModel, quest: Str, task: Str)
    requires
        d.catalog.quests.contains_key(quest),
    ensures
        task_is_there(d, quest, task) == crate::admission::has_task(d.catalog.quests[quest], task),
{
    let q = d.catalog.quests[quest];
    if crate::admission::has_task(q, task) {
        let i = choose|i: int| 0 <= i < q.tasks@.len() && (#[trigger] q.tasks@[i]).id@ == task;
        assert(d.catalog.quests[quest].tasks@[i].id@ == task);
    }
}

/// A verdict on a result is let in exactly where it is signed, its attester may publish, the
/// result is there, and the attester's account neither answered with it nor posted the quest.
pub proof fn law_verdicts_are_let_in(d: DirectoryModel, a: Attestation)
    ensures
        ({
            let id = a.artifact_id@;
            let fit = a.signed && may_publish(d, a.attester@);
            let there = d.catalog.result_loc.contains_key(id);
            let at = d.catalog.result_loc[id];
            let own = own_answer(d, at, id, a.attester@);
            let posted = own_quest(d, at.0, a.attester@);
            &&& d.judge_verify(a) == granted() <==> fit && there && !own && !posted
            &&& d.judge_verify(a) == Err::<(), Refusal>(Refusal::Unsigned(Seal::Verify)) <==> !a.signed
            &&& d.judge_verify(a) == Err::<(), Refusal>(Refusal::NoAccount(Gate::Verify)) <==> a.signed && !fit
            &&& d.judge_verify(a) == Err::<(), Refusal>(Refusal::NoSuchResult) <==> fit && !there
            &&& d.judge_verify(a) == Err::<(), Refusal>(Refusal::OwnResult) <==> fit && there && own
            &&& d.judge_verify(a) == Err::<(), Refusal>(Refusal::OwnQuestVerdict) <==> fit && there && !own && posted
        }),
{
    let id = a.artifact_id@;
    let at = d.catalog.result_loc[id];
    let rs = list_at(d.catalog.results, at);
    if d.own_result(id, a.attester@) {
        let i = choose|i: int|
            0 <= i < rs.len() && (#[trigger] rs[i]).id@ == id && d.unit(rs[i].worker@) == d.unit(a.attester@);
        assert(list_at(d.catalog.results, at)[i].id@ == id);
    }
    if own_answer(d, at, id, a.attester@) {
        let i = choose|i: int|
            0 <= i < list_at(d.catalog.results, at).len() && (#[trigger] list_at(d.catalog.results, at)[i]).id@ == id
                && d.accounts.unit_of(list_at(d.catalog.results, at)[i].worker@) == d.accounts.unit_of(a.attester@);
        assert(rs[i].id@ == id);
    }
}

/// A boost is let in exactly where it is signed, spends something, its booster may publish,
/// and the booster's account has what it spends.
pub proof fn law_boosts_are_let_in(d: DirectoryModel, b: Boost, now: i64)
    ensures
        ({
            let have = d.balance(d.accounts.unit_of(b.booster@), now);
            &&& d.judge_boost(b, now) == granted() <==> b.signed && b.amount > 0 && may_publish(d, b.booster@) && have >= b.amount
            &&& d.judge_boost(b, now) == Err::<(), Refusal>(Refusal::Unsigned(Seal::Boost)) <==> !b.signed
            &&& d.judge_boost(b, now) == Err::<(), Refusal>(Refusal::EmptyBoost) <==> b.signed && b.amount == 0
            &&& d.judge_boost(b, now) == Err::<(), Refusal>(Refusal::NoAccount(Gate::Boost)) <==> b.signed && b.amount > 0
                && !may_publish(d, b.booster@)
            &&& b.signed && b.amount > 0 && may_publish(d, b.booster@) && have < b.amount ==> d.judge_boost(b, now) == Err::<
                (),
                Refusal,
            >(Refusal::CannotBoost { have, cost: b.amount })
        }),
{
}

/// A quest is closed exactly where the close is signed by an agent of the account that
/// posted it.
pub proof fn law_closes_are_let_in(d: DirectoryModel, c: QuestClose)
    ensures
        ({
            let there = d.catalog.quests.contains_key(c.quest@);
            &&& d.judge_close(c) == granted() <==> c.signed && own_quest(d, c.quest@, c.author@)
            &&& d.judge_close(c) == Err::<(), Refusal>(Refusal::Unsigned(Seal::Close)) <==> !c.signed
            &&& d.judge_close(c) == Err::<(), Refusal>(Refusal::NoSuchQuest) <==> c.signed && !there
            &&& d.judge_close(c) == Err::<(), Refusal>(Refusal::NotTheAuthorsAccount) <==> c.signed && there && !own_quest(
                d,
                c.quest@,
                c.author@,
            )
        }),
{
}

/// Closing counts each task that nobody settled, and a quest is completed exactly where it
/// has tasks and that count is zero.
pub proof fn law_closing_counts_what_is_left(d: DirectoryModel, q: Quest)
    ensures
        d.unsettled(q).len() == places_of(q.tasks@, |t: Task| d.settlement(q.id@, t.id@) is None).len(),
        d.all_settled(q.id@, q.tasks@) <==> q.tasks@.len() > 0 && d.unsettled(q).len() == 0,
{
    let p = |t: Task| d.settlement(q.id@, t.id@) is None;
    lemma_filter_count(q.tasks@, p);
    crate::seqs::lemma_filter_holds(q.tasks@, p);
    if d.unsettled(q).len() == 0 {
        assert forall|i: int| 0 <= i < q.tasks@.len() implies d.settlement(q.id@, (#[trigger] q.tasks@[i]).id@) is Some by {
            if p(q.tasks@[i]) {
                crate::laws::lists::lemma_filter_keeps(q.tasks@, p, i);
                assert(q.tasks@.filter(p).contains(q.tasks@[i]));
            }
        }
    } else {
        let t = d.unsettled(q)[0];
        assert(p(t) && q.tasks@.contains(t));
    }
}

/// A piece of an account's own work is taken exactly where the claim is signed by an agent
/// of that account and no other agent holds it.
pub proof fn law_own_claims_are_let_in(d: DirectoryModel, c: HordeClaim, now: i64)
    ensures
        ({
            let there = d.catalog.horde_tasks.contains_key(c.task@);
            let own = d.accounts.unit_of(d.catalog.horde_tasks[c.task@].author@) == d.accounts.unit_of(c.worker@);
            let held = d.horde_claim_on(c.task@, now) is Some && d.horde_claim_on(c.task@, now)->Some_0.worker@ != c.worker@;
            &&& d.judge_horde_claim(c, now) == granted() <==> c.signed && there && own && !held
            &&& d.judge_horde_claim(c, now) == Err::<(), Refusal>(Refusal::Unsigned(Seal::HordeClaim)) <==> !c.signed
            &&& d.judge_horde_claim(c, now) == Err::<(), Refusal>(Refusal::NoSuchHordeTask) <==> c.signed && !there
            &&& d.judge_horde_claim(c, now) == Err::<(), Refusal>(Refusal::StrangerClaim) <==> c.signed && there && !own
            &&& d.judge_horde_claim(c, now) == Err::<(), Refusal>(Refusal::HordeTaskHeld) <==> c.signed && there && own && held
        }),
{
}

/// A piece of an account's own work is answered exactly where the answer is signed by an
/// agent of that account.
pub proof fn law_own_answers_are_let_in(d: DirectoryModel, r: HordeResult)
    ensures
        ({
            let there = d.catalog.horde_tasks.contains_key(r.task@);
            let own = d.accounts.unit_of(d.catalog.horde_tasks[r.task@].author@) == d.accounts.unit_of(r.worker@);
            &&& d.judge_horde_result(r) == granted() <==> r.signed && there && own
            &&& d.judge_horde_result(r) == Err::<(), Refusal>(Refusal::Unsigned(Seal::HordeResult)) <==> !r.signed
            &&& d.judge_horde_result(r) == Err::<(), Refusal>(Refusal::NoSuchHordeTask) <==> r.signed && !there
            &&& d.judge_horde_result(r) == Err::<(), Refusal>(Refusal::StrangerResult) <==> r.signed && there && !own
        }),
{
}

/// A task is taken exactly where the claim is signed, the worker may publish, the task is
/// there, the worker's account did not post it, and no other worker holds it.
pub proof fn law_claims_are_let_in(d: DirectoryModel, c: TaskClaim, now: i64)
    ensures
        ({
            let fit = c.signed && may_publish(d, c.worker@);
            let there = d.catalog.quests.contains_key(c.quest@);
            let task = task_is_there(d, c.quest@, c.task@);
            let own = own_quest(d, c.quest@, c.worker@);
            let holder = d.claim_on(c.quest@, c.task@, now);
            let held = holder is Some && holder->Some_0.worker@ != c.worker@;
            &&& d.judge_claim(c, now) == granted() <==> fit && task && !own && !held
            &&& d.judge_claim(c, now) == Err::<(), Refusal>(Refusal::Unsigned(Seal::Claim)) <==> !c.signed
            &&& d.judge_claim(c, now) == Err::<(), Refusal>(Refusal::NoAccount(Gate::Claim)) <==> c.signed && !fit
            &&& d.judge_claim(c, now) == Err::<(), Refusal>(Refusal::NoSuchQuest) <==> fit && !there
            &&& d.judge_claim(c, now) == Err::<(), Refusal>(Refusal::NoSuchTask) <==> fit && there && !task
            &&& d.judge_claim(c, now) == Err::<(), Refusal>(Refusal::OwnQuestClaim) <==> fit && task && own
            &&& d.judge_claim(c, now) == Err::<(), Refusal>(Refusal::TaskHeld) <==> fit && task && !own && held
        }),
{
    if d.catalog.quests.contains_key(c.quest@) {
        lemma_task_is_there(d, c.quest@, c.task@);
    }
}

/// A task is answered exactly where the result is signed, the worker may publish, the task
/// is there, and the worker's account did not post it. Who holds the task does not matter.
pub proof fn law_results_are_let_in(d: DirectoryModel, r: TaskResult)
    ensures
        ({
            let fit = r.signed && may_publish(d, r.worker@);
            let there = d.catalog.quests.contains_key(r.quest@);
            let task = task_is_there(d, r.quest@, r.task@);
            let own = own_quest(d, r.quest@, r.worker@);
            &&& d.judge_result(r) == granted() <==> fit && task && !own
            &&& d.judge_result(r) == Err::<(), Refusal>(Refusal::Unsigned(Seal::Result)) <==> !r.signed
            &&& d.judge_result(r) == Err::<(), Refusal>(Refusal::NoAccount(Gate::Result)) <==> r.signed && !fit
            &&& d.judge_result(r) == Err::<(), Refusal>(Refusal::NoSuchQuest) <==> fit && !there
            &&& d.judge_result(r) == Err::<(), Refusal>(Refusal::NoSuchTask) <==> fit && there && !task
            &&& d.judge_result(r) == Err::<(), Refusal>(Refusal::OwnQuestResult) <==> fit && task && own
        }),
{
    if d.catalog.quests.contains_key(r.quest@) {
        lemma_task_is_there(d, r.quest@, r.task@);
    }
}

/// What is missing is answered 404, what is taken or held 409, what the account cannot pay
/// for 402, who is not logged in 401, who has no right to it 403, and what is malformed 400.
pub proof fn law_statuses(x: Refusal)
    ensures
        x.code() == 404 <==> x is NoSuchArtifact || x is NoSuchScroll || x is NoSuchQuest || x is NoSuchTask || x is NoSuchTaskResult
            || x is NoSuchResult || x is NoSuchHordeTask,
        x.code() == 409 <==> x is NameTaken || x is TaskHeld || x is HordeTaskHeld,
        x.code() == 402 <==> x is CannotStake || x is CannotBoost,
        x.code() == 401 <==> x is BadSession || x is NotLoggedIn,
        x.code() == 403 <==> x is NoAccount || x is NotTheAuthor || x is NotTheAuthorsAccount || x is OwnResult || x is OwnQuestVerdict
            || x is OwnQuestClaim || x is OwnQuestResult || x is StrangerClaim || x is StrangerResult,
        x.code() == 400 <==> x is Unsigned || x is NotAKey || x is WrongParent || x is EmptyBoost || x is BadVerifyToken
            || x is BadLoginToken,
{
}

} // verus!
