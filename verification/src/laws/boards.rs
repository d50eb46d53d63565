//! Laws of the boards: they show all the work that is to be had, once, and each task as it
//! stands.

use crate::board::{HordeView, QuestStatus, TaskState, TaskStatus};
use crate::credits::boosted;
use crate::directory::DirectoryModel;
use crate::laws::catalog::{sound_horde_tasks, sound_quests};
use crate::laws::credits::sum;
use crate::laws::lists::{
    lemma_by_rank_distinct, lemma_by_rank_order, lemma_filter_count, lemma_filter_distinct, lemma_filter_keeps, lemma_values,
    lemma_values_distinct, places_of,
};
use crate::laws::settlement::{law_holder_of_a_task, law_holder_of_own_work};
use crate::order::{by_rank, lemma_by_rank_keeps, newest_first, oldest_first, RankKey};
use crate::ordmap::{list_at, values_of};
use crate::records::{Boost, HordeTask, Quest, Str, Task};
use crate::seqs::lemma_filter_holds;
use crate::text::texts;
use vstd::prelude::*;
use vstd::set_lib::{lemma_int_range, lemma_subset_equality, set_int_range};

verus! {

// ---- tasks ----

/// Nobody holds the task: every claim on it is older than 1800 seconds.
pub open spec fn unclaimed(d: DirectoryModel, quest: Str, task: Str, now: i64) -> bool {
    forall|i: int|
        0 <= i < list_at(d.catalog.claims, (quest, task)).len() ==> now - (#[trigger] list_at(d.catalog.claims, (quest, task))[i]).created_ts
            >= 1800
}

/// The task is to be had: it is not settled, it has no result and nobody holds it.
pub open spec fn to_be_had(d: DirectoryModel, quest: Str, task: Str, now: i64) -> bool {
    &&& d.settlement(quest, task) is None
    &&& list_at(d.catalog.results, (quest, task)).len() == 0
    &&& unclaimed(d, quest, task, now)
}

/// A task is open just when it is to be had.
pub proof fn law_open_is_to_be_had(d: DirectoryModel, quest: Str, task: Str, now: i64)
    ensures
        d.is_open(quest, task, now) <==> to_be_had(d, quest, task, now),
{
    law_holder_of_a_task(d, quest, task, now);
}

/// The open tasks of a quest are those to be had, each counted once.
pub proof fn law_open_tasks_are_counted(d: DirectoryModel, q: Quest, now: i64)
    ensures
        d.open_tasks(q, now).len() == places_of(q.tasks@, |t: Task| to_be_had(d, q.id@, t.id@, now)).len(),
        d.open_tasks(q, now).len() > 0 <==> exists|i: int|
            0 <= i < q.tasks@.len() && to_be_had(d, q.id@, (#[trigger] q.tasks@[i]).id@, now),
{
    let p = |t: Task| d.is_open(q.id@, t.id@, now);
    let h = |t: Task| to_be_had(d, q.id@, t.id@, now);
    assert forall|t: Task| p(t) == #[trigger] h(t) by {
        law_open_is_to_be_had(d, q.id@, t.id@, now);
    }
    lemma_filter_count(q.tasks@, p);
    assert(places_of(q.tasks@, p) =~= places_of(q.tasks@, h)) by {
        assert forall|i: int| places_of(q.tasks@, p).contains(i) == places_of(q.tasks@, h).contains(i) by {
            if 0 <= i < q.tasks@.len() {
                assert(p(q.tasks@[i]) == h(q.tasks@[i]));
            }
        }
    }
    lemma_filter_holds(q.tasks@, p);
    if d.open_tasks(q, now).len() > 0 {
        let t = q.tasks@.filter(p)[0];
        assert(p(t) && q.tasks@.contains(t));
        let i = choose|i: int| 0 <= i < q.tasks@.len() && q.tasks@[i] == t;
        assert(h(q.tasks@[i]));
    }
    if exists|i: int| 0 <= i < q.tasks@.len() && to_be_had(d, q.id@, (#[trigger] q.tasks@[i]).id@, now) {
        let i = choose|i: int| 0 <= i < q.tasks@.len() && to_be_had(d, q.id@, (#[trigger] q.tasks@[i]).id@, now);
        assert(h(q.tasks@[i]));
        lemma_filter_keeps(q.tasks@, p, i);
    }
}

/// A task is solved once it settled; else pending while it has a result; else claimed while a
/// claim holds it; else open.
pub proof fn law_task_status(d: DirectoryModel, quest: Str, task: Str, now: i64)
    ensures
        d.task_standing(quest, task, now) == TaskStatus::Solved <==> d.settlement(quest, task) is Some,
        d.task_standing(quest, task, now) == TaskStatus::Pending <==> d.settlement(quest, task) is None && list_at(
            d.catalog.results,
            (quest, task),
        ).len() > 0,
        d.task_standing(quest, task, now) == TaskStatus::Claimed <==> d.settlement(quest, task) is None && list_at(
            d.catalog.results,
            (quest, task),
        ).len() == 0 && !unclaimed(d, quest, task, now),
        d.task_standing(quest, task, now) == TaskStatus::Open <==> to_be_had(d, quest, task, now),
{
    law_holder_of_a_task(d, quest, task, now);
}

/// What is shown of a task is where it stands, who holds it, how many results it has and
/// which account solved it.
pub proof fn law_shown_task(d: DirectoryModel, s: TaskState, quest: Str, t: Task, now: i64)
    requires
        d.shows_task(s, quest, t, now),
    ensures
        *s.task == t,
        s.status == d.task_standing(quest, t.id@, now),
        s.results == list_at(d.catalog.results, (quest, t.id@)).len(),
        s.claimant is Some <==> list_at(d.catalog.results, (quest, t.id@)).len() == 0 && !unclaimed(d, quest, t.id@, now),
        s.claimant matches Some(w) ==> d.claim_on(quest, t.id@, now) is Some && w == d.claim_on(quest, t.id@, now)->Some_0.worker,
        s.solver is Some <==> d.settlement(quest, t.id@) is Some,
        s.solver matches Some(u) ==> u@ == d.settlement(quest, t.id@)->Some_0.0,
{
    law_holder_of_a_task(d, quest, t.id@, now);
}

/// A quest is done when it has tasks and all of them settled. Closed it is then completed,
/// else withdrawn; not closed it is then complete, else open.
pub proof fn law_quest_status(d: DirectoryModel, quest: Str, q: Quest)
    ensures
        ({
            let done = q.tasks@.len() > 0 && forall|i: int|
                0 <= i < q.tasks@.len() ==> d.settlement(quest, (#[trigger] q.tasks@[i]).id@) is Some;
            let closed = d.catalog.closed.contains_key(quest);
            &&& d.quest_standing(quest, q) == QuestStatus::Completed <==> closed && done
            &&& d.quest_standing(quest, q) == QuestStatus::Withdrawn <==> closed && !done
            &&& d.quest_standing(quest, q) == QuestStatus::Complete <==> !closed && done
            &&& d.quest_standing(quest, q) == QuestStatus::Open <==> !closed && !done
        }),
{
}

// ---- boosts ----

proof fn lemma_boosted(boosts: Seq<Boost>, target: Str)
    ensures
        boosted(boosts, target) == sum(boosts, |b: Boost| if b.target@ == target { b.amount as int } else { 0 }),
    decreases boosts.len(),
{
    if boosts.len() > 0 {
        lemma_boosted(boosts.drop_last(), target);
    }
}

/// What boosts a quest or a scroll is all that was spent on it, as far as 64 bits hold. One
/// more boost adds what it spends to its target and to nothing else.
pub proof fn law_boosts_add_up(d: DirectoryModel, target: Str, b: Boost)
    ensures
        ({
            let spent = sum(d.catalog.boosts, |b: Boost| if b.target@ == target { b.amount as int } else { 0 });
            &&& spent <= u64::MAX ==> d.boost_of(target) == spent
            &&& spent > u64::MAX ==> d.boost_of(target) == u64::MAX
        }),
        b.signed && (forall|i: int| 0 <= i < d.catalog.boosts.len() ==> (#[trigger] d.catalog.boosts[i]).sig@ != b.sig@) ==> {
            let after = DirectoryModel { catalog: d.catalog.with_boost(b), ..d };
            &&& target != b.target@ ==> after.boost_of(target) == d.boost_of(target)
            &&& target == b.target@ ==> after.boost_of(target) == if d.boost_of(target) + b.amount <= u64::MAX {
                d.boost_of(target) + b.amount
            } else {
                u64::MAX as int
            }
        },
{
    lemma_boosted(d.catalog.boosts, target);
    let more = d.catalog.boosts.push(b);
    assert(more.drop_last() =~= d.catalog.boosts);
}

// ---- the quest board ----

/// The quest is to be shown to workers: it is neither closed nor expired, it has the sigil
/// that is asked for, and one of its tasks is to be had.
pub open spec fn offers_work(d: DirectoryModel, q: Quest, sigil: Option<Str>, now: i64) -> bool {
    &&& !d.catalog.closed.contains_key(q.id@)
    &&& q.deadline_ts == 0 || now < q.deadline_ts
    &&& sigil matches Some(s) ==> exists|j: int| 0 <= j < q.sigils@.len() && (#[trigger] q.sigils@[j])@ == s
    &&& exists|i: int| 0 <= i < q.tasks@.len() && to_be_had(d, q.id@, (#[trigger] q.tasks@[i]).id@, now)
}

proof fn lemma_on_offer(d: DirectoryModel, q: Quest, sigil: Option<Str>, now: i64)
    ensures
        d.on_offer(q, sigil, now) <==> offers_work(d, q, sigil, now),
{
    law_open_tasks_are_counted(d, q, now);
    if let Some(s) = sigil {
        let all = texts(q.sigils@);
        if all.contains(s) {
            let j = choose|j: int| 0 <= j < all.len() && all[j] == s;
            assert(q.sigils@[j]@ == s);
        }
        if exists|j: int| 0 <= j < q.sigils@.len() && (#[trigger] q.sigils@[j])@ == s {
            let j = choose|j: int| 0 <= j < q.sigils@.len() && (#[trigger] q.sigils@[j])@ == s;
            assert(all[j] == s);
        }
    }
}

/// The board shows every quest of the catalog that has work to be had, and none else, each
/// once: the most boosted first, and of those boosted alike the newest.
pub proof fn law_quest_board(d: DirectoryModel, sigil: Option<Str>, now: i64)
    requires
        d.catalog.quests.dom().finite(),
        sound_quests(d.catalog.quests),
    ensures
        d.quest_board(sigil, now).no_duplicates(),
        forall|q: Quest| #[trigger]
            d.quest_board(sigil, now).contains(q) <==> offers_work(d, q, sigil, now) && exists|k: Str| #[trigger]
                d.catalog.quests.contains_key(k) && d.catalog.quests[k] == q,
        forall|i: int, j: int|
            0 <= i < j < d.quest_board(sigil, now).len() ==> {
                let a = #[trigger] d.quest_board(sigil, now)[i];
                let b = #[trigger] d.quest_board(sigil, now)[j];
                d.boost_of(a.id@) > d.boost_of(b.id@) || (d.boost_of(a.id@) == d.boost_of(b.id@) && a.created_ts
                    >= b.created_ts)
            },
{
    let p = |q: Quest| d.on_offer(q, sigil, now);
    let all = values_of(d.catalog.quests);
    let offers = all.filter(p);
    let key = |q: Quest| RankKey { first: d.boost_of(q.id@) as i128, second: q.created_ts as i128, third: 0 };
    let keys = offers.map_values(key);
    let board = d.quest_board(sigil, now);
    assert(board == by_rank(offers, keys));
    assert forall|a: Str, b: Str| #[trigger]
        d.catalog.quests.contains_key(a) && #[trigger] d.catalog.quests.contains_key(b) && a != b implies d.catalog.quests[a]
        != d.catalog.quests[b] by {
        assert(d.catalog.quests[a].id@ == a && d.catalog.quests[b].id@ == b);
    }
    lemma_values_distinct(d.catalog.quests);
    lemma_filter_distinct(all, p);
    lemma_by_rank_distinct(offers, keys);
    lemma_by_rank_keeps(offers, keys);
    lemma_by_rank_order(offers, key);
    lemma_filter_holds(all, p);
    assert forall|q: Quest| #[trigger] board.contains(q) <==> offers_work(d, q, sigil, now) && exists|k: Str| #[trigger]
        d.catalog.quests.contains_key(k) && d.catalog.quests[k] == q by {
        lemma_values(d.catalog.quests, q);
        lemma_on_offer(d, q, sigil, now);
        if board.contains(q) {
            let i = choose|i: int| 0 <= i < board.len() && board[i] == q;
            assert(offers.contains(by_rank(offers, keys)[i]));
            let k = choose|k: int| 0 <= k < offers.len() && offers[k] == q;
            assert(p(all.filter(p)[k]) && all.contains(all.filter(p)[k]));
        }
        if p(q) && all.contains(q) {
            let i = choose|i: int| 0 <= i < all.len() && all[i] == q;
            lemma_filter_keeps(all, p, i);
            let k = choose|k: int| 0 <= k < offers.len() && offers[k] == q;
            assert(board.contains(offers[k]));
        }
    }
}

// ---- the private board ----

/// A piece of the account's own work is solved once it has a result; else claimed while a
/// claim holds it; else open.
pub proof fn law_own_work_status(d: DirectoryModel, task: Str, now: i64)
    ensures
        ({
            let cs = list_at(d.catalog.horde_claims, task);
            let answered = list_at(d.catalog.horde_results, task).len() > 0;
            let held = exists|i: int| 0 <= i < cs.len() && now - (#[trigger] cs[i]).created_ts < 1800;
            &&& d.horde_standing(task, now) == TaskStatus::Solved <==> answered
            &&& d.horde_standing(task, now) == TaskStatus::Claimed <==> !answered && held
            &&& d.horde_standing(task, now) == TaskStatus::Open <==> !answered && !held
        }),
{
    law_holder_of_own_work(d, task, now);
}

/// What is shown of a piece of the account's own work is where it stands, who holds it, and
/// the latest answer with whoever gave it.
pub proof fn law_shown_own_work(d: DirectoryModel, v: HordeView, t: HordeTask, now: i64)
    requires
        d.shows_horde_task(v, t, now),
    ensures
        *v.task == t,
        v.status == d.horde_standing(t.id@, now),
        v.claimant is Some <==> d.horde_claim_on(t.id@, now) is Some,
        v.claimant matches Some(w) ==> w == d.horde_claim_on(t.id@, now)->Some_0.worker,
        v.output is Some <==> list_at(d.catalog.horde_results, t.id@).len() > 0,
        v.worker is Some <==> v.output is Some,
        v.output matches Some(o) ==> o == list_at(d.catalog.horde_results, t.id@).last().output,
        v.worker matches Some(w) ==> w == list_at(d.catalog.horde_results, t.id@).last().worker,
{
}

/// The work was posted by an agent of the account of `agent`, under the run that is asked
/// for.
pub open spec fn own_work(d: DirectoryModel, t: HordeTask, agent: Str, run: Option<Str>) -> bool {
    &&& d.accounts.unit_of(t.author@) == d.accounts.unit_of(agent)
    &&& run matches Some(r) ==> t.run@ == r
}

/// An agent is shown all the open work of its own account, and no other, each piece once, the
/// newest first.
pub proof fn law_own_board(d: DirectoryModel, agent: Str, run: Option<Str>, now: i64)
    requires
        d.catalog.horde_tasks.dom().finite(),
        sound_horde_tasks(d.catalog.horde_tasks),
    ensures
        d.horde_board(agent, run, now).no_duplicates(),
        forall|t: HordeTask| #[trigger]
            d.horde_board(agent, run, now).contains(t) <==> own_work(d, t, agent, run) && d.horde_standing(t.id@, now)
                == TaskStatus::Open && exists|k: Str| #[trigger]
                d.catalog.horde_tasks.contains_key(k) && d.catalog.horde_tasks[k] == t,
        forall|i: int, j: int|
            0 <= i < j < d.horde_board(agent, run, now).len() ==> (#[trigger] d.horde_board(agent, run, now)[i]).created_ts >= (
            #[trigger] d.horde_board(agent, run, now)[j]).created_ts,
{
    let m = d.catalog.horde_tasks;
    let p = |t: HordeTask| d.on_board(t, agent, run) && d.horde_standing(t.id@, now) == TaskStatus::Open;
    let all = values_of(m);
    let open = all.filter(p);
    let key = |t: HordeTask| newest_first(t.created_ts);
    let keys = open.map_values(key);
    let board = d.horde_board(agent, run, now);
    assert(board == by_rank(open, keys));
    lemma_own_distinct(d);
    lemma_filter_distinct(all, p);
    lemma_by_rank_distinct(open, keys);
    lemma_by_rank_keeps(open, keys);
    lemma_by_rank_order(open, key);
    lemma_filter_holds(all, p);
    assert forall|t: HordeTask| #[trigger] board.contains(t) <==> own_work(d, t, agent, run) && d.horde_standing(t.id@, now)
        == TaskStatus::Open && exists|k: Str| #[trigger] m.contains_key(k) && m[k] == t by {
        lemma_values(m, t);
        if board.contains(t) {
            let i = choose|i: int| 0 <= i < board.len() && board[i] == t;
            assert(open.contains(by_rank(open, keys)[i]));
            let k = choose|k: int| 0 <= k < open.len() && open[k] == t;
            assert(p(all.filter(p)[k]) && all.contains(all.filter(p)[k]));
        }
        if p(t) && all.contains(t) {
            let i = choose|i: int| 0 <= i < all.len() && all[i] == t;
            lemma_filter_keeps(all, p, i);
            let k = choose|k: int| 0 <= k < open.len() && open[k] == t;
            assert(board.contains(open[k]));
        }
    }
}

proof fn lemma_own_distinct(d: DirectoryModel)
    requires
        d.catalog.horde_tasks.dom().finite(),
        sound_horde_tasks(d.catalog.horde_tasks),
    ensures
        values_of(d.catalog.horde_tasks).no_duplicates(),
{
    let m = d.catalog.horde_tasks;
    assert forall|a: Str, b: Str| #[trigger] m.contains_key(a) && #[trigger] m.contains_key(b) && a != b implies m[a] != m[b] by {
        assert(m[a].id@ == a && m[b].id@ == b);
    }
    lemma_values_distinct(m);
}

/// A run shows all the work of the account under its name, solved or not, and no other, each
/// piece once, the oldest first.
pub proof fn law_own_run(d: DirectoryModel, agent: Str, run: Str)
    requires
        d.catalog.horde_tasks.dom().finite(),
        sound_horde_tasks(d.catalog.horde_tasks),
    ensures
        d.run_tasks(agent, run).no_duplicates(),
        forall|t: HordeTask| #[trigger]
            d.run_tasks(agent, run).contains(t) <==> own_work(d, t, agent, Some(run)) && exists|k: Str| #[trigger]
                d.catalog.horde_tasks.contains_key(k) && d.catalog.horde_tasks[k] == t,
        forall|i: int, j: int|
            0 <= i < j < d.run_tasks(agent, run).len() ==> (#[trigger] d.run_tasks(agent, run)[i]).created_ts <= (
            #[trigger] d.run_tasks(agent, run)[j]).created_ts,
{
    let m = d.catalog.horde_tasks;
    let p = |t: HordeTask| d.on_board(t, agent, Some(run));
    let all = values_of(m);
    let mine = all.filter(p);
    let key = |t: HordeTask| oldest_first(t.created_ts);
    let keys = mine.map_values(key);
    let board = d.run_tasks(agent, run);
    assert(board == by_rank(mine, keys));
    lemma_own_distinct(d);
    lemma_filter_distinct(all, p);
    lemma_by_rank_distinct(mine, keys);
    lemma_by_rank_keeps(mine, keys);
    lemma_by_rank_order(mine, key);
    lemma_filter_holds(all, p);
    assert forall|t: HordeTask| #[trigger] board.contains(t) <==> own_work(d, t, agent, Some(run)) && exists|k: Str| #[trigger]
        m.contains_key(k) && m[k] == t by {
        lemma_values(m, t);
        if board.contains(t) {
            let i = choose|i: int| 0 <= i < board.len() && board[i] == t;
            assert(mine.contains(by_rank(mine, keys)[i]));
            let k = choose|k: int| 0 <= k < mine.len() && mine[k] == t;
            assert(p(all.filter(p)[k]) && all.contains(all.filter(p)[k]));
        }
        if p(t) && all.contains(t) {
            let i = choose|i: int| 0 <= i < all.len() && all[i] == t;
            lemma_filter_keeps(all, p, i);
            let k = choose|k: int| 0 <= k < mine.len() && mine[k] == t;
            assert(board.contains(mine[k]));
        }
    }
}

/// A run counts as solved each piece of it that has an answer, and is complete exactly where
/// it has pieces and each of them has one.
pub proof fn law_run_is_complete(d: DirectoryModel, agent: Str, run: Str, now: i64)
    ensures
        d.run_solved(agent, run, now).len() == places_of(
            d.run_tasks(agent, run),
            |t: HordeTask| list_at(d.catalog.horde_results, t.id@).len() > 0,
        ).len(),
        d.run_complete(agent, run, now) <==> d.run_tasks(agent, run).len() > 0 && forall|i: int|
            0 <= i < d.run_tasks(agent, run).len() ==> list_at(
                d.catalog.horde_results,
                (#[trigger] d.run_tasks(agent, run)[i]).id@,
            ).len() > 0,
{
    let all = d.run_tasks(agent, run);
    let p = |t: HordeTask| d.horde_standing(t.id@, now) == TaskStatus::Solved;
    let q = |t: HordeTask| list_at(d.catalog.horde_results, t.id@).len() > 0;
    lemma_filter_count(all, p);
    assert(places_of(all, p) =~= places_of(all, q));
    let full = set_int_range(0, all.len() as int);
    lemma_int_range(0, all.len() as int);
    assert(places_of(all, p).subset_of(full));
    if d.run_complete(agent, run, now) {
        lemma_subset_equality(places_of(all, p), full);
        assert forall|i: int| 0 <= i < all.len() implies list_at(d.catalog.horde_results, (#[trigger] all[i]).id@).len() > 0 by {
            assert(full.contains(i));
            assert(places_of(all, q).contains(i));
        }
    }
    if forall|i: int| 0 <= i < all.len() ==> list_at(d.catalog.horde_results, (#[trigger] all[i]).id@).len() > 0 {
        assert(places_of(all, q) =~= full);
    }
}

} // verus!
