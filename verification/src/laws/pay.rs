//! Laws of pay: what an account has, reckoned from what was posted, solved, vouched for and
//! boosted; and that pay once earned stays.

use crate::admission::granted;
use crate::credits::{mentions, net, share, task_ids, voucher_fee, Move};
use crate::directory::DirectoryModel;
use crate::laws::catalog::sound;
use crate::laws::credits::{lemma_net_concat, lemma_net_map, lemma_sum_ext, lemma_sum_nonnegative, lemma_sum_zero, sum};
use crate::laws::lists::lemma_keys_distinct;
use crate::laws::quests::law_settlement_is_independent;
use crate::laws::settlement::{accepted_at, law_settlement, posters_own};
use crate::ordmap::{lemma_keys_listed, list_at, sorted_keys};
use crate::records::{Boost, Quest, Str, Task, TaskAccept};
use crate::seqs::concat_map;
use vstd::prelude::*;

verus! {

// ---- sums ----

proof fn lemma_sum_minus<A>(s: Seq<A>, f: spec_fn(A) -> int, g: spec_fn(A) -> int, h: spec_fn(A) -> int)
    requires
        forall|i: int| 0 <= i < s.len() ==> f(#[trigger] s[i]) - g(s[i]) == h(s[i]),
    ensures
        sum(s, f) - sum(s, g) == sum(s, h),
    decreases s.len(),
{
    if s.len() > 0 {
        let t = s.drop_last();
        assert forall|i: int| 0 <= i < t.len() implies f(#[trigger] t[i]) - g(t[i]) == h(t[i]) by {
            assert(t[i] == s[i]);
        }
        lemma_sum_minus(t, f, g, h);
        assert(f(s[s.len() - 1]) - g(s[s.len() - 1]) == h(s[s.len() - 1]));
    }
}

/// A sum of which at most one part counts is that part.
proof fn lemma_sum_one<A>(s: Seq<A>, f: spec_fn(A) -> int, at: int)
    requires
        0 <= at < s.len(),
        forall|i: int| 0 <= i < s.len() && i != at ==> f(#[trigger] s[i]) == 0,
    ensures
        sum(s, f) == f(s[at]),
    decreases s.len(),
{
    let t = s.drop_last();
    if at == s.len() - 1 {
        assert forall|i: int| 0 <= i < t.len() implies f(#[trigger] t[i]) == 0 by {
            assert(t[i] == s[i]);
        }
        lemma_sum_zero(t, f);
    } else {
        assert forall|i: int| 0 <= i < t.len() && i != at implies f(#[trigger] t[i]) == 0 by {
            assert(t[i] == s[i]);
        }
        lemma_sum_one(t, f, at);
        assert(f(s[s.len() - 1]) == 0);
    }
}

proof fn lemma_net_of_one(m: Move, u: Str)
    ensures
        net(seq![m], u) == if m.unit == u {
            m.delta
        } else {
            0
        },
{
    let s = seq![m];
    assert(s.drop_last() =~= Seq::<Move>::empty());
    assert(net(s.drop_last(), u) == 0);
}

/// Equal gains of distinct units come to one gain for each of them.
proof fn lemma_net_of_fees(vs: Seq<Str>, fee: int, u: Str)
    requires
        vs.no_duplicates(),
    ensures
        net(vs.map_values(|v: Str| Move { unit: v, delta: fee }), u) == if vs.contains(u) {
            fee
        } else {
            0
        },
    decreases vs.len(),
{
    let f = |v: Str| Move { unit: v, delta: fee };
    let ms = vs.map_values(f);
    if vs.len() > 0 {
        let t = vs.drop_last();
        assert forall|i: int, j: int| 0 <= i < t.len() && 0 <= j < t.len() && i != j implies t[i] != t[j] by {
            assert(vs[i] != vs[j]);
        }
        lemma_net_of_fees(t, fee, u);
        assert(ms.drop_last() =~= t.map_values(f));
        if t.contains(u) {
            let i = choose|i: int| 0 <= i < t.len() && t[i] == u;
            assert(vs[i] == u);
            assert(vs[i] != vs[vs.len() - 1]);
        }
        if vs.contains(u) {
            let i = choose|i: int| 0 <= i < vs.len() && vs[i] == u;
            if i < t.len() {
                assert(t[i] == u);
            }
        }
        if vs.last() == u {
            assert(vs[vs.len() - 1] == u);
        }
    }
}

// ---- shares and fees ----

/// The bounty is divided evenly, and what does not divide is not staked: each task is worth
/// the most that all of them can be worth alike.
pub proof fn law_shares_are_even(q: Quest)
    ensures
        q.tasks@.len() == 0 ==> share(q) == 0,
        q.tasks@.len() > 0 ==> share(q) * q.tasks@.len() <= q.bounty < (share(q) + 1) * q.tasks@.len(),
{
    if q.tasks@.len() > 0 {
        crate::laws::quests::law_shares_are_covered(q);
    }
}

/// Those who vouched get alike, together a fifth of the task's worth, up to what does not
/// divide.
pub proof fn law_vouchers_share_a_fifth(worth: nat, n: nat)
    requires
        n > 0,
    ensures
        5 * (voucher_fee(worth, n) * n) <= worth,
        worth < 5 * ((voucher_fee(worth, n) + 1) * n),
{
    let pool = worth * 20 / 100;
    let fee = voucher_fee(worth, n);
    assert(worth * 20 / 100 == worth / 5) by (nonlinear_arith);
    assert(fee * n <= pool && pool < (fee + 1) * n) by (nonlinear_arith)
        requires
            n > 0,
            fee == pool / n,
    ;
}

// ---- what an account has ----

/// What a settled task comes to for `unit`: the author pays the task's worth, each account
/// that vouched gets its fee, and the solver the rest. It does not depend on the time.
pub open spec fn paid(author: Str, worth: int, fee: int, solver: Str, vs: Seq<Str>, unit: Str) -> int {
    (if unit == author { -worth } else { 0 }) + (if unit == solver { worth - fee * vs.len() } else { 0 }) + (if vs.contains(
        unit,
    ) {
        fee
    } else {
        0
    })
}

/// What each account that vouched gets.
pub open spec fn fee_for(worth: int, n: nat) -> int {
    if n == 0 {
        0
    } else {
        worth / (5 * n as int)
    }
}

/// What a task comes to for `unit` at `now`.
pub open spec fn task_due(d: DirectoryModel, q: Quest, task: Str, unit: Str, now: i64) -> int {
    let author = d.accounts.unit_of(q.author@);
    match d.settlement(q.id@, task) {
        Some((solver, vs)) => paid(author, share(q) as int, fee_for(share(q) as int, vs.len()), solver, vs, unit),
        None => if unit == author && !d.catalog.closed.contains_key(q.id@) && (q.deadline_ts == 0 || now < q.deadline_ts) {
            -(share(q) as int)
        } else {
            0
        },
    }
}

/// What the tasks of a quest come to for `unit` at `now`.
pub open spec fn quest_due(d: DirectoryModel, q: Quest, unit: Str, now: i64) -> int {
    sum(q.tasks@, |t: Task| task_due(d, q, t.id@, unit, now))
}

/// What `unit` burned on boosts.
pub open spec fn spent_on_boosts(d: DirectoryModel, unit: Str) -> int {
    sum(d.catalog.boosts, |b: Boost| if d.accounts.unit_of(b.booster@) == unit { b.amount as int } else { 0 })
}

proof fn lemma_fee(worth: nat, n: nat)
    requires
        n > 0,
    ensures
        voucher_fee(worth, n) == fee_for(worth as int, n),
{
    law_vouchers_share_a_fifth(worth, n);
    let fee = voucher_fee(worth, n) as int;
    let w = worth as int;
    let m = 5 * n as int;
    assert(fee * m <= w && w < (fee + 1) * m) by (nonlinear_arith)
        requires
            5 * (fee * n) <= w,
            w < 5 * ((fee + 1) * n),
            m == 5 * n,
    ;
    assert(fee == w / m) by (nonlinear_arith)
        requires
            fee * m <= w,
            w < (fee + 1) * m,
            m > 0,
    ;
}

/// A settled task moves its worth for good: from the author to the solver and to those who
/// vouched, at every time alike.
pub proof fn law_settled_work_is_paid_for_good(d: DirectoryModel, q: Quest, task: Str, unit: Str, now: i64)
    requires
        d.settlement(q.id@, task) is Some,
    ensures
        ({
            let (solver, vs) = d.settlement(q.id@, task)->Some_0;
            let worth = share(q) as int;
            net(d.task_moves(q, task, now), unit) == paid(
                d.accounts.unit_of(q.author@),
                worth,
                fee_for(worth, vs.len()),
                solver,
                vs,
                unit,
            )
        }),
        forall|later: i64| d.task_moves(q, task, now) == #[trigger] d.task_moves(q, task, later),
{
    let (solver, vs) = d.settlement(q.id@, task)->Some_0;
    let author = d.accounts.unit_of(q.author@);
    let worth = share(q) as int;
    law_settlement_is_independent(d, q.id@, task);
    let fee: int = if vs.len() == 0 {
        0
    } else {
        voucher_fee(share(q), vs.len()) as int
    };
    if vs.len() > 0 {
        lemma_fee(share(q), vs.len());
    }
    let a = Move { unit: author, delta: -worth };
    let b = Move { unit: solver, delta: worth - fee * vs.len() };
    let head = seq![a, b];
    let tail = vs.map_values(|v: Str| Move { unit: v, delta: fee });
    assert(head =~= seq![a] + seq![b]);
    lemma_net_concat(seq![a], seq![b], unit);
    lemma_net_of_one(a, unit);
    lemma_net_of_one(b, unit);
    lemma_net_concat(head, tail, unit);
    lemma_net_of_fees(vs, fee, unit);
    assert(d.task_moves(q, task, now) =~= head + tail);
}

proof fn lemma_task_due(d: DirectoryModel, q: Quest, task: Str, unit: Str, now: i64)
    ensures
        net(d.task_moves(q, task, now), unit) == task_due(d, q, task, unit, now),
{
    if d.settlement(q.id@, task) is Some {
        law_settled_work_is_paid_for_good(d, q, task, unit, now);
    } else {
        lemma_net_of_one(Move { unit: d.accounts.unit_of(q.author@), delta: -(share(q) as int) }, unit);
    }
}

proof fn lemma_worthless(d: DirectoryModel, q: Quest, task: Str, unit: Str, now: i64)
    requires
        share(q) == 0,
    ensures
        task_due(d, q, task, unit, now) == 0,
{
    if let Some((solver, vs)) = d.settlement(q.id@, task) {
        if vs.len() > 0 {
            let m = 5 * vs.len() as int;
            assert(0int / m == 0) by (nonlinear_arith)
                requires
                    m > 0,
            ;
        }
        assert(0 * vs.len() == 0);
    }
}

proof fn lemma_sum_of_ids(tasks: Seq<Task>, f: spec_fn(Str) -> int)
    ensures
        sum(task_ids(tasks), f) == sum(tasks, |t: Task| f(t.id@)),
    decreases tasks.len(),
{
    if tasks.len() > 0 {
        assert(task_ids(tasks).drop_last() =~= task_ids(tasks.drop_last()));
        lemma_sum_of_ids(tasks.drop_last(), f);
    }
}

proof fn lemma_quest_due(d: DirectoryModel, q: Quest, unit: Str, now: i64)
    ensures
        net(d.quest_moves(q, now), unit) == quest_due(d, q, unit, now),
{
    let head = seq![Move { unit: d.unit(q.author@), delta: 0 }];
    let dues = |t: Task| task_due(d, q, t.id@, unit, now);
    lemma_net_of_one(head[0], unit);
    if share(q) == 0 {
        assert forall|i: int| 0 <= i < q.tasks@.len() implies dues(#[trigger] q.tasks@[i]) == 0 by {
            lemma_worthless(d, q, q.tasks@[i].id@, unit, now);
        }
        lemma_sum_zero(q.tasks@, dues);
        assert(d.quest_moves(q, now) =~= head);
    } else {
        let f = |t: Str| d.task_moves(q, t, now);
        let ids = task_ids(q.tasks@);
        let g = |t: Str| net(f(t), unit);
        lemma_net_concat(head, concat_map(ids, f), unit);
        lemma_net_map(ids, f, unit);
        lemma_sum_of_ids(q.tasks@, g);
        let h = |t: Task| g(t.id@);
        assert forall|i: int| 0 <= i < q.tasks@.len() implies h(#[trigger] q.tasks@[i]) == dues(q.tasks@[i]) by {
            lemma_task_due(d, q, q.tasks@[i].id@, unit, now);
        }
        lemma_sum_ext(q.tasks@, h, dues);
    }
}

proof fn lemma_boosts_due(d: DirectoryModel, boosts: Seq<Boost>, unit: Str)
    ensures
        net(
            boosts.map_values(|b: Boost| Move { unit: d.unit(b.booster@), delta: -(b.amount as int) }),
            unit,
        ) == -sum(boosts, |b: Boost| if d.accounts.unit_of(b.booster@) == unit { b.amount as int } else { 0 }),
    decreases boosts.len(),
{
    let f = |b: Boost| Move { unit: d.unit(b.booster@), delta: -(b.amount as int) };
    if boosts.len() > 0 {
        lemma_boosts_due(d, boosts.drop_last(), unit);
        assert(boosts.map_values(f).drop_last() =~= boosts.drop_last().map_values(f));
    }
}

/// What an account has is the 100 credits that it started with, what the tasks of all quests
/// come to for it, and less what it burned on boosts.
pub proof fn law_holdings(d: DirectoryModel, unit: Str, now: i64)
    ensures
        d.holding(unit, now) == 100 + sum(
            sorted_keys(d.catalog.quests.dom()),
            |k: Str| quest_due(d, d.catalog.quests[k], unit, now),
        ) - spent_on_boosts(d, unit),
        i128::MIN <= d.holding(unit, now) <= i128::MAX ==> d.balance(unit, now) == d.holding(unit, now),
        d.balance(unit, now) >= 0 <==> d.holding(unit, now) >= 0,
{
    let keys = sorted_keys(d.catalog.quests.dom());
    let f = |k: Str| d.quest_moves(d.catalog.quests[k], now);
    let g = |k: Str| net(f(k), unit);
    let h = |k: Str| quest_due(d, d.catalog.quests[k], unit, now);
    lemma_net_concat(d.all_quest_moves(now), d.boost_moves(), unit);
    lemma_net_map(keys, f, unit);
    assert forall|i: int| 0 <= i < keys.len() implies g(#[trigger] keys[i]) == h(keys[i]) by {
        lemma_quest_due(d, d.catalog.quests[keys[i]], unit, now);
    }
    lemma_sum_ext(keys, g, h);
    lemma_boosts_due(d, d.catalog.boosts, unit);
}

/// An account that nothing is owed to or by has what it started with.
pub proof fn law_newcomers_have_the_faucet(d: DirectoryModel, unit: Str, now: i64)
    requires
        d.catalog.quests.dom() == Set::<Str>::empty(),
        d.catalog.boosts.len() == 0,
    ensures
        d.holding(unit, now) == 100,
        d.balance(unit, now) == 100,
{
    law_holdings(d, unit, now);
    lemma_keys_listed(d.catalog.quests.dom());
    let keys = sorted_keys(d.catalog.quests.dom());
    if keys.len() > 0 {
        assert(keys.contains(keys[0]));
        assert(d.catalog.quests.dom().contains(keys[0]));
    }
}

// ---- time ----

/// What comes back to `unit` for a task whose quest expires between two times.
pub open spec fn task_back(d: DirectoryModel, q: Quest, task: Str, unit: Str, from: i64, to: i64) -> int {
    if d.accounts.unit_of(q.author@) == unit && d.settlement(q.id@, task) is None && !d.catalog.closed.contains_key(q.id@)
        && q.deadline_ts != 0 && from < q.deadline_ts && q.deadline_ts <= to {
        share(q) as int
    } else {
        0
    }
}

/// The passing of time only gives back: to the author of a quest whose deadline passes, the
/// worth of its tasks that never settled. Nothing that was earned is lost by it, and who
/// posted no quest has the same at all times.
pub proof fn law_time_only_gives_back(d: DirectoryModel, unit: Str, from: i64, to: i64)
    requires
        from <= to,
        d.catalog.quests.dom().finite(),
    ensures
        d.holding(unit, to) - d.holding(unit, from) == sum(
            sorted_keys(d.catalog.quests.dom()),
            |k: Str|
                sum(
                    d.catalog.quests[k].tasks@,
                    |t: Task| task_back(d, d.catalog.quests[k], t.id@, unit, from, to),
                ),
        ),
        d.holding(unit, from) <= d.holding(unit, to),
        (forall|k: Str| #[trigger]
            d.catalog.quests.contains_key(k) ==> d.accounts.unit_of(d.catalog.quests[k].author@) != unit) ==> d.holding(unit, from)
            == d.holding(unit, to),
{
    law_holdings(d, unit, from);
    law_holdings(d, unit, to);
    let keys = sorted_keys(d.catalog.quests.dom());
    lemma_keys_distinct(d.catalog.quests.dom());
    let f = |k: Str| quest_due(d, d.catalog.quests[k], unit, to);
    let g = |k: Str| quest_due(d, d.catalog.quests[k], unit, from);
    let h = |k: Str|
        sum(d.catalog.quests[k].tasks@, |t: Task| task_back(d, d.catalog.quests[k], t.id@, unit, from, to));
    assert forall|i: int| 0 <= i < keys.len() implies f(#[trigger] keys[i]) - g(keys[i]) == h(keys[i]) && h(keys[i]) >= 0 && (
    d.accounts.unit_of(d.catalog.quests[keys[i]].author@) != unit ==> h(keys[i]) == 0) by {
        let q = d.catalog.quests[keys[i]];
        let a = |t: Task| task_due(d, q, t.id@, unit, to);
        let b = |t: Task| task_due(d, q, t.id@, unit, from);
        let c = |t: Task| task_back(d, q, t.id@, unit, from, to);
        lemma_sum_minus(q.tasks@, a, b, c);
        lemma_sum_nonnegative(q.tasks@, c);
        if d.accounts.unit_of(q.author@) != unit {
            lemma_sum_zero(q.tasks@, c);
        }
    }
    lemma_sum_minus(keys, f, g, h);
    lemma_sum_nonnegative(keys, h);
    if forall|k: Str| #[trigger]
        d.catalog.quests.contains_key(k) ==> d.accounts.unit_of(d.catalog.quests[k].author@) != unit {
        assert forall|i: int| 0 <= i < keys.len() implies h(#[trigger] keys[i]) == 0 by {
            assert(keys.contains(keys[i]));
            assert(d.catalog.quests.contains_key(keys[i]));
        }
        lemma_sum_zero(keys, h);
    }
}

/// Task `i` of the quest under `k` pays or charges `unit`.
pub open spec fn concerns(d: DirectoryModel, k: Str, i: int, unit: Str) -> bool {
    let q = d.catalog.quests[k];
    match d.settlement(q.id@, q.tasks@[i].id@) {
        Some((solver, vs)) => solver == unit || vs.contains(unit),
        None => false,
    }
}

/// A worker whose only work was accepted by the author has that task's worth besides the
/// credits it started with, before the deadline and after.
pub proof fn law_accepted_work_stays_paid(d: DirectoryModel, k: Str, i: int, unit: Str, now: i64)
    requires
        d.catalog.quests.dom().finite(),
        d.catalog.quests.contains_key(k),
        0 <= i < d.catalog.quests[k].tasks@.len(),
        d.settlement(d.catalog.quests[k].id@, d.catalog.quests[k].tasks@[i].id@) == Some((unit, Seq::<Str>::empty())),
        forall|x: Str| #[trigger]
            d.catalog.quests.contains_key(x) ==> d.accounts.unit_of(d.catalog.quests[x].author@) != unit,
        forall|j: int| 0 <= j < d.catalog.boosts.len() ==> d.accounts.unit_of((#[trigger] d.catalog.boosts[j]).booster@) != unit,
        forall|x: Str, j: int|
            d.catalog.quests.contains_key(x) && 0 <= j < d.catalog.quests[x].tasks@.len() && #[trigger] concerns(d, x, j, unit)
                ==> x == k && j == i,
    ensures
        d.holding(unit, now) == 100 + share(d.catalog.quests[k]),
{
    law_holdings(d, unit, now);
    let keys = sorted_keys(d.catalog.quests.dom());
    lemma_keys_distinct(d.catalog.quests.dom());
    let f = |x: Str| quest_due(d, d.catalog.quests[x], unit, now);
    assert(d.catalog.quests.dom().contains(k));
    assert(keys.contains(k));
    let at = choose|at: int| 0 <= at < keys.len() && keys[at] == k;
    assert forall|a: int| 0 <= a < keys.len() && a != at implies f(#[trigger] keys[a]) == 0 by {
        let x = keys[a];
        let q = d.catalog.quests[x];
        assert(keys.contains(x));
        assert(d.catalog.quests.contains_key(x));
        assert(keys[a] != keys[at]);
        let g = |t: Task| task_due(d, q, t.id@, unit, now);
        assert forall|j: int| 0 <= j < q.tasks@.len() implies g(#[trigger] q.tasks@[j]) == 0 by {
            assert(!concerns(d, x, j, unit));
        }
        lemma_sum_zero(q.tasks@, g);
    }
    lemma_sum_one(keys, f, at);
    let q = d.catalog.quests[k];
    let g = |t: Task| task_due(d, q, t.id@, unit, now);
    assert forall|j: int| 0 <= j < q.tasks@.len() && j != i implies g(#[trigger] q.tasks@[j]) == 0 by {
        assert(!concerns(d, k, j, unit));
    }
    lemma_sum_one(q.tasks@, g, i);
    let b = |b: Boost| if d.accounts.unit_of(b.booster@) == unit { b.amount as int } else { 0 };
    lemma_sum_zero(d.catalog.boosts, b);
    assert(0 * 0 == 0);
}

// ---- acceptance ----

/// The acceptance of a result settles no other task.
proof fn lemma_others_stay(d: DirectoryModel, a: TaskAccept, quest: Str, task: Str)
    requires
        (quest, task) != (a.quest@, a.task@),
    ensures
        (DirectoryModel { catalog: d.catalog.with_accept(a), ..d }).settlement(quest, task) == d.settlement(quest, task),
{
    let after = DirectoryModel { catalog: d.catalog.with_accept(a), ..d };
    let rs = d.results_of(quest, task);
    assert(after.results_of(quest, task) == rs);
    assert(after.accepted(quest, task) == d.accepted(quest, task));
    let p = |r: crate::records::TaskResult| d.has_quorum(quest, r);
    let q = |r: crate::records::TaskResult| after.has_quorum(quest, r);
    assert forall|i: int| 0 <= i < rs.len() implies p(#[trigger] rs[i]) == q(rs[i]) by {}
    crate::seqs::lemma_first_match_ext(rs, p, q);
}

/// The author's acceptance pays the worker: the task's worth, out of escrow while the quest
/// is live, and of the author's own once it is not. Nobody else's credits move.
pub proof fn law_acceptance_pays_the_worker(d: DirectoryModel, a: TaskAccept, at: int, i: int, now: i64, unit: Str)
    requires
        sound(d.catalog),
        d.catalog.quests.dom().finite(),
        d.judge_accept(a) == granted(),
        d.settlement(a.quest@, a.task@) is None,
        accepted_at(DirectoryModel { catalog: d.catalog.with_accept(a), ..d }, a.quest@, a.task@, i),
        0 <= at < d.catalog.quests[a.quest@].tasks@.len(),
        forall|j: int|
            0 <= j < d.catalog.quests[a.quest@].tasks@.len() ==> ((#[trigger] d.catalog.quests[a.quest@].tasks@[j]).id@ == a.task@
                <==> j == at),
    ensures
        ({
            let after = DirectoryModel { catalog: d.catalog.with_accept(a), ..d };
            let q = d.catalog.quests[a.quest@];
            let worker = d.accounts.unit_of(list_at(d.catalog.results, (a.quest@, a.task@))[i].worker@);
            let escrowed = !d.catalog.closed.contains_key(a.quest@) && (q.deadline_ts == 0 || now < q.deadline_ts);
            after.holding(unit, now) == d.holding(unit, now) + (if unit == worker { share(q) as int } else { 0 }) - (if unit
                == d.accounts.unit_of(q.author@) && !escrowed {
                share(q) as int
            } else {
                0
            })
        }),
{
    let after = DirectoryModel { catalog: d.catalog.with_accept(a), ..d };
    let q = d.catalog.quests[a.quest@];
    assert(q.id@ == a.quest@);
    let rs = list_at(d.catalog.results, (a.quest@, a.task@));
    let worker = d.accounts.unit_of(rs[i].worker@);
    law_settlement(after, a.quest@, a.task@);
    assert(after.settlement(a.quest@, a.task@) == Some((worker, Seq::<Str>::empty())));
    assert(!posters_own(after, a.quest@, rs[i]));
    law_holdings(d, unit, now);
    law_holdings(after, unit, now);
    let keys = sorted_keys(d.catalog.quests.dom());
    lemma_keys_distinct(d.catalog.quests.dom());
    let f = |k: Str| quest_due(after, after.catalog.quests[k], unit, now);
    let g = |k: Str| quest_due(d, d.catalog.quests[k], unit, now);
    let h = |k: Str| f(k) - g(k);
    assert(d.catalog.quests.dom().contains(a.quest@));
    assert(keys.contains(a.quest@));
    let here = choose|here: int| 0 <= here < keys.len() && keys[here] == a.quest@;
    assert forall|x: int| 0 <= x < keys.len() && x != here implies h(#[trigger] keys[x]) == 0 by {
        let k = keys[x];
        assert(keys[x] != keys[here]);
        assert(keys.contains(k));
        assert(d.catalog.quests.contains_key(k));
        let o = d.catalog.quests[k];
        assert(o.id@ == k);
        let m = |t: Task| task_due(after, o, t.id@, unit, now);
        let n = |t: Task| task_due(d, o, t.id@, unit, now);
        assert forall|j: int| 0 <= j < o.tasks@.len() implies m(#[trigger] o.tasks@[j]) == n(o.tasks@[j]) by {
            lemma_others_stay(d, a, o.id@, o.tasks@[j].id@);
        }
        lemma_sum_ext(o.tasks@, m, n);
    }
    lemma_sum_minus(keys, f, g, h);
    lemma_sum_one(keys, h, here);
    let m = |t: Task| task_due(after, q, t.id@, unit, now);
    let n = |t: Task| task_due(d, q, t.id@, unit, now);
    let c = |t: Task| m(t) - n(t);
    assert forall|j: int| 0 <= j < q.tasks@.len() && j != at implies c(#[trigger] q.tasks@[j]) == 0 by {
        lemma_others_stay(d, a, q.id@, q.tasks@[j].id@);
    }
    lemma_sum_minus(q.tasks@, m, n, c);
    lemma_sum_one(q.tasks@, c, at);
    let b = |b: Boost| if d.accounts.unit_of(b.booster@) == unit { b.amount as int } else { 0 };
    let e = |b: Boost| if after.accounts.unit_of(b.booster@) == unit { b.amount as int } else { 0 };
    lemma_sum_ext(d.catalog.boosts, b, e);
    assert(0 * 0 == 0);
}

// ---- who is listed ----

proof fn lemma_mentions_run(a: Seq<Move>, b: Seq<Move>, u: Str)
    ensures
        mentions(a + b, u) <==> mentions(a, u) || mentions(b, u),
{
    let s = a + b;
    if mentions(a, u) {
        let i = choose|i: int| 0 <= i < a.len() && (#[trigger] a[i]).unit == u;
        assert(s[i].unit == u);
    }
    if mentions(b, u) {
        let i = choose|i: int| 0 <= i < b.len() && (#[trigger] b[i]).unit == u;
        assert(s[a.len() + i].unit == u);
    }
    if mentions(s, u) {
        let i = choose|i: int| 0 <= i < s.len() && (#[trigger] s[i]).unit == u;
        if i < a.len() {
            assert(a[i].unit == u);
        } else {
            assert(b[i - a.len()].unit == u);
        }
    }
}

proof fn lemma_mentions_runs<A>(s: Seq<A>, f: spec_fn(A) -> Seq<Move>, u: Str)
    ensures
        mentions(concat_map(s, f), u) <==> exists|i: int| 0 <= i < s.len() && mentions(f(#[trigger] s[i]), u),
    decreases s.len(),
{
    if s.len() > 0 {
        let t = s.drop_last();
        lemma_mentions_runs(t, f, u);
        lemma_mentions_run(concat_map(t, f), f(s.last()), u);
        if exists|i: int| 0 <= i < t.len() && mentions(f(#[trigger] t[i]), u) {
            let i = choose|i: int| 0 <= i < t.len() && mentions(f(#[trigger] t[i]), u);
            assert(s[i] == t[i]);
        }
        if exists|i: int| 0 <= i < s.len() && mentions(f(#[trigger] s[i]), u) {
            let i = choose|i: int| 0 <= i < s.len() && mentions(f(#[trigger] s[i]), u);
            if i < t.len() {
                assert(t[i] == s[i]);
            }
        }
        if mentions(f(s.last()), u) {
            assert(mentions(f(s[s.len() - 1]), u));
        }
    }
}

/// The quest under `k` has to do with `unit`: it posted the quest, or solved or vouched for
/// one of its tasks that is worth something.
pub open spec fn party_to(d: DirectoryModel, k: Str, unit: Str) -> bool {
    &&& d.catalog.quests.contains_key(k)
    &&& (d.accounts.unit_of(d.catalog.quests[k].author@) == unit || (share(d.catalog.quests[k]) > 0 && exists|i: int|
        0 <= i < d.catalog.quests[k].tasks@.len() && #[trigger] concerns(d, k, i, unit)))
}

/// The balances that are reckoned are those of the accounts that posted a quest, solved or
/// vouched for a task worth something, or boosted; and of no others.
pub proof fn law_balances_are_of_those_involved(d: DirectoryModel, unit: Str, now: i64)
    requires
        d.catalog.quests.dom().finite(),
    ensures
        mentions(d.moves(now), unit) <==> (exists|k: Str| party_to(d, k, unit)) || (exists|j: int|
            0 <= j < d.catalog.boosts.len() && d.accounts.unit_of((#[trigger] d.catalog.boosts[j]).booster@) == unit),
{
    let keys = sorted_keys(d.catalog.quests.dom());
    lemma_keys_distinct(d.catalog.quests.dom());
    let f = |k: Str| d.quest_moves(d.catalog.quests[k], now);
    lemma_mentions_run(d.all_quest_moves(now), d.boost_moves(), unit);
    lemma_mentions_runs(keys, f, unit);
    let bs = d.boost_moves();
    assert forall|j: int| 0 <= j < bs.len() implies (#[trigger] bs[j]).unit == d.accounts.unit_of(
        d.catalog.boosts[j].booster@,
    ) by {}
    if exists|j: int| 0 <= j < d.catalog.boosts.len() && d.accounts.unit_of((#[trigger] d.catalog.boosts[j]).booster@) == unit {
        let j = choose|j: int|
            0 <= j < d.catalog.boosts.len() && d.accounts.unit_of((#[trigger] d.catalog.boosts[j]).booster@) == unit;
        assert(bs[j].unit == unit);
    }
    if mentions(bs, unit) {
        let j = choose|j: int| 0 <= j < bs.len() && (#[trigger] bs[j]).unit == unit;
        assert(d.accounts.unit_of(d.catalog.boosts[j].booster@) == unit);
    }
    assert forall|i: int| 0 <= i < keys.len() implies mentions(f(#[trigger] keys[i]), unit) == party_to(d, keys[i], unit) by {
        assert(keys.contains(keys[i]));
        lemma_mentions_quest(d, keys[i], unit, now);
    }
    if exists|k: Str| party_to(d, k, unit) {
        let k = choose|k: Str| party_to(d, k, unit);
        assert(d.catalog.quests.dom().contains(k));
        assert(keys.contains(k));
        let i = choose|i: int| 0 <= i < keys.len() && keys[i] == k;
        assert(mentions(f(keys[i]), unit));
    }
    if exists|i: int| 0 <= i < keys.len() && mentions(f(#[trigger] keys[i]), unit) {
        let i = choose|i: int| 0 <= i < keys.len() && mentions(f(#[trigger] keys[i]), unit);
        assert(party_to(d, keys[i], unit));
    }
}

proof fn lemma_mentions_quest(d: DirectoryModel, k: Str, unit: Str, now: i64)
    requires
        d.catalog.quests.contains_key(k),
    ensures
        mentions(d.quest_moves(d.catalog.quests[k], now), unit) <==> party_to(d, k, unit),
{
    let q = d.catalog.quests[k];
    let author = d.accounts.unit_of(q.author@);
    let head = seq![Move { unit: author, delta: 0 }];
    let ids = task_ids(q.tasks@);
    let f = |t: Str| d.task_moves(q, t, now);
    let tail = if share(q) == 0 {
        Seq::empty()
    } else {
        concat_map(ids, f)
    };
    lemma_mentions_run(head, tail, unit);
    assert(d.quest_moves(q, now) =~= head + tail);
    if author == unit {
        assert(head[0].unit == unit);
    }
    lemma_mentions_runs(ids, f, unit);
    assert forall|i: int| 0 <= i < ids.len() implies (author != unit ==> mentions(f(#[trigger] ids[i]), unit) == concerns(
        d,
        k,
        i,
        unit,
    )) by {
        let ms = f(ids[i]);
        assert(ids[i] == q.tasks@[i].id@);
        if let Some((solver, vs)) = d.settlement(q.id@, ids[i]) {
            assert(ms[1].unit == solver);
            if vs.contains(unit) {
                let x = choose|x: int| 0 <= x < vs.len() && vs[x] == unit;
                assert(ms[x + 2].unit == unit);
            }
            if mentions(ms, unit) {
                let x = choose|x: int| 0 <= x < ms.len() && (#[trigger] ms[x]).unit == unit;
                if x >= 2 {
                    assert(vs[x - 2] == unit);
                }
            }
        }
    }
    if author != unit && share(q) > 0 {
        if exists|i: int| 0 <= i < q.tasks@.len() && #[trigger] concerns(d, k, i, unit) {
            let i = choose|i: int| 0 <= i < q.tasks@.len() && #[trigger] concerns(d, k, i, unit);
            assert(mentions(f(ids[i]), unit));
        }
        if exists|i: int| 0 <= i < ids.len() && mentions(f(#[trigger] ids[i]), unit) {
            let i = choose|i: int| 0 <= i < ids.len() && mentions(f(#[trigger] ids[i]), unit);
            assert(concerns(d, k, i, unit));
        }
    }
}

} // verus!
