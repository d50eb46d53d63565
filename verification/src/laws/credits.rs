//! Laws of credits: nothing is minted, escrow comes back, and what is let in is covered.

use crate::admission::granted;
use crate::catalog::has_boost;
use crate::credits::{mentions, net, payout, share, task_ids, voucher_fee, within, Move};
use crate::directory::DirectoryModel;
use crate::economy::FAUCET;
use crate::laws::catalog::sound;
use crate::ordmap::{lemma_keys_listed, lemma_sorted_insert, sorted_keys};
use crate::records::{Boost, Quest, QuestClose, Str, Task, TaskResult};
use crate::seqs::{concat_map, lemma_first_match_ext};
use vstd::prelude::*;

verus! {

/// What all the moves come to.
pub open spec fn total(moves: Seq<Move>) -> int
    decreases moves.len(),
{
    if moves.len() == 0 {
        0
    } else {
        total(moves.drop_last()) + moves.last().delta
    }
}

/// The sum of `f` over a list.
pub open spec fn sum<A>(s: Seq<A>, f: spec_fn(A) -> int) -> int
    decreases s.len(),
{
    if s.len() == 0 {
        0
    } else {
        sum(s.drop_last(), f) + f(s.last())
    }
}

// ---- sums ----

pub proof fn lemma_one_move(m: Move, u: Str)
    ensures
        total(seq![m]) == m.delta,
        net(seq![m], u) == if m.unit == u {
            m.delta
        } else {
            0
        },
{
    let s = seq![m];
    assert(s.drop_last() =~= Seq::<Move>::empty());
    assert(total(s.drop_last()) == 0);
    assert(net(s.drop_last(), u) == 0);
}

proof fn lemma_total_concat(a: Seq<Move>, b: Seq<Move>)
    ensures
        total(a + b) == total(a) + total(b),
    decreases b.len(),
{
    if b.len() == 0 {
        assert(a + b =~= a);
    } else {
        assert((a + b).drop_last() =~= a + b.drop_last());
        lemma_total_concat(a, b.drop_last());
    }
}

pub proof fn lemma_net_concat(a: Seq<Move>, b: Seq<Move>, u: Str)
    ensures
        net(a + b, u) == net(a, u) + net(b, u),
    decreases b.len(),
{
    if b.len() == 0 {
        assert(a + b =~= a);
    } else {
        assert((a + b).drop_last() =~= a + b.drop_last());
        lemma_net_concat(a, b.drop_last(), u);
    }
}

proof fn lemma_total_map<A>(s: Seq<A>, f: spec_fn(A) -> Seq<Move>)
    ensures
        total(concat_map(s, f)) == sum(s, |x: A| total(f(x))),
    decreases s.len(),
{
    if s.len() > 0 {
        lemma_total_map(s.drop_last(), f);
        lemma_total_concat(concat_map(s.drop_last(), f), f(s.last()));
    }
}

pub proof fn lemma_net_map<A>(s: Seq<A>, f: spec_fn(A) -> Seq<Move>, u: Str)
    ensures
        net(concat_map(s, f), u) == sum(s, |x: A| net(f(x), u)),
    decreases s.len(),
{
    if s.len() > 0 {
        lemma_net_map(s.drop_last(), f, u);
        lemma_net_concat(concat_map(s.drop_last(), f), f(s.last()), u);
    }
}

pub proof fn lemma_sum_ext<A>(s: Seq<A>, f: spec_fn(A) -> int, g: spec_fn(A) -> int)
    requires
        forall|i: int| 0 <= i < s.len() ==> f(#[trigger] s[i]) == g(s[i]),
    ensures
        sum(s, f) == sum(s, g),
    decreases s.len(),
{
    if s.len() > 0 {
        let t = s.drop_last();
        assert forall|i: int| 0 <= i < t.len() implies f(#[trigger] t[i]) == g(t[i]) by {
            assert(t[i] == s[i]);
        }
        lemma_sum_ext(t, f, g);
        assert(f(s[s.len() - 1]) == g(s[s.len() - 1]));
    }
}

/// Where two functions differ at one place only, so do their sums.
pub proof fn lemma_sum_change<A>(s: Seq<A>, f: spec_fn(A) -> int, g: spec_fn(A) -> int, at: int)
    requires
        0 <= at < s.len(),
        forall|i: int| 0 <= i < s.len() && i != at ==> f(#[trigger] s[i]) == g(s[i]),
    ensures
        sum(s, g) - sum(s, f) == g(s[at]) - f(s[at]),
    decreases s.len(),
{
    let t = s.drop_last();
    if at == s.len() - 1 {
        assert forall|i: int| 0 <= i < t.len() implies f(#[trigger] t[i]) == g(t[i]) by {
            assert(t[i] == s[i]);
        }
        lemma_sum_ext(t, f, g);
    } else {
        assert forall|i: int| 0 <= i < t.len() && i != at implies f(#[trigger] t[i]) == g(t[i]) by {
            assert(t[i] == s[i]);
        }
        lemma_sum_change(t, f, g, at);
        assert(f(s[s.len() - 1]) == g(s[s.len() - 1]));
    }
}

pub proof fn lemma_sum_insert<A>(s: Seq<A>, at: int, x: A, f: spec_fn(A) -> int)
    requires
        0 <= at <= s.len(),
    ensures
        sum(s.insert(at, x), f) == sum(s, f) + f(x),
    decreases s.len(),
{
    let t = s.insert(at, x);
    if at == s.len() {
        assert(t.drop_last() =~= s);
    } else {
        assert(t.drop_last() =~= s.drop_last().insert(at, x));
        assert(t.last() == s.last());
        lemma_sum_insert(s.drop_last(), at, x, f);
    }
}

// ---- conservation ----

/// What a task keeps in escrow.
pub open spec fn task_escrow(d: DirectoryModel, q: Quest, task: Str, now: i64) -> int {
    if d.settlement(q.id@, task) is None && d.live(q, now) {
        share(q) as int
    } else {
        0
    }
}

/// What a quest keeps in escrow.
pub open spec fn quest_escrow(d: DirectoryModel, q: Quest, now: i64) -> int {
    if share(q) == 0 {
        0
    } else {
        sum(task_ids(q.tasks@), |t: Str| task_escrow(d, q, t, now))
    }
}

/// All that is in escrow.
pub open spec fn escrow(d: DirectoryModel, now: i64) -> int {
    sum(sorted_keys(d.catalog.quests.dom()), |k: Str| quest_escrow(d, d.catalog.quests[k], now))
}

/// All that was burned by boosts.
pub open spec fn burned(boosts: Seq<Boost>) -> int {
    sum(boosts, |b: Boost| b.amount as int)
}

/// A settled task mints nothing: what the author pays is what the others get.
pub proof fn law_payouts_balance(author: Str, share: nat, solver: Str, verifiers: Seq<Str>)
    ensures
        total(payout(author, share, solver, verifiers)) == 0,
{
    let fee: int = if verifiers.len() == 0 {
        0
    } else {
        voucher_fee(share, verifiers.len()) as int
    };
    let head = seq![
        Move { unit: author, delta: -share },
        Move { unit: solver, delta: share - fee * verifiers.len() },
    ];
    let tail = verifiers.map_values(|v: Str| Move { unit: v, delta: fee });
    lemma_total_concat(head, tail);
    lemma_total_same(tail, fee);
    assert(head.drop_last() =~= seq![Move { unit: author, delta: -share }]);
    lemma_one_move(Move { unit: author, delta: -share }, author);
}

proof fn lemma_total_same(moves: Seq<Move>, fee: int)
    requires
        forall|i: int| 0 <= i < moves.len() ==> (#[trigger] moves[i]).delta == fee,
    ensures
        total(moves) == fee * moves.len(),
    decreases moves.len(),
{
    if moves.len() > 0 {
        lemma_total_same(moves.drop_last(), fee);
        let n = moves.len() as int;
        assert(fee * n == fee * (n - 1) + fee) by (nonlinear_arith);
    } else {
        assert(fee * 0 == 0);
    }
}

proof fn lemma_task_total(d: DirectoryModel, q: Quest, task: Str, now: i64)
    ensures
        total(d.task_moves(q, task, now)) == -task_escrow(d, q, task, now),
{
    match d.settlement(q.id@, task) {
        Some((solver, verifiers)) => {
            law_payouts_balance(d.unit(q.author@), share(q), solver, verifiers);
        },
        None => {
            lemma_one_move(Move { unit: d.unit(q.author@), delta: -share(q) }, d.unit(q.author@));
        },
    }
}

pub proof fn lemma_sum_negated<A>(s: Seq<A>, f: spec_fn(A) -> int, g: spec_fn(A) -> int)
    requires
        forall|i: int| 0 <= i < s.len() ==> f(#[trigger] s[i]) == -g(s[i]),
    ensures
        sum(s, f) == -sum(s, g),
    decreases s.len(),
{
    if s.len() > 0 {
        let t = s.drop_last();
        assert forall|i: int| 0 <= i < t.len() implies f(#[trigger] t[i]) == -g(t[i]) by {
            assert(t[i] == s[i]);
        }
        lemma_sum_negated(t, f, g);
        assert(f(s[s.len() - 1]) == -g(s[s.len() - 1]));
    }
}

proof fn lemma_quest_total(d: DirectoryModel, q: Quest, now: i64)
    ensures
        total(d.quest_moves(q, now)) == -quest_escrow(d, q, now),
{
    let head = seq![Move { unit: d.unit(q.author@), delta: 0 }];
    lemma_one_move(head[0], d.unit(q.author@));
    if share(q) == 0 {
        assert(d.quest_moves(q, now) =~= head);
    } else {
        let f = |t: Str| d.task_moves(q, t, now);
        let ids = task_ids(q.tasks@);
        lemma_total_concat(head, concat_map(ids, f));
        lemma_total_map(ids, f);
        let g = |t: Str| total(f(t));
        let h = |t: Str| task_escrow(d, q, t, now);
        assert forall|i: int| 0 <= i < ids.len() implies g(#[trigger] ids[i]) == -h(ids[i]) by {
            lemma_task_total(d, q, ids[i], now);
        }
        lemma_sum_negated(ids, g, h);
    }
}

/// Nothing is minted: all that moved comes to what left circulation, which is what lies in
/// escrow and what was burned.
pub proof fn law_nothing_is_minted(d: DirectoryModel, now: i64)
    ensures
        total(d.moves(now)) == -(escrow(d, now) + burned(d.catalog.boosts)),
        escrow(d, now) >= 0,
        burned(d.catalog.boosts) >= 0,
{
    let keys = sorted_keys(d.catalog.quests.dom());
    let f = |k: Str| d.quest_moves(d.catalog.quests[k], now);
    let g = |k: Str| total(f(k));
    let h = |k: Str| quest_escrow(d, d.catalog.quests[k], now);
    lemma_total_concat(d.all_quest_moves(now), d.boost_moves());
    lemma_total_map(keys, f);
    assert forall|i: int| 0 <= i < keys.len() implies g(#[trigger] keys[i]) == -h(keys[i]) by {
        lemma_quest_total(d, d.catalog.quests[keys[i]], now);
    }
    lemma_sum_negated(keys, g, h);
    lemma_boosts_total(d, d.catalog.boosts);
    assert forall|i: int| 0 <= i < keys.len() implies h(#[trigger] keys[i]) >= 0 by {
        let q = d.catalog.quests[keys[i]];
        lemma_sum_nonnegative(task_ids(q.tasks@), |t: Str| task_escrow(d, q, t, now));
    }
    lemma_sum_nonnegative(keys, h);
    lemma_sum_nonnegative(d.catalog.boosts, |b: Boost| b.amount as int);
}

pub proof fn lemma_sum_nonnegative<A>(s: Seq<A>, f: spec_fn(A) -> int)
    requires
        forall|i: int| 0 <= i < s.len() ==> f(#[trigger] s[i]) >= 0,
    ensures
        sum(s, f) >= 0,
    decreases s.len(),
{
    if s.len() > 0 {
        let t = s.drop_last();
        assert forall|i: int| 0 <= i < t.len() implies f(#[trigger] t[i]) >= 0 by {
            assert(t[i] == s[i]);
        }
        lemma_sum_nonnegative(t, f);
        assert(f(s[s.len() - 1]) >= 0);
    }
}

spec fn burns(d: DirectoryModel, boosts: Seq<Boost>) -> Seq<Move> {
    boosts.map_values(|b: Boost| Move { unit: d.unit(b.booster@), delta: -(b.amount as int) })
}

proof fn lemma_boosts_total(d: DirectoryModel, boosts: Seq<Boost>)
    ensures
        total(burns(d, boosts)) == -burned(boosts),
    decreases boosts.len(),
{
    if boosts.len() > 0 {
        lemma_boosts_total(d, boosts.drop_last());
        assert(burns(d, boosts).drop_last() =~= burns(d, boosts.drop_last()));
    }
}

/// What the units gain and lose together is what all the moves come to, for any list of
/// distinct units that names all of those that anything moved for.
pub proof fn law_balances_add_up(moves: Seq<Move>, units: Seq<Str>)
    requires
        units.no_duplicates(),
        forall|u: Str| #[trigger] mentions(moves, u) ==> units.contains(u),
    ensures
        sum(units, |u: Str| net(moves, u)) == total(moves),
    decreases moves.len(),
{
    let f = |u: Str| net(moves, u);
    if moves.len() == 0 {
        lemma_sum_zero(units, f);
    } else {
        let t = moves.drop_last();
        let m = moves.last();
        let g = |u: Str| net(t, u);
        assert forall|u: Str| #[trigger] mentions(t, u) implies units.contains(u) by {
            let i = choose|i: int| 0 <= i < t.len() && (#[trigger] t[i]).unit == u;
            assert(moves[i].unit == u);
            assert(mentions(moves, u));
        }
        law_balances_add_up(t, units);
        assert(moves[moves.len() - 1].unit == m.unit);
        assert(mentions(moves, m.unit));
        let at = choose|at: int| 0 <= at < units.len() && units[at] == m.unit;
        assert forall|i: int| 0 <= i < units.len() && i != at implies g(#[trigger] units[i]) == f(units[i]) by {
            assert(units[i] != units[at]);
        }
        lemma_sum_change(units, g, f, at);
    }
}

proof fn lemma_mentioned_finite(moves: Seq<Move>, dom: Set<Str>)
    requires
        forall|u: Str| #[trigger] dom.contains(u) ==> mentions(moves, u),
    ensures
        dom.finite(),
{
    let named = moves.map_values(|m: Move| m.unit).to_set();
    assert(dom.subset_of(named)) by {
        assert forall|u: Str| dom.contains(u) implies named.contains(u) by {
            let i = choose|i: int| 0 <= i < moves.len() && (#[trigger] moves[i]).unit == u;
            assert(moves.map_values(|m: Move| m.unit)[i] == u);
        }
    }
    vstd::set_lib::lemma_set_subset_finite(named, dom);
}

/// Nothing is minted: over all balances that are reckoned, what the units have beyond what
/// they started with comes to what left circulation, which is what lies in escrow and what
/// was burned. So together they never have more than they started with. Where each of them
/// fits its 128 bits, the balances themselves come to that.
pub proof fn law_credits_are_conserved(d: DirectoryModel, now: i64, balances: Map<Str, i128>)
    requires
        forall|u: Str| #[trigger] balances.contains_key(u) <==> mentions(d.moves(now), u),
        forall|u: Str| #[trigger] balances.contains_key(u) ==> balances[u] == d.balance(u, now),
    ensures
        sum(sorted_keys(balances.dom()), |u: Str| d.holding(u, now) - FAUCET) == -(escrow(d, now) + burned(d.catalog.boosts)),
        sum(sorted_keys(balances.dom()), |u: Str| d.holding(u, now) - FAUCET) <= 0,
        (forall|u: Str| #[trigger] balances.contains_key(u) ==> i128::MIN <= d.holding(u, now) <= i128::MAX) ==> sum(
            sorted_keys(balances.dom()),
            |u: Str| balances[u] - FAUCET,
        ) == -(escrow(d, now) + burned(d.catalog.boosts)),
{
    let moves = d.moves(now);
    let dom = balances.dom();
    assert forall|u: Str| #[trigger] dom.contains(u) implies mentions(moves, u) by {
        assert(balances.contains_key(u));
    }
    lemma_mentioned_finite(moves, dom);
    lemma_keys_listed(dom);
    let units = sorted_keys(dom);
    assert forall|i: int, j: int| 0 <= i < units.len() && 0 <= j < units.len() && i != j implies units[i] != units[j] by {
        if units[i] == units[j] {
            crate::text::lemma_lex_irreflexive(units[i]);
        }
    }
    assert forall|u: Str| #[trigger] mentions(moves, u) implies units.contains(u) by {
        assert(balances.contains_key(u));
        assert(dom.contains(u));
    }
    law_balances_add_up(moves, units);
    law_nothing_is_minted(d, now);
    let f = |u: Str| net(moves, u);
    let h = |u: Str| d.holding(u, now) - FAUCET;
    lemma_sum_ext(units, f, h);
    if forall|u: Str| #[trigger] balances.contains_key(u) ==> i128::MIN <= d.holding(u, now) <= i128::MAX {
        let g = |u: Str| balances[u] - FAUCET;
        assert forall|i: int| 0 <= i < units.len() implies h(#[trigger] units[i]) == g(units[i]) by {
            assert(units.contains(units[i]));
            assert(dom.contains(units[i]));
            assert(balances.contains_key(units[i]));
        }
        lemma_sum_ext(units, h, g);
    }
}

/// No move is more than 64 bits hold.
spec fn bounded(moves: Seq<Move>) -> bool {
    forall|i: int| 0 <= i < moves.len() ==> -u64::MAX <= (#[trigger] moves[i]).delta <= u64::MAX
}

proof fn lemma_bounded_map<A>(s: Seq<A>, f: spec_fn(A) -> Seq<Move>)
    requires
        forall|i: int| 0 <= i < s.len() ==> bounded(f(#[trigger] s[i])),
    ensures
        bounded(concat_map(s, f)),
    decreases s.len(),
{
    if s.len() > 0 {
        let t = s.drop_last();
        assert forall|i: int| 0 <= i < t.len() implies bounded(f(#[trigger] t[i])) by {
            assert(t[i] == s[i]);
        }
        lemma_bounded_map(t, f);
        assert(bounded(f(s[s.len() - 1])));
    }
}

proof fn lemma_bounded_task(d: DirectoryModel, q: Quest, task: Str, now: i64)
    ensures
        bounded(d.task_moves(q, task, now)),
{
    let per = share(q);
    assert(per <= q.bounty) by (nonlinear_arith)
        requires
            q.tasks@.len() == 0 ==> per == 0,
            q.tasks@.len() > 0 ==> per == q.bounty as nat / q.tasks@.len(),
    ;
    if let Some((solver, verifiers)) = d.settlement(q.id@, task) {
        let n = verifiers.len();
        if n > 0 {
            let fee = voucher_fee(per, n);
            let pool = per * 20 / 100;
            assert(fee * n <= pool && fee <= pool && 0 <= fee * n) by (nonlinear_arith)
                requires
                    n > 0,
                    fee == pool / n,
            ;
            assert(pool <= per);
        }
        let ms = d.task_moves(q, task, now);
        assert forall|i: int| 0 <= i < ms.len() implies -u64::MAX <= (#[trigger] ms[i]).delta <= u64::MAX by {
            if n == 0 {
                assert(0 * n == 0);
            }
        }
    }
}

proof fn lemma_net_bound(moves: Seq<Move>, unit: Str)
    requires
        bounded(moves),
    ensures
        -(moves.len() * u64::MAX) <= net(moves, unit) <= moves.len() * u64::MAX,
    decreases moves.len(),
{
    if moves.len() > 0 {
        let t = moves.drop_last();
        assert forall|i: int| 0 <= i < t.len() implies -u64::MAX <= (#[trigger] t[i]).delta <= u64::MAX by {
            assert(t[i] == moves[i]);
        }
        lemma_net_bound(t, unit);
        assert(-u64::MAX <= moves[moves.len() - 1].delta <= u64::MAX);
    }
}

/// A balance is exact: no ledger of fewer than 2^62 moves brings one beyond what it holds.
pub proof fn law_balances_are_exact(d: DirectoryModel, unit: Str, now: i64)
    requires
        d.moves(now).len() < 0x4000_0000_0000_0000,
    ensures
        d.balance(unit, now) == d.holding(unit, now),
{
    let keys = sorted_keys(d.catalog.quests.dom());
    let f = |k: Str| d.quest_moves(d.catalog.quests[k], now);
    assert forall|i: int| 0 <= i < keys.len() implies bounded(f(#[trigger] keys[i])) by {
        let q = d.catalog.quests[keys[i]];
        let ids = task_ids(q.tasks@);
        let g = |t: Str| d.task_moves(q, t, now);
        assert forall|j: int| 0 <= j < ids.len() implies bounded(g(#[trigger] ids[j])) by {
            lemma_bounded_task(d, q, ids[j], now);
        }
        lemma_bounded_map(ids, g);
    }
    lemma_bounded_map(keys, f);
    lemma_net_bound(d.moves(now), unit);
}

pub proof fn lemma_sum_zero<A>(s: Seq<A>, f: spec_fn(A) -> int)
    requires
        forall|i: int| 0 <= i < s.len() ==> f(#[trigger] s[i]) == 0,
    ensures
        sum(s, f) == 0,
    decreases s.len(),
{
    if s.len() > 0 {
        let t = s.drop_last();
        assert forall|i: int| 0 <= i < t.len() implies f(#[trigger] t[i]) == 0 by {
            assert(t[i] == s[i]);
        }
        lemma_sum_zero(t, f);
        assert(f(s[s.len() - 1]) == 0);
    }
}

// ---- boosts ----

/// A boost takes its amount from the booster's account and from nobody else.
pub proof fn law_boosts_burn(d: DirectoryModel, b: Boost, now: i64, unit: Str)
    requires
        b.signed,
        !has_boost(d.catalog.boosts, b.sig@),
    ensures
        ({
            let after = DirectoryModel { catalog: d.catalog.with_boost(b), ..d };
            net(after.moves(now), unit) == net(d.moves(now), unit) - if unit == d.unit(b.booster@) {
                b.amount as int
            } else {
                0
            }
        }),
{
    let after = DirectoryModel { catalog: d.catalog.with_boost(b), ..d };
    let keys = sorted_keys(d.catalog.quests.dom());
    let f = |k: Str| d.quest_moves(d.catalog.quests[k], now);
    let g = |k: Str| after.quest_moves(after.catalog.quests[k], now);
    lemma_net_concat(d.all_quest_moves(now), d.boost_moves(), unit);
    lemma_net_concat(after.all_quest_moves(now), after.boost_moves(), unit);
    lemma_net_map(keys, f, unit);
    lemma_net_map(keys, g, unit);
    let nf = |k: Str| net(f(k), unit);
    let ng = |k: Str| net(g(k), unit);
    assert forall|i: int| 0 <= i < keys.len() implies nf(#[trigger] keys[i]) == ng(keys[i]) by {
        lemma_same_quest_moves(d, after, d.catalog.quests[keys[i]], now);
    }
    lemma_sum_ext(keys, nf, ng);
    assert(after.boost_moves().drop_last() =~= d.boost_moves());
}

/// The settlement of a task rests on the results, the verdicts, the acceptance, the quest
/// and the accounts, and on nothing else.
proof fn lemma_same_settlement(d: DirectoryModel, e: DirectoryModel, quest: Str, task: Str)
    requires
        d.accounts == e.accounts,
        d.catalog.results == e.catalog.results,
        d.catalog.accepts == e.catalog.accepts,
        d.catalog.verifications == e.catalog.verifications,
        d.catalog.quests.contains_key(quest) == e.catalog.quests.contains_key(quest),
        d.catalog.quests.contains_key(quest) ==> d.catalog.quests[quest] == e.catalog.quests[quest],
    ensures
        d.settlement(quest, task) == e.settlement(quest, task),
{
    let rs = d.results_of(quest, task);
    let p = |r: TaskResult| d.has_quorum(quest, r);
    let q = |r: TaskResult| e.has_quorum(quest, r);
    assert forall|u: Str| d.posted_by(quest, u) == #[trigger] e.posted_by(quest, u) by {}
    assert forall|i: int| 0 <= i < rs.len() implies p(#[trigger] rs[i]) == q(rs[i]) by {}
    lemma_first_match_ext(rs, p, q);
    assert(d.accepted(quest, task) == e.accepted(quest, task));
}

proof fn lemma_same_quest_moves(d: DirectoryModel, e: DirectoryModel, q: Quest, now: i64)
    requires
        d.accounts == e.accounts,
        d.catalog.results == e.catalog.results,
        d.catalog.accepts == e.catalog.accepts,
        d.catalog.verifications == e.catalog.verifications,
        d.catalog.quests.contains_key(q.id@) == e.catalog.quests.contains_key(q.id@),
        d.catalog.quests.contains_key(q.id@) ==> d.catalog.quests[q.id@] == e.catalog.quests[q.id@],
        d.live(q, now) == e.live(q, now),
    ensures
        d.quest_moves(q, now) == e.quest_moves(q, now),
{
    let f = |t: Str| d.task_moves(q, t, now);
    let g = |t: Str| e.task_moves(q, t, now);
    let ids = task_ids(q.tasks@);
    assert forall|i: int| 0 <= i < ids.len() implies f(#[trigger] ids[i]) == g(ids[i]) by {
        lemma_same_settlement(d, e, q.id@, ids[i]);
    }
    lemma_concat_ext(ids, f, g);
}

proof fn lemma_concat_ext<A, B>(s: Seq<A>, f: spec_fn(A) -> Seq<B>, g: spec_fn(A) -> Seq<B>)
    requires
        forall|i: int| 0 <= i < s.len() ==> f(#[trigger] s[i]) == g(s[i]),
    ensures
        concat_map(s, f) == concat_map(s, g),
    decreases s.len(),
{
    if s.len() > 0 {
        let t = s.drop_last();
        assert forall|i: int| 0 <= i < t.len() implies f(#[trigger] t[i]) == g(t[i]) by {
            assert(t[i] == s[i]);
        }
        lemma_concat_ext(t, f, g);
        assert(f(s[s.len() - 1]) == g(s[s.len() - 1]));
    }
}

/// A boost that is let in is covered: the account that had enough has the rest.
pub proof fn law_admitted_boosts_are_covered(d: DirectoryModel, b: Boost, now: i64)
    requires
        d.judge_boost(b, now) == granted(),
        !has_boost(d.catalog.boosts, b.sig@),
    ensures
        ({
            let after = DirectoryModel { catalog: d.catalog.with_boost(b), ..d };
            let u = d.unit(b.booster@);
            &&& after.holding(u, now) == d.holding(u, now) - b.amount
            &&& after.balance(u, now) == within(d.holding(u, now) - b.amount)
            &&& after.balance(u, now) >= 0
        }),
{
    let u = d.unit(b.booster@);
    law_boosts_burn(d, b, now, u);
}

/// A boost beyond what the account has is refused, however large.
pub proof fn law_unaffordable_boosts_are_refused(d: DirectoryModel, b: Boost, now: i64)
    requires
        d.balance(d.unit(b.booster@), now) < b.amount,
    ensures
        d.judge_boost(b, now) is Err,
{
}

// ---- posting and closing ----

/// The net of a quest's moves for its author, while no task of it settled.
proof fn lemma_unsettled_net(d: DirectoryModel, q: Quest, now: i64, ids: Seq<Str>, unit: Str)
    requires
        forall|i: int| 0 <= i < ids.len() ==> d.settlement(q.id@, #[trigger] ids[i]) is None,
        d.live(q, now),
    ensures
        net(concat_map(ids, |t: Str| d.task_moves(q, t, now)), unit) == if unit == d.unit(q.author@) {
            -(share(q) * ids.len())
        } else {
            0
        },
    decreases ids.len(),
{
    let f = |t: Str| d.task_moves(q, t, now);
    if ids.len() > 0 {
        let t = ids.drop_last();
        assert forall|i: int| 0 <= i < t.len() implies d.settlement(q.id@, #[trigger] t[i]) is None by {
            assert(t[i] == ids[i]);
        }
        lemma_unsettled_net(d, q, now, t, unit);
        assert(d.settlement(q.id@, ids[ids.len() - 1]) is None);
        let s = f(ids.last());
        lemma_one_move(Move { unit: d.unit(q.author@), delta: -share(q) }, unit);
        lemma_net_concat(concat_map(t, f), s, unit);
        let n = ids.len() as int;
        assert(share(q) * n == share(q) * (n - 1) + share(q)) by (nonlinear_arith);
    } else {
        assert(share(q) * 0 == 0);
    }
}

/// The directory once a quest was posted.
pub open spec fn posted(d: DirectoryModel, q: Quest) -> DirectoryModel {
    DirectoryModel { catalog: d.catalog.with_quest(q), ..d }
}

/// No task of a new quest settles as soon as it is posted, by results that were there
/// before it.
pub open spec fn starts_unsettled(d: DirectoryModel, q: Quest) -> bool {
    forall|i: int| 0 <= i < q.tasks@.len() ==> posted(d, q).settlement(q.id@, (#[trigger] q.tasks@[i]).id@) is None
}

/// Posting a quest puts its whole stake into escrow, out of the author's account and
/// nobody else's.
pub proof fn law_posting_escrows(d: DirectoryModel, q: Quest, now: i64, unit: Str)
    requires
        sound(d.catalog),
        d.catalog.quests.dom().finite(),
        q.signed,
        !d.catalog.quests.contains_key(q.id@),
        q.deadline_ts == 0 || q.deadline_ts > now,
        starts_unsettled(d, q),
    ensures
        net(posted(d, q).moves(now), unit) == net(d.moves(now), unit) - if unit == d.unit(q.author@) {
            share(q) * q.tasks@.len()
        } else {
            0
        },
{
    let after = posted(d, q);
    let dom = d.catalog.quests.dom();
    let keys = sorted_keys(dom);
    assert(after.catalog.quests.dom() =~= dom.insert(q.id@));
    lemma_sorted_insert(dom, q.id@);
    lemma_keys_listed(dom);
    let at = choose|at: int| 0 <= at <= keys.len() && sorted_keys(dom.insert(q.id@)) == #[trigger] keys.insert(at, q.id@);
    let more = keys.insert(at, q.id@);
    let f = |k: Str| d.quest_moves(d.catalog.quests[k], now);
    let g = |k: Str| after.quest_moves(after.catalog.quests[k], now);
    let nf = |k: Str| net(f(k), unit);
    let ng = |k: Str| net(g(k), unit);
    lemma_net_concat(d.all_quest_moves(now), d.boost_moves(), unit);
    lemma_net_concat(after.all_quest_moves(now), after.boost_moves(), unit);
    assert(after.boost_moves() =~= d.boost_moves());
    lemma_net_map(keys, f, unit);
    lemma_net_map(more, g, unit);
    lemma_sum_insert(keys, at, q.id@, ng);
    assert forall|i: int| 0 <= i < keys.len() implies nf(#[trigger] keys[i]) == ng(keys[i]) by {
        assert(keys.contains(keys[i]));
        assert(dom.contains(keys[i]));
        let k = keys[i];
        assert(d.catalog.quests.contains_key(k));
        assert(d.catalog.quests[k].id@ == k);
        lemma_same_quest_moves(d, after, d.catalog.quests[k], now);
    }
    lemma_sum_ext(keys, nf, ng);
    let ids = task_ids(q.tasks@);
    let head = seq![Move { unit: d.unit(q.author@), delta: 0 }];
    lemma_one_move(head[0], unit);
    assert(after.live(q, now)) by {
        if d.catalog.closed.contains_key(q.id@) {
            assert(d.catalog.quests.contains_key(q.id@));
        }
    }
    assert forall|i: int| 0 <= i < ids.len() implies after.settlement(q.id@, #[trigger] ids[i]) is None by {
        assert(ids[i] == q.tasks@[i].id@);
    }
    let tail = |t: Str| after.task_moves(q, t, now);
    lemma_unsettled_net(after, q, now, ids, unit);
    lemma_net_concat(head, concat_map(ids, tail), unit);
    if share(q) == 0 {
        assert(g(q.id@) =~= head);
        assert(share(q) * q.tasks@.len() == 0) by (nonlinear_arith)
            requires
                share(q) == 0,
        ;
    }
}

/// A stake that is let in is covered: the account that had enough has the rest.
pub proof fn law_admitted_stakes_are_covered(d: DirectoryModel, q: Quest, now: i64)
    requires
        sound(d.catalog),
        d.catalog.quests.dom().finite(),
        d.judge_quest(q, now) == granted(),
        !d.catalog.quests.contains_key(q.id@),
        q.deadline_ts == 0 || q.deadline_ts > now,
        starts_unsettled(d, q),
    ensures
        ({
            let after = posted(d, q);
            let u = d.unit(q.author@);
            &&& after.holding(u, now) == d.holding(u, now) - d.stake(q)
            &&& after.balance(u, now) == within(d.holding(u, now) - d.stake(q))
            &&& d.stake(q) > 0 ==> after.balance(u, now) >= 0
        }),
{
    law_posting_escrows(d, q, now, d.unit(q.author@));
}

/// A bounty beyond what the account has is refused, however large.
pub proof fn law_unaffordable_stakes_are_refused(d: DirectoryModel, q: Quest, now: i64)
    requires
        d.stake(q) > 0,
        d.balance(d.unit(q.author@), now) < d.stake(q),
    ensures
        d.judge_quest(q, now) is Err,
{
}

/// What closing a quest gives back for a task.
pub open spec fn task_refund(d: DirectoryModel, q: Quest, task: Str) -> int {
    if d.settlement(q.id@, task) is None {
        share(q) as int
    } else {
        0
    }
}

proof fn lemma_close_refund(d: DirectoryModel, after: DirectoryModel, q: Quest, now: i64, ids: Seq<Str>, unit: Str)
    requires
        d.accounts == after.accounts,
        d.catalog.results == after.catalog.results,
        d.catalog.accepts == after.catalog.accepts,
        d.catalog.verifications == after.catalog.verifications,
        d.catalog.quests == after.catalog.quests,
        d.live(q, now),
        !after.live(q, now),
    ensures
        net(concat_map(ids, |t: Str| after.task_moves(q, t, now)), unit) == net(
            concat_map(ids, |t: Str| d.task_moves(q, t, now)),
            unit,
        ) + if unit == d.unit(q.author@) {
            sum(ids, |t: Str| task_refund(d, q, t))
        } else {
            0
        },
    decreases ids.len(),
{
    let f = |t: Str| d.task_moves(q, t, now);
    let g = |t: Str| after.task_moves(q, t, now);
    if ids.len() > 0 {
        let t = ids.drop_last();
        lemma_close_refund(d, after, q, now, t, unit);
        let x = ids.last();
        lemma_same_settlement(d, after, q.id@, x);
        lemma_net_concat(concat_map(t, f), f(x), unit);
        lemma_net_concat(concat_map(t, g), g(x), unit);
        if d.settlement(q.id@, x) is None {
            lemma_one_move(Move { unit: d.unit(q.author@), delta: -share(q) }, unit);
            assert(g(x) =~= Seq::<Move>::empty());
        } else {
            assert(f(x) == g(x));
        }
    }
}

/// Closing a live quest refunds the share of every task that never settled, to the
/// author's account and to nobody else.
pub proof fn law_closing_refunds(d: DirectoryModel, c: QuestClose, now: i64, unit: Str)
    requires
        sound(d.catalog),
        d.catalog.quests.dom().finite(),
        d.judge_close(c) == granted(),
        d.live(d.catalog.quests[c.quest@], now),
    ensures
        ({
            let after = DirectoryModel { catalog: d.catalog.with_close(d.accounts, c), ..d };
            let q = d.catalog.quests[c.quest@];
            net(after.moves(now), unit) == net(d.moves(now), unit) + if unit == d.unit(c.author@) {
                (share(q) * d.unsettled(q).len()) as int
            } else {
                0
            }
        }),
{
    let after = DirectoryModel { catalog: d.catalog.with_close(d.accounts, c), ..d };
    let q = d.catalog.quests[c.quest@];
    assert(q.id@ == c.quest@);
    let dom = d.catalog.quests.dom();
    let keys = sorted_keys(dom);
    lemma_keys_listed(dom);
    assert(dom.contains(c.quest@));
    let at = choose|at: int| 0 <= at < keys.len() && keys[at] == c.quest@;
    let f = |k: Str| d.quest_moves(d.catalog.quests[k], now);
    let g = |k: Str| after.quest_moves(after.catalog.quests[k], now);
    let nf = |k: Str| net(f(k), unit);
    let ng = |k: Str| net(g(k), unit);
    lemma_net_concat(d.all_quest_moves(now), d.boost_moves(), unit);
    lemma_net_concat(after.all_quest_moves(now), after.boost_moves(), unit);
    assert(after.boost_moves() =~= d.boost_moves());
    lemma_net_map(keys, f, unit);
    lemma_net_map(keys, g, unit);
    assert forall|i: int| 0 <= i < keys.len() && i != at implies nf(#[trigger] keys[i]) == ng(keys[i]) by {
        let k = keys[i];
        assert(keys.contains(k));
        assert(dom.contains(k));
        assert(d.catalog.quests.contains_key(k));
        assert(d.catalog.quests[k].id@ == k);
        if k == c.quest@ {
            crate::text::lemma_lex_irreflexive(k);
        }
        assert(k != c.quest@);
        lemma_same_quest_moves(d, after, d.catalog.quests[k], now);
    }
    lemma_sum_change(keys, nf, ng, at);
    let ids = task_ids(q.tasks@);
    let head = seq![Move { unit: d.unit(q.author@), delta: 0 }];
    let df = |t: Str| d.task_moves(q, t, now);
    let dg = |t: Str| after.task_moves(q, t, now);
    lemma_net_concat(head, concat_map(ids, df), unit);
    lemma_net_concat(head, concat_map(ids, dg), unit);
    assert(!after.live(q, now));
    lemma_close_refund(d, after, q, now, ids, unit);
    lemma_refund_count(d, q, q.tasks@);
    if share(q) == 0 {
        assert(share(q) * d.unsettled(q).len() == 0) by (nonlinear_arith)
            requires
                share(q) == 0,
        ;
    }
}

proof fn lemma_refund_count(d: DirectoryModel, q: Quest, tasks: Seq<Task>)
    ensures
        sum(task_ids(tasks), |t: Str| task_refund(d, q, t)) == share(q) * tasks.filter(
            |t: Task| d.settlement(q.id@, t.id@) is None,
        ).len(),
    decreases tasks.len(),
{
    reveal(Seq::filter);
    let p = |t: Task| d.settlement(q.id@, t.id@) is None;
    if tasks.len() > 0 {
        lemma_refund_count(d, q, tasks.drop_last());
        assert(task_ids(tasks).drop_last() =~= task_ids(tasks.drop_last()));
        let n = tasks.drop_last().filter(p).len() as int;
        assert(share(q) * (n + 1) == share(q) * n + share(q)) by (nonlinear_arith);
    } else {
        assert(share(q) * 0 == 0);
    }
}

} // verus!
