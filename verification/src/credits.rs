//! Credits: a closed system of transfers, seeded only by what every account starts with.

use crate::directory::{Directory, DirectoryModel};
use crate::economy::{FAUCET, VERIFIER_CUT_PCT};
use crate::ordmap::{sorted_keys, OrdMap};
use crate::records::{Boost, Quest, Str, Task};
use crate::seqs::{concat_map, lemma_concat_map_step, lemma_take_contains};
use crate::signers::{
    add_list_signers, add_pair_signers, add_value_signers, among_lists, among_values, KeySet,
};
use crate::text::{same, texts};
use vstd::prelude::*;

verus! {

/// A change of what a unit has.
pub struct Move {
    pub unit: Str,
    pub delta: int,
}

/// What all the moves add to a unit.
pub open spec fn net(moves: Seq<Move>, unit: Str) -> int
    decreases moves.len(),
{
    if moves.len() == 0 {
        0
    } else {
        net(moves.drop_last(), unit) + if moves.last().unit == unit {
            moves.last().delta
        } else {
            0
        }
    }
}

/// One of the moves is the unit's.
pub open spec fn mentions(moves: Seq<Move>, unit: Str) -> bool {
    exists|i: int| 0 <= i < moves.len() && (#[trigger] moves[i]).unit == unit
}

/// A number brought within 128 bits.
pub open spec fn within(x: int) -> i128 {
    if x > i128::MAX {
        i128::MAX
    } else if x < i128::MIN {
        i128::MIN
    } else {
        x as i128
    }
}

/// A task's share of the bounty. What does not divide stays with the author.
pub open spec fn share(q: Quest) -> nat {
    if q.tasks@.len() == 0 {
        0
    } else {
        q.bounty as nat / q.tasks@.len()
    }
}

/// What each of `n` accounts gets that vouched for a result worth `share`: an equal part of
/// the verifiers' percentage.
pub open spec fn voucher_fee(share: nat, n: nat) -> nat {
    share * VERIFIER_CUT_PCT as nat / 100 / n
}

/// What a settled task moves: its share from the author to the solver, less the fees of
/// those who vouched.
pub open spec fn payout(author: Str, share: nat, solver: Str, verifiers: Seq<Str>) -> Seq<Move> {
    let fee: int = if verifiers.len() == 0 {
        0
    } else {
        voucher_fee(share, verifiers.len()) as int
    };
    seq![Move { unit: author, delta: -share }, Move { unit: solver, delta: share - fee * verifiers.len() }]
        + verifiers.map_values(|v: Str| Move { unit: v, delta: fee })
}

pub open spec fn task_ids(tasks: Seq<Task>) -> Seq<Str> {
    tasks.map_values(|t: Task| t.id@)
}

impl DirectoryModel {
    /// The quest is neither closed nor expired.
    pub open spec fn live(self, q: Quest, now: i64) -> bool {
        !self.catalog.closed.contains_key(q.id@) && (q.deadline_ts == 0 || q.deadline_ts > now)
    }

    /// What a task moves: the payout once it settled, its share into escrow while the
    /// quest is live, nothing after that.
    pub open spec fn task_moves(self, q: Quest, task: Str, now: i64) -> Seq<Move> {
        match self.settlement(q.id@, task) {
            Some((solver, verifiers)) => payout(self.unit(q.author@), share(q), solver, verifiers),
            None => if self.live(q, now) {
                seq![Move { unit: self.unit(q.author@), delta: -share(q) }]
            } else {
                Seq::empty()
            },
        }
    }

    pub open spec fn quest_moves(self, q: Quest, now: i64) -> Seq<Move> {
        seq![Move { unit: self.unit(q.author@), delta: 0 }] + if share(q) == 0 {
            Seq::empty()
        } else {
            concat_map(task_ids(q.tasks@), |t: Str| self.task_moves(q, t, now))
        }
    }

    pub open spec fn all_quest_moves(self, now: i64) -> Seq<Move> {
        concat_map(
            sorted_keys(self.catalog.quests.dom()),
            |k: Str| self.quest_moves(self.catalog.quests[k], now),
        )
    }

    /// Boosts are paid to no one.
    pub open spec fn boost_moves(self) -> Seq<Move> {
        self.catalog.boosts.map_values(|b: Boost| Move { unit: self.unit(b.booster@), delta: -(b.amount as int) })
    }

    /// All that moved.
    pub open spec fn moves(self, now: i64) -> Seq<Move> {
        self.all_quest_moves(now) + self.boost_moves()
    }

    /// What a unit has at `now`: what it started with and all that moved.
    pub open spec fn holding(self, unit: Str, now: i64) -> int {
        FAUCET + net(self.moves(now), unit)
    }

    /// What a unit has at `now`, within 128 bits.
    pub open spec fn balance(self, unit: Str, now: i64) -> i128 {
        within(self.holding(unit, now))
    }
}

/// Nothing moved for a unit that no move names.
pub proof fn lemma_unmentioned(moves: Seq<Move>, unit: Str)
    requires
        !mentions(moves, unit),
    ensures
        net(moves, unit) == 0,
    decreases moves.len(),
{
    if moves.len() > 0 {
        let t = moves.drop_last();
        assert(moves[moves.len() - 1].unit != unit);
        assert forall|i: int| 0 <= i < t.len() implies (#[trigger] t[i]).unit != unit by {
            assert(t[i] == moves[i]);
        }
        lemma_unmentioned(t, unit);
    }
}

/// A change of what a unit has, as it is reckoned.
struct Transfer {
    unit: String,
    gain: u64,
    loss: u64,
}

impl View for Transfer {
    type V = Move;

    closed spec fn view(&self) -> Move {
        Move { unit: self.unit@, delta: self.gain - self.loss }
    }
}

spec fn moves_of(s: Seq<Transfer>) -> Seq<Move> {
    s.map_values(|t: Transfer| t@)
}

fn transfer(out: &mut Vec<Transfer>, unit: &str, gain: u64, loss: u64)
    ensures
        moves_of(final(out)@) == moves_of(old(out)@).push(Move { unit: unit@, delta: gain - loss }),
{
    let ghost before = out@;
    out.push(Transfer { unit: unit.to_owned(), gain, loss });
    assert(moves_of(out@) =~= moves_of(before).push(Move { unit: unit@, delta: gain - loss }));
}

/// What a unit gained and lost.
#[derive(Clone, Copy)]
struct Sums {
    gain: u128,
    loss: u128,
}

/// `sums` is what the moves add up to, each side at most `bound`.
spec fn tracks(sums: Map<Str, Sums>, moves: Seq<Move>, bound: int) -> bool {
    forall|u: Str|
        {
            &&& #[trigger] sums.contains_key(u) <==> mentions(moves, u)
            &&& sums.contains_key(u) ==> sums[u].gain - sums[u].loss == net(moves, u) && sums[u].gain <= bound && sums[u].loss
                <= bound
        }
}

fn add_transfer(sums: &mut OrdMap<Sums>, t: &Transfer, Ghost(moves): Ghost<Seq<Move>>, Ghost(bound): Ghost<int>)
    requires
        tracks(old(sums)@, moves, bound),
        0 <= bound <= u128::MAX - u64::MAX,
    ensures
        tracks(final(sums)@, moves.push(t@), bound + u64::MAX),
{
    let ghost before = sums@;
    let have = match sums.get(t.unit.as_str()) {
        Some(s) => *s,
        None => Sums { gain: 0, loss: 0 },
    };
    let now = Sums { gain: have.gain + t.gain as u128, loss: have.loss + t.loss as u128 };
    sums.insert(t.unit.clone(), now);
    proof {
        let unit = t.unit@;
        let more = moves.push(t@);
        assert(more.drop_last() =~= moves);
        assert forall|u: Str|
            {
                &&& #[trigger] sums@.contains_key(u) <==> mentions(more, u)
                &&& sums@.contains_key(u) ==> sums@[u].gain - sums@[u].loss == net(more, u) && sums@[u].gain <= bound + u64::MAX
                    && sums@[u].loss <= bound + u64::MAX
            } by {
            if u == unit {
                assert(more[moves.len() as int].unit == unit);
                if !before.contains_key(unit) {
                    lemma_unmentioned(moves, unit);
                }
            } else {
                assert(before.contains_key(u) == sums@.contains_key(u));
                if mentions(moves, u) {
                    let i = choose|i: int| 0 <= i < moves.len() && (#[trigger] moves[i]).unit == u;
                    assert(more[i].unit == u);
                }
                if mentions(more, u) {
                    let i = choose|i: int| 0 <= i < more.len() && (#[trigger] more[i]).unit == u;
                    assert(moves[i].unit == u);
                }
            }
        }
    }
}

fn balance_from(s: Sums) -> (r: i128)
    requires
        s.gain <= u128::MAX - 100,
    ensures
        r == within(FAUCET + s.gain - s.loss),
{
    let up = s.gain + FAUCET as u128;
    if up >= s.loss {
        let d = up - s.loss;
        if d > i128::MAX as u128 {
            i128::MAX
        } else {
            d as i128
        }
    } else {
        let d = s.loss - up;
        if d > i128::MAX as u128 {
            i128::MIN
        } else {
            -(d as i128)
        }
    }
}

fn fee_of(per: u64, n: usize) -> (r: u64)
    requires
        n > 0,
    ensures
        r == voucher_fee(per as nat, n as nat),
        r * n <= per,
{
    let pool = (per as u128) * (VERIFIER_CUT_PCT as u128) / 100;
    let each = pool / (n as u128);
    assert(each * n <= pool && each <= pool) by (nonlinear_arith)
        requires
            n > 0,
            each == pool / (n as u128),
    ;
    each as u64
}

impl Directory {
    /// A task's share of the bounty. What does not divide stays with the author.
    pub fn per_task(&self, q: &Quest) -> (r: u64)
        ensures
            r == share(*q),
    {
        if q.tasks.len() == 0 {
            0
        } else {
            q.bounty / (q.tasks.len() as u64)
        }
    }

    /// Whether a quest is neither closed nor expired.
    pub fn is_live(&self, q: &Quest, now: i64) -> (r: bool)
        ensures
            r == self@.live(*q, now),
    {
        !self.catalog.closed.contains_key(q.id.as_str()) && (q.deadline_ts == 0 || q.deadline_ts > now)
    }

    fn move_task(&self, out: &mut Vec<Transfer>, q: &Quest, task: &str, author: &str, per: u64, now: i64)
        requires
            author@ == self@.unit(q.author@),
            per == share(*q),
        ensures
            moves_of(final(out)@) == moves_of(old(out)@) + self@.task_moves(*q, task@, now),
    {
        let ghost ms = moves_of(out@);
        match self.task_settlement(q.id.as_str(), task) {
            None => {
                if self.is_live(q, now) {
                    transfer(out, author, 0, per);
                }
                assert(moves_of(out@) =~= ms + self@.task_moves(*q, task@, now));
            },
            Some((solver, verifiers)) => {
                let ghost vs = texts(verifiers@);
                assert(vs.len() == verifiers@.len());
                let n = verifiers.len();
                let each: u64 = if n == 0 {
                    0
                } else {
                    fee_of(per, n)
                };
                let ghost fee = each as int;
                assert(0 <= each * n <= per) by (nonlinear_arith)
                    requires
                        n == 0 || each * n <= per,
                        each >= 0,
                        n >= 0,
                        per >= 0,
                ;
                let paid = ((each as u128) * (n as u128)) as u64;
                transfer(out, author, 0, per);
                transfer(out, solver.as_str(), per - paid, 0);
                let ghost m2 = moves_of(out@);
                let ghost tail = vs.map_values(|v: Str| Move { unit: v, delta: fee });
                let mut i: usize = 0;
                assert(m2 + tail.take(0) =~= m2);
                while i < n
                    invariant
                        0 <= i <= n,
                        n == verifiers.len(),
                        vs == texts(verifiers@),
                        each == fee,
                        tail == vs.map_values(|v: Str| Move { unit: v, delta: fee }),
                        moves_of(out@) == m2 + tail.take(i as int),
                    decreases n - i,
                {
                    transfer(out, verifiers[i].as_str(), each, 0);
                    assert((m2 + tail.take(i as int)).push(Move { unit: vs[i as int], delta: fee }) =~= m2 + tail.take(i + 1));
                    i = i + 1;
                }
                assert(tail.take(i as int) =~= tail);
                assert(m2 + tail =~= ms + self@.task_moves(*q, task@, now));
            },
        }
    }

    fn move_quest(&self, out: &mut Vec<Transfer>, q: &Quest, now: i64)
        ensures
            moves_of(final(out)@) == moves_of(old(out)@) + self@.quest_moves(*q, now),
    {
        let ghost ms = moves_of(out@);
        let author = self.acct(q.author.as_str());
        transfer(out, author.as_str(), 0, 0);
        let ghost m1 = moves_of(out@);
        let per = self.per_task(q);
        if per == 0 {
            assert(m1 =~= ms + self@.quest_moves(*q, now));
            return ;
        }
        let ghost ids = task_ids(q.tasks@);
        let ghost f = |t: Str| self@.task_moves(*q, t, now);
        let mut i: usize = 0;
        assert(m1 + concat_map(ids.take(0), f) =~= m1);
        while i < q.tasks.len()
            invariant
                0 <= i <= q.tasks.len(),
                ids == task_ids(q.tasks@),
                f == (|t: Str| self@.task_moves(*q, t, now)),
                author@ == self@.unit(q.author@),
                per == share(*q),
                moves_of(out@) == m1 + concat_map(ids.take(i as int), f),
            decreases q.tasks.len() - i,
        {
            let ghost so_far = moves_of(out@);
            self.move_task(out, q, q.tasks[i].id.as_str(), author.as_str(), per, now);
            proof {
                lemma_concat_map_step(ids, f, i as int);
                assert(so_far + f(ids[i as int]) =~= m1 + concat_map(ids.take(i + 1), f));
            }
            i = i + 1;
        }
        assert(ids.take(i as int) =~= ids);
        assert(m1 + concat_map(ids, f) =~= ms + self@.quest_moves(*q, now));
    }

    fn transfers(&self, now: i64) -> (r: Vec<Transfer>)
        ensures
            moves_of(r@) == self@.moves(now),
    {
        let mut out: Vec<Transfer> = Vec::new();
        let ghost keys = sorted_keys(self@.catalog.quests.dom());
        let ghost f = |k: Str| self@.quest_moves(self@.catalog.quests[k], now);
        let n = self.catalog.quests.len();
        let mut i: usize = 0;
        assert(moves_of(out@) =~= concat_map(keys.take(0), f));
        while i < n
            invariant
                0 <= i <= n,
                n == keys.len(),
                keys == sorted_keys(self@.catalog.quests.dom()),
                f == (|k: Str| self@.quest_moves(self@.catalog.quests[k], now)),
                moves_of(out@) == concat_map(keys.take(i as int), f),
            decreases n - i,
        {
            self.move_quest(&mut out, self.catalog.quests.value_at(i), now);
            proof {
                lemma_concat_map_step(keys, f, i as int);
            }
            i = i + 1;
        }
        assert(keys.take(i as int) =~= keys);
        let ghost m1 = self@.all_quest_moves(now);
        let ghost tail = self@.boost_moves();
        let mut j: usize = 0;
        assert(m1 + tail.take(0) =~= m1);
        while j < self.catalog.boosts.len()
            invariant
                0 <= j <= self.catalog.boosts.len(),
                tail == self@.boost_moves(),
                moves_of(out@) == m1 + tail.take(j as int),
            decreases self.catalog.boosts.len() - j,
        {
            let b = &self.catalog.boosts[j];
            let unit = self.acct(b.booster.as_str());
            transfer(&mut out, unit.as_str(), 0, b.amount);
            assert((m1 + tail.take(j as int)).push(tail[j as int]) =~= m1 + tail.take(j + 1));
            j = j + 1;
        }
        assert(tail.take(j as int) =~= tail);
        out
    }

    /// The balances of all units that the ledger moved credits of, or that posted a
    /// quest. A settled task moves its share from the author to the solver and to those
    /// who vouched. An unsettled task of a live quest keeps its share in escrow; one of a
    /// closed or expired quest is refunded. Boosts are burned. Nothing is minted beyond
    /// what every account starts with.
    pub fn credits(&self, now: i64) -> (r: OrdMap<i128>)
        ensures
            forall|u: Str| #[trigger] r@.contains_key(u) <==> mentions(self@.moves(now), u),
            forall|u: Str| #[trigger] r@.contains_key(u) ==> r@[u] == self@.balance(u, now),
    {
        let transfers = self.transfers(now);
        let ghost ms = self@.moves(now);
        let mut sums: OrdMap<Sums> = OrdMap::new();
        let mut i: usize = 0;
        while i < transfers.len()
            invariant
                0 <= i <= transfers.len(),
                ms == moves_of(transfers@),
                tracks(sums@, ms.take(i as int), i * u64::MAX),
            decreases transfers.len() - i,
        {
            assert(i < u64::MAX);
            assert(i * u64::MAX <= u128::MAX - u64::MAX);
            add_transfer(&mut sums, &transfers[i], Ghost(ms.take(i as int)), Ghost(i * u64::MAX));
            assert(ms.take(i as int).push(ms[i as int]) =~= ms.take(i + 1));
            i = i + 1;
        }
        assert(ms.take(i as int) =~= ms);
        let mut bal: OrdMap<i128> = OrdMap::new();
        let ghost keys = sums.keys();
        let n = sums.len();
        let mut k: usize = 0;
        while k < n
            invariant
                0 <= k <= n,
                n == keys.len(),
                keys == sums.keys(),
                ms == self@.moves(now),
                i <= u64::MAX,
                tracks(sums@, ms, i * u64::MAX),
                forall|u: Str| #[trigger] bal@.contains_key(u) <==> keys.take(k as int).contains(u),
                forall|u: Str| #[trigger] bal@.contains_key(u) ==> bal@[u] == self@.balance(u, now),
            decreases n - k,
        {
            let unit = sums.key_at(k);
            let s = *sums.value_at(k);
            assert(sums@.contains_key(unit@));
            bal.insert(unit.clone(), balance_from(s));
            proof {
                lemma_take_contains(keys, k as int);
            }
            k = k + 1;
        }
        assert(keys.take(k as int) =~= keys);
        assert forall|u: Str| #[trigger] bal@.contains_key(u) <==> mentions(ms, u) by {
            assert(sums@.contains_key(u) <==> mentions(ms, u));
            assert(sums@.dom().contains(u) <==> keys.contains(u));
        }
        bal
    }

    /// What a unit has at `now`.
    pub fn balance_of(&self, unit: &str, now: i64) -> (r: i128)
        ensures
            r == self@.balance(unit@, now),
    {
        let bal = self.credits(now);
        match bal.get(unit) {
            Some(b) => *b,
            None => {
                proof {
                    lemma_unmentioned(self@.moves(now), unit@);
                }
                FAUCET
            },
        }
    }
}

/// The credits that boosted `target`.
pub open spec fn boosted(boosts: Seq<Boost>, target: Str) -> nat
    decreases boosts.len(),
{
    if boosts.len() == 0 {
        0
    } else {
        boosted(boosts.drop_last(), target) + if boosts.last().target@ == target {
            boosts.last().amount as nat
        } else {
            0
        }
    }
}

/// A number as far as 64 bits hold.
pub open spec fn capped(x: nat) -> u64 {
    if x > u64::MAX {
        u64::MAX
    } else {
        x as u64
    }
}

impl DirectoryModel {
    /// The credits that boosted a quest or a scroll, as far as 64 bits hold.
    pub open spec fn boost_of(self, target: Str) -> u64 {
        capped(boosted(self.catalog.boosts, target))
    }

    /// The key posted a quest, answered a task or gave a verdict on a result.
    pub open spec fn trades(self, pubkey: Str) -> bool {
        ||| among_values(self.catalog.quests, pubkey)
        ||| among_lists(self.catalog.results, pubkey)
        ||| among_lists(self.catalog.verifications, pubkey)
    }
}

impl Directory {
    /// The credits that boosted a quest or a scroll, as far as 64 bits hold.
    pub fn boost_score(&self, target: &str) -> (r: u64)
        ensures
            r == self@.boost_of(target@),
    {
        let mut total: u64 = 0;
        let mut i: usize = 0;
        let ghost all = self.catalog.boosts@;
        while i < self.catalog.boosts.len()
            invariant
                0 <= i <= self.catalog.boosts.len(),
                all == self.catalog.boosts@,
                total == capped(boosted(all.take(i as int), target@)),
            decreases self.catalog.boosts.len() - i,
        {
            assert(all.take(i + 1).drop_last() =~= all.take(i as int));
            assert(all.take(i + 1).last() == all[i as int]);
            let b = &self.catalog.boosts[i];
            if same(b.target.as_str(), target) {
                total = if b.amount > u64::MAX - total {
                    u64::MAX
                } else {
                    total + b.amount
                };
            }
            i = i + 1;
        }
        assert(all.take(i as int) =~= all);
        total
    }

    /// The balances of the keys that posted a quest, answered a task or gave a verdict on
    /// a result. Each has what its account has.
    pub fn credits_by_pubkey(&self, now: i64) -> (r: OrdMap<i128>)
        ensures
            forall|pk: Str| #[trigger] r@.contains_key(pk) <==> self@.trades(pk),
            forall|pk: Str| #[trigger] r@.contains_key(pk) ==> r@[pk] == self@.balance(self@.unit(pk), now),
            forall|a: Str, b: Str| #[trigger]
                r@.contains_key(a) && #[trigger] r@.contains_key(b) && self@.accounts.unit_of(a) == self@.accounts.unit_of(b) ==> r@[a] == r@[b],
    {
        let bal = self.credits(now);
        let mut traders: KeySet = OrdMap::new();
        add_value_signers(&mut traders, &self.catalog.quests);
        add_pair_signers(&mut traders, &self.catalog.results);
        add_list_signers(&mut traders, &self.catalog.verifications);
        let mut out: OrdMap<i128> = OrdMap::new();
        let ghost keys = traders.keys();
        let n = traders.len();
        let mut i: usize = 0;
        while i < n
            invariant
                0 <= i <= n,
                n == keys.len(),
                keys == traders.keys(),
                forall|u: Str| #[trigger] bal@.contains_key(u) <==> mentions(self@.moves(now), u),
                forall|u: Str| #[trigger] bal@.contains_key(u) ==> bal@[u] == self@.balance(u, now),
                forall|pk: Str| #[trigger] out@.contains_key(pk) ==> out@[pk] == self@.balance(self@.unit(pk), now),
                forall|pk: Str| #[trigger] out@.contains_key(pk) <==> keys.take(i as int).contains(pk),
            decreases n - i,
        {
            let pk = traders.key_at(i);
            let unit = self.acct(pk.as_str());
            let b: i128 = match bal.get(unit.as_str()) {
                Some(b) => *b,
                None => {
                    proof {
                        lemma_unmentioned(self@.moves(now), unit@);
                    }
                    FAUCET
                },
            };
            out.insert(pk.clone(), b);
            proof {
                lemma_take_contains(keys, i as int);
            }
            i = i + 1;
        }
        assert(keys.take(i as int) =~= keys);
        assert forall|pk: Str| #[trigger] out@.contains_key(pk) <==> self@.trades(pk) by {
            assert(out@.contains_key(pk) <==> keys.contains(pk));
            assert(traders@.dom().contains(pk) <==> keys.contains(pk));
        }
        out
    }
}

} // verus!
