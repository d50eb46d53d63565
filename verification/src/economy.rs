//! Leases and settlement: who holds a task, and how it settles.

use crate::accounts::{elapsed, seconds_between, Registry};
use crate::directory::{Directory, DirectoryModel};
use crate::ordmap::list_at;
use crate::records::{Attestation, HordeClaim, Str, TaskClaim, TaskResult};
use crate::seqs::{first_match, lemma_first_match_at, lemma_first_match_none};
use crate::text::{contains_string, same, texts};
use vstd::prelude::*;

verus! {

/// How long a claim holds a task, in seconds, before the task is open again.
pub const CLAIM_LEASE_SECS: i64 = 1800;

/// The credits that every account starts with. All other spending power is earned.
pub const FAUCET: i128 = 100;

/// How many independent accounts have to vouch for a result to settle a task without the
/// author.
pub const QUORUM_VERIFICATIONS: usize = 2;

/// The percentage of a task's share that goes to those who vouched for the result.
pub const VERIFIER_CUT_PCT: u64 = 20;

// ---- leases ----

/// A claim made at `ts` still holds at `now`.
pub open spec fn lease_live(ts: i64, now: i64) -> bool {
    elapsed(now, ts) < CLAIM_LEASE_SECS
}

/// Among claims made at the times `ts`, the one that holds at `now`: the latest that is
/// live, and of several made at once the last.
pub open spec fn lease_index(ts: Seq<i64>, now: i64) -> Option<int>
    decreases ts.len(),
{
    if ts.len() == 0 {
        None
    } else {
        let rest = lease_index(ts.drop_last(), now);
        if !lease_live(ts.last(), now) {
            rest
        } else {
            match rest {
                Some(i) => if ts[i] > ts.last() {
                    Some(i)
                } else {
                    Some(ts.len() - 1)
                },
                None => Some(ts.len() - 1),
            }
        }
    }
}

/// The claim that holds is live, and no live claim is later; there is none only where no
/// claim is live.
pub proof fn lemma_lease_index(ts: Seq<i64>, now: i64)
    ensures
        match lease_index(ts, now) {
            Some(i) => {
                &&& 0 <= i < ts.len()
                &&& lease_live(ts[i], now)
                &&& forall|j: int| 0 <= j < ts.len() && lease_live(#[trigger] ts[j], now) ==> ts[j] < ts[i] || (ts[j] == ts[i] && j <= i)
            },
            None => forall|j: int| 0 <= j < ts.len() ==> !lease_live(#[trigger] ts[j], now),
        },
    decreases ts.len(),
{
    if ts.len() > 0 {
        let t = ts.drop_last();
        lemma_lease_index(t, now);
        assert forall|j: int| 0 <= j < t.len() implies #[trigger] ts[j] == t[j] by {}
    }
}

/// When the claims were made.
pub open spec fn claim_times(list: Seq<TaskClaim>) -> Seq<i64> {
    list.map_values(|c: TaskClaim| c.created_ts)
}

/// When the claims were made.
pub open spec fn horde_claim_times(list: Seq<HordeClaim>) -> Seq<i64> {
    list.map_values(|c: HordeClaim| c.created_ts)
}

impl DirectoryModel {
    /// What a key answers to.
    pub open spec fn unit(self, pubkey: Str) -> Str {
        self.accounts.unit_of(pubkey)
    }

    pub open spec fn results_of(self, quest: Str, task: Str) -> Seq<TaskResult> {
        list_at(self.catalog.results, (quest, task))
    }

    /// The claim that holds a task. A task with a result needs none.
    pub open spec fn claim_on(self, quest: Str, task: Str, now: i64) -> Option<TaskClaim> {
        let list = list_at(self.catalog.claims, (quest, task));
        if self.results_of(quest, task).len() > 0 {
            None
        } else {
            match lease_index(claim_times(list), now) {
                Some(i) => Some(list[i]),
                None => None,
            }
        }
    }

    /// The claim that holds a piece of the account's own work.
    pub open spec fn horde_claim_on(self, task: Str, now: i64) -> Option<HordeClaim> {
        let list = list_at(self.catalog.horde_claims, task);
        if list_at(self.catalog.horde_results, task).len() > 0 {
            None
        } else {
            match lease_index(horde_claim_times(list), now) {
                Some(i) => Some(list[i]),
                None => None,
            }
        }
    }
}

impl Directory {
    /// The claim that holds a task at `now`: the most recent one within the lease,
    /// unless there is a result already.
    pub fn active_claim(&self, quest: &str, task: &str, now: i64) -> (r: Option<&TaskClaim>)
        ensures
            match r {
                Some(c) => self@.claim_on(quest@, task@, now) == Some(*c),
                None => self@.claim_on(quest@, task@, now) is None,
            },
    {
        if self.catalog.results.count(quest, task) > 0 {
            return None;
        }
        match self.catalog.claims.list(quest, task) {
            None => {
                assert(claim_times(Seq::<TaskClaim>::empty()) =~= Seq::<i64>::empty());
                None
            },
            Some(list) => {
                let ghost ts = claim_times(list@);
                let mut best: Option<usize> = None;
                let mut i: usize = 0;
                while i < list.len()
                    invariant
                        0 <= i <= list.len(),
                        ts == claim_times(list@),
                        match best {
                            Some(b) => b < i && lease_index(ts.take(i as int), now) == Some(b as int),
                            None => lease_index(ts.take(i as int), now) is None,
                        },
                    decreases list.len() - i,
                {
                    assert(ts.take(i + 1).drop_last() =~= ts.take(i as int));
                    assert(ts.take(i + 1).last() == ts[i as int]);
                    if seconds_between(list[i].created_ts, now) < CLAIM_LEASE_SECS as i128 {
                        match best {
                            Some(b) => {
                                assert(ts.take(i + 1)[b as int] == ts[b as int]);
                                if !(list[b].created_ts > list[i].created_ts) {
                                    best = Some(i);
                                }
                            },
                            None => {
                                best = Some(i);
                            },
                        }
                    }
                    i = i + 1;
                }
                assert(ts.take(i as int) =~= ts);
                match best {
                    Some(b) => Some(&list[b]),
                    None => None,
                }
            },
        }
    }

    /// The claim that holds a piece of the account's own work at `now`.
    pub fn active_horde_claim(&self, task: &str, now: i64) -> (r: Option<&HordeClaim>)
        ensures
            match r {
                Some(c) => self@.horde_claim_on(task@, now) == Some(*c),
                None => self@.horde_claim_on(task@, now) is None,
            },
    {
        if self.catalog.horde_results.count(task) > 0 {
            return None;
        }
        match self.catalog.horde_claims.list(task) {
            None => {
                assert(horde_claim_times(Seq::<HordeClaim>::empty()) =~= Seq::<i64>::empty());
                None
            },
            Some(list) => {
                let ghost ts = horde_claim_times(list@);
                let mut best: Option<usize> = None;
                let mut i: usize = 0;
                while i < list.len()
                    invariant
                        0 <= i <= list.len(),
                        ts == horde_claim_times(list@),
                        match best {
                            Some(b) => b < i && lease_index(ts.take(i as int), now) == Some(b as int),
                            None => lease_index(ts.take(i as int), now) is None,
                        },
                    decreases list.len() - i,
                {
                    assert(ts.take(i + 1).drop_last() =~= ts.take(i as int));
                    assert(ts.take(i + 1).last() == ts[i as int]);
                    if seconds_between(list[i].created_ts, now) < CLAIM_LEASE_SECS as i128 {
                        match best {
                            Some(b) => {
                                assert(ts.take(i + 1)[b as int] == ts[b as int]);
                                if !(list[b].created_ts > list[i].created_ts) {
                                    best = Some(i);
                                }
                            },
                            None => {
                                best = Some(i);
                            },
                        }
                    }
                    i = i + 1;
                }
                assert(ts.take(i as int) =~= ts);
                match best {
                    Some(b) => Some(&list[b]),
                    None => None,
                }
            },
        }
    }
}

// ---- settlement ----

/// The accounts other than the solver's that vouched for a result, each once, in the
/// order they came.
pub open spec fn vouchers(reg: Registry, list: Seq<Attestation>, solver: Str) -> Seq<Str>
    decreases list.len(),
{
    if list.len() == 0 {
        Seq::empty()
    } else {
        let rest = vouchers(reg, list.drop_last(), solver);
        let a = list.last();
        let u = reg.unit_of(a.attester@);
        if a.reproduced && a.signed && u != solver && !rest.contains(u) {
            rest.push(u)
        } else {
            rest
        }
    }
}

impl DirectoryModel {
    /// The quest was posted by an agent of this account.
    pub open spec fn posted_by(self, quest: Str, unit: Str) -> bool {
        self.catalog.quests.contains_key(quest) && self.unit(self.catalog.quests[quest].author@) == unit
    }

    /// The accounts that vouched for a result.
    pub open spec fn vouched(self, r: TaskResult) -> Seq<Str> {
        vouchers(self.accounts, list_at(self.catalog.verifications, r.id@), self.unit(r.worker@))
    }

    /// Enough accounts vouched for a result that is not the quest author's own.
    pub open spec fn has_quorum(self, quest: Str, r: TaskResult) -> bool {
        !self.posted_by(quest, self.unit(r.worker@)) && self.vouched(r).len() >= QUORUM_VERIFICATIONS
    }

    /// The result that the author accepted, unless it is the author's own.
    pub open spec fn accepted(self, quest: Str, task: Str) -> Option<int> {
        if self.catalog.accepts.contains_key((quest, task)) {
            let id = self.catalog.accepts[(quest, task)].result_id@;
            match first_match(self.results_of(quest, task), |r: TaskResult| r.id@ == id) {
                Some(i) => if self.posted_by(quest, self.unit(self.results_of(quest, task)[i].worker@)) {
                    None
                } else {
                    Some(i)
                },
                None => None,
            }
        } else {
            None
        }
    }

    /// How a task settled, if it did: the solver's account, and the accounts that
    /// vouched, none where the author accepted.
    pub open spec fn settlement(self, quest: Str, task: Str) -> Option<(Str, Seq<Str>)> {
        let rs = self.results_of(quest, task);
        match self.accepted(quest, task) {
            Some(i) => Some((self.unit(rs[i].worker@), Seq::empty())),
            None => match first_match(rs, |r: TaskResult| self.has_quorum(quest, r)) {
                Some(i) => Some((self.unit(rs[i].worker@), self.vouched(rs[i]))),
                None => None,
            },
        }
    }
}

impl Directory {
    pub(crate) fn is_poster(&self, quest: &str, unit: &str) -> (r: bool)
        ensures
            r == self@.posted_by(quest@, unit@),
    {
        match self.catalog.quests.get(quest) {
            Some(q) => same(self.acct(q.author.as_str()).as_str(), unit),
            None => false,
        }
    }

    fn vouchers_of(&self, r: &TaskResult, solver: &str) -> (v: Vec<String>)
        requires
            solver@ == self@.unit(r.worker@),
        ensures
            texts(v@) == self@.vouched(*r),
    {
        let mut out: Vec<String> = Vec::new();
        assert(texts(out@) =~= Seq::<Str>::empty());
        match self.catalog.verifications.list(r.id.as_str()) {
            None => {},
            Some(list) => {
                let mut i: usize = 0;
                assert(list@.take(0) =~= Seq::empty());
                while i < list.len()
                    invariant
                        0 <= i <= list.len(),
                        texts(out@) == vouchers(self@.accounts, list@.take(i as int), solver@),
                    decreases list.len() - i,
                {
                    assert(list@.take(i + 1).drop_last() =~= list@.take(i as int));
                    assert(list@.take(i + 1).last() == list@[i as int]);
                    let a = &list[i];
                    if a.reproduced && a.signed {
                        let u = self.acct(a.attester.as_str());
                        if !same(u.as_str(), solver) && !contains_string(&out, u.as_str()) {
                            let ghost prev = out@;
                            let ghost w = u@;
                            out.push(u);
                            assert(texts(out@) =~= texts(prev).push(w));
                        }
                    }
                    i = i + 1;
                }
                assert(list@.take(i as int) =~= list@);
            },
        }
        out
    }

    /// The position of the result that the author accepted, unless it is the author's
    /// own.
    fn accepted_result(&self, quest: &str, task: &str) -> (r: Option<usize>)
        ensures
            match r {
                Some(i) => self@.accepted(quest@, task@) == Some(i as int) && i < self@.results_of(quest@, task@).len(),
                None => self@.accepted(quest@, task@) is None,
            },
    {
        match self.catalog.accepts.get(quest, task) {
            None => None,
            Some(acc) => {
                let ghost id = acc.result_id@;
                let ghost p = |r: TaskResult| r.id@ == id;
                let ghost rs = self@.results_of(quest@, task@);
                match self.catalog.results.list(quest, task) {
                    None => {
                        proof {
                            lemma_first_match_none(rs, p);
                        }
                        None
                    },
                    Some(list) => {
                        let mut i: usize = 0;
                        while i < list.len()
                            invariant
                                0 <= i <= list.len(),
                                list@ == rs,
                                rs == self@.results_of(quest@, task@),
                                self@.catalog.accepts.contains_key((quest@, task@)),
                                *acc == self@.catalog.accepts[(quest@, task@)],
                                id == acc.result_id@,
                                p == (|r: TaskResult| r.id@ == id),
                                forall|j: int| 0 <= j < i ==> !p(#[trigger] rs[j]),
                            decreases list.len() - i,
                        {
                            if same(list[i].id.as_str(), acc.result_id.as_str()) {
                                proof {
                                    lemma_first_match_at(rs, p, i as int);
                                }
                                let solver = self.acct(list[i].worker.as_str());
                                if self.is_poster(quest, solver.as_str()) {
                                    return None;
                                }
                                return Some(i);
                            }
                            i = i + 1;
                        }
                        proof {
                            lemma_first_match_none(rs, p);
                        }
                        None
                    },
                }
            },
        }
    }

    /// How a task settled, if it did: the solver's account, and the accounts that
    /// vouched for the result, none where the author accepted it. The author's acceptance
    /// wins; else the first result with a quorum of independent accounts settles the
    /// task. A quest never settles to the account that posted it.
    pub fn task_settlement(&self, quest: &str, task: &str) -> (r: Option<(String, Vec<String>)>)
        ensures
            match r {
                Some(s) => self@.settlement(quest@, task@) == Some((s.0@, texts(s.1@))),
                None => self@.settlement(quest@, task@) is None,
            },
    {
        let ghost rs = self@.results_of(quest@, task@);
        let ghost p = |r: TaskResult| self@.has_quorum(quest@, r);
        match self.catalog.results.list(quest, task) {
            None => {
                proof {
                    let id = self@.catalog.accepts[(quest@, task@)].result_id@;
                    lemma_first_match_none(rs, |r: TaskResult| r.id@ == id);
                    lemma_first_match_none(rs, p);
                }
                None
            },
            Some(list) => {
                if let Some(i) = self.accepted_result(quest, task) {
                    let solver = self.acct(list[i].worker.as_str());
                    let none: Vec<String> = Vec::new();
                    assert(texts(none@) =~= Seq::<Str>::empty());
                    return Some((solver, none));
                }
                let mut i: usize = 0;
                while i < list.len()
                    invariant
                        0 <= i <= list.len(),
                        list@ == rs,
                        rs == self@.results_of(quest@, task@),
                        self@.accepted(quest@, task@) is None,
                        p == (|r: TaskResult| self@.has_quorum(quest@, r)),
                        forall|j: int| 0 <= j < i ==> !p(#[trigger] rs[j]),
                    decreases list.len() - i,
                {
                    let solver = self.acct(list[i].worker.as_str());
                    if !self.is_poster(quest, solver.as_str()) {
                        let verifiers = self.vouchers_of(&list[i], solver.as_str());
                        if verifiers.len() >= QUORUM_VERIFICATIONS {
                            proof {
                                assert(texts(verifiers@).len() == verifiers@.len());
                                lemma_first_match_at(rs, p, i as int);
                            }
                            return Some((solver, verifiers));
                        }
                        assert(texts(verifiers@).len() == verifiers@.len());
                    }
                    i = i + 1;
                }
                proof {
                    lemma_first_match_none(rs, p);
                }
                None
            },
        }
    }
}

} // verus!
