//! Votes, collapsed to one per account.

use crate::accounts::Registry;
use crate::directory::{Directory, DirectoryModel};
use crate::ordmap::{list_at, sorted_keys, OrdMap};
use crate::records::{Str, Vote};
use crate::seqs::{lemma_filter_none, lemma_filter_step};
use crate::text::{compare, lex_lt, Rank};
use vstd::prelude::*;

verus! {

/// `v` was cast after `w`; of two cast at once the one with the greater id is the later.
pub open spec fn later_vote(v: Vote, w: Vote) -> bool {
    v.created_ts > w.created_ts || (v.created_ts == w.created_ts && lex_lt(w.id@, v.id@))
}

/// The latest vote of each unit.
pub open spec fn latest_votes(reg: Registry, votes: Seq<Vote>) -> Map<Str, Vote>
    decreases votes.len(),
{
    if votes.len() == 0 {
        Map::empty()
    } else {
        let m = latest_votes(reg, votes.drop_last());
        let v = votes.last();
        let u = reg.unit_of(v.voter@);
        if !v.signed || (m.contains_key(u) && !later_vote(v, m[u])) {
            m
        } else {
            m.insert(u, v)
        }
    }
}

/// The units whose latest vote is `value`.
pub open spec fn units_for(m: Map<Str, Vote>, value: int) -> Seq<Str> {
    sorted_keys(m.dom()).filter(|u: Str| m[u].value == value)
}

/// A count of votes.
#[derive(Debug, Clone, Copy, PartialEq, Eq, Structural)]
pub struct Tally {
    pub up: u64,
    pub down: u64,
    pub score: i64,
}

impl DirectoryModel {
    /// The latest vote of each unit on a target.
    pub open spec fn standing_votes(self, target: Str) -> Map<Str, Vote> {
        latest_votes(self.accounts, list_at(self.catalog.votes, target))
    }

    /// The count of votes on a target, one per unit.
    pub open spec fn tally(self, target: Str) -> Tally {
        let up = units_for(self.standing_votes(target), 1).len() as u64;
        let down = units_for(self.standing_votes(target), -1).len() as u64;
        Tally { up, down, score: i64::wrapping_sub(up as i64, down as i64) }
    }
}

/// `m` holds the places of the votes of `latest`.
pub open spec fn points_at(m: Map<Str, usize>, votes: Seq<Vote>, latest: Map<Str, Vote>) -> bool {
    &&& m.dom() == latest.dom()
    &&& forall|u: Str| #[trigger] m.contains_key(u) ==> m[u] < votes.len() && votes[m[u] as int] == latest[u]
}

impl Directory {
    pub(crate) fn latest_of(&self, votes: &Vec<Vote>) -> (r: OrdMap<usize>)
        ensures
            points_at(r@, votes@, latest_votes(self@.accounts, votes@)),
    {
        let mut m: OrdMap<usize> = OrdMap::new();
        let ghost reg = self@.accounts;
        let mut i: usize = 0;
        assert(m@.dom() =~= latest_votes(reg, votes@.take(0)).dom());
        while i < votes.len()
            invariant
                0 <= i <= votes.len(),
                reg == self@.accounts,
                points_at(m@, votes@, latest_votes(reg, votes@.take(i as int))),
            decreases votes.len() - i,
        {
            let ghost prev = latest_votes(reg, votes@.take(i as int));
            assert(votes@.take(i + 1).drop_last() =~= votes@.take(i as int));
            assert(votes@.take(i + 1).last() == votes@[i as int]);
            let v = &votes[i];
            if v.signed {
                let u = self.acct(v.voter.as_str());
                let stands = match m.get(u.as_str()) {
                    Some(k) => {
                        let w = &votes[*k];
                        !(v.created_ts > w.created_ts || (v.created_ts == w.created_ts && compare(
                            w.id.as_str(),
                            v.id.as_str(),
                        ) == Rank::Less))
                    },
                    None => false,
                };
                assert(m@.contains_key(u@) == m@.dom().contains(u@));
                assert(prev.contains_key(u@) == prev.dom().contains(u@));
                if !stands {
                    let ghost w = u@;
                    m.insert(u, i);
                    assert(m@.dom() =~= prev.insert(w, votes@[i as int]).dom());
                }
            }
            i = i + 1;
        }
        assert(votes@.take(i as int) =~= votes@);
        m
    }

    /// The votes on a target, collapsed to one per unit: the latest counts, and a vote of
    /// 0 takes an earlier one back.
    pub fn vote_tally(&self, target: &str) -> (r: Tally)
        ensures
            r == self@.tally(target@),
            r.up == units_for(self@.standing_votes(target@), 1).len(),
            r.down == units_for(self@.standing_votes(target@), -1).len(),
            r.up <= i64::MAX && r.down <= i64::MAX ==> r.score == r.up - r.down,
    {
        let mut up: u64 = 0;
        let mut down: u64 = 0;
        let ghost latest = self@.standing_votes(target@);
        let ghost keys = sorted_keys(latest.dom());
        let ghost p = |u: Str| latest[u].value == 1int;
        let ghost q = |u: Str| latest[u].value == -1int;
        match self.catalog.votes.list(target) {
            None => {
                let m: OrdMap<usize> = OrdMap::new();
                assert(m@.dom() =~= latest.dom());
                let n = m.len();
                proof {
                    lemma_filter_none(keys, p);
                    lemma_filter_none(keys, q);
                    assert(keys.len() == 0) by {
                        if keys.len() > 0 {
                            assert(keys.contains(keys[0]));
                            assert(latest.dom().contains(keys[0]));
                        }
                    }
                    assert(keys.take(0) =~= keys);
                }
            },
            Some(votes) => {
                let m = self.latest_of(votes);
                let n = m.len();
                let mut i: usize = 0;
                proof {
                    lemma_filter_none(keys, p);
                    lemma_filter_none(keys, q);
                }
                while i < n
                    invariant
                        0 <= i <= n,
                        n == keys.len(),
                        keys == m.keys(),
                        keys == sorted_keys(latest.dom()),
                        points_at(m@, votes@, latest),
                        p == (|u: Str| latest[u].value == 1int),
                        q == (|u: Str| latest[u].value == -1int),
                        up == keys.take(i as int).filter(p).len(),
                        down == keys.take(i as int).filter(q).len(),
                        up <= i,
                        down <= i,
                    decreases n - i,
                {
                    proof {
                        lemma_filter_step(keys, p, i as int);
                        lemma_filter_step(keys, q, i as int);
                    }
                    let k = *m.value_at(i);
                    let value = votes[k].value;
                    if value == 1 {
                        up = up + 1;
                    } else if value == -1 {
                        down = down + 1;
                    }
                    i = i + 1;
                }
                assert(keys.take(i as int) =~= keys);
            },
        }
        Tally { up, down, score: (up as i64).wrapping_sub(down as i64) }
    }
}

} // verus!
