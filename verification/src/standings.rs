//! Standings: the cloud of labels, the roster of agents and the leaderboard.

use crate::codex::up_to;
use crate::credits::{lemma_unmentioned, mentions};
use crate::directory::{Directory, DirectoryModel};
use crate::economy::FAUCET;
use crate::order::{arrange, by_rank, newest_first, places, rank, ranking, RankKey};
use crate::ordmap::{sorted_keys, values_of, OrdMap};
use crate::records::{AgentProfile, Scroll, Str};
use crate::seqs::{
    concat_map, first_match, lemma_concat_map_step, lemma_filter_step, lemma_first_match, lemma_take_contains,
};
use crate::signers::KeySet;
use crate::text::texts;
use vstd::prelude::*;

verus! {

// ---- the cloud of labels ----

/// A label and how many scrolls bear it.
pub struct LabelCount {
    pub label: String,
    pub count: u64,
}

/// How often `k` stands in the list.
pub open spec fn occurrences(labels: Seq<Str>, k: Str) -> nat {
    labels.filter(is_label(k)).len()
}

pub open spec fn is_label(k: Str) -> spec_fn(Str) -> bool {
    |l: Str| l == k
}

/// The labels, each once, the most used first, those used alike in the order of their
/// text.
pub open spec fn cloud(labels: Seq<Str>) -> Seq<Str> {
    let keys = sorted_keys(labels.to_set());
    by_rank(
        keys,
        keys.map_values(|k: Str| RankKey { first: occurrences(labels, k) as i128, second: 0, third: 0 }),
    )
}

/// All sigils, one scroll after the other.
pub open spec fn all_sigils(scrolls: Seq<Scroll>) -> Seq<Str> {
    concat_map(scrolls, |s: Scroll| texts(s.sigils@))
}

/// All tomes, one scroll after the other.
pub open spec fn all_tomes(scrolls: Seq<Scroll>) -> Seq<Str> {
    concat_map(scrolls, |s: Scroll| tome_of(s))
}

pub open spec fn tome_of(s: Scroll) -> Seq<Str> {
    match s.tome {
        Some(t) => seq![t@],
        None => Seq::empty(),
    }
}

/// The texts of a list of strings.
pub open spec fn ref_texts(v: Seq<&String>) -> Seq<Str> {
    v.map_values(|s: &String| s@)
}

fn count_labels(labels: &Vec<&String>) -> (r: OrdMap<u64>)
    ensures
        forall|k: Str| #[trigger] r@.contains_key(k) <==> ref_texts(labels@).contains(k),
        forall|k: Str| #[trigger] r@.contains_key(k) ==> r@[k] == occurrences(ref_texts(labels@), k),
{
    let mut m: OrdMap<u64> = OrdMap::new();
    let ghost all = ref_texts(labels@);
    let mut i: usize = 0;
    while i < labels.len()
        invariant
            0 <= i <= labels.len(),
            all == ref_texts(labels@),
            forall|k: Str| #[trigger] m@.contains_key(k) <==> all.take(i as int).contains(k),
            forall|k: Str| #[trigger] m@.contains_key(k) ==> m@[k] == occurrences(all.take(i as int), k) && m@[k] <= i,
        decreases labels.len() - i,
    {
        let ghost mid = m@;
        let k = labels[i];
        assert(k@ == all[i as int]);
        let n: u64 = match m.get(k.as_str()) {
            Some(n) => *n,
            None => 0,
        };
        m.insert(k.clone(), n + 1);
        proof {
            lemma_take_contains(all, i as int);
            assert forall|x: Str| #[trigger] m@.contains_key(x) implies m@[x] == occurrences(all.take(i + 1), x) && m@[x] <= i + 1 by {
                lemma_filter_step(all, is_label(x), i as int);
                if x == k@ {
                    if !mid.contains_key(x) {
                        lemma_absent(all.take(i as int), x);
                    }
                } else {
                    assert(mid.contains_key(x));
                }
            }
        }
        i = i + 1;
    }
    assert(all.take(i as int) =~= all);
    m
}

proof fn lemma_absent(labels: Seq<Str>, k: Str)
    requires
        !labels.contains(k),
    ensures
        occurrences(labels, k) == 0,
{
    let p = is_label(k);
    crate::seqs::lemma_filter_holds(labels, p);
    if labels.filter(p).len() > 0 {
        assert(p(labels.filter(p)[0]));
        assert(labels.contains(labels.filter(p)[0]));
    }
}

/// The labels, each once with how often it stands in the list, the most used first.
fn cloud_of(labels: &Vec<&String>) -> (r: Vec<LabelCount>)
    ensures
        r.len() == cloud(ref_texts(labels@)).len(),
        forall|i: int|
            0 <= i < r.len() ==> {
                &&& (#[trigger] r@[i]).label@ == cloud(ref_texts(labels@))[i]
                &&& r@[i].count == occurrences(ref_texts(labels@), r@[i].label@)
            },
{
    let m = count_labels(labels);
    let ghost all = ref_texts(labels@);
    assert(m@.dom() =~= all.to_set()) by {
        assert forall|k: Str| m@.dom().contains(k) <==> all.to_set().contains(k) by {
            assert(m@.contains_key(k) <==> all.contains(k));
        }
    }
    let n = m.len();
    let ghost names = sorted_keys(all.to_set());
    let ghost key = |k: Str| RankKey { first: occurrences(all, k) as i128, second: 0, third: 0 };
    let mut keys: Vec<RankKey> = Vec::new();
    let mut i: usize = 0;
    assert(keys@ =~= names.take(0).map_values(key));
    while i < n
        invariant
            0 <= i <= n,
            n == names.len(),
            names == m.keys(),
            key == (|k: Str| RankKey { first: occurrences(all, k) as i128, second: 0, third: 0 }),
            forall|k: Str| #[trigger] m@.contains_key(k) ==> m@[k] == occurrences(all, k),
            keys@ == names.take(i as int).map_values(key),
        decreases n - i,
    {
        let c = *m.value_at(i);
        keys.push(RankKey { first: c as i128, second: 0, third: 0 });
        assert(keys@ =~= names.take(i + 1).map_values(key));
        i = i + 1;
    }
    assert(names.take(i as int) =~= names);
    let order = rank(&keys);
    let mut out: Vec<LabelCount> = Vec::new();
    let mut i: usize = 0;
    while i < order.len()
        invariant
            0 <= i <= order.len(),
            order.len() == keys.len(),
            keys.len() == names.len(),
            keys@ == names.map_values(key),
            names == m.keys(),
            names == sorted_keys(all.to_set()),
            all == ref_texts(labels@),
            key == (|k: Str| RankKey { first: occurrences(all, k) as i128, second: 0, third: 0 }),
            places(order@) == ranking(keys@),
            forall|j: int| 0 <= j < order.len() ==> (#[trigger] order@[j]) < keys.len(),
            forall|k: Str| #[trigger] m@.contains_key(k) ==> m@[k] == occurrences(all, k),
            out.len() == i,
            forall|j: int|
                0 <= j < i ==> {
                    &&& (#[trigger] out@[j]).label@ == cloud(all)[j]
                    &&& out@[j].count == occurrences(all, out@[j].label@)
                },
        decreases order.len() - i,
    {
        let at = order[i];
        assert(places(order@)[i as int] == at);
        out.push(LabelCount { label: m.key_at(at).clone(), count: *m.value_at(at) });
        assert(cloud(all)[i as int] == names[at as int]);
        i = i + 1;
    }
    assert(places(order@).len() == order@.len());
    out
}

/// The sigils and the tomes in use.
pub struct Cloud {
    pub sigils: Vec<LabelCount>,
    pub tomes: Vec<LabelCount>,
}

impl DirectoryModel {
    /// Every agent that sent a heartbeat, the one seen last first.
    pub open spec fn roster(self) -> Seq<AgentProfile> {
        by_rank(
            values_of(self.catalog.profiles),
            values_of(self.catalog.profiles).map_values(|p: AgentProfile| newest_first(p.created_ts)),
        )
    }
}

impl Directory {
    /// The sigils and the tomes that scrolls bear, each with how often, the most used
    /// first.
    pub fn sigils(&self) -> (r: Cloud)
        ensures
            r.sigils.len() == cloud(all_sigils(self@.catalog.scrolls)).len(),
            forall|i: int|
                0 <= i < r.sigils.len() ==> {
                    &&& (#[trigger] r.sigils@[i]).label@ == cloud(all_sigils(self@.catalog.scrolls))[i]
                    &&& r.sigils@[i].count == occurrences(all_sigils(self@.catalog.scrolls), r.sigils@[i].label@)
                },
            r.tomes.len() == cloud(all_tomes(self@.catalog.scrolls)).len(),
            forall|i: int|
                0 <= i < r.tomes.len() ==> {
                    &&& (#[trigger] r.tomes@[i]).label@ == cloud(all_tomes(self@.catalog.scrolls))[i]
                    &&& r.tomes@[i].count == occurrences(all_tomes(self@.catalog.scrolls), r.tomes@[i].label@)
                },
    {
        let ghost scrolls = self@.catalog.scrolls;
        let ghost f = |s: Scroll| texts(s.sigils@);
        let ghost g = |s: Scroll| tome_of(s);
        let mut sigils: Vec<&String> = Vec::new();
        let mut tomes: Vec<&String> = Vec::new();
        let mut i: usize = 0;
        assert(ref_texts(sigils@) =~= concat_map(scrolls.take(0), f));
        assert(ref_texts(tomes@) =~= concat_map(scrolls.take(0), g));
        while i < self.catalog.scrolls.len()
            invariant
                0 <= i <= self.catalog.scrolls.len(),
                scrolls == self.catalog.scrolls@,
                f == (|s: Scroll| texts(s.sigils@)),
                g == (|s: Scroll| tome_of(s)),
                ref_texts(sigils@) == concat_map(scrolls.take(i as int), f),
                ref_texts(tomes@) == concat_map(scrolls.take(i as int), g),
            decreases self.catalog.scrolls.len() - i,
        {
            let s = &self.catalog.scrolls[i];
            let ghost before = ref_texts(sigils@);
            let ghost ls = texts(s.sigils@);
            proof {
                lemma_concat_map_step(scrolls, f, i as int);
                lemma_concat_map_step(scrolls, g, i as int);
            }
            let mut j: usize = 0;
            assert(before + ls.take(0) =~= before);
            while j < s.sigils.len()
                invariant
                    0 <= j <= s.sigils.len(),
                    ls == texts(s.sigils@),
                    ref_texts(sigils@) == before + ls.take(j as int),
                decreases s.sigils.len() - j,
            {
                let ghost prev = sigils@;
                sigils.push(&s.sigils[j]);
                assert(ref_texts(sigils@) =~= ref_texts(prev).push(ls[j as int]));
                assert((before + ls.take(j as int)).push(ls[j as int]) =~= before + ls.take(j + 1));
                j = j + 1;
            }
            assert(ls.take(j as int) =~= ls);
            let ghost prev = tomes@;
            if let Some(t) = &s.tome {
                tomes.push(t);
            }
            assert(ref_texts(tomes@) =~= ref_texts(prev) + tome_of(*s));
            i = i + 1;
        }
        assert(scrolls.take(i as int) =~= scrolls);
        Cloud { sigils: cloud_of(&sigils), tomes: cloud_of(&tomes) }
    }

    /// Every agent that sent a heartbeat, the one seen last first.
    pub fn agents<'a>(&'a self) -> (r: Vec<&'a AgentProfile>)
        ensures
            r@.unref() == by_rank(
                values_of(self@.catalog.profiles),
                values_of(self@.catalog.profiles).map_values(|p: AgentProfile| newest_first(p.created_ts)),
            ),
            r@.unref() == self@.roster(),
    {
        let all = self.catalog.profiles.values();
        let ghost m = all@.unref();
        let ghost key = |p: AgentProfile| newest_first(p.created_ts);
        let mut keys: Vec<RankKey> = Vec::new();
        let mut i: usize = 0;
        assert(keys@ =~= m.take(0).map_values(key));
        while i < all.len()
            invariant
                0 <= i <= all.len(),
                m == all@.unref(),
                key == (|p: AgentProfile| newest_first(p.created_ts)),
                keys@ == m.take(i as int).map_values(key),
            decreases all.len() - i,
        {
            keys.push(RankKey { first: all[i].created_ts as i128, second: 0, third: 0 });
            assert(keys@ =~= m.take(i + 1).map_values(key));
            i = i + 1;
        }
        assert(m.take(i as int) =~= m);
        assert(all@.unref().len() == all@.len());
        arrange(&all, &keys)
    }
}

// ---- the leaderboard ----

/// How many rows the leaderboard shows.
pub const LEADERS: usize = 100;

/// A row of the leaderboard: an account, or a key without one, by the agent that stands
/// for it.
pub struct Leader {
    pub agent: String,
    /// What the account is scored, 0 where it has no score.
    pub score: i64,
    /// The key that the score was read under.
    pub scored_under: Option<String>,
    pub credits: i128,
}

pub open spec fn of_unit(d: DirectoryModel, unit: Str) -> spec_fn(Str) -> bool {
    |pk: Str| d.unit(pk) == unit
}

pub open spec fn named_of_unit(d: DirectoryModel, unit: Str) -> spec_fn(Str) -> bool {
    |pk: Str| d.unit(pk) == unit && d.catalog.name_of.contains_key(pk)
}

impl DirectoryModel {
    /// The keys that have a reputation or credits.
    pub open spec fn contenders(self, reputations: Map<Str, i64>) -> Set<Str> {
        Set::new(|pk: Str| reputations.contains_key(pk) || self.trades(pk))
    }

    /// The key that stands for a unit: the first with a claimed name, else the first.
    pub open spec fn face(self, keys: Seq<Str>, unit: Str) -> Str {
        match first_match(keys, named_of_unit(self, unit)) {
            Some(i) => keys[i],
            None => match first_match(keys, of_unit(self, unit)) {
                Some(i) => keys[i],
                None => Seq::empty(),
            },
        }
    }

    /// The first key of a unit that has a score.
    pub open spec fn scorer(self, reputations: Map<Str, i64>, unit: Str) -> Option<Str> {
        let keys = sorted_keys(reputations.dom());
        match first_match(keys, of_unit(self, unit)) {
            Some(i) => Some(keys[i]),
            None => None,
        }
    }

    /// The score of a unit, 0 where none of its keys has one.
    pub open spec fn unit_score(self, reputations: Map<Str, i64>, unit: Str) -> i64 {
        match self.scorer(reputations, unit) {
            Some(k) => reputations[k],
            None => 0,
        }
    }

    /// The units of some keys.
    pub open spec fn units_of(self, keys: Seq<Str>) -> Set<Str> {
        keys.map_values(|pk: Str| self.unit(pk)).to_set()
    }

    /// The units that the leaderboard ranks.
    pub open spec fn ranked(self, reputations: Map<Str, i64>) -> Seq<Str> {
        sorted_keys(self.units_of(sorted_keys(self.contenders(reputations))))
    }

    /// The leaderboard: the units by score, then by what they have.
    pub open spec fn leaders(self, reputations: Map<Str, i64>, now: i64) -> Seq<Str> {
        let units = self.ranked(reputations);
        up_to(
            by_rank(
                units,
                units.map_values(
                    |u: Str|
                        RankKey {
                            first: self.unit_score(reputations, u) as i128,
                            second: self.balance(u, now),
                            third: 0,
                        },
                ),
            ),
            LEADERS,
        )
    }

    /// `l` shows the unit.
    pub open spec fn shows_leader(self, l: Leader, reputations: Map<Str, i64>, unit: Str, now: i64) -> bool {
        &&& l.agent@ == self.face(sorted_keys(self.contenders(reputations)), unit)
        &&& self.unit(l.agent@) == unit
        &&& l.score == self.unit_score(reputations, unit)
        &&& match (l.scored_under, self.scorer(reputations, unit)) {
            (Some(k), Some(x)) => k@ == x,
            (None, None) => true,
            _ => false,
        }
        &&& l.credits == self.balance(unit, now)
    }
}

/// The key that stands for a unit is one of the unit's own, with a claimed name where one
/// of them has one.
pub proof fn lemma_face(d: DirectoryModel, keys: Seq<Str>, unit: Str)
    requires
        first_match(keys, of_unit(d, unit)) is Some,
    ensures
        keys.contains(d.face(keys, unit)),
        d.unit(d.face(keys, unit)) == unit,
        d.catalog.name_of.contains_key(d.face(keys, unit)) || forall|i: int|
            0 <= i < keys.len() && d.unit(#[trigger] keys[i]) == unit ==> !d.catalog.name_of.contains_key(keys[i]),
{
    let p = named_of_unit(d, unit);
    let q = of_unit(d, unit);
    lemma_first_match(keys, p);
    lemma_first_match(keys, q);
    if first_match(keys, p) is None {
        assert forall|i: int| 0 <= i < keys.len() && d.unit(#[trigger] keys[i]) == unit implies !d.catalog.name_of.contains_key(
            keys[i],
        ) by {
            assert(!p(keys[i]));
        }
    }
}

/// `m` holds the key that stands for each unit, and whether it has a claimed name.
spec fn holds_faces(d: DirectoryModel, m: Map<Str, (String, bool)>, keys: Seq<Str>) -> bool {
    &&& forall|u: Str| #[trigger] m.contains_key(u) <==> first_match(keys, of_unit(d, u)) is Some
    &&& forall|u: Str|
        #[trigger] m.contains_key(u) ==> m[u].0@ == d.face(keys, u) && m[u].1 == (first_match(
            keys,
            named_of_unit(d, u),
        ) is Some)
}

proof fn lemma_first_match_push<T>(s: Seq<T>, x: T, p: spec_fn(T) -> bool)
    ensures
        first_match(s.push(x), p) == match first_match(s, p) {
            Some(i) => Some(i),
            None => if p(x) {
                Some(s.len() as int)
            } else {
                None
            },
        },
{
    assert(s.push(x).drop_last() =~= s);
}

proof fn lemma_units_of(d: DirectoryModel, keys: Seq<Str>, u: Str)
    ensures
        d.units_of(keys).contains(u) <==> first_match(keys, of_unit(d, u)) is Some,
{
    let p = of_unit(d, u);
    let units = keys.map_values(|pk: Str| d.unit(pk));
    lemma_first_match(keys, p);
    match first_match(keys, p) {
        Some(i) => {
            assert(units[i] == u);
        },
        None => {
            if units.contains(u) {
                let k = choose|k: int| 0 <= k < units.len() && units[k] == u;
                assert(!p(keys[k]));
            }
        },
    }
}

impl Directory {
    fn contender_keys(&self, reputations: &OrdMap<i64>, credits: &OrdMap<i128>) -> (r: KeySet)
        requires
            forall|pk: Str| #[trigger] credits@.contains_key(pk) <==> self@.trades(pk),
        ensures
            r@.dom() == self@.contenders(reputations@),
    {
        let mut out: KeySet = OrdMap::new();
        let ghost rkeys = reputations.keys();
        let n = reputations.len();
        let mut i: usize = 0;
        while i < n
            invariant
                0 <= i <= n,
                n == rkeys.len(),
                rkeys == reputations.keys(),
                forall|pk: Str| #[trigger] out@.contains_key(pk) <==> rkeys.take(i as int).contains(pk),
            decreases n - i,
        {
            out.insert(reputations.key_at(i).clone(), ());
            proof {
                lemma_take_contains(rkeys, i as int);
            }
            i = i + 1;
        }
        assert(rkeys.take(i as int) =~= rkeys);
        let ghost ckeys = credits.keys();
        let n = credits.len();
        let mut i: usize = 0;
        while i < n
            invariant
                0 <= i <= n,
                n == ckeys.len(),
                ckeys == credits.keys(),
                forall|pk: Str| #[trigger] out@.contains_key(pk) <==> rkeys.contains(pk) || ckeys.take(i as int).contains(pk),
            decreases n - i,
        {
            out.insert(credits.key_at(i).clone(), ());
            proof {
                lemma_take_contains(ckeys, i as int);
            }
            i = i + 1;
        }
        assert(ckeys.take(i as int) =~= ckeys);
        assert(out@.dom() =~= self@.contenders(reputations@)) by {
            assert forall|pk: Str| out@.dom().contains(pk) <==> self@.contenders(reputations@).contains(pk) by {
                assert(out@.contains_key(pk) <==> rkeys.contains(pk) || ckeys.contains(pk));
                assert(reputations@.dom().contains(pk) <==> rkeys.contains(pk));
                assert(credits@.dom().contains(pk) <==> ckeys.contains(pk));
                assert(credits@.contains_key(pk) <==> self@.trades(pk));
            }
        }
        out
    }

    fn face_map(&self, keys: &KeySet) -> (r: OrdMap<(String, bool)>)
        ensures
            holds_faces(self@, r@, sorted_keys(keys@.dom())),
    {
        let mut m: OrdMap<(String, bool)> = OrdMap::new();
        let ghost all = sorted_keys(keys@.dom());
        let n = keys.len();
        let mut i: usize = 0;
        while i < n
            invariant
                0 <= i <= n,
                n == all.len(),
                all == keys.keys(),
                holds_faces(self@, m@, all.take(i as int)),
            decreases n - i,
        {
            let ghost mid = m@;
            let ghost seen = all.take(i as int);
            let pk = keys.key_at(i);
            let unit = self.acct(pk.as_str());
            let ghost u0 = unit@;
            let claimed = self.catalog.name_of.contains_key(pk.as_str());
            assert(claimed == self@.catalog.name_of.contains_key(pk@));
            let keep = match m.get(unit.as_str()) {
                Some(e) => !claimed || e.1,
                None => false,
            };
            proof {
                assert(all.take(i + 1) =~= seen.push(pk@));
                lemma_first_match(seen, of_unit(self@, u0));
                lemma_first_match(seen, named_of_unit(self@, u0));
                assert forall|u: Str| true implies #[trigger] first_match(seen.push(pk@), of_unit(self@, u)) == match first_match(
                    seen,
                    of_unit(self@, u),
                ) {
                    Some(i) => Some(i),
                    None => if u == u0 {
                        Some(seen.len() as int)
                    } else {
                        None
                    },
                } by {
                    lemma_first_match_push(seen, pk@, of_unit(self@, u));
                }
                assert forall|u: Str| true implies #[trigger] first_match(seen.push(pk@), named_of_unit(self@, u)) == match first_match(
                    seen,
                    named_of_unit(self@, u),
                ) {
                    Some(i) => Some(i),
                    None => if u == u0 && claimed {
                        Some(seen.len() as int)
                    } else {
                        None
                    },
                } by {
                    lemma_first_match_push(seen, pk@, named_of_unit(self@, u));
                }
            }
            if !keep {
                m.insert(unit, (pk.clone(), claimed));
            }
            proof {
                let next = all.take(i + 1);
                assert forall|u: Str| #[trigger] m@.contains_key(u) <==> first_match(next, of_unit(self@, u)) is Some by {
                    if u != u0 {
                        assert(m@.contains_key(u) == mid.contains_key(u));
                    }
                }
                assert forall|u: Str| #[trigger] m@.contains_key(u) implies m@[u].0@ == self@.face(next, u) && m@[u].1 == (
                first_match(next, named_of_unit(self@, u)) is Some) by {
                    lemma_first_match(seen, of_unit(self@, u));
                    lemma_first_match(seen, named_of_unit(self@, u));
                    if u != u0 {
                        assert(mid.contains_key(u));
                        assert(m@[u] == mid[u]);
                        match first_match(seen, named_of_unit(self@, u)) {
                            Some(k) => {
                                assert(next[k] == seen[k]);
                            },
                            None => {
                                let k = first_match(seen, of_unit(self@, u))->Some_0;
                                assert(next[k] == seen[k]);
                            },
                        }
                    } else {
                        match first_match(seen, named_of_unit(self@, u)) {
                            Some(k) => {
                                assert(next[k] == seen[k]);
                                assert(of_unit(self@, u)(seen[k]));
                                assert(first_match(seen, of_unit(self@, u)) is Some);
                                assert(mid.contains_key(u));
                            },
                            None => {
                                match first_match(seen, of_unit(self@, u)) {
                                    Some(k) => {
                                        assert(next[k] == seen[k]);
                                        assert(mid.contains_key(u));
                                    },
                                    None => {
                                        assert(!mid.contains_key(u));
                                    },
                                }
                            },
                        }
                    }
                }
            }
            i = i + 1;
        }
        assert(all.take(i as int) =~= all);
        m
    }

    /// Where the first key of each unit that has a score stands among the scores.
    fn scorers(&self, reputations: &OrdMap<i64>) -> (r: OrdMap<usize>)
        ensures
            forall|u: Str|
                {
                    &&& #[trigger] r@.contains_key(u) <==> first_match(reputations.keys(), of_unit(self@, u)) is Some
                    &&& r@.contains_key(u) ==> first_match(reputations.keys(), of_unit(self@, u)) == Some(r@[u] as int)
                },
    {
        let mut m: OrdMap<usize> = OrdMap::new();
        let ghost keys = reputations.keys();
        let n = reputations.len();
        let mut i: usize = 0;
        while i < n
            invariant
                0 <= i <= n,
                n == keys.len(),
                keys == reputations.keys(),
                forall|u: Str|
                    {
                        &&& #[trigger] m@.contains_key(u) <==> first_match(keys.take(i as int), of_unit(self@, u)) is Some
                        &&& m@.contains_key(u) ==> first_match(keys.take(i as int), of_unit(self@, u)) == Some(m@[u] as int)
                    },
            decreases n - i,
        {
            let ghost mid = m@;
            let ghost seen = keys.take(i as int);
            let pk = reputations.key_at(i);
            let unit = self.acct(pk.as_str());
            let ghost u0 = unit@;
            if !m.contains_key(unit.as_str()) {
                m.insert(unit, i);
            }
            assert(keys.take(i + 1) =~= seen.push(pk@));
            assert forall|u: Str|
                {
                    &&& #[trigger] m@.contains_key(u) <==> first_match(keys.take(i + 1), of_unit(self@, u)) is Some
                    &&& m@.contains_key(u) ==> first_match(keys.take(i + 1), of_unit(self@, u)) == Some(m@[u] as int)
                } by {
                lemma_first_match_push(seen, pk@, of_unit(self@, u));
                if u != u0 {
                    assert(m@.contains_key(u) == mid.contains_key(u));
                } else {
                    assert(mid.contains_key(u0) <==> first_match(seen, of_unit(self@, u0)) is Some);
                }
            }
            i = i + 1;
        }
        assert(keys.take(i as int) =~= keys);
        m
    }

    /// The leaderboard: one row for each account, or key without one, shown by an agent
    /// with a claimed name where there is one; by the account's score, then by what it
    /// has. Scores are given by key, as numbers in their order, 0 for a score of nothing;
    /// an account has the score of the first of its keys that has one.
    pub fn leaderboard(&self, reputations: &OrdMap<i64>, now: i64) -> (r: Vec<Leader>)
        ensures
            r.len() == self@.leaders(reputations@, now).len(),
            forall|i: int|
                0 <= i < r.len() ==> self@.shows_leader(
                    #[trigger] r@[i],
                    reputations@,
                    self@.leaders(reputations@, now)[i],
                    now,
                ),
            forall|i: int| 0 <= i < r.len() ==> (#[trigger] r@[i]).credits == self@.balance(self@.unit(r@[i].agent@), now),
    {
        let balances = self.credits(now);
        let contenders = self.contender_keys(reputations, &self.credits_by_pubkey(now));
        let faces = self.face_map(&contenders);
        let scorers = self.scorers(reputations);
        let ghost all = sorted_keys(self@.contenders(reputations@));
        let ghost units = self@.ranked(reputations@);
        assert(faces@.dom() =~= self@.units_of(all)) by {
            assert forall|u: Str| faces@.dom().contains(u) <==> self@.units_of(all).contains(u) by {
                lemma_units_of(self@, all, u);
                assert(faces@.contains_key(u) <==> first_match(all, of_unit(self@, u)) is Some);
            }
        }
        let ghost key = |u: Str|
            RankKey { first: self@.unit_score(reputations@, u) as i128, second: self@.balance(u, now), third: 0 };
        let n = faces.len();
        let mut rows: Vec<Leader> = Vec::new();
        let mut keys: Vec<RankKey> = Vec::new();
        let mut i: usize = 0;
        assert(keys@ =~= units.take(0).map_values(key));
        while i < n
            invariant
                0 <= i <= n,
                n == units.len(),
                units == faces.keys(),
                all == sorted_keys(self@.contenders(reputations@)),
                holds_faces(self@, faces@, all),
                forall|u: Str| #[trigger] balances@.contains_key(u) <==> mentions(self@.moves(now), u),
                forall|u: Str| #[trigger] balances@.contains_key(u) ==> balances@[u] == self@.balance(u, now),
                forall|u: Str|
                    {
                        &&& #[trigger] scorers@.contains_key(u) <==> first_match(reputations.keys(), of_unit(self@, u)) is Some
                        &&& scorers@.contains_key(u) ==> first_match(reputations.keys(), of_unit(self@, u)) == Some(
                            scorers@[u] as int,
                        )
                    },
                key == (|u: Str|
                    RankKey { first: self@.unit_score(reputations@, u) as i128, second: self@.balance(u, now), third: 0 }),
                keys@ == units.take(i as int).map_values(key),
                rows.len() == i,
                forall|j: int| 0 <= j < i ==> self@.shows_leader(#[trigger] rows@[j], reputations@, units[j], now),
            decreases n - i,
        {
            let unit = faces.key_at(i);
            let agent = faces.value_at(i).0.clone();
            assert(unit@ == units[i as int]);
            assert(faces@.contains_key(unit@));
            let credits: i128 = match balances.get(unit.as_str()) {
                Some(b) => *b,
                None => {
                    proof {
                        lemma_unmentioned(self@.moves(now), unit@);
                    }
                    FAUCET
                },
            };
            proof {
                lemma_first_match(reputations.keys(), of_unit(self@, unit@));
                lemma_face(self@, all, unit@);
            }
            let (score, scored_under): (i64, Option<String>) = match scorers.get(unit.as_str()) {
                Some(k) => (*reputations.value_at(*k), Some(reputations.key_at(*k).clone())),
                None => (0, None),
            };
            keys.push(RankKey { first: score as i128, second: credits, third: 0 });
            rows.push(Leader { agent, score, scored_under, credits });
            assert(keys@ =~= units.take(i + 1).map_values(key));
            i = i + 1;
        }
        assert(units.take(i as int) =~= units);
        let order = rank(&keys);
        let ghost ordered = by_rank(units, keys@);
        assert(places(order@).len() == order@.len());
        let mut out: Vec<Leader> = Vec::new();
        let mut i: usize = 0;
        while i < order.len() && i < LEADERS
            invariant
                0 <= i <= order.len(),
                i <= LEADERS,
                order.len() == keys.len(),
                keys.len() == units.len(),
                rows.len() == units.len(),
                places(order@) == ranking(keys@),
                ordered == by_rank(units, keys@),
                forall|j: int| 0 <= j < order.len() ==> (#[trigger] order@[j]) < keys.len(),
                forall|j: int| 0 <= j < rows.len() ==> self@.shows_leader(#[trigger] rows@[j], reputations@, units[j], now),
                out.len() == i,
                forall|j: int| 0 <= j < i ==> self@.shows_leader(#[trigger] out@[j], reputations@, ordered[j], now),
            decreases order.len() - i,
        {
            let at = order[i];
            assert(places(order@)[i as int] == at);
            let row = &rows[at];
            let scored_under: Option<String> = match &row.scored_under {
                Some(k) => Some(k.clone()),
                None => None,
            };
            let copy = Leader { agent: row.agent.clone(), score: row.score, scored_under, credits: row.credits };
            assert(self@.shows_leader(rows@[at as int], reputations@, units[at as int], now));
            assert(ordered[i as int] == units[at as int]);
            out.push(copy);
            i = i + 1;
        }
        assert(up_to(ordered, LEADERS) =~= ordered.take(i as int));
        out
    }
}

} // verus!
