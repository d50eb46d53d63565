//! Laws of the leaderboard, of the cloud of labels and of the roster.

use crate::directory::DirectoryModel;
use crate::laws::lists::{
    lemma_by_rank_distinct, lemma_by_rank_order, lemma_concat_contains, lemma_filter_count, lemma_keys_distinct, lemma_values,
    places_of,
};
use crate::order::{by_rank, lemma_by_rank_keeps, newest_first, RankKey};
use crate::ordmap::{lemma_keys_listed, sorted_keys, values_of};
use crate::records::{AgentProfile, Scroll, Str};
use crate::seqs::{first_match, lemma_first_match};
use crate::standings::{all_sigils, all_tomes, cloud, is_label, occurrences, of_unit, tome_of, Leader};
use crate::text::{lex_lt, texts};
use vstd::prelude::*;

verus! {

// ---- the leaderboard ----

/// The unit belongs on the leaderboard: one of its keys has a reputation, or posted a quest,
/// answered a task or gave a verdict on a result.
pub open spec fn contends(d: DirectoryModel, reputations: Map<Str, i64>, unit: Str) -> bool {
    exists|pk: Str| d.accounts.unit_of(pk) == unit && (#[trigger] reputations.contains_key(pk) || d.trades(pk))
}

proof fn lemma_contender(d: DirectoryModel, reputations: Map<Str, i64>, unit: Str) -> (pk: Str)
    requires
        contends(d, reputations, unit),
    ensures
        d.accounts.unit_of(pk) == unit,
        d.contenders(reputations).contains(pk),
{
    choose|pk: Str| d.accounts.unit_of(pk) == unit && (#[trigger] reputations.contains_key(pk) || d.trades(pk))
}

/// The unit's score is the one of the first of its keys that has one, and 0 where none has.
pub proof fn law_unit_score(d: DirectoryModel, reputations: Map<Str, i64>, unit: Str)
    requires
        reputations.dom().finite(),
    ensures
        (forall|pk: Str| #[trigger] reputations.contains_key(pk) ==> d.accounts.unit_of(pk) != unit) ==> d.unit_score(
            reputations,
            unit,
        ) == 0 && d.scorer(reputations, unit) is None,
        forall|pk: Str| #[trigger]
            reputations.contains_key(pk) && d.accounts.unit_of(pk) == unit && (forall|other: Str| #[trigger]
                reputations.contains_key(other) && d.accounts.unit_of(other) == unit && other != pk ==> lex_lt(pk, other))
                ==> d.unit_score(reputations, unit) == reputations[pk] && d.scorer(reputations, unit) == Some(pk),
{
    let keys = sorted_keys(reputations.dom());
    lemma_keys_listed(reputations.dom());
    lemma_keys_distinct(reputations.dom());
    let p = of_unit(d, unit);
    lemma_first_match(keys, p);
    match first_match(keys, p) {
        Some(i) => {
            assert(keys.contains(keys[i]));
            assert(reputations.contains_key(keys[i]));
            assert(p(keys[i]));
            assert forall|pk: Str| #[trigger]
                reputations.contains_key(pk) && d.accounts.unit_of(pk) == unit && (forall|other: Str| #[trigger]
                    reputations.contains_key(other) && d.accounts.unit_of(other) == unit && other != pk ==> lex_lt(pk, other)) implies d.unit_score(
                reputations,
                unit,
            ) == reputations[pk] && d.scorer(reputations, unit) == Some(pk) by {
                if keys[i] != pk {
                    assert(lex_lt(pk, keys[i]));
                    assert(reputations.dom().contains(pk));
                    let j = choose|j: int| 0 <= j < keys.len() && keys[j] == pk;
                    assert(p(keys[j]));
                    if i < j {
                        assert(lex_lt(keys[i], keys[j]));
                        crate::text::lemma_lex_transitive(keys[i], pk, keys[i]);
                        crate::text::lemma_lex_irreflexive(keys[i]);
                    }
                }
            }
        },
        None => {
            assert forall|pk: Str| #[trigger] reputations.contains_key(pk) implies d.accounts.unit_of(pk) != unit by {
                assert(reputations.dom().contains(pk));
                assert(keys.contains(pk));
                let j = choose|j: int| 0 <= j < keys.len() && keys[j] == pk;
                assert(!p(keys[j]));
            }
        },
    }
}

/// The leaderboard shows units that belong on it, by their score and then by what they have;
/// and while there is room, which is for a hundred, all of them. What it leaves out does not
/// stand above anything that it shows.
pub proof fn law_leaderboard(d: DirectoryModel, reputations: Map<Str, i64>, now: i64)
    requires
        d.contenders(reputations).finite(),
    ensures
        d.leaders(reputations, now).len() <= 100,
        d.leaders(reputations, now).no_duplicates(),
        forall|i: int| 0 <= i < d.leaders(reputations, now).len() ==> contends(d, reputations, #[trigger] d.leaders(reputations, now)[i]),
        forall|i: int, j: int|
            0 <= i < j < d.leaders(reputations, now).len() ==> stands_above(
                d,
                reputations,
                #[trigger] d.leaders(reputations, now)[i],
                #[trigger] d.leaders(reputations, now)[j],
                now,
            ),
        forall|u: Str| #[trigger]
            contends(d, reputations, u) ==> d.leaders(reputations, now).contains(u) || (d.leaders(reputations, now).len() == 100
                && forall|i: int| 0 <= i < 100 ==> stands_above(d, reputations, #[trigger] d.leaders(reputations, now)[i], u, now)),
{
    let keys = sorted_keys(d.contenders(reputations));
    lemma_keys_distinct(d.contenders(reputations));
    let named = keys.map_values(|pk: Str| d.unit(pk));
    vstd::seq_lib::seq_to_set_is_finite(named);
    let dom = d.units_of(keys);
    lemma_keys_distinct(dom);
    let units = d.ranked(reputations);
    let key = |u: Str| RankKey { first: d.unit_score(reputations, u) as i128, second: d.balance(u, now), third: 0 };
    let rk = units.map_values(key);
    let all = by_rank(units, rk);
    let out = d.leaders(reputations, now);
    assert(out == crate::codex::up_to(all, crate::standings::LEADERS));
    lemma_by_rank_keeps(units, rk);
    lemma_by_rank_distinct(units, rk);
    lemma_by_rank_order(units, key);
    assert forall|u: Str| units.contains(u) <==> contends(d, reputations, u) by {
        assert(units.contains(u) <==> dom.contains(u));
        if dom.contains(u) {
            let i = choose|i: int| 0 <= i < named.len() && named[i] == u;
            assert(keys.contains(keys[i]));
            assert(d.contenders(reputations).contains(keys[i]));
            assert(d.accounts.unit_of(keys[i]) == u && (reputations.contains_key(keys[i]) || d.trades(keys[i])));
        }
        if contends(d, reputations, u) {
            let pk = lemma_contender(d, reputations, u);
            assert(keys.contains(pk));
            let i = choose|i: int| 0 <= i < keys.len() && keys[i] == pk;
            assert(named[i] == u);
        }
    }
    assert forall|i: int, j: int| 0 <= i < j < all.len() implies stands_above(
        d,
        reputations,
        #[trigger] all[i],
        #[trigger] all[j],
        now,
    ) by {
        assert(!crate::order::outranks(key(by_rank(units, units.map_values(key))[j]), key(by_rank(units, units.map_values(key))[i])));
    }
    assert forall|i: int| 0 <= i < out.len() implies contends(d, reputations, #[trigger] out[i]) by {
        assert(out[i] == all[i]);
        assert(units.contains(by_rank(units, rk)[i]));
    }
    assert forall|u: Str| #[trigger] contends(d, reputations, u) implies out.contains(u) || (out.len() == 100 && forall|i: int|
        0 <= i < 100 ==> stands_above(d, reputations, #[trigger] out[i], u, now)) by {
        assert(units.contains(u));
        let k = choose|k: int| 0 <= k < units.len() && units[k] == u;
        assert(all.contains(units[k]));
        let y = choose|y: int| 0 <= y < all.len() && all[y] == u;
        if y < out.len() {
            assert(out[y] == u);
        } else {
            assert forall|i: int| 0 <= i < 100 implies stands_above(d, reputations, #[trigger] out[i], u, now) by {
                assert(out[i] == all[i]);
            }
        }
    }
}

/// The unit has a higher score than the other, or the same and as many credits.
pub open spec fn stands_above(d: DirectoryModel, reputations: Map<Str, i64>, a: Str, b: Str, now: i64) -> bool {
    let x = d.unit_score(reputations, a);
    let y = d.unit_score(reputations, b);
    x > y || (x == y && d.balance(a, now) >= d.balance(b, now))
}

/// A row shows a key of its unit, with a claimed name where one of those that contend has one,
/// and the unit's score and credits.
pub proof fn law_rows_show_their_unit(d: DirectoryModel, l: Leader, reputations: Map<Str, i64>, unit: Str, now: i64)
    requires
        d.shows_leader(l, reputations, unit, now),
        d.contenders(reputations).finite(),
        contends(d, reputations, unit),
    ensures
        d.accounts.unit_of(l.agent@) == unit,
        reputations.contains_key(l.agent@) || d.trades(l.agent@),
        d.catalog.name_of.contains_key(l.agent@) || forall|pk: Str| #[trigger]
            d.accounts.unit_of(pk) == unit && (reputations.contains_key(pk) || d.trades(pk)) ==> !d.catalog.name_of.contains_key(pk),
        l.score == d.unit_score(reputations, unit),
        l.credits == d.balance(unit, now),
        l.scored_under is Some <==> d.scorer(reputations, unit) is Some,
        l.scored_under matches Some(k) ==> k@ == d.scorer(reputations, unit)->Some_0,
{
    let keys = sorted_keys(d.contenders(reputations));
    lemma_keys_distinct(d.contenders(reputations));
    let pk = lemma_contender(d, reputations, unit);
    assert(keys.contains(pk));
    let i = choose|i: int| 0 <= i < keys.len() && keys[i] == pk;
    let p = of_unit(d, unit);
    lemma_first_match(keys, p);
    assert(p(keys[i]));
    crate::standings::lemma_face(d, keys, unit);
    assert(d.contenders(reputations).contains(l.agent@));
    if !d.catalog.name_of.contains_key(l.agent@) {
        assert forall|pk: Str| #[trigger] d.accounts.unit_of(pk) == unit && (reputations.contains_key(pk) || d.trades(pk)) implies !d.catalog.name_of.contains_key(
            pk,
        ) by {
            assert(d.contenders(reputations).contains(pk));
            assert(keys.contains(pk));
            let j = choose|j: int| 0 <= j < keys.len() && keys[j] == pk;
            assert(d.unit(keys[j]) == unit);
        }
    }
}

// ---- the cloud ----

/// A label is counted as often as it is used.
pub proof fn law_labels_are_counted(labels: Seq<Str>, k: Str)
    ensures
        occurrences(labels, k) == places_of(labels, |l: Str| l == k).len(),
{
    lemma_filter_count(labels, is_label(k));
    assert(places_of(labels, is_label(k)) =~= places_of(labels, |l: Str| l == k));
}

/// The cloud has every label in use once, the most used first, and those used alike in the
/// order of their text.
pub proof fn law_cloud(labels: Seq<Str>)
    requires
        labels.len() <= usize::MAX,
    ensures
        cloud(labels).no_duplicates(),
        forall|k: Str| #[trigger] cloud(labels).contains(k) <==> labels.contains(k),
        forall|i: int, j: int|
            0 <= i < j < cloud(labels).len() ==> {
                let a = #[trigger] cloud(labels)[i];
                let b = #[trigger] cloud(labels)[j];
                occurrences(labels, a) > occurrences(labels, b) || (occurrences(labels, a) == occurrences(labels, b) && lex_lt(
                    a,
                    b,
                ))
            },
{
    let dom = labels.to_set();
    vstd::seq_lib::seq_to_set_is_finite(labels);
    let keys = sorted_keys(dom);
    lemma_keys_distinct(dom);
    lemma_keys_listed(dom);
    let key = |k: Str| RankKey { first: occurrences(labels, k) as i128, second: 0, third: 0 };
    let rk = keys.map_values(key);
    let out = cloud(labels);
    assert(out == by_rank(keys, rk));
    lemma_by_rank_keeps(keys, rk);
    lemma_by_rank_distinct(keys, rk);
    assert forall|k: Str| #[trigger] out.contains(k) <==> labels.contains(k) by {
        if out.contains(k) {
            let i = choose|i: int| 0 <= i < out.len() && out[i] == k;
            assert(keys.contains(by_rank(keys, rk)[i]));
            assert(dom.contains(k));
        }
        if labels.contains(k) {
            assert(dom.contains(k));
            assert(keys.contains(k));
            let i = choose|i: int| 0 <= i < keys.len() && keys[i] == k;
            assert(out.contains(keys[i]));
        }
    }
    crate::order::lemma_ranking_exists(rk);
    let p = crate::order::ranking(rk);
    assert forall|i: int, j: int| 0 <= i < j < out.len() implies {
        let a = #[trigger] out[i];
        let b = #[trigger] out[j];
        occurrences(labels, a) > occurrences(labels, b) || (occurrences(labels, a) == occurrences(labels, b) && lex_lt(a, b))
    } by {
        assert(0 <= p[i] < rk.len() && 0 <= p[j] < rk.len());
        assert(crate::order::comes_before(rk, p[i], p[j]));
        assert(out[i] == keys[p[i]] && out[j] == keys[p[j]]);
        crate::seqs::lemma_filter_holds(labels, is_label(out[i]));
        crate::seqs::lemma_filter_holds(labels, is_label(out[j]));
    }
}

/// The sigils in use are those of the scrolls, and the tomes in use theirs.
pub proof fn law_labels_in_use(scrolls: Seq<Scroll>, k: Str)
    ensures
        all_sigils(scrolls).contains(k) <==> exists|i: int, j: int|
            0 <= i < scrolls.len() && 0 <= j < scrolls[i].sigils@.len() && (#[trigger] scrolls[i].sigils@[j])@ == k,
        all_tomes(scrolls).contains(k) <==> exists|i: int|
            0 <= i < scrolls.len() && (#[trigger] scrolls[i]).tome is Some && scrolls[i].tome->Some_0@ == k,
{
    let f = |s: Scroll| texts(s.sigils@);
    let g = |s: Scroll| tome_of(s);
    lemma_concat_contains(scrolls, f, k);
    lemma_concat_contains(scrolls, g, k);
    if all_sigils(scrolls).contains(k) {
        let i = choose|i: int| 0 <= i < scrolls.len() && f(#[trigger] scrolls[i]).contains(k);
        let ls = f(scrolls[i]);
        let j = choose|j: int| 0 <= j < ls.len() && ls[j] == k;
        assert(scrolls[i].sigils@[j]@ == k);
    }
    if exists|i: int, j: int|
        0 <= i < scrolls.len() && 0 <= j < scrolls[i].sigils@.len() && (#[trigger] scrolls[i].sigils@[j])@ == k {
        let (i, j) = choose|i: int, j: int|
            0 <= i < scrolls.len() && 0 <= j < scrolls[i].sigils@.len() && (#[trigger] scrolls[i].sigils@[j])@ == k;
        assert(f(scrolls[i])[j] == k);
        assert(f(scrolls[i]).contains(k));
    }
    if all_tomes(scrolls).contains(k) {
        let i = choose|i: int| 0 <= i < scrolls.len() && g(#[trigger] scrolls[i]).contains(k);
        let ls = g(scrolls[i]);
        let j = choose|j: int| 0 <= j < ls.len() && ls[j] == k;
        assert(scrolls[i].tome is Some && scrolls[i].tome->Some_0@ == k);
    }
    if exists|i: int| 0 <= i < scrolls.len() && (#[trigger] scrolls[i]).tome is Some && scrolls[i].tome->Some_0@ == k {
        let i = choose|i: int| 0 <= i < scrolls.len() && (#[trigger] scrolls[i]).tome is Some && scrolls[i].tome->Some_0@ == k;
        assert(g(scrolls[i])[0] == k);
        assert(g(scrolls[i]).contains(k));
    }
}

proof fn lemma_count_run(a: Seq<Str>, b: Seq<Str>, k: Str)
    ensures
        occurrences(a + b, k) == occurrences(a, k) + occurrences(b, k),
    decreases b.len(),
{
    reveal(Seq::filter);
    if b.len() == 0 {
        assert(a + b =~= a);
    } else {
        assert((a + b).drop_last() =~= a + b.drop_last());
        lemma_count_run(a, b.drop_last(), k);
    }
}

/// One more scroll adds each of its sigils to the count of that sigil, and its tome to the
/// count of that tome.
pub proof fn law_a_scroll_adds_its_labels(scrolls: Seq<Scroll>, s: Scroll, k: Str)
    ensures
        occurrences(all_sigils(scrolls.push(s)), k) == occurrences(all_sigils(scrolls), k) + places_of(
            s.sigils@,
            |g: String| g@ == k,
        ).len(),
        occurrences(all_tomes(scrolls.push(s)), k) == occurrences(all_tomes(scrolls), k) + (if s.tome is Some && s.tome->Some_0@
            == k {
            1int
        } else {
            0
        }),
{
    let more = scrolls.push(s);
    assert(more.drop_last() =~= scrolls);
    lemma_count_run(all_sigils(scrolls), texts(s.sigils@), k);
    lemma_count_run(all_tomes(scrolls), tome_of(s), k);
    law_labels_are_counted(texts(s.sigils@), k);
    law_labels_are_counted(tome_of(s), k);
    assert(places_of(texts(s.sigils@), |l: Str| l == k) =~= places_of(s.sigils@, |g: String| g@ == k));
    match s.tome {
        Some(t) => {
            let one = places_of(tome_of(s), |l: Str| l == k);
            if t@ == k {
                assert(one =~= Set::empty().insert(0int));
            } else {
                assert(one =~= Set::empty());
            }
        },
        None => {
            assert(places_of(tome_of(s), |l: Str| l == k) =~= Set::empty());
        },
    }
}

// ---- the roster ----

/// The roster has every agent that sent a heartbeat and no other, the one seen last first.
pub proof fn law_roster(d: DirectoryModel)
    requires
        d.catalog.profiles.dom().finite(),
    ensures
        d.roster().len() == sorted_keys(d.catalog.profiles.dom()).len(),
        forall|p: AgentProfile| #[trigger]
            d.roster().contains(p) <==> exists|k: Str| #[trigger] d.catalog.profiles.contains_key(k) && d.catalog.profiles[k] == p,
        forall|i: int, j: int|
            0 <= i < j < d.roster().len() ==> (#[trigger] d.roster()[i]).created_ts >= (#[trigger] d.roster()[j]).created_ts,
{
    let m = d.catalog.profiles;
    let all = values_of(m);
    let key = |p: AgentProfile| newest_first(p.created_ts);
    let keys = all.map_values(key);
    let out = d.roster();
    assert(out == by_rank(all, keys));
    lemma_by_rank_keeps(all, keys);
    lemma_by_rank_order(all, key);
    assert forall|p: AgentProfile| #[trigger] out.contains(p) <==> exists|k: Str| #[trigger] m.contains_key(k) && m[k] == p by {
        lemma_values(m, p);
        if out.contains(p) {
            let i = choose|i: int| 0 <= i < out.len() && out[i] == p;
            assert(all.contains(by_rank(all, keys)[i]));
        }
        if all.contains(p) {
            let i = choose|i: int| 0 <= i < all.len() && all[i] == p;
            assert(out.contains(all[i]));
        }
    }
}

} // verus!
