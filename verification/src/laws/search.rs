//! Laws of search and of the feed: nothing that is asked for is left out before something
//! that comes after it.

use crate::codex::{
    artifact_text, hits, in_feed, score_of, scroll_text, shown, terms_of, up_to, FeedQuery, FEED_DEFAULT, FEED_MAX,
};
use crate::directory::DirectoryModel;
use crate::events::wants;
use crate::laws::boards::law_boosts_add_up;
use crate::laws::catalog::sound_artifacts;
use crate::laws::lists::{
    lemma_by_rank_order, lemma_filter_count, lemma_filter_keeps, lemma_filter_places, lemma_keys_distinct, lemma_values, places_of,
};
use crate::laws::stream::{fits, law_facets};
use crate::laws::tally::{camp, law_a_vote_moves_the_tally, law_tally_counts_units};
use crate::order::{by_rank, lemma_by_rank_keeps, RankKey};
use crate::ordmap::{lemma_keys_listed, list_at, sorted_keys, values_of};
use crate::records::{Artifact, Boost, Scroll, Str, Vote};
use crate::seqs::lemma_filter_holds;
use crate::text::{joined, lex_lt, lowercase, occurs, texts, white_space, word_end, words_from, words_of};
use vstd::prelude::*;

verus! {

// ---- what matches ----

/// A text has as many hits as the search has words that stand in it, letter case aside.
pub proof fn law_hits_count_words(terms: Seq<Str>, hay: Str)
    ensures
        hits(terms, hay) == places_of(terms, |t: Str| occurs(t, lowercase(hay))).len(),
        hits(terms, hay) > 0 <==> exists|i: int| 0 <= i < terms.len() && occurs(#[trigger] terms[i], lowercase(hay)),
        hits(terms, hay) <= terms.len(),
{
    let p = |t: Str| occurs(t, lowercase(hay));
    lemma_filter_count(terms, p);
    lemma_filter_holds(terms, p);
    if terms.filter(p).len() > 0 {
        let t = terms.filter(p)[0];
        assert(p(t) && terms.contains(t));
    }
    if exists|i: int| 0 <= i < terms.len() && occurs(#[trigger] terms[i], lowercase(hay)) {
        let i = choose|i: int| 0 <= i < terms.len() && occurs(#[trigger] terms[i], lowercase(hay));
        assert(p(terms[i]));
        lemma_filter_keeps(terms, p, i);
    }
}

proof fn lemma_occurs_at(needle: Str, hay: Str, i: int)
    requires
        0 <= i <= hay.len() - needle.len(),
        hay.subrange(i, i + needle.len()) =~= needle,
    ensures
        occurs(needle, hay),
{
}

proof fn lemma_joined_has(v: Seq<Str>, sep: Str, i: int) -> (at: int)
    requires
        0 <= i < v.len(),
    ensures
        0 <= at <= joined(v, sep).len() - v[i].len(),
        joined(v, sep).subrange(at, at + v[i].len()) =~= v[i],
    decreases v.len(),
{
    let all = joined(v, sep);
    if v.len() == 1 {
        0
    } else {
        let head = joined(v.drop_last(), sep);
        if i == v.len() - 1 {
            (head.len() + sep.len()) as int
        } else {
            let at = lemma_joined_has(v.drop_last(), sep, i);
            assert(v.drop_last()[i] == v[i]);
            assert(all.subrange(at, at + v[i].len()) =~= head.subrange(at, at + v[i].len()));
            at
        }
    }
}

/// A search looks at a scroll's body, its sigils, its tome and its author.
pub proof fn law_all_of_a_scroll_is_searched(s: Scroll)
    ensures
        occurs(s.body@, scroll_text(s)),
        forall|j: int| 0 <= j < s.sigils@.len() ==> occurs((#[trigger] s.sigils@[j])@, scroll_text(s)),
        s.tome matches Some(t) ==> occurs(t@, scroll_text(s)),
        occurs(s.author@, scroll_text(s)),
        scroll_text(s).len() == s.body@.len() + joined(texts(s.sigils@), " "@).len() + (match s.tome {
            Some(t) => t@.len(),
            None => 0,
        }) + s.author@.len() + 3 * " "@.len(),
{
    let sp = " "@;
    let sig = joined(texts(s.sigils@), sp);
    let tome = match s.tome {
        Some(t) => t@,
        None => Seq::empty(),
    };
    let all = scroll_text(s);
    let a = s.body@.len() as int;
    let b = sp.len() as int;
    lemma_occurs_at(s.body@, all, 0);
    assert forall|j: int| 0 <= j < s.sigils@.len() implies occurs((#[trigger] s.sigils@[j])@, all) by {
        let v = texts(s.sigils@);
        let at = lemma_joined_has(v, sp, j);
        assert(v[j] == s.sigils@[j]@);
        assert(all.subrange(a + b + at, a + b + at + v[j].len()) =~= sig.subrange(at, at + v[j].len()));
        lemma_occurs_at(v[j], all, a + b + at);
    }
    let c = a + b + sig.len() + b;
    lemma_occurs_at(tome, all, c);
    lemma_occurs_at(s.author@, all, c + tome.len() + b);
}

/// A search looks at an artifact's title, its description and its kind.
pub proof fn law_all_of_an_artifact_is_searched(a: Artifact)
    ensures
        occurs(a.title@, artifact_text(a)),
        occurs(a.description@, artifact_text(a)),
        occurs(a.kind@, artifact_text(a)),
        artifact_text(a).len() == a.title@.len() + a.description@.len() + a.kind@.len() + 2 * " "@.len(),
{
    let all = artifact_text(a);
    let b = " "@.len() as int;
    lemma_occurs_at(a.title@, all, 0);
    lemma_occurs_at(a.description@, all, a.title@.len() + b);
    lemma_occurs_at(a.kind@, all, a.title@.len() + b + a.description@.len() + b);
}

// ---- words ----

proof fn lemma_word(s: Str, i: int)
    requires
        0 <= i <= s.len(),
    ensures
        i <= word_end(s, i) <= s.len(),
        forall|j: int| i <= j < word_end(s, i) ==> !white_space(#[trigger] s[j]),
        word_end(s, i) < s.len() ==> white_space(s[word_end(s, i)]),
    decreases s.len() - i,
{
    if i < s.len() && !white_space(s[i]) {
        lemma_word(s, i + 1);
    }
}

/// `w` stands in `s` from `i` on, between white space or the ends.
pub open spec fn is_word_at(s: Str, i: int, w: Str) -> bool {
    &&& 0 <= i
    &&& w.len() > 0
    &&& i + w.len() <= s.len()
    &&& s.subrange(i, i + w.len()) == w
    &&& forall|j: int| i <= j < i + w.len() ==> !white_space(#[trigger] s[j])
    &&& i == 0 || white_space(s[i - 1])
    &&& i + w.len() == s.len() || white_space(s[i + w.len()])
}

/// `at` holds where the words stand, one after the other, none left out.
pub open spec fn word_places(s: Str, from: int, ws: Seq<Str>, at: Seq<int>) -> bool {
    &&& at.len() == ws.len()
    &&& forall|k: int| 0 <= k < at.len() ==> from <= #[trigger] at[k] && is_word_at(s, at[k], ws[k])
    &&& forall|k: int, l: int| 0 <= k < l < at.len() ==> #[trigger] at[k] < #[trigger] at[l]
    &&& forall|i: int, w: Str| from <= i && #[trigger] is_word_at(s, i, w) ==> at.contains(i)
}

proof fn lemma_words(s: Str, from: int) -> (at: Seq<int>)
    requires
        0 <= from <= s.len(),
        from == 0 || from == s.len() || white_space(s[from - 1]) || white_space(s[from]),
    ensures
        word_places(s, from, words_from(s, from), at),
    decreases s.len() - from,
{
    let all = words_from(s, from);
    if from >= s.len() {
        Seq::empty()
    } else if white_space(s[from]) {
        let at = lemma_words(s, from + 1);
        assert forall|i: int, w: Str| from <= i && #[trigger] is_word_at(s, i, w) implies at.contains(i) by {
            if i == from {
                assert(!white_space(s[i]));
            }
        }
        at
    } else {
        lemma_word(s, from);
        let e = word_end(s, from);
        let first = s.subrange(from, e);
        let rest = words_from(s, e);
        let tail = lemma_words(s, e);
        let at = seq![from] + tail;
        assert(all =~= seq![first] + rest);
        assert(is_word_at(s, from, first));
        assert forall|k: int| 0 <= k < at.len() implies from <= #[trigger] at[k] && is_word_at(s, at[k], all[k]) by {
            if k > 0 {
                assert(at[k] == tail[k - 1] && all[k] == rest[k - 1]);
            }
        }
        assert forall|k: int, l: int| 0 <= k < l < at.len() implies #[trigger] at[k] < #[trigger] at[l] by {
            assert(at[l] == tail[l - 1]);
            if k > 0 {
                assert(at[k] == tail[k - 1]);
            }
        }
        assert forall|i: int, w: Str| from <= i && #[trigger] is_word_at(s, i, w) implies at.contains(i) by {
            if i == from {
                assert(at[0] == i);
            } else if i < e {
                assert(!white_space(s[i - 1]));
            } else {
                let k = choose|k: int| 0 <= k < tail.len() && tail[k] == i;
                assert(at[k + 1] == i);
            }
        }
        at
    }
}

/// The words of a search are the longest stretches of it without white space, all of them, in
/// the order in which they stand.
pub proof fn law_words(s: Str) -> (at: Seq<int>)
    ensures
        word_places(s, 0, words_of(s), at),
{
    lemma_words(s, 0)
}

// ---- weight ----

/// What ranks scrolls that match alike: the credits that boosted the scroll, the accounts for
/// it less those against it, and its author's reputation.
pub proof fn law_weight(d: DirectoryModel, s: Scroll, reputations: Map<Str, i64>)
    requires
        list_at(d.catalog.votes, s.id@).len() <= i64::MAX,
    ensures
        d.weight(s, reputations) == d.boost_of(s.id@) + camp(d, s.id@, 1).len() - camp(d, s.id@, -1).len() + (
        if reputations.contains_key(s.author@) {
            reputations[s.author@] as int
        } else {
            0
        }),
{
    law_tally_counts_units(d, s.id@);
}

/// An account's first vote on a scroll moves that scroll's weight by one, up for a vote for it
/// and down for one against it, and no other scroll's.
pub proof fn law_votes_move_the_weight(d: DirectoryModel, v: Vote, s: Scroll, reputations: Map<Str, i64>)
    requires
        v.signed,
        !d.standing_votes(v.target@).contains_key(d.accounts.unit_of(v.voter@)),
        list_at(d.catalog.votes, v.target@).len() < i64::MAX,
    ensures
        ({
            let after = DirectoryModel { catalog: d.catalog.with_vote(v), ..d };
            after.weight(s, reputations) - d.weight(s, reputations) == if s.id@ != v.target@ {
                0
            } else if v.value == 1 {
                1
            } else if v.value == -1 {
                -1int
            } else {
                0
            }
        }),
{
    if s.id@ == v.target@ {
        let other = v.target@.push('x');
        assert(other.len() != v.target@.len());
        law_a_vote_moves_the_tally(d, v, other);
    } else {
        law_a_vote_moves_the_tally(d, v, s.id@);
    }
}

/// Credits that boost a scroll raise its weight by as much, while 64 bits hold them, and no
/// other scroll's.
pub proof fn law_boosts_move_the_weight(d: DirectoryModel, b: Boost, s: Scroll, reputations: Map<Str, i64>)
    requires
        b.signed,
        forall|i: int| 0 <= i < d.catalog.boosts.len() ==> (#[trigger] d.catalog.boosts[i]).sig@ != b.sig@,
        d.boost_of(s.id@) + b.amount <= u64::MAX,
    ensures
        ({
            let after = DirectoryModel { catalog: d.catalog.with_boost(b), ..d };
            after.weight(s, reputations) - d.weight(s, reputations) == if s.id@ == b.target@ {
                b.amount as int
            } else {
                0
            }
        }),
{
    law_boosts_add_up(d, s.id@, b);
}

// ---- what a search finds ----

/// The scroll has one of the words of the search, or the search has none.
pub open spec fn scroll_found(q: Str, s: Scroll) -> bool {
    words_of(lowercase(q)).len() == 0 || exists|i: int|
        0 <= i < words_of(lowercase(q)).len() && occurs(#[trigger] words_of(lowercase(q))[i], lowercase(scroll_text(s)))
}

/// The artifact has one of the words of the search, or the search has none.
pub open spec fn artifact_found(q: Str, a: Artifact) -> bool {
    words_of(lowercase(q)).len() == 0 || exists|i: int|
        0 <= i < words_of(lowercase(q)).len() && occurs(#[trigger] words_of(lowercase(q))[i], lowercase(artifact_text(a)))
}

/// Scroll `s` may stand before `t`: it has more of the words of the search, or as many and
/// more credits, votes and reputation together, or as much of that and is not older.
pub open spec fn may_precede(d: DirectoryModel, q: Str, reputations: Map<Str, i64>, s: Scroll, t: Scroll) -> bool {
    let terms = words_of(lowercase(q));
    let a = places_of(terms, |w: Str| occurs(w, lowercase(scroll_text(s)))).len();
    let b = places_of(terms, |w: Str| occurs(w, lowercase(scroll_text(t)))).len();
    let x = esteem(d, reputations, s);
    let y = esteem(d, reputations, t);
    a > b || (a == b && (x > y || (x == y && s.created_ts >= t.created_ts)))
}

/// The credits that boosted a scroll, the accounts for it less those against it, and its
/// author's reputation.
pub open spec fn esteem(d: DirectoryModel, reputations: Map<Str, i64>, s: Scroll) -> int {
    d.boost_of(s.id@) + camp(d, s.id@, 1).len() - camp(d, s.id@, -1).len() + (if reputations.contains_key(s.author@) {
        reputations[s.author@] as int
    } else {
        0
    })
}

/// No scroll has more votes than a machine counts, nor a search more words.
pub open spec fn countable(d: DirectoryModel, q: Str) -> bool {
    &&& words_of(lowercase(q)).len() <= usize::MAX
    &&& forall|t: Str| (#[trigger] list_at(d.catalog.votes, t)).len() <= i64::MAX
}

proof fn lemma_precedes(d: DirectoryModel, q: Str, reputations: Map<Str, i64>, s: Scroll, t: Scroll)
    requires
        countable(d, q),
        !crate::order::outranks(scroll_key(d, q, reputations)(t), scroll_key(d, q, reputations)(s)),
    ensures
        may_precede(d, q, reputations, s, t),
{
    let terms = words_of(lowercase(q));
    law_hits_count_words(terms, scroll_text(s));
    law_hits_count_words(terms, scroll_text(t));
    assert(list_at(d.catalog.votes, s.id@).len() <= i64::MAX);
    assert(list_at(d.catalog.votes, t.id@).len() <= i64::MAX);
    law_weight(d, s, reputations);
    law_weight(d, t, reputations);
}

spec fn scroll_key(d: DirectoryModel, q: Str, reputations: Map<Str, i64>) -> spec_fn(Scroll) -> RankKey {
    |s: Scroll|
        RankKey {
            first: hits(terms_of(q), scroll_text(s)) as i128,
            second: d.weight(s, reputations) as i128,
            third: s.created_ts as i128,
        }
}

/// A search shows scrolls of the catalog that have one of its words, the best first; and what
/// it leaves out for want of room may not stand before anything it shows. While there is
/// room it leaves nothing out.
pub proof fn law_scroll_search(d: DirectoryModel, q: Str, reputations: Map<Str, i64>, limit: usize)
    requires
        countable(d, q),
    ensures
        forall|i: int|
            0 <= i < d.scroll_hits(q, reputations, limit).len() ==> d.catalog.scrolls.contains(
                #[trigger] d.scroll_hits(q, reputations, limit)[i],
            ) && scroll_found(q, d.scroll_hits(q, reputations, limit)[i]),
        forall|i: int, j: int|
            0 <= i < j < d.scroll_hits(q, reputations, limit).len() ==> may_precede(
                d,
                q,
                reputations,
                #[trigger] d.scroll_hits(q, reputations, limit)[i],
                #[trigger] d.scroll_hits(q, reputations, limit)[j],
            ),
        forall|s: Scroll| #[trigger]
            d.catalog.scrolls.contains(s) && scroll_found(q, s) ==> d.scroll_hits(q, reputations, limit).contains(s) || (d.scroll_hits(
                q,
                reputations,
                limit,
            ).len() == limit && forall|i: int|
                0 <= i < limit ==> may_precede(d, q, reputations, #[trigger] d.scroll_hits(q, reputations, limit)[i], s)),
        d.scroll_hits(q, reputations, limit).len() <= limit,
{
    let terms = terms_of(q);
    let p = |s: Scroll| terms.len() == 0 || hits(terms, scroll_text(s)) > 0;
    let found = d.catalog.scrolls.filter(p);
    let key = |s: Scroll|
        RankKey {
            first: hits(terms, scroll_text(s)) as i128,
            second: d.weight(s, reputations) as i128,
            third: s.created_ts as i128,
        };
    let keys = found.map_values(key);
    let all = by_rank(found, keys);
    let out = d.scroll_hits(q, reputations, limit);
    assert(out == up_to(all, limit));
    lemma_filter_holds(d.catalog.scrolls, p);
    lemma_by_rank_keeps(found, keys);
    lemma_by_rank_order(found, key);
    assert forall|s: Scroll| #[trigger] p(s) == scroll_found(q, s) by {
        law_hits_count_words(terms, scroll_text(s));
    }
    assert forall|i: int, j: int| 0 <= i < j < all.len() implies may_precede(
        d,
        q,
        reputations,
        #[trigger] all[i],
        #[trigger] all[j],
    ) by {
        assert(!crate::order::outranks(key(by_rank(found, found.map_values(key))[j]), key(by_rank(found, found.map_values(key))[i])));
        lemma_precedes(d, q, reputations, all[i], all[j]);
    }
    assert forall|i: int| 0 <= i < out.len() implies d.catalog.scrolls.contains(#[trigger] out[i]) && scroll_found(q, out[i]) by {
        assert(out[i] == all[i]);
        assert(found.contains(by_rank(found, keys)[i]));
        let k = choose|k: int| 0 <= k < found.len() && found[k] == all[i];
        assert(p(d.catalog.scrolls.filter(p)[k]) && d.catalog.scrolls.contains(d.catalog.scrolls.filter(p)[k]));
    }
    assert forall|s: Scroll| #[trigger] d.catalog.scrolls.contains(s) && scroll_found(q, s) implies out.contains(s) || (out.len()
        == limit && forall|i: int| 0 <= i < limit ==> may_precede(d, q, reputations, #[trigger] out[i], s)) by {
        assert(p(s));
        let x = choose|x: int| 0 <= x < d.catalog.scrolls.len() && d.catalog.scrolls[x] == s;
        lemma_filter_keeps(d.catalog.scrolls, p, x);
        let k = choose|k: int| 0 <= k < found.len() && found[k] == s;
        assert(all.contains(found[k]));
        let y = choose|y: int| 0 <= y < all.len() && all[y] == s;
        if y < out.len() {
            assert(out[y] == s);
        } else {
            assert forall|i: int| 0 <= i < limit implies may_precede(d, q, reputations, #[trigger] out[i], s) by {
                assert(out[i] == all[i]);
            }
        }
    }
}

/// Of two scrolls that match alike, are boosted alike and have authors of one reputation, the
/// one with more accounts for it over those against comes first.
pub proof fn law_better_received_comes_first(
    d: DirectoryModel,
    q: Str,
    reputations: Map<Str, i64>,
    limit: usize,
    i: int,
    j: int,
)
    requires
        countable(d, q),
        0 <= i < d.scroll_hits(q, reputations, limit).len(),
        0 <= j < d.scroll_hits(q, reputations, limit).len(),
        ({
            let s = d.scroll_hits(q, reputations, limit)[i];
            let t = d.scroll_hits(q, reputations, limit)[j];
            &&& hits(terms_of(q), scroll_text(s)) == hits(terms_of(q), scroll_text(t))
            &&& d.boost_of(s.id@) == d.boost_of(t.id@)
            &&& score_of(reputations, s.author@) == score_of(reputations, t.author@)
            &&& camp(d, s.id@, 1).len() - camp(d, s.id@, -1).len() > camp(d, t.id@, 1).len() - camp(d, t.id@, -1).len()
        }),
    ensures
        i < j,
{
    law_scroll_search(d, q, reputations, limit);
    let s = d.scroll_hits(q, reputations, limit)[i];
    let t = d.scroll_hits(q, reputations, limit)[j];
    law_hits_count_words(terms_of(q), scroll_text(s));
    law_hits_count_words(terms_of(q), scroll_text(t));
    if j < i {
        assert(may_precede(d, q, reputations, t, s));
    }
}

/// The artifact is in the catalog.
pub open spec fn in_catalog(d: DirectoryModel, a: Artifact) -> bool {
    exists|k: Str| #[trigger] d.catalog.artifacts.contains_key(k) && d.catalog.artifacts[k] == a
}

/// Artifact `s` may stand before `t`: it has more of the words of the search, or as many and
/// is not older.
pub open spec fn artifact_may_precede(q: Str, s: Artifact, t: Artifact) -> bool {
    let terms = words_of(lowercase(q));
    let a = places_of(terms, |w: Str| occurs(w, lowercase(artifact_text(s)))).len();
    let b = places_of(terms, |w: Str| occurs(w, lowercase(artifact_text(t)))).len();
    a > b || (a == b && s.created_ts >= t.created_ts)
}

/// A search shows artifacts of the catalog that have one of its words, the best first; and
/// what it leaves out for want of room may not stand before anything it shows.
pub proof fn law_artifact_search(d: DirectoryModel, q: Str, limit: usize)
    requires
        words_of(lowercase(q)).len() <= usize::MAX,
        d.catalog.artifacts.dom().finite(),
    ensures
        forall|i: int|
            0 <= i < d.artifact_hits(q, limit).len() ==> artifact_found(q, #[trigger] d.artifact_hits(q, limit)[i])
                && in_catalog(d, d.artifact_hits(q, limit)[i]),
        forall|i: int, j: int|
            0 <= i < j < d.artifact_hits(q, limit).len() ==> artifact_may_precede(
                q,
                #[trigger] d.artifact_hits(q, limit)[i],
                #[trigger] d.artifact_hits(q, limit)[j],
            ),
        forall|k: Str| #[trigger]
            d.catalog.artifacts.contains_key(k) && artifact_found(q, d.catalog.artifacts[k]) ==> d.artifact_hits(
                q,
                limit,
            ).contains(d.catalog.artifacts[k]) || (d.artifact_hits(q, limit).len() == limit && forall|i: int|
                0 <= i < limit ==> artifact_may_precede(q, #[trigger] d.artifact_hits(q, limit)[i], d.catalog.artifacts[k])),
        d.artifact_hits(q, limit).len() <= limit,
{
    let m = d.catalog.artifacts;
    let terms = terms_of(q);
    let p = |a: Artifact| terms.len() == 0 || hits(terms, artifact_text(a)) > 0;
    let values = values_of(m);
    let found = values.filter(p);
    let key = |a: Artifact| RankKey { first: hits(terms, artifact_text(a)) as i128, second: a.created_ts as i128, third: 0 };
    let keys = found.map_values(key);
    let all = by_rank(found, keys);
    let out = d.artifact_hits(q, limit);
    assert(out == up_to(all, limit));
    lemma_filter_holds(values, p);
    lemma_by_rank_keeps(found, keys);
    lemma_by_rank_order(found, key);
    assert forall|a: Artifact| #[trigger] p(a) == artifact_found(q, a) by {
        law_hits_count_words(terms, artifact_text(a));
    }
    assert forall|i: int, j: int| 0 <= i < j < all.len() implies artifact_may_precede(q, #[trigger] all[i], #[trigger] all[j]) by {
        assert(!crate::order::outranks(key(by_rank(found, found.map_values(key))[j]), key(by_rank(found, found.map_values(key))[i])));
        law_hits_count_words(terms, artifact_text(all[i]));
        law_hits_count_words(terms, artifact_text(all[j]));
    }
    assert forall|i: int| 0 <= i < out.len() implies artifact_found(q, #[trigger] out[i]) && in_catalog(d, out[i]) by {
        assert(out[i] == all[i]);
        assert(found.contains(by_rank(found, keys)[i]));
        let k = choose|k: int| 0 <= k < found.len() && found[k] == all[i];
        assert(p(values.filter(p)[k]) && values.contains(values.filter(p)[k]));
        lemma_values(m, out[i]);
        let id = choose|id: Str| #[trigger] m.contains_key(id) && m[id] == out[i];
        assert(d.catalog.artifacts.contains_key(id));
    }
    assert forall|k: Str| #[trigger] m.contains_key(k) && artifact_found(q, m[k]) implies out.contains(m[k]) || (out.len() == limit
        && forall|i: int| 0 <= i < limit ==> artifact_may_precede(q, #[trigger] out[i], m[k])) by {
        let s = m[k];
        assert(p(s));
        lemma_values(m, s);
        let x = choose|x: int| 0 <= x < values.len() && values[x] == s;
        lemma_filter_keeps(values, p, x);
        let z = choose|z: int| 0 <= z < found.len() && found[z] == s;
        assert(all.contains(found[z]));
        let y = choose|y: int| 0 <= y < all.len() && all[y] == s;
        if y < out.len() {
            assert(out[y] == s);
        } else {
            assert forall|i: int| 0 <= i < limit implies artifact_may_precede(q, #[trigger] out[i], s) by {
                assert(out[i] == all[i]);
            }
        }
    }
}

/// As many are shown as are asked for, up to the limit: of a search 25 unless asked and 100 at
/// most, of the feed 50 unless asked and 200 at most.
pub proof fn law_limits(asked: usize)
    ensures
        shown(None, crate::codex::SEARCH_DEFAULT, crate::codex::SEARCH_MAX) == 25,
        shown(Some(asked), crate::codex::SEARCH_DEFAULT, crate::codex::SEARCH_MAX) == if asked < 100 {
            asked
        } else {
            100
        },
        shown(None, FEED_DEFAULT, FEED_MAX) == 50,
        shown(Some(asked), FEED_DEFAULT, FEED_MAX) == if asked < 200 {
            asked
        } else {
            200
        },
{
}

// ---- the feed ----

/// The scroll is by the author, refers to the artifact and has the sigil and the tome that are
/// asked for, as far as they are.
pub open spec fn asked_for(s: Scroll, q: FeedQuery) -> bool {
    &&& q.author matches Some(a) ==> s.author@ == a@
    &&& q.artifact matches Some(r) ==> exists|j: int| 0 <= j < s.refs@.len() && (#[trigger] s.refs@[j])@ == r@
    &&& fits(s, q.sigil, q.tome)
}

proof fn lemma_in_feed(s: Scroll, q: FeedQuery)
    ensures
        in_feed(s, q) <==> asked_for(s, q),
{
    law_facets(s, q.sigil, q.tome);
    if let Some(r) = q.artifact {
        let all = texts(s.refs@);
        if all.contains(r@) {
            let j = choose|j: int| 0 <= j < all.len() && all[j] == r@;
            assert(s.refs@[j]@ == r@);
        }
        if exists|j: int| 0 <= j < s.refs@.len() && (#[trigger] s.refs@[j])@ == r@ {
            let j = choose|j: int| 0 <= j < s.refs@.len() && (#[trigger] s.refs@[j])@ == r@;
            assert(all[j] == r@);
        }
    }
}

/// The feed shows the scrolls that are asked for, those inscribed last first. Any that it
/// leaves out for want of room was inscribed before all that it shows.
pub proof fn law_feed(d: DirectoryModel, q: FeedQuery) -> (at: Seq<int>)
    ensures
        ({
            let out = d.feed(q);
            let all = d.catalog.scrolls;
            &&& at.len() == out.len()
            &&& forall|i: int| 0 <= i < out.len() ==> 0 <= #[trigger] at[i] < all.len() && all[at[i]] == out[i] && asked_for(out[i], q)
            &&& forall|i: int, j: int| 0 <= i < j < out.len() ==> #[trigger] at[i] > #[trigger] at[j]
            &&& forall|k: int|
                0 <= k < all.len() && asked_for(#[trigger] all[k], q) ==> at.contains(k) || (out.len() == shown(
                    q.limit,
                    FEED_DEFAULT,
                    FEED_MAX,
                ) && forall|i: int| 0 <= i < out.len() ==> k < #[trigger] at[i])
            &&& out.len() <= shown(q.limit, FEED_DEFAULT, FEED_MAX)
        }),
{
    let all = d.catalog.scrolls;
    let rev = all.reverse();
    let p = |s: Scroll| in_feed(s, q);
    let limit = shown(q.limit, FEED_DEFAULT, FEED_MAX);
    let n = all.len() as int;
    let picked = rev.filter(p);
    let pos = lemma_filter_places(rev, p);
    let out = d.feed(q);
    assert(out == up_to(picked, limit));
    let at = Seq::new(out.len(), |i: int| n - 1 - pos[i]);
    assert forall|i: int| 0 <= i < out.len() implies 0 <= #[trigger] at[i] < all.len() && all[at[i]] == out[i] && asked_for(
        out[i],
        q,
    ) by {
        assert(0 <= pos[i] < rev.len() && rev[pos[i]] == picked[i]);
        assert(p(rev[pos[i]]));
        lemma_in_feed(out[i], q);
    }
    assert forall|i: int, j: int| 0 <= i < j < out.len() implies #[trigger] at[i] > #[trigger] at[j] by {
        assert(pos[i] < pos[j]);
    }
    assert forall|k: int| 0 <= k < all.len() && asked_for(#[trigger] all[k], q) implies at.contains(k) || (out.len() == limit
        && forall|i: int| 0 <= i < out.len() ==> k < #[trigger] at[i]) by {
        lemma_in_feed(all[k], q);
        let x = n - 1 - k;
        assert(rev[x] == all[k]);
        assert(p(rev[x]));
        assert(pos.contains(x));
        let i = choose|i: int| 0 <= i < pos.len() && pos[i] == x;
        if i < out.len() {
            assert(at[i] == k);
        } else {
            assert forall|j: int| 0 <= j < out.len() implies k < #[trigger] at[j] by {
                assert(pos[j] < pos[i]);
            }
        }
    }
    at
}

/// The list of artifacts has each of the kind that is asked for, or each of all kinds, in the
/// order of their ids, and no other.
pub proof fn law_artifact_list(d: DirectoryModel, kind: Option<String>)
    requires
        d.catalog.artifacts.dom().finite(),
        sound_artifacts(d.catalog.artifacts),
    ensures
        forall|k: Str| #[trigger]
            d.catalog.artifacts.contains_key(k) && (kind is None || d.catalog.artifacts[k].kind@ == kind->Some_0@)
                ==> d.artifacts_of(kind).contains(d.catalog.artifacts[k]),
        forall|i: int|
            0 <= i < d.artifacts_of(kind).len() ==> in_catalog(d, #[trigger] d.artifacts_of(kind)[i]) && (kind is None
                || d.artifacts_of(kind)[i].kind@ == kind->Some_0@),
        forall|i: int, j: int|
            0 <= i < j < d.artifacts_of(kind).len() ==> lex_lt(
                (#[trigger] d.artifacts_of(kind)[i]).id@,
                (#[trigger] d.artifacts_of(kind)[j]).id@,
            ),
{
    let m = d.catalog.artifacts;
    let p = |a: Artifact| wants(kind, a.kind@);
    let ids = sorted_keys(m.dom());
    let all = values_of(m);
    let out = d.artifacts_of(kind);
    lemma_filter_holds(all, p);
    lemma_keys_listed(m.dom());
    lemma_keys_distinct(m.dom());
    assert forall|k: Str| #[trigger] m.contains_key(k) && (kind is None || m[k].kind@ == kind->Some_0@) implies out.contains(m[k]) by {
        lemma_values(m, m[k]);
        let i = choose|i: int| 0 <= i < all.len() && all[i] == m[k];
        lemma_filter_keeps(all, p, i);
    }
    assert forall|i: int| 0 <= i < out.len() implies in_catalog(d, #[trigger] out[i]) && (kind is None || out[i].kind@
        == kind->Some_0@) by {
        assert(p(all.filter(p)[i]) && all.contains(all.filter(p)[i]));
        lemma_values(m, out[i]);
        let id = choose|id: Str| #[trigger] m.contains_key(id) && m[id] == out[i];
        assert(d.catalog.artifacts.contains_key(id));
    }
    let at = lemma_filter_places(all, p);
    assert forall|i: int, j: int| 0 <= i < j < out.len() implies lex_lt((#[trigger] out[i]).id@, (#[trigger] out[j]).id@) by {
        assert(at[i] < at[j]);
        let a = ids[at[i]];
        let b = ids[at[j]];
        assert(ids.contains(a) && ids.contains(b));
        assert(m.contains_key(a) && m.contains_key(b));
        assert(all[at[i]] == m[a] && all[at[j]] == m[b]);
        assert(lex_lt(ids[at[i]], ids[at[j]]));
    }
}

} // verus!
