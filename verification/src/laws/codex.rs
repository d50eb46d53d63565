//! Laws of the feed and of search.

use crate::codex::{artifact_text, hits, in_feed, scroll_text, terms_of, up_to, FeedQuery, FEED_MAX};
use crate::directory::DirectoryModel;
use crate::order::{by_rank, comes_before, lemma_by_rank_keeps, lemma_ranking_exists, ranking, RankKey};
use crate::ordmap::values_of;
use crate::records::{Artifact, Scroll, Str};
use crate::seqs::lemma_filter_holds;
use vstd::prelude::*;

verus! {

/// The feed shows scrolls of the catalog that are asked for, and no more than its limit.
pub proof fn law_feed_shows_what_is_asked(d: DirectoryModel, q: FeedQuery)
    ensures
        d.feed(q).len() <= FEED_MAX,
        forall|i: int|
            0 <= i < d.feed(q).len() ==> in_feed(#[trigger] d.feed(q)[i], q) && d.catalog.scrolls.contains(d.feed(q)[i]),
{
    let p = |s: Scroll| in_feed(s, q);
    let rev = d.catalog.scrolls.reverse();
    let all = rev.filter(p);
    lemma_filter_holds(rev, p);
    assert forall|i: int| 0 <= i < d.feed(q).len() implies in_feed(#[trigger] d.feed(q)[i], q) && d.catalog.scrolls.contains(
        d.feed(q)[i],
    ) by {
        assert(d.feed(q)[i] == all[i]);
        assert(p(all[i]));
        let k = choose|k: int| 0 <= k < rev.len() && rev[k] == all[i];
        assert(d.catalog.scrolls[rev.len() - 1 - k] == rev[k]);
    }
}

/// A scroll that a search found stands before another: it has more of the words, or as
/// many and more weight, or as much and is not older.
pub open spec fn scroll_before(d: DirectoryModel, terms: Seq<Str>, reputations: Map<Str, i64>, s: Scroll, t: Scroll) -> bool {
    let a = hits(terms, scroll_text(s));
    let b = hits(terms, scroll_text(t));
    let x = d.weight(s, reputations);
    let y = d.weight(t, reputations);
    a > b || (a == b && (x > y || (x == y && s.created_ts >= t.created_ts)))
}

/// An artifact that a search found stands before another: it has more of the words, or as
/// many and is not older.
pub open spec fn artifact_before(terms: Seq<Str>, s: Artifact, t: Artifact) -> bool {
    let a = hits(terms, artifact_text(s));
    let b = hits(terms, artifact_text(t));
    a > b || (a == b && s.created_ts >= t.created_ts)
}

/// The scrolls that a search finds have one of its words, unless it has none; and they come
/// by how many of them they have, then by weight, then the newest first.
pub proof fn law_hits_match(d: DirectoryModel, q: Str, reputations: Map<Str, i64>, limit: usize)
    ensures
        forall|i: int|
            0 <= i < d.scroll_hits(q, reputations, limit).len() ==> terms_of(q).len() == 0 || hits(
                terms_of(q),
                scroll_text(#[trigger] d.scroll_hits(q, reputations, limit)[i]),
            ) > 0,
        d.scroll_hits(q, reputations, limit).len() <= limit,
        terms_of(q).len() <= usize::MAX ==> forall|i: int, j: int|
            0 <= i < j < d.scroll_hits(q, reputations, limit).len() ==> scroll_before(
                d,
                terms_of(q),
                reputations,
                #[trigger] d.scroll_hits(q, reputations, limit)[i],
                #[trigger] d.scroll_hits(q, reputations, limit)[j],
            ),
{
    let terms = terms_of(q);
    let p = |s: Scroll| terms.len() == 0 || hits(terms, scroll_text(s)) > 0;
    let found = d.catalog.scrolls.filter(p);
    let keys = found.map_values(
        |s: Scroll|
            RankKey {
                first: hits(terms, scroll_text(s)) as i128,
                second: d.weight(s, reputations) as i128,
                third: s.created_ts as i128,
            },
    );
    lemma_filter_holds(d.catalog.scrolls, p);
    lemma_by_rank_keeps(found, keys);
    let all = by_rank(found, keys);
    assert(d.scroll_hits(q, reputations, limit) == up_to(all, limit));
    assert forall|i: int| 0 <= i < d.scroll_hits(q, reputations, limit).len() implies terms_of(q).len() == 0 || hits(
        terms_of(q),
        scroll_text(#[trigger] d.scroll_hits(q, reputations, limit)[i]),
    ) > 0 by {
        assert(d.scroll_hits(q, reputations, limit)[i] == all[i]);
        assert(found.contains(all[i]));
        let k = choose|k: int| 0 <= k < found.len() && found[k] == all[i];
        assert(p(found[k]));
    }
    lemma_ranking_exists(keys);
    if terms.len() <= usize::MAX {
        let shown = d.scroll_hits(q, reputations, limit);
        assert forall|i: int, j: int| 0 <= i < j < shown.len() implies scroll_before(
            d,
            terms,
            reputations,
            #[trigger] shown[i],
            #[trigger] shown[j],
        ) by {
            let a = ranking(keys)[i];
            let b = ranking(keys)[j];
            assert(shown[i] == found[a] && shown[j] == found[b]);
            assert(comes_before(keys, a, b));
            lemma_filter_holds(terms, |t: Str| crate::text::occurs(t, crate::text::lowercase(scroll_text(found[a]))));
            lemma_filter_holds(terms, |t: Str| crate::text::occurs(t, crate::text::lowercase(scroll_text(found[b]))));
        }
    }
}

/// The artifacts that a search finds have one of its words, unless it has none; and they
/// come by how many of them they have, then the newest first.
pub proof fn law_artifact_hits_match(d: DirectoryModel, q: Str, limit: usize)
    ensures
        forall|i: int|
            0 <= i < d.artifact_hits(q, limit).len() ==> terms_of(q).len() == 0 || hits(
                terms_of(q),
                artifact_text(#[trigger] d.artifact_hits(q, limit)[i]),
            ) > 0,
        d.artifact_hits(q, limit).len() <= limit,
        terms_of(q).len() <= usize::MAX ==> forall|i: int, j: int|
            0 <= i < j < d.artifact_hits(q, limit).len() ==> artifact_before(
                terms_of(q),
                #[trigger] d.artifact_hits(q, limit)[i],
                #[trigger] d.artifact_hits(q, limit)[j],
            ),
{
    let terms = terms_of(q);
    let p = |a: Artifact| terms.len() == 0 || hits(terms, artifact_text(a)) > 0;
    let values = values_of(d.catalog.artifacts);
    let found = values.filter(p);
    let keys = found.map_values(
        |a: Artifact| RankKey { first: hits(terms, artifact_text(a)) as i128, second: a.created_ts as i128, third: 0 },
    );
    lemma_filter_holds(values, p);
    lemma_by_rank_keeps(found, keys);
    let all = by_rank(found, keys);
    let shown = d.artifact_hits(q, limit);
    assert(shown == up_to(all, limit));
    assert forall|i: int| 0 <= i < shown.len() implies terms.len() == 0 || hits(terms, artifact_text(#[trigger] shown[i]))
        > 0 by {
        assert(shown[i] == all[i]);
        assert(found.contains(all[i]));
        let k = choose|k: int| 0 <= k < found.len() && found[k] == all[i];
        assert(p(found[k]));
    }
    lemma_ranking_exists(keys);
    if terms.len() <= usize::MAX {
        assert forall|i: int, j: int| 0 <= i < j < shown.len() implies artifact_before(
            terms,
            #[trigger] shown[i],
            #[trigger] shown[j],
        ) by {
            let a = ranking(keys)[i];
            let b = ranking(keys)[j];
            assert(shown[i] == found[a] && shown[j] == found[b]);
            assert(comes_before(keys, a, b));
            lemma_filter_holds(terms, |t: Str| crate::text::occurs(t, crate::text::lowercase(artifact_text(found[a]))));
            lemma_filter_holds(terms, |t: Str| crate::text::occurs(t, crate::text::lowercase(artifact_text(found[b]))));
        }
    }
}

} // verus!
