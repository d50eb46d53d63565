//! The codex: the feed, the catalog of artifacts, and search.

use crate::directory::{Directory, DirectoryModel};
use crate::events::{bears, is_wanted, scroll_bears, wants};
use crate::order::{arrange, by_rank, RankKey};
use crate::ordmap::{values_of, OrdMap};
use crate::records::{Artifact, Scroll, Str};
use crate::seqs::{lemma_filter_none, lemma_filter_step};
use crate::text::{
    chars_of, contains_string, contains_text, join, joined, lowercase, occurs, texts, to_lower, words, words_of,
};
use vstd::prelude::*;

verus! {

/// How many scrolls the feed shows unless asked, and at most.
pub const FEED_DEFAULT: usize = 50;

pub const FEED_MAX: usize = 200;

/// How many hits a search shows unless asked, and at most.
pub const SEARCH_DEFAULT: usize = 25;

pub const SEARCH_MAX: usize = 100;

/// How many are shown: as many as asked for, up to a limit.
pub open spec fn shown(asked: Option<usize>, default: usize, max: usize) -> usize {
    let n = match asked {
        Some(n) => n,
        None => default,
    };
    if n < max {
        n
    } else {
        max
    }
}

fn how_many(asked: Option<usize>, default: usize, max: usize) -> (r: usize)
    ensures
        r == shown(asked, default, max),
{
    let n = match asked {
        Some(n) => n,
        None => default,
    };
    if n < max {
        n
    } else {
        max
    }
}

/// The first `n`, or all.
pub open spec fn up_to<T>(s: Seq<T>, n: usize) -> Seq<T> {
    s.take(if n < s.len() { n as int } else { s.len() as int })
}

fn first_few<'a, T>(v: &Vec<&'a T>, n: usize) -> (r: Vec<&'a T>)
    ensures
        r@.unref() == up_to(v@.unref(), n),
{
    let mut out: Vec<&'a T> = Vec::new();
    let ghost all = v@.unref();
    let mut i: usize = 0;
    assert(out@.unref() =~= all.take(0));
    while i < v.len() && i < n
        invariant
            0 <= i <= v.len(),
            i <= n,
            all == v@.unref(),
            out@.unref() == all.take(i as int),
        decreases v.len() - i,
    {
        let ghost prev = out@;
        out.push(v[i]);
        assert(out@.unref() =~= prev.unref().push(all[i as int]));
        assert(all.take(i + 1) =~= all.take(i as int).push(all[i as int]));
        i = i + 1;
    }
    out
}

// ---- the feed ----

/// What the feed is asked for. Labels are in their normal form.
pub struct FeedQuery {
    pub author: Option<String>,
    /// An artifact that the scroll refers to.
    pub artifact: Option<String>,
    pub sigil: Option<String>,
    pub tome: Option<String>,
    pub limit: Option<usize>,
}

/// The scroll is what the feed is asked for.
pub open spec fn in_feed(s: Scroll, q: FeedQuery) -> bool {
    &&& wants(q.author, s.author@)
    &&& q.artifact matches Some(r) ==> texts(s.refs@).contains(r@)
    &&& bears(s, q.sigil, q.tome)
}

fn is_in_feed(s: &Scroll, q: &FeedQuery) -> (r: bool)
    ensures
        r == in_feed(*s, *q),
{
    let cites = match &q.artifact {
        Some(r) => contains_string(&s.refs, r.as_str()),
        None => true,
    };
    is_wanted(&q.author, s.author.as_str()) && cites && scroll_bears(s, &q.sigil, &q.tome)
}

impl DirectoryModel {
    /// The scrolls asked for, newest first.
    pub open spec fn feed(self, q: FeedQuery) -> Seq<Scroll> {
        up_to(
            self.catalog.scrolls.reverse().filter(|s: Scroll| in_feed(s, q)),
            shown(q.limit, FEED_DEFAULT, FEED_MAX),
        )
    }

    /// The artifacts in the order of their ids, or those of one kind.
    pub open spec fn artifacts_of(self, kind: Option<String>) -> Seq<Artifact> {
        values_of(self.catalog.artifacts).filter(|a: Artifact| wants(kind, a.kind@))
    }
}

impl Directory {
    /// The public feed: scrolls, newest first, by author, by an artifact they refer to,
    /// by sigil or by tome.
    pub fn feed<'a>(&'a self, q: &FeedQuery) -> (r: Vec<&'a Scroll>)
        ensures
            r@.unref() == self@.feed(*q),
    {
        let limit = how_many(q.limit, FEED_DEFAULT, FEED_MAX);
        let ghost p = |s: Scroll| in_feed(s, *q);
        let ghost rev = self@.catalog.scrolls.reverse();
        let n = self.catalog.scrolls.len();
        let mut out: Vec<&'a Scroll> = Vec::new();
        let mut i: usize = 0;
        proof {
            lemma_filter_none(rev, p);
            assert(out@.unref() =~= up_to(rev.take(0).filter(p), limit));
        }
        while i < n
            invariant
                0 <= i <= n,
                n == self.catalog.scrolls.len(),
                rev == self@.catalog.scrolls.reverse(),
                p == (|s: Scroll| in_feed(s, *q)),
                out@.unref() == up_to(rev.take(i as int).filter(p), limit),
            decreases n - i,
        {
            proof {
                lemma_filter_step(rev, p, i as int);
            }
            let s = &self.catalog.scrolls[n - 1 - i];
            assert(rev[i as int] == *s);
            let ghost before = rev.take(i as int).filter(p);
            let ghost after = rev.take(i + 1).filter(p);
            if is_in_feed(s, q) {
                assert(out@.unref().len() == out@.len());
                if out.len() < limit {
                    let ghost prev = out@;
                    out.push(s);
                    assert(out@.unref() =~= prev.unref().push(*s));
                    assert(up_to(before, limit) =~= before);
                    assert(up_to(after, limit) =~= after);
                } else {
                    assert(up_to(after, limit) =~= up_to(before, limit));
                }
            }
            i = i + 1;
        }
        assert(rev.take(i as int) =~= rev);
        out
    }

    /// The artifacts in the order of their ids, or those of one kind.
    pub fn list<'a>(&'a self, kind: &Option<String>) -> (r: Vec<&'a Artifact>)
        ensures
            r@.unref() == values_of(self@.catalog.artifacts).filter(|a: Artifact| wants(*kind, a.kind@)),
            r@.unref() == self@.artifacts_of(*kind),
    {
        let ghost p = |a: Artifact| wants(*kind, a.kind@);
        let all = self.catalog.artifacts.values();
        let ghost m = all@.unref();
        let mut out: Vec<&'a Artifact> = Vec::new();
        let mut i: usize = 0;
        proof {
            lemma_filter_none(m, p);
            assert(out@.unref() =~= m.take(0).filter(p));
        }
        while i < all.len()
            invariant
                0 <= i <= all.len(),
                m == all@.unref(),
                p == (|a: Artifact| wants(*kind, a.kind@)),
                out@.unref() == m.take(i as int).filter(p),
            decreases all.len() - i,
        {
            proof {
                lemma_filter_step(m, p, i as int);
            }
            if is_wanted(kind, all[i].kind.as_str()) {
                let ghost prev = out@;
                out.push(all[i]);
                assert(out@.unref() =~= prev.unref().push(m[i as int]));
            }
            i = i + 1;
        }
        assert(m.take(i as int) =~= m);
        out
    }
}

// ---- search ----

/// The words that are searched for.
pub open spec fn terms_of(q: Str) -> Seq<Str> {
    words_of(lowercase(q))
}

/// How many of the terms stand in a text, letter case aside.
pub open spec fn hits(terms: Seq<Str>, hay: Str) -> nat {
    terms.filter(|t: Str| occurs(t, lowercase(hay))).len()
}

/// What of a scroll is searched.
pub open spec fn scroll_text(s: Scroll) -> Str {
    s.body@ + " "@ + joined(texts(s.sigils@), " "@) + " "@ + (match s.tome {
        Some(t) => t@,
        None => Seq::empty(),
    }) + " "@ + s.author@
}

/// What of an artifact is searched.
pub open spec fn artifact_text(a: Artifact) -> Str {
    a.title@ + " "@ + a.description@ + " "@ + a.kind@
}

fn text_of_scroll(s: &Scroll) -> (r: String)
    ensures
        r@ == scroll_text(*s),
{
    let mut t = s.body.clone();
    t.append(" ");
    t.append(join(&s.sigils, " ").as_str());
    t.append(" ");
    match &s.tome {
        Some(tome) => {
            t.append(tome.as_str());
        },
        None => {
            assert(t@ + Seq::<char>::empty() =~= t@);
        },
    }
    t.append(" ");
    t.append(s.author.as_str());
    t
}

fn text_of_artifact(a: &Artifact) -> (r: String)
    ensures
        r@ == artifact_text(*a),
{
    let mut t = a.title.clone();
    t.append(" ");
    t.append(a.description.as_str());
    t.append(" ");
    t.append(a.kind.as_str());
    t
}

fn count_hits(terms: &Vec<String>, hay: &str) -> (r: usize)
    ensures
        r == hits(texts(terms@), hay@),
{
    let low = to_lower(hay);
    let h = chars_of(low.as_str());
    let ghost all = texts(terms@);
    let ghost p = |t: Str| occurs(t, lowercase(hay@));
    let mut n: usize = 0;
    let mut i: usize = 0;
    proof {
        lemma_filter_none(all, p);
    }
    while i < terms.len()
        invariant
            0 <= i <= terms.len(),
            all == texts(terms@),
            h@ == lowercase(hay@),
            p == (|t: Str| occurs(t, lowercase(hay@))),
            n == all.take(i as int).filter(p).len(),
            n <= i,
        decreases terms.len() - i,
    {
        proof {
            lemma_filter_step(all, p, i as int);
        }
        let t = chars_of(terms[i].as_str());
        if contains_text(&h, &t) {
            n = n + 1;
        }
        i = i + 1;
    }
    assert(all.take(i as int) =~= all);
    n
}

/// A score of a key, 0 where there is none.
pub open spec fn score_of(scores: Map<Str, i64>, pubkey: Str) -> i64 {
    if scores.contains_key(pubkey) {
        scores[pubkey]
    } else {
        0
    }
}

/// The score of a key, 0 where there is none.
pub fn get_score(scores: &OrdMap<i64>, pubkey: &str) -> (r: i64)
    ensures
        r == score_of(scores@, pubkey@),
{
    match scores.get(pubkey) {
        Some(s) => *s,
        None => 0,
    }
}

impl DirectoryModel {
    /// What ranks scrolls that match alike: boosts, votes and the author's reputation.
    pub open spec fn weight(self, s: Scroll, reputations: Map<Str, i64>) -> int {
        self.boost_of(s.id@) + self.tally(s.id@).score + score_of(reputations, s.author@)
    }

    /// The scrolls that match a search: by how many terms they have, then by weight, then
    /// the newest.
    pub open spec fn scroll_hits(self, q: Str, reputations: Map<Str, i64>, limit: usize) -> Seq<Scroll> {
        let terms = terms_of(q);
        let found = self.catalog.scrolls.filter(|s: Scroll| terms.len() == 0 || hits(terms, scroll_text(s)) > 0);
        up_to(
            by_rank(
                found,
                found.map_values(
                    |s: Scroll|
                        RankKey {
                            first: hits(terms, scroll_text(s)) as i128,
                            second: self.weight(s, reputations) as i128,
                            third: s.created_ts as i128,
                        },
                ),
            ),
            limit,
        )
    }

    /// The artifacts that match a search: by how many terms they have, then the newest.
    pub open spec fn artifact_hits(self, q: Str, limit: usize) -> Seq<Artifact> {
        let terms = terms_of(q);
        let found = values_of(self.catalog.artifacts).filter(
            |a: Artifact| terms.len() == 0 || hits(terms, artifact_text(a)) > 0,
        );
        up_to(
            by_rank(
                found,
                found.map_values(
                    |a: Artifact| RankKey { first: hits(terms, artifact_text(a)) as i128, second: a.created_ts as i128, third: 0 },
                ),
            ),
            limit,
        )
    }
}

/// What a search found.
pub struct SearchHits<'a> {
    pub scrolls: Vec<&'a Scroll>,
    pub artifacts: Vec<&'a Artifact>,
}

impl Directory {
    fn search_scrolls<'a>(&'a self, q: &str, terms: &Vec<String>, reputations: &OrdMap<i64>, limit: usize) -> (r: Vec<
        &'a Scroll,
    >)
        requires
            texts(terms@) == terms_of(q@),
        ensures
            r@.unref() == self@.scroll_hits(q@, reputations@, limit),
    {
        let ghost ts = terms_of(q@);
        let ghost p = |s: Scroll| ts.len() == 0 || hits(ts, scroll_text(s)) > 0;
        let ghost key = |s: Scroll|
            RankKey {
                first: hits(ts, scroll_text(s)) as i128,
                second: self@.weight(s, reputations@) as i128,
                third: s.created_ts as i128,
            };
        let ghost all = self@.catalog.scrolls;
        let mut found: Vec<&'a Scroll> = Vec::new();
        let mut keys: Vec<RankKey> = Vec::new();
        let mut i: usize = 0;
        proof {
            lemma_filter_none(all, p);
            assert(found@.unref() =~= all.take(0).filter(p));
            assert(keys@ =~= all.take(0).filter(p).map_values(key));
        }
        while i < self.catalog.scrolls.len()
            invariant
                0 <= i <= self.catalog.scrolls.len(),
                all == self.catalog.scrolls@,
                texts(terms@) == ts,
                p == (|s: Scroll| ts.len() == 0 || hits(ts, scroll_text(s)) > 0),
                key == (|s: Scroll|
                    RankKey {
                        first: hits(ts, scroll_text(s)) as i128,
                        second: self@.weight(s, reputations@) as i128,
                        third: s.created_ts as i128,
                    }),
                found@.unref() == all.take(i as int).filter(p),
                keys@ == all.take(i as int).filter(p).map_values(key),
            decreases self.catalog.scrolls.len() - i,
        {
            proof {
                lemma_filter_step(all, p, i as int);
            }
            let s = &self.catalog.scrolls[i];
            let n = count_hits(terms, text_of_scroll(s).as_str());
            assert(texts(terms@).len() == terms@.len());
            if terms.len() == 0 || n > 0 {
                let boost = self.boost_score(s.id.as_str());
                let votes = self.vote_tally(s.id.as_str()).score;
                let weight = boost as i128 + votes as i128 + get_score(reputations, s.author.as_str()) as i128;
                let ghost prev = found@;
                found.push(s);
                keys.push(RankKey { first: n as i128, second: weight, third: s.created_ts as i128 });
                assert(found@.unref() =~= prev.unref().push(*s));
                assert(keys@ =~= all.take(i + 1).filter(p).map_values(key));
            }
            i = i + 1;
        }
        assert(all.take(i as int) =~= all);
        assert(keys@.len() == found@.unref().len());
        let ordered = arrange(&found, &keys);
        first_few(&ordered, limit)
    }

    fn search_artifacts<'a>(&'a self, q: &str, terms: &Vec<String>, limit: usize) -> (r: Vec<&'a Artifact>)
        requires
            texts(terms@) == terms_of(q@),
        ensures
            r@.unref() == self@.artifact_hits(q@, limit),
    {
        let ghost ts = terms_of(q@);
        let ghost p = |a: Artifact| ts.len() == 0 || hits(ts, artifact_text(a)) > 0;
        let ghost key = |a: Artifact| RankKey { first: hits(ts, artifact_text(a)) as i128, second: a.created_ts as i128, third: 0 };
        let values = self.catalog.artifacts.values();
        let ghost all = values@.unref();
        let mut found: Vec<&'a Artifact> = Vec::new();
        let mut keys: Vec<RankKey> = Vec::new();
        let mut i: usize = 0;
        proof {
            lemma_filter_none(all, p);
            assert(found@.unref() =~= all.take(0).filter(p));
            assert(keys@ =~= all.take(0).filter(p).map_values(key));
        }
        while i < values.len()
            invariant
                0 <= i <= values.len(),
                all == values@.unref(),
                texts(terms@) == ts,
                p == (|a: Artifact| ts.len() == 0 || hits(ts, artifact_text(a)) > 0),
                key == (|a: Artifact| RankKey { first: hits(ts, artifact_text(a)) as i128, second: a.created_ts as i128, third: 0 }),
                found@.unref() == all.take(i as int).filter(p),
                keys@ == all.take(i as int).filter(p).map_values(key),
            decreases values.len() - i,
        {
            proof {
                lemma_filter_step(all, p, i as int);
            }
            let a = values[i];
            let n = count_hits(terms, text_of_artifact(a).as_str());
            assert(texts(terms@).len() == terms@.len());
            if terms.len() == 0 || n > 0 {
                let ghost prev = found@;
                found.push(a);
                keys.push(RankKey { first: n as i128, second: a.created_ts as i128, third: 0 });
                assert(found@.unref() =~= prev.unref().push(*a));
                assert(keys@ =~= all.take(i + 1).filter(p).map_values(key));
            }
            i = i + 1;
        }
        assert(all.take(i as int) =~= all);
        assert(keys@.len() == found@.unref().len());
        let ordered = arrange(&found, &keys);
        first_few(&ordered, limit)
    }

    /// Searches the scrolls and the artifacts for the words of `q`. Reputations are those
    /// of the authors, rounded.
    pub fn search<'a>(&'a self, q: &str, limit: Option<usize>, reputations: &OrdMap<i64>) -> (r: SearchHits<'a>)
        ensures
            r.scrolls@.unref() == self@.scroll_hits(q@, reputations@, shown(limit, SEARCH_DEFAULT, SEARCH_MAX)),
            r.artifacts@.unref() == self@.artifact_hits(q@, shown(limit, SEARCH_DEFAULT, SEARCH_MAX)),
    {
        let n = how_many(limit, SEARCH_DEFAULT, SEARCH_MAX);
        let terms = words(to_lower(q).as_str());
        SearchHits {
            scrolls: self.search_scrolls(q, &terms, reputations, n),
            artifacts: self.search_artifacts(q, &terms, n),
        }
    }
}

} // verus!
