//! Facts on lists that the laws use: what filters, rankings and runs of lists hold.

use crate::laws::credits::sum;
use crate::order::{by_rank, comes_before, lemma_ranking_exists, outranks, ranking, RankKey};
use crate::ordmap::{lemma_keys_listed, sorted_keys, values_of};
use crate::records::Str;
use crate::seqs::concat_map;
use crate::text::lemma_lex_irreflexive;
use vstd::prelude::*;

verus! {

/// What meets a filter gets through it.
pub proof fn lemma_filter_keeps<T>(s: Seq<T>, p: spec_fn(T) -> bool, i: int)
    requires
        0 <= i < s.len(),
        p(s[i]),
    ensures
        s.filter(p).contains(s[i]),
    decreases s.len(),
{
    reveal(Seq::filter);
    let t = s.drop_last();
    if i == s.len() - 1 {
        assert(s.filter(p)[s.filter(p).len() - 1] == s[i]);
    } else {
        lemma_filter_keeps(t, p, i);
        assert(t[i] == s[i]);
        let k = choose|k: int| 0 <= k < t.filter(p).len() && t.filter(p)[k] == t[i];
        assert(s.filter(p)[k] == s[i]);
    }
}

/// The places of the items that `p` holds of.
pub open spec fn places_of<T>(s: Seq<T>, p: spec_fn(T) -> bool) -> Set<int> {
    Set::new(|i: int| 0 <= i < s.len() && p(s[i]))
}

/// A filter lets through one item for each place that meets it.
pub proof fn lemma_filter_count<T>(s: Seq<T>, p: spec_fn(T) -> bool)
    ensures
        places_of(s, p).finite(),
        s.filter(p).len() == places_of(s, p).len(),
    decreases s.len(),
{
    reveal(Seq::filter);
    if s.len() == 0 {
        assert(places_of(s, p) =~= Set::empty());
    } else {
        let t = s.drop_last();
        let n = s.len() - 1;
        lemma_filter_count(t, p);
        assert forall|i: int| 0 <= i < n implies #[trigger] t[i] == s[i] by {}
        if p(s.last()) {
            assert(places_of(s, p) =~= places_of(t, p).insert(n));
        } else {
            assert(places_of(s, p) =~= places_of(t, p));
        }
    }
}

/// A filter keeps a list without repeats free of them.
pub proof fn lemma_filter_distinct<T>(s: Seq<T>, p: spec_fn(T) -> bool)
    requires
        s.no_duplicates(),
    ensures
        s.filter(p).no_duplicates(),
    decreases s.len(),
{
    reveal(Seq::filter);
    if s.len() > 0 {
        let t = s.drop_last();
        assert forall|i: int, j: int| 0 <= i < t.len() && 0 <= j < t.len() && i != j implies t[i] != t[j] by {
            assert(s[i] != s[j]);
        }
        lemma_filter_distinct(t, p);
        crate::seqs::lemma_filter_holds(t, p);
        let u = s.filter(p);
        let v = t.filter(p);
        if p(s.last()) {
            assert(!v.contains(s.last())) by {
                if v.contains(s.last()) {
                    let k = choose|k: int| 0 <= k < v.len() && v[k] == s.last();
                    assert(t.contains(v[k]));
                    let j = choose|j: int| 0 <= j < t.len() && t[j] == v[k];
                    assert(s[j] != s[s.len() - 1]);
                }
            }
            assert forall|i: int, j: int| 0 <= i < u.len() && 0 <= j < u.len() && i != j implies u[i] != u[j] by {
                if i < v.len() && j < v.len() {
                    assert(v[i] != v[j]);
                } else if i < v.len() {
                    assert(v.contains(v[i]));
                } else {
                    assert(v.contains(v[j]));
                }
            }
        }
    }
}

/// A filter keeps the order: what comes through earlier stood earlier.
pub open spec fn picked_in_order<T>(s: Seq<T>, t: Seq<T>, at: Seq<int>) -> bool {
    &&& at.len() == t.len()
    &&& forall|i: int| 0 <= i < t.len() ==> 0 <= #[trigger] at[i] < s.len() && s[at[i]] == t[i]
    &&& forall|i: int, j: int| 0 <= i < j < t.len() ==> #[trigger] at[i] < #[trigger] at[j]
}

/// A filter lets through every place that meets it, in order.
pub proof fn lemma_filter_places<T>(s: Seq<T>, p: spec_fn(T) -> bool) -> (at: Seq<int>)
    ensures
        picked_in_order(s, s.filter(p), at),
        forall|i: int| 0 <= i < at.len() ==> p(s[#[trigger] at[i]]),
        forall|k: int| 0 <= k < s.len() && p(#[trigger] s[k]) ==> at.contains(k),
    decreases s.len(),
{
    reveal(Seq::filter);
    if s.len() == 0 {
        Seq::empty()
    } else {
        let t = s.drop_last();
        let n = s.len() - 1;
        let rest = lemma_filter_places(t, p);
        assert forall|i: int| 0 <= i < rest.len() implies s[#[trigger] rest[i]] == t[rest[i]] by {}
        if p(s.last()) {
            let at = rest.push(n);
            assert forall|k: int| 0 <= k < s.len() && p(#[trigger] s[k]) implies at.contains(k) by {
                if k < n {
                    assert(t[k] == s[k]);
                    assert(rest.contains(k));
                    let i = choose|i: int| 0 <= i < rest.len() && rest[i] == k;
                    assert(at[i] == k);
                } else {
                    assert(at[rest.len() as int] == k);
                }
            }
            at
        } else {
            assert forall|k: int| 0 <= k < s.len() && p(#[trigger] s[k]) implies rest.contains(k) by {
                assert(t[k] == s[k]);
            }
            rest
        }
    }
}

/// What stands in one of the lists stands in the run of them, and nothing else does.
pub proof fn lemma_concat_contains<A, B>(s: Seq<A>, f: spec_fn(A) -> Seq<B>, y: B)
    ensures
        concat_map(s, f).contains(y) <==> exists|i: int| 0 <= i < s.len() && f(#[trigger] s[i]).contains(y),
    decreases s.len(),
{
    let all = concat_map(s, f);
    if s.len() > 0 {
        let t = s.drop_last();
        let head = concat_map(t, f);
        let tail = f(s.last());
        lemma_concat_contains(t, f, y);
        if all.contains(y) {
            let k = choose|k: int| 0 <= k < all.len() && all[k] == y;
            if k < head.len() {
                assert(head[k] == y);
                let i = choose|i: int| 0 <= i < t.len() && f(#[trigger] t[i]).contains(y);
                assert(s[i] == t[i]);
            } else {
                assert(tail[k - head.len()] == y);
                assert(f(s[s.len() - 1]).contains(y));
            }
        }
        if exists|i: int| 0 <= i < s.len() && f(#[trigger] s[i]).contains(y) {
            let i = choose|i: int| 0 <= i < s.len() && f(#[trigger] s[i]).contains(y);
            if i < t.len() {
                assert(t[i] == s[i]);
                let k = choose|k: int| 0 <= k < head.len() && head[k] == y;
                assert(all[k] == y);
            } else {
                let k = choose|k: int| 0 <= k < tail.len() && tail[k] == y;
                assert(all[head.len() + k] == y);
            }
        }
    }
}

/// A run of lists is as long as they are together.
pub proof fn lemma_concat_len<A, B>(s: Seq<A>, f: spec_fn(A) -> Seq<B>)
    ensures
        concat_map(s, f).len() == sum(s, |x: A| f(x).len() as int),
    decreases s.len(),
{
    if s.len() > 0 {
        lemma_concat_len(s.drop_last(), f);
    }
}

/// Ranked items are in the order of their keys, and those with equal keys in the order in
/// which they came.
pub proof fn lemma_by_rank_order<T>(items: Seq<T>, key: spec_fn(T) -> RankKey)
    ensures
        forall|i: int, j: int|
            0 <= i < j < by_rank(items, items.map_values(key)).len() ==> !outranks(
                key(#[trigger] by_rank(items, items.map_values(key))[j]),
                key(#[trigger] by_rank(items, items.map_values(key))[i]),
            ),
        by_rank(items, items.map_values(key)).len() == items.len(),
{
    let keys = items.map_values(key);
    lemma_ranking_exists(keys);
    let p = ranking(keys);
    let r = by_rank(items, keys);
    assert forall|i: int, j: int| 0 <= i < j < r.len() implies !outranks(key(#[trigger] r[j]), key(#[trigger] r[i])) by {
        assert(0 <= p[i] < keys.len() && 0 <= p[j] < keys.len());
        assert(comes_before(keys, p[i], p[j]));
        assert(r[i] == items[p[i]] && r[j] == items[p[j]]);
    }
}

/// Ranking a list without repeats gives one without.
pub proof fn lemma_by_rank_distinct<T>(items: Seq<T>, keys: Seq<RankKey>)
    requires
        items.len() == keys.len(),
        items.no_duplicates(),
    ensures
        by_rank(items, keys).no_duplicates(),
{
    lemma_ranking_exists(keys);
    let p = ranking(keys);
    let r = by_rank(items, keys);
    assert forall|i: int, j: int| 0 <= i < r.len() && 0 <= j < r.len() && i != j implies r[i] != r[j] by {
        assert(0 <= p[i] < keys.len() && 0 <= p[j] < keys.len());
        assert(r[i] == items[p[i]] && r[j] == items[p[j]]);
        if i < j {
            assert(comes_before(keys, p[i], p[j]));
        } else {
            assert(comes_before(keys, p[j], p[i]));
        }
        assert(p[i] != p[j]);
    }
}

/// The keys of a set, listed: each once.
pub proof fn lemma_keys_distinct(dom: Set<Str>)
    requires
        dom.finite(),
    ensures
        sorted_keys(dom).no_duplicates(),
        forall|k: Str| #[trigger] sorted_keys(dom).contains(k) <==> dom.contains(k),
{
    let keys = sorted_keys(dom);
    lemma_keys_listed(dom);
    assert forall|i: int, j: int| 0 <= i < keys.len() && 0 <= j < keys.len() && i != j implies keys[i] != keys[j] by {
        if keys[i] == keys[j] {
            lemma_lex_irreflexive(keys[i]);
        }
    }
    assert forall|k: Str| #[trigger] keys.contains(k) <==> dom.contains(k) by {}
}

/// The values of a map, listed: those under its keys and no others.
pub proof fn lemma_values<T>(m: Map<Str, T>, v: T)
    requires
        m.dom().finite(),
    ensures
        values_of(m).contains(v) <==> exists|k: Str| #[trigger] m.contains_key(k) && m[k] == v,
        values_of(m).len() == sorted_keys(m.dom()).len(),
{
    let keys = sorted_keys(m.dom());
    lemma_keys_distinct(m.dom());
    let all = values_of(m);
    if all.contains(v) {
        let i = choose|i: int| 0 <= i < all.len() && all[i] == v;
        assert(keys.contains(keys[i]));
        assert(m.contains_key(keys[i]));
    }
    if exists|k: Str| #[trigger] m.contains_key(k) && m[k] == v {
        let k = choose|k: Str| #[trigger] m.contains_key(k) && m[k] == v;
        assert(m.dom().contains(k));
        assert(keys.contains(k));
        let i = choose|i: int| 0 <= i < keys.len() && keys[i] == k;
        assert(all[i] == v);
    }
}

/// The values of a map that has none twice, listed: each once.
pub proof fn lemma_values_distinct<T>(m: Map<Str, T>)
    requires
        m.dom().finite(),
        forall|a: Str, b: Str| #[trigger] m.contains_key(a) && #[trigger] m.contains_key(b) && a != b ==> m[a] != m[b],
    ensures
        values_of(m).no_duplicates(),
{
    let keys = sorted_keys(m.dom());
    lemma_keys_distinct(m.dom());
    let all = values_of(m);
    assert forall|i: int, j: int| 0 <= i < all.len() && 0 <= j < all.len() && i != j implies all[i] != all[j] by {
        assert(keys[i] != keys[j]);
        assert(keys.contains(keys[i]) && keys.contains(keys[j]));
        assert(m.contains_key(keys[i]) && m.contains_key(keys[j]));
    }
}

} // verus!
