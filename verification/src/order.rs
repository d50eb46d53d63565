//! Stable ranking, highest key first.

use vstd::prelude::*;
use vstd::set_lib::{lemma_int_range, lemma_subset_equality, set_int_range};

verus! {

/// What an item is ranked by: `first`, then `second`, then `third`, each from high to low.
#[derive(Debug, Clone, Copy, PartialEq, Eq, Structural)]
pub struct RankKey {
    pub first: i128,
    pub second: i128,
    pub third: i128,
}

/// `x` ranks above `y`.
pub open spec fn outranks(x: RankKey, y: RankKey) -> bool {
    ||| x.first > y.first
    ||| x.first == y.first && x.second > y.second
    ||| x.first == y.first && x.second == y.second && x.third > y.third
}

/// Item `i` comes before item `j`: by rank, and by place among equals.
pub open spec fn comes_before(keys: Seq<RankKey>, i: int, j: int) -> bool {
    outranks(keys[i], keys[j]) || (keys[i] == keys[j] && i < j)
}

/// `p` lists the places of all items in the order of their rank.
pub open spec fn ranks(p: Seq<int>, keys: Seq<RankKey>) -> bool {
    &&& p.len() == keys.len()
    &&& forall|i: int| 0 <= i < p.len() ==> 0 <= #[trigger] p[i] < keys.len()
    &&& forall|i: int, j: int| 0 <= i < j < p.len() ==> comes_before(keys, #[trigger] p[i], #[trigger] p[j])
}

/// The places of all items in the order of their rank.
pub open spec fn ranking(keys: Seq<RankKey>) -> Seq<int> {
    choose|p: Seq<int>| ranks(p, keys)
}

proof fn lemma_covers(p: Seq<int>, keys: Seq<RankKey>, k: int)
    requires
        ranks(p, keys),
        0 <= k < keys.len(),
    ensures
        p.contains(k),
{
    assert(p.no_duplicates()) by {
        assert forall|i: int, j: int| 0 <= i < p.len() && 0 <= j < p.len() && i != j implies p[i] != p[j] by {
            if i < j {
                assert(comes_before(keys, p[i], p[j]));
            } else {
                assert(comes_before(keys, p[j], p[i]));
            }
        }
    }
    p.unique_seq_to_set();
    lemma_int_range(0, keys.len() as int);
    let all = set_int_range(0, keys.len() as int);
    assert(p.to_set().subset_of(all)) by {
        assert forall|x: int| p.to_set().contains(x) implies all.contains(x) by {
            let i = choose|i: int| 0 <= i < p.len() && p[i] == x;
            assert(0 <= p[i] < keys.len());
        }
    }
    lemma_subset_equality(p.to_set(), all);
    assert(all.contains(k));
    assert(p.to_set().contains(k));
}

proof fn lemma_ranks_agree(p: Seq<int>, q: Seq<int>, keys: Seq<RankKey>, k: int)
    requires
        ranks(p, keys),
        ranks(q, keys),
        0 <= k <= keys.len(),
    ensures
        forall|i: int| 0 <= i < k ==> p[i] == q[i],
    decreases k,
{
    if k > 0 {
        let n = k - 1;
        lemma_ranks_agree(p, q, keys, n);
        assert(0 <= p[n] < keys.len());
        assert(0 <= q[n] < keys.len());
        lemma_covers(q, keys, p[n]);
        lemma_covers(p, keys, q[n]);
        let a = choose|a: int| 0 <= a < q.len() && q[a] == p[n];
        let b = choose|b: int| 0 <= b < p.len() && p[b] == q[n];
        if a < n {
            assert(p[a] == q[a]);
            assert(comes_before(keys, p[a], p[n]));
        }
        if b < n {
            assert(p[b] == q[b]);
            assert(comes_before(keys, q[b], q[n]));
        }
        if a > n && b > n {
            assert(comes_before(keys, q[n], q[a]));
            assert(comes_before(keys, p[n], p[b]));
        }
    }
}

/// There is one ranking.
pub proof fn lemma_ranking(p: Seq<int>, keys: Seq<RankKey>)
    requires
        ranks(p, keys),
    ensures
        ranking(keys) == p,
        ranks(ranking(keys), keys),
{
    lemma_ranks_agree(p, ranking(keys), keys, keys.len() as int);
    assert(p =~= ranking(keys));
}

/// The places as integers.
pub open spec fn places(v: Seq<usize>) -> Seq<int> {
    v.map_values(|i: usize| i as int)
}

fn is_above(x: RankKey, y: RankKey) -> (r: bool)
    ensures
        r == outranks(x, y),
{
    x.first > y.first || (x.first == y.first && (x.second > y.second || (x.second == y.second && x.third > y.third)))
}

/// The places of all items in the order of their rank, those of equal rank as they came.
pub fn rank(keys: &Vec<RankKey>) -> (r: Vec<usize>)
    ensures
        places(r@) == ranking(keys@),
        ranks(ranking(keys@), keys@),
        r.len() == keys.len(),
        forall|i: int| 0 <= i < r.len() ==> (#[trigger] r@[i]) < keys.len(),
{
    let mut out: Vec<usize> = Vec::new();
    let mut i: usize = 0;
    while i < keys.len()
        invariant
            0 <= i <= keys.len(),
            out.len() == i,
            forall|a: int| 0 <= a < i ==> (#[trigger] out@[a]) < i,
            forall|a: int, b: int|
                0 <= a < b < i ==> comes_before(keys@, #[trigger] out@[a] as int, #[trigger] out@[b] as int),
        decreases keys.len() - i,
    {
        let mut at: usize = i;
        while at > 0 && is_above(keys[i], keys[out[at - 1]])
            invariant
                0 <= at <= i,
                i < keys.len(),
                out.len() == i,
                forall|a: int| 0 <= a < i ==> (#[trigger] out@[a]) < i,
                forall|a: int| at <= a < i ==> outranks(keys@[i as int], keys@[#[trigger] out@[a] as int]),
            decreases at,
        {
            at = at - 1;
        }
        let ghost prev = out@;
        out.insert(at, i);
        proof {
            assert forall|a: int, b: int| 0 <= a < b < i + 1 implies comes_before(
                keys@,
                #[trigger] out@[a] as int,
                #[trigger] out@[b] as int,
            ) by {
                let pa = if a < at { a } else { a - 1 };
                let pb = if b < at { b } else { b - 1 };
                if a != at {
                    assert(out@[a] == prev[pa]);
                }
                if b != at {
                    assert(out@[b] == prev[pb]);
                }
                if a != at && b != at {
                    assert(comes_before(keys@, prev[pa] as int, prev[pb] as int));
                } else if b == at {
                    if a < at - 1 {
                        assert(comes_before(keys@, prev[a] as int, prev[at - 1] as int));
                    }
                }
            }
            assert forall|a: int| 0 <= a < i + 1 implies (#[trigger] out@[a]) < i + 1 by {
                if a != at {
                    assert(out@[a] == prev[if a < at { a } else { a - 1 }]);
                }
            }
        }
        i = i + 1;
    }
    proof {
        let p = places(out@);
        assert forall|a: int, b: int| 0 <= a < b < p.len() implies comes_before(keys@, #[trigger] p[a], #[trigger] p[b]) by {
            assert(p[a] == out@[a] as int && p[b] == out@[b] as int);
        }
        assert forall|a: int| 0 <= a < p.len() implies 0 <= #[trigger] p[a] < keys.len() by {
            assert(p[a] == out@[a] as int);
        }
        lemma_ranking(p, keys@);
    }
    out
}

/// The items in the order of their rank.
pub open spec fn by_rank<T>(items: Seq<T>, keys: Seq<RankKey>) -> Seq<T> {
    ranking(keys).map_values(|i: int| items[i])
}

/// The items in the order of their rank, those of equal rank as they came.
pub fn arrange<'a, T>(items: &Vec<&'a T>, keys: &Vec<RankKey>) -> (r: Vec<&'a T>)
    requires
        items.len() == keys.len(),
    ensures
        r@.unref() == by_rank(items@.unref(), keys@),
{
    let order = rank(keys);
    let mut out: Vec<&'a T> = Vec::new();
    let ghost all = by_rank(items@.unref(), keys@);
    let mut i: usize = 0;
    assert(out@.unref() =~= all.take(0));
    while i < order.len()
        invariant
            0 <= i <= order.len(),
            order.len() == keys.len(),
            items.len() == keys.len(),
            places(order@) == ranking(keys@),
            forall|j: int| 0 <= j < order.len() ==> (#[trigger] order@[j]) < keys.len(),
            all == by_rank(items@.unref(), keys@),
            out@.unref() == all.take(i as int),
        decreases order.len() - i,
    {
        let ghost prev = out@;
        out.push(items[order[i]]);
        assert(places(order@)[i as int] == order@[i as int]);
        assert(out@.unref() =~= prev.unref().push(all[i as int]));
        assert(all.take(i + 1) =~= all.take(i as int).push(all[i as int]));
        i = i + 1;
    }
    assert(places(order@).len() == order@.len());
    assert(all.take(i as int) =~= all);
    out
}

/// Ranked by time, newest first.
pub open spec fn newest_first(ts: i64) -> RankKey {
    RankKey { first: ts as i128, second: 0, third: 0 }
}

/// Ranked by time, oldest first.
pub open spec fn oldest_first(ts: i64) -> RankKey {
    RankKey { first: (-(ts as int)) as i128, second: 0, third: 0 }
}

/// Whatever is ranked has a ranking.
pub proof fn lemma_ranking_exists(keys: Seq<RankKey>)
    ensures
        ranks(ranking(keys), keys),
    decreases keys.len(),
{
    if keys.len() == 0 {
        assert(ranks(Seq::<int>::empty(), keys));
    } else {
        let t = keys.drop_last();
        let n = t.len() as int;
        lemma_ranking_exists(t);
        let p = ranking(t);
        let later = |i: int| !comes_before(keys, i, n);
        crate::seqs::lemma_first_match(p, later);
        let at = match crate::seqs::first_match(p, later) {
            Some(i) => i,
            None => n,
        };
        let q = p.insert(at, n);
        assert forall|i: int| 0 <= i < q.len() implies 0 <= #[trigger] q[i] < keys.len() by {
            if i < at {
                assert(q[i] == p[i]);
            } else if i > at {
                assert(q[i] == p[i - 1]);
            }
        }
        assert forall|i: int, j: int| 0 <= i < j < q.len() implies comes_before(keys, #[trigger] q[i], #[trigger] q[j]) by {
            let a = if i < at { i } else { i - 1 };
            let b = if j < at { j } else { j - 1 };
            if i != at {
                assert(q[i] == p[a] && 0 <= p[a] < n);
                assert(t[p[a]] == keys[p[a]]);
            }
            if j != at {
                assert(q[j] == p[b] && 0 <= p[b] < n);
                assert(t[p[b]] == keys[p[b]]);
            }
            if i != at && j != at {
                assert(comes_before(t, p[a], p[b]));
            } else if j == at {
                assert(!later(p[a]));
            } else {
                assert(later(p[at]));
                assert(0 <= p[at] < n);
                if b > at {
                    assert(comes_before(t, p[at], p[b]));
                    assert(t[p[at]] == keys[p[at]]);
                }
            }
        }
        assert(ranks(q, keys));
    }
}

/// Ranking leaves nothing out and puts nothing in.
pub proof fn lemma_by_rank_keeps<T>(items: Seq<T>, keys: Seq<RankKey>)
    requires
        items.len() == keys.len(),
    ensures
        by_rank(items, keys).len() == items.len(),
        forall|i: int| 0 <= i < items.len() ==> items.contains(#[trigger] by_rank(items, keys)[i]),
        forall|i: int| 0 <= i < items.len() ==> by_rank(items, keys).contains(#[trigger] items[i]),
{
    lemma_ranking_exists(keys);
    let p = ranking(keys);
    assert forall|i: int| 0 <= i < items.len() implies items.contains(#[trigger] by_rank(items, keys)[i]) by {
        assert(0 <= p[i] < keys.len());
        assert(by_rank(items, keys)[i] == items[p[i]]);
    }
    assert forall|i: int| 0 <= i < items.len() implies by_rank(items, keys).contains(#[trigger] items[i]) by {
        lemma_covers(p, keys, i);
        let k = choose|k: int| 0 <= k < p.len() && p[k] == i;
        assert(by_rank(items, keys)[k] == items[i]);
    }
}

} // verus!
