//! Facts on sequences that several modules use.

use vstd::prelude::*;

verus! {

/// Where the first item is that `p` holds of.
pub open spec fn first_match<T>(s: Seq<T>, p: spec_fn(T) -> bool) -> Option<int>
    decreases s.len(),
{
    if s.len() == 0 {
        None
    } else {
        match first_match(s.drop_last(), p) {
            Some(i) => Some(i),
            None => if p(s.last()) {
                Some(s.len() - 1)
            } else {
                None
            },
        }
    }
}

pub proof fn lemma_first_match<T>(s: Seq<T>, p: spec_fn(T) -> bool)
    ensures
        match first_match(s, p) {
            Some(i) => 0 <= i < s.len() && p(s[i]) && forall|j: int| 0 <= j < i ==> !p(#[trigger] s[j]),
            None => forall|j: int| 0 <= j < s.len() ==> !p(#[trigger] s[j]),
        },
    decreases s.len(),
{
    if s.len() > 0 {
        lemma_first_match(s.drop_last(), p);
        let t = s.drop_last();
        assert forall|j: int| 0 <= j < t.len() implies t[j] == #[trigger] s[j] by {}
    }
}

pub proof fn lemma_first_match_at<T>(s: Seq<T>, p: spec_fn(T) -> bool, i: int)
    requires
        0 <= i < s.len(),
        p(s[i]),
        forall|j: int| 0 <= j < i ==> !p(#[trigger] s[j]),
    ensures
        first_match(s, p) == Some(i),
{
    lemma_first_match(s, p);
}

pub proof fn lemma_first_match_none<T>(s: Seq<T>, p: spec_fn(T) -> bool)
    requires
        forall|j: int| 0 <= j < s.len() ==> !p(#[trigger] s[j]),
    ensures
        first_match(s, p) is None,
{
    lemma_first_match(s, p);
}

pub proof fn lemma_filter_none<T>(s: Seq<T>, p: spec_fn(T) -> bool)
    ensures
        s.take(0).filter(p) == Seq::<T>::empty(),
{
    reveal(Seq::filter);
    assert(s.take(0).len() == 0);
}

pub proof fn lemma_filter_step<T>(s: Seq<T>, p: spec_fn(T) -> bool, i: int)
    requires
        0 <= i < s.len(),
    ensures
        s.take(i + 1).filter(p) == if p(s[i]) {
            s.take(i).filter(p).push(s[i])
        } else {
            s.take(i).filter(p)
        },
{
    reveal(Seq::filter);
    assert(s.take(i + 1).drop_last() =~= s.take(i));
    assert(s.take(i + 1).last() == s[i]);
}

/// What a filter lets through meets it and was there before.
pub proof fn lemma_filter_holds<T>(s: Seq<T>, p: spec_fn(T) -> bool)
    ensures
        forall|i: int| 0 <= i < s.filter(p).len() ==> p(#[trigger] s.filter(p)[i]) && s.contains(s.filter(p)[i]),
        s.filter(p).len() <= s.len(),
    decreases s.len(),
{
    reveal(Seq::filter);
    if s.len() > 0 {
        let t = s.drop_last();
        lemma_filter_holds(t, p);
        assert forall|i: int| 0 <= i < s.filter(p).len() implies p(#[trigger] s.filter(p)[i]) && s.contains(s.filter(p)[i]) by {
            if i < t.filter(p).len() {
                let x = t.filter(p)[i];
                assert(s.filter(p)[i] == x);
                let k = choose|k: int| 0 <= k < t.len() && t[k] == x;
                assert(s[k] == x);
            } else {
                assert(s.filter(p)[i] == s.last());
                assert(s[s.len() - 1] == s.last());
            }
        }
    }
}

/// A filter keeps items apart that were apart.
pub proof fn lemma_filter_keeps_distinct<T, K>(s: Seq<T>, p: spec_fn(T) -> bool, key: spec_fn(T) -> K)
    ensures
        (forall|i: int, j: int| 0 <= i < j < s.len() ==> key(#[trigger] s[i]) != key(#[trigger] s[j])) ==> (forall|i: int, j: int|
            0 <= i < j < s.filter(p).len() ==> key(#[trigger] s.filter(p)[i]) != key(#[trigger] s.filter(p)[j])),
    decreases s.len(),
{
    reveal(Seq::filter);
    if s.len() > 0 && (forall|i: int, j: int| 0 <= i < j < s.len() ==> key(#[trigger] s[i]) != key(#[trigger] s[j])) {
        let t = s.drop_last();
        assert forall|i: int, j: int| 0 <= i < j < t.len() implies key(#[trigger] t[i]) != key(#[trigger] t[j]) by {
            assert(t[i] == s[i] && t[j] == s[j]);
        }
        lemma_filter_keeps_distinct(t, p, key);
        lemma_filter_holds(t, p);
        let u = s.filter(p);
        assert forall|i: int, j: int| 0 <= i < j < u.len() implies key(#[trigger] u[i]) != key(#[trigger] u[j]) by {
            assert(u[i] == t.filter(p)[i]);
            if j < t.filter(p).len() {
                assert(u[j] == t.filter(p)[j]);
            } else {
                assert(u[j] == s.last());
                assert(t.contains(t.filter(p)[i]));
                let k = choose|k: int| 0 <= k < t.len() && t[k] == t.filter(p)[i];
                assert(s[k] == u[i]);
                assert(s[s.len() - 1] == u[j]);
            }
        }
    }
}

/// A filter depends only on what the predicate says of the items.
pub proof fn lemma_filter_ext<T>(s: Seq<T>, p: spec_fn(T) -> bool, q: spec_fn(T) -> bool)
    requires
        forall|i: int| 0 <= i < s.len() ==> p(#[trigger] s[i]) == q(s[i]),
    ensures
        s.filter(p) == s.filter(q),
    decreases s.len(),
{
    reveal(Seq::filter);
    if s.len() > 0 {
        let t = s.drop_last();
        assert forall|i: int| 0 <= i < t.len() implies p(#[trigger] t[i]) == q(t[i]) by {
            assert(t[i] == s[i]);
        }
        lemma_filter_ext(t, p, q);
        assert(p(s[s.len() - 1]) == q(s[s.len() - 1]));
    }
}

/// Filtering what a filter let through lets through what meets both.
pub proof fn lemma_filter_twice<T>(s: Seq<T>, p: spec_fn(T) -> bool, q: spec_fn(T) -> bool, both: spec_fn(T) -> bool)
    requires
        forall|x: T| #[trigger] both(x) == (p(x) && q(x)),
    ensures
        s.filter(p).filter(q) == s.filter(both),
    decreases s.len(),
{
    reveal(Seq::filter);
    if s.len() > 0 {
        let t = s.drop_last();
        lemma_filter_twice(t, p, q, both);
        assert(both(s.last()) == (p(s.last()) && q(s.last())));
        if p(s.last()) {
            assert(s.filter(p).drop_last() =~= t.filter(p));
        }
    }
}

/// A filter keeps items in ascending order.
pub proof fn lemma_filter_ascends<T>(s: Seq<T>, p: spec_fn(T) -> bool, key: spec_fn(T) -> int)
    requires
        forall|i: int, j: int| 0 <= i < j < s.len() ==> key(#[trigger] s[i]) < key(#[trigger] s[j]),
    ensures
        forall|i: int, j: int|
            0 <= i < j < s.filter(p).len() ==> key(#[trigger] s.filter(p)[i]) < key(#[trigger] s.filter(p)[j]),
    decreases s.len(),
{
    reveal(Seq::filter);
    if s.len() > 0 {
        let t = s.drop_last();
        assert forall|i: int, j: int| 0 <= i < j < t.len() implies key(#[trigger] t[i]) < key(#[trigger] t[j]) by {
            assert(t[i] == s[i] && t[j] == s[j]);
        }
        lemma_filter_ascends(t, p, key);
        lemma_filter_holds(t, p);
        let u = s.filter(p);
        assert forall|i: int, j: int| 0 <= i < j < u.len() implies key(#[trigger] u[i]) < key(#[trigger] u[j]) by {
            assert(u[i] == t.filter(p)[i]);
            if j < t.filter(p).len() {
                assert(u[j] == t.filter(p)[j]);
            } else {
                assert(u[j] == s.last());
                assert(t.contains(t.filter(p)[i]));
                let k = choose|k: int| 0 <= k < t.len() && t[k] == t.filter(p)[i];
                assert(s[k] == u[i]);
                assert(s[s.len() - 1] == u[j]);
            }
        }
    }
}

/// What `f` makes of each item, one after the other.
pub open spec fn concat_map<A, B>(s: Seq<A>, f: spec_fn(A) -> Seq<B>) -> Seq<B>
    decreases s.len(),
{
    if s.len() == 0 {
        Seq::empty()
    } else {
        concat_map(s.drop_last(), f) + f(s.last())
    }
}

pub proof fn lemma_concat_map_step<A, B>(s: Seq<A>, f: spec_fn(A) -> Seq<B>, i: int)
    requires
        0 <= i < s.len(),
    ensures
        concat_map(s.take(i + 1), f) == concat_map(s.take(i), f) + f(s[i]),
{
    assert(s.take(i + 1).drop_last() =~= s.take(i));
    assert(s.take(i + 1).last() == s[i]);
}

pub proof fn lemma_take_contains<T>(s: Seq<T>, i: int)
    requires
        0 <= i < s.len(),
    ensures
        forall|x: T| #[trigger] s.take(i + 1).contains(x) <==> s.take(i).contains(x) || x == s[i],
{
    let t = s.take(i + 1);
    assert forall|x: T| #[trigger] t.contains(x) <==> s.take(i).contains(x) || x == s[i] by {
        if t.contains(x) {
            let k = choose|k: int| 0 <= k < t.len() && t[k] == x;
            if k < i {
                assert(s.take(i)[k] == x);
            }
        }
        if s.take(i).contains(x) {
            let k = choose|k: int| 0 <= k < i && s.take(i)[k] == x;
            assert(t[k] == x);
        }
        if x == s[i] {
            assert(t[i] == x);
        }
    }
}

/// The first match depends only on what the predicate says of the items.
pub proof fn lemma_first_match_ext<T>(s: Seq<T>, p: spec_fn(T) -> bool, q: spec_fn(T) -> bool)
    requires
        forall|i: int| 0 <= i < s.len() ==> p(#[trigger] s[i]) == q(s[i]),
    ensures
        first_match(s, p) == first_match(s, q),
    decreases s.len(),
{
    if s.len() > 0 {
        let t = s.drop_last();
        assert forall|i: int| 0 <= i < t.len() implies p(#[trigger] t[i]) == q(t[i]) by {
            assert(t[i] == s[i]);
        }
        lemma_first_match_ext(t, p, q);
        assert(p(s[s.len() - 1]) == q(s[s.len() - 1]));
    }
}

} // verus!
