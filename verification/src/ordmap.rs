//! Maps keyed by strings (or pairs of strings) and walked in key order.

use crate::text::{compare, lex_lt, Rank};
use vstd::prelude::*;

verus! {

/// Each key is strictly below the next ones.
pub open spec fn ascending(s: Seq<Seq<char>>) -> bool {
    forall|i: int, j: int| 0 <= i < j < s.len() ==> lex_lt(#[trigger] s[i], #[trigger] s[j])
}

/// `s` lists the keys of `dom`, each once, in ascending order.
pub open spec fn lists_keys(s: Seq<Seq<char>>, dom: Set<Seq<char>>) -> bool {
    &&& ascending(s)
    &&& forall|k: Seq<char>| #[trigger] dom.contains(k) <==> s.contains(k)
}

/// The keys of `dom` in ascending order.
pub open spec fn sorted_keys(dom: Set<Seq<char>>) -> Seq<Seq<char>> {
    choose|s: Seq<Seq<char>>| lists_keys(s, dom)
}

proof fn lemma_first_is_least(s: Seq<Seq<char>>, t: Seq<Seq<char>>, dom: Set<Seq<char>>)
    requires
        lists_keys(s, dom),
        lists_keys(t, dom),
        s.len() > 0,
    ensures
        t.len() > 0,
        s[0] == t[0],
{
    assert(s.contains(s[0]));
    assert(dom.contains(s[0]));
    let i = choose|i: int| 0 <= i < t.len() && t[i] == s[0];
    assert(t.contains(t[0]));
    assert(dom.contains(t[0]));
    let j = choose|j: int| 0 <= j < s.len() && s[j] == t[0];
    if i > 0 {
        assert(lex_lt(t[0], t[i]));
        if j > 0 {
            assert(lex_lt(s[0], s[j]));
            crate::text::lemma_lex_transitive(s[0], t[0], s[0]);
        }
        crate::text::lemma_lex_irreflexive(s[0]);
    }
}

/// There is one way only to list a set of keys in ascending order.
pub proof fn lemma_listing_unique(s: Seq<Seq<char>>, t: Seq<Seq<char>>, dom: Set<Seq<char>>)
    requires
        lists_keys(s, dom),
        lists_keys(t, dom),
    ensures
        s == t,
    decreases s.len(),
{
    if s.len() == 0 {
        if t.len() > 0 {
            assert(t.contains(t[0]));
            assert(dom.contains(t[0]));
        }
        assert(s =~= t);
    } else {
        lemma_first_is_least(s, t, dom);
        let k = s[0];
        let s1 = s.drop_first();
        let t1 = t.drop_first();
        let d1 = dom.remove(k);
        lemma_drop_first_lists(s, dom);
        lemma_drop_first_lists(t, dom);
        lemma_listing_unique(s1, t1, d1);
        assert(s =~= seq![k] + s1);
        assert(t =~= seq![k] + t1);
    }
}

proof fn lemma_drop_first_lists(s: Seq<Seq<char>>, dom: Set<Seq<char>>)
    requires
        lists_keys(s, dom),
        s.len() > 0,
    ensures
        lists_keys(s.drop_first(), dom.remove(s[0])),
{
    let k = s[0];
    let s1 = s.drop_first();
    let d1 = dom.remove(k);
    assert forall|q: Seq<char>| #[trigger] d1.contains(q) <==> s1.contains(q) by {
        if d1.contains(q) {
            assert(dom.contains(q));
            let i = choose|i: int| 0 <= i < s.len() && s[i] == q;
            assert(s1[i - 1] == q);
        }
        if s1.contains(q) {
            let i = choose|i: int| 0 <= i < s1.len() && s1[i] == q;
            assert(s[i + 1] == q);
            assert(s.contains(q));
            assert(dom.contains(q));
            assert(lex_lt(s[0], s[i + 1]));
            crate::text::lemma_lex_irreflexive(q);
        }
    }
}

/// What a listing of keys is, `sorted_keys` gives.
pub proof fn lemma_sorted_keys(s: Seq<Seq<char>>, dom: Set<Seq<char>>)
    requires
        lists_keys(s, dom),
    ensures
        sorted_keys(dom) == s,
        lists_keys(sorted_keys(dom), dom),
        dom.finite(),
        dom.len() == s.len(),
{
    lemma_listing_unique(s, sorted_keys(dom), dom);
    assert(s.to_set() =~= dom) by {
        assert forall|k: Seq<char>| s.to_set().contains(k) <==> dom.contains(k) by {
            assert(dom.contains(k) <==> s.contains(k));
        }
    }
    assert(s.no_duplicates()) by {
        assert forall|i: int, j: int| 0 <= i < s.len() && 0 <= j < s.len() && i != j implies s[i]
            != s[j] by {
            if i < j {
                assert(lex_lt(s[i], s[j]));
            } else {
                assert(lex_lt(s[j], s[i]));
            }
            crate::text::lemma_lex_irreflexive(s[i]);
        }
    }
    s.unique_seq_to_set();
}

/// The listing of `s` with one more key.
proof fn lemma_insert_key(s: Seq<Seq<char>>, dom: Set<Seq<char>>, k: Seq<char>)
    requires
        lists_keys(s, dom),
        !dom.contains(k),
    ensures
        exists|at: int| 0 <= at <= s.len() && lists_keys(#[trigger] s.insert(at, k), dom.insert(k)),
{
    let p = |x: Seq<char>| lex_lt(k, x);
    crate::seqs::lemma_first_match(s, p);
    let n = s.len() as int;
    let at = match crate::seqs::first_match(s, p) {
        Some(i) => i,
        None => n,
    };
    let t = s.insert(at, k);
    assert forall|i: int, j: int| 0 <= i < j < t.len() implies lex_lt(#[trigger] t[i], #[trigger] t[j]) by {
        let a = if i < at { i } else { i - 1 };
        let b = if j < at { j } else { j - 1 };
        if i != at {
            assert(t[i] == s[a]);
        }
        if j != at {
            assert(t[j] == s[b]);
        }
        if i != at && j != at {
        } else if j == at {
            assert(!p(s[a]));
            assert(s.contains(s[a]));
            assert(dom.contains(s[a]));
            crate::text::lemma_lex_total(s[a], k);
        } else {
            assert(p(s[at]));
            if b > at {
                crate::text::lemma_lex_transitive(k, s[at], s[b]);
            }
        }
    }
    assert forall|x: Seq<char>| #[trigger] dom.insert(k).contains(x) <==> t.contains(x) by {
        if x == k {
            assert(t[at] == k);
        } else if dom.contains(x) {
            assert(s.contains(x));
            let i = choose|i: int| 0 <= i < s.len() && s[i] == x;
            assert(t[if i < at { i } else { i + 1 }] == x);
        }
        if t.contains(x) && x != k {
            let i = choose|i: int| 0 <= i < t.len() && t[i] == x;
            assert(s[if i < at { i } else { i - 1 }] == x);
            assert(s.contains(x));
        }
    }
    assert(lists_keys(s.insert(at, k), dom.insert(k)));
}

/// The keys of a finite set can be listed.
pub proof fn lemma_keys_listed(dom: Set<Seq<char>>)
    requires
        dom.finite(),
    ensures
        lists_keys(sorted_keys(dom), dom),
    decreases dom.len(),
{
    if dom.len() == 0 {
        assert(dom =~= Set::empty());
        assert(lists_keys(Seq::<Seq<char>>::empty(), dom));
    } else {
        let k = dom.choose();
        let rest = dom.remove(k);
        lemma_keys_listed(rest);
        lemma_insert_key(sorted_keys(rest), rest, k);
        let at = choose|at: int|
            0 <= at <= sorted_keys(rest).len() && lists_keys(#[trigger] sorted_keys(rest).insert(at, k), rest.insert(k));
        assert(rest.insert(k) =~= dom);
        assert(lists_keys(sorted_keys(rest).insert(at, k), dom));
    }
}

/// One more key comes in at its place, and the rest stays in order.
pub proof fn lemma_sorted_insert(dom: Set<Seq<char>>, k: Seq<char>)
    requires
        dom.finite(),
        !dom.contains(k),
    ensures
        exists|at: int|
            0 <= at <= sorted_keys(dom).len() && sorted_keys(dom.insert(k)) == #[trigger] sorted_keys(dom).insert(at, k),
{
    lemma_keys_listed(dom);
    let s = sorted_keys(dom);
    lemma_insert_key(s, dom, k);
    let at = choose|at: int| 0 <= at <= s.len() && lists_keys(#[trigger] s.insert(at, k), dom.insert(k));
    lemma_sorted_keys(s.insert(at, k), dom.insert(k));
}

/// A map from strings to values, kept in key order.
pub struct OrdMap<T> {
    entries: Vec<(String, T)>,
}

impl<T> View for OrdMap<T> {
    type V = Map<Seq<char>, T>;

    closed spec fn view(&self) -> Map<Seq<char>, T> {
        Map::new(
            |k: Seq<char>| exists|i: int| 0 <= i < self.entries@.len() && #[trigger] self.entries@[i].0@ == k,
            |k: Seq<char>| self.entries@[slot_of(self.entries@, k)].1,
        )
    }
}

spec fn slot_of<T>(s: Seq<(String, T)>, k: Seq<char>) -> int {
    choose|i: int| 0 <= i < s.len() && #[trigger] s[i].0@ == k
}

spec fn keys_of<T>(s: Seq<(String, T)>) -> Seq<Seq<char>> {
    Seq::new(s.len(), |i: int| s[i].0@)
}

/// The values in the order of their keys.
pub open spec fn values_of<T>(m: Map<Seq<char>, T>) -> Seq<T> {
    sorted_keys(m.dom()).map_values(|k: Seq<char>| m[k])
}

impl<T> OrdMap<T> {
    #[verifier::type_invariant]
    spec fn in_order(self) -> bool {
        ascending(keys_of(self.entries@))
    }

    /// The keys in ascending order.
    pub open spec fn keys(self) -> Seq<Seq<char>> {
        sorted_keys(self@.dom())
    }

    proof fn lemma_contents(self)
        requires
            self.in_order(),
        ensures
            self.keys() == keys_of(self.entries@),
            lists_keys(self.keys(), self@.dom()),
            self@.dom().finite(),
            self@.len() == self.entries@.len(),
            forall|i: int|
                0 <= i < self.entries@.len() ==> {
                    &&& self@.contains_key((#[trigger] self.entries@[i]).0@)
                    &&& self@[self.entries@[i].0@] == self.entries@[i].1
                },
    {
        let e = self.entries@;
        let ks = keys_of(e);
        assert forall|i: int| 0 <= i < e.len() implies {
            &&& self@.contains_key((#[trigger] e[i]).0@)
            &&& self@[e[i].0@] == e[i].1
        } by {
            let k = e[i].0@;
            let j = slot_of(e, k);
            if i < j {
                assert(lex_lt(ks[i], ks[j]));
            } else if j < i {
                assert(lex_lt(ks[j], ks[i]));
            }
            crate::text::lemma_lex_irreflexive(k);
        }
        assert forall|k: Seq<char>| #[trigger] self@.dom().contains(k) <==> ks.contains(k) by {
            if self@.dom().contains(k) {
                let i = choose|i: int| 0 <= i < e.len() && #[trigger] e[i].0@ == k;
                assert(ks[i] == k);
            }
            if ks.contains(k) {
                let i = choose|i: int| 0 <= i < ks.len() && ks[i] == k;
                assert(e[i].0@ == k);
            }
        }
        lemma_sorted_keys(ks, self@.dom());
    }

    pub fn new() -> (r: Self)
        ensures
            r@ == Map::<Seq<char>, T>::empty(),
    {
        let r = OrdMap { entries: Vec::new() };
        assert(r@ =~= Map::<Seq<char>, T>::empty());
        r
    }

    /// The position of `k`, or where it would be put.
    fn find(entries: &Vec<(String, T)>, k: &str) -> (r: (bool, usize))
        requires
            ascending(keys_of(entries@)),
        ensures
            r.1 <= entries.len(),
            r.0 ==> r.1 < entries.len() && entries@[r.1 as int].0@ == k@,
            forall|i: int| 0 <= i < r.1 ==> lex_lt((#[trigger] entries@[i]).0@, k@),
            !r.0 ==> forall|i: int| r.1 <= i < entries.len() ==> lex_lt(k@, (#[trigger] entries@[i]).0@),
    {
        let ghost ks = keys_of(entries@);
        let mut lo: usize = 0;
        let mut hi: usize = entries.len();
        while lo < hi
            invariant
                0 <= lo <= hi <= entries.len(),
                ks == keys_of(entries@),
                ascending(ks),
                forall|i: int| 0 <= i < lo ==> lex_lt((#[trigger] entries@[i]).0@, k@),
                forall|i: int| hi <= i < entries.len() ==> lex_lt(k@, (#[trigger] entries@[i]).0@),
            decreases hi - lo,
        {
            let mid = lo + (hi - lo) / 2;
            match compare(entries[mid].0.as_str(), k) {
                Rank::Equal => {
                    proof {
                        assert forall|i: int| 0 <= i < mid implies lex_lt((#[trigger] entries@[i]).0@, k@) by {
                            assert(lex_lt(ks[i], ks[mid as int]));
                        }
                    }
                    return (true, mid);
                },
                Rank::Less => {
                    proof {
                        assert forall|i: int| 0 <= i < mid + 1 implies lex_lt((#[trigger] entries@[i]).0@, k@) by {
                            if i < mid {
                                assert(lex_lt(ks[i], ks[mid as int]));
                                crate::text::lemma_lex_transitive(ks[i], ks[mid as int], k@);
                            }
                        }
                    }
                    lo = mid + 1;
                },
                Rank::Greater => {
                    proof {
                        assert forall|i: int| mid <= i < entries.len() implies lex_lt(k@, (#[trigger] entries@[i]).0@) by {
                            if mid < i {
                                assert(lex_lt(ks[mid as int], ks[i]));
                                crate::text::lemma_lex_transitive(k@, ks[mid as int], ks[i]);
                            }
                        }
                    }
                    hi = mid;
                },
            }
        }
        (false, lo)
    }

    proof fn lemma_absent(self, k: Seq<char>, at: int)
        requires
            self.in_order(),
            0 <= at <= self.entries@.len(),
            forall|i: int| 0 <= i < at ==> lex_lt((#[trigger] self.entries@[i]).0@, k),
            forall|i: int| at <= i < self.entries@.len() ==> lex_lt(k, (#[trigger] self.entries@[i]).0@),
        ensures
            !self@.contains_key(k),
    {
        if self@.contains_key(k) {
            let i = choose|i: int| 0 <= i < self.entries@.len() && #[trigger] self.entries@[i].0@ == k;
            crate::text::lemma_lex_irreflexive(k);
        }
    }

    pub fn get(&self, k: &str) -> (r: Option<&T>)
        ensures
            match r {
                Some(v) => self@.contains_key(k@) && *v == self@[k@],
                None => !self@.contains_key(k@),
            },
    {
        proof {
            use_type_invariant(self);
            self.lemma_contents();
        }
        let (found, at) = Self::find(&self.entries, k);
        if found {
            Some(&self.entries[at].1)
        } else {
            proof {
                self.lemma_absent(k@, at as int);
            }
            None
        }
    }

    pub fn contains_key(&self, k: &str) -> (r: bool)
        ensures
            r == self@.contains_key(k@),
    {
        self.get(k).is_some()
    }

    pub fn len(&self) -> (r: usize)
        ensures
            r == self@.len(),
            r == self.keys().len(),
            lists_keys(self.keys(), self@.dom()),
    {
        proof {
            use_type_invariant(self);
            self.lemma_contents();
        }
        self.entries.len()
    }

    /// The `i`-th key in ascending order.
    pub fn key_at(&self, i: usize) -> (r: &String)
        requires
            i < self.keys().len(),
        ensures
            r@ == self.keys()[i as int],
            self@.contains_key(r@),
    {
        proof {
            use_type_invariant(self);
            self.lemma_contents();
        }
        &self.entries[i].0
    }

    /// The value of the `i`-th key in ascending order.
    pub fn value_at(&self, i: usize) -> (r: &T)
        requires
            i < self.keys().len(),
        ensures
            *r == self@[self.keys()[i as int]],
            self@.contains_key(self.keys()[i as int]),
    {
        proof {
            use_type_invariant(self);
            self.lemma_contents();
        }
        &self.entries[i].1
    }

    /// The values in the order of their keys.
    pub fn values(&self) -> (r: Vec<&T>)
        ensures
            r@.unref() == values_of(self@),
    {
        let mut out: Vec<&T> = Vec::new();
        let n = self.len();
        let ghost all = values_of(self@);
        let mut i: usize = 0;
        assert(out@.unref() =~= all.take(0));
        while i < n
            invariant
                0 <= i <= n,
                n == self.keys().len(),
                all == values_of(self@),
                out@.unref() == all.take(i as int),
            decreases n - i,
        {
            let ghost prev = out@;
            out.push(self.value_at(i));
            assert(out@.unref() =~= prev.unref().push(all[i as int]));
            assert(all.take(i + 1) =~= all.take(i as int).push(all[i as int]));
            i = i + 1;
        }
        assert(all.take(i as int) =~= all);
        out
    }

    /// Puts `v` under `k`, in place of what was there.
    pub fn insert(&mut self, k: String, v: T)
        ensures
            final(self)@ == old(self)@.insert(k@, v),
    {
        proof {
            use_type_invariant(&*self);
            self.lemma_contents();
        }
        let ghost m0 = self@;
        let ghost old_self = *self;
        let mut entries: Vec<(String, T)> = Vec::new();
        std::mem::swap(&mut entries, &mut self.entries);
        let ghost e0 = entries@;
        let (found, at) = Self::find(&entries, k.as_str());
        let ghost kk = k@;
        if found {
            entries.set(at, (k, v));
            proof {
                assert(keys_of(entries@) =~= keys_of(e0));
            }
        } else {
            proof {
                old_self.lemma_absent(kk, at as int);
            }
            entries.insert(at, (k, v));
            proof {
                let ks = keys_of(entries@);
                let k0 = keys_of(e0);
                assert forall|i: int, j: int| 0 <= i < j < ks.len() implies lex_lt(#[trigger] ks[i], #[trigger] ks[j]) by {
                    let i0 = if i < at { i } else { i - 1 };
                    let j0 = if j < at { j } else { j - 1 };
                    if i == at {
                        assert(lex_lt(kk, e0[j0].0@));
                    } else if j == at {
                        assert(lex_lt(e0[i0].0@, kk));
                    } else {
                        assert(lex_lt(k0[i0], k0[j0]));
                    }
                }
            }
        }
        let ghost e1 = entries@;
        self.entries = entries;
        proof {
            self.lemma_contents();
            let m1 = self@;
            assert forall|q: Seq<char>| #[trigger] m1.contains_key(q) <==> m0.insert(kk, v).contains_key(q) by {
                if m1.contains_key(q) {
                    let i = choose|i: int| 0 <= i < e1.len() && #[trigger] e1[i].0@ == q;
                    if i != at {
                        if found || i < at {
                            assert(e0[i] == e1[i]);
                            assert(m0.contains_key(e0[i].0@));
                        } else {
                            assert(e0[i - 1] == e1[i]);
                            assert(m0.contains_key(e0[i - 1].0@));
                        }
                    }
                }
                if m0.contains_key(q) {
                    let i = choose|i: int| 0 <= i < e0.len() && #[trigger] e0[i].0@ == q;
                    if found || i < at {
                        assert(e1[i].0@ == q);
                    } else {
                        assert(e1[i + 1].0@ == q);
                    }
                }
                if q == kk {
                    assert(e1[at as int].0@ == q);
                }
            }
            assert forall|q: Seq<char>| #[trigger] m1.contains_key(q) implies m1[q] == m0.insert(kk, v)[q] by {
                let i = choose|i: int| 0 <= i < e1.len() && #[trigger] e1[i].0@ == q;
                assert(m1[e1[i].0@] == e1[i].1);
                assert(m1[e1[at as int].0@] == e1[at as int].1);
                if q != kk {
                    if found || i < at {
                        assert(e0[i] == e1[i]);
                        assert(m0[e0[i].0@] == e0[i].1);
                    } else {
                        assert(e0[i - 1] == e1[i]);
                        assert(m0[e0[i - 1].0@] == e0[i - 1].1);
                    }
                }
            }
            assert(m1 =~= m0.insert(kk, v));
        }
    }

    /// Takes out what is under `k`.
    pub fn remove(&mut self, k: &str) -> (r: Option<T>)
        ensures
            final(self)@ == old(self)@.remove(k@),
            match r {
                Some(v) => old(self)@.contains_key(k@) && v == old(self)@[k@],
                None => !old(self)@.contains_key(k@),
            },
    {
        proof {
            use_type_invariant(&*self);
            self.lemma_contents();
        }
        let ghost m0 = self@;
        let (found, at) = Self::find(&self.entries, k);
        if !found {
            proof {
                self.lemma_absent(k@, at as int);
                assert(m0.remove(k@) =~= m0);
            }
            return None;
        }
        let mut entries: Vec<(String, T)> = Vec::new();
        std::mem::swap(&mut entries, &mut self.entries);
        let ghost e0 = entries@;
        let (_, v) = entries.remove(at);
        let ghost e1 = entries@;
        proof {
            let ks = keys_of(e1);
            let k0 = keys_of(e0);
            assert forall|i: int, j: int| 0 <= i < j < ks.len() implies lex_lt(#[trigger] ks[i], #[trigger] ks[j]) by {
                let i0 = if i < at { i } else { i + 1 };
                let j0 = if j < at { j } else { j + 1 };
                assert(lex_lt(k0[i0], k0[j0]));
            }
        }
        self.entries = entries;
        proof {
            self.lemma_contents();
            let m1 = self@;
            let k0 = keys_of(e0);
            assert forall|q: Seq<char>| #[trigger] m1.contains_key(q) <==> m0.remove(k@).contains_key(q) by {
                if m1.contains_key(q) {
                    let i = choose|i: int| 0 <= i < e1.len() && #[trigger] e1[i].0@ == q;
                    let i0 = if i < at { i } else { i + 1 };
                    assert(e0[i0] == e1[i]);
                    assert(m0.contains_key(e0[i0].0@));
                    if i0 < at {
                        assert(lex_lt(k0[i0], k0[at as int]));
                    } else {
                        assert(lex_lt(k0[at as int], k0[i0]));
                    }
                    crate::text::lemma_lex_irreflexive(k@);
                }
                if m0.remove(k@).contains_key(q) {
                    let i = choose|i: int| 0 <= i < e0.len() && #[trigger] e0[i].0@ == q;
                    let i1 = if i < at { i } else { i - 1 };
                    assert(e1[i1].0@ == q);
                }
            }
            assert forall|q: Seq<char>| #[trigger] m1.contains_key(q) implies m1[q] == m0.remove(k@)[q] by {
                let i = choose|i: int| 0 <= i < e1.len() && #[trigger] e1[i].0@ == q;
                let i0 = if i < at { i } else { i + 1 };
                assert(e0[i0] == e1[i]);
                assert(m0[e0[i0].0@] == e0[i0].1);
                assert(m1[e1[i].0@] == e1[i].1);
            }
            assert(m1 =~= m0.remove(k@));
        }
        Some(v)
    }
}

/// The list under `k`, which is empty where nothing is.
pub open spec fn list_at<K, T>(m: Map<K, Seq<T>>, k: K) -> Seq<T> {
    if m.contains_key(k) {
        m[k]
    } else {
        Seq::empty()
    }
}

/// A map from strings to lists, each list in the order its items came.
pub struct ListMap<T> {
    lists: OrdMap<Vec<T>>,
}

impl<T> View for ListMap<T> {
    type V = Map<Seq<char>, Seq<T>>;

    closed spec fn view(&self) -> Map<Seq<char>, Seq<T>> {
        Map::new(|k: Seq<char>| self.lists@.contains_key(k), |k: Seq<char>| self.lists@[k]@)
    }
}

impl<T> ListMap<T> {
    /// The keys in ascending order.
    pub open spec fn keys(self) -> Seq<Seq<char>> {
        sorted_keys(self@.dom())
    }

    pub fn new() -> (r: Self)
        ensures
            r@ == Map::<Seq<char>, Seq<T>>::empty(),
    {
        let r = ListMap { lists: OrdMap::new() };
        assert(r@ =~= Map::<Seq<char>, Seq<T>>::empty());
        r
    }

    pub fn list(&self, k: &str) -> (r: Option<&Vec<T>>)
        ensures
            match r {
                Some(v) => self@.contains_key(k@) && v@ == self@[k@],
                None => !self@.contains_key(k@),
            },
    {
        self.lists.get(k)
    }

    /// How many items the list under `k` holds.
    pub fn count(&self, k: &str) -> (r: usize)
        ensures
            r == list_at(self@, k@).len(),
    {
        match self.list(k) {
            Some(v) => v.len(),
            None => 0,
        }
    }

    pub fn len(&self) -> (r: usize)
        ensures
            r == self.keys().len(),
            lists_keys(self.keys(), self@.dom()),
    {
        assert(self@.dom() =~= self.lists@.dom());
        self.lists.len()
    }

    /// The `i`-th key in ascending order.
    pub fn key_at(&self, i: usize) -> (r: &String)
        requires
            i < self.keys().len(),
        ensures
            r@ == self.keys()[i as int],
            self@.contains_key(r@),
    {
        assert(self@.dom() =~= self.lists@.dom());
        self.lists.key_at(i)
    }

    /// The list of the `i`-th key in ascending order.
    pub fn list_at_key(&self, i: usize) -> (r: &Vec<T>)
        requires
            i < self.keys().len(),
        ensures
            r@ == self@[self.keys()[i as int]],
            self@.contains_key(self.keys()[i as int]),
    {
        assert(self@.dom() =~= self.lists@.dom());
        self.lists.value_at(i)
    }

    /// Adds `item` at the end of the list under `k`.
    pub fn push(&mut self, k: &str, item: T)
        ensures
            final(self)@ == old(self)@.insert(k@, list_at(old(self)@, k@).push(item)),
    {
        let ghost m0 = self@;
        let mut v = match self.lists.remove(k) {
            Some(v) => v,
            None => Vec::new(),
        };
        v.push(item);
        self.lists.insert(k.to_owned(), v);
        assert(self@ =~= m0.insert(k@, list_at(m0, k@).push(item)));
    }
}

/// A map from pairs of strings to values.
pub struct PairMap<T> {
    rows: OrdMap<OrdMap<T>>,
}

impl<T> View for PairMap<T> {
    type V = Map<(Seq<char>, Seq<char>), T>;

    closed spec fn view(&self) -> Map<(Seq<char>, Seq<char>), T> {
        Map::new(
            |p: (Seq<char>, Seq<char>)| self.rows@.contains_key(p.0) && self.rows@[p.0]@.contains_key(p.1),
            |p: (Seq<char>, Seq<char>)| self.rows@[p.0]@[p.1],
        )
    }
}

impl<T> PairMap<T> {
    pub fn new() -> (r: Self)
        ensures
            r@ == Map::<(Seq<char>, Seq<char>), T>::empty(),
    {
        let r = PairMap { rows: OrdMap::new() };
        assert(r@ =~= Map::<(Seq<char>, Seq<char>), T>::empty());
        r
    }

    pub fn get(&self, a: &str, b: &str) -> (r: Option<&T>)
        ensures
            match r {
                Some(v) => self@.contains_key((a@, b@)) && *v == self@[(a@, b@)],
                None => !self@.contains_key((a@, b@)),
            },
    {
        match self.rows.get(a) {
            Some(row) => row.get(b),
            None => None,
        }
    }

    /// Puts `v` under the pair, in place of what was there.
    pub fn insert(&mut self, a: &str, b: &str, v: T)
        ensures
            final(self)@ == old(self)@.insert((a@, b@), v),
    {
        let ghost m0 = self@;
        let mut row = match self.rows.remove(a) {
            Some(row) => row,
            None => OrdMap::new(),
        };
        row.insert(b.to_owned(), v);
        self.rows.insert(a.to_owned(), row);
        assert(self@ =~= m0.insert((a@, b@), v));
    }
}

/// A map from pairs of strings to lists, each list in the order its items came.
pub struct PairLists<T> {
    rows: OrdMap<ListMap<T>>,
}

impl<T> View for PairLists<T> {
    type V = Map<(Seq<char>, Seq<char>), Seq<T>>;

    closed spec fn view(&self) -> Map<(Seq<char>, Seq<char>), Seq<T>> {
        Map::new(
            |p: (Seq<char>, Seq<char>)| self.rows@.contains_key(p.0) && self.rows@[p.0]@.contains_key(p.1),
            |p: (Seq<char>, Seq<char>)| self.rows@[p.0]@[p.1],
        )
    }
}

impl<T> PairLists<T> {
    /// The first halves of the keys, in ascending order.
    pub closed spec fn firsts(self) -> Seq<Seq<char>> {
        self.rows.keys()
    }

    pub fn new() -> (r: Self)
        ensures
            r@ == Map::<(Seq<char>, Seq<char>), Seq<T>>::empty(),
    {
        let r = PairLists { rows: OrdMap::new() };
        assert(r@ =~= Map::<(Seq<char>, Seq<char>), Seq<T>>::empty());
        r
    }

    pub fn list(&self, a: &str, b: &str) -> (r: Option<&Vec<T>>)
        ensures
            match r {
                Some(v) => self@.contains_key((a@, b@)) && v@ == self@[(a@, b@)],
                None => !self@.contains_key((a@, b@)),
            },
    {
        match self.rows.get(a) {
            Some(row) => row.list(b),
            None => None,
        }
    }

    /// How many items the list under the pair holds.
    pub fn count(&self, a: &str, b: &str) -> (r: usize)
        ensures
            r == list_at(self@, (a@, b@)).len(),
    {
        match self.list(a, b) {
            Some(v) => v.len(),
            None => 0,
        }
    }

    /// How many first halves there are.
    pub fn len(&self) -> (r: usize)
        ensures
            r == self.firsts().len(),
            forall|p: (Seq<char>, Seq<char>)| #[trigger] self@.contains_key(p) ==> self.firsts().contains(p.0),
    {
        let n = self.rows.len();
        proof {
            assert forall|p: (Seq<char>, Seq<char>)| #[trigger] self@.contains_key(p) implies self.firsts().contains(p.0) by {
                assert(self.rows@.dom().contains(p.0));
            }
        }
        n
    }

    /// The lists whose first half is the `i`-th, by their second half.
    pub fn row_at(&self, i: usize) -> (r: &ListMap<T>)
        requires
            i < self.firsts().len(),
        ensures
            forall|b: Seq<char>| #[trigger] r@.contains_key(b) <==> self@.contains_key((self.firsts()[i as int], b)),
            forall|b: Seq<char>| #[trigger] r@.contains_key(b) ==> r@[b] == self@[(self.firsts()[i as int], b)],
    {
        self.rows.value_at(i)
    }

    /// Adds `item` at the end of the list under the pair.
    pub fn push(&mut self, a: &str, b: &str, item: T)
        ensures
            final(self)@ == old(self)@.insert((a@, b@), list_at(old(self)@, (a@, b@)).push(item)),
    {
        let ghost m0 = self@;
        let mut row = match self.rows.remove(a) {
            Some(row) => row,
            None => ListMap::new(),
        };
        row.push(b, item);
        self.rows.insert(a.to_owned(), row);
        assert(self@ =~= m0.insert((a@, b@), list_at(m0, (a@, b@)).push(item)));
    }
}

} // verus!
