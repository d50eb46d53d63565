//! Who signed what: the keys behind collections of records.

use crate::ordmap::{ListMap, OrdMap, PairLists};
use crate::records::{Artifact, Attestation, Quest, Reply, Scroll, Str, TaskResult};
use vstd::prelude::*;

verus! {

/// A record that a key stands behind.
pub trait Signed {
    /// The key.
    spec fn by(&self) -> Str;

    fn signer(&self) -> (r: &str)
        ensures
            r@ == self.by(),
    ;
}

impl Signed for Artifact {
    open spec fn by(&self) -> Str {
        self.author@
    }

    fn signer(&self) -> (r: &str) {
        self.author.as_str()
    }
}

impl Signed for Scroll {
    open spec fn by(&self) -> Str {
        self.author@
    }

    fn signer(&self) -> (r: &str) {
        self.author.as_str()
    }
}

impl Signed for Reply {
    open spec fn by(&self) -> Str {
        self.author@
    }

    fn signer(&self) -> (r: &str) {
        self.author.as_str()
    }
}

impl Signed for Attestation {
    open spec fn by(&self) -> Str {
        self.attester@
    }

    fn signer(&self) -> (r: &str) {
        self.attester.as_str()
    }
}

impl Signed for Quest {
    open spec fn by(&self) -> Str {
        self.author@
    }

    fn signer(&self) -> (r: &str) {
        self.author.as_str()
    }
}

impl Signed for TaskResult {
    open spec fn by(&self) -> Str {
        self.worker@
    }

    fn signer(&self) -> (r: &str) {
        self.worker.as_str()
    }
}

/// One of the records is by `pubkey`.
pub open spec fn among<T: Signed>(list: Seq<T>, pubkey: Str) -> bool {
    exists|i: int| 0 <= i < list.len() && (#[trigger] list[i]).by() == pubkey
}

/// The record under `k` is by `pubkey`.
pub open spec fn stands_under<K, T: Signed>(m: Map<K, T>, k: K, pubkey: Str) -> bool {
    m.contains_key(k) && m[k].by() == pubkey
}

/// One of the records under `k` is by `pubkey`.
pub open spec fn listed_under<K, T: Signed>(m: Map<K, Seq<T>>, k: K, pubkey: Str) -> bool {
    m.contains_key(k) && among(m[k], pubkey)
}

/// One of the records is by `pubkey`.
pub open spec fn among_values<K, T: Signed>(m: Map<K, T>, pubkey: Str) -> bool {
    exists|k: K| #[trigger] stands_under(m, k, pubkey)
}

/// One of the lists has a record by `pubkey`.
pub open spec fn among_lists<K, T: Signed>(m: Map<K, Seq<T>>, pubkey: Str) -> bool {
    exists|k: K| #[trigger] listed_under(m, k, pubkey)
}

/// A set of keys.
pub type KeySet = OrdMap<()>;

/// Adds the keys behind a list of records.
pub fn add_signers<T: Signed>(out: &mut KeySet, list: &Vec<T>)
    ensures
        forall|pk: Str| #[trigger] final(out)@.contains_key(pk) <==> old(out)@.contains_key(pk) || among(list@, pk),
{
    let ghost before = out@;
    let mut i: usize = 0;
    while i < list.len()
        invariant
            0 <= i <= list.len(),
            forall|pk: Str|
                #[trigger] out@.contains_key(pk) <==> before.contains_key(pk) || exists|a: int|
                    0 <= a < i && (#[trigger] list@[a]).by() == pk,
        decreases list.len() - i,
    {
        let ghost mid = out@;
        out.insert(list[i].signer().to_owned(), ());
        proof {
            let w = list@[i as int].by();
            assert forall|pk: Str| #[trigger] out@.contains_key(pk) <==> before.contains_key(pk) || exists|a: int|
                0 <= a < i + 1 && (#[trigger] list@[a]).by() == pk by {
                assert(out@.contains_key(pk) <==> mid.contains_key(pk) || pk == w);
            }
        }
        i = i + 1;
    }
}

/// Adds the keys behind the records of a map.
pub fn add_value_signers<T: Signed>(out: &mut KeySet, m: &OrdMap<T>)
    ensures
        forall|pk: Str| #[trigger] final(out)@.contains_key(pk) <==> old(out)@.contains_key(pk) || among_values(m@, pk),
{
    let ghost before = out@;
    let ghost keys = m.keys();
    let n = m.len();
    let mut i: usize = 0;
    while i < n
        invariant
            0 <= i <= n,
            n == keys.len(),
            keys == m.keys(),
            forall|pk: Str|
                #[trigger] out@.contains_key(pk) <==> before.contains_key(pk) || exists|a: int|
                    0 <= a < i && stands_under(m@, #[trigger] keys[a], pk),
        decreases n - i,
    {
        let ghost mid = out@;
        let v = m.value_at(i);
        out.insert(v.signer().to_owned(), ());
        proof {
            let w = v.by();
            assert(stands_under(m@, keys[i as int], w));
            assert forall|pk: Str| #[trigger] out@.contains_key(pk) <==> before.contains_key(pk) || exists|a: int|
                0 <= a < i + 1 && stands_under(m@, #[trigger] keys[a], pk) by {
                assert(out@.contains_key(pk) <==> mid.contains_key(pk) || pk == w);
                if mid.contains_key(pk) || pk == w {
                } else if exists|a: int| 0 <= a < i + 1 && stands_under(m@, #[trigger] keys[a], pk) {
                    let a = choose|a: int| 0 <= a < i + 1 && stands_under(m@, #[trigger] keys[a], pk);
                    assert(a == i);
                }
            }
        }
        i = i + 1;
    }
    proof {
        assert forall|pk: Str| #[trigger] out@.contains_key(pk) <==> before.contains_key(pk) || among_values(m@, pk) by {
            if among_values(m@, pk) {
                let k = choose|k: Str| #[trigger] stands_under(m@, k, pk);
                assert(m@.dom().contains(k));
                let a = choose|a: int| 0 <= a < keys.len() && keys[a] == k;
                assert(stands_under(m@, keys[a], pk));
            }
        }
    }
}

/// Adds the keys behind the records of a map of lists.
pub fn add_list_signers<T: Signed>(out: &mut KeySet, m: &ListMap<T>)
    ensures
        forall|pk: Str| #[trigger] final(out)@.contains_key(pk) <==> old(out)@.contains_key(pk) || among_lists(m@, pk),
{
    let ghost before = out@;
    let ghost keys = m.keys();
    let n = m.len();
    let mut i: usize = 0;
    while i < n
        invariant
            0 <= i <= n,
            n == keys.len(),
            keys == m.keys(),
            forall|pk: Str|
                #[trigger] out@.contains_key(pk) <==> before.contains_key(pk) || exists|a: int|
                    0 <= a < i && listed_under(m@, #[trigger] keys[a], pk),
        decreases n - i,
    {
        let ghost mid = out@;
        add_signers(out, m.list_at_key(i));
        proof {
            let k = keys[i as int];
            assert forall|pk: Str| #[trigger] out@.contains_key(pk) <==> before.contains_key(pk) || exists|a: int|
                0 <= a < i + 1 && listed_under(m@, #[trigger] keys[a], pk) by {
                assert(out@.contains_key(pk) <==> mid.contains_key(pk) || listed_under(m@, k, pk));
                if listed_under(m@, k, pk) {
                    assert(listed_under(m@, keys[i as int], pk));
                }
            }
        }
        i = i + 1;
    }
    proof {
        assert forall|pk: Str| #[trigger] out@.contains_key(pk) <==> before.contains_key(pk) || among_lists(m@, pk) by {
            if among_lists(m@, pk) {
                let k = choose|k: Str| #[trigger] listed_under(m@, k, pk);
                assert(m@.dom().contains(k));
                let a = choose|a: int| 0 <= a < keys.len() && keys[a] == k;
                assert(listed_under(m@, keys[a], pk));
            }
        }
    }
}

/// Adds the keys behind the records of a map of lists by pairs.
pub fn add_pair_signers<T: Signed>(out: &mut KeySet, m: &PairLists<T>)
    ensures
        forall|pk: Str| #[trigger] final(out)@.contains_key(pk) <==> old(out)@.contains_key(pk) || among_lists(m@, pk),
{
    let ghost before = out@;
    let ghost firsts = m.firsts();
    let n = m.len();
    let mut i: usize = 0;
    while i < n
        invariant
            0 <= i <= n,
            n == firsts.len(),
            firsts == m.firsts(),
            forall|pk: Str| #[trigger]
                out@.contains_key(pk) ==> before.contains_key(pk) || among_lists(m@, pk),
            forall|pk: Str| before.contains_key(pk) ==> #[trigger] out@.contains_key(pk),
            forall|p: (Str, Str), pk: Str| #[trigger]
                listed_under(m@, p, pk) ==> out@.contains_key(pk) || forall|a: int| 0 <= a < i ==> #[trigger] firsts[a] != p.0,
        decreases n - i,
    {
        let ghost mid = out@;
        let row = m.row_at(i);
        let ghost first = firsts[i as int];
        add_list_signers(out, row);
        proof {
            assert forall|pk: Str| #[trigger] out@.contains_key(pk) implies before.contains_key(pk) || among_lists(m@, pk) by {
                if !mid.contains_key(pk) {
                    let b = choose|b: Str| #[trigger] listed_under(row@, b, pk);
                    assert(row@.contains_key(b));
                    assert(listed_under(m@, (first, b), pk));
                }
            }
            assert forall|pk: Str| before.contains_key(pk) implies #[trigger] out@.contains_key(pk) by {
                assert(mid.contains_key(pk));
            }
            assert forall|p: (Str, Str), pk: Str| #[trigger] listed_under(m@, p, pk) implies out@.contains_key(pk)
                || forall|a: int| 0 <= a < i + 1 ==> #[trigger] firsts[a] != p.0 by {
                if mid.contains_key(pk) {
                    assert(out@.contains_key(pk));
                } else if p.0 == first {
                    assert(p == (first, p.1));
                    assert(row@.contains_key(p.1));
                    assert(listed_under(row@, p.1, pk));
                }
            }
        }
        i = i + 1;
    }
    proof {
        assert forall|pk: Str| #[trigger] out@.contains_key(pk) <==> before.contains_key(pk) || among_lists(m@, pk) by {
            if among_lists(m@, pk) {
                let p = choose|p: (Str, Str)| #[trigger] listed_under(m@, p, pk);
                assert(m@.contains_key(p));
                let a = choose|a: int| 0 <= a < firsts.len() && firsts[a] == p.0;
                assert(firsts[a] == p.0);
            }
        }
    }
}

} // verus!
