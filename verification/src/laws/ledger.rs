//! Laws of the ledger: replay, restart and replication.

use crate::accounts::Registry;
use crate::catalog::{empty_catalog, CatalogModel};
use crate::directory::{replay, DirectoryModel};
use crate::ledger::{
    chain_fault, entries_of, fault_at, fault_from, lemma_extension_linked, lemma_sound_chain, link_before, Entry, LedgerModel,
    Row, SyncError,
};
use crate::laws::lists::{lemma_filter_places, picked_in_order};
use crate::records::Str;
use vstd::prelude::*;

verus! {

/// A directory before its first entry.
pub open spec fn genesis(root: Str, accounts: Registry, require_account: bool) -> DirectoryModel {
    DirectoryModel {
        ledger: LedgerModel { root, entries: Seq::empty() },
        accounts,
        catalog: empty_catalog(),
        require_account,
    }
}

/// Replaying two batches one after the other is replaying them as one.
pub proof fn law_replay_composes(catalog: CatalogModel, reg: Registry, a: Seq<Row>, b: Seq<Row>)
    ensures
        replay(catalog, reg, a + b) == replay(replay(catalog, reg, a), reg, b),
    decreases b.len(),
{
    if b.len() == 0 {
        assert(a + b =~= a);
    } else {
        assert((a + b).drop_last() =~= a + b.drop_last());
        assert((a + b).last() == b.last());
        law_replay_composes(catalog, reg, a, b.drop_last());
    }
}

/// Folding in two batches is folding them in as one.
pub proof fn law_extension_composes(d: DirectoryModel, a: Seq<Row>, b: Seq<Row>)
    ensures
        d.extended(a).extended(b) == d.extended(a + b),
{
    law_replay_composes(d.catalog, d.accounts, a, b);
    assert(d.ledger.entries + entries_of(a) + entries_of(b) =~= d.ledger.entries + entries_of(a + b));
}

/// Recording one entry is folding in a batch of one.
pub proof fn law_commit_extends(d: DirectoryModel, row: Row)
    ensures
        d.extended(seq![row]) == (DirectoryModel {
            ledger: d.ledger.appended(row.entry),
            catalog: d.catalog.step(d.accounts, row.entry.kind@, row.entry.body@, row.record),
            ..d
        }),
{
    let s = seq![row];
    assert(s.drop_last() =~= Seq::<Row>::empty());
    assert(replay(d.catalog, d.accounts, s.drop_last()) == d.catalog);
    assert(d.ledger.entries + entries_of(s) =~= d.ledger.entries.push(row.entry));
}

/// The catalog survives a restart: a directory that grew by any two runs of entries is the
/// one that is opened from all of its entries, while the accounts are the same.
pub proof fn law_restart(root: Str, accounts: Registry, require_account: bool, a: Seq<Row>, b: Seq<Row>)
    ensures
        genesis(root, accounts, require_account).extended(a).extended(b) == (DirectoryModel {
            ledger: LedgerModel { root, entries: entries_of(a + b) },
            accounts,
            catalog: replay(empty_catalog(), accounts, a + b),
            require_account,
        }),
{
    let d = genesis(root, accounts, require_account);
    law_extension_composes(d, a, b);
    assert(d.ledger.entries + entries_of(a + b) =~= entries_of(a + b));
}

/// The sequence numbers ascend from above zero.
pub open spec fn ascending_seqs(rows: Seq<Row>) -> bool {
    &&& forall|i: int| 0 <= i < rows.len() ==> (#[trigger] rows[i]).entry.seq > 0
    &&& forall|i: int, j: int| 0 <= i < j < rows.len() ==> (#[trigger] rows[i]).entry.seq < (#[trigger] rows[j]).entry.seq
}

proof fn lemma_fault_shift(head: Str, rows: Seq<Row>, k: int, i: int)
    requires
        0 <= k <= i <= rows.len(),
        k > 0,
    ensures
        fault_from(rows[k - 1].entry.hash@, rows.skip(k), i - k) == fault_from(head, rows, i),
    decreases rows.len() - i,
{
    let t = rows.skip(k);
    let h = rows[k - 1].entry.hash@;
    if i < rows.len() {
        lemma_fault_shift(head, rows, k, i + 1);
        assert(t[i - k] == rows[i]);
        if i > k {
            assert(t[i - k - 1] == rows[i - 1]);
        }
        assert(link_before(h, t, i - k) == link_before(head, rows, i));
        assert(fault_at(h, t, i - k) == fault_at(head, rows, i));
    }
}

proof fn lemma_fault_tail(head: Str, rows: Seq<Row>, i: int, k: int)
    requires
        0 <= i <= k,
        fault_from(head, rows, i) is None,
    ensures
        fault_from(head, rows, k) is None,
    decreases k - i,
{
    if i < k {
        if i < rows.len() {
            lemma_fault_tail(head, rows, i + 1, k);
        }
    }
}

/// Federation without consensus: a replica that has the first `k` entries of a sound
/// history accepts the rest, which is what its peer holds past its head, and is then the
/// peer's equal, ledger and catalog.
pub proof fn law_replication(root: Str, accounts: Registry, require_account: bool, all: Seq<Row>, k: int)
    requires
        chain_fault(root, all) is None,
        ascending_seqs(all),
        0 <= k <= all.len(),
    ensures
        ({
            let start = genesis(root, accounts, require_account);
            let origin = start.extended(all);
            let replica = start.extended(all.take(k));
            &&& chain_fault(replica.ledger.head_hash(), all.skip(k)) is None
            &&& origin.ledger.since(replica.ledger.head_seq()) == entries_of(all.skip(k))
            &&& replica.extended(all.skip(k)) == origin
        }),
{
    let start = genesis(root, accounts, require_account);
    let origin = start.extended(all);
    let replica = start.extended(all.take(k));
    law_extension_composes(start, all.take(k), all.skip(k));
    assert(all.take(k) + all.skip(k) =~= all);
    assert(replica.ledger.entries =~= entries_of(all.take(k)));
    assert(origin.ledger.entries =~= entries_of(all));
    if k == 0 {
        assert(all.skip(0) =~= all);
    } else {
        assert(replica.ledger.entries.last() == all[k - 1].entry);
        lemma_fault_tail(root, all, 0, k);
        lemma_fault_shift(root, all, k, k);
    }
    let h = replica.ledger.head_seq();
    let p = |e: Entry| e.seq > h;
    let es = entries_of(all);
    assert forall|i: int| 0 <= i < es.len() implies (p(#[trigger] es[i]) <==> i >= k) by {
        assert(es[i] == all[i].entry);
        if k > 0 {
            assert(h == all[k - 1].entry.seq);
            assert(all[k - 1].entry.seq > 0);
        } else {
            assert(all[i].entry.seq > 0);
        }
    }
    lemma_filter_suffix(es, p, k);
    assert(es.skip(k) =~= entries_of(all.skip(k)));
}

proof fn lemma_filter_suffix<T>(s: Seq<T>, p: spec_fn(T) -> bool, k: int)
    requires
        0 <= k <= s.len(),
        forall|i: int| 0 <= i < s.len() ==> (p(#[trigger] s[i]) <==> i >= k),
    ensures
        s.filter(p) == s.skip(k),
    decreases s.len(),
{
    reveal(Seq::filter);
    if s.len() > 0 {
        let t = s.drop_last();
        assert forall|i: int| 0 <= i < t.len() implies (p(#[trigger] t[i]) <==> i >= k) by {
            assert(t[i] == s[i]);
        }
        if k < s.len() {
            lemma_filter_suffix(t, p, k);
            assert(p(s[s.len() - 1]));
            assert(t.skip(k).push(s.last()) =~= s.skip(k));
        } else {
            assert(!p(s[s.len() - 1]));
            lemma_filter_suffix(t, p, t.len() as int);
            assert(t.skip(t.len() as int) =~= s.skip(k));
        }
    } else {
        assert(s.filter(p) =~= s.skip(k));
    }
}

/// A replica that is current pulls nothing, and nothing changes.
pub proof fn law_resync_is_idle(root: Str, accounts: Registry, require_account: bool, all: Seq<Row>)
    requires
        chain_fault(root, all) is None,
        ascending_seqs(all),
    ensures
        ({
            let d = genesis(root, accounts, require_account).extended(all);
            &&& d.ledger.since(d.ledger.head_seq()) == Seq::<Entry>::empty()
            &&& d.extended(Seq::<Row>::empty()) == d
        }),
{
    let d = genesis(root, accounts, require_account).extended(all);
    law_replication(root, accounts, require_account, all, all.len() as int);
    assert(all.take(all.len() as int) =~= all);
    assert(entries_of(all.skip(all.len() as int)) =~= Seq::<Entry>::empty());
    assert(d.ledger.entries + entries_of(Seq::<Row>::empty()) =~= d.ledger.entries);
}

/// A history that opens is linked from its root, and every entry is what its hash says.
pub proof fn law_opened_history_is_linked(root: Str, rows: Seq<Row>)
    requires
        chain_fault(root, rows) is None,
    ensures
        (LedgerModel { root, entries: entries_of(rows) }).linked(),
        forall|i: int| 0 <= i < rows.len() ==> (#[trigger] rows[i]).content_hash@ == rows[i].entry.hash@,
{
    let l = LedgerModel { root, entries: Seq::empty() };
    lemma_extension_linked(l, rows);
    lemma_sound_chain(root, rows, 0);
    assert(l.entries + entries_of(rows) =~= entries_of(rows));
}

/// A batch that does not begin at our head is a fork, whatever follows.
pub proof fn law_fork_is_refused(head: Str, rows: Seq<Row>)
    requires
        rows.len() > 0,
        rows[0].entry.prev_hash@ != head,
    ensures
        chain_fault(head, rows) == Some(SyncError::Fork { seq: rows[0].entry.seq }),
{
}

/// One entry whose content is not what its hash says spoils the whole batch.
pub proof fn law_tampering_spoils_the_batch(head: Str, rows: Seq<Row>, i: int)
    requires
        0 <= i < rows.len(),
        rows[i].content_hash@ != rows[i].entry.hash@,
    ensures
        chain_fault(head, rows) is Some,
{
    if chain_fault(head, rows) is None {
        lemma_sound_chain(head, rows, 0);
        assert(rows[i].content_hash@ == rows[i].entry.hash@);
    }
}

/// The row links to what comes before it, and is what its hash says.
pub open spec fn good_row(head: Str, rows: Seq<Row>, i: int) -> bool {
    &&& rows[i].entry.prev_hash@ == if i == 0 {
        head
    } else {
        rows[i - 1].entry.hash@
    }
    &&& rows[i].content_hash@ == rows[i].entry.hash@
}

/// A batch is taken exactly where all of its rows are good. Else the first bad one is named:
/// as a fork where it does not link to what comes before it, else as tampered with.
pub proof fn law_first_fault_is_named(head: Str, rows: Seq<Row>)
    ensures
        chain_fault(head, rows) is None <==> forall|i: int| 0 <= i < rows.len() ==> #[trigger] good_row(head, rows, i),
        forall|i: int|
            0 <= i < rows.len() && !#[trigger] good_row(head, rows, i) && (forall|j: int|
                0 <= j < i ==> #[trigger] good_row(head, rows, j)) ==> chain_fault(head, rows) == Some(
                if rows[i].entry.prev_hash@ != (if i == 0 {
                    head
                } else {
                    rows[i - 1].entry.hash@
                }) {
                    SyncError::Fork { seq: rows[i].entry.seq }
                } else {
                    SyncError::Tampered { seq: rows[i].entry.seq }
                },
            ),
{
    lemma_first_fault(head, rows, 0);
}

proof fn lemma_first_fault(head: Str, rows: Seq<Row>, from: int)
    requires
        0 <= from <= rows.len(),
    ensures
        fault_from(head, rows, from) is None <==> forall|i: int| from <= i < rows.len() ==> #[trigger] good_row(head, rows, i),
        forall|i: int|
            from <= i < rows.len() && !#[trigger] good_row(head, rows, i) && (forall|j: int|
                from <= j < i ==> #[trigger] good_row(head, rows, j)) ==> fault_from(head, rows, from) == fault_at(head, rows, i)
                && fault_at(head, rows, i) is Some,
    decreases rows.len() - from,
{
    if from < rows.len() {
        lemma_first_fault(head, rows, from + 1);
        assert(good_row(head, rows, from) <==> fault_at(head, rows, from) is None);
        assert forall|i: int|
            from <= i < rows.len() && !#[trigger] good_row(head, rows, i) && (forall|j: int|
                from <= j < i ==> #[trigger] good_row(head, rows, j)) implies fault_from(head, rows, from) == fault_at(head, rows, i)
            && fault_at(head, rows, i) is Some by {
            if i > from {
                assert(good_row(head, rows, from));
            }
        }
    }
}

/// What a peer is handed are the entries above the number it names, all of them, in the
/// order of the ledger.
pub proof fn law_peers_are_handed_what_they_miss(l: LedgerModel, seq: i64) -> (at: Seq<int>)
    ensures
        picked_in_order(l.entries, l.since(seq), at),
        forall|i: int| 0 <= i < at.len() ==> l.entries[#[trigger] at[i]].seq > seq,
        forall|k: int| 0 <= k < l.entries.len() && (#[trigger] l.entries[k]).seq > seq ==> at.contains(k),
{
    let p = |e: Entry| e.seq > seq;
    let at = lemma_filter_places(l.entries, p);
    assert forall|i: int| 0 <= i < at.len() implies l.entries[#[trigger] at[i]].seq > seq by {
        assert(p(l.entries[at[i]]));
    }
    assert forall|k: int| 0 <= k < l.entries.len() && (#[trigger] l.entries[k]).seq > seq implies at.contains(k) by {
        assert(p(l.entries[k]));
    }
    at
}

/// The entry that came last is the head: the next one links to its hash, and its number is
/// what a replica asks from. An empty ledger links to its root and has the number 0.
pub proof fn law_the_last_entry_is_the_head(l: LedgerModel, e: Entry)
    ensures
        l.appended(e).head_hash() == e.hash@,
        l.appended(e).head_seq() == e.seq,
        l.appended(e).entries == l.entries.push(e),
        l.appended(e).root == l.root,
        (LedgerModel { root: l.root, entries: Seq::empty() }).head_hash() == l.root,
        (LedgerModel { root: l.root, entries: Seq::empty() }).head_seq() == 0,
{
}

} // verus!
