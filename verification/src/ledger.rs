//! The append-only ledger, each entry linked to the hash of the one before.

use crate::records::{Record, Str};
use crate::seqs::{lemma_filter_none, lemma_filter_step};
use crate::text::{decimal, decimal_of, same};
use vstd::prelude::*;

verus! {

/// A ledger entry.
#[derive(Debug, Clone)]
pub struct Entry {
    pub seq: i64,
    pub kind: String,
    pub body: String,
    pub prev_hash: String,
    pub hash: String,
}

/// A ledger entry as it was read: with the hash that its link, kind and body really
/// have, and with the record that its body holds.
#[derive(Debug, Clone)]
pub struct Row {
    pub entry: Entry,
    pub content_hash: String,
    pub record: Record,
}

/// The ledger.
pub struct Ledger {
    /// What the first entry links to.
    pub root: String,
    pub entries: Vec<Entry>,
}

/// What a `Ledger` holds.
#[verifier::ext_equal]
pub struct LedgerModel {
    pub root: Str,
    pub entries: Seq<Entry>,
}

impl View for Ledger {
    type V = LedgerModel;

    open spec fn view(&self) -> LedgerModel {
        LedgerModel { root: self.root@, entries: self.entries@ }
    }
}

impl LedgerModel {
    /// The hash that the next entry links to.
    pub open spec fn head_hash(self) -> Str {
        if self.entries.len() == 0 {
            self.root
        } else {
            self.entries.last().hash@
        }
    }

    /// The sequence number of the newest entry; 0 where there is none.
    pub open spec fn head_seq(self) -> i64 {
        if self.entries.len() == 0 {
            0
        } else {
            self.entries.last().seq
        }
    }

    /// The entries after `seq`.
    pub open spec fn since(self, seq: i64) -> Seq<Entry> {
        self.entries.filter(|e: Entry| e.seq > seq)
    }

    pub open spec fn appended(self, e: Entry) -> LedgerModel {
        LedgerModel { entries: self.entries.push(e), ..self }
    }

    pub open spec fn extended(self, rows: Seq<Row>) -> LedgerModel {
        LedgerModel { entries: self.entries + entries_of(rows), ..self }
    }

    /// Each entry links to the one before, the first to the root.
    pub open spec fn linked(self) -> bool {
        forall|i: int|
            0 <= i < self.entries.len() ==> (#[trigger] self.entries[i]).prev_hash@ == if i == 0 {
                self.root
            } else {
                self.entries[i - 1].hash@
            }
    }
}

/// The entries of some rows.
pub open spec fn entries_of(rows: Seq<Row>) -> Seq<Entry> {
    rows.map_values(|r: Row| r.entry)
}

/// Why a chain of entries is refused.
#[derive(Debug, Clone, Copy, PartialEq, Eq, Structural)]
pub enum SyncError {
    /// The entry does not link to what comes before it.
    Fork { seq: i64 },
    /// The entry is not what its hash says.
    Tampered { seq: i64 },
}

impl SyncError {
    /// The reason in words.
    pub open spec fn words(self) -> Str {
        match self {
            SyncError::Fork { seq } => "sync rejected: entry "@ + decimal(seq as int) + " does not chain onto our history (fork?)"@,
            SyncError::Tampered { seq } => "sync rejected: entry "@ + decimal(seq as int) + " hash mismatch (tampered payload)"@,
        }
    }

    /// The reason in words.
    pub fn message(&self) -> (r: String)
        ensures
            r@ == self.words(),
    {
        let mut s = "sync rejected: entry ".to_owned();
        match self {
            SyncError::Fork { seq } => {
                s.append(decimal_of(*seq).as_str());
                s.append(" does not chain onto our history (fork?)");
            },
            SyncError::Tampered { seq } => {
                s.append(decimal_of(*seq).as_str());
                s.append(" hash mismatch (tampered payload)");
            },
        }
        s
    }
}

/// What the `i`-th row has to link to, where the rows follow `head`.
pub open spec fn link_before(head: Str, rows: Seq<Row>, i: int) -> Str {
    if i == 0 {
        head
    } else {
        rows[i - 1].entry.hash@
    }
}

/// What is wrong with the `i`-th row.
pub open spec fn fault_at(head: Str, rows: Seq<Row>, i: int) -> Option<SyncError> {
    if rows[i].entry.prev_hash@ != link_before(head, rows, i) {
        Some(SyncError::Fork { seq: rows[i].entry.seq })
    } else if rows[i].content_hash@ != rows[i].entry.hash@ {
        Some(SyncError::Tampered { seq: rows[i].entry.seq })
    } else {
        None
    }
}

/// What is wrong with the first bad row from `i` on.
pub open spec fn fault_from(head: Str, rows: Seq<Row>, i: int) -> Option<SyncError>
    decreases rows.len() - i,
{
    if i >= rows.len() {
        None
    } else {
        match fault_at(head, rows, i) {
            Some(e) => Some(e),
            None => fault_from(head, rows, i + 1),
        }
    }
}

/// What is wrong with the first bad row: nothing where the rows form a chain onto `head`.
pub open spec fn chain_fault(head: Str, rows: Seq<Row>) -> Option<SyncError> {
    fault_from(head, rows, 0)
}

/// Rows without a fault link up, and are what their hashes say.
pub proof fn lemma_sound_chain(head: Str, rows: Seq<Row>, i: int)
    requires
        fault_from(head, rows, i) is None,
        0 <= i,
    ensures
        forall|j: int| i <= j < rows.len() ==> (#[trigger] rows[j]).entry.prev_hash@ == link_before(head, rows, j)
            && rows[j].content_hash@ == rows[j].entry.hash@,
    decreases rows.len() - i,
{
    if i < rows.len() {
        lemma_sound_chain(head, rows, i + 1);
    }
}

/// A batch that chains onto a linked ledger leaves it linked.
pub proof fn lemma_extension_linked(l: LedgerModel, rows: Seq<Row>)
    requires
        l.linked(),
        chain_fault(l.head_hash(), rows) is None,
    ensures
        l.extended(rows).linked(),
{
    lemma_sound_chain(l.head_hash(), rows, 0);
    let n = l.entries.len() as int;
    let all = l.extended(rows);
    assert forall|i: int| 0 <= i < all.entries.len() implies (#[trigger] all.entries[i]).prev_hash@ == if i == 0 {
        all.root
    } else {
        all.entries[i - 1].hash@
    } by {
        if i < n {
            assert(all.entries[i] == l.entries[i]);
            if i > 0 {
                assert(all.entries[i - 1] == l.entries[i - 1]);
            }
        } else {
            assert(all.entries[i] == rows[i - n].entry);
            if i > n {
                assert(all.entries[i - 1] == rows[i - n - 1].entry);
            } else if n > 0 {
                assert(all.entries[i - 1] == l.entries.last());
            }
        }
    }
}

/// Checks that every row links to the one before, the first to `head`, and is what its
/// hash says.
pub fn verify_chain(head: &str, rows: &Vec<Row>) -> (r: Result<usize, SyncError>)
    ensures
        match r {
            Ok(n) => chain_fault(head@, rows@) is None && n == rows.len(),
            Err(e) => chain_fault(head@, rows@) == Some(e),
        },
{
    let mut i: usize = 0;
    while i < rows.len()
        invariant
            0 <= i <= rows.len(),
            chain_fault(head@, rows@) == fault_from(head@, rows@, i as int),
        decreases rows.len() - i,
    {
        let linked = if i == 0 {
            same(rows[i].entry.prev_hash.as_str(), head)
        } else {
            same(rows[i].entry.prev_hash.as_str(), rows[i - 1].entry.hash.as_str())
        };
        if !linked {
            return Err(SyncError::Fork { seq: rows[i].entry.seq });
        }
        if !same(rows[i].content_hash.as_str(), rows[i].entry.hash.as_str()) {
            return Err(SyncError::Tampered { seq: rows[i].entry.seq });
        }
        i = i + 1;
    }
    Ok(rows.len())
}

impl Ledger {
    /// A ledger without entries.
    pub fn new(root: String) -> (r: Self)
        ensures
            r@ == (LedgerModel { root: root@, entries: Seq::empty() }),
    {
        Ledger { root, entries: Vec::new() }
    }

    /// The hash that the next entry links to.
    pub fn head_hash(&self) -> (r: &str)
        ensures
            r@ == self@.head_hash(),
    {
        let n = self.entries.len();
        if n == 0 {
            self.root.as_str()
        } else {
            self.entries[n - 1].hash.as_str()
        }
    }

    /// The sequence number of the newest entry; 0 where there is none.
    pub fn head_seq(&self) -> (r: i64)
        ensures
            r == self@.head_seq(),
    {
        let n = self.entries.len();
        if n == 0 {
            0
        } else {
            self.entries[n - 1].seq
        }
    }

    /// The entries after `seq`, oldest first.
    pub fn since(&self, seq: i64) -> (r: Vec<&Entry>)
        ensures
            r@.unref() == self@.since(seq),
    {
        let ghost p = |e: Entry| e.seq > seq;
        let ghost m = self.entries@;
        let mut out: Vec<&Entry> = Vec::new();
        let mut i: usize = 0;
        proof {
            lemma_filter_none(m, p);
            assert(out@.unref() =~= m.take(0).filter(p));
        }
        while i < self.entries.len()
            invariant
                0 <= i <= self.entries.len(),
                m == self.entries@,
                p == (|e: Entry| e.seq > seq),
                out@.unref() == m.take(i as int).filter(p),
            decreases self.entries.len() - i,
        {
            proof {
                lemma_filter_step(m, p, i as int);
            }
            if self.entries[i].seq > seq {
                let ghost prev = out@;
                out.push(&self.entries[i]);
                assert(out@.unref() =~= prev.unref().push(m[i as int]));
            }
            i = i + 1;
        }
        assert(m.take(i as int) =~= m);
        out
    }
}

} // verus!
