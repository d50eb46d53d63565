//! The directory: the ledger, the catalog that it adds up to, and the humans behind it.

use crate::accounts::{empty_registry, Accounts, Registry};
use crate::catalog::{empty_catalog, Catalog, CatalogModel};
use crate::ledger::{chain_fault, entries_of, verify_chain, Entry, Ledger, LedgerModel, Row, SyncError};
use crate::records::Record;
use vstd::prelude::*;

verus! {

/// The directory.
pub struct Directory {
    pub ledger: Ledger,
    pub accounts: Accounts,
    pub catalog: Catalog,
    /// Whether publishing asks for a verified human behind the author. Reads are always
    /// open.
    pub require_account: bool,
}

/// What a `Directory` holds.
#[verifier::ext_equal]
pub struct DirectoryModel {
    pub ledger: LedgerModel,
    pub accounts: Registry,
    pub catalog: CatalogModel,
    pub require_account: bool,
}

impl View for Directory {
    type V = DirectoryModel;

    open spec fn view(&self) -> DirectoryModel {
        DirectoryModel {
            ledger: self.ledger@,
            accounts: self.accounts@,
            catalog: self.catalog@,
            require_account: self.require_account,
        }
    }
}

/// The catalog after some more ledger entries.
pub open spec fn replay(catalog: CatalogModel, reg: Registry, rows: Seq<Row>) -> CatalogModel
    decreases rows.len(),
{
    if rows.len() == 0 {
        catalog
    } else {
        let row = rows.last();
        replay(catalog, reg, rows.drop_last()).step(reg, row.entry.kind@, row.entry.body@, row.record)
    }
}

impl DirectoryModel {
    /// The directory with the rows appended and folded in.
    pub open spec fn extended(self, rows: Seq<Row>) -> DirectoryModel {
        DirectoryModel {
            ledger: self.ledger.extended(rows),
            catalog: replay(self.catalog, self.accounts, rows),
            ..self
        }
    }
}

impl Directory {
    /// A directory of the stored rows, oldest first. The chain is checked before
    /// anything is served: a tampered history is refused. The catalog is rebuilt from the
    /// rows alone.
    pub fn open(root: String, accounts: Accounts, rows: Vec<Row>, require_account: bool) -> (r: Result<Self, SyncError>)
        ensures
            match r {
                Ok(d) => chain_fault(root@, rows@) is None && d@ == (DirectoryModel {
                    ledger: LedgerModel { root: root@, entries: entries_of(rows@) },
                    accounts: accounts@,
                    catalog: replay(empty_catalog(), accounts@, rows@),
                    require_account,
                }),
                Err(e) => chain_fault(root@, rows@) == Some(e),
            },
    {
        let mut d = Directory { ledger: Ledger::new(root), accounts, catalog: Catalog::new(), require_account };
        let ghost fresh = d@;
        match verify_chain(d.ledger.head_hash(), &rows) {
            Ok(_) => {
                d.fold_in(rows);
                assert(fresh.ledger.entries + entries_of(rows@) =~= entries_of(rows@));
                Ok(d)
            },
            Err(e) => Err(e),
        }
    }

    fn fold_in(&mut self, rows: Vec<Row>)
        ensures
            final(self)@ == old(self)@.extended(rows@),
    {
        let ghost before = self@;
        let ghost all = rows@;
        assert(before.extended(all.take(0)) =~= before) by {
            assert(entries_of(all.take(0)) =~= Seq::empty());
            assert(before.ledger.entries + Seq::empty() =~= before.ledger.entries);
        }
        for row in it: rows
            invariant
                it.seq() == all,
                self@ == before.extended(all.take(it.index())),
        {
            let ghost i = it.index();
            self.commit(row.entry, row.record);
            proof {
                assert(all.take(i + 1).drop_last() =~= all.take(i));
                assert(all.take(i + 1).last() == row);
                assert(before.ledger.entries + entries_of(all.take(i + 1)) =~= (before.ledger.entries + entries_of(
                    all.take(i),
                )).push(row.entry));
            }
        }
        assert(all.take(all.len() as int) =~= all);
    }

    /// Records an entry that the durable ledger took, and folds it into the catalog.
    pub fn commit(&mut self, entry: Entry, record: Record)
        ensures
            final(self)@ == (DirectoryModel {
                ledger: old(self)@.ledger.appended(entry),
                catalog: old(self)@.catalog.step(old(self)@.accounts, entry.kind@, entry.body@, record),
                ..old(self)@
            }),
    {
        self.catalog.apply(&self.accounts, entry.kind.as_str(), entry.body.as_str(), record);
        self.ledger.entries.push(entry);
    }

    /// Folds a batch of a peer's entries in, trusting none of it. The whole batch has to
    /// chain onto our own head, link by link, and every entry has to be what its hash
    /// says. A forked or tampered batch is refused whole, before anything is written.
    /// Says how many entries were applied.
    pub fn apply_remote(&mut self, rows: Vec<Row>) -> (r: Result<usize, SyncError>)
        ensures
            match r {
                Ok(n) => {
                    &&& chain_fault(old(self)@.ledger.head_hash(), rows@) is None
                    &&& n == rows@.len()
                    &&& final(self)@ == old(self)@.extended(rows@)
                },
                Err(e) => chain_fault(old(self)@.ledger.head_hash(), rows@) == Some(e) && final(self)@ == old(self)@,
            },
    {
        match verify_chain(self.ledger.head_hash(), &rows) {
            Ok(n) => {
                self.fold_in(rows);
                Ok(n)
            },
            Err(e) => Err(e),
        }
    }

    /// A directory with an empty ledger and no accounts. `require_account` says whether
    /// publishing asks for a verified human account.
    pub fn in_memory(require_account: bool) -> (r: Self)
        ensures
            r@.ledger == (LedgerModel { root: Seq::empty(), entries: Seq::empty() }),
            r@.catalog == empty_catalog(),
            r@.accounts == empty_registry(),
            r@.require_account == require_account,
    {
        Directory {
            ledger: Ledger::new(String::new()),
            accounts: Accounts::open(),
            catalog: Catalog::new(),
            require_account,
        }
    }

    /// Says whether publishing asks for a verified human account.
    pub fn set_require_account(&mut self, v: bool)
        ensures
            final(self)@ == (DirectoryModel { require_account: v, ..old(self)@ }),
    {
        self.require_account = v;
    }

    /// How many entries the ledger has.
    pub fn ledger_len(&self) -> (r: usize)
        ensures
            r == self@.ledger.entries.len(),
    {
        self.ledger.entries.len()
    }

    /// The sequence number of the newest entry: what a replica hands a peer to pull only
    /// what it misses.
    pub fn head_seq(&self) -> (r: i64)
        ensures
            r == self@.ledger.head_seq(),
    {
        self.ledger.head_seq()
    }

    /// The accountability unit of a key: its verified account, else the key itself.
    /// Votes and credits are counted per unit, so that many keys behind one human count
    /// once.
    pub fn acct(&self, pubkey: &str) -> (r: String)
        ensures
            r@ == self@.accounts.unit_of(pubkey@),
    {
        self.accounts.unit_for(pubkey)
    }

    /// The display name of a key, and whether it was claimed: the claimed handle, else
    /// the key's lore name, which the caller hands in.
    pub fn name_for(&self, pubkey: &str, lore: String) -> (r: (String, bool))
        ensures
            r.1 == self@.catalog.name_of.contains_key(pubkey@),
            r.0@ == if r.1 {
                self@.catalog.name_of[pubkey@]
            } else {
                lore@
            },
    {
        match self.catalog.name_of.get(pubkey) {
            Some(n) => (n.clone(), true),
            None => (lore, false),
        }
    }
}

} // verus!
