use necropolis::accounts::Accounts;
use necropolis::directory::Directory;
use necropolis::ledger::{verify_chain, Entry, Row, SyncError};
use necropolis::records::{Artifact, Attestation, Kind, Record, Scroll};
use necropolis::secret::hash;

fn key(n: u32) -> String {
    format!("{n:064x}")
}

fn open_directory() -> Directory {
    let mut d = Directory::in_memory(true);
    d.set_require_account(false);
    d
}

fn content_hash(prev: &str, kind: &str, body: &str) -> String {
    hash(&format!("{prev}|{kind}|{body}"))
}

/// Appends an entry the way the durable ledger does, and folds it in.
fn append(d: &mut Directory, kind: Kind, body: &str, record: Record) -> Row {
    let prev = d.ledger.head_hash().to_string();
    let h = content_hash(&prev, kind.label(), body);
    let entry = Entry {
        seq: d.head_seq() + 1,
        kind: kind.label().to_string(),
        body: body.to_string(),
        prev_hash: prev,
        hash: h.clone(),
    };
    let row = Row { entry: entry.clone(), content_hash: h, record: record.clone() };
    d.commit(entry, record);
    row
}

fn artifact(author: &str, title: &str, ts: i64) -> Artifact {
    Artifact {
        id: hash(&format!("artifact|{author}|{title}|{ts}")),
        author: author.to_string(),
        kind: "Skill".to_string(),
        title: title.to_string(),
        description: "d".to_string(),
        created_ts: ts,
        signed: true,
        wire: format!("{{\"title\":\"{title}\"}}"),
    }
}

fn attestation(attester: &str, about: &str, reproduced: bool, ts: i64) -> Attestation {
    Attestation {
        artifact_id: about.to_string(),
        attester: attester.to_string(),
        reproduced,
        created_ts: ts,
        signed: true,
        wire: String::new(),
    }
}

fn scroll(author: &str, body: &str, refs: &[&str], sigils: &[&str], tome: Option<&str>, ts: i64) -> Scroll {
    Scroll {
        id: hash(&format!("scroll|{author}|{body}|{ts}")),
        author: author.to_string(),
        body: body.to_string(),
        refs: refs.iter().map(|s| s.to_string()).collect(),
        sigils: sigils.iter().map(|s| s.to_string()).collect(),
        tome: tome.map(|s| s.to_string()),
        created_ts: ts,
        signed: true,
        wire: String::new(),
    }
}

/// Publishes an artifact into a directory the way the server does.
fn seed(d: &mut Directory, rows: &mut Vec<Row>, author: &str, kind: &str, title: &str, ts: i64) -> Artifact {
    let a = Artifact { kind: kind.to_string(), ..artifact(author, title, ts) };
    rows.push(append(d, Kind::Artifact, &a.wire, Record::Artifact(a.clone())));
    a
}

fn rows_since(rows: &[Row], seq: i64) -> Vec<Row> {
    rows.iter().filter(|r| r.entry.seq > seq).cloned().collect()
}

#[test]
fn catalog_survives_restart_via_replay() {
    let k = key(1);
    let a = artifact(&k, "tool", 7);
    let mut d = Directory::in_memory(true);
    let row = append(&mut d, Kind::Artifact, &a.wire, Record::Artifact(a.clone()));
    // Reopen: the catalog is reconstructed purely from the ledger.
    let d2 = Directory::open(String::new(), Accounts::open(), vec![row], true).unwrap();
    assert_eq!(d2.catalog.artifacts.len(), 1);
    assert!(d2.catalog.artifacts.contains_key(&a.id));
    assert_eq!(d2.catalog.peers.get(&k).unwrap().reputation.published, 1);
}

#[test]
fn reproductions_and_scrolls_survive_restart_via_replay() {
    let (author, peer) = (key(1), key(2));
    let art = artifact(&author, "m", 1);
    let att = attestation(&peer, &art.id, true, 2);
    let s = scroll(&author, "shipped", &[&art.id], &[], None, 3);
    let mut d = Directory::in_memory(true);
    let rows = vec![
        append(&mut d, Kind::Artifact, "a", Record::Artifact(art.clone())),
        append(&mut d, Kind::Reproduction, "b", Record::Attestation(att)),
        append(&mut d, Kind::Scroll, "c", Record::Scroll(s.clone())),
    ];
    // Reopen: both derived indices rebuild purely from the ledger.
    let d2 = Directory::open(String::new(), Accounts::open(), rows, true).unwrap();
    assert_eq!(d2.catalog.reproductions.count(&art.id), 1);
    assert_eq!(d2.catalog.scrolls.len(), 1);
    assert_eq!(d2.catalog.scrolls[0].id, s.id);
    assert_eq!(d2.ledger_len(), 3);
}

#[test]
fn tampered_history_is_not_served() {
    let mut d = Directory::in_memory(true);
    let mut rows = vec![];
    seed(&mut d, &mut rows, &key(1), "Skill", "one", 1);
    seed(&mut d, &mut rows, &key(1), "Skill", "two", 2);
    rows[0].content_hash = "something else".to_string();
    let err = Directory::open(String::new(), Accounts::open(), rows, true).err().unwrap();
    assert_eq!(err, SyncError::Tampered { seq: 1 });
}

#[test]
fn federation_replicates_the_whole_catalog() {
    let k = key(1);
    let mut origin = Directory::in_memory(true);
    let mut rows = vec![];
    let a1 = seed(&mut origin, &mut rows, &k, "Skill", "weather-arb", 1);
    let a2 = seed(&mut origin, &mut rows, &k, "Plugin", "port-scan", 2);

    let mut replica = Directory::in_memory(true);
    let applied = replica.apply_remote(rows.clone()).unwrap();

    assert_eq!(applied, 2);
    assert_eq!(replica.catalog.artifacts.len(), 2);
    assert!(replica.catalog.artifacts.contains_key(&a1.id));
    assert!(replica.catalog.artifacts.contains_key(&a2.id));
    assert_eq!(replica.catalog.artifacts.get(&a1.id).unwrap().kind, "Skill");
    assert_eq!(replica.catalog.artifacts.get(&a2.id).unwrap().kind, "Plugin");
    // Reputation was re-derived on the replica, not trusted from the wire.
    assert_eq!(replica.catalog.peers.get(&k).unwrap().reputation.published, 2);
    // And the replica's own chain audit passes, head-for-head with origin.
    assert_eq!(verify_chain("", &rows).unwrap(), 2);
    assert_eq!(replica.ledger_len(), 2);
    assert_eq!(replica.ledger.head_hash(), origin.ledger.head_hash());
}

#[test]
fn federation_is_idempotent_and_incremental() {
    let k = key(1);
    let mut origin = Directory::in_memory(true);
    let mut rows = vec![];
    seed(&mut origin, &mut rows, &k, "Skill", "one", 1);

    let mut replica = Directory::in_memory(true);
    assert_eq!(replica.apply_remote(rows_since(&rows, 0)).unwrap(), 1);

    // Re-syncing from the replica's head pulls nothing and applies nothing.
    let since = replica.head_seq();
    assert_eq!(origin.ledger.since(since).len(), 0);
    assert_eq!(replica.apply_remote(rows_since(&rows, since)).unwrap(), 0);

    // Origin advances; an incremental sync applies only the new entry.
    seed(&mut origin, &mut rows, &k, "Signal", "two", 2);
    let since = replica.head_seq();
    assert_eq!(origin.ledger.since(since).len(), 1);
    assert_eq!(replica.apply_remote(rows_since(&rows, since)).unwrap(), 1);
    assert_eq!(replica.catalog.artifacts.len(), 2);
}

#[test]
fn federation_rejects_a_forked_stream() {
    let k = key(1);
    // Replica already has its own history.
    let mut replica = Directory::in_memory(true);
    let mut own = vec![];
    seed(&mut replica, &mut own, &k, "Skill", "local", 1);

    // A peer whose chain forked at the start.
    let mut fork = Directory::in_memory(true);
    let mut theirs = vec![];
    seed(&mut fork, &mut theirs, &k, "Skill", "theirs", 9);

    let before = replica.catalog.artifacts.len();
    let err = replica.apply_remote(theirs).unwrap_err();
    assert!(err.message().contains("does not chain"), "got: {}", err.message());
    assert_eq!(err.message(), "sync rejected: entry 1 does not chain onto our history (fork?)");
    assert_eq!(replica.catalog.artifacts.len(), before, "a rejected sync must not mutate state");
}

#[test]
fn federation_rejects_a_tampered_body_atomically() {
    let k = key(1);
    let mut origin = Directory::in_memory(true);
    let mut rows = vec![];
    seed(&mut origin, &mut rows, &k, "Skill", "good", 1);
    seed(&mut origin, &mut rows, &k, "Skill", "also-good", 2);

    // Corrupt the second entry's payload without fixing its hash.
    rows[1].entry.body = r#"{"id":"evil"}"#.into();
    rows[1].content_hash = content_hash(&rows[1].entry.prev_hash, &rows[1].entry.kind, &rows[1].entry.body);

    let mut replica = Directory::in_memory(true);
    let err = replica.apply_remote(rows).unwrap_err();
    assert_eq!(err, SyncError::Tampered { seq: 2 });
    assert_eq!(err.message(), "sync rejected: entry 2 hash mismatch (tampered payload)");
    // The first, valid entry was not applied either.
    assert_eq!(replica.catalog.artifacts.len(), 0, "a tampered batch is rejected whole");
    assert_eq!(replica.head_seq(), 0);
}

#[test]
fn broken_link_in_the_middle_is_a_fork() {
    let mut origin = Directory::in_memory(true);
    let mut rows = vec![];
    for (i, t) in ["a", "b", "c"].iter().enumerate() {
        seed(&mut origin, &mut rows, &key(1), "Skill", t, i as i64);
    }
    rows.remove(1);
    assert_eq!(verify_chain("", &rows).unwrap_err(), SyncError::Fork { seq: 3 });
    assert_eq!(verify_chain("elsewhere", &rows).unwrap_err(), SyncError::Fork { seq: 1 });
    assert_eq!(verify_chain("elsewhere", &vec![]).unwrap(), 0);
}

#[test]
fn ledger_since_is_exclusive() {
    let mut d = Directory::in_memory(true);
    let mut rows = vec![];
    assert_eq!(d.head_seq(), 0);
    assert_eq!(d.ledger.head_hash(), "");
    for i in 0..4 {
        seed(&mut d, &mut rows, &key(1), "Skill", &format!("t{i}"), i);
    }
    assert_eq!(d.ledger_len(), 4);
    assert_eq!(d.head_seq(), 4);
    let seqs: Vec<i64> = d.ledger.since(2).iter().map(|e| e.seq).collect();
    assert_eq!(seqs, vec![3, 4]);
    assert_eq!(d.ledger.since(-5).len(), 4);
}

#[test]
fn two_batches_are_one_history() {
    let mut origin = Directory::in_memory(true);
    let mut rows = vec![];
    for i in 0..5 {
        seed(&mut origin, &mut rows, &key(i), "Skill", &format!("t{i}"), i as i64);
    }
    let mut replica = Directory::in_memory(true);
    replica.apply_remote(rows[..2].to_vec()).unwrap();
    replica.apply_remote(rows[2..].to_vec()).unwrap();
    assert_eq!(replica.ledger.head_hash(), origin.ledger.head_hash());
    assert_eq!(replica.catalog.artifacts.len(), 5);
    assert_eq!(replica.catalog.peers.len(), 5);
}

#[test]
fn a_directory_in_memory_is_empty_and_gated_as_told() {
    for require_account in [true, false] {
        let d = Directory::in_memory(require_account);
        assert_eq!(d.require_account, require_account);
        assert_eq!(d.ledger_len(), 0);
        assert_eq!(d.catalog.artifacts.len(), 0);
        assert_eq!(d.accounts.account_id_for(&key(1)), None);
        assert_eq!(d.admit_artifact(&artifact(&key(1), "t", 1)).is_ok(), !require_account);
    }
}
