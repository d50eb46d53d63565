use necropolis::directory::Directory;
use necropolis::events::{EventQuery, Notice};
use necropolis::ledger::{Entry, Row};
use necropolis::records::{Artifact, Attestation, Handle, Kind, Record, Reply, Scroll, Vote};
use necropolis::secret::hash;

fn key(n: u32) -> String {
    format!("{n:064x}")
}

fn open_directory() -> Directory {
    let mut d = Directory::in_memory(true);
    d.set_require_account(false);
    d
}

fn content_hash(prev: &str, kind: &str, body: &str) -> String {
    hash(&format!("{prev}|{kind}|{body}"))
}

/// Appends an entry the way the durable ledger does, and folds it in.
fn append(d: &mut Directory, kind: Kind, body: &str, record: Record) -> Row {
    let prev = d.ledger.head_hash().to_string();
    let h = content_hash(&prev, kind.label(), body);
    let entry = Entry {
        seq: d.head_seq() + 1,
        kind: kind.label().to_string(),
        body: body.to_string(),
        prev_hash: prev,
        hash: h.clone(),
    };
    let row = Row { entry: entry.clone(), content_hash: h, record: record.clone() };
    d.commit(entry, record);
    row
}

fn artifact(author: &str, title: &str, ts: i64) -> Artifact {
    Artifact {
        id: hash(&format!("artifact|{author}|{title}|{ts}")),
        author: author.to_string(),
        kind: "Skill".to_string(),
        title: title.to_string(),
        description: "d".to_string(),
        created_ts: ts,
        signed: true,
        wire: format!("{{\"title\":\"{title}\"}}"),
    }
}

fn attestation(attester: &str, about: &str, reproduced: bool, ts: i64) -> Attestation {
    Attestation {
        artifact_id: about.to_string(),
        attester: attester.to_string(),
        reproduced,
        created_ts: ts,
        signed: true,
        wire: String::new(),
    }
}

fn scroll(author: &str, body: &str, refs: &[&str], sigils: &[&str], tome: Option<&str>, ts: i64) -> Scroll {
    Scroll {
        id: hash(&format!("scroll|{author}|{body}|{ts}")),
        author: author.to_string(),
        body: body.to_string(),
        refs: refs.iter().map(|s| s.to_string()).collect(),
        sigils: sigils.iter().map(|s| s.to_string()).collect(),
        tome: tome.map(|s| s.to_string()),
        created_ts: ts,
        signed: true,
        wire: String::new(),
    }
}

fn reply(author: &str, parent: &str, body: &str, ts: i64) -> Reply {
    Reply {
        id: hash(&format!("reply|{author}|{parent}|{body}|{ts}")),
        parent: parent.to_string(),
        author: author.to_string(),
        body: body.to_string(),
        created_ts: ts,
        signed: true,
        wire: String::new(),
    }
}

fn vote(voter: &str, target: &str, value: i8, ts: i64) -> Vote {
    Vote {
        id: hash(&format!("vote|{voter}|{target}|{value}|{ts}")),
        target: target.to_string(),
        voter: voter.to_string(),
        value,
        created_ts: ts,
        signed: true,
    }
}

fn seed_scroll(d: &mut Directory, rows: &mut Vec<Row>, k: &str, body: &str, sigils: &[&str], tome: Option<&str>, ts: i64) -> Scroll {
    let s = scroll(k, body, &[], sigils, tome, ts);
    rows.push(append(d, Kind::Scroll, &s.id.clone(), Record::Scroll(s.clone())));
    s
}

fn seed_reply(d: &mut Directory, rows: &mut Vec<Row>, k: &str, parent: &str, body: &str, ts: i64) {
    let r = reply(k, parent, body, ts);
    rows.push(append(d, Kind::Reply, &r.id.clone(), Record::Reply(r)));
}

fn kind_name(n: &Notice) -> &'static str {
    match n {
        Notice::Scroll { .. } => "scroll",
        Notice::Reply { .. } => "reply",
        Notice::Vote { .. } => "vote",
        Notice::Handle { .. } => "handle",
        Notice::Artifact { .. } => "artifact",
        Notice::Reproduction { .. } => "reproduction",
    }
}

fn kinds(d: &Directory, rows: &Vec<Row>, cursor: i64, q: &EventQuery) -> Vec<&'static str> {
    d.events_since(rows, cursor, q).iter().map(|(_, n)| kind_name(n)).collect()
}

#[test]
fn thread_energy_settles_after_bounded_replies() {
    let mut d = Directory::in_memory(true);
    let mut rows = vec![];
    let k = key(1);
    let s = seed_scroll(&mut d, &mut rows, &k, "claim", &[], None, 1);
    assert!(!d.thread_settled(&s.id)); // 0 replies
    for i in 0..3 {
        seed_reply(&mut d, &mut rows, &k, &s.id, &format!("r{i}"), 10 + i);
    }
    assert!(!d.thread_settled(&s.id)); // 3 replies
    for i in 3..6 {
        seed_reply(&mut d, &mut rows, &k, &s.id, &format!("r{i}"), 10 + i);
    }
    assert!(d.thread_settled(&s.id)); // 6 replies
    // The bound is the one of the geometric decay.
    for n in 0..40 {
        assert_eq!(0.6f64.powi(n) < 0.05, n >= 6);
    }
}

#[test]
fn events_suppress_settled_thread_replies() {
    let mut d = Directory::in_memory(true);
    let mut rows = vec![];
    let k = key(1);
    let s = seed_scroll(&mut d, &mut rows, &k, "claim", &[], None, 1);
    for i in 0..6 {
        seed_reply(&mut d, &mut rows, &k, &s.id, &format!("r{i}"), 10 + i);
    }
    // A fresh subscriber to this (now settled) thread gets the scroll event but none of
    // the reply pushes.
    let q = EventQuery { thread: Some(s.id.clone()), ..Default::default() };
    let kinds = kinds(&d, &rows, 0, &q);
    assert!(kinds.iter().any(|k| *k == "scroll"));
    assert!(!kinds.iter().any(|k| *k == "reply"), "settled thread must not push replies: {kinds:?}");
    // The replies stay there for those who look.
    assert_eq!(d.reply_count(&s.id), 6);
}

#[test]
fn events_facet_filter_matches_only_the_sigil() {
    let mut d = Directory::in_memory(true);
    let mut rows = vec![];
    let k = key(1);
    let s1 = seed_scroll(&mut d, &mut rows, &k, "perf win", &["latency"], Some("performance"), 1);
    let _s2 = seed_scroll(&mut d, &mut rows, &k, "safety win", &["safety"], Some("skills"), 2);
    let q = EventQuery { sigil: Some("latency".into()), ..Default::default() };
    let evs = d.events_since(&rows, 0, &q);
    assert_eq!(evs.len(), 1);
    match &evs[0].1 {
        Notice::Scroll { scroll, .. } => assert_eq!(scroll.id, s1.id),
        _ => panic!("not a scroll"),
    }
    let q = EventQuery { tome: Some("skills".into()), ..Default::default() };
    assert_eq!(d.events_since(&rows, 0, &q)[0].0, 2);
    let q = EventQuery { sigil: Some("latency".into()), tome: Some("skills".into()), ..Default::default() };
    assert_eq!(d.events_since(&rows, 0, &q).len(), 0);
}

#[test]
fn replies_follow_the_facets_of_their_scroll() {
    let mut d = Directory::in_memory(true);
    let mut rows = vec![];
    let k = key(1);
    let s = seed_scroll(&mut d, &mut rows, &k, "perf", &["latency"], None, 1);
    let o = seed_scroll(&mut d, &mut rows, &k, "other", &[], None, 2);
    seed_reply(&mut d, &mut rows, &k, &s.id, "a", 3);
    seed_reply(&mut d, &mut rows, &k, &o.id, "b", 4);
    seed_reply(&mut d, &mut rows, &k, "nowhere", "c", 5);
    let q = EventQuery { sigil: Some("latency".into()), ..Default::default() };
    assert_eq!(kinds(&d, &rows, 0, &q), vec!["scroll", "reply"]);
    let q = EventQuery { thread: Some(o.id.clone()), ..Default::default() };
    assert_eq!(kinds(&d, &rows, 0, &q), vec!["scroll", "reply"]);
    assert_eq!(kinds(&d, &rows, 0, &EventQuery::default()).len(), 5);
}

#[test]
fn every_sort_of_notice() {
    let mut d = Directory::in_memory(true);
    let k = key(1);
    let h = Handle { name: "N".into(), key: "n".into(), owner: k.clone(), created_ts: 1, signed: true };
    let mut rows = vec![
        append(&mut d, Kind::Artifact, "a", Record::Artifact(artifact(&k, "t", 1))),
        append(&mut d, Kind::Reproduction, "b", Record::Attestation(attestation(&k, "t", true, 2))),
        append(&mut d, Kind::Vote, "c", Record::Vote(vote(&k, "t", 1, 3))),
        append(&mut d, Kind::Handle, "d", Record::Handle(h)),
        append(&mut d, Kind::Attest, "e", Record::Unreadable),
        append(&mut d, Kind::Verify, "f", Record::Attestation(attestation(&k, "t", true, 2))),
        append(&mut d, Kind::Scroll, "g", Record::Unreadable),
    ];
    let all = EventQuery::default();
    assert_eq!(kinds(&d, &rows, 0, &all), vec!["artifact", "reproduction", "vote", "handle"]);
    // Only one kind.
    let q = EventQuery { kind: Some("vote".into()), ..Default::default() };
    assert_eq!(kinds(&d, &rows, 0, &q), vec!["vote"]);
    // A thread or a facet leaves them out.
    let q = EventQuery { thread: Some("t".into()), ..Default::default() };
    assert_eq!(kinds(&d, &rows, 0, &q).len(), 0);
    // From a cursor on, without loss.
    let first = d.events_since(&rows, 0, &all);
    let at = first[1].0;
    assert_eq!(kinds(&d, &rows, at, &all), vec!["vote", "handle"]);
    let s = seed_scroll(&mut d, &mut rows, &k, &"x".repeat(200), &[], None, 9);
    let evs = d.events_since(&rows, 4, &all);
    match &evs[0].1 {
        Notice::Scroll { seq, scroll, excerpt } => {
            assert_eq!(*seq, 8);
            assert_eq!(scroll.id, s.id);
            assert_eq!(*excerpt, "x".repeat(140));
        }
        _ => panic!("not a scroll"),
    }
}

#[test]
fn streams_resume_in_whatever_order_entries_come() {
    let mut d = Directory::in_memory(true);
    let k = key(1);
    let mut rows = vec![];
    for i in 1..=5 {
        rows.push(append(&mut d, Kind::Vote, &format!("v{i}"), Record::Vote(vote(&k, "t", 1, i))));
    }
    let all = EventQuery::default();
    let seqs = |rows: &Vec<Row>, cursor: i64| -> Vec<i64> {
        d.events_since(rows, cursor, &all).iter().map(|(seq, _)| *seq).collect()
    };
    assert_eq!(seqs(&rows, 0), vec![1, 2, 3, 4, 5]);
    assert_eq!(seqs(&rows, 2), vec![3, 4, 5]);
    assert_eq!(seqs(&rows, 5), Vec::<i64>::new());
    rows.swap(0, 3);
    assert_eq!(seqs(&rows, 1), vec![4, 2, 3, 5]);
    assert_eq!(seqs(&rows, 2), vec![4, 3, 5]);
}
