use necropolis::codex::FeedQuery;
use necropolis::directory::Directory;
use necropolis::ledger::{Entry, Row};
use necropolis::ordmap::OrdMap;
use necropolis::records::{Artifact, Boost, Kind, Record, Scroll, Vote};
use necropolis::secret::hash;

fn key(n: u32) -> String {
    format!("{n:064x}")
}

fn open_directory() -> Directory {
    let mut d = Directory::in_memory(true);
    d.set_require_account(false);
    d
}

fn content_hash(prev: &str, kind: &str, body: &str) -> String {
    hash(&format!("{prev}|{kind}|{body}"))
}

/// Appends an entry the way the durable ledger does, and folds it in.
fn append(d: &mut Directory, kind: Kind, body: &str, record: Record) -> Row {
    let prev = d.ledger.head_hash().to_string();
    let h = content_hash(&prev, kind.label(), body);
    let entry = Entry {
        seq: d.head_seq() + 1,
        kind: kind.label().to_string(),
        body: body.to_string(),
        prev_hash: prev,
        hash: h.clone(),
    };
    let row = Row { entry: entry.clone(), content_hash: h, record: record.clone() };
    d.commit(entry, record);
    row
}

fn artifact(author: &str, title: &str, ts: i64) -> Artifact {
    Artifact {
        id: hash(&format!("artifact|{author}|{title}|{ts}")),
        author: author.to_string(),
        kind: "Skill".to_string(),
        title: title.to_string(),
        description: "d".to_string(),
        created_ts: ts,
        signed: true,
        wire: format!("{{\"title\":\"{title}\"}}"),
    }
}

fn scroll(author: &str, body: &str, refs: &[&str], sigils: &[&str], tome: Option<&str>, ts: i64) -> Scroll {
    Scroll {
        id: hash(&format!("scroll|{author}|{body}|{ts}")),
        author: author.to_string(),
        body: body.to_string(),
        refs: refs.iter().map(|s| s.to_string()).collect(),
        sigils: sigils.iter().map(|s| s.to_string()).collect(),
        tome: tome.map(|s| s.to_string()),
        created_ts: ts,
        signed: true,
        wire: String::new(),
    }
}

fn vote(voter: &str, target: &str, value: i8, ts: i64) -> Vote {
    Vote {
        id: hash(&format!("vote|{voter}|{target}|{value}|{ts}")),
        target: target.to_string(),
        voter: voter.to_string(),
        value,
        created_ts: ts,
        signed: true,
    }
}

fn put(d: &mut Directory, s: &Scroll) {
    append(d, Kind::Scroll, &s.id.clone(), Record::Scroll(s.clone()));
}

fn any() -> FeedQuery {
    FeedQuery { author: None, artifact: None, sigil: None, tome: None, limit: None }
}

fn bodies(v: &[&Scroll]) -> Vec<String> {
    v.iter().map(|s| s.body.clone()).collect()
}

#[test]
fn feed_is_newest_first_and_filtered() {
    let mut d = open_directory();
    put(&mut d, &scroll(&key(1), "a", &["x"], &["fast"], None, 1));
    put(&mut d, &scroll(&key(2), "b", &[], &["fast", "safe"], Some("skills"), 2));
    put(&mut d, &scroll(&key(1), "c", &["x", "y"], &[], Some("skills"), 3));
    assert_eq!(bodies(&d.feed(&any())), vec!["c", "b", "a"]);
    assert_eq!(bodies(&d.feed(&FeedQuery { author: Some(key(1)), ..any() })), vec!["c", "a"]);
    assert_eq!(bodies(&d.feed(&FeedQuery { artifact: Some("y".into()), ..any() })), vec!["c"]);
    assert_eq!(bodies(&d.feed(&FeedQuery { sigil: Some("fast".into()), ..any() })), vec!["b", "a"]);
    assert_eq!(bodies(&d.feed(&FeedQuery { tome: Some("skills".into()), ..any() })), vec!["c", "b"]);
    assert_eq!(bodies(&d.feed(&FeedQuery { limit: Some(1), ..any() })), vec!["c"]);
    assert_eq!(d.feed(&FeedQuery { limit: Some(0), ..any() }).len(), 0);
}

#[test]
fn feed_has_limits() {
    let mut d = open_directory();
    for i in 0..210 {
        put(&mut d, &scroll(&key(1), &format!("s{i}"), &[], &[], None, i));
    }
    assert_eq!(d.feed(&any()).len(), 50);
    assert_eq!(d.feed(&any())[0].body, "s209");
    assert_eq!(d.feed(&FeedQuery { limit: Some(1000), ..any() }).len(), 200);
}

#[test]
fn search_counts_terms_then_weighs() {
    let mut d = open_directory();
    let one = scroll(&key(1), "Latency win", &[], &[], None, 1);
    let two = scroll(&key(1), "a LATENCY molt", &[], &["cache"], None, 2);
    let three = scroll(&key(2), "latency again", &[], &[], None, 3);
    let none = scroll(&key(1), "nothing here", &[], &[], None, 4);
    for s in [&one, &two, &three, &none] {
        put(&mut d, s);
    }
    let reps: OrdMap<i64> = OrdMap::new();
    // Two terms beat one; then the newest.
    assert_eq!(bodies(&d.search("  Cache LATENCY ", None, &reps).scrolls), vec![two.body.clone(), three.body.clone(), one.body.clone()]);
    // Votes weigh.
    append(&mut d, Kind::Vote, "v", Record::Vote(vote(&key(9), &one.id, 1, 5)));
    assert_eq!(d.search("latency", None, &reps).scrolls[0].body, one.body);
    // Boosts weigh more here.
    let b = Boost { booster: key(9), target: three.id.clone(), amount: 2, created_ts: 6, sig: "s".into(), signed: true };
    append(&mut d, Kind::Boost, "b", Record::Boost(b));
    assert_eq!(d.search("latency", None, &reps).scrolls[0].body, three.body);
    // And so does the author's reputation.
    let mut reps: OrdMap<i64> = OrdMap::new();
    reps.insert(key(1), 3);
    assert_eq!(bodies(&d.search("latency", Some(2), &reps).scrolls), vec![one.body.clone(), two.body.clone()]);
    // Without a word everything is found.
    assert_eq!(d.search(" ", None, &reps).scrolls.len(), 4);
    assert_eq!(d.search("absent", None, &reps).scrolls.len(), 0);
}

#[test]
fn search_looks_at_sigils_tome_and_author() {
    let mut d = open_directory();
    put(&mut d, &scroll(&key(0xbeef), "body", &[], &["alpha", "beta"], Some("Tome"), 1));
    let reps: OrdMap<i64> = OrdMap::new();
    for q in ["body", "alpha", "alpha beta", "tome", "beef", "ALPHA"] {
        assert_eq!(d.search(q, None, &reps).scrolls.len(), 1, "{q}");
    }
}

#[test]
fn search_finds_artifacts() {
    let mut d = open_directory();
    let mut a = artifact(&key(1), "Weather Arb", 1);
    a.id = "a".into();
    let mut b = artifact(&key(1), "weather", 2);
    b.id = "b".into();
    b.description = "arb and weather".into();
    b.kind = "Plugin".into();
    let mut c = artifact(&key(1), "other", 3);
    c.id = "c".into();
    for x in [&b, &c, &a] {
        append(&mut d, Kind::Artifact, &x.id, Record::Artifact(x.clone()));
    }
    let reps: OrdMap<i64> = OrdMap::new();
    let ids = |q: &str| d.search(q, None, &reps).artifacts.iter().map(|x| x.id.clone()).collect::<Vec<_>>();
    // Alike matches come newest first.
    assert_eq!(ids("weather arb"), vec!["b", "a"]);
    assert_eq!(ids("weather plugin"), vec!["b", "a"]);
    assert_eq!(ids("skill weather"), vec!["a", "c", "b"]);
    assert_eq!(ids(""), vec!["c", "b", "a"]);
    // The list by kind.
    assert_eq!(d.list(&Some("Plugin".into())).len(), 1);
    assert_eq!(d.list(&None).len(), 3);
}

#[test]
fn sigil_cloud_is_most_used_first() {
    let mut d = open_directory();
    put(&mut d, &scroll(&key(1), "a", &[], &["zeta", "beta"], Some("skills"), 1));
    put(&mut d, &scroll(&key(1), "b", &[], &["zeta", "alpha"], None, 2));
    put(&mut d, &scroll(&key(1), "c", &[], &[], Some("perf"), 3));
    put(&mut d, &scroll(&key(1), "d", &[], &[], Some("skills"), 4));
    let c = d.sigils();
    let sig: Vec<(String, u64)> = c.sigils.into_iter().map(|l| (l.label, l.count)).collect();
    assert_eq!(sig, vec![("zeta".into(), 2), ("alpha".into(), 1), ("beta".into(), 1)]);
    let tomes: Vec<(String, u64)> = c.tomes.into_iter().map(|l| (l.label, l.count)).collect();
    assert_eq!(tomes, vec![("skills".into(), 2), ("perf".into(), 1)]);
}

#[test]
fn rows_of_scrolls_have_sequence_numbers() {
    let mut d = open_directory();
    let s = scroll(&key(1), "a", &[], &[], None, 1);
    let r: Row = append(&mut d, Kind::Scroll, "x", Record::Scroll(s));
    assert_eq!(r.entry.seq, 1);
}
