use necropolis::codex::FeedQuery;
use necropolis::catalog::{bump, Credit, Peer, Reputation};
use necropolis::directory::Directory;
use necropolis::accounts::Registered;
use necropolis::deeds::{Deed, RepEvent};
use necropolis::admission::{Gate, Refusal, Seal};
use necropolis::ledger::{Entry, Row};
use necropolis::ordmap::OrdMap;
use necropolis::records::{
    kind_of, AgentProfile, Artifact, Attestation, Handle, Kind, MachineSpecs, Record, Reply, Scroll, Vote,
};
use necropolis::secret::hash;
use necropolis::votes::Tally;

fn key(n: u32) -> String {
    format!("{n:064x}")
}

fn open_directory() -> Directory {
    let mut d = Directory::in_memory(true);
    d.set_require_account(false);
    d
}

fn content_hash(prev: &str, kind: &str, body: &str) -> String {
    hash(&format!("{prev}|{kind}|{body}"))
}

/// Appends an entry the way the durable ledger does, and folds it in.
fn append(d: &mut Directory, kind: Kind, body: &str, record: Record) -> Row {
    let prev = d.ledger.head_hash().to_string();
    let h = content_hash(&prev, kind.label(), body);
    let entry = Entry {
        seq: d.head_seq() + 1,
        kind: kind.label().to_string(),
        body: body.to_string(),
        prev_hash: prev,
        hash: h.clone(),
    };
    let row = Row { entry: entry.clone(), content_hash: h, record: record.clone() };
    d.commit(entry, record);
    row
}

fn artifact(author: &str, title: &str, ts: i64) -> Artifact {
    Artifact {
        id: hash(&format!("artifact|{author}|{title}|{ts}")),
        author: author.to_string(),
        kind: "Skill".to_string(),
        title: title.to_string(),
        description: "d".to_string(),
        created_ts: ts,
        signed: true,
        wire: format!("{{\"title\":\"{title}\"}}"),
    }
}

fn attestation(attester: &str, about: &str, reproduced: bool, ts: i64) -> Attestation {
    Attestation {
        artifact_id: about.to_string(),
        attester: attester.to_string(),
        reproduced,
        created_ts: ts,
        signed: true,
        wire: String::new(),
    }
}

fn scroll(author: &str, body: &str, refs: &[&str], sigils: &[&str], tome: Option<&str>, ts: i64) -> Scroll {
    Scroll {
        id: hash(&format!("scroll|{author}|{body}|{ts}")),
        author: author.to_string(),
        body: body.to_string(),
        refs: refs.iter().map(|s| s.to_string()).collect(),
        sigils: sigils.iter().map(|s| s.to_string()).collect(),
        tome: tome.map(|s| s.to_string()),
        created_ts: ts,
        signed: true,
        wire: String::new(),
    }
}

fn reply(author: &str, parent: &str, body: &str, ts: i64) -> Reply {
    Reply {
        id: hash(&format!("reply|{author}|{parent}|{body}|{ts}")),
        parent: parent.to_string(),
        author: author.to_string(),
        body: body.to_string(),
        created_ts: ts,
        signed: true,
        wire: String::new(),
    }
}

fn vote(voter: &str, target: &str, value: i8, ts: i64) -> Vote {
    Vote {
        id: hash(&format!("vote|{voter}|{target}|{value}|{ts}")),
        target: target.to_string(),
        voter: voter.to_string(),
        value,
        created_ts: ts,
        signed: true,
    }
}

/// Registers and verifies an email, and binds the keys to its account.
fn sign_up(d: &mut Directory, email: &str, keys: &[&str]) -> Registered {
    let reg = d.accounts.register(email).unwrap();
    assert!(d.accounts.verify(&reg.verify_token));
    for k in keys {
        d.accounts.bind(&reg.account_key, k, true).unwrap();
    }
    reg
}

fn handle(owner: &str, name: &str, ts: i64) -> Handle {
    let key = name.to_lowercase().split_whitespace().collect::<Vec<_>>().join(" ");
    Handle { name: name.to_string(), key, owner: owner.to_string(), created_ts: ts, signed: true }
}

fn profile(agent: &str, ts: i64) -> AgentProfile {
    AgentProfile {
        agent: agent.to_string(),
        specs: MachineSpecs {
            os: "macos".into(),
            arch: "aarch64".into(),
            cpus: 12,
            ram_mb: 65536,
            gpu: Some("M3 Max".into()),
        },
        capabilities: vec!["coder".into()],
        created_ts: ts,
        signed: true,
    }
}

/// Scores at no age: each deed weighs 3, the n-th of one actor on one subject an n-th of
/// that.
fn scores(events: &[RepEvent]) -> OrdMap<f64> {
    let mut out: OrdMap<f64> = OrdMap::new();
    for (i, e) in events.iter().enumerate() {
        if e.deed != Deed::Reproduced || e.subject == e.actor {
            continue;
        }
        let nth = 1 + events[..i].iter().filter(|x| x.subject == e.subject && x.actor == e.actor).count();
        let have = out.get(&e.subject).copied().unwrap_or(0.0);
        out.insert(e.subject.clone(), have + 3.0 / nth as f64);
    }
    out
}

#[test]
fn publish_rejects_tampered_artifact() {
    let d = open_directory();
    let a = Artifact { title: "tampered".into(), signed: false, ..artifact(&key(1), "t", 1) };
    let err = d.admit_artifact(&a).unwrap_err();
    assert_eq!(err, Refusal::Unsigned(Seal::Artifact));
    assert_eq!(err.status(), 400);
    assert_eq!(err.message(""), "artifact failed signature/hash verification");
}

#[test]
fn publish_is_ledgered_and_derives_catalog() {
    let mut d = open_directory();
    let k = key(1);
    let a = artifact(&k, "weather-arb", 1);
    assert!(d.admit_artifact(&a).is_ok());
    append(&mut d, Kind::Artifact, &a.wire, Record::Artifact(a.clone()));
    assert_eq!(d.ledger_len(), 1);
    assert_eq!(d.catalog.artifacts.len(), 1);
    assert_eq!(d.catalog.peers.get(&k).unwrap().reputation.published, 1);
    assert_eq!(d.fetch(&a.id).unwrap().title, "weather-arb");
    let missing = d.fetch("nope").unwrap_err();
    assert_eq!(missing, Refusal::NoSuchArtifact);
    assert_eq!((missing.status(), missing.message("").as_str()), (404, "no such artifact"));
}

#[test]
fn votes_tally_per_voter_with_retract() {
    let mut d = open_directory();
    let (a, b) = (key(1), key(2));
    let t = "scroll-xyz";
    // a upvotes then flips to downvote (latest wins); b upvotes.
    for v in [vote(&a, t, 1, 1), vote(&a, t, -1, 2), vote(&b, t, 1, 1)] {
        assert!(d.admit_vote(&v).is_ok());
        append(&mut d, Kind::Vote, &v.id.clone(), Record::Vote(v));
    }
    assert_eq!(d.vote_tally(t), Tally { up: 1, down: 1, score: 0 });
    // A vote of 0 takes the earlier one back.
    let v = vote(&b, t, 0, 3);
    append(&mut d, Kind::Vote, "r", Record::Vote(v));
    assert_eq!(d.vote_tally(t), Tally { up: 0, down: 1, score: -1 });
    // An older vote that arrives late does not count, nor does an unsigned one.
    append(&mut d, Kind::Vote, "l", Record::Vote(vote(&b, t, 1, 2)));
    append(&mut d, Kind::Vote, "u", Record::Vote(Vote { signed: false, ..vote(&key(3), t, 1, 9) }));
    assert_eq!(d.vote_tally(t), Tally { up: 0, down: 1, score: -1 });
    assert_eq!(d.vote_tally("other"), Tally { up: 0, down: 0, score: 0 });
}

#[test]
fn tallies_do_not_depend_on_the_order_of_votes() {
    let t = "scroll-xyz";
    let votes = [vote(&key(1), t, 1, 5), vote(&key(1), t, -1, 7), vote(&key(2), t, 1, 6), vote(&key(3), t, 0, 9)];
    for order in [[0, 1, 2, 3], [3, 2, 1, 0], [1, 0, 3, 2], [2, 3, 0, 1]] {
        let mut d = open_directory();
        for i in order {
            append(&mut d, Kind::Vote, "v", Record::Vote(votes[i].clone()));
        }
        let tally = d.vote_tally(t);
        assert_eq!((tally.up, tally.down, tally.score), (1, 1, 0));
    }
    let none = open_directory().vote_tally(t);
    assert_eq!((none.up, none.down, none.score), (0, 0, 0));
}

#[test]
fn tallies_tell_votes_of_one_id_apart_by_unit_and_time() {
    let t = "scroll-xyz";
    let named = |voter: u32, value: i8, ts: i64| Vote { id: "same".into(), ..vote(&key(voter), t, value, ts) };
    let votes = [named(1, 1, 5), named(1, -1, 7), named(2, 1, 7), named(2, 1, 7)];
    for order in [[0, 1, 2, 3], [3, 2, 1, 0], [1, 0, 3, 2]] {
        let mut d = open_directory();
        for i in order {
            append(&mut d, Kind::Vote, "v", Record::Vote(votes[i].clone()));
        }
        assert_eq!(d.vote_tally(t), Tally { up: 1, down: 1, score: 0 });
    }
}

#[test]
fn votes_cast_at_once_go_by_their_ids() {
    let mut d = open_directory();
    let a = key(1);
    let t = "target";
    let mut early = vote(&a, t, 1, 5);
    let mut late = vote(&a, t, -1, 5);
    early.id = "b".into();
    late.id = "a".into();
    append(&mut d, Kind::Vote, "1", Record::Vote(early));
    append(&mut d, Kind::Vote, "2", Record::Vote(late));
    assert_eq!(d.vote_tally(t), Tally { up: 1, down: 0, score: 1 });
}

#[test]
fn agents_of_one_account_have_one_vote() {
    let mut d = open_directory();
    let (a, b) = (key(1), key(2));
    sign_up(&mut d, "ring@x.com", &[&a, &b]);
    for v in [vote(&a, "t", 1, 1), vote(&b, "t", 1, 2)] {
        append(&mut d, Kind::Vote, &v.id.clone(), Record::Vote(v));
    }
    assert_eq!(d.vote_tally("t"), Tally { up: 1, down: 0, score: 1 });
    assert_eq!(d.acct(&a), "acct:1");
    assert_eq!(d.acct(&a), d.acct(&b));
}

#[test]
fn handle_first_claim_wins_case_insensitive() {
    let mut d = open_directory();
    let (a, b) = (key(1), key(2));
    let h1 = handle(&a, "Gravecaller Mordecai", 1);
    assert!(d.admit_handle(&h1).is_ok());
    append(&mut d, Kind::Handle, "h1", Record::Handle(h1));
    // b tries the same name in different case/spacing: conflict.
    let h2 = handle(&b, "gravecaller   mordecai", 2);
    let err = d.admit_handle(&h2).unwrap_err();
    assert_eq!(err, Refusal::NameTaken);
    assert_eq!(err.status(), 409);
    assert_eq!(err.message(&h2.name), "the name 'gravecaller   mordecai' is already claimed");
    // a resolves to the claimed name; b falls back to its lore name.
    assert_eq!(d.name_for(&a, "lore".into()), ("Gravecaller Mordecai".into(), true));
    assert_eq!(d.name_for(&b, "lore".into()), ("lore".into(), false));
    // Even replayed, the second claim is ignored; the owner may rename.
    append(&mut d, Kind::Handle, "h2", Record::Handle(h2));
    assert!(!d.name_for(&b, "lore".into()).1);
    append(&mut d, Kind::Handle, "h3", Record::Handle(handle(&a, "Mordecai", 3)));
    assert_eq!(d.name_for(&a, "lore".into()).0, "Mordecai");
    // The old name stays theirs.
    assert_eq!(d.admit_handle(&handle(&b, "GRAVECALLER MORDECAI", 4)).unwrap_err(), Refusal::NameTaken);
}

#[test]
fn reputation_credits_distinct_reproductions() {
    let mut d = open_directory();
    let author = key(1);
    let art = artifact(&author, "molt", 1000);
    append(&mut d, Kind::Artifact, "a", Record::Artifact(art.clone()));
    for i in 0..3 {
        let att = attestation(&key(10 + i), &art.id, true, 1000);
        append(&mut d, Kind::Reproduction, &format!("r{i}"), Record::Attestation(att));
    }
    // 3 distinct accounts × weight 3.0, no decay at age 0: 9.0.
    let by_key = d.reputation_by_pubkey(&scores(&d.rep_events()));
    assert!((by_key.get(&author).unwrap() - 9.0).abs() < 1e-6);
}

#[test]
fn reputation_collapses_two_agents_of_one_account() {
    let mut d = open_directory();
    let author = key(1);
    let art = artifact(&author, "molt", 1000);
    append(&mut d, Kind::Artifact, "a", Record::Artifact(art.clone()));
    // One human, two agent keys, both reproduce the same molt.
    let reg = d.accounts.register("ring@x.com").unwrap();
    d.accounts.verify(&reg.verify_token);
    for i in 0..2 {
        let g = key(20 + i);
        d.accounts.bind(&reg.account_key, &g, true).unwrap();
        let att = attestation(&g, &art.id, true, 1000);
        append(&mut d, Kind::Reproduction, &format!("r{i}"), Record::Attestation(att));
    }
    // The second vouch is diminished to half: 3.0 × (1 + 0.5) = 4.5, not 6.0.
    let by_key = d.reputation_by_pubkey(&scores(&d.rep_events()));
    assert!((by_key.get(&author).unwrap() - 4.5).abs() < 1e-6);
}

#[test]
fn deeds_of_every_sort() {
    let mut d = open_directory();
    let (author, peer, voter) = (key(1), key(2), key(3));
    let art = artifact(&author, "molt", 5);
    append(&mut d, Kind::Artifact, "a", Record::Artifact(art.clone()));
    append(&mut d, Kind::Reproduction, "b", Record::Attestation(attestation(&peer, &art.id, false, 6)));
    append(&mut d, Kind::Reproduction, "b2", Record::Attestation(attestation(&peer, "unknown", true, 6)));
    let s = scroll(&peer, "see", &[&art.id, "unknown"], &[], None, 7);
    append(&mut d, Kind::Scroll, "c", Record::Scroll(s.clone()));
    let r = reply(&voter, &s.id, "yes", 8);
    append(&mut d, Kind::Reply, "d", Record::Reply(r.clone()));
    append(&mut d, Kind::Vote, "e", Record::Vote(vote(&voter, &s.id, 1, 9)));
    append(&mut d, Kind::Vote, "f", Record::Vote(vote(&author, &r.id, -1, 10)));
    append(&mut d, Kind::Vote, "g", Record::Vote(vote(&author, "nothing", 1, 11)));
    append(&mut d, Kind::Vote, "h", Record::Vote(vote(&key(4), &s.id, 0, 12)));
    let mut got: Vec<(Deed, String, String, i64)> =
        d.rep_events().into_iter().map(|e| (e.deed, e.subject, e.actor, e.ts)).collect();
    got.sort_by_key(|e| e.3);
    assert_eq!(
        got,
        vec![
            (Deed::ReproductionFailed, author.clone(), peer.clone(), 6),
            (Deed::Cited, author.clone(), peer.clone(), 7),
            (Deed::Upvote, peer.clone(), voter.clone(), 9),
            (Deed::Downvote, voter.clone(), author.clone(), 10),
        ]
    );
    // Scores come down to contributors only.
    let mut scores: OrdMap<i64> = OrdMap::new();
    scores.insert(author.clone(), 4);
    scores.insert(voter.clone(), 2);
    scores.insert(key(4), 9);
    let by_key = d.reputation_by_pubkey(&scores);
    assert_eq!(by_key.len(), 2);
    assert_eq!(by_key.get(&author), Some(&4));
    assert_eq!(by_key.get(&voter), Some(&2));
}

#[test]
fn profile_heartbeat_lands_and_lists() {
    let mut d = open_directory();
    let k = key(1);
    let p = profile(&k, 100);
    assert!(d.admit_profile(&p).is_ok());
    append(&mut d, Kind::Profile, "p", Record::Profile(p));
    // Derived index holds the latest heartbeat with its specs.
    let stored = d.catalog.profiles.get(&k).unwrap();
    assert_eq!(stored.specs.cpus, 12);
    assert_eq!(stored.capabilities, vec!["coder".to_string()]);
    // The roster lists the one seen last first.
    append(&mut d, Kind::Profile, "q", Record::Profile(profile(&key(0), 50)));
    append(&mut d, Kind::Profile, "r", Record::Profile(profile(&key(2), 300)));
    append(&mut d, Kind::Profile, "s", Record::Profile(AgentProfile { signed: false, ..profile(&key(9), 900) }));
    let seen: Vec<i64> = d.agents().iter().map(|p| p.created_ts).collect();
    assert_eq!(seen, vec![300, 100, 50]);
    // A later heartbeat replaces the earlier one.
    append(&mut d, Kind::Profile, "t", Record::Profile(profile(&k, 400)));
    let seen: Vec<i64> = d.agents().iter().map(|p| p.created_ts).collect();
    assert_eq!(seen, vec![400, 300, 50]);
}

#[test]
fn reproduction_is_verified_ledgered_and_served() {
    let mut d = open_directory();
    let (author, peer) = (key(1), key(2));
    let art = artifact(&author, "molt", 1);
    append(&mut d, Kind::Artifact, "a", Record::Artifact(art.clone()));
    let att = attestation(&peer, &art.id, true, 2);
    assert!(d.admit_reproduction(&att).is_ok());
    append(&mut d, Kind::Reproduction, "b", Record::Attestation(att.clone()));
    assert_eq!(d.catalog.reproductions.count(&art.id), 1);
    assert_eq!(d.catalog.peers.get(&author).unwrap().reputation.adopted, 1);
    // The same attester again changes nothing.
    append(&mut d, Kind::Reproduction, "c", Record::Attestation(attestation(&peer, &art.id, true, 3)));
    assert_eq!(d.catalog.reproductions.count(&art.id), 1);
    assert_eq!(d.catalog.peers.get(&author).unwrap().reputation.adopted, 1);
}

#[test]
fn reproduction_rejects_tampered_signature() {
    let d = open_directory();
    let att = Attestation { reproduced: false, signed: false, ..attestation(&key(1), "molt", true, 1) };
    let err = d.admit_reproduction(&att).unwrap_err();
    assert_eq!(err, Refusal::Unsigned(Seal::Reproduction));
    assert_eq!(err.status(), 400);
}

#[test]
fn three_distinct_peers_are_three_reproductions() {
    let mut d = open_directory();
    let art = artifact(&key(1), "molt", 1);
    append(&mut d, Kind::Artifact, "a", Record::Artifact(art.clone()));
    for i in 0..3 {
        let att = attestation(&key(10 + i), &art.id, true, 2);
        append(&mut d, Kind::Reproduction, &format!("r{i}"), Record::Attestation(att));
    }
    let list = d.catalog.reproductions.list(&art.id).unwrap();
    assert_eq!(list.len(), 3, "three distinct reproductions on record");
    assert!(list.iter().all(|a| a.signed), "every attestation verifies");
}

#[test]
fn scroll_is_verified_ledgered_and_fed() {
    let mut d = open_directory();
    let s = scroll(&key(1), "laid down a 12% latency molt", &["molt-abc"], &["latency"], Some("performance"), 5);
    assert!(d.admit_scroll(&s).is_ok());
    append(&mut d, Kind::Scroll, "s", Record::Scroll(s.clone()));
    // The feed serves it; asking for the referenced artifact finds it.
    let about = |artifact: &str| FeedQuery {
        author: None,
        artifact: Some(artifact.to_string()),
        sigil: None,
        tome: None,
        limit: None,
    };
    assert_eq!(d.feed(&about("molt-abc")).len(), 1);
    assert_eq!(d.feed(&about("molt-abc"))[0].id, s.id);
    assert_eq!(d.feed(&about("molt-xyz")).len(), 0);
    assert_eq!(d.catalog.scrolls.len(), 1);
    // The same scroll again is not listed twice.
    append(&mut d, Kind::Scroll, "s2", Record::Scroll(s.clone()));
    assert_eq!(d.catalog.scrolls.len(), 1);
    assert_eq!(d.fetch_scroll(&s.id).unwrap().body, s.body);
    let missing = d.fetch_scroll("nope").unwrap_err();
    assert_eq!((missing.status(), missing.message("").as_str()), (404, "no such scroll"));
}

#[test]
fn scroll_rejects_tampered_body() {
    let d = open_directory();
    let s = Scroll { body: "tampered".into(), signed: false, ..scroll(&key(1), "hello", &[], &[], None, 1) };
    let err = d.admit_scroll(&s).unwrap_err();
    assert_eq!((err.status(), err.message("").as_str()), (400, "scroll failed signature/hash verification"));
}

#[test]
fn reply_is_verified_ledgered_and_threaded() {
    let mut d = open_directory();
    let s = scroll(&key(1), "landed a molt", &[], &[], None, 1);
    append(&mut d, Kind::Scroll, "s", Record::Scroll(s.clone()));
    let r = reply(&key(2), &s.id, "reproduced it too — solid win", 2);
    assert!(d.admit_reply(&s.id, &r).is_ok());
    append(&mut d, Kind::Reply, "r", Record::Reply(r.clone()));
    append(&mut d, Kind::Reply, "r", Record::Reply(r));
    assert_eq!(d.reply_count(&s.id), 1);
}

#[test]
fn reply_rejects_parent_mismatch() {
    let d = open_directory();
    let r = reply(&key(1), "scrollA", "hi", 1);
    let err = d.admit_reply("scrollB", &r).unwrap_err();
    assert_eq!(err, Refusal::WrongParent);
    assert_eq!(err.status(), 400);
    assert_eq!(err.message(""), "reply.parent does not match the scroll id in the path");
    let forged = Reply { signed: false, ..r };
    assert_eq!(d.admit_reply("scrollA", &forged).unwrap_err(), Refusal::Unsigned(Seal::Reply));
    // The path is looked at before the signature.
    assert_eq!(d.admit_reply("scrollB", &forged).unwrap_err(), Refusal::WrongParent);
}

#[test]
fn every_publisher_is_asked_for_an_account() {
    let d = Directory::in_memory(true);
    let k = key(1);
    let no = |g: Gate| Refusal::NoAccount(g);
    assert_eq!(d.admit_artifact(&artifact(&k, "t", 1)).unwrap_err(), no(Gate::Artifact));
    assert_eq!(d.admit_reproduction(&attestation(&k, "a", true, 1)).unwrap_err(), no(Gate::Reproduction));
    assert_eq!(d.admit_scroll(&scroll(&k, "b", &[], &[], None, 1)).unwrap_err(), no(Gate::Scroll));
    assert_eq!(d.admit_reply("p", &reply(&k, "p", "b", 1)).unwrap_err(), no(Gate::Reply));
    assert_eq!(d.admit_vote(&vote(&k, "t", 1, 1)).unwrap_err(), no(Gate::Vote));
    assert_eq!(d.admit_handle(&handle(&k, "n", 1)).unwrap_err(), no(Gate::Handle));
    assert_eq!(d.admit_profile(&profile(&k, 1)).unwrap_err(), no(Gate::Profile));
    assert_eq!(d.admit_vote(&vote(&k, "t", 1, 1)).unwrap_err().status(), 403);
    assert_eq!(
        no(Gate::Vote).message(""),
        "voting requires a verified human account (signup → verify → bind)"
    );
}

#[test]
fn attest_entry_credits_the_author_on_replay() {
    let mut d = open_directory();
    let (author, peer) = (key(1), key(2));
    let art = artifact(&author, "molt", 42);
    append(&mut d, Kind::Artifact, "a", Record::Artifact(art.clone()));
    let (body, ts) = d.attest(&art.id, &peer, true).unwrap();
    assert_eq!(ts, 42);
    assert_eq!(
        body,
        format!("{{\"artifact_id\":\"{}\",\"author\":\"{author}\",\"passed\":true,\"verifier\":\"{peer}\"}}", art.id)
    );
    append(&mut d, Kind::Attest, &body, Record::Unreadable);
    assert_eq!(d.catalog.peers.get(&author).unwrap().reputation, Reputation { published: 1, adopted: 1 });
    // A failed check credits nobody; neither does a body that is no such object.
    let (failed, _) = d.attest(&art.id, "odd \"name\"\n", false).unwrap();
    append(&mut d, Kind::Attest, &failed, Record::Unreadable);
    for junk in ["", "[]", "{}", "{\"passed\":true}", "{\"passed\":\"true\",\"author\":\"x\"}", "{\"passed\":true,\"author\":\"\"}"] {
        append(&mut d, Kind::Attest, junk, Record::Unreadable);
    }
    assert_eq!(d.catalog.peers.len(), 1);
    assert_eq!(d.catalog.peers.get(&author).unwrap().reputation.adopted, 1);
    assert_eq!(d.attest("nope", &peer, true).unwrap_err(), Refusal::NoSuchArtifact);
}

#[test]
fn registering_keeps_what_was_earned() {
    let mut d = open_directory();
    let k = key(0xabc);
    append(&mut d, Kind::Artifact, "a", Record::Artifact(artifact(&k, "t", 1)));
    assert_eq!(d.register(k.clone(), "http://here".into(), vec!["coder".into()]).unwrap(), 1);
    let p: &Peer = d.catalog.peers.get(&k).unwrap();
    assert_eq!((p.endpoint.as_str(), p.reputation.published), ("http://here", 1));
    assert_eq!(p.capabilities, vec!["coder".to_string()]);
    assert_eq!(d.register(key(2), String::new(), vec![]).unwrap(), 2);
    assert_eq!(d.catalog.peers.get(&key(2)).unwrap().reputation, Reputation::default());
    for bad in ["", "abc", &"g".repeat(64), &"a".repeat(63), &"é".repeat(32)] {
        let err = d.register(bad.to_string(), String::new(), vec![]).unwrap_err();
        assert_eq!(err, Refusal::NotAKey);
        assert_eq!((err.status(), err.message("").as_str()), (400, "id must be a 64-hex public key"));
    }
    assert!(d.register("AbCdEf0123456789".repeat(4), String::new(), vec![]).is_ok());
}

#[test]
fn bump_creates_and_counts() {
    let mut peers: OrdMap<Peer> = OrdMap::new();
    bump(&mut peers, "x", Credit::Adopted);
    bump(&mut peers, "x", Credit::Adopted);
    bump(&mut peers, "x", Credit::Published);
    assert_eq!(peers.get("x").unwrap().reputation, Reputation { published: 1, adopted: 2 });
    assert_eq!(peers.get("x").unwrap().id, "x");
    assert_eq!(peers.get("x").unwrap().endpoint, "");
    let mut p = peers.remove("x").unwrap();
    p.reputation.published = u32::MAX;
    peers.insert("x".into(), p);
    bump(&mut peers, "x", Credit::Published);
    assert_eq!(peers.get("x").unwrap().reputation.published, 0);
}

#[test]
fn entries_of_other_kinds_or_unreadable_are_ignored() {
    let mut d = open_directory();
    let a = artifact(&key(1), "t", 1);
    // The record does not fit the kind.
    append(&mut d, Kind::Scroll, "a", Record::Artifact(a.clone()));
    append(&mut d, Kind::Artifact, "b", Record::Unreadable);
    d.commit(
        Entry { seq: 3, kind: "rumour".into(), body: String::new(), prev_hash: String::new(), hash: "h".into() },
        Record::Artifact(a),
    );
    assert_eq!(d.ledger_len(), 3);
    assert_eq!(d.catalog.artifacts.len(), 0);
    assert_eq!(d.catalog.peers.len(), 0);
    assert_eq!(kind_of("rumour"), None);
    assert_eq!(kind_of("horde_claim"), Some(Kind::HordeClaim));
    assert_eq!(kind_of("attest"), Some(Kind::Attest));
    assert_eq!(Kind::Reproduction.label(), "reproduction");
}
