use necropolis::accounts::{AccountError, AccountRow, Accounts, Binding, Ticket, LOGIN_TTL_SECS, SESSION_TTL_SECS};
use necropolis::directory::Directory;
use necropolis::admission::{Gate, Refusal, Seal};
use necropolis::records::{Artifact, Scroll};
use necropolis::secret::hash;

fn key(n: u32) -> String {
    format!("{n:064x}")
}

fn gated(author: &str) -> Artifact {
    Artifact {
        id: "gated".to_string(),
        author: author.to_string(),
        kind: "Skill".to_string(),
        title: "gated".to_string(),
        description: "d".to_string(),
        created_ts: 1,
        signed: true,
        wire: String::new(),
    }
}

#[test]
fn register_verify_bind_authorize_flow() {
    let mut a = Accounts::open();
    let id = key(1);

    // Unbound agent cannot publish.
    assert!(!a.is_authorized(&id));

    let reg = a.register("dev@example.com").unwrap();
    assert!(!reg.account_key.is_empty() && !reg.verify_token.is_empty());

    // Bind before verify: refused.
    assert!(a.bind(&reg.account_key, &id, true).is_err());

    // Verify the email token, then bind.
    assert!(a.verify(&reg.verify_token));
    a.bind(&reg.account_key, &id, true).unwrap();
    assert!(a.is_authorized(&id));

    // A forged ownership proof (wrong signer) is rejected.
    assert!(a.bind(&reg.account_key, &id, false).is_err());

    // Bad token doesn't verify.
    assert!(!a.verify("deadbeef"));
}

#[test]
fn magic_link_login_gates_my_agents() {
    let mut d = Directory::in_memory(true);
    let k = key(1);
    let reg = d.accounts.register("h@x.com").unwrap();
    d.accounts.verify(&reg.verify_token);
    d.accounts.bind(&reg.account_key, &k, true).unwrap();

    // Request a login token, redeem it for a session.
    let ltok = d.accounts.request_login("h@x.com").unwrap().expect("token");
    let session = d.accounts.redeem_login(&ltok).unwrap().expect("session");
    // One-time: redeeming the same login token again fails.
    assert!(d.accounts.redeem_login(&ltok).unwrap().is_none());
    // The session resolves to the account, whose agent is our bound key.
    let id = d.accounts.account_for_session(&session).unwrap();
    assert_eq!(d.accounts.agents_for_id(id), vec![k.clone()]);
    // A second agent joins the same account via the session.
    let k2 = key(2);
    d.accounts.bind_via_session(&session, &k2, true).unwrap();
    let mut agents = d.accounts.agents_for_id(id);
    agents.sort();
    let mut want = vec![k.clone(), k2.clone()];
    want.sort();
    assert_eq!(agents, want, "second agent bound via session");
    // A forged ownership proof is rejected.
    assert!(d.accounts.bind_via_session(&session, &k2, false).is_err());
    // Unknown email: no token.
    assert!(d.accounts.request_login("nobody@x.com").unwrap().is_none());

    // The bearer sees the agents; without one, or with a bad one, nothing is shown.
    let now = necropolis::clock::now_secs();
    let with = format!("Bearer {session}");
    assert_eq!(d.account_agents(Some(&with), None, now).unwrap().len(), 2);
    let without = d.account_agents(None, None, now).unwrap_err();
    assert_eq!(without.status(), 401);
    assert_eq!(without, Refusal::NotLoggedIn);
    assert_eq!(without.message(""), "log in first (POST /account/login)");
    let bad = d.account_agents(Some(&"Bearer nope".to_string()), None, now).unwrap_err();
    assert_eq!(bad.status(), 401);
    assert_eq!(bad, Refusal::BadSession);
    assert_eq!(bad.message(""), "invalid or expired session");
}

#[test]
fn account_key_shows_agents_too() {
    let mut d = Directory::in_memory(true);
    let reg = d.accounts.register("h@x.com").unwrap();
    d.accounts.verify(&reg.verify_token);
    d.accounts.bind(&reg.account_key, &key(1), true).unwrap();
    assert_eq!(d.account_agents(None, Some(&reg.account_key), 0).unwrap(), vec![key(1)]);
    // A header that bears no token falls back to the key.
    let basic = "Basic abc".to_string();
    assert_eq!(d.account_agents(Some(&basic), Some(&reg.account_key), 0).unwrap(), vec![key(1)]);
    // An unknown key shows nothing.
    assert_eq!(d.account_agents(None, Some(&"nope".to_string()), 0).unwrap(), Vec::<String>::new());
    // A session wins over the key.
    let bad = "Bearer nope".to_string();
    assert!(d.account_agents(Some(&bad), Some(&reg.account_key), 0).is_err());
}

#[test]
fn publish_requires_a_verified_human_account() {
    // Accounts are required by default. Unbound author is refused; after signup it is let in.
    let mut d = Directory::in_memory(true);
    let k = key(1);
    let a = gated(&k);
    let refused = d.admit_artifact(&a).unwrap_err();
    assert_eq!(refused, Refusal::NoAccount(Gate::Artifact));
    assert_eq!(refused.status(), 403);
    assert_eq!(
        refused.message(""),
        "publishing requires a verified human account — register with `revenant net signup <email>`, verify, then `revenant net bind`"
    );

    let reg = d.accounts.register("h@x.com").unwrap();
    d.accounts.verify(&reg.verify_token);
    d.accounts.bind(&reg.account_key, &k, true).unwrap();
    assert!(d.admit_artifact(&a).is_ok());
}

#[test]
fn without_accounts_anyone_gets_in_but_not_the_unsigned() {
    let mut d = Directory::in_memory(true);
    d.set_require_account(false);
    let s = Scroll {
        id: "s".to_string(),
        author: key(1),
        body: String::new(),
        refs: vec![],
        sigils: vec![],
        tome: None,
        created_ts: 1,
        signed: true,
        wire: String::new(),
    };
    assert!(d.admit_scroll(&s).is_ok());
    let forged = Scroll { signed: false, ..s };
    assert_eq!(d.admit_scroll(&forged).unwrap_err(), Refusal::Unsigned(Seal::Scroll));
}

#[test]
fn email_is_trimmed_and_lowercased() {
    let mut a = Accounts::open();
    let r = a.register_with("  Dev@Example.COM\n", "k1".to_string(), "t1".to_string(), 7).unwrap();
    assert!(!r.already);
    assert_eq!(a.accounts[0].email, "dev@example.com");
    assert_eq!(a.accounts[0].id, 1);
    assert_eq!(a.accounts[0].created_ts, 7);
    assert!(!a.accounts[0].verified);
    assert_eq!(a.accounts[0].key_hash, hash("k1"));
    assert_eq!(a.accounts[0].verify_token.as_deref(), Some("t1"));
}

#[test]
fn not_an_email() {
    let mut a = Accounts::open();
    for e in ["nope", "", "   ", "a@", "@"] {
        let err = a.register(e).unwrap_err();
        assert_eq!(err, AccountError::NotAnEmail);
        assert_eq!(err.message(), "that doesn't look like an email address");
    }
    // Three bytes with an at sign will do.
    assert!(a.register("a@b").is_ok());
    // Bytes count, not characters.
    assert!(a.register("é@").is_ok());
    assert_eq!(a.accounts.len(), 2);
}

#[test]
fn reregistering_issues_fresh_secrets_until_verified() {
    let mut a = Accounts::open();
    a.register_with("x@y.z", "k1".to_string(), "t1".to_string(), 1).unwrap();
    let again = a.register_with("X@y.z ", "k2".to_string(), "t2".to_string(), 2).unwrap();
    assert!(!again.already);
    assert_eq!(again.account_key, "k2");
    assert_eq!(a.accounts.len(), 1);
    assert_eq!(a.accounts[0].created_ts, 1);
    // The old token and the old key are dead.
    assert!(!a.verify("t1"));
    assert_eq!(a.bind_with("k1", &key(1), true, 3).unwrap_err(), AccountError::UnknownKey);
    assert_eq!(a.bind_with("k2", &key(1), true, 3).unwrap_err(), AccountError::NotVerified);
    assert!(a.verify("t2"));
    // A token works once.
    assert!(!a.verify("t2"));
    // A verified email is left alone.
    let third = a.register_with("x@y.z", "k3".to_string(), "t3".to_string(), 4).unwrap();
    assert!(third.already);
    assert_eq!(third.account_key, "");
    assert_eq!(third.verify_token, "");
    assert!(!a.verify("t3"));
    a.bind_with("k2", &key(1), true, 5).unwrap();
    assert_eq!(a.account_for(&key(1)), Some("acct:1".to_string()));
}

#[test]
fn binding_errors_in_words() {
    let mut a = Accounts::open();
    a.register_with("x@y.z", "k".to_string(), "t".to_string(), 1).unwrap();
    let forged = a.bind_with("k", &key(1), false, 1).unwrap_err();
    assert_eq!(forged, AccountError::OwnershipProof);
    assert_eq!(forged.message(), "agent ownership proof failed (signature does not match pubkey)");
    assert_eq!(a.bind_with("other", &key(1), true, 1).unwrap_err().message(), "unknown account key");
    assert_eq!(
        a.bind_with("k", &key(1), true, 1).unwrap_err().message(),
        "account not verified yet — check your email and run `revenant net verify <token>`"
    );
    let gone = a.bind_via_session_at("none", &key(1), true, 1).unwrap_err();
    assert_eq!(gone, AccountError::InvalidSession);
    assert_eq!(gone.message(), "invalid or expired session — log in again");
    assert_eq!(a.bindings.len(), 0);
}

#[test]
fn rebinding_moves_the_key() {
    let mut a = Accounts::open();
    a.register_with("a@x.y", "k1".to_string(), "t1".to_string(), 1).unwrap();
    a.register_with("b@x.y", "k2".to_string(), "t2".to_string(), 1).unwrap();
    a.verify("t1");
    a.verify("t2");
    a.bind_with("k1", &key(1), true, 10).unwrap();
    a.bind_with("k1", &key(2), true, 11).unwrap();
    assert_eq!(a.agents_for("k1"), vec![key(1), key(2)]);
    a.bind_with("k2", &key(1), true, 12).unwrap();
    assert_eq!(a.account_for(&key(1)), Some("acct:2".to_string()));
    assert_eq!(a.account_for(&key(2)), Some("acct:1".to_string()));
    assert_eq!(a.agents_for("k1"), vec![key(2)]);
    assert_eq!(a.agents_for("k2"), vec![key(1)]);
    // The time of the first binding stays.
    assert_eq!(a.bindings[0].bound_ts, 10);
    // One human, several keys: one unit. An unbound key is its own.
    assert_eq!(a.unit_for(&key(2)), "acct:1");
    assert_eq!(a.unit_for(&key(3)), key(3));
}

#[test]
fn login_tokens_expire_and_are_used_up() {
    let mut a = Accounts::open();
    a.register_with("x@y.z", "k".to_string(), "t".to_string(), 1).unwrap();
    // Not verified yet: no token.
    assert_eq!(a.request_login_with("x@y.z", "l0".to_string(), 1).unwrap(), None);
    a.verify("t");
    assert_eq!(a.request_login_with(" X@Y.Z", "l1".to_string(), 1000).unwrap(), Some("l1".to_string()));
    assert_eq!(
        a.request_login_with("x@y.z", "l1".to_string(), 1000).unwrap_err(),
        AccountError::TokenTaken
    );
    // On the last second it still works.
    assert_eq!(
        a.redeem_login_with("l1", "s1".to_string(), 1000 + LOGIN_TTL_SECS).unwrap(),
        Some("s1".to_string())
    );
    // Past it the token is refused, and used up all the same.
    a.request_login_with("x@y.z", "l2".to_string(), 1000).unwrap();
    assert_eq!(a.redeem_login_with("l2", "s2".to_string(), 1001 + LOGIN_TTL_SECS).unwrap(), None);
    assert_eq!(a.redeem_login_with("l2", "s2".to_string(), 1000).unwrap(), None);
    // A session token that is taken is refused.
    a.request_login_with("x@y.z", "l3".to_string(), 1000).unwrap();
    let err = a.redeem_login_with("l3", "s1".to_string(), 1000).unwrap_err();
    assert_eq!(err, AccountError::TokenTaken);
    assert_eq!(err.message(), "token is already taken");
    assert_eq!(a.logins.len(), 0);
}

#[test]
fn sessions_expire() {
    let mut a = Accounts::open();
    a.register_with("x@y.z", "k".to_string(), "t".to_string(), 1).unwrap();
    a.verify("t");
    a.request_login_with("x@y.z", "l".to_string(), 50).unwrap();
    a.redeem_login_with("l", "s".to_string(), 50).unwrap();
    assert_eq!(SESSION_TTL_SECS, 7 * 24 * 3600);
    assert_eq!(a.account_for_session_at("s", 50 + SESSION_TTL_SECS), Some(1));
    assert_eq!(a.account_for_session_at("s", 51 + SESSION_TTL_SECS), None);
    assert_eq!(a.account_for_session_at("other", 50), None);
    a.bind_via_session_at("s", &key(4), true, 60).unwrap();
    assert!(a.is_authorized(&key(4)));
    assert!(a.bind_via_session_at("s", &key(5), true, 51 + SESSION_TTL_SECS).is_err());
}

#[test]
fn restored_rows_keep_their_ids() {
    let rows = vec![
        AccountRow {
            id: 7,
            email: "a@b.c".to_string(),
            key_hash: hash("k"),
            verify_token: None,
            verified: true,
            created_ts: 1,
        },
        AccountRow {
            id: 3,
            email: "d@e.f".to_string(),
            key_hash: hash("l"),
            verify_token: Some("t".to_string()),
            verified: false,
            created_ts: 1,
        },
    ];
    let bindings = vec![Binding { pubkey: key(1), account_id: 7, bound_ts: 1 }];
    let logins: Vec<Ticket> = vec![];
    let mut a = Accounts::restore(rows, bindings, logins, vec![]);
    assert_eq!(a.last_id, 7);
    assert_eq!(a.account_for(&key(1)), Some("acct:7".to_string()));
    a.register_with("g@h.i", "m".to_string(), "u".to_string(), 2).unwrap();
    assert_eq!(a.accounts[2].id, 8);
    let mut empty = Accounts::restore(vec![], vec![], vec![], vec![]);
    assert_eq!(empty.last_id, 0);
    empty.last_id = i64::MAX;
    let full = empty.register("x@y.z").unwrap_err();
    assert_eq!(full, AccountError::Full);
    assert_eq!(full.message(), "no account id is left");
}

#[test]
fn fresh_secrets_differ() {
    let mut a = Accounts::open();
    let r1 = a.register("a@b.c").unwrap();
    let r2 = a.register("d@e.f").unwrap();
    assert_eq!(r1.account_key.len(), 64);
    assert_eq!(r1.verify_token.len(), 32);
    assert_ne!(r1.account_key, r2.account_key);
    assert_ne!(r1.verify_token, r2.verify_token);
    assert!(r1.account_key.chars().all(|c| c.is_ascii_hexdigit()));
    a.verify(&r1.verify_token);
    let l = a.request_login("a@b.c").unwrap().unwrap();
    assert_eq!(l.len(), 40);
    let s = a.redeem_login(&l).unwrap().unwrap();
    assert_eq!(s.len(), 48);
}
