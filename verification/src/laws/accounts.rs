//! Laws of the accounts: who may publish, and whose word counts once.

use crate::accounts::{
    account_unit, elapsed, email_key, verified_by, AccountError, AccountModel, BindingModel, Registry, TicketModel,
    LOGIN_TTL_SECS, SESSION_TTL_SECS,
};
use crate::admission::{Gate, Refusal, Seal};
use crate::directory::DirectoryModel;
use crate::email::login_words;
use crate::records::{Attestation, Boost, Handle, Quest, Reply, Str, TaskClaim, TaskResult};
use crate::secret::secret_hash;
use crate::seqs::{lemma_first_match, lemma_first_match_at, lemma_first_match_none};
use crate::text::{decimal, lemma_decimal_injective};
use vstd::prelude::*;

verus! {

/// Two accounts are never taken for one.
pub proof fn law_units_tell_accounts_apart(a: i64, b: i64)
    requires
        account_unit(a) == account_unit(b),
    ensures
        a == b,
{
    let p = "acct:"@;
    assert(account_unit(a).skip(p.len() as int) =~= decimal(a as int));
    assert(account_unit(b).skip(p.len() as int) =~= decimal(b as int));
    lemma_decimal_injective(a as int, b as int);
}

/// Two keys bound to one account answer as one.
pub proof fn law_keys_of_one_human_are_one(reg: Registry, a: Str, b: Str)
    requires
        reg.account_of(a) is Some,
        reg.account_of(a) == reg.account_of(b),
    ensures
        reg.unit_of(a) == reg.unit_of(b),
{
}

/// A key with an account behind it is bound to an account that is verified.
pub proof fn law_account_is_verified(reg: Registry, pubkey: Str)
    requires
        reg.account_of(pubkey) is Some,
    ensures
        reg.is_verified(reg.account_of(pubkey)->Some_0),
        reg.binding_of(pubkey) is Some,
{
}

/// While accounts are required, whatever is let in traces back to a verified human.
pub proof fn law_publishers_are_human_backed(d: DirectoryModel, signed: bool, by: Str, seal: Seal, gate: Gate)
    requires
        d.require_account,
    ensures
        d.judge(signed, by, seal, gate) is Ok ==> signed && d.accounts.account_of(by) is Some && d.accounts.is_verified(
            d.accounts.account_of(by)->Some_0,
        ),
        signed && d.accounts.account_of(by) is None ==> d.judge(signed, by, seal, gate) == Err::<(), Refusal>(
            Refusal::NoAccount(gate),
        ),
{
}

/// While accounts are required, a reply, a name, a quest, a verdict on a result, a boost, a
/// claim or a result is let in only with a sound signature and a verified human behind it.
pub proof fn law_every_gate_is_human_backed(
    d: DirectoryModel,
    path: Str,
    y: Reply,
    h: Handle,
    q: Quest,
    a: Attestation,
    b: Boost,
    c: TaskClaim,
    r: TaskResult,
    now: i64,
)
    requires
        d.require_account,
    ensures
        d.judge_reply(path, y) is Ok ==> y.signed && d.accounts.account_of(y.author@) is Some,
        d.judge_handle(h) is Ok ==> h.signed && d.accounts.account_of(h.owner@) is Some,
        d.judge_quest(q, now) is Ok ==> q.signed && d.accounts.account_of(q.author@) is Some,
        d.judge_verify(a) is Ok ==> a.signed && d.accounts.account_of(a.attester@) is Some,
        d.judge_boost(b, now) is Ok ==> b.signed && d.accounts.account_of(b.booster@) is Some,
        d.judge_claim(c, now) is Ok ==> c.signed && d.accounts.account_of(c.worker@) is Some,
        d.judge_result(r) is Ok ==> r.signed && d.accounts.account_of(r.worker@) is Some,
{
}

/// An unsigned record is refused, account or no account.
pub proof fn law_unsigned_is_refused(d: DirectoryModel, by: Str, seal: Seal, gate: Gate)
    ensures
        d.judge(false, by, seal, gate) == Err::<(), Refusal>(Refusal::Unsigned(seal)),
{
}

/// A verification token works once.
pub proof fn law_verify_token_works_once(reg: Registry, token: Str)
    ensures
        !reg.after_verify(token).awaits(token),
{
    let after = reg.after_verify(token);
    assert forall|i: int| 0 <= i < after.accounts.len() implies (#[trigger] after.accounts[i]).verify_token != Some(token) by {
        assert(after.accounts[i] == verified_by(reg.accounts[i], token));
    }
}

/// Verifying takes no account's standing away.
pub proof fn law_verified_stays_verified(reg: Registry, token: Str, id: i64)
    requires
        reg.is_verified(id),
    ensures
        reg.after_verify(token).is_verified(id),
{
    let i = choose|i: int| 0 <= i < reg.accounts.len() && (#[trigger] reg.accounts[i]).id == id && reg.accounts[i].verified;
    let after = reg.after_verify(token);
    assert(after.accounts[i] == verified_by(reg.accounts[i], token));
    assert(after.accounts[i].id == id && after.accounts[i].verified);
}

/// An account that is not verified yet binds no agent.
pub proof fn law_unverified_binds_nobody(reg: Registry, account_key: Str, proof_holds: bool)
    requires
        match reg.by_key(account_key) {
            Some(i) => !reg.accounts[i].verified,
            None => true,
        },
    ensures
        reg.binding_outcome(account_key, proof_holds) is Err,
{
}

/// Nobody binds a key they cannot sign with.
pub proof fn law_binding_needs_the_key(reg: Registry, account_key: Str, session: Str, now: i64)
    ensures
        reg.binding_outcome(account_key, false) == Err::<i64, AccountError>(AccountError::OwnershipProof),
        reg.session_binding_outcome(session, false, now) == Err::<i64, AccountError>(AccountError::OwnershipProof),
{
}

/// A key that is bound to a verified account may publish, for that account.
pub proof fn law_bound_key_is_authorized(reg: Registry, pubkey: Str, id: i64, now: i64)
    requires
        reg.is_verified(id),
    ensures
        reg.bound(pubkey, id, now).account_of(pubkey) == Some(id),
{
    let p = |b: BindingModel| b.pubkey == pubkey;
    let after = reg.bound(pubkey, id, now);
    lemma_first_match(reg.bindings, p);
    match reg.binding_of(pubkey) {
        Some(i) => {
            assert forall|j: int| 0 <= j < i implies !p(#[trigger] after.bindings[j]) by {
                assert(after.bindings[j] == reg.bindings[j]);
            }
            assert(p(after.bindings[i]));
            lemma_first_match_at(after.bindings, p, i);
        },
        None => {
            let n = reg.bindings.len() as int;
            assert forall|j: int| 0 <= j < n implies !p(#[trigger] after.bindings[j]) by {
                assert(after.bindings[j] == reg.bindings[j]);
            }
            lemma_first_match_at(after.bindings, p, n);
        },
    }
    let k = choose|k: int| 0 <= k < reg.accounts.len() && (#[trigger] reg.accounts[k]).id == id && reg.accounts[k].verified;
    assert(after.accounts[k].id == id);
}

/// Binding one key leaves all others as they were.
pub proof fn law_binding_touches_one_key(reg: Registry, pubkey: Str, id: i64, now: i64, other: Str)
    requires
        other != pubkey,
    ensures
        reg.bound(pubkey, id, now).account_of(other) == reg.account_of(other),
{
    let p = |b: BindingModel| b.pubkey == other;
    let after = reg.bound(pubkey, id, now);
    lemma_first_match(reg.bindings, p);
    lemma_first_match(reg.bindings, |b: BindingModel| b.pubkey == pubkey);
    assert forall|j: int| 0 <= j < reg.bindings.len() implies p(#[trigger] after.bindings[j]) == p(reg.bindings[j]) by {}
    match reg.binding_of(other) {
        Some(i) => {
            assert forall|j: int| 0 <= j < i implies !p(#[trigger] after.bindings[j]) by {
                assert(!p(reg.bindings[j]));
            }
            assert(p(reg.bindings[i]));
            assert(p(after.bindings[i]));
            lemma_first_match_at(after.bindings, p, i);
        },
        None => {
            assert forall|j: int| 0 <= j < after.bindings.len() implies !p(#[trigger] after.bindings[j]) by {
                if j < reg.bindings.len() {
                    assert(!p(reg.bindings[j]));
                }
            }
            lemma_first_match_none(after.bindings, p);
        },
    }
    assert forall|x: i64| after.is_verified(x) == #[trigger] reg.is_verified(x) by {
        assert(after.accounts == reg.accounts);
    }
}

/// Signing up works: whoever registers an email that is not verified yet, redeems the
/// mailed token and shows the account key, which is no other account's, with the agent's
/// own signature has that agent authorized; and not before.
pub proof fn law_signup(reg: Registry, email: Str, key: Str, token: Str, pubkey: Str, t1: i64, t2: i64)
    requires
        reg.consistent(),
        reg.registration(email) == Ok::<bool, AccountError>(false),
        forall|i: int|
            0 <= i < reg.accounts.len() && (#[trigger] reg.accounts[i]).key_hash == secret_hash(key) ==> reg.accounts[i].email
                == email_key(email),
    ensures
        ({
            let registered = reg.issued(email_key(email), key, token, t1);
            let verified = registered.after_verify(token);
            let id = match reg.by_email(email_key(email)) {
                Some(i) => reg.accounts[i].id,
                None => (reg.last_id + 1) as i64,
            };
            &&& registered.binding_outcome(key, true) == Err::<i64, AccountError>(AccountError::NotVerified)
            &&& registered.awaits(token)
            &&& verified.binding_outcome(key, true) == Ok::<i64, AccountError>(id)
            &&& verified.bound(pubkey, id, t2).account_of(pubkey) == Some(id)
        }),
{
    let e = email_key(email);
    let registered = reg.issued(e, key, token, t1);
    let verified = registered.after_verify(token);
    let by_email = |r: AccountModel| r.email == e;
    lemma_first_match(reg.accounts, by_email);
    let n = match reg.by_email(e) {
        Some(i) => i,
        None => reg.accounts.len() as int,
    };
    let p = |r: AccountModel| r.key_hash == secret_hash(key);
    assert(registered.accounts[n].verify_token == Some(token));
    assert forall|j: int| 0 <= j < n implies !p(#[trigger] registered.accounts[j]) by {
        assert(registered.accounts[j] == reg.accounts[j]);
        assert(!by_email(reg.accounts[j]));
    }
    lemma_first_match_at(registered.accounts, p, n);
    assert forall|j: int| 0 <= j < n implies !p(#[trigger] verified.accounts[j]) by {
        assert(verified.accounts[j] == verified_by(registered.accounts[j], token));
    }
    assert(verified.accounts[n] == verified_by(registered.accounts[n], token));
    lemma_first_match_at(verified.accounts, p, n);
    let id = verified.accounts[n].id;
    assert(verified.is_verified(id));
    law_bound_key_is_authorized(verified, pubkey, id, t2);
}

/// Some account of another email waits for `token`.
pub open spec fn awaited_elsewhere(reg: Registry, e: Str, token: Str) -> bool {
    exists|i: int|
        0 <= i < reg.accounts.len() && (#[trigger] reg.accounts[i]).email != e && reg.accounts[i].verify_token == Some(token)
}

/// Some account of another email has the key.
pub open spec fn keyed_elsewhere(reg: Registry, e: Str, key: Str) -> bool {
    exists|i: int|
        0 <= i < reg.accounts.len() && (#[trigger] reg.accounts[i]).email != e && reg.accounts[i].key_hash == secret_hash(key)
}

/// Registering again retires the first secrets, while the email is not verified: the first
/// token verifies something only if it is the second one or somebody else's too, and the
/// first key is known only if it hashes as the second one does or is somebody else's too.
/// Once the email is verified, registering again changes nothing, and the account keeps its
/// first key, which opens it unless somebody else has it too.
pub proof fn law_registering_again(
    reg: Registry,
    email: Str,
    key1: Str,
    token1: Str,
    t1: i64,
    key2: Str,
    token2: Str,
    t2: i64,
)
    requires
        reg.consistent(),
        reg.registration(email) == Ok::<bool, AccountError>(false),
    ensures
        ({
            let e = email_key(email);
            let first = reg.issued(e, key1, token1, t1);
            let second = first.issued(e, key2, token2, t2);
            let verified = first.after_verify(token1);
            &&& first.registration(email) == Ok::<bool, AccountError>(false)
            &&& second.awaits(token2)
            &&& second.awaits(token1) <==> token1 == token2 || awaited_elsewhere(reg, e, token1)
            &&& second.binding_outcome(key1, true) == Err::<i64, AccountError>(AccountError::UnknownKey)
                <==> secret_hash(key1) != secret_hash(key2) && !keyed_elsewhere(reg, e, key1)
            &&& second.accounts[second.by_email(e)->0].key_hash == secret_hash(key2)
            &&& verified.registration(email) == Ok::<bool, AccountError>(true)
            &&& verified.accounts[verified.by_email(e)->0].key_hash == secret_hash(key1)
            &&& !keyed_elsewhere(reg, e, key1) ==> verified.binding_outcome(key1, true) == Ok::<i64, AccountError>(
                verified.accounts[verified.by_email(e)->0].id,
            )
        }),
{
    let e = email_key(email);
    let first = reg.issued(e, key1, token1, t1);
    let second = first.issued(e, key2, token2, t2);
    let verified = first.after_verify(token1);
    let by_email = |r: AccountModel| r.email == e;
    let by_key = |r: AccountModel| r.key_hash == secret_hash(key1);
    lemma_first_match(reg.accounts, by_email);
    let n = match reg.by_email(e) {
        Some(i) => i,
        None => reg.accounts.len() as int,
    };
    assert(first.accounts[n].email == e && !first.accounts[n].verified);
    assert forall|j: int| 0 <= j < first.accounts.len() && j != n implies #[trigger] first.accounts[j] == reg.accounts[j]
        && first.accounts[j].email != e && j < reg.accounts.len() by {
        if reg.by_email(e) is None {
            assert(!by_email(reg.accounts[j]));
        }
    }
    assert forall|j: int| 0 <= j < n implies !by_email(#[trigger] first.accounts[j]) by {}
    lemma_first_match_at(first.accounts, by_email, n);
    assert forall|j: int| 0 <= j < second.accounts.len() && j != n implies #[trigger] second.accounts[j] == reg.accounts[j] by {
        assert(second.accounts[j] == first.accounts[j]);
    }
    assert(second.accounts[n].email == e && second.accounts[n].verify_token == Some(token2));
    assert forall|j: int| 0 <= j < n implies !by_email(#[trigger] second.accounts[j]) by {
        assert(first.accounts[j].email != e);
    }
    lemma_first_match_at(second.accounts, by_email, n);
    if awaited_elsewhere(reg, e, token1) {
        let i = choose|i: int|
            0 <= i < reg.accounts.len() && (#[trigger] reg.accounts[i]).email != e && reg.accounts[i].verify_token == Some(
                token1,
            );
        assert(second.accounts[i] == reg.accounts[i]);
    }
    if second.awaits(token1) && token1 != token2 {
        let i = choose|i: int| 0 <= i < second.accounts.len() && (#[trigger] second.accounts[i]).verify_token == Some(token1);
        assert(first.accounts[i].email != e);
        assert(reg.accounts[i].email != e);
    }
    lemma_first_match(second.accounts, by_key);
    if keyed_elsewhere(reg, e, key1) {
        let i = choose|i: int|
            0 <= i < reg.accounts.len() && (#[trigger] reg.accounts[i]).email != e && reg.accounts[i].key_hash == secret_hash(
                key1,
            );
        assert(by_key(second.accounts[i]));
    }
    if secret_hash(key1) == secret_hash(key2) {
        assert(by_key(second.accounts[n]));
    }
    if let Some(i) = second.by_key(key1) {
        if i != n {
            assert(first.accounts[i].email != e);
            assert(reg.accounts[i].key_hash == secret_hash(key1));
        }
    }
    assert forall|j: int| 0 <= j < verified.accounts.len() implies #[trigger] verified.accounts[j] == verified_by(
        first.accounts[j],
        token1,
    ) by {}
    assert forall|j: int| 0 <= j < n implies !by_email(#[trigger] verified.accounts[j]) by {
        assert(first.accounts[j].email != e);
    }
    assert(verified.accounts[n] == verified_by(first.accounts[n], token1));
    lemma_first_match_at(verified.accounts, by_email, n);
    if !keyed_elsewhere(reg, e, key1) {
        assert forall|j: int| 0 <= j < n implies !by_key(#[trigger] verified.accounts[j]) by {
            assert(first.accounts[j].email != e);
            assert(reg.accounts[j].email != e);
        }
        lemma_first_match_at(verified.accounts, by_key, n);
    }
}

/// Whoever asks to log in is told the same, once a mail is out, as for an email without a
/// verified account: the answer does not tell whether there is one.
pub proof fn law_login_answers_alike(delivered: bool)
    ensures
        login_words(true, true) == login_words(false, delivered),
{
}

/// Logging in works once: a fresh token opens the account's session, and only while it
/// is fresh.
pub proof fn law_login(reg: Registry, token: Str, session: Str, id: i64, t1: i64, t2: i64)
    requires
        reg.login_of(token) is None,
        reg.session_of(session) is None,
    ensures
        ({
            let asked = reg.with_login(token, id, t1);
            &&& asked.login_account(token, t2) == if elapsed(t2, t1) > LOGIN_TTL_SECS {
                None
            } else {
                Some(id)
            }
            &&& asked.without_login(token).with_session(session, id, t2).session_account(session, t2) == Some(id)
            &&& asked.without_login(token).login_account(token, t2) is None
        }),
{
    let asked = reg.with_login(token, id, t1);
    let p = |t: TicketModel| t.token == token;
    let n = reg.logins.len() as int;
    lemma_first_match(reg.logins, p);
    assert forall|j: int| 0 <= j < n implies !p(#[trigger] asked.logins[j]) by {
        assert(asked.logins[j] == reg.logins[j]);
    }
    lemma_first_match_at(asked.logins, p, n);
    crate::accounts::lemma_login_used_up(asked, token);
    let open = asked.without_login(token).with_session(session, id, t2);
    let q = |t: TicketModel| t.token == session;
    let m = reg.sessions.len() as int;
    lemma_first_match(reg.sessions, q);
    assert forall|j: int| 0 <= j < m implies !q(#[trigger] open.sessions[j]) by {
        assert(open.sessions[j] == reg.sessions[j]);
    }
    lemma_first_match_at(open.sessions, q, m);
}

/// A session opens its account until it has lasted its time, and never after.
pub proof fn law_sessions_expire(reg: Registry, session: Str, now: i64)
    ensures
        match reg.session_of(session) {
            Some(i) => reg.session_account(session, now) is Some <==> elapsed(now, reg.sessions[i].created_ts)
                <= SESSION_TTL_SECS,
            None => reg.session_account(session, now) is None,
        },
{
}

} // verus!
