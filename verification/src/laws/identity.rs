//! Laws of who is who: which account stands behind a key, and how it came to.

use crate::accounts::{email_key, empty_registry, AccountError, AccountModel, BindingModel, Registry, TicketModel};
use crate::admission::Refusal;
use crate::directory::DirectoryModel;
use crate::laws::lists::{lemma_filter_keeps, lemma_filter_places};
use crate::records::Str;
use crate::secret::secret_hash;
use crate::seqs::{lemma_filter_holds, lemma_first_match, lemma_first_match_at, lemma_first_match_none};
use crate::text::{decimal, lowercase, trim_end, trim_start, trimmed, white_space};
use vstd::prelude::*;
use vstd::utf8::encode_utf8;

verus! {

// ---- keys ----

/// The key is bound to the account.
pub open spec fn is_bound(reg: Registry, pubkey: Str, id: i64) -> bool {
    exists|i: int| 0 <= i < reg.bindings.len() && (#[trigger] reg.bindings[i]).pubkey == pubkey && reg.bindings[i].account_id == id
}

/// The account is there, and its email is verified.
pub open spec fn is_confirmed(reg: Registry, id: i64) -> bool {
    exists|i: int| 0 <= i < reg.accounts.len() && (#[trigger] reg.accounts[i]).id == id && reg.accounts[i].verified
}

/// An account stands behind a key exactly where the key is bound to it and its email is
/// verified. The key then answers as that account, and else as itself.
pub proof fn law_who_stands_behind_a_key(reg: Registry, pubkey: Str)
    requires
        reg.consistent(),
    ensures
        forall|id: i64| #[trigger] is_bound(reg, pubkey, id) && is_confirmed(reg, id) <==> reg.account_of(pubkey) == Some(id),
        reg.account_of(pubkey) is None ==> reg.unit_of(pubkey) == pubkey,
        forall|id: i64| #[trigger]
            is_bound(reg, pubkey, id) && is_confirmed(reg, id) ==> reg.unit_of(pubkey) == "acct:"@ + decimal(id as int),
{
    let p = |b: BindingModel| b.pubkey == pubkey;
    lemma_first_match(reg.bindings, p);
    assert forall|id: i64| #[trigger] is_bound(reg, pubkey, id) && is_confirmed(reg, id) <==> reg.account_of(pubkey) == Some(id) by {
        if is_bound(reg, pubkey, id) {
            let i = choose|i: int|
                0 <= i < reg.bindings.len() && (#[trigger] reg.bindings[i]).pubkey == pubkey && reg.bindings[i].account_id == id;
            assert(p(reg.bindings[i]));
            let k = reg.binding_of(pubkey)->Some_0;
            assert(reg.bindings[k].pubkey == reg.bindings[i].pubkey);
            assert(k == i);
        }
        if reg.account_of(pubkey) == Some(id) {
            let k = reg.binding_of(pubkey)->Some_0;
            assert(reg.bindings[k].account_id == id);
        }
    }
}

/// The agents of an account are the keys bound to it, in the order in which they were bound,
/// verified or not, and each once.
pub proof fn law_agents_of_an_account(reg: Registry, id: i64) -> (at: Seq<int>)
    requires
        reg.consistent(),
    ensures
        at.len() == reg.agents_of(id).len(),
        forall|i: int|
            0 <= i < at.len() ==> 0 <= #[trigger] at[i] < reg.bindings.len() && reg.bindings[at[i]].pubkey == reg.agents_of(id)[i]
                && reg.bindings[at[i]].account_id == id,
        forall|i: int, j: int| 0 <= i < j < at.len() ==> #[trigger] at[i] < #[trigger] at[j],
        forall|k: int| 0 <= k < reg.bindings.len() && (#[trigger] reg.bindings[k]).account_id == id ==> at.contains(k),
        reg.agents_of(id).no_duplicates(),
        forall|pk: Str| #[trigger] reg.agents_of(id).contains(pk) <==> is_bound(reg, pk, id),
{
    let p = |b: BindingModel| b.account_id == id;
    let kept = reg.bindings.filter(p);
    let out = reg.agents_of(id);
    let at = lemma_filter_places(reg.bindings, p);
    assert forall|i: int| 0 <= i < at.len() implies 0 <= #[trigger] at[i] < reg.bindings.len() && reg.bindings[at[i]].pubkey
        == out[i] && reg.bindings[at[i]].account_id == id by {
        assert(out[i] == kept[i].pubkey);
        assert(p(reg.bindings[at[i]]));
    }
    assert forall|k: int| 0 <= k < reg.bindings.len() && (#[trigger] reg.bindings[k]).account_id == id implies at.contains(k) by {
        assert(p(reg.bindings[k]));
    }
    assert forall|i: int, j: int| 0 <= i < out.len() && 0 <= j < out.len() && i != j implies out[i] != out[j] by {
        if i < j {
            assert(at[i] < at[j]);
            assert(reg.bindings[at[i]].pubkey != reg.bindings[at[j]].pubkey);
        } else {
            assert(at[j] < at[i]);
            assert(reg.bindings[at[j]].pubkey != reg.bindings[at[i]].pubkey);
        }
    }
    assert forall|pk: Str| #[trigger] out.contains(pk) <==> is_bound(reg, pk, id) by {
        if out.contains(pk) {
            let i = choose|i: int| 0 <= i < out.len() && out[i] == pk;
            assert(reg.bindings[at[i]].pubkey == pk);
        }
        if is_bound(reg, pk, id) {
            let k = choose|k: int|
                0 <= k < reg.bindings.len() && (#[trigger] reg.bindings[k]).pubkey == pk && reg.bindings[k].account_id == id;
            assert(at.contains(k));
            let i = choose|i: int| 0 <= i < at.len() && at[i] == k;
            assert(out[i] == pk);
        }
    }
    at
}

/// Binding a key binds it to the one account that is named, away from the one before, leaves
/// all other keys as they were, and changes nothing else.
pub proof fn law_binding(reg: Registry, pubkey: Str, id: i64, now: i64)
    requires
        reg.consistent(),
    ensures
        ({
            let after = reg.bound(pubkey, id, now);
            &&& forall|x: i64| #[trigger] is_bound(after, pubkey, x) <==> x == id
            &&& forall|other: Str, x: i64| other != pubkey ==> #[trigger] is_bound(after, other, x) == is_bound(reg, other, x)
            &&& after.accounts == reg.accounts
            &&& after.logins == reg.logins
            &&& after.sessions == reg.sessions
            &&& after.last_id == reg.last_id
        }),
{
    let after = reg.bound(pubkey, id, now);
    let p = |b: BindingModel| b.pubkey == pubkey;
    lemma_first_match(reg.bindings, p);
    let n = match reg.binding_of(pubkey) {
        Some(i) => i,
        None => reg.bindings.len() as int,
    };
    assert(after.bindings[n].pubkey == pubkey && after.bindings[n].account_id == id);
    assert forall|j: int| 0 <= j < after.bindings.len() && j != n implies (#[trigger] after.bindings[j]) == reg.bindings[j]
        && after.bindings[j].pubkey != pubkey by {
        if reg.binding_of(pubkey) is Some {
            if j < n {
                assert(reg.bindings[j].pubkey != reg.bindings[n].pubkey);
            } else {
                assert(reg.bindings[n].pubkey != reg.bindings[j].pubkey);
            }
        } else {
            assert(!p(reg.bindings[j]));
        }
    }
    assert forall|x: i64| #[trigger] is_bound(after, pubkey, x) <==> x == id by {
        assert(is_bound(after, pubkey, id));
    }
    assert forall|other: Str, x: i64| other != pubkey implies #[trigger] is_bound(after, other, x) == is_bound(reg, other, x) by {
        if is_bound(after, other, x) {
            let j = choose|j: int|
                0 <= j < after.bindings.len() && (#[trigger] after.bindings[j]).pubkey == other && after.bindings[j].account_id == x;
            assert(reg.bindings[j].pubkey == other);
        }
        if is_bound(reg, other, x) {
            let j = choose|j: int|
                0 <= j < reg.bindings.len() && (#[trigger] reg.bindings[j]).pubkey == other && reg.bindings[j].account_id == x;
            assert(j != n);
            assert(after.bindings[j] == reg.bindings[j]);
        }
    }
}

/// Whoever shows a key of their own and the account key of one verified account binds to
/// that account. Each thing that is missing is answered as such, the ownership of the key
/// first.
pub proof fn law_binding_with_the_account_key(reg: Registry, key: Str, i: int)
    requires
        0 <= i < reg.accounts.len(),
        forall|j: int| 0 <= j < reg.accounts.len() ==> ((#[trigger] reg.accounts[j]).key_hash == secret_hash(key) <==> j == i),
    ensures
        reg.accounts[i].verified ==> reg.binding_outcome(key, true) == Ok::<i64, AccountError>(reg.accounts[i].id),
        !reg.accounts[i].verified ==> reg.binding_outcome(key, true) == Err::<i64, AccountError>(AccountError::NotVerified),
        reg.binding_outcome(key, false) == Err::<i64, AccountError>(AccountError::OwnershipProof),
{
    let p = |r: AccountModel| r.key_hash == secret_hash(key);
    assert(p(reg.accounts[i]));
    lemma_first_match_at(reg.accounts, p, i);
}

/// A key that no account has opens none.
pub proof fn law_unknown_account_key(reg: Registry, key: Str)
    requires
        forall|j: int| 0 <= j < reg.accounts.len() ==> (#[trigger] reg.accounts[j]).key_hash != secret_hash(key),
    ensures
        reg.binding_outcome(key, true) == Err::<i64, AccountError>(AccountError::UnknownKey),
        reg.by_key(key) is None,
{
    lemma_first_match_none(reg.accounts, |r: AccountModel| r.key_hash == secret_hash(key));
}

// ---- emails ----

/// A text is trimmed of the white space that it begins and ends with, and of nothing else.
pub proof fn law_trimming(s: Str) -> (r: (int, int))
    ensures
        0 <= r.0 <= r.1 <= s.len(),
        trimmed(s) == s.subrange(r.0, r.1),
        forall|k: int| 0 <= k < r.0 || r.1 <= k < s.len() ==> white_space(#[trigger] s[k]),
        r.0 < r.1 ==> !white_space(s[r.0]) && !white_space(s[r.1 - 1]),
{
    let i = lemma_trim_start(s);
    let rest = s.subrange(i, s.len() as int);
    let n = lemma_trim_end(rest);
    assert(rest.subrange(0, n) =~= s.subrange(i, i + n));
    assert forall|k: int| 0 <= k < i || i + n <= k < s.len() implies white_space(#[trigger] s[k]) by {
        if k >= i + n {
            assert(s[k] == rest[k - i]);
        }
    }
    if n > 0 {
        assert(rest[0] == s[i]);
        assert(rest[n - 1] == s[i + n - 1]);
    }
    (i, i + n)
}

proof fn lemma_trim_start(s: Str) -> (i: int)
    ensures
        0 <= i <= s.len(),
        trim_start(s) == s.subrange(i, s.len() as int),
        forall|k: int| 0 <= k < i ==> white_space(#[trigger] s[k]),
        i < s.len() ==> !white_space(s[i]),
    decreases s.len(),
{
    if s.len() > 0 && white_space(s[0]) {
        let t = s.drop_first();
        let i = lemma_trim_start(t);
        assert(t.subrange(i, t.len() as int) =~= s.subrange(i + 1, s.len() as int));
        assert forall|k: int| 0 <= k < i + 1 implies white_space(#[trigger] s[k]) by {
            if k > 0 {
                assert(s[k] == t[k - 1]);
            }
        }
        if i < t.len() {
            assert(t[i] == s[i + 1]);
        }
        i + 1
    } else {
        assert(s.subrange(0, s.len() as int) =~= s);
        0
    }
}

proof fn lemma_trim_end(s: Str) -> (n: int)
    ensures
        0 <= n <= s.len(),
        trim_end(s) == s.subrange(0, n),
        forall|k: int| n <= k < s.len() ==> white_space(#[trigger] s[k]),
        n > 0 ==> !white_space(s[n - 1]),
    decreases s.len(),
{
    if s.len() > 0 && white_space(s.last()) {
        let t = s.drop_last();
        let n = lemma_trim_end(t);
        assert(t.subrange(0, n) =~= s.subrange(0, n));
        assert forall|k: int| n <= k < s.len() implies white_space(#[trigger] s[k]) by {
            if k < s.len() - 1 {
                assert(s[k] == t[k]);
            }
        }
        if n > 0 {
            assert(t[n - 1] == s[n - 1]);
        }
        n
    } else {
        assert(s.subrange(0, s.len() as int) =~= s);
        s.len() as int
    }
}

/// Two emails that differ only in case, or in the white space round them, are one.
pub proof fn law_emails_are_told_apart_without_case(reg: Registry, a: Str, b: Str)
    requires
        lowercase(trimmed(a)) == lowercase(trimmed(b)),
    ensures
        email_key(a) == email_key(b),
        reg.registration(a) == reg.registration(b),
        reg.verified_email(a) == reg.verified_email(b),
{
}

/// Some account has the email, and it is verified or not, as asked.
pub open spec fn has_email(reg: Registry, e: Str, verified: bool) -> bool {
    exists|i: int| 0 <= i < reg.accounts.len() && (#[trigger] reg.accounts[i]).email == e && reg.accounts[i].verified == verified
}

/// An email may register unless it does not look like one; the answer says whether it was
/// verified before. Only an email that has no account needs a new id.
pub proof fn law_registration(reg: Registry, email: Str)
    requires
        reg.consistent(),
    ensures
        ({
            let e = lowercase(trimmed(email));
            let fits = (exists|i: int| 0 <= i < e.len() && #[trigger] e[i] == '@') && encode_utf8(e).len() >= 3;
            let known = has_email(reg, e, true) || has_email(reg, e, false);
            &&& reg.registration(email) == Err::<bool, AccountError>(AccountError::NotAnEmail) <==> !fits
            &&& reg.registration(email) == Ok::<bool, AccountError>(true) <==> fits && has_email(reg, e, true)
            &&& reg.registration(email) == Ok::<bool, AccountError>(false) <==> fits && !has_email(reg, e, true) && (has_email(
                reg,
                e,
                false,
            ) || reg.last_id < i64::MAX)
            &&& reg.registration(email) == Err::<bool, AccountError>(AccountError::Full) <==> fits && !known && reg.last_id
                == i64::MAX
        }),
{
    let e = lowercase(trimmed(email));
    let p = |r: AccountModel| r.email == e;
    lemma_first_match(reg.accounts, p);
    assert(e.contains('@') == exists|i: int| 0 <= i < e.len() && #[trigger] e[i] == '@');
    if has_email(reg, e, true) {
        let i = choose|i: int| 0 <= i < reg.accounts.len() && (#[trigger] reg.accounts[i]).email == e && reg.accounts[i].verified == true;
        lemma_one_email(reg, e, i);
    }
    if has_email(reg, e, false) {
        let i = choose|i: int|
            0 <= i < reg.accounts.len() && (#[trigger] reg.accounts[i]).email == e && reg.accounts[i].verified == false;
        lemma_one_email(reg, e, i);
    }
    if let Some(k) = reg.by_email(e) {
        assert(reg.accounts[k].email == e);
    }
}

proof fn lemma_one_email(reg: Registry, e: Str, i: int)
    requires
        reg.consistent(),
        0 <= i < reg.accounts.len(),
        reg.accounts[i].email == e,
    ensures
        reg.by_email(e) == Some(i),
{
    let p = |r: AccountModel| r.email == e;
    assert(p(reg.accounts[i]));
    assert forall|j: int| 0 <= j < i implies !p(#[trigger] reg.accounts[j]) by {
        assert(reg.accounts[j].email != reg.accounts[i].email);
    }
    lemma_first_match_at(reg.accounts, p, i);
}

/// Issuing secrets touches one account: that of the email, which keeps its id, its age and
/// whether it is verified, or a new one that is not verified, under an id that nobody had.
pub proof fn law_issuing_touches_one_account(reg: Registry, e: Str, key: Str, token: Str, now: i64)
    requires
        reg.consistent(),
        reg.last_id < i64::MAX,
    ensures
        ({
            let after = reg.issued(e, key, token, now);
            &&& forall|i: int|
                0 <= i < reg.accounts.len() ==> {
                    let r = #[trigger] reg.accounts[i];
                    let s = after.accounts[i];
                    &&& r.email != e ==> s == r
                    &&& r.email == e ==> s.email == e && s.id == r.id && s.verified == r.verified && s.created_ts == r.created_ts
                        && s.key_hash == secret_hash(key) && s.verify_token == Some(token)
                }
            &&& has_email(reg, e, true) || has_email(reg, e, false) ==> after.accounts.len() == reg.accounts.len()
            &&& !has_email(reg, e, true) && !has_email(reg, e, false) ==> {
                let s = after.accounts[reg.accounts.len() as int];
                &&& after.accounts.len() == reg.accounts.len() + 1
                &&& s.email == e && !s.verified && s.created_ts == now
                &&& s.key_hash == secret_hash(key) && s.verify_token == Some(token)
                &&& forall|i: int| 0 <= i < reg.accounts.len() ==> (#[trigger] reg.accounts[i]).id != s.id
                &&& after.last_id == s.id
            }
            &&& after.bindings == reg.bindings
            &&& after.logins == reg.logins
            &&& after.sessions == reg.sessions
        }),
{
    let after = reg.issued(e, key, token, now);
    let p = |r: AccountModel| r.email == e;
    lemma_first_match(reg.accounts, p);
    assert forall|i: int| 0 <= i < reg.accounts.len() implies {
        let r = #[trigger] reg.accounts[i];
        let s = after.accounts[i];
        &&& r.email != e ==> s == r
        &&& r.email == e ==> s.email == e && s.id == r.id && s.verified == r.verified && s.created_ts == r.created_ts && s.key_hash
            == secret_hash(key) && s.verify_token == Some(token)
    } by {
        if reg.accounts[i].email == e {
            lemma_one_email(reg, e, i);
        }
    }
    if let Some(k) = reg.by_email(e) {
        assert(has_email(reg, e, reg.accounts[k].verified));
    } else {
        if has_email(reg, e, true) {
            let i = choose|i: int|
                0 <= i < reg.accounts.len() && (#[trigger] reg.accounts[i]).email == e && reg.accounts[i].verified == true;
            assert(!p(reg.accounts[i]));
        }
        if has_email(reg, e, false) {
            let i = choose|i: int|
                0 <= i < reg.accounts.len() && (#[trigger] reg.accounts[i]).email == e && reg.accounts[i].verified == false;
            assert(!p(reg.accounts[i]));
        }
    }
}

/// Verifying touches the accounts that wait for the token: they become verified and wait no
/// more. Everything else stays.
pub proof fn law_verifying(reg: Registry, token: Str)
    ensures
        ({
            let after = reg.after_verify(token);
            &&& after.accounts.len() == reg.accounts.len()
            &&& forall|i: int|
                0 <= i < reg.accounts.len() ==> {
                    let r = #[trigger] reg.accounts[i];
                    let s = after.accounts[i];
                    &&& r.verify_token != Some(token) ==> s == r
                    &&& r.verify_token == Some(token) ==> s.verified && s.verify_token is None && s.id == r.id && s.email == r.email
                        && s.key_hash == r.key_hash && s.created_ts == r.created_ts
                }
            &&& after.bindings == reg.bindings
            &&& after.logins == reg.logins
            &&& after.sessions == reg.sessions
            &&& after.last_id == reg.last_id
            &&& reg.awaits(token) <==> exists|i: int|
                0 <= i < reg.accounts.len() && (#[trigger] reg.accounts[i]).verify_token == Some(token)
        }),
{
}

/// A login is for the verified account of the email that is asked for, and for no other.
pub proof fn law_logins_are_for_verified_emails(reg: Registry, email: Str)
    ensures
        reg.verified_email(email) is Some <==> has_email(reg, lowercase(trimmed(email)), true),
        reg.verified_email(email) matches Some(i) ==> 0 <= i < reg.accounts.len() && reg.accounts[i].verified
            && reg.accounts[i].email == lowercase(trimmed(email)),
{
    let e = lowercase(trimmed(email));
    let p = |r: AccountModel| r.email == email_key(email) && r.verified;
    lemma_first_match(reg.accounts, p);
    if has_email(reg, e, true) {
        let i = choose|i: int| 0 <= i < reg.accounts.len() && (#[trigger] reg.accounts[i]).email == e && reg.accounts[i].verified == true;
        assert(p(reg.accounts[i]));
    }
    if let Some(k) = reg.verified_email(email) {
        assert(p(reg.accounts[k]));
        assert(reg.accounts[k].verified == true);
    }
}

// ---- logins and sessions ----

/// The ticket is in the list, for the account, and at most `span` seconds old.
pub open spec fn opens(list: Seq<TicketModel>, token: Str, id: i64, span: int, now: i64) -> bool {
    exists|i: int|
        0 <= i < list.len() && (#[trigger] list[i]).token == token && list[i].account_id == id && now - list[i].created_ts <= span
}

/// A login token opens its account for 900 seconds, a quarter of an hour, and a session for
/// 604800, which is seven days.
pub proof fn law_how_long_tickets_last(reg: Registry, token: Str, now: i64)
    requires
        reg.consistent(),
    ensures
        forall|id: i64| #[trigger] opens(reg.logins, token, id, 900, now) <==> reg.login_account(token, now) == Some(id),
        forall|id: i64| #[trigger]
            opens(reg.sessions, token, id, 604800, now) <==> reg.session_account(token, now) == Some(id),
{
    let p = |t: TicketModel| t.token == token;
    lemma_first_match(reg.logins, p);
    lemma_first_match(reg.sessions, p);
    assert forall|id: i64| #[trigger] opens(reg.logins, token, id, 900, now) <==> reg.login_account(token, now) == Some(id) by {
        if opens(reg.logins, token, id, 900, now) {
            let i = choose|i: int|
                0 <= i < reg.logins.len() && (#[trigger] reg.logins[i]).token == token && reg.logins[i].account_id == id && now
                    - reg.logins[i].created_ts <= 900;
            assert(p(reg.logins[i]));
            assert(reg.logins[reg.login_of(token)->Some_0].token == reg.logins[i].token);
        }
        if let Some(k) = reg.login_of(token) {
            assert(reg.logins[k].token == token);
        }
    }
    assert forall|id: i64| #[trigger] opens(reg.sessions, token, id, 604800, now) <==> reg.session_account(token, now)
        == Some(id) by {
        if opens(reg.sessions, token, id, 604800, now) {
            let i = choose|i: int|
                0 <= i < reg.sessions.len() && (#[trigger] reg.sessions[i]).token == token && reg.sessions[i].account_id == id && now
                    - reg.sessions[i].created_ts <= 604800;
            assert(p(reg.sessions[i]));
            assert(reg.sessions[reg.session_of(token)->Some_0].token == reg.sessions[i].token);
        }
        if let Some(k) = reg.session_of(token) {
            assert(reg.sessions[k].token == token);
        }
    }
}

/// Using up a login token takes away that token alone; issuing a login or a session adds one
/// ticket, for the account and the time it is issued for.
pub proof fn law_tickets_come_and_go(reg: Registry, token: Str, id: i64, now: i64)
    ensures
        forall|t: TicketModel| #[trigger]
            reg.without_login(token).logins.contains(t) <==> reg.logins.contains(t) && t.token != token,
        reg.without_login(token).sessions == reg.sessions,
        reg.without_login(token).accounts == reg.accounts,
        reg.without_login(token).bindings == reg.bindings,
        reg.with_login(token, id, now).logins == reg.logins.push(TicketModel { token, account_id: id, created_ts: now }),
        reg.with_login(token, id, now).sessions == reg.sessions,
        reg.with_login(token, id, now).accounts == reg.accounts,
        reg.with_login(token, id, now).bindings == reg.bindings,
        reg.with_session(token, id, now).sessions == reg.sessions.push(TicketModel { token, account_id: id, created_ts: now }),
        reg.with_session(token, id, now).logins == reg.logins,
        reg.with_session(token, id, now).accounts == reg.accounts,
        reg.with_session(token, id, now).bindings == reg.bindings,
{
    let p = |t: TicketModel| t.token != token;
    lemma_filter_holds(reg.logins, p);
    assert forall|t: TicketModel| #[trigger]
        reg.without_login(token).logins.contains(t) <==> reg.logins.contains(t) && t.token != token by {
        let kept = reg.logins.filter(p);
        if kept.contains(t) {
            let i = choose|i: int| 0 <= i < kept.len() && kept[i] == t;
            assert(p(kept[i]) && reg.logins.contains(kept[i]));
        }
        if reg.logins.contains(t) && t.token != token {
            let i = choose|i: int| 0 <= i < reg.logins.len() && reg.logins[i] == t;
            lemma_filter_keeps(reg.logins, p, i);
        }
    }
}

/// Binding with a session binds to the session's account; a session that has run out, or
/// that is none, is answered as such, and the ownership of the key is looked at first.
pub proof fn law_binding_with_a_session(reg: Registry, session: Str, now: i64)
    requires
        reg.consistent(),
    ensures
        reg.session_binding_outcome(session, false, now) == Err::<i64, AccountError>(AccountError::OwnershipProof),
        forall|id: i64| #[trigger]
            opens(reg.sessions, session, id, 604800, now) <==> reg.session_binding_outcome(session, true, now) == Ok::<
                i64,
                AccountError,
            >(id),
        (forall|id: i64| !#[trigger] opens(reg.sessions, session, id, 604800, now)) ==> reg.session_binding_outcome(
            session,
            true,
            now,
        ) == Err::<i64, AccountError>(AccountError::InvalidSession),
{
    law_how_long_tickets_last(reg, session, now);
    if let Some(id) = reg.session_account(session, now) {
        assert(opens(reg.sessions, session, id, 604800, now));
    }
}

/// Trading a login token uses it up, whatever comes of it. A fresh one opens a session of its
/// account that nobody had, beside those that were there; one that is spent, unknown or too
/// old opens none. Nothing else changes.
pub proof fn law_trading_a_login(reg: Registry, token: Str, now: i64, r: Result<Option<String>, AccountError>, after: Registry)
    requires
        reg.consistent(),
        reg.traded(token, now, r, after),
    ensures
        forall|later: i64| #[trigger] after.login_account(token, later) is None,
        forall|t: TicketModel| t.token != token ==> #[trigger] after.logins.contains(t) == reg.logins.contains(t),
        r == Ok::<Option<String>, AccountError>(None) <==> forall|id: i64| !#[trigger] opens(reg.logins, token, id, 900, now),
        r matches Ok(Some(session)) ==> {
            &&& forall|id: i64| #[trigger] opens(reg.logins, token, id, 900, now) ==> after.sessions == reg.sessions.push(
                TicketModel { token: session@, account_id: id, created_ts: now },
            )
            &&& forall|i: int| 0 <= i < reg.sessions.len() ==> (#[trigger] reg.sessions[i]).token != session@
            &&& session@.len() == 48
        },
        !(r matches Ok(Some(_))) ==> after.sessions == reg.sessions,
        after.accounts == reg.accounts,
        after.bindings == reg.bindings,
{
    law_how_long_tickets_last(reg, token, now);
    law_tickets_come_and_go(reg, token, 0, now);
    crate::accounts::lemma_login_used_up(reg, token);
    assert(after.logins == reg.without_login(token).logins);
    assert(after.login_of(token) == reg.without_login(token).login_of(token));
    if let Some(id) = reg.login_account(token, now) {
        assert(opens(reg.logins, token, id, 900, now));
    }
    if let Ok(Some(session)) = r {
        let p = |t: TicketModel| t.token == session@;
        lemma_first_match(reg.sessions, p);
        assert forall|i: int| 0 <= i < reg.sessions.len() implies (#[trigger] reg.sessions[i]).token != session@ by {
            assert(!p(reg.sessions[i]));
        }
    }
}

/// Where a session bound a key, the key is bound to the session's account; else nothing
/// changed.
pub proof fn law_session_binds_to_its_account(
    reg: Registry,
    session: Str,
    pubkey: Str,
    proof_holds: bool,
    now: i64,
    r: Result<(), AccountError>,
    after: Registry,
)
    requires
        reg.consistent(),
        reg.session_bound(session, pubkey, proof_holds, now, r, after),
    ensures
        r is Ok ==> proof_holds && exists|id: i64| #[trigger]
            opens(reg.sessions, session, id, 604800, now) && is_bound(after, pubkey, id),
        r is Err ==> after == reg,
        proof_holds && (exists|id: i64| #[trigger] opens(reg.sessions, session, id, 604800, now)) ==> r is Ok,
{
    law_how_long_tickets_last(reg, session, now);
    if let Some(id) = reg.session_account(session, now) {
        assert(opens(reg.sessions, session, id, 604800, now));
        law_binding(reg, pubkey, id, now);
        assert(is_bound(reg.bound(pubkey, id, now), pubkey, id));
    }
}

/// A registry of nobody has no account behind any key, and its first account has the id 1.
pub proof fn law_a_registry_of_nobody(pubkey: Str, e: Str, key: Str, token: Str, now: i64)
    ensures
        empty_registry().consistent(),
        empty_registry().account_of(pubkey) is None,
        empty_registry().issued(e, key, token, now).accounts.len() == 1,
        empty_registry().issued(e, key, token, now).accounts[0].id == 1,
{
}

/// A caller who bears a session sees the agents of the session's account, and is refused
/// where it opens none, whatever account key comes with it. Without a session the account
/// key counts, and one that nobody has shows no agents. With neither, the caller is asked to
/// log in.
pub proof fn law_callers_see_their_own_agents(d: DirectoryModel, session: Str, header: Str, key: Str, k: Option<Str>, now: i64)
    requires
        !"Bearer "@.is_prefix_of(header),
    ensures
        ({
            let bearing = d.callers_agents(Some("Bearer "@ + session), k, now);
            &&& forall|id: i64|
                d.accounts.session_account(session, now) == Some(id) ==> bearing == Ok::<Seq<Str>, Refusal>(
                    #[trigger] d.accounts.agents_of(id),
                )
            &&& d.accounts.session_account(session, now) is None ==> bearing == Err::<Seq<Str>, Refusal>(Refusal::BadSession)
        }),
        ({
            let keyed = d.callers_agents(None, Some(key), now);
            &&& forall|i: int|
                d.accounts.by_key(key) == Some(i) ==> keyed == Ok::<Seq<Str>, Refusal>(
                    d.accounts.agents_of((#[trigger] d.accounts.accounts[i]).id),
                )
            &&& d.accounts.by_key(key) is None ==> keyed == Ok::<Seq<Str>, Refusal>(Seq::empty())
            &&& d.callers_agents(Some(header), Some(key), now) == keyed
        }),
        d.callers_agents(None, None, now) == Err::<Seq<Str>, Refusal>(Refusal::NotLoggedIn),
        d.callers_agents(Some(header), None, now) == Err::<Seq<Str>, Refusal>(Refusal::NotLoggedIn),
{
    let h = "Bearer "@ + session;
    assert("Bearer "@.is_prefix_of(h));
    assert(h.skip("Bearer "@.len() as int) =~= session);
}

} // verus!
