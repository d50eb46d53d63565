//! Human accountability. Reading is open to everyone; publishing needs a verified
//! human behind the agent. A person registers with an email, verifies it, and binds
//! as many agent identities as they like, so that every published record traces back
//! to a verified human.

use crate::clock::now;
use crate::secret::{hash, rand_hex, secret_hash, spells_bytes};
use crate::seqs::{
    first_match, lemma_filter_holds, lemma_filter_keeps_distinct, lemma_filter_none, lemma_filter_step, lemma_first_match,
    lemma_first_match_at, lemma_first_match_none,
};
use crate::text::{chars_of, decimal, decimal_of, lowercase, same, texts, to_lower, trim, trimmed};
use vstd::prelude::*;
use vstd::utf8::encode_utf8;

verus! {

/// How long a login token can be redeemed, in seconds.
pub const LOGIN_TTL_SECS: i64 = 900;

/// How long a session lasts, in seconds.
pub const SESSION_TTL_SECS: i64 = 604800;

/// A registered human.
#[derive(Debug, Clone)]
pub struct AccountRow {
    pub id: i64,
    pub email: String,
    pub key_hash: String,
    pub verify_token: Option<String>,
    pub verified: bool,
    pub created_ts: i64,
}

/// An agent key that belongs to an account.
#[derive(Debug, Clone)]
pub struct Binding {
    pub pubkey: String,
    pub account_id: i64,
    pub bound_ts: i64,
}

/// A login token or a session of an account.
#[derive(Debug, Clone)]
pub struct Ticket {
    pub token: String,
    pub account_id: i64,
    pub created_ts: i64,
}

/// What an `AccountRow` says.
pub struct AccountModel {
    pub id: i64,
    pub email: Seq<char>,
    pub key_hash: Seq<char>,
    pub verify_token: Option<Seq<char>>,
    pub verified: bool,
    pub created_ts: i64,
}

/// What a `Binding` says.
pub struct BindingModel {
    pub pubkey: Seq<char>,
    pub account_id: i64,
    pub bound_ts: i64,
}

/// What a `Ticket` says.
pub struct TicketModel {
    pub token: Seq<char>,
    pub account_id: i64,
    pub created_ts: i64,
}

impl View for AccountRow {
    type V = AccountModel;

    open spec fn view(&self) -> AccountModel {
        AccountModel {
            id: self.id,
            email: self.email@,
            key_hash: self.key_hash@,
            verify_token: match self.verify_token {
                Some(t) => Some(t@),
                None => None,
            },
            verified: self.verified,
            created_ts: self.created_ts,
        }
    }
}

impl View for Binding {
    type V = BindingModel;

    open spec fn view(&self) -> BindingModel {
        BindingModel { pubkey: self.pubkey@, account_id: self.account_id, bound_ts: self.bound_ts }
    }
}

impl View for Ticket {
    type V = TicketModel;

    open spec fn view(&self) -> TicketModel {
        TicketModel { token: self.token@, account_id: self.account_id, created_ts: self.created_ts }
    }
}

/// Outcome of a registration: the account key, shown once to the caller, and the
/// verify token that is mailed to the human.
#[derive(Debug, Clone)]
pub struct Registered {
    pub account_key: String,
    pub verify_token: String,
    pub already: bool,
}

/// Why an account operation was refused.
#[derive(Debug, Clone, Copy, PartialEq, Eq, Structural)]
pub enum AccountError {
    NotAnEmail,
    OwnershipProof,
    UnknownKey,
    NotVerified,
    InvalidSession,
    TokenTaken,
    Full,
}

impl AccountError {
    /// The reason in words.
    pub open spec fn words(self) -> Seq<char> {
        match self {
            AccountError::NotAnEmail => "that doesn't look like an email address"@,
            AccountError::OwnershipProof => "agent ownership proof failed (signature does not match pubkey)"@,
            AccountError::UnknownKey => "unknown account key"@,
            AccountError::NotVerified => "account not verified yet — check your email and run `revenant net verify <token>`"@,
            AccountError::InvalidSession => "invalid or expired session — log in again"@,
            AccountError::TokenTaken => "token is already taken"@,
            AccountError::Full => "no account id is left"@,
        }
    }

    /// The reason in words.
    pub fn message(&self) -> (r: &'static str)
        ensures
            r@ == self.words(),
    {
        match self {
            AccountError::NotAnEmail => "that doesn't look like an email address",
            AccountError::OwnershipProof => "agent ownership proof failed (signature does not match pubkey)",
            AccountError::UnknownKey => "unknown account key",
            AccountError::NotVerified => "account not verified yet — check your email and run `revenant net verify <token>`",
            AccountError::InvalidSession => "invalid or expired session — log in again",
            AccountError::TokenTaken => "token is already taken",
            AccountError::Full => "no account id is left",
        }
    }
}

/// The registry: accounts, the agents bound to them, and who is logging in.
pub struct Accounts {
    pub accounts: Vec<AccountRow>,
    pub bindings: Vec<Binding>,
    pub logins: Vec<Ticket>,
    pub sessions: Vec<Ticket>,
    /// The highest id given out.
    pub last_id: i64,
}

/// What the registry holds.
#[verifier::ext_equal]
pub struct Registry {
    pub accounts: Seq<AccountModel>,
    pub bindings: Seq<BindingModel>,
    pub logins: Seq<TicketModel>,
    pub sessions: Seq<TicketModel>,
    pub last_id: i64,
}

pub open spec fn account_models(s: Seq<AccountRow>) -> Seq<AccountModel> {
    s.map_values(|r: AccountRow| r@)
}

pub open spec fn binding_models(s: Seq<Binding>) -> Seq<BindingModel> {
    s.map_values(|r: Binding| r@)
}

pub open spec fn ticket_models(s: Seq<Ticket>) -> Seq<TicketModel> {
    s.map_values(|r: Ticket| r@)
}

impl View for Accounts {
    type V = Registry;

    open spec fn view(&self) -> Registry {
        Registry {
            accounts: account_models(self.accounts@),
            bindings: binding_models(self.bindings@),
            logins: ticket_models(self.logins@),
            sessions: ticket_models(self.sessions@),
            last_id: self.last_id,
        }
    }
}

/// The form in which an email is stored and looked up.
pub open spec fn email_key(email: Seq<char>) -> Seq<char> {
    lowercase(trimmed(email))
}

/// What is taken for an email: it has an `@` and at least three bytes.
pub open spec fn looks_like_email(e: Seq<char>) -> bool {
    e.contains('@') && encode_utf8(e).len() >= 3
}

/// The accountability unit of account `id`.
pub open spec fn account_unit(id: i64) -> Seq<char> {
    "acct:"@ + decimal(id as int)
}

/// Seconds from `then` to `now`, negative where `then` is still to come.
pub open spec fn elapsed(now: i64, then: i64) -> int {
    now - then
}

/// Seconds from `then` to `now`, negative where `then` is still to come.
pub(crate) fn seconds_between(then: i64, now: i64) -> (r: i128)
    ensures
        r == elapsed(now, then),
{
    now as i128 - then as i128
}

/// The account after its email was verified with `token`, where that is its token.
pub open spec fn verified_by(r: AccountModel, token: Seq<char>) -> AccountModel {
    if r.verify_token == Some(token) {
        AccountModel { verified: true, verify_token: None, ..r }
    } else {
        r
    }
}

/// A registry of nobody.
pub open spec fn empty_registry() -> Registry {
    Registry {
        accounts: Seq::empty(),
        bindings: Seq::empty(),
        logins: Seq::empty(),
        sessions: Seq::empty(),
        last_id: 0,
    }
}

impl Registry {
    pub open spec fn by_email(self, e: Seq<char>) -> Option<int> {
        first_match(self.accounts, |r: AccountModel| r.email == e)
    }

    pub open spec fn by_key(self, key: Seq<char>) -> Option<int> {
        first_match(self.accounts, |r: AccountModel| r.key_hash == secret_hash(key))
    }

    pub open spec fn binding_of(self, pubkey: Seq<char>) -> Option<int> {
        first_match(self.bindings, |b: BindingModel| b.pubkey == pubkey)
    }

    pub open spec fn login_of(self, token: Seq<char>) -> Option<int> {
        first_match(self.logins, |t: TicketModel| t.token == token)
    }

    pub open spec fn session_of(self, token: Seq<char>) -> Option<int> {
        first_match(self.sessions, |t: TicketModel| t.token == token)
    }

    /// Account `id` is there and verified.
    pub open spec fn is_verified(self, id: i64) -> bool {
        exists|i: int| 0 <= i < self.accounts.len() && (#[trigger] self.accounts[i]).id == id && self.accounts[i].verified
    }

    /// The verified account that a key is bound to.
    pub open spec fn account_of(self, pubkey: Seq<char>) -> Option<i64> {
        match self.binding_of(pubkey) {
            Some(i) => if self.is_verified(self.bindings[i].account_id) {
                Some(self.bindings[i].account_id)
            } else {
                None
            },
            None => None,
        }
    }

    /// The unit that a key answers to: its verified account, else itself.
    pub open spec fn unit_of(self, pubkey: Seq<char>) -> Seq<char> {
        match self.account_of(pubkey) {
            Some(id) => account_unit(id),
            None => pubkey,
        }
    }

    /// The keys bound to account `id`, in the order they were bound.
    pub open spec fn agents_of(self, id: i64) -> Seq<Seq<char>> {
        self.bindings.filter(|b: BindingModel| b.account_id == id).map_values(|b: BindingModel| b.pubkey)
    }

    /// The account behind a session that has not expired.
    pub open spec fn session_account(self, session: Seq<char>, now: i64) -> Option<i64> {
        match self.session_of(session) {
            Some(i) => if elapsed(now, self.sessions[i].created_ts) > SESSION_TTL_SECS {
                None
            } else {
                Some(self.sessions[i].account_id)
            },
            None => None,
        }
    }

    /// The registry with `pubkey` bound to account `id`.
    pub open spec fn bound(self, pubkey: Seq<char>, id: i64, now: i64) -> Registry {
        match self.binding_of(pubkey) {
            Some(i) => Registry {
                bindings: self.bindings.update(i, BindingModel { account_id: id, ..self.bindings[i] }),
                ..self
            },
            None => Registry {
                bindings: self.bindings.push(BindingModel { pubkey, account_id: id, bound_ts: now }),
                ..self
            },
        }
    }

    /// The registry once `key` and `token` were issued for an email that may register.
    pub open spec fn issued(self, e: Seq<char>, key: Seq<char>, token: Seq<char>, now: i64) -> Registry {
        match self.by_email(e) {
            Some(i) => Registry {
                accounts: self.accounts.update(
                    i,
                    AccountModel {
                        key_hash: secret_hash(key),
                        verify_token: Some(token),
                        ..self.accounts[i]
                    },
                ),
                ..self
            },
            None => Registry {
                accounts: self.accounts.push(
                    AccountModel {
                        id: (self.last_id + 1) as i64,
                        email: e,
                        key_hash: secret_hash(key),
                        verify_token: Some(token),
                        verified: false,
                        created_ts: now,
                    },
                ),
                last_id: (self.last_id + 1) as i64,
                ..self
            },
        }
    }

    /// What comes of registering an email: whether it was verified before.
    pub open spec fn registration(self, email: Seq<char>) -> Result<bool, AccountError> {
        let e = email_key(email);
        if !looks_like_email(e) {
            Err(AccountError::NotAnEmail)
        } else {
            match self.by_email(e) {
                Some(i) => Ok(self.accounts[i].verified),
                None => if self.last_id == i64::MAX {
                    Err(AccountError::Full)
                } else {
                    Ok(false)
                },
            }
        }
    }

    /// The registry once the accounts that wait for `token` are verified.
    pub open spec fn after_verify(self, token: Seq<char>) -> Registry {
        Registry { accounts: self.accounts.map_values(|r: AccountModel| verified_by(r, token)), ..self }
    }

    /// Some account waits for `token`.
    pub open spec fn awaits(self, token: Seq<char>) -> bool {
        exists|i: int| 0 <= i < self.accounts.len() && (#[trigger] self.accounts[i]).verify_token == Some(token)
    }

    /// The outcome of binding a key with the account key.
    pub open spec fn binding_outcome(self, account_key: Seq<char>, proof_holds: bool) -> Result<i64, AccountError> {
        if !proof_holds {
            Err(AccountError::OwnershipProof)
        } else {
            match self.by_key(account_key) {
                Some(i) => if self.accounts[i].verified {
                    Ok(self.accounts[i].id)
                } else {
                    Err(AccountError::NotVerified)
                },
                None => Err(AccountError::UnknownKey),
            }
        }
    }

    /// The verified account of an email, if there is one.
    pub open spec fn verified_email(self, email: Seq<char>) -> Option<int> {
        first_match(self.accounts, |r: AccountModel| r.email == email_key(email) && r.verified)
    }

    /// The registry without the login token.
    pub open spec fn without_login(self, token: Seq<char>) -> Registry {
        Registry { logins: self.logins.filter(|t: TicketModel| t.token != token), ..self }
    }

    pub open spec fn with_login(self, token: Seq<char>, id: i64, now: i64) -> Registry {
        Registry { logins: self.logins.push(TicketModel { token, account_id: id, created_ts: now }), ..self }
    }

    pub open spec fn with_session(self, token: Seq<char>, id: i64, now: i64) -> Registry {
        Registry { sessions: self.sessions.push(TicketModel { token, account_id: id, created_ts: now }), ..self }
    }

    /// The outcome of binding a key with a login session.
    pub open spec fn session_binding_outcome(self, session: Seq<char>, proof_holds: bool, now: i64) -> Result<
        i64,
        AccountError,
    > {
        if !proof_holds {
            Err(AccountError::OwnershipProof)
        } else {
            match self.session_account(session, now) {
                Some(id) => Ok(id),
                None => Err(AccountError::InvalidSession),
            }
        }
    }

    /// The account that a login token still opens.
    pub open spec fn login_account(self, token: Seq<char>, now: i64) -> Option<i64> {
        match self.login_of(token) {
            Some(i) => if elapsed(now, self.logins[i].created_ts) > LOGIN_TTL_SECS {
                None
            } else {
                Some(self.logins[i].account_id)
            },
            None => None,
        }
    }

    /// What became of trading a login token, at `now`, for a session of fresh bytes.
    pub open spec fn traded(
        self,
        token: Seq<char>,
        now: i64,
        r: Result<Option<String>, AccountError>,
        after: Registry,
    ) -> bool {
        match self.login_account(token, now) {
            None => r == Ok::<Option<String>, AccountError>(None) && after == self.without_login(token),
            Some(id) => match r {
                Ok(Some(session)) => spells_bytes(session@, 24) && session@.len() == 48 && self.session_of(session@) is None
                    && after == self.without_login(token).with_session(session@, id, now),
                Ok(None) => false,
                Err(e) => e == AccountError::TokenTaken && self.sessions.len() > 0 && after == self.without_login(token),
            },
        }
    }

    /// What became of binding a key, at `now`, with a login session.
    pub open spec fn session_bound(
        self,
        session: Seq<char>,
        pubkey: Seq<char>,
        proof_holds: bool,
        now: i64,
        r: Result<(), AccountError>,
        after: Registry,
    ) -> bool {
        match self.session_binding_outcome(session, proof_holds, now) {
            Ok(id) => r is Ok && after == self.bound(pubkey, id, now),
            Err(e) => r == Err::<(), AccountError>(e) && after == self,
        }
    }

    /// What the tables keep: no email, id, key or token stands twice, and no id is
    /// above the highest one given out.
    pub open spec fn consistent(self) -> bool {
        &&& forall|i: int, j: int| 0 <= i < j < self.accounts.len() ==> (#[trigger] self.accounts[i]).email != (#[trigger] self.accounts[j]).email
        &&& forall|i: int, j: int| 0 <= i < j < self.accounts.len() ==> (#[trigger] self.accounts[i]).id != (#[trigger] self.accounts[j]).id
        &&& forall|i: int| 0 <= i < self.accounts.len() ==> (#[trigger] self.accounts[i]).id <= self.last_id
        &&& forall|i: int, j: int| 0 <= i < j < self.bindings.len() ==> (#[trigger] self.bindings[i]).pubkey != (#[trigger] self.bindings[j]).pubkey
        &&& forall|i: int, j: int| 0 <= i < j < self.logins.len() ==> (#[trigger] self.logins[i]).token != (#[trigger] self.logins[j]).token
        &&& forall|i: int, j: int| 0 <= i < j < self.sessions.len() ==> (#[trigger] self.sessions[i]).token != (#[trigger] self.sessions[j]).token
    }
}

impl Accounts {
    /// An empty registry.
    pub fn open() -> (r: Self)
        ensures
            r@ == empty_registry(),
            r@.consistent(),
    {
        let r = Accounts {
            accounts: Vec::new(),
            bindings: Vec::new(),
            logins: Vec::new(),
            sessions: Vec::new(),
            last_id: 0,
        };
        assert(r@.accounts =~= Seq::empty());
        assert(r@.bindings =~= Seq::empty());
        assert(r@.logins =~= Seq::empty());
        assert(r@.sessions =~= Seq::empty());
        r
    }

    /// A registry of the rows that were stored. New ids follow the highest one in use.
    pub fn restore(accounts: Vec<AccountRow>, bindings: Vec<Binding>, logins: Vec<Ticket>, sessions: Vec<Ticket>) -> (r: Self)
        ensures
            r.accounts == accounts,
            r.bindings == bindings,
            r.logins == logins,
            r.sessions == sessions,
            r.last_id >= 0,
            forall|i: int| 0 <= i < accounts.len() ==> (#[trigger] accounts@[i]).id <= r.last_id,
            r.last_id == 0 || exists|i: int| 0 <= i < accounts.len() && (#[trigger] accounts@[i]).id == r.last_id,
    {
        let mut last_id: i64 = 0;
        let mut i: usize = 0;
        while i < accounts.len()
            invariant
                0 <= i <= accounts.len(),
                last_id >= 0,
                forall|j: int| 0 <= j < i ==> (#[trigger] accounts@[j]).id <= last_id,
                last_id == 0 || exists|j: int| 0 <= j < i && (#[trigger] accounts@[j]).id == last_id,
            decreases accounts.len() - i,
        {
            if accounts[i].id > last_id {
                last_id = accounts[i].id;
                assert(accounts@[i as int].id == last_id);
            }
            i = i + 1;
        }
        Accounts { accounts, bindings, logins, sessions, last_id }
    }

    fn find_email(&self, e: &str) -> (r: Option<usize>)
        ensures
            match r {
                Some(i) => self@.by_email(e@) == Some(i as int) && i < self.accounts.len(),
                None => self@.by_email(e@) is None,
            },
    {
        let ghost p = |r: AccountModel| r.email == e@;
        let mut i: usize = 0;
        while i < self.accounts.len()
            invariant
                0 <= i <= self.accounts.len(),
                p == (|r: AccountModel| r.email == e@),
                forall|j: int| 0 <= j < i ==> !p(#[trigger] self@.accounts[j]),
            decreases self.accounts.len() - i,
        {
            if same(self.accounts[i].email.as_str(), e) {
                proof {
                    assert(p(self@.accounts[i as int]));
                    lemma_first_match_at(self@.accounts, p, i as int);
                }
                return Some(i);
            }
            i = i + 1;
        }
        proof {
            lemma_first_match_none(self@.accounts, p);
        }
        None
    }

    fn find_key(&self, account_key: &str) -> (r: Option<usize>)
        ensures
            match r {
                Some(i) => self@.by_key(account_key@) == Some(i as int) && i < self.accounts.len(),
                None => self@.by_key(account_key@) is None,
            },
    {
        let h = hash(account_key);
        let ghost p = |r: AccountModel| r.key_hash == secret_hash(account_key@);
        let mut i: usize = 0;
        while i < self.accounts.len()
            invariant
                0 <= i <= self.accounts.len(),
                h@ == secret_hash(account_key@),
                p == (|r: AccountModel| r.key_hash == secret_hash(account_key@)),
                forall|j: int| 0 <= j < i ==> !p(#[trigger] self@.accounts[j]),
            decreases self.accounts.len() - i,
        {
            if same(self.accounts[i].key_hash.as_str(), h.as_str()) {
                proof {
                    assert(p(self@.accounts[i as int]));
                    lemma_first_match_at(self@.accounts, p, i as int);
                }
                return Some(i);
            }
            i = i + 1;
        }
        proof {
            lemma_first_match_none(self@.accounts, p);
        }
        None
    }

    fn find_binding(&self, pubkey: &str) -> (r: Option<usize>)
        ensures
            match r {
                Some(i) => self@.binding_of(pubkey@) == Some(i as int) && i < self.bindings.len(),
                None => self@.binding_of(pubkey@) is None,
            },
    {
        let ghost p = |b: BindingModel| b.pubkey == pubkey@;
        let mut i: usize = 0;
        while i < self.bindings.len()
            invariant
                0 <= i <= self.bindings.len(),
                p == (|b: BindingModel| b.pubkey == pubkey@),
                forall|j: int| 0 <= j < i ==> !p(#[trigger] self@.bindings[j]),
            decreases self.bindings.len() - i,
        {
            if same(self.bindings[i].pubkey.as_str(), pubkey) {
                proof {
                    assert(p(self@.bindings[i as int]));
                    lemma_first_match_at(self@.bindings, p, i as int);
                }
                return Some(i);
            }
            i = i + 1;
        }
        proof {
            lemma_first_match_none(self@.bindings, p);
        }
        None
    }

    fn find_ticket(tickets: &Vec<Ticket>, token: &str) -> (r: Option<usize>)
        ensures
            match r {
                Some(i) => first_match(ticket_models(tickets@), |t: TicketModel| t.token == token@) == Some(i as int)
                    && i < tickets.len(),
                None => first_match(ticket_models(tickets@), |t: TicketModel| t.token == token@) is None,
            },
    {
        let ghost p = |t: TicketModel| t.token == token@;
        let ghost m = ticket_models(tickets@);
        let mut i: usize = 0;
        while i < tickets.len()
            invariant
                0 <= i <= tickets.len(),
                m == ticket_models(tickets@),
                p == (|t: TicketModel| t.token == token@),
                forall|j: int| 0 <= j < i ==> !p(#[trigger] m[j]),
            decreases tickets.len() - i,
        {
            if same(tickets[i].token.as_str(), token) {
                proof {
                    assert(p(m[i as int]));
                    lemma_first_match_at(m, p, i as int);
                }
                return Some(i);
            }
            i = i + 1;
        }
        proof {
            lemma_first_match_none(m, p);
        }
        None
    }

    /// The position of the verified account of an email in its stored form.
    fn find_verified_email(&self, e: &str) -> (r: Option<usize>)
        ensures
            match r {
                Some(i) => first_match(self@.accounts, |r: AccountModel| r.email == e@ && r.verified) == Some(i as int)
                    && i < self.accounts.len(),
                None => first_match(self@.accounts, |r: AccountModel| r.email == e@ && r.verified) is None,
            },
    {
        let ghost p = |r: AccountModel| r.email == e@ && r.verified;
        let mut i: usize = 0;
        while i < self.accounts.len()
            invariant
                0 <= i <= self.accounts.len(),
                p == (|r: AccountModel| r.email == e@ && r.verified),
                forall|j: int| 0 <= j < i ==> !p(#[trigger] self@.accounts[j]),
            decreases self.accounts.len() - i,
        {
            if self.accounts[i].verified && same(self.accounts[i].email.as_str(), e) {
                proof {
                    assert(p(self@.accounts[i as int]));
                    lemma_first_match_at(self@.accounts, p, i as int);
                }
                return Some(i);
            }
            i = i + 1;
        }
        proof {
            lemma_first_match_none(self@.accounts, p);
        }
        None
    }

    /// Registers an email under the given secrets, or issues them anew for one that is
    /// not verified yet. A verified email is left alone.
    pub fn register_with(&mut self, email: &str, account_key: String, verify_token: String, now: i64) -> (r: Result<
        Registered,
        AccountError,
    >)
        ensures
            match r {
                Ok(reg) => {
                    &&& old(self)@.registration(email@) == Ok::<bool, AccountError>(reg.already)
                    &&& reg.already ==> reg.account_key@ == Seq::<char>::empty() && reg.verify_token@ == Seq::<char>::empty()
                        && final(self)@ == old(self)@
                    &&& !reg.already ==> reg.account_key == account_key && reg.verify_token == verify_token
                        && final(self)@ == old(self)@.issued(email_key(email@), account_key@, verify_token@, now)
                },
                Err(e) => old(self)@.registration(email@) == Err::<bool, AccountError>(e) && final(self)@ == old(self)@,
            },
            old(self)@.consistent() ==> final(self)@.consistent(),
    {
        let ghost before = self@;
        let t = trim(email);
        let e = to_lower(t.as_str());
        if !has_at(e.as_str()) || e.as_str().as_bytes().len() < 3 {
            return Err(AccountError::NotAnEmail);
        }
        match self.find_email(e.as_str()) {
            Some(i) => {
                proof {
                    lemma_first_match(self@.accounts, |r: AccountModel| r.email == e@);
                }
                if self.accounts[i].verified {
                    return Ok(Registered { account_key: String::new(), verify_token: String::new(), already: true });
                }
                let h = hash(account_key.as_str());
                let mut row = self.accounts.remove(i);
                row.key_hash = h;
                row.verify_token = Some(verify_token.clone());
                let ghost new_row = row@;
                self.accounts.insert(i, row);
                proof {
                    assert(self@.accounts =~= before.accounts.update(i as int, new_row));
                    assert(self@ =~= before.issued(email_key(email@), account_key@, verify_token@, now));
                }
                Ok(Registered { account_key, verify_token, already: false })
            },
            None => {
                if self.last_id == i64::MAX {
                    return Err(AccountError::Full);
                }
                let h = hash(account_key.as_str());
                let row = AccountRow {
                    id: self.last_id + 1,
                    email: e,
                    key_hash: h,
                    verify_token: Some(verify_token.clone()),
                    verified: false,
                    created_ts: now,
                };
                let ghost new_row = row@;
                self.last_id = self.last_id + 1;
                self.accounts.push(row);
                proof {
                    assert(self@.accounts =~= before.accounts.push(new_row));
                    assert(self@ =~= before.issued(email_key(email@), account_key@, verify_token@, now));
                    lemma_first_match(before.accounts, |r: AccountModel| r.email == e@);
                }
                Ok(Registered { account_key, verify_token, already: false })
            },
        }
    }

    /// Registers an email, or issues fresh secrets for one that is not verified yet. A
    /// verified email is left alone (`already`). The key is for the caller to hold, the
    /// token to be mailed.
    pub fn register(&mut self, email: &str) -> (r: Result<Registered, AccountError>)
        ensures
            match r {
                Ok(reg) => {
                    &&& old(self)@.registration(email@) == Ok::<bool, AccountError>(reg.already)
                    &&& reg.already ==> reg.account_key@ == Seq::<char>::empty() && reg.verify_token@ == Seq::<char>::empty()
                        && final(self)@ == old(self)@
                    &&& !reg.already ==> spells_bytes(reg.account_key@, 32) && spells_bytes(reg.verify_token@, 16)
                        && reg.account_key@.len() == 64 && reg.verify_token@.len() == 32 && exists|now: i64|
                        final(self)@ == #[trigger] old(self)@.issued(
                            email_key(email@),
                            reg.account_key@,
                            reg.verify_token@,
                            now,
                        )
                },
                Err(e) => old(self)@.registration(email@) == Err::<bool, AccountError>(e) && final(self)@ == old(self)@,
            },
            old(self)@.consistent() ==> final(self)@.consistent(),
    {
        let account_key = rand_hex(32);
        let verify_token = rand_hex(16);
        let t = now();
        self.register_with(email, account_key, verify_token, t)
    }

    /// Redeems a mailed token: the accounts that wait for it are verified. Says whether
    /// there was one.
    pub fn verify(&mut self, token: &str) -> (r: bool)
        ensures
            r == old(self)@.awaits(token@),
            final(self)@ == old(self)@.after_verify(token@),
            old(self)@.consistent() ==> final(self)@.consistent(),
    {
        let ghost before = self@;
        let mut any: bool = false;
        let mut i: usize = 0;
        while i < self.accounts.len()
            invariant
                0 <= i <= self.accounts.len(),
                before == old(self)@,
                self@.accounts.len() == before.accounts.len(),
                self@.bindings == before.bindings,
                self@.logins == before.logins,
                self@.sessions == before.sessions,
                self@.last_id == before.last_id,
                forall|j: int| 0 <= j < i ==> #[trigger] self@.accounts[j] == verified_by(before.accounts[j], token@),
                forall|j: int| i <= j < self@.accounts.len() ==> #[trigger] self@.accounts[j] == before.accounts[j],
                any == exists|j: int| 0 <= j < i && (#[trigger] before.accounts[j]).verify_token == Some(token@),
            decreases self.accounts.len() - i,
        {
            let ghost models = self@.accounts;
            assert(models[i as int] == before.accounts[i as int]);
            let hit = match &self.accounts[i].verify_token {
                Some(t) => same(t.as_str(), token),
                None => false,
            };
            assert(hit == (before.accounts[i as int].verify_token == Some(token@)));
            if hit {
                let mut row = self.accounts.remove(i);
                row.verified = true;
                row.verify_token = None;
                let ghost new_row = row@;
                self.accounts.insert(i, row);
                assert(self@.accounts =~= models.update(i as int, new_row));
                any = true;
            }
            i = i + 1;
        }
        assert(self@ =~= before.after_verify(token@));
        any
    }

    fn put_binding(&mut self, pubkey: &str, id: i64, now: i64)
        ensures
            final(self)@ == old(self)@.bound(pubkey@, id, now),
            old(self)@.consistent() ==> final(self)@.consistent(),
    {
        let ghost before = self@;
        proof {
            lemma_first_match(self@.bindings, |b: BindingModel| b.pubkey == pubkey@);
        }
        match self.find_binding(pubkey) {
            Some(i) => {
                let mut row = self.bindings.remove(i);
                row.account_id = id;
                let ghost new_row = row@;
                self.bindings.insert(i, row);
                assert(self@.bindings =~= before.bindings.update(i as int, new_row));
            },
            None => {
                let row = Binding { pubkey: pubkey.to_owned(), account_id: id, bound_ts: now };
                let ghost new_row = row@;
                self.bindings.push(row);
                assert(self@.bindings =~= before.bindings.push(new_row));
            },
        }
        assert(self@ =~= before.bound(pubkey@, id, now));
    }

    /// Binds an agent key to the verified account that `account_key` opens.
    /// `proof_holds` says whether the agent's signature over the account key checks out,
    /// which shows that the caller controls the agent's private key.
    pub fn bind_with(&mut self, account_key: &str, pubkey: &str, proof_holds: bool, now: i64) -> (r: Result<(), AccountError>)
        ensures
            match r {
                Ok(_) => old(self)@.binding_outcome(account_key@, proof_holds) is Ok && final(self)@ == old(self)@.bound(
                    pubkey@,
                    old(self)@.binding_outcome(account_key@, proof_holds)->Ok_0,
                    now,
                ),
                Err(e) => old(self)@.binding_outcome(account_key@, proof_holds) == Err::<i64, AccountError>(e)
                    && final(self)@ == old(self)@,
            },
            old(self)@.consistent() ==> final(self)@.consistent(),
    {
        if !proof_holds {
            return Err(AccountError::OwnershipProof);
        }
        match self.find_key(account_key) {
            Some(i) => {
                if !self.accounts[i].verified {
                    return Err(AccountError::NotVerified);
                }
                let id = self.accounts[i].id;
                self.put_binding(pubkey, id, now);
                Ok(())
            },
            None => Err(AccountError::UnknownKey),
        }
    }

    /// Binds an agent key to the verified account that `account_key` opens, as of now.
    pub fn bind(&mut self, account_key: &str, pubkey: &str, proof_holds: bool) -> (r: Result<(), AccountError>)
        ensures
            match r {
                Ok(_) => old(self)@.binding_outcome(account_key@, proof_holds) is Ok && exists|now: i64|
                    final(self)@ == #[trigger] old(self)@.bound(
                        pubkey@,
                        old(self)@.binding_outcome(account_key@, proof_holds)->Ok_0,
                        now,
                    ),
                Err(e) => old(self)@.binding_outcome(account_key@, proof_holds) == Err::<i64, AccountError>(e)
                    && final(self)@ == old(self)@,
            },
            old(self)@.consistent() ==> final(self)@.consistent(),
    {
        let t = now();
        self.bind_with(account_key, pubkey, proof_holds, t)
    }

    /// The agent keys bound to account `account_id`, in the order they were bound.
    pub fn agents_for_id(&self, account_id: i64) -> (r: Vec<String>)
        ensures
            texts(r@) == self@.agents_of(account_id),
    {
        let ghost p = |b: BindingModel| b.account_id == account_id;
        let ghost f = |b: BindingModel| b.pubkey;
        let ghost m = self@.bindings;
        let mut out: Vec<String> = Vec::new();
        let mut i: usize = 0;
        proof {
            lemma_filter_none(m, p);
            assert(texts(out@) =~= m.take(0).filter(p).map_values(f));
        }
        while i < self.bindings.len()
            invariant
                0 <= i <= self.bindings.len(),
                m == self@.bindings,
                p == (|b: BindingModel| b.account_id == account_id),
                f == (|b: BindingModel| b.pubkey),
                texts(out@) == m.take(i as int).filter(p).map_values(f),
            decreases self.bindings.len() - i,
        {
            proof {
                lemma_filter_step(m, p, i as int);
            }
            if self.bindings[i].account_id == account_id {
                let ghost prev = out@;
                out.push(self.bindings[i].pubkey.clone());
                assert(texts(out@) =~= texts(prev).push(m[i as int].pubkey));
                assert(m.take(i + 1).filter(p).map_values(f) =~= m.take(i as int).filter(p).map_values(f).push(
                    m[i as int].pubkey,
                ));
            }
            i = i + 1;
        }
        assert(m.take(i as int) =~= m);
        out
    }

    /// The agent keys bound to the account that `account_key` opens; none where the key
    /// is unknown.
    pub fn agents_for(&self, account_key: &str) -> (r: Vec<String>)
        ensures
            texts(r@) == match self@.by_key(account_key@) {
                Some(i) => self@.agents_of(self@.accounts[i].id),
                None => Seq::empty(),
            },
    {
        match self.find_key(account_key) {
            Some(i) => self.agents_for_id(self.accounts[i].id),
            None => {
                let out: Vec<String> = Vec::new();
                assert(texts(out@) =~= Seq::<Seq<char>>::empty());
                out
            },
        }
    }

    /// Begins a login: for a verified account of this email, stores the one-time token
    /// and hands it back. Nothing for an email that is unknown or not verified.
    pub fn request_login_with(&mut self, email: &str, token: String, now: i64) -> (r: Result<Option<String>, AccountError>)
        ensures
            match old(self)@.verified_email(email@) {
                None => r == Ok::<Option<String>, AccountError>(None) && final(self)@ == old(self)@,
                Some(i) => if old(self)@.login_of(token@) is Some {
                    r == Err::<Option<String>, AccountError>(AccountError::TokenTaken) && final(self)@ == old(self)@
                } else {
                    r == Ok::<Option<String>, AccountError>(Some(token)) && final(self)@ == old(self)@.with_login(
                        token@,
                        old(self)@.accounts[i].id,
                        now,
                    )
                },
            },
            old(self)@.consistent() ==> final(self)@.consistent(),
    {
        let ghost before = self@;
        let t = trim(email);
        let e = to_lower(t.as_str());
        match self.find_verified_email(e.as_str()) {
            None => Ok(None),
            Some(i) => {
                let id = self.accounts[i].id;
                proof {
                    lemma_first_match(self@.logins, |t: TicketModel| t.token == token@);
                }
                if Self::find_ticket(&self.logins, token.as_str()).is_some() {
                    return Err(AccountError::TokenTaken);
                }
                let row = Ticket { token: token.clone(), account_id: id, created_ts: now };
                let ghost new_row = row@;
                self.logins.push(row);
                assert(self@.logins =~= before.logins.push(new_row));
                assert(self@ =~= before.with_login(token@, id, now));
                Ok(Some(token))
            },
        }
    }

    /// Begins a login with a fresh random token.
    pub fn request_login(&mut self, email: &str) -> (r: Result<Option<String>, AccountError>)
        ensures
            match old(self)@.verified_email(email@) {
                None => r == Ok::<Option<String>, AccountError>(None) && final(self)@ == old(self)@,
                Some(i) => match r {
                    Ok(Some(token)) => spells_bytes(token@, 20) && token@.len() == 40 && old(self)@.login_of(token@) is None && exists|now: i64|
                        final(self)@ == #[trigger] old(self)@.with_login(token@, old(self)@.accounts[i].id, now),
                    Ok(None) => false,
                    Err(e) => e == AccountError::TokenTaken && old(self)@.logins.len() > 0 && final(self)@ == old(self)@,
                },
            },
            old(self)@.consistent() ==> final(self)@.consistent(),
    {
        let token = rand_hex(20);
        let t = now();
        proof {
            lemma_first_match(self@.logins, |t: TicketModel| t.token == token@);
        }
        self.request_login_with(email, token, t)
    }

    fn drop_login(&mut self, token: &str)
        ensures
            final(self)@ == old(self)@.without_login(token@),
            old(self)@.consistent() ==> final(self)@.consistent(),
    {
        let ghost before = self@;
        let ghost p = |t: TicketModel| t.token != token@;
        let ghost m = before.logins;
        let mut old_rows: Vec<Ticket> = Vec::new();
        std::mem::swap(&mut old_rows, &mut self.logins);
        let mut kept: Vec<Ticket> = Vec::new();
        proof {
            lemma_filter_none(m, p);
            assert(ticket_models(kept@) =~= m.take(0).filter(p));
            assert(ticket_models(old_rows@) =~= m.skip(0));
        }
        let ghost mut i: int = 0;
        while old_rows.len() > 0
            invariant
                0 <= i <= m.len(),
                p == (|t: TicketModel| t.token != token@),
                ticket_models(old_rows@) == m.skip(i),
                ticket_models(kept@) == m.take(i).filter(p),
            decreases old_rows.len(),
        {
            let ghost rest = old_rows@;
            let row = old_rows.remove(0);
            let ghost w = row@;
            proof {
                assert(m.skip(i).len() == rest.len());
                assert(ticket_models(rest)[0] == w);
                assert(m.skip(i)[0] == m[i]);
                assert(m.skip(i).skip(1) =~= m.skip(i + 1));
                assert(ticket_models(old_rows@) =~= ticket_models(rest).skip(1));
                lemma_filter_step(m, p, i);
                i = i + 1;
            }
            if !same(row.token.as_str(), token) {
                let ghost prev = kept@;
                kept.push(row);
                assert(ticket_models(kept@) =~= ticket_models(prev).push(w));
            }
        }
        proof {
            assert(ticket_models(old_rows@).len() == 0);
            assert(m.skip(i).len() == m.len() - i);
            assert(m.take(i) =~= m);
        }
        self.logins = kept;
        proof {
            assert(self@ =~= before.without_login(token@));
            lemma_filter_keeps_distinct(m, p, |t: TicketModel| t.token);
        }
    }

    /// Trades a login token for the session `session`. The login token is used up
    /// whether or not it was still fresh. Nothing where it is unknown or expired.
    pub fn redeem_login_with(&mut self, login_token: &str, session: String, now: i64) -> (r: Result<Option<String>, AccountError>)
        ensures
            match old(self)@.login_account(login_token@, now) {
                None => r == Ok::<Option<String>, AccountError>(None) && final(self)@ == old(self)@.without_login(login_token@),
                Some(id) => if old(self)@.session_of(session@) is Some {
                    r == Err::<Option<String>, AccountError>(AccountError::TokenTaken) && final(self)@
                        == old(self)@.without_login(login_token@)
                } else {
                    r == Ok::<Option<String>, AccountError>(Some(session)) && final(self)@ == old(self)@.without_login(
                        login_token@,
                    ).with_session(session@, id, now)
                },
            },
            old(self)@.consistent() ==> final(self)@.consistent(),
    {
        let row: Option<(i64, i64)> = match Self::find_ticket(&self.logins, login_token) {
            Some(i) => Some((self.logins[i].account_id, self.logins[i].created_ts)),
            None => None,
        };
        self.drop_login(login_token);
        let ghost mid = self@;
        match row {
            None => Ok(None),
            Some((id, created)) => {
                if seconds_between(created, now) > LOGIN_TTL_SECS as i128 {
                    return Ok(None);
                }
                proof {
                    lemma_first_match(self@.sessions, |t: TicketModel| t.token == session@);
                }
                if Self::find_ticket(&self.sessions, session.as_str()).is_some() {
                    return Err(AccountError::TokenTaken);
                }
                let row = Ticket { token: session.clone(), account_id: id, created_ts: now };
                let ghost new_row = row@;
                self.sessions.push(row);
                assert(self@.sessions =~= mid.sessions.push(new_row));
                assert(self@ =~= mid.with_session(session@, id, now));
                Ok(Some(session))
            },
        }
    }

    /// Trades a login token for a fresh random session, by the clock.
    pub fn redeem_login(&mut self, login_token: &str) -> (r: Result<Option<String>, AccountError>)
        ensures
            exists|now: i64| #[trigger] old(self)@.traded(login_token@, now, r, final(self)@),
            old(self)@.login_of(login_token@) is None ==> r == Ok::<Option<String>, AccountError>(None),
            final(self)@.login_of(login_token@) is None,
            old(self)@.consistent() ==> final(self)@.consistent(),
    {
        let session = rand_hex(24);
        let t = now();
        proof {
            lemma_first_match(self@.sessions, |t: TicketModel| t.token == session@);
            lemma_login_used_up(self@, login_token@);
        }
        let ghost before = self@;
        let r = self.redeem_login_with(login_token, session, t);
        proof {
            assert(before.traded(login_token@, t, r, self@));
            assert(self@.logins == before.without_login(login_token@).logins);
        }
        r
    }

    /// The account behind a session that has not expired at `now`.
    pub fn account_for_session_at(&self, session: &str, now: i64) -> (r: Option<i64>)
        ensures
            r == self@.session_account(session@, now),
    {
        match Self::find_ticket(&self.sessions, session) {
            Some(i) => {
                if seconds_between(self.sessions[i].created_ts, now) > SESSION_TTL_SECS as i128 {
                    None
                } else {
                    Some(self.sessions[i].account_id)
                }
            },
            None => None,
        }
    }

    /// The account behind a session that has not expired by the clock.
    pub fn account_for_session(&self, session: &str) -> (r: Option<i64>)
        ensures
            exists|now: i64| r == #[trigger] self@.session_account(session@, now),
            self@.session_of(session@) is None ==> r is None,
    {
        let t = now();
        self.account_for_session_at(session, t)
    }

    /// Binds an agent key to the account behind a login session. `proof_holds` says
    /// whether the agent's signature over the session token checks out.
    pub fn bind_via_session_at(&mut self, session: &str, pubkey: &str, proof_holds: bool, now: i64) -> (r: Result<(), AccountError>)
        ensures
            match r {
                Ok(_) => old(self)@.session_binding_outcome(session@, proof_holds, now) is Ok && final(self)@ == old(
                    self,
                )@.bound(pubkey@, old(self)@.session_binding_outcome(session@, proof_holds, now)->Ok_0, now),
                Err(e) => old(self)@.session_binding_outcome(session@, proof_holds, now) == Err::<i64, AccountError>(e)
                    && final(self)@ == old(self)@,
            },
            old(self)@.consistent() ==> final(self)@.consistent(),
    {
        if !proof_holds {
            return Err(AccountError::OwnershipProof);
        }
        match self.account_for_session_at(session, now) {
            Some(id) => {
                self.put_binding(pubkey, id, now);
                Ok(())
            },
            None => Err(AccountError::InvalidSession),
        }
    }

    /// Binds an agent key to the account behind a login session, by the clock.
    pub fn bind_via_session(&mut self, session: &str, pubkey: &str, proof_holds: bool) -> (r: Result<(), AccountError>)
        ensures
            !proof_holds ==> r == Err::<(), AccountError>(AccountError::OwnershipProof),
            proof_holds && old(self)@.session_of(session@) is None ==> r == Err::<(), AccountError>(
                AccountError::InvalidSession,
            ),
            exists|now: i64| #[trigger] old(self)@.session_bound(session@, pubkey@, proof_holds, now, r, final(self)@),
            old(self)@.consistent() ==> final(self)@.consistent(),
    {
        let t = now();
        let ghost before = self@;
        let r = self.bind_via_session_at(session, pubkey, proof_holds, t);
        proof {
            assert(before.session_bound(session@, pubkey@, proof_holds, t, r, self@));
        }
        r
    }

    /// The id of the verified account that a key is bound to.
    pub fn account_id_for(&self, pubkey: &str) -> (r: Option<i64>)
        ensures
            r == self@.account_of(pubkey@),
    {
        match self.find_binding(pubkey) {
            Some(b) => {
                let id = self.bindings[b].account_id;
                let mut i: usize = 0;
                while i < self.accounts.len()
                    invariant
                        0 <= i <= self.accounts.len(),
                        b < self.bindings.len(),
                        id == self@.bindings[b as int].account_id,
                        self@.binding_of(pubkey@) == Some(b as int),
                        forall|j: int|
                            0 <= j < i ==> !((#[trigger] self@.accounts[j]).id == id && self@.accounts[j].verified),
                    decreases self.accounts.len() - i,
                {
                    if self.accounts[i].verified && self.accounts[i].id == id {
                        assert(self@.accounts[i as int].id == id);
                        assert(self@.is_verified(id));
                        return Some(id);
                    }
                    i = i + 1;
                }
                None
            },
            None => None,
        }
    }

    /// The unit of accountability of a key that is bound to a verified account:
    /// `acct:` and the account's id. Many agents behind one human share it.
    pub fn account_for(&self, pubkey: &str) -> (r: Option<String>)
        ensures
            match r {
                Some(s) => self@.account_of(pubkey@) is Some && s@ == account_unit(self@.account_of(pubkey@)->Some_0),
                None => self@.account_of(pubkey@) is None,
            },
    {
        match self.account_id_for(pubkey) {
            Some(id) => {
                let mut s = "acct:".to_owned();
                s.append(decimal_of(id).as_str());
                Some(s)
            },
            None => None,
        }
    }

    /// May this agent publish? Only if its key is bound to a verified account.
    pub fn is_authorized(&self, pubkey: &str) -> (r: bool)
        ensures
            r == (self@.account_of(pubkey@) is Some),
    {
        self.account_id_for(pubkey).is_some()
    }

    /// What a key answers to: its verified account, else the key itself.
    pub fn unit_for(&self, pubkey: &str) -> (r: String)
        ensures
            r@ == self@.unit_of(pubkey@),
    {
        match self.account_for(pubkey) {
            Some(s) => s,
            None => pubkey.to_owned(),
        }
    }
}

fn has_at(s: &str) -> (r: bool)
    ensures
        r == s@.contains('@'),
{
    let cs = chars_of(s);
    let mut i: usize = 0;
    while i < cs.len()
        invariant
            0 <= i <= cs.len(),
            cs@ == s@,
            forall|j: int| 0 <= j < i ==> #[trigger] s@[j] != '@',
        decreases cs.len() - i,
    {
        if cs[i] == '@' {
            assert(s@[i as int] == '@');
            return true;
        }
        i = i + 1;
    }
    false
}

/// A redeemed login token is gone.
pub proof fn lemma_login_used_up(reg: Registry, token: Seq<char>)
    ensures
        reg.without_login(token).login_of(token) is None,
{
    let p = |t: TicketModel| t.token != token;
    let q = |t: TicketModel| t.token == token;
    let kept = reg.logins.filter(p);
    lemma_filter_holds(reg.logins, p);
    lemma_first_match_none(kept, q);
}

} // verus!
