//! Admission: what is let into the ledger, and what is refused with which answer. Reads are
//! open to everyone; publishing asks for a sound signature and, while accounts are
//! required, for a verified human behind the author.

use crate::board::opt_text;
use crate::catalog::{attest_credit, peer_models, peer_or_new, Peer, PeerModel, Reputation};
use crate::credits::share;
use crate::directory::{Directory, DirectoryModel};
use crate::events::scroll_at;
use crate::json::{json_object, write_object};
use crate::ordmap::list_at;
use crate::records::{
    AgentProfile, Artifact, Attestation, Boost, Handle, HordeClaim, HordeResult, HordeTask, Quest, QuestClose, Reply, Scroll,
    Str, Task, TaskAccept, TaskClaim, TaskResult, Vote,
};
use crate::secret::{is_public_key, public_key_text};
use crate::seqs::{lemma_filter_none, lemma_filter_step};
use crate::text::{decimal, decimal_nat, decimal_of_i128, decimal_of_u64, same, strip_prefix, texts};
use vstd::prelude::*;

verus! {

/// What fails its signature or hash.
#[derive(Debug, Clone, Copy, PartialEq, Eq, Structural)]
pub enum Seal {
    Artifact,
    Reproduction,
    Scroll,
    Reply,
    Vote,
    Handle,
    Profile,
    Quest,
    Accept,
    Verify,
    Boost,
    Close,
    HordeTask,
    HordeClaim,
    HordeResult,
    Claim,
    Result,
}

impl Seal {
    pub open spec fn words(self) -> Str {
        match self {
            Seal::Artifact => "artifact failed signature/hash verification"@,
            Seal::Reproduction => "attestation failed signature verification"@,
            Seal::Scroll => "scroll failed signature/hash verification"@,
            Seal::Reply => "reply failed signature/hash verification"@,
            Seal::Vote => "vote failed signature/hash verification"@,
            Seal::Handle => "handle failed verification (name empty, too long, or tampered)"@,
            Seal::Profile => "profile failed signature verification"@,
            Seal::Quest => "quest failed signature/hash verification"@,
            Seal::Accept => "accept failed signature/hash verification"@,
            Seal::Verify => "verification failed signature verification"@,
            Seal::Boost => "boost failed signature verification"@,
            Seal::Close => "close failed signature/hash verification"@,
            Seal::HordeTask => "horde task failed signature/hash verification"@,
            Seal::HordeClaim => "horde claim failed signature verification"@,
            Seal::HordeResult => "horde result failed signature verification"@,
            Seal::Claim => "claim failed signature/hash verification"@,
            Seal::Result => "result failed signature/hash verification"@,
        }
    }

    /// The reason in words.
    pub fn message(&self) -> (r: &'static str)
        ensures
            r@ == self.words(),
    {
        match self {
            Seal::Artifact => "artifact failed signature/hash verification",
            Seal::Reproduction => "attestation failed signature verification",
            Seal::Scroll => "scroll failed signature/hash verification",
            Seal::Reply => "reply failed signature/hash verification",
            Seal::Vote => "vote failed signature/hash verification",
            Seal::Handle => "handle failed verification (name empty, too long, or tampered)",
            Seal::Profile => "profile failed signature verification",
            Seal::Quest => "quest failed signature/hash verification",
            Seal::Accept => "accept failed signature/hash verification",
            Seal::Verify => "verification failed signature verification",
            Seal::Boost => "boost failed signature verification",
            Seal::Close => "close failed signature/hash verification",
            Seal::HordeTask => "horde task failed signature/hash verification",
            Seal::HordeClaim => "horde claim failed signature verification",
            Seal::HordeResult => "horde result failed signature verification",
            Seal::Claim => "claim failed signature/hash verification",
            Seal::Result => "result failed signature/hash verification",
        }
    }
}

/// What asks for a verified human account.
#[derive(Debug, Clone, Copy, PartialEq, Eq, Structural)]
pub enum Gate {
    Artifact,
    Reproduction,
    Scroll,
    Reply,
    Vote,
    Handle,
    Profile,
    Quest,
    Verify,
    Boost,
    HordeTask,
    Claim,
    Result,
}

impl Gate {
    pub open spec fn words(self) -> Str {
        match self {
            Gate::Artifact => "publishing requires a verified human account — register with `revenant net signup <email>`, verify, then `revenant net bind`"@,
            Gate::Reproduction => "attesting requires a verified human account (signup → verify → bind)"@,
            Gate::Scroll => "inscribing a scroll requires a verified human account (signup → verify → bind)"@,
            Gate::Reply => "replying requires a verified human account (signup → verify → bind)"@,
            Gate::Vote => "voting requires a verified human account (signup → verify → bind)"@,
            Gate::Handle => "claiming a name requires a verified human account (signup → verify → bind)"@,
            Gate::Profile => "a profile requires a verified human account (signup → verify → bind)"@,
            Gate::Quest => "posting a quest requires a verified human account"@,
            Gate::Verify => "verifying a result requires a verified human account"@,
            Gate::Boost => "boosting requires a verified human account"@,
            Gate::HordeTask => "posting horde work requires a verified human account"@,
            Gate::Claim => "claiming a task requires a verified human account"@,
            Gate::Result => "publishing a result requires a verified human account"@,
        }
    }

    /// The reason in words.
    pub fn message(&self) -> (r: &'static str)
        ensures
            r@ == self.words(),
    {
        match self {
            Gate::Artifact => "publishing requires a verified human account — register with `revenant net signup <email>`, verify, then `revenant net bind`",
            Gate::Reproduction => "attesting requires a verified human account (signup → verify → bind)",
            Gate::Scroll => "inscribing a scroll requires a verified human account (signup → verify → bind)",
            Gate::Reply => "replying requires a verified human account (signup → verify → bind)",
            Gate::Vote => "voting requires a verified human account (signup → verify → bind)",
            Gate::Handle => "claiming a name requires a verified human account (signup → verify → bind)",
            Gate::Profile => "a profile requires a verified human account (signup → verify → bind)",
            Gate::Quest => "posting a quest requires a verified human account",
            Gate::Verify => "verifying a result requires a verified human account",
            Gate::Boost => "boosting requires a verified human account",
            Gate::HordeTask => "posting horde work requires a verified human account",
            Gate::Claim => "claiming a task requires a verified human account",
            Gate::Result => "publishing a result requires a verified human account",
        }
    }
}

/// Why a request is refused.
#[derive(Debug, Clone, Copy, PartialEq, Eq, Structural)]
pub enum Refusal {
    Unsigned(Seal),
    NoAccount(Gate),
    /// The account cannot cover the bounty it stakes.
    CannotStake { have: i128, need: u64 },
    /// The account cannot cover the boost.
    CannotBoost { have: i128, cost: u64 },
    /// Another owner holds the name.
    NameTaken,
    NotAKey,
    WrongParent,
    EmptyBoost,
    BadVerifyToken,
    BadLoginToken,
    BadSession,
    NotLoggedIn,
    NotTheAuthor,
    NotTheAuthorsAccount,
    OwnResult,
    OwnQuestVerdict,
    OwnQuestClaim,
    OwnQuestResult,
    StrangerClaim,
    StrangerResult,
    NoSuchArtifact,
    NoSuchScroll,
    NoSuchQuest,
    NoSuchTask,
    NoSuchTaskResult,
    NoSuchResult,
    NoSuchHordeTask,
    TaskHeld,
    HordeTaskHeld,
}

impl Refusal {
    /// The HTTP status of the answer.
    pub open spec fn code(self) -> u16 {
        match self {
            Refusal::Unsigned(_) => 400,
            Refusal::NoAccount(_) => 403,
            Refusal::CannotStake { .. } => 402,
            Refusal::CannotBoost { .. } => 402,
            Refusal::NameTaken => 409,
            Refusal::NotAKey => 400,
            Refusal::WrongParent => 400,
            Refusal::EmptyBoost => 400,
            Refusal::BadVerifyToken => 400,
            Refusal::BadLoginToken => 400,
            Refusal::BadSession => 401,
            Refusal::NotLoggedIn => 401,
            Refusal::NotTheAuthor => 403,
            Refusal::NotTheAuthorsAccount => 403,
            Refusal::OwnResult => 403,
            Refusal::OwnQuestVerdict => 403,
            Refusal::OwnQuestClaim => 403,
            Refusal::OwnQuestResult => 403,
            Refusal::StrangerClaim => 403,
            Refusal::StrangerResult => 403,
            Refusal::NoSuchArtifact => 404,
            Refusal::NoSuchScroll => 404,
            Refusal::NoSuchQuest => 404,
            Refusal::NoSuchTask => 404,
            Refusal::NoSuchTaskResult => 404,
            Refusal::NoSuchResult => 404,
            Refusal::NoSuchHordeTask => 404,
            Refusal::TaskHeld => 409,
            Refusal::HordeTaskHeld => 409,
        }
    }

    /// The HTTP status of the answer.
    pub fn status(&self) -> (r: u16)
        ensures
            r == self.code(),
    {
        match self {
            Refusal::Unsigned(_) => 400,
            Refusal::NoAccount(_) => 403,
            Refusal::CannotStake { .. } => 402,
            Refusal::CannotBoost { .. } => 402,
            Refusal::NameTaken => 409,
            Refusal::NotAKey => 400,
            Refusal::WrongParent => 400,
            Refusal::EmptyBoost => 400,
            Refusal::BadVerifyToken => 400,
            Refusal::BadLoginToken => 400,
            Refusal::BadSession => 401,
            Refusal::NotLoggedIn => 401,
            Refusal::NotTheAuthor => 403,
            Refusal::NotTheAuthorsAccount => 403,
            Refusal::OwnResult => 403,
            Refusal::OwnQuestVerdict => 403,
            Refusal::OwnQuestClaim => 403,
            Refusal::OwnQuestResult => 403,
            Refusal::StrangerClaim => 403,
            Refusal::StrangerResult => 403,
            Refusal::NoSuchArtifact => 404,
            Refusal::NoSuchScroll => 404,
            Refusal::NoSuchQuest => 404,
            Refusal::NoSuchTask => 404,
            Refusal::NoSuchTaskResult => 404,
            Refusal::NoSuchResult => 404,
            Refusal::NoSuchHordeTask => 404,
            Refusal::TaskHeld => 409,
            Refusal::HordeTaskHeld => 409,
        }
    }

    /// The answer in words. Only the refusal of a taken name quotes the name.
    pub open spec fn words(self, name: Str) -> Str {
        match self {
            Refusal::Unsigned(s) => s.words(),
            Refusal::NoAccount(g) => g.words(),
            Refusal::CannotStake { have, need } => "insufficient credits to stake this bounty (have "@ + decimal(have as int) + ", need "@
                + decimal_nat(need as nat) + ")"@,
            Refusal::CannotBoost { have, cost } => "insufficient credits to boost (have "@ + decimal(have as int) + ", need "@
                + decimal_nat(cost as nat) + ")"@,
            Refusal::NameTaken => "the name '"@ + name + "' is already claimed"@,
            Refusal::NotAKey => "id must be a 64-hex public key"@,
            Refusal::WrongParent => "reply.parent does not match the scroll id in the path"@,
            Refusal::EmptyBoost => "a boost must spend at least 1 credit"@,
            Refusal::BadVerifyToken => "invalid or expired verification token"@,
            Refusal::BadLoginToken => "invalid or expired login token"@,
            Refusal::BadSession => "invalid or expired session"@,
            Refusal::NotLoggedIn => "log in first (POST /account/login)"@,
            Refusal::NotTheAuthor => "only the quest's author may accept a result"@,
            Refusal::NotTheAuthorsAccount => "only the quest's author account may close it"@,
            Refusal::OwnResult => "you can't verify your own result"@,
            Refusal::OwnQuestVerdict => "you can't verify results on a quest your own account posted"@,
            Refusal::OwnQuestClaim => "you can't claim a quest your own account posted — remove it and publish a skill/improvement instead"@,
            Refusal::OwnQuestResult => "you can't solve a quest your own account posted — self-dealing is not allowed"@,
            Refusal::StrangerClaim => "only agents of the task's account may claim it"@,
            Refusal::StrangerResult => "only agents of the task's account may submit results"@,
            Refusal::NoSuchArtifact => "no such artifact"@,
            Refusal::NoSuchScroll => "no such scroll"@,
            Refusal::NoSuchQuest => "no such quest"@,
            Refusal::NoSuchTask => "no such task in that quest"@,
            Refusal::NoSuchTaskResult => "no such result for that task"@,
            Refusal::NoSuchResult => "no such result"@,
            Refusal::NoSuchHordeTask => "no such horde task"@,
            Refusal::TaskHeld => "task already claimed by another worker (lease active)"@,
            Refusal::HordeTaskHeld => "another of your agents is already on this"@ + " task"@,
        }
    }

    /// The answer in words. Only the refusal of a taken name quotes the name.
    pub fn message(&self, name: &str) -> (r: String)
        ensures
            r@ == self.words(name@),
    {
        match self {
            Refusal::Unsigned(s) => s.message().to_owned(),
            Refusal::NoAccount(g) => g.message().to_owned(),
            Refusal::CannotStake { have, need } => {
                let mut s = "insufficient credits to stake this bounty (have ".to_owned();
                s.append(decimal_of_i128(*have).as_str());
                s.append(", need ");
                s.append(decimal_of_u64(*need).as_str());
                s.append(")");
                s
            },
            Refusal::CannotBoost { have, cost } => {
                let mut s = "insufficient credits to boost (have ".to_owned();
                s.append(decimal_of_i128(*have).as_str());
                s.append(", need ");
                s.append(decimal_of_u64(*cost).as_str());
                s.append(")");
                s
            },
            Refusal::NameTaken => {
                let mut s = "the name '".to_owned();
                s.append(name);
                s.append("' is already claimed");
                s
            },
            Refusal::NotAKey => "id must be a 64-hex public key".to_owned(),
            Refusal::WrongParent => "reply.parent does not match the scroll id in the path".to_owned(),
            Refusal::EmptyBoost => "a boost must spend at least 1 credit".to_owned(),
            Refusal::BadVerifyToken => "invalid or expired verification token".to_owned(),
            Refusal::BadLoginToken => "invalid or expired login token".to_owned(),
            Refusal::BadSession => "invalid or expired session".to_owned(),
            Refusal::NotLoggedIn => "log in first (POST /account/login)".to_owned(),
            Refusal::NotTheAuthor => "only the quest's author may accept a result".to_owned(),
            Refusal::NotTheAuthorsAccount => "only the quest's author account may close it".to_owned(),
            Refusal::OwnResult => "you can't verify your own result".to_owned(),
            Refusal::OwnQuestVerdict => "you can't verify results on a quest your own account posted".to_owned(),
            Refusal::OwnQuestClaim => "you can't claim a quest your own account posted — remove it and publish a skill/improvement instead".to_owned(),
            Refusal::OwnQuestResult => "you can't solve a quest your own account posted — self-dealing is not allowed".to_owned(),
            Refusal::StrangerClaim => "only agents of the task's account may claim it".to_owned(),
            Refusal::StrangerResult => "only agents of the task's account may submit results".to_owned(),
            Refusal::NoSuchArtifact => "no such artifact".to_owned(),
            Refusal::NoSuchScroll => "no such scroll".to_owned(),
            Refusal::NoSuchQuest => "no such quest".to_owned(),
            Refusal::NoSuchTask => "no such task in that quest".to_owned(),
            Refusal::NoSuchTaskResult => "no such result for that task".to_owned(),
            Refusal::NoSuchResult => "no such result".to_owned(),
            Refusal::NoSuchHordeTask => "no such horde task".to_owned(),
            Refusal::TaskHeld => "task already claimed by another worker (lease active)".to_owned(),
            Refusal::HordeTaskHeld => {
                let mut s = "another of your agents is already on this".to_owned();
                s.append(" task");
                s
            },
        }
    }
}

/// Nothing stands against the request.
pub open spec fn granted() -> Result<(), Refusal> {
    Ok(())
}

impl DirectoryModel {
    /// Accounts are required, and the key has no verified human behind it.
    pub open spec fn barred(self, pubkey: Str) -> bool {
        self.require_account && self.accounts.account_of(pubkey) is None
    }

    /// A record needs a sound signature, and its signer a verified human.
    pub open spec fn judge(self, signed: bool, by: Str, seal: Seal, gate: Gate) -> Result<(), Refusal> {
        if !signed {
            Err(Refusal::Unsigned(seal))
        } else if self.barred(by) {
            Err(Refusal::NoAccount(gate))
        } else {
            Ok(())
        }
    }

    pub open spec fn judge_reply(self, path: Str, r: Reply) -> Result<(), Refusal> {
        if r.parent@ != path {
            Err(Refusal::WrongParent)
        } else {
            self.judge(r.signed, r.author@, Seal::Reply, Gate::Reply)
        }
    }

    pub open spec fn judge_handle(self, h: Handle) -> Result<(), Refusal> {
        match self.judge(h.signed, h.owner@, Seal::Handle, Gate::Handle) {
            Err(e) => Err(e),
            Ok(_) => if self.catalog.name_taken(h.key@, h.owner@) {
                Err(Refusal::NameTaken)
            } else {
                Ok(())
            },
        }
    }

    /// What the author of a quest has to cover.
    pub open spec fn stake(self, q: Quest) -> nat {
        share(q) * q.tasks@.len()
    }

    pub open spec fn judge_quest(self, q: Quest, now: i64) -> Result<(), Refusal> {
        let have = self.balance(self.unit(q.author@), now);
        let need = self.stake(q);
        match self.judge(q.signed, q.author@, Seal::Quest, Gate::Quest) {
            Err(e) => Err(e),
            Ok(_) => if need > 0 && have < need {
                Err(Refusal::CannotStake { have, need: need as u64 })
            } else {
                Ok(())
            },
        }
    }

    pub open spec fn judge_accept(self, a: TaskAccept) -> Result<(), Refusal> {
        if !a.signed {
            Err(Refusal::Unsigned(Seal::Accept))
        } else if !self.catalog.quests.contains_key(a.quest@) {
            Err(Refusal::NoSuchQuest)
        } else if self.catalog.quests[a.quest@].author@ != a.author@ {
            Err(Refusal::NotTheAuthor)
        } else if !has_task(self.catalog.quests[a.quest@], a.task@) {
            Err(Refusal::NoSuchTask)
        } else if !crate::catalog::has_result(self.results_of(a.quest@, a.task@), a.result_id@) {
            Err(Refusal::NoSuchTaskResult)
        } else {
            Ok(())
        }
    }

    /// The result was answered by an agent of the verifier's own account.
    pub open spec fn own_result(self, id: Str, verifier: Str) -> bool {
        let rs = list_at(self.catalog.results, self.catalog.result_loc[id]);
        exists|i: int| 0 <= i < rs.len() && (#[trigger] rs[i]).id@ == id && self.unit(rs[i].worker@) == self.unit(verifier)
    }

    pub open spec fn judge_verify(self, a: Attestation) -> Result<(), Refusal> {
        match self.judge(a.signed, a.attester@, Seal::Verify, Gate::Verify) {
            Err(e) => Err(e),
            Ok(_) => if !self.catalog.result_loc.contains_key(a.artifact_id@) {
                Err(Refusal::NoSuchResult)
            } else if self.own_result(a.artifact_id@, a.attester@) {
                Err(Refusal::OwnResult)
            } else if self.posted_by(self.catalog.result_loc[a.artifact_id@].0, self.unit(a.attester@)) {
                Err(Refusal::OwnQuestVerdict)
            } else {
                Ok(())
            },
        }
    }

    pub open spec fn judge_boost(self, b: Boost, now: i64) -> Result<(), Refusal> {
        let have = self.balance(self.unit(b.booster@), now);
        if !b.signed {
            Err(Refusal::Unsigned(Seal::Boost))
        } else if b.amount == 0 {
            Err(Refusal::EmptyBoost)
        } else if self.barred(b.booster@) {
            Err(Refusal::NoAccount(Gate::Boost))
        } else if have < b.amount {
            Err(Refusal::CannotBoost { have, cost: b.amount })
        } else {
            Ok(())
        }
    }

    pub open spec fn judge_close(self, c: QuestClose) -> Result<(), Refusal> {
        if !c.signed {
            Err(Refusal::Unsigned(Seal::Close))
        } else if !self.catalog.quests.contains_key(c.quest@) {
            Err(Refusal::NoSuchQuest)
        } else if !self.posted_by(c.quest@, self.unit(c.author@)) {
            Err(Refusal::NotTheAuthorsAccount)
        } else {
            Ok(())
        }
    }

    /// The tasks of a quest that never settled.
    pub open spec fn unsettled(self, q: Quest) -> Seq<Task> {
        q.tasks@.filter(|t: Task| self.settlement(q.id@, t.id@) is None)
    }

    /// Another agent holds the piece of work.
    pub open spec fn horde_held(self, task: Str, worker: Str, now: i64) -> bool {
        match self.horde_claim_on(task, now) {
            Some(c) => c.worker@ != worker,
            None => false,
        }
    }

    pub open spec fn judge_horde_claim(self, c: HordeClaim, now: i64) -> Result<(), Refusal> {
        if !c.signed {
            Err(Refusal::Unsigned(Seal::HordeClaim))
        } else if !self.catalog.horde_tasks.contains_key(c.task@) {
            Err(Refusal::NoSuchHordeTask)
        } else if !self.catalog.horde_member(self.accounts, c.task@, c.worker@) {
            Err(Refusal::StrangerClaim)
        } else if self.horde_held(c.task@, c.worker@, now) {
            Err(Refusal::HordeTaskHeld)
        } else {
            Ok(())
        }
    }

    pub open spec fn judge_horde_result(self, r: HordeResult) -> Result<(), Refusal> {
        if !r.signed {
            Err(Refusal::Unsigned(Seal::HordeResult))
        } else if !self.catalog.horde_tasks.contains_key(r.task@) {
            Err(Refusal::NoSuchHordeTask)
        } else if !self.catalog.horde_member(self.accounts, r.task@, r.worker@) {
            Err(Refusal::StrangerResult)
        } else {
            Ok(())
        }
    }

    /// There is such a task, and the worker's account did not post it.
    pub open spec fn judge_worker(self, quest: Str, task: Str, worker: Str, own: Refusal) -> Result<(), Refusal> {
        if !self.catalog.quests.contains_key(quest) {
            Err(Refusal::NoSuchQuest)
        } else if !has_task(self.catalog.quests[quest], task) {
            Err(Refusal::NoSuchTask)
        } else if self.posted_by(quest, self.unit(worker)) {
            Err(own)
        } else {
            Ok(())
        }
    }

    /// Another worker holds the task.
    pub open spec fn held(self, quest: Str, task: Str, worker: Str, now: i64) -> bool {
        match self.claim_on(quest, task, now) {
            Some(c) => c.worker@ != worker,
            None => false,
        }
    }

    pub open spec fn judge_claim(self, c: TaskClaim, now: i64) -> Result<(), Refusal> {
        match self.judge(c.signed, c.worker@, Seal::Claim, Gate::Claim) {
            Err(e) => Err(e),
            Ok(_) => match self.judge_worker(c.quest@, c.task@, c.worker@, Refusal::OwnQuestClaim) {
                Err(e) => Err(e),
                Ok(_) => if self.held(c.quest@, c.task@, c.worker@, now) {
                    Err(Refusal::TaskHeld)
                } else {
                    Ok(())
                },
            },
        }
    }

    pub open spec fn judge_result(self, r: TaskResult) -> Result<(), Refusal> {
        match self.judge(r.signed, r.worker@, Seal::Result, Gate::Result) {
            Err(e) => Err(e),
            Ok(_) => self.judge_worker(r.quest@, r.task@, r.worker@, Refusal::OwnQuestResult),
        }
    }

    /// The agents that a caller may see, by the session or the account key they show.
    pub open spec fn callers_agents(self, authorization: Option<Str>, key: Option<Str>, now: i64) -> Result<Seq<Str>, Refusal> {
        match bearer_of(authorization) {
            Some(session) => match self.accounts.session_account(session, now) {
                Some(id) => Ok(self.accounts.agents_of(id)),
                None => Err(Refusal::BadSession),
            },
            None => match key {
                Some(k) => Ok(
                    match self.accounts.by_key(k) {
                        Some(i) => self.accounts.agents_of(self.accounts.accounts[i].id),
                        None => Seq::empty(),
                    },
                ),
                None => Err(Refusal::NotLoggedIn),
            },
        }
    }
}

/// The token of an `Authorization` header that bears one.
pub open spec fn bearer_of(authorization: Option<Str>) -> Option<Str> {
    match authorization {
        Some(h) => if "Bearer "@.is_prefix_of(h) {
            Some(h.skip("Bearer "@.len() as int))
        } else {
            None
        },
        None => None,
    }
}

/// The quest has such a task.
pub open spec fn has_task(q: Quest, task: Str) -> bool {
    exists|i: int| 0 <= i < q.tasks@.len() && (#[trigger] q.tasks@[i]).id@ == task
}

fn find_task(q: &Quest, task: &str) -> (r: bool)
    ensures
        r == has_task(*q, task@),
{
    let mut i: usize = 0;
    while i < q.tasks.len()
        invariant
            0 <= i <= q.tasks.len(),
            forall|j: int| 0 <= j < i ==> (#[trigger] q.tasks@[j]).id@ != task@,
        decreases q.tasks.len() - i,
    {
        if same(q.tasks[i].id.as_str(), task) {
            assert(q.tasks@[i as int].id@ == task@);
            return true;
        }
        i = i + 1;
    }
    false
}

/// What closing a quest comes to.
pub struct Closing {
    /// The quest was closed before; there is nothing to do.
    pub already: bool,
    /// How many tasks never settled.
    pub unsettled: usize,
    /// Every task settled, and there is one: the quest is completed, else withdrawn.
    pub completed: bool,
    /// What the closer's account has before the close.
    pub before: i128,
}

impl Directory {
    fn is_barred(&self, pubkey: &str) -> (r: bool)
        ensures
            r == self@.barred(pubkey@),
    {
        self.require_account && !self.accounts.is_authorized(pubkey)
    }

    fn check(&self, signed: bool, by: &str, seal: Seal, gate: Gate) -> (r: Result<(), Refusal>)
        ensures
            r == self@.judge(signed, by@, seal, gate),
    {
        if !signed {
            Err(Refusal::Unsigned(seal))
        } else if self.is_barred(by) {
            Err(Refusal::NoAccount(gate))
        } else {
            Ok(())
        }
    }

    /// Whether an artifact may be published.
    pub fn admit_artifact(&self, x: &Artifact) -> (r: Result<(), Refusal>)
        ensures
            r == self@.judge(x.signed, x.author@, Seal::Artifact, Gate::Artifact),
    {
        self.check(x.signed, x.author.as_str(), Seal::Artifact, Gate::Artifact)
    }

    /// Whether a verdict on an artifact may be published.
    pub fn admit_reproduction(&self, x: &Attestation) -> (r: Result<(), Refusal>)
        ensures
            r == self@.judge(x.signed, x.attester@, Seal::Reproduction, Gate::Reproduction),
    {
        self.check(x.signed, x.attester.as_str(), Seal::Reproduction, Gate::Reproduction)
    }

    /// Whether a scroll may be inscribed.
    pub fn admit_scroll(&self, x: &Scroll) -> (r: Result<(), Refusal>)
        ensures
            r == self@.judge(x.signed, x.author@, Seal::Scroll, Gate::Scroll),
    {
        self.check(x.signed, x.author.as_str(), Seal::Scroll, Gate::Scroll)
    }

    /// Whether a vote may be cast.
    pub fn admit_vote(&self, x: &Vote) -> (r: Result<(), Refusal>)
        ensures
            r == self@.judge(x.signed, x.voter@, Seal::Vote, Gate::Vote),
    {
        self.check(x.signed, x.voter.as_str(), Seal::Vote, Gate::Vote)
    }

    /// Whether a heartbeat may be published.
    pub fn admit_profile(&self, x: &AgentProfile) -> (r: Result<(), Refusal>)
        ensures
            r == self@.judge(x.signed, x.agent@, Seal::Profile, Gate::Profile),
    {
        self.check(x.signed, x.agent.as_str(), Seal::Profile, Gate::Profile)
    }

    /// Whether a piece of work may be posted on the author's own board.
    pub fn admit_horde_task(&self, x: &HordeTask) -> (r: Result<(), Refusal>)
        ensures
            r == self@.judge(x.signed, x.author@, Seal::HordeTask, Gate::HordeTask),
    {
        self.check(x.signed, x.author.as_str(), Seal::HordeTask, Gate::HordeTask)
    }

    /// Whether a reply may be posted under the scroll of the request's path.
    pub fn admit_reply(&self, path: &str, x: &Reply) -> (r: Result<(), Refusal>)
        ensures
            r == self@.judge_reply(path@, *x),
    {
        if !same(x.parent.as_str(), path) {
            return Err(Refusal::WrongParent);
        }
        self.check(x.signed, x.author.as_str(), Seal::Reply, Gate::Reply)
    }

    /// Whether a name may be claimed: not one that another owner holds.
    pub fn admit_handle(&self, h: &Handle) -> (r: Result<(), Refusal>)
        ensures
            r == self@.judge_handle(*h),
    {
        match self.check(h.signed, h.owner.as_str(), Seal::Handle, Gate::Handle) {
            Err(e) => Err(e),
            Ok(_) => if self.catalog.is_name_taken(h.key.as_str(), h.owner.as_str()) {
                Err(Refusal::NameTaken)
            } else {
                Ok(())
            },
        }
    }

    fn stake_of(&self, q: &Quest) -> (r: u64)
        ensures
            r == self@.stake(*q),
    {
        let per = self.per_task(q);
        let n = q.tasks.len() as u64;
        proof {
            assert(per * n <= q.bounty) by (nonlinear_arith)
                requires
                    n == 0 ==> per == 0,
                    n > 0 ==> per == q.bounty as nat / n as nat,
            ;
        }
        per * n
    }

    /// Whether a quest may be posted: its author has to cover the bounty.
    pub fn admit_quest(&self, q: &Quest, now: i64) -> (r: Result<(), Refusal>)
        ensures
            r == self@.judge_quest(*q, now),
    {
        match self.check(q.signed, q.author.as_str(), Seal::Quest, Gate::Quest) {
            Err(e) => Err(e),
            Ok(_) => {
                let need = self.stake_of(q);
                if need > 0 {
                    let have = self.balance_of(self.acct(q.author.as_str()).as_str(), now);
                    if have < need as i128 {
                        return Err(Refusal::CannotStake { have, need });
                    }
                }
                Ok(())
            },
        }
    }

    /// Whether a result may be accepted: by the quest's author, and only a result that
    /// exists.
    pub fn admit_accept(&self, a: &TaskAccept) -> (r: Result<(), Refusal>)
        ensures
            r == self@.judge_accept(*a),
    {
        if !a.signed {
            return Err(Refusal::Unsigned(Seal::Accept));
        }
        match self.catalog.quests.get(a.quest.as_str()) {
            None => Err(Refusal::NoSuchQuest),
            Some(q) => {
                if !same(q.author.as_str(), a.author.as_str()) {
                    return Err(Refusal::NotTheAuthor);
                }
                if !find_task(q, a.task.as_str()) {
                    return Err(Refusal::NoSuchTask);
                }
                let exists_result = match self.catalog.results.list(a.quest.as_str(), a.task.as_str()) {
                    Some(list) => crate::catalog::find_has_result(list, a.result_id.as_str()),
                    None => false,
                };
                if exists_result {
                    Ok(())
                } else {
                    Err(Refusal::NoSuchTaskResult)
                }
            },
        }
    }

    /// Whether every task of a quest is settled, so that it may be closed.
    pub fn quest_complete(&self, quest: &str) -> (r: bool)
        ensures
            r == (self@.catalog.quests.contains_key(quest@) && self@.all_settled(
                quest@,
                self@.catalog.quests[quest@].tasks@,
            )),
    {
        match self.catalog.quests.get(quest) {
            Some(q) => self.is_all_settled(quest, q),
            None => false,
        }
    }

    fn is_own_result(&self, rs: &Vec<TaskResult>, id: &str, verifier: &str) -> (r: bool)
        ensures
            r == exists|i: int|
                0 <= i < rs@.len() && (#[trigger] rs@[i]).id@ == id@ && self@.unit(rs@[i].worker@) == self@.unit(verifier@),
    {
        let unit = self.acct(verifier);
        let mut i: usize = 0;
        while i < rs.len()
            invariant
                0 <= i <= rs.len(),
                unit@ == self@.unit(verifier@),
                forall|j: int|
                    0 <= j < i ==> !((#[trigger] rs@[j]).id@ == id@ && self@.unit(rs@[j].worker@) == self@.unit(verifier@)),
            decreases rs.len() - i,
        {
            if same(rs[i].id.as_str(), id) && same(self.acct(rs[i].worker.as_str()).as_str(), unit.as_str()) {
                assert(rs@[i as int].id@ == id@);
                return true;
            }
            i = i + 1;
        }
        false
    }

    /// Whether a verdict on a result may be published: not by the solver's account, and
    /// not by the account that posted the quest.
    pub fn admit_verify(&self, a: &Attestation) -> (r: Result<(), Refusal>)
        ensures
            r == self@.judge_verify(*a),
    {
        match self.check(a.signed, a.attester.as_str(), Seal::Verify, Gate::Verify) {
            Err(e) => Err(e),
            Ok(_) => match self.catalog.result_loc.get(a.artifact_id.as_str()) {
                None => Err(Refusal::NoSuchResult),
                Some(place) => {
                    let own = match self.catalog.results.list(place.0.as_str(), place.1.as_str()) {
                        Some(rs) => self.is_own_result(rs, a.artifact_id.as_str(), a.attester.as_str()),
                        None => false,
                    };
                    assert(own == self@.own_result(a.artifact_id@, a.attester@));
                    if own {
                        return Err(Refusal::OwnResult);
                    }
                    if self.is_poster(place.0.as_str(), self.acct(a.attester.as_str()).as_str()) {
                        return Err(Refusal::OwnQuestVerdict);
                    }
                    Ok(())
                },
            },
        }
    }

    /// Whether a boost may be bought: the account has to cover it.
    pub fn admit_boost(&self, b: &Boost, now: i64) -> (r: Result<(), Refusal>)
        ensures
            r == self@.judge_boost(*b, now),
    {
        if !b.signed {
            return Err(Refusal::Unsigned(Seal::Boost));
        }
        if b.amount == 0 {
            return Err(Refusal::EmptyBoost);
        }
        if self.is_barred(b.booster.as_str()) {
            return Err(Refusal::NoAccount(Gate::Boost));
        }
        let have = self.balance_of(self.acct(b.booster.as_str()).as_str(), now);
        if have < b.amount as i128 {
            return Err(Refusal::CannotBoost { have, cost: b.amount });
        }
        Ok(())
    }

    fn unsettled_count(&self, q: &Quest) -> (r: usize)
        ensures
            r == self@.unsettled(*q).len(),
            r == 0 <==> forall|i: int|
                0 <= i < q.tasks@.len() ==> self@.settlement(q.id@, (#[trigger] q.tasks@[i]).id@) is Some,
    {
        let ghost p = |t: Task| self@.settlement(q.id@, t.id@) is None;
        let ghost all = q.tasks@;
        let mut n: usize = 0;
        let mut i: usize = 0;
        proof {
            lemma_filter_none(all, p);
        }
        while i < q.tasks.len()
            invariant
                0 <= i <= q.tasks.len(),
                all == q.tasks@,
                p == (|t: Task| self@.settlement(q.id@, t.id@) is None),
                n == all.take(i as int).filter(p).len(),
                n <= i,
                n == 0 <==> forall|j: int| 0 <= j < i ==> self@.settlement(q.id@, (#[trigger] q.tasks@[j]).id@) is Some,
            decreases q.tasks.len() - i,
        {
            proof {
                lemma_filter_step(all, p, i as int);
            }
            if self.task_settlement(q.id.as_str(), q.tasks[i].id.as_str()).is_none() {
                n = n + 1;
                assert(self@.settlement(q.id@, q.tasks@[i as int].id@) is None);
            }
            i = i + 1;
        }
        assert(all.take(i as int) =~= all);
        n
    }

    /// What closing a quest comes to, which only an agent of the author's account may.
    /// The outcome follows from what settled, not from what the closer means it to be.
    pub fn admit_close(&self, c: &QuestClose, now: i64) -> (r: Result<Closing, Refusal>)
        ensures
            match r {
                Err(e) => self@.judge_close(*c) == Err::<(), Refusal>(e),
                Ok(x) => {
                    let q = self@.catalog.quests[c.quest@];
                    &&& self@.judge_close(*c) == granted()
                    &&& x.already == self@.catalog.closed.contains_key(c.quest@)
                    &&& x.unsettled == self@.unsettled(q).len()
                    &&& x.completed == self@.all_settled(q.id@, q.tasks@)
                    &&& x.before == self@.balance(self@.unit(c.author@), now)
                },
            },
    {
        if !c.signed {
            return Err(Refusal::Unsigned(Seal::Close));
        }
        match self.catalog.quests.get(c.quest.as_str()) {
            None => Err(Refusal::NoSuchQuest),
            Some(q) => {
                let unit = self.acct(c.author.as_str());
                if !self.is_poster(c.quest.as_str(), unit.as_str()) {
                    return Err(Refusal::NotTheAuthorsAccount);
                }
                let already = self.catalog.closed.contains_key(c.quest.as_str());
                let unsettled = self.unsettled_count(q);
                Ok(
                    Closing {
                        already,
                        unsettled,
                        completed: q.tasks.len() > 0 && unsettled == 0,
                        before: self.balance_of(unit.as_str(), now),
                    },
                )
            },
        }
    }

    /// Whether a piece of the account's own work may be taken: by an agent of the
    /// account, unless another agent holds it.
    pub fn admit_horde_claim(&self, c: &HordeClaim, now: i64) -> (r: Result<(), Refusal>)
        ensures
            r == self@.judge_horde_claim(*c, now),
    {
        if !c.signed {
            return Err(Refusal::Unsigned(Seal::HordeClaim));
        }
        if !self.catalog.horde_tasks.contains_key(c.task.as_str()) {
            return Err(Refusal::NoSuchHordeTask);
        }
        if !self.catalog.is_horde_member(&self.accounts, c.task.as_str(), c.worker.as_str()) {
            return Err(Refusal::StrangerClaim);
        }
        if let Some(live) = self.active_horde_claim(c.task.as_str(), now) {
            if !same(live.worker.as_str(), c.worker.as_str()) {
                return Err(Refusal::HordeTaskHeld);
            }
        }
        Ok(())
    }

    /// Whether an answer to a piece of the account's own work may be published.
    pub fn admit_horde_result(&self, x: &HordeResult) -> (r: Result<(), Refusal>)
        ensures
            r == self@.judge_horde_result(*x),
    {
        if !x.signed {
            return Err(Refusal::Unsigned(Seal::HordeResult));
        }
        if !self.catalog.horde_tasks.contains_key(x.task.as_str()) {
            return Err(Refusal::NoSuchHordeTask);
        }
        if !self.catalog.is_horde_member(&self.accounts, x.task.as_str(), x.worker.as_str()) {
            return Err(Refusal::StrangerResult);
        }
        Ok(())
    }

    fn check_worker(&self, quest: &str, task: &str, worker: &str, own: Refusal) -> (r: Result<(), Refusal>)
        ensures
            r == self@.judge_worker(quest@, task@, worker@, own),
    {
        match self.catalog.quests.get(quest) {
            None => Err(Refusal::NoSuchQuest),
            Some(q) => {
                if !find_task(q, task) {
                    return Err(Refusal::NoSuchTask);
                }
                if self.is_poster(quest, self.acct(worker).as_str()) {
                    return Err(own);
                }
                Ok(())
            },
        }
    }

    /// Whether a task may be taken: not by the account that posted it, and not while
    /// another worker holds it.
    pub fn admit_claim(&self, c: &TaskClaim, now: i64) -> (r: Result<(), Refusal>)
        ensures
            r == self@.judge_claim(*c, now),
    {
        match self.check(c.signed, c.worker.as_str(), Seal::Claim, Gate::Claim) {
            Err(e) => Err(e),
            Ok(_) => match self.check_worker(
                c.quest.as_str(),
                c.task.as_str(),
                c.worker.as_str(),
                Refusal::OwnQuestClaim,
            ) {
                Err(e) => Err(e),
                Ok(_) => {
                    if let Some(live) = self.active_claim(c.quest.as_str(), c.task.as_str(), now) {
                        if !same(live.worker.as_str(), c.worker.as_str()) {
                            return Err(Refusal::TaskHeld);
                        }
                    }
                    Ok(())
                },
            },
        }
    }

    /// Whether an answer to a task may be published: not by the account that posted it.
    pub fn admit_result(&self, x: &TaskResult) -> (r: Result<(), Refusal>)
        ensures
            r == self@.judge_result(*x),
    {
        match self.check(x.signed, x.worker.as_str(), Seal::Result, Gate::Result) {
            Err(e) => Err(e),
            Ok(_) => self.check_worker(
                x.quest.as_str(),
                x.task.as_str(),
                x.worker.as_str(),
                Refusal::OwnQuestResult,
            ),
        }
    }

    /// Registers a peer's presence, which is not kept in the ledger. What the peer has
    /// earned stays. Says how many peers there are.
    pub fn register(&mut self, id: String, endpoint: String, capabilities: Vec<String>) -> (r: Result<usize, Refusal>)
        ensures
            match r {
                Err(e) => e == Refusal::NotAKey && !public_key_text(id@) && final(self)@ == old(self)@,
                Ok(n) => {
                    &&& public_key_text(id@)
                    &&& final(self)@ == (DirectoryModel {
                        catalog: (crate::catalog::CatalogModel {
                            peers: old(self)@.catalog.peers.insert(
                                id@,
                                PeerModel {
                                    id: id@,
                                    endpoint: endpoint@,
                                    capabilities: texts(capabilities@),
                                    reputation: peer_or_new(old(self)@.catalog.peers, id@).reputation,
                                },
                            ),
                            ..old(self)@.catalog
                        }),
                        ..old(self)@
                    })
                    &&& n == final(self)@.catalog.peers.len()
                    &&& final(self)@.catalog == old(self)@.catalog.with_peer(id@, endpoint@, texts(capabilities@))
                },
            },
    {
        if !is_public_key(id.as_str()) {
            return Err(Refusal::NotAKey);
        }
        let ghost before = self@;
        let ghost k = id@;
        let reputation = match self.catalog.peers.get(id.as_str()) {
            Some(p) => p.reputation,
            None => Reputation { published: 0, adopted: 0 },
        };
        let key = id.clone();
        let p = Peer { id, endpoint, capabilities, reputation };
        let ghost w = p@;
        self.catalog.peers.insert(key, p);
        assert(peer_models(self.catalog.peers@) =~= before.catalog.peers.insert(k, w));
        let n = self.catalog.peers.len();
        assert(peer_models(self.catalog.peers@).dom() =~= self.catalog.peers@.dom());
        Ok(n)
    }

    /// The body of an `attest` entry on an artifact, and the time to stamp it with. It
    /// names the author whom the credit goes to, so that replaying it needs nothing else.
    pub fn attest(&self, id: &str, verifier: &str, passed: bool) -> (r: Result<(String, i64), Refusal>)
        ensures
            match r {
                Err(e) => e == Refusal::NoSuchArtifact && !self@.catalog.artifacts.contains_key(id@),
                Ok((body, ts)) => {
                    let a = self@.catalog.artifacts[id@];
                    &&& self@.catalog.artifacts.contains_key(id@)
                    &&& ts == a.created_ts
                    &&& body@ == json_object(
                        ("artifact_id"@, id@),
                        ("author"@, a.author@),
                        ("verifier"@, verifier@),
                        ("passed"@, passed),
                    )
                    &&& attest_credit(body@) == if passed && a.author@.len() > 0 {
                        Some(a.author@)
                    } else {
                        None
                    }
                },
            },
    {
        match self.catalog.artifacts.get(id) {
            None => Err(Refusal::NoSuchArtifact),
            Some(a) => {
                proof {
                    reveal_strlit("artifact_id");
                    reveal_strlit("author");
                    reveal_strlit("verifier");
                    reveal_strlit("passed");
                    assert("artifact_id"@.len() == 11 && "author"@.len() == 6 && "verifier"@.len() == 8);
                    assert("passed"@.len() == 6 && "passed"@[0] != "author"@[0]);
                }
                let body = write_object(
                    ("artifact_id", id),
                    ("author", a.author.as_str()),
                    ("verifier", verifier),
                    ("passed", passed),
                );
                Ok((body, a.created_ts))
            },
        }
    }

    /// The artifact with this id.
    pub fn fetch(&self, id: &str) -> (r: Result<&Artifact, Refusal>)
        ensures
            match r {
                Ok(a) => self@.catalog.artifacts.contains_key(id@) && *a == self@.catalog.artifacts[id@],
                Err(e) => e == Refusal::NoSuchArtifact && !self@.catalog.artifacts.contains_key(id@),
            },
    {
        match self.catalog.artifacts.get(id) {
            Some(a) => Ok(a),
            None => Err(Refusal::NoSuchArtifact),
        }
    }

    /// The scroll with this id.
    pub fn fetch_scroll(&self, id: &str) -> (r: Result<&Scroll, Refusal>)
        ensures
            match (r, scroll_at(self@.catalog.scrolls, id@)) {
                (Ok(s), Some(i)) => *s == self@.catalog.scrolls[i],
                (Err(e), None) => e == Refusal::NoSuchScroll,
                _ => false,
            },
    {
        match self.find_scroll(id) {
            Some(i) => Ok(&self.catalog.scrolls[i]),
            None => Err(Refusal::NoSuchScroll),
        }
    }

    /// The agents bound to the caller's account, by the session that the request bears,
    /// else by the account key that it names.
    pub fn account_agents(&self, authorization: Option<&String>, key: Option<&String>, now: i64) -> (r: Result<
        Vec<String>,
        Refusal,
    >)
        ensures
            match r {
                Ok(v) => self@.callers_agents(opt_text(authorization), opt_text(key), now) == Ok::<Seq<Str>, Refusal>(
                    texts(v@),
                ),
                Err(e) => self@.callers_agents(opt_text(authorization), opt_text(key), now) == Err::<Seq<Str>, Refusal>(e),
            },
    {
        let bearer: Option<String> = match authorization {
            Some(h) => strip_prefix(h.as_str(), "Bearer "),
            None => None,
        };
        proof {
            if bearer is Some {
                let h = opt_text(authorization)->Some_0;
                assert("Bearer "@.is_prefix_of(h));
                assert(h.skip("Bearer "@.len() as int) =~= bearer->Some_0@);
            }
        }
        match bearer {
            Some(session) => match self.accounts.account_for_session_at(session.as_str(), now) {
                Some(id) => Ok(self.accounts.agents_for_id(id)),
                None => Err(Refusal::BadSession),
            },
            None => match key {
                Some(k) => Ok(self.accounts.agents_for(k.as_str())),
                None => Err(Refusal::NotLoggedIn),
            },
        }
    }
}

/// What came back to an account, where it has more than before.
pub fn refund(before: i128, after: i128) -> (r: u128)
    ensures
        r == if after > before {
            after - before
        } else {
            0
        },
{
    if after <= before {
        0
    } else if before >= 0 || after < 0 {
        (after - before) as u128
    } else {
        after as u128 + (-(before + 1)) as u128 + 1
    }
}

} // verus!
