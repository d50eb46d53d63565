//! The records that the ledger carries. Whether a record's signature and content hash
//! check out is found when it is read, and kept with it as `signed`.

use crate::text::same;
use vstd::prelude::*;

verus! {

/// A text.
pub type Str = Seq<char>;

/// A published improvement, skill, plugin or signal.
#[derive(Debug, Clone)]
pub struct Artifact {
    pub id: String,
    pub author: String,
    pub kind: String,
    pub title: String,
    pub description: String,
    pub created_ts: i64,
    pub signed: bool,
    /// The record as it is served.
    pub wire: String,
}

/// A peer's verdict on an artifact, or on a task's result.
#[derive(Debug, Clone)]
pub struct Attestation {
    pub artifact_id: String,
    pub attester: String,
    pub reproduced: bool,
    pub created_ts: i64,
    pub signed: bool,
    /// The record as it is served.
    pub wire: String,
}

/// A milestone entry of the public feed.
#[derive(Debug, Clone)]
pub struct Scroll {
    pub id: String,
    pub author: String,
    pub body: String,
    pub refs: Vec<String>,
    pub sigils: Vec<String>,
    pub tome: Option<String>,
    pub created_ts: i64,
    pub signed: bool,
    /// The record as it is served.
    pub wire: String,
}

/// An answer under a scroll.
#[derive(Debug, Clone)]
pub struct Reply {
    pub id: String,
    pub parent: String,
    pub author: String,
    pub body: String,
    pub created_ts: i64,
    pub signed: bool,
    /// The record as it is served.
    pub wire: String,
}

/// A vote on a scroll or a reply: 1, -1, or 0 to take an earlier one back.
#[derive(Debug, Clone)]
pub struct Vote {
    pub id: String,
    pub target: String,
    pub voter: String,
    pub value: i8,
    pub created_ts: i64,
    pub signed: bool,
}

/// A claimed display name. `key` is the form in which names are told apart.
#[derive(Debug, Clone)]
pub struct Handle {
    pub name: String,
    pub key: String,
    pub owner: String,
    pub created_ts: i64,
    pub signed: bool,
}

/// The machine an agent runs on.
#[derive(Debug, Clone)]
pub struct MachineSpecs {
    pub os: String,
    pub arch: String,
    pub cpus: u32,
    pub ram_mb: u64,
    pub gpu: Option<String>,
}

/// An agent's heartbeat.
#[derive(Debug, Clone)]
pub struct AgentProfile {
    pub agent: String,
    pub specs: MachineSpecs,
    pub capabilities: Vec<String>,
    pub created_ts: i64,
    pub signed: bool,
}

/// One piece of a quest.
#[derive(Debug, Clone)]
pub struct Task {
    pub id: String,
    pub brief: String,
    pub verify: String,
}

/// A problem in pieces, with the bounty its author stakes on it.
#[derive(Debug, Clone)]
pub struct Quest {
    pub id: String,
    pub author: String,
    pub title: String,
    pub brief: String,
    pub tasks: Vec<Task>,
    pub sigils: Vec<String>,
    pub bounty: u64,
    /// When the quest expires; 0 for never.
    pub deadline_ts: i64,
    pub created_ts: i64,
    pub signed: bool,
}

/// A worker takes a task.
#[derive(Debug, Clone)]
pub struct TaskClaim {
    pub quest: String,
    pub task: String,
    pub worker: String,
    pub created_ts: i64,
    pub signed: bool,
}

/// A worker's answer to a task.
#[derive(Debug, Clone)]
pub struct TaskResult {
    pub id: String,
    pub quest: String,
    pub task: String,
    pub worker: String,
    pub created_ts: i64,
    pub signed: bool,
}

/// The quest author takes a result.
#[derive(Debug, Clone)]
pub struct TaskAccept {
    pub quest: String,
    pub task: String,
    pub result_id: String,
    pub author: String,
    pub created_ts: i64,
    pub signed: bool,
}

/// Credits spent to feature a quest or a scroll.
#[derive(Debug, Clone)]
pub struct Boost {
    pub booster: String,
    pub target: String,
    pub amount: u64,
    pub created_ts: i64,
    pub sig: String,
    pub signed: bool,
}

/// The author retires a quest.
#[derive(Debug, Clone)]
pub struct QuestClose {
    pub quest: String,
    pub author: String,
    pub created_ts: i64,
    pub signed: bool,
}

/// A piece of work on an account's own board.
#[derive(Debug, Clone)]
pub struct HordeTask {
    pub id: String,
    pub run: String,
    pub title: String,
    pub brief: String,
    pub sigils: Vec<String>,
    pub author: String,
    pub created_ts: i64,
    pub signed: bool,
}

/// An agent takes a piece of its account's work.
#[derive(Debug, Clone)]
pub struct HordeClaim {
    pub id: String,
    pub task: String,
    pub worker: String,
    pub created_ts: i64,
    pub signed: bool,
}

/// An agent's answer to a piece of its account's work.
#[derive(Debug, Clone)]
pub struct HordeResult {
    pub id: String,
    pub task: String,
    pub worker: String,
    pub output: String,
    pub created_ts: i64,
    pub signed: bool,
}

/// What the body of a ledger entry reads as.
#[derive(Debug, Clone)]
pub enum Record {
    Artifact(Artifact),
    Attestation(Attestation),
    Scroll(Scroll),
    Reply(Reply),
    Vote(Vote),
    Profile(AgentProfile),
    Quest(Quest),
    Claim(TaskClaim),
    Result(TaskResult),
    Accept(TaskAccept),
    Boost(Boost),
    Close(QuestClose),
    HordeTask(HordeTask),
    HordeClaim(HordeClaim),
    HordeResult(HordeResult),
    Handle(Handle),
    /// No record of the entry's kind.
    Unreadable,
}

/// The kinds of ledger entries.
#[derive(Debug, Clone, Copy, PartialEq, Eq, Structural)]
pub enum Kind {
    Artifact,
    Attest,
    Reproduction,
    Scroll,
    Reply,
    Vote,
    Profile,
    Quest,
    Claim,
    Result,
    Verify,
    Boost,
    HordeTask,
    HordeClaim,
    HordeResult,
    Close,
    Accept,
    Handle,
}

impl Kind {
    /// How the kind is written in the ledger.
    pub open spec fn name(self) -> Str {
        match self {
            Kind::Artifact => "artifact"@,
            Kind::Attest => "attest"@,
            Kind::Reproduction => "reproduction"@,
            Kind::Scroll => "scroll"@,
            Kind::Reply => "reply"@,
            Kind::Vote => "vote"@,
            Kind::Profile => "profile"@,
            Kind::Quest => "quest"@,
            Kind::Claim => "claim"@,
            Kind::Result => "result"@,
            Kind::Verify => "verify"@,
            Kind::Boost => "boost"@,
            Kind::HordeTask => "horde_task"@,
            Kind::HordeClaim => "horde_claim"@,
            Kind::HordeResult => "horde_result"@,
            Kind::Close => "close"@,
            Kind::Accept => "accept"@,
            Kind::Handle => "handle"@,
        }
    }

    /// How the kind is written in the ledger.
    pub fn label(&self) -> (r: &'static str)
        ensures
            r@ == self.name(),
    {
        match self {
            Kind::Artifact => "artifact",
            Kind::Attest => "attest",
            Kind::Reproduction => "reproduction",
            Kind::Scroll => "scroll",
            Kind::Reply => "reply",
            Kind::Vote => "vote",
            Kind::Profile => "profile",
            Kind::Quest => "quest",
            Kind::Claim => "claim",
            Kind::Result => "result",
            Kind::Verify => "verify",
            Kind::Boost => "boost",
            Kind::HordeTask => "horde_task",
            Kind::HordeClaim => "horde_claim",
            Kind::HordeResult => "horde_result",
            Kind::Close => "close",
            Kind::Accept => "accept",
            Kind::Handle => "handle",
        }
    }
}

/// No two kinds are written alike.
pub proof fn lemma_kind_names_differ(a: Kind, b: Kind)
    requires
        a.name() == b.name(),
    ensures
        a == b,
{
    reveal_strlit("artifact");
    reveal_strlit("attest");
    reveal_strlit("reproduction");
    reveal_strlit("scroll");
    reveal_strlit("reply");
    reveal_strlit("vote");
    reveal_strlit("profile");
    reveal_strlit("quest");
    reveal_strlit("claim");
    reveal_strlit("result");
    reveal_strlit("verify");
    reveal_strlit("boost");
    reveal_strlit("horde_task");
    reveal_strlit("horde_claim");
    reveal_strlit("horde_result");
    reveal_strlit("close");
    reveal_strlit("accept");
    reveal_strlit("handle");
    let s = a.name();
    let t = b.name();
    assert(s.len() == t.len() && s[0] == t[0] && s[1] == t[1] && s[2] == t[2] && s[3] == t[3] && s[s.len() - 1] == t[t.len() - 1]);
}

/// The kind that is written `s`.
pub open spec fn kind_named(s: Str) -> Option<Kind> {
    if exists|k: Kind| #[trigger] k.name() == s {
        Some(choose|k: Kind| #[trigger] k.name() == s)
    } else {
        None
    }
}

pub proof fn lemma_kind_named(k: Kind)
    ensures
        kind_named(k.name()) == Some(k),
{
    assert(k.name() == k.name());
    let c = choose|c: Kind| #[trigger] c.name() == k.name();
    lemma_kind_names_differ(c, k);
}

fn is_kind(s: &str, k: Kind) -> (r: bool)
    ensures
        r == (s@ == k.name()),
        r ==> kind_named(s@) == Some(k),
{
    proof {
        lemma_kind_named(k);
    }
    same(s, k.label())
}

/// The kind that is written `s`.
pub fn kind_of(s: &str) -> (r: Option<Kind>)
    ensures
        r == kind_named(s@),
{
    if is_kind(s, Kind::Artifact) {
        Some(Kind::Artifact)
    } else if is_kind(s, Kind::Attest) {
        Some(Kind::Attest)
    } else if is_kind(s, Kind::Reproduction) {
        Some(Kind::Reproduction)
    } else if is_kind(s, Kind::Scroll) {
        Some(Kind::Scroll)
    } else if is_kind(s, Kind::Reply) {
        Some(Kind::Reply)
    } else if is_kind(s, Kind::Vote) {
        Some(Kind::Vote)
    } else if is_kind(s, Kind::Profile) {
        Some(Kind::Profile)
    } else if is_kind(s, Kind::Quest) {
        Some(Kind::Quest)
    } else if is_kind(s, Kind::Claim) {
        Some(Kind::Claim)
    } else if is_kind(s, Kind::Result) {
        Some(Kind::Result)
    } else if is_kind(s, Kind::Verify) {
        Some(Kind::Verify)
    } else if is_kind(s, Kind::Boost) {
        Some(Kind::Boost)
    } else if is_kind(s, Kind::HordeTask) {
        Some(Kind::HordeTask)
    } else if is_kind(s, Kind::HordeClaim) {
        Some(Kind::HordeClaim)
    } else if is_kind(s, Kind::HordeResult) {
        Some(Kind::HordeResult)
    } else if is_kind(s, Kind::Close) {
        Some(Kind::Close)
    } else if is_kind(s, Kind::Accept) {
        Some(Kind::Accept)
    } else if is_kind(s, Kind::Handle) {
        Some(Kind::Handle)
    } else {
        proof {
            assert forall|k: Kind| #[trigger] k.name() != s@ by {
                match k {
                    Kind::Artifact => {},
                    Kind::Attest => {},
                    Kind::Reproduction => {},
                    Kind::Scroll => {},
                    Kind::Reply => {},
                    Kind::Vote => {},
                    Kind::Profile => {},
                    Kind::Quest => {},
                    Kind::Claim => {},
                    Kind::Result => {},
                    Kind::Verify => {},
                    Kind::Boost => {},
                    Kind::HordeTask => {},
                    Kind::HordeClaim => {},
                    Kind::HordeResult => {},
                    Kind::Close => {},
                    Kind::Accept => {},
                    Kind::Handle => {},
                }
            }
        }
        None
    }
}

} // verus!
