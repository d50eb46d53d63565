//! The catalog: what the ledger's entries add up to, one entry at a time.

use crate::accounts::{Accounts, Registry};
use crate::json::{json_flag, json_text, read_flag, read_text};
use crate::ordmap::{list_at, ListMap, OrdMap, PairLists, PairMap};
use crate::records::{
    kind_named, kind_of, AgentProfile, Artifact, Attestation, Boost, Handle, HordeClaim, HordeResult, HordeTask, Kind, Quest,
    QuestClose, Record, Reply, Scroll, Str, TaskAccept, TaskClaim, TaskResult, Vote,
};
use crate::text::{same, texts};
use vstd::prelude::*;

verus! {

/// What a key has earned: how much it published, and how often that was taken up.
#[derive(Debug, Clone, Copy, PartialEq, Eq, Structural)]
pub struct Reputation {
    pub published: u32,
    pub adopted: u32,
}

impl Default for Reputation {
    fn default() -> (r: Self)
        ensures
            r == (Reputation { published: 0, adopted: 0 }),
    {
        Reputation { published: 0, adopted: 0 }
    }
}

/// A revenant that mustered here, or whose work did.
#[derive(Debug, Clone)]
pub struct Peer {
    pub id: String,
    pub endpoint: String,
    pub capabilities: Vec<String>,
    pub reputation: Reputation,
}

/// What a `Peer` says.
pub struct PeerModel {
    pub id: Str,
    pub endpoint: Str,
    pub capabilities: Seq<Str>,
    pub reputation: Reputation,
}

impl View for Peer {
    type V = PeerModel;

    open spec fn view(&self) -> PeerModel {
        PeerModel {
            id: self.id@,
            endpoint: self.endpoint@,
            capabilities: texts(self.capabilities@),
            reputation: self.reputation,
        }
    }
}

/// What a key is credited with.
#[derive(Debug, Clone, Copy, PartialEq, Eq, Structural)]
pub enum Credit {
    Published,
    Adopted,
}

/// A reputation with one more credit. The counters wrap round.
pub open spec fn credited(r: Reputation, credit: Credit) -> Reputation {
    match credit {
        Credit::Published => Reputation { published: u32::wrapping_add(r.published, 1), ..r },
        Credit::Adopted => Reputation { adopted: u32::wrapping_add(r.adopted, 1), ..r },
    }
}

/// The peers by key.
pub open spec fn peer_models(m: Map<Str, Peer>) -> Map<Str, PeerModel> {
    Map::new(|k: Str| m.contains_key(k), |k: Str| m[k]@)
}

/// What is known of `id` before it registers: nothing but what it earned.
pub open spec fn peer_or_new(peers: Map<Str, PeerModel>, id: Str) -> PeerModel {
    if peers.contains_key(id) {
        peers[id]
    } else {
        PeerModel {
            id,
            endpoint: Seq::empty(),
            capabilities: Seq::empty(),
            reputation: Reputation { published: 0, adopted: 0 },
        }
    }
}

/// The peers with one more credit for `id`.
pub open spec fn bumped(peers: Map<Str, PeerModel>, id: Str, credit: Credit) -> Map<Str, PeerModel> {
    let p = peer_or_new(peers, id);
    peers.insert(id, PeerModel { reputation: credited(p.reputation, credit), ..p })
}

/// Credits a key, which becomes a peer if it was none.
pub fn bump(peers: &mut OrdMap<Peer>, id: &str, credit: Credit)
    ensures
        peer_models(final(peers)@) == bumped(peer_models(old(peers)@), id@, credit),
{
    let ghost before = peers@;
    let mut p = match peers.remove(id) {
        Some(p) => p,
        None => {
            let p = Peer {
                id: id.to_owned(),
                endpoint: String::new(),
                capabilities: Vec::new(),
                reputation: Reputation { published: 0, adopted: 0 },
            };
            assert(texts(p.capabilities@) =~= Seq::<Str>::empty());
            p
        },
    };
    assert(p@ == peer_or_new(peer_models(before), id@));
    match credit {
        Credit::Published => {
            p.reputation.published = p.reputation.published.wrapping_add(1);
        },
        Credit::Adopted => {
            p.reputation.adopted = p.reputation.adopted.wrapping_add(1);
        },
    }
    peers.insert(id.to_owned(), p);
    assert(peer_models(peers@) =~= bumped(peer_models(before), id@, credit));
}

/// The names by owner.
pub open spec fn name_models(m: Map<Str, String>) -> Map<Str, Str> {
    Map::new(|k: Str| m.contains_key(k), |k: Str| m[k]@)
}

/// The places of results.
pub open spec fn place_models(m: Map<Str, (String, String)>) -> Map<Str, (Str, Str)> {
    Map::new(|k: Str| m.contains_key(k), |k: Str| (m[k].0@, m[k].1@))
}

/// The catalog.
pub struct Catalog {
    pub peers: OrdMap<Peer>,
    pub artifacts: OrdMap<Artifact>,
    /// Verdicts on an artifact, at most one of each attester, so that none can pad the
    /// count by sending again.
    pub reproductions: ListMap<Attestation>,
    /// Scrolls, oldest first.
    pub scrolls: Vec<Scroll>,
    /// The thread under each scroll, oldest first.
    pub replies: ListMap<Reply>,
    /// All signed votes on a target. The tally collapses them to one per account.
    pub votes: ListMap<Vote>,
    /// Claimed names by the form that tells them apart. The first claim wins.
    pub handles: OrdMap<Handle>,
    /// The display name of each owner.
    pub name_of: OrdMap<String>,
    /// The latest heartbeat of each agent.
    pub profiles: OrdMap<AgentProfile>,
    pub quests: OrdMap<Quest>,
    /// Claims by quest and task.
    pub claims: PairLists<TaskClaim>,
    /// Results by quest and task.
    pub results: PairLists<TaskResult>,
    /// What the quest's author accepted, by quest and task.
    pub accepts: PairMap<TaskAccept>,
    /// Verdicts on a result, at most one of each attester.
    pub verifications: ListMap<Attestation>,
    /// The quest and task of each result.
    pub result_loc: OrdMap<(String, String)>,
    /// Boosts, told apart by their signatures.
    pub boosts: Vec<Boost>,
    /// When each retired quest was closed first.
    pub closed: OrdMap<i64>,
    pub horde_tasks: OrdMap<HordeTask>,
    pub horde_claims: ListMap<HordeClaim>,
    pub horde_results: ListMap<HordeResult>,
}

/// What a `Catalog` holds.
#[verifier::ext_equal]
pub struct CatalogModel {
    pub peers: Map<Str, PeerModel>,
    pub artifacts: Map<Str, Artifact>,
    pub reproductions: Map<Str, Seq<Attestation>>,
    pub scrolls: Seq<Scroll>,
    pub replies: Map<Str, Seq<Reply>>,
    pub votes: Map<Str, Seq<Vote>>,
    pub handles: Map<Str, Handle>,
    pub name_of: Map<Str, Str>,
    pub profiles: Map<Str, AgentProfile>,
    pub quests: Map<Str, Quest>,
    pub claims: Map<(Str, Str), Seq<TaskClaim>>,
    pub results: Map<(Str, Str), Seq<TaskResult>>,
    pub accepts: Map<(Str, Str), TaskAccept>,
    pub verifications: Map<Str, Seq<Attestation>>,
    pub result_loc: Map<Str, (Str, Str)>,
    pub boosts: Seq<Boost>,
    pub closed: Map<Str, i64>,
    pub horde_tasks: Map<Str, HordeTask>,
    pub horde_claims: Map<Str, Seq<HordeClaim>>,
    pub horde_results: Map<Str, Seq<HordeResult>>,
}

impl View for Catalog {
    type V = CatalogModel;

    open spec fn view(&self) -> CatalogModel {
        CatalogModel {
            peers: peer_models(self.peers@),
            artifacts: self.artifacts@,
            reproductions: self.reproductions@,
            scrolls: self.scrolls@,
            replies: self.replies@,
            votes: self.votes@,
            handles: self.handles@,
            name_of: name_models(self.name_of@),
            profiles: self.profiles@,
            quests: self.quests@,
            claims: self.claims@,
            results: self.results@,
            accepts: self.accepts@,
            verifications: self.verifications@,
            result_loc: place_models(self.result_loc@),
            boosts: self.boosts@,
            closed: self.closed@,
            horde_tasks: self.horde_tasks@,
            horde_claims: self.horde_claims@,
            horde_results: self.horde_results@,
        }
    }
}

/// The catalog of an empty ledger.
pub open spec fn empty_catalog() -> CatalogModel {
    CatalogModel {
        peers: Map::empty(),
        artifacts: Map::empty(),
        reproductions: Map::empty(),
        scrolls: Seq::empty(),
        replies: Map::empty(),
        votes: Map::empty(),
        handles: Map::empty(),
        name_of: Map::empty(),
        profiles: Map::empty(),
        quests: Map::empty(),
        claims: Map::empty(),
        results: Map::empty(),
        accepts: Map::empty(),
        verifications: Map::empty(),
        result_loc: Map::empty(),
        boosts: Seq::empty(),
        closed: Map::empty(),
        horde_tasks: Map::empty(),
        horde_claims: Map::empty(),
        horde_results: Map::empty(),
    }
}

/// One of the verdicts is by `k`.
pub open spec fn has_attester(list: Seq<Attestation>, k: Str) -> bool {
    exists|i: int| 0 <= i < list.len() && (#[trigger] list[i]).attester@ == k
}

fn find_has_attester(list: &Vec<Attestation>, k: &str) -> (r: bool)
    ensures
        r == has_attester(list@, k@),
{
    let mut i: usize = 0;
    while i < list.len()
        invariant
            0 <= i <= list.len(),
            forall|j: int| 0 <= j < i ==> (#[trigger] list@[j]).attester@ != k@,
        decreases list.len() - i,
    {
        if same(list[i].attester.as_str(), k) {
            assert(list@[i as int].attester@ == k@);
            return true;
        }
        i = i + 1;
    }
    false
}

/// One of the scrolls has the id `k`.
pub open spec fn has_scroll(list: Seq<Scroll>, k: Str) -> bool {
    exists|i: int| 0 <= i < list.len() && (#[trigger] list[i]).id@ == k
}

fn find_has_scroll(list: &Vec<Scroll>, k: &str) -> (r: bool)
    ensures
        r == has_scroll(list@, k@),
{
    let mut i: usize = 0;
    while i < list.len()
        invariant
            0 <= i <= list.len(),
            forall|j: int| 0 <= j < i ==> (#[trigger] list@[j]).id@ != k@,
        decreases list.len() - i,
    {
        if same(list[i].id.as_str(), k) {
            assert(list@[i as int].id@ == k@);
            return true;
        }
        i = i + 1;
    }
    false
}

/// One of the replies has the id `k`.
pub open spec fn has_reply(list: Seq<Reply>, k: Str) -> bool {
    exists|i: int| 0 <= i < list.len() && (#[trigger] list[i]).id@ == k
}

fn find_has_reply(list: &Vec<Reply>, k: &str) -> (r: bool)
    ensures
        r == has_reply(list@, k@),
{
    let mut i: usize = 0;
    while i < list.len()
        invariant
            0 <= i <= list.len(),
            forall|j: int| 0 <= j < i ==> (#[trigger] list@[j]).id@ != k@,
        decreases list.len() - i,
    {
        if same(list[i].id.as_str(), k) {
            assert(list@[i as int].id@ == k@);
            return true;
        }
        i = i + 1;
    }
    false
}

/// One of the results has the id `k`.
pub open spec fn has_result(list: Seq<TaskResult>, k: Str) -> bool {
    exists|i: int| 0 <= i < list.len() && (#[trigger] list[i]).id@ == k
}

pub(crate) fn find_has_result(list: &Vec<TaskResult>, k: &str) -> (r: bool)
    ensures
        r == has_result(list@, k@),
{
    let mut i: usize = 0;
    while i < list.len()
        invariant
            0 <= i <= list.len(),
            forall|j: int| 0 <= j < i ==> (#[trigger] list@[j]).id@ != k@,
        decreases list.len() - i,
    {
        if same(list[i].id.as_str(), k) {
            assert(list@[i as int].id@ == k@);
            return true;
        }
        i = i + 1;
    }
    false
}

/// One of the boosts is signed `k`.
pub open spec fn has_boost(list: Seq<Boost>, k: Str) -> bool {
    exists|i: int| 0 <= i < list.len() && (#[trigger] list[i]).sig@ == k
}

fn find_has_boost(list: &Vec<Boost>, k: &str) -> (r: bool)
    ensures
        r == has_boost(list@, k@),
{
    let mut i: usize = 0;
    while i < list.len()
        invariant
            0 <= i <= list.len(),
            forall|j: int| 0 <= j < i ==> (#[trigger] list@[j]).sig@ != k@,
        decreases list.len() - i,
    {
        if same(list[i].sig.as_str(), k) {
            assert(list@[i as int].sig@ == k@);
            return true;
        }
        i = i + 1;
    }
    false
}

/// One of the claims has the id `k`.
pub open spec fn has_horde_claim(list: Seq<HordeClaim>, k: Str) -> bool {
    exists|i: int| 0 <= i < list.len() && (#[trigger] list[i]).id@ == k
}

fn find_has_horde_claim(list: &Vec<HordeClaim>, k: &str) -> (r: bool)
    ensures
        r == has_horde_claim(list@, k@),
{
    let mut i: usize = 0;
    while i < list.len()
        invariant
            0 <= i <= list.len(),
            forall|j: int| 0 <= j < i ==> (#[trigger] list@[j]).id@ != k@,
        decreases list.len() - i,
    {
        if same(list[i].id.as_str(), k) {
            assert(list@[i as int].id@ == k@);
            return true;
        }
        i = i + 1;
    }
    false
}

/// One of the results has the id `k`.
pub open spec fn has_horde_result(list: Seq<HordeResult>, k: Str) -> bool {
    exists|i: int| 0 <= i < list.len() && (#[trigger] list[i]).id@ == k
}

fn find_has_horde_result(list: &Vec<HordeResult>, k: &str) -> (r: bool)
    ensures
        r == has_horde_result(list@, k@),
{
    let mut i: usize = 0;
    while i < list.len()
        invariant
            0 <= i <= list.len(),
            forall|j: int| 0 <= j < i ==> (#[trigger] list@[j]).id@ != k@,
        decreases list.len() - i,
    {
        if same(list[i].id.as_str(), k) {
            assert(list@[i as int].id@ == k@);
            return true;
        }
        i = i + 1;
    }
    false
}

/// The key that an `attest` entry credits: its author, where the check passed.
pub open spec fn attest_credit(body: Str) -> Option<Str> {
    match (json_flag(body, "passed"@), json_text(body, "author"@)) {
        (Some(passed), Some(author)) => if passed && author.len() > 0 {
            Some(author)
        } else {
            None
        },
        _ => None,
    }
}

impl CatalogModel {
    pub open spec fn with_artifact(self, a: Artifact) -> CatalogModel {
        CatalogModel {
            peers: bumped(self.peers, a.author@, Credit::Published),
            artifacts: self.artifacts.insert(a.id@, a),
            ..self
        }
    }

    /// The catalog with the presence of a peer, which keeps what it has earned.
    pub open spec fn with_peer(self, id: Str, endpoint: Str, capabilities: Seq<Str>) -> CatalogModel {
        CatalogModel {
            peers: self.peers.insert(
                id,
                PeerModel { id, endpoint, capabilities, reputation: peer_or_new(self.peers, id).reputation },
            ),
            ..self
        }
    }

    pub open spec fn with_attest(self, body: Str) -> CatalogModel {
        match attest_credit(body) {
            Some(author) => CatalogModel { peers: bumped(self.peers, author, Credit::Adopted), ..self },
            None => self,
        }
    }

    /// The first verdict of an attester on an artifact counts. The artifact's author is
    /// credited when a peer reproduces it.
    pub open spec fn with_reproduction(self, a: Attestation) -> CatalogModel {
        let list = list_at(self.reproductions, a.artifact_id@);
        if has_attester(list, a.attester@) {
            self
        } else {
            CatalogModel {
                peers: if a.reproduced && self.artifacts.contains_key(a.artifact_id@) {
                    bumped(self.peers, self.artifacts[a.artifact_id@].author@, Credit::Adopted)
                } else {
                    self.peers
                },
                reproductions: self.reproductions.insert(a.artifact_id@, list.push(a)),
                ..self
            }
        }
    }

    pub open spec fn with_scroll(self, s: Scroll) -> CatalogModel {
        if has_scroll(self.scrolls, s.id@) {
            self
        } else {
            CatalogModel { scrolls: self.scrolls.push(s), ..self }
        }
    }

    pub open spec fn with_reply(self, r: Reply) -> CatalogModel {
        let list = list_at(self.replies, r.parent@);
        if has_reply(list, r.id@) {
            self
        } else {
            CatalogModel { replies: self.replies.insert(r.parent@, list.push(r)), ..self }
        }
    }

    pub open spec fn with_vote(self, v: Vote) -> CatalogModel {
        if v.signed {
            CatalogModel { votes: self.votes.insert(v.target@, list_at(self.votes, v.target@).push(v)), ..self }
        } else {
            self
        }
    }

    /// The latest heartbeat of an agent counts.
    pub open spec fn with_profile(self, p: AgentProfile) -> CatalogModel {
        if p.signed {
            CatalogModel { profiles: self.profiles.insert(p.agent@, p), ..self }
        } else {
            self
        }
    }

    /// The first quest of an id counts.
    pub open spec fn with_quest(self, q: Quest) -> CatalogModel {
        if q.signed && !self.quests.contains_key(q.id@) {
            CatalogModel { quests: self.quests.insert(q.id@, q), ..self }
        } else {
            self
        }
    }

    pub open spec fn with_claim(self, c: TaskClaim) -> CatalogModel {
        let key = (c.quest@, c.task@);
        if c.signed {
            CatalogModel { claims: self.claims.insert(key, list_at(self.claims, key).push(c)), ..self }
        } else {
            self
        }
    }

    pub open spec fn with_result(self, r: TaskResult) -> CatalogModel {
        let key = (r.quest@, r.task@);
        let list = list_at(self.results, key);
        if r.signed {
            CatalogModel {
                result_loc: self.result_loc.insert(r.id@, key),
                results: if has_result(list, r.id@) {
                    self.results
                } else {
                    self.results.insert(key, list.push(r))
                },
                ..self
            }
        } else {
            self
        }
    }

    /// The first verdict of an attester on a result counts.
    pub open spec fn with_verification(self, a: Attestation) -> CatalogModel {
        let list = list_at(self.verifications, a.artifact_id@);
        if a.signed && !has_attester(list, a.attester@) {
            CatalogModel { verifications: self.verifications.insert(a.artifact_id@, list.push(a)), ..self }
        } else {
            self
        }
    }

    pub open spec fn with_boost(self, b: Boost) -> CatalogModel {
        if b.signed && !has_boost(self.boosts, b.sig@) {
            CatalogModel { boosts: self.boosts.push(b), ..self }
        } else {
            self
        }
    }

    pub open spec fn with_horde_task(self, t: HordeTask) -> CatalogModel {
        if t.signed && !self.horde_tasks.contains_key(t.id@) {
            CatalogModel { horde_tasks: self.horde_tasks.insert(t.id@, t), ..self }
        } else {
            self
        }
    }

    /// `who` belongs to the account that posted the piece of work `task`.
    pub open spec fn horde_member(self, reg: Registry, task: Str, who: Str) -> bool {
        &&& self.horde_tasks.contains_key(task)
        &&& reg.unit_of(self.horde_tasks[task].author@) == reg.unit_of(who)
    }

    pub open spec fn with_horde_claim(self, reg: Registry, c: HordeClaim) -> CatalogModel {
        let list = list_at(self.horde_claims, c.task@);
        if c.signed && self.horde_member(reg, c.task@, c.worker@) && !has_horde_claim(list, c.id@) {
            CatalogModel { horde_claims: self.horde_claims.insert(c.task@, list.push(c)), ..self }
        } else {
            self
        }
    }

    pub open spec fn with_horde_result(self, reg: Registry, r: HordeResult) -> CatalogModel {
        let list = list_at(self.horde_results, r.task@);
        if r.signed && self.horde_member(reg, r.task@, r.worker@) && !has_horde_result(list, r.id@) {
            CatalogModel { horde_results: self.horde_results.insert(r.task@, list.push(r)), ..self }
        } else {
            self
        }
    }

    /// Only an agent of the author's own account closes a quest; the earliest close
    /// stands.
    pub open spec fn with_close(self, reg: Registry, c: QuestClose) -> CatalogModel {
        if c.signed && self.quests.contains_key(c.quest@) && reg.unit_of(self.quests[c.quest@].author@) == reg.unit_of(
            c.author@,
        ) {
            CatalogModel {
                closed: self.closed.insert(
                    c.quest@,
                    if self.closed.contains_key(c.quest@) && self.closed[c.quest@] <= c.created_ts {
                        self.closed[c.quest@]
                    } else {
                        c.created_ts
                    },
                ),
                ..self
            }
        } else {
            self
        }
    }

    /// Only the quest's author accepts a result, even on replay.
    pub open spec fn with_accept(self, a: TaskAccept) -> CatalogModel {
        if a.signed && self.quests.contains_key(a.quest@) && self.quests[a.quest@].author@ == a.author@ {
            CatalogModel { accepts: self.accepts.insert((a.quest@, a.task@), a), ..self }
        } else {
            self
        }
    }

    /// A name that another owner holds.
    pub open spec fn name_taken(self, key: Str, owner: Str) -> bool {
        self.handles.contains_key(key) && self.handles[key].owner@ != owner
    }

    /// The first owner of a name keeps it, and may claim again or rename.
    pub open spec fn with_handle(self, h: Handle) -> CatalogModel {
        if h.signed && !self.name_taken(h.key@, h.owner@) {
            CatalogModel {
                name_of: self.name_of.insert(h.owner@, h.name@),
                handles: self.handles.insert(h.key@, h),
                ..self
            }
        } else {
            self
        }
    }

    /// The catalog after one more ledger entry. An entry of no known kind, or one that
    /// does not read as a record of its kind, leaves it as it was.
    pub open spec fn step(self, reg: Registry, kind: Str, body: Str, record: Record) -> CatalogModel {
        match (kind_named(kind), record) {
            (Some(Kind::Artifact), Record::Artifact(a)) => self.with_artifact(a),
            (Some(Kind::Attest), _) => self.with_attest(body),
            (Some(Kind::Reproduction), Record::Attestation(a)) => self.with_reproduction(a),
            (Some(Kind::Scroll), Record::Scroll(s)) => self.with_scroll(s),
            (Some(Kind::Reply), Record::Reply(r)) => self.with_reply(r),
            (Some(Kind::Vote), Record::Vote(v)) => self.with_vote(v),
            (Some(Kind::Profile), Record::Profile(p)) => self.with_profile(p),
            (Some(Kind::Quest), Record::Quest(q)) => self.with_quest(q),
            (Some(Kind::Claim), Record::Claim(c)) => self.with_claim(c),
            (Some(Kind::Result), Record::Result(r)) => self.with_result(r),
            (Some(Kind::Verify), Record::Attestation(a)) => self.with_verification(a),
            (Some(Kind::Boost), Record::Boost(b)) => self.with_boost(b),
            (Some(Kind::HordeTask), Record::HordeTask(t)) => self.with_horde_task(t),
            (Some(Kind::HordeClaim), Record::HordeClaim(c)) => self.with_horde_claim(reg, c),
            (Some(Kind::HordeResult), Record::HordeResult(r)) => self.with_horde_result(reg, r),
            (Some(Kind::Close), Record::Close(c)) => self.with_close(reg, c),
            (Some(Kind::Accept), Record::Accept(a)) => self.with_accept(a),
            (Some(Kind::Handle), Record::Handle(h)) => self.with_handle(h),
            _ => self,
        }
    }
}

impl Catalog {
    /// The catalog of an empty ledger.
    pub fn new() -> (r: Self)
        ensures
            r@ == empty_catalog(),
    {
        let r = Catalog {
            peers: OrdMap::new(),
            artifacts: OrdMap::new(),
            reproductions: ListMap::new(),
            scrolls: Vec::new(),
            replies: ListMap::new(),
            votes: ListMap::new(),
            handles: OrdMap::new(),
            name_of: OrdMap::new(),
            profiles: OrdMap::new(),
            quests: OrdMap::new(),
            claims: PairLists::new(),
            results: PairLists::new(),
            accepts: PairMap::new(),
            verifications: ListMap::new(),
            result_loc: OrdMap::new(),
            boosts: Vec::new(),
            closed: OrdMap::new(),
            horde_tasks: OrdMap::new(),
            horde_claims: ListMap::new(),
            horde_results: ListMap::new(),
        };
        assert(r@ =~= empty_catalog());
        r
    }

    fn fold_artifact(&mut self, a: Artifact)
        ensures
            final(self)@ == old(self)@.with_artifact(a),
    {
        let ghost before = self@;
        bump(&mut self.peers, a.author.as_str(), Credit::Published);
        self.artifacts.insert(a.id.clone(), a);
        assert(self@ =~= before.with_artifact(a));
    }

    fn fold_attest(&mut self, body: &str)
        ensures
            final(self)@ == old(self)@.with_attest(body@),
    {
        let ghost before = self@;
        let passed = match read_flag(body, "passed") {
            Some(b) => b,
            None => false,
        };
        let author = match read_text(body, "author") {
            Some(s) => s,
            None => String::new(),
        };
        if passed && author.as_str().unicode_len() > 0 {
            bump(&mut self.peers, author.as_str(), Credit::Adopted);
        }
        assert(self@ =~= before.with_attest(body@));
    }

    fn fold_reproduction(&mut self, a: Attestation)
        ensures
            final(self)@ == old(self)@.with_reproduction(a),
    {
        let ghost before = self@;
        let dup = match self.reproductions.list(a.artifact_id.as_str()) {
            Some(list) => find_has_attester(list, a.attester.as_str()),
            None => false,
        };
        if dup {
            return ;
        }
        if a.reproduced {
            if let Some(art) = self.artifacts.get(a.artifact_id.as_str()) {
                bump(&mut self.peers, art.author.as_str(), Credit::Adopted);
            }
        }
        let id = a.artifact_id.clone();
        self.reproductions.push(id.as_str(), a);
        assert(self@ =~= before.with_reproduction(a));
    }

    fn fold_scroll(&mut self, s: Scroll)
        ensures
            final(self)@ == old(self)@.with_scroll(s),
    {
        if !find_has_scroll(&self.scrolls, s.id.as_str()) {
            self.scrolls.push(s);
        }
    }

    fn fold_reply(&mut self, r: Reply)
        ensures
            final(self)@ == old(self)@.with_reply(r),
    {
        let dup = match self.replies.list(r.parent.as_str()) {
            Some(list) => find_has_reply(list, r.id.as_str()),
            None => false,
        };
        if !dup {
            let parent = r.parent.clone();
            self.replies.push(parent.as_str(), r);
        }
    }

    fn fold_vote(&mut self, v: Vote)
        ensures
            final(self)@ == old(self)@.with_vote(v),
    {
        if v.signed {
            let target = v.target.clone();
            self.votes.push(target.as_str(), v);
        }
    }

    fn fold_profile(&mut self, p: AgentProfile)
        ensures
            final(self)@ == old(self)@.with_profile(p),
    {
        if p.signed {
            self.profiles.insert(p.agent.clone(), p);
        }
    }

    fn fold_quest(&mut self, q: Quest)
        ensures
            final(self)@ == old(self)@.with_quest(q),
    {
        if q.signed && !self.quests.contains_key(q.id.as_str()) {
            self.quests.insert(q.id.clone(), q);
        }
    }

    fn fold_claim(&mut self, c: TaskClaim)
        ensures
            final(self)@ == old(self)@.with_claim(c),
    {
        if c.signed {
            let quest = c.quest.clone();
            let task = c.task.clone();
            self.claims.push(quest.as_str(), task.as_str(), c);
        }
    }

    fn fold_result(&mut self, r: TaskResult)
        ensures
            final(self)@ == old(self)@.with_result(r),
    {
        let ghost before = self@;
        if r.signed {
            let quest = r.quest.clone();
            let task = r.task.clone();
            self.result_loc.insert(r.id.clone(), (r.quest.clone(), r.task.clone()));
            assert(place_models(self.result_loc@) =~= before.result_loc.insert(r.id@, (r.quest@, r.task@)));
            let dup = match self.results.list(quest.as_str(), task.as_str()) {
                Some(list) => find_has_result(list, r.id.as_str()),
                None => false,
            };
            if !dup {
                self.results.push(quest.as_str(), task.as_str(), r);
            }
        }
    }

    fn fold_verification(&mut self, a: Attestation)
        ensures
            final(self)@ == old(self)@.with_verification(a),
    {
        let dup = match self.verifications.list(a.artifact_id.as_str()) {
            Some(list) => find_has_attester(list, a.attester.as_str()),
            None => false,
        };
        if a.signed && !dup {
            let id = a.artifact_id.clone();
            self.verifications.push(id.as_str(), a);
        }
    }

    fn fold_boost(&mut self, b: Boost)
        ensures
            final(self)@ == old(self)@.with_boost(b),
    {
        if b.signed && !find_has_boost(&self.boosts, b.sig.as_str()) {
            self.boosts.push(b);
        }
    }

    fn fold_horde_task(&mut self, t: HordeTask)
        ensures
            final(self)@ == old(self)@.with_horde_task(t),
    {
        if t.signed && !self.horde_tasks.contains_key(t.id.as_str()) {
            self.horde_tasks.insert(t.id.clone(), t);
        }
    }

    pub(crate) fn is_horde_member(&self, accounts: &Accounts, task: &str, who: &str) -> (r: bool)
        ensures
            r == self@.horde_member(accounts@, task@, who@),
    {
        match self.horde_tasks.get(task) {
            Some(t) => same(accounts.unit_for(t.author.as_str()).as_str(), accounts.unit_for(who).as_str()),
            None => false,
        }
    }

    fn fold_horde_claim(&mut self, accounts: &Accounts, c: HordeClaim)
        ensures
            final(self)@ == old(self)@.with_horde_claim(accounts@, c),
    {
        let dup = match self.horde_claims.list(c.task.as_str()) {
            Some(list) => find_has_horde_claim(list, c.id.as_str()),
            None => false,
        };
        if c.signed && self.is_horde_member(accounts, c.task.as_str(), c.worker.as_str()) && !dup {
            let task = c.task.clone();
            self.horde_claims.push(task.as_str(), c);
        }
    }

    fn fold_horde_result(&mut self, accounts: &Accounts, r: HordeResult)
        ensures
            final(self)@ == old(self)@.with_horde_result(accounts@, r),
    {
        let dup = match self.horde_results.list(r.task.as_str()) {
            Some(list) => find_has_horde_result(list, r.id.as_str()),
            None => false,
        };
        if r.signed && self.is_horde_member(accounts, r.task.as_str(), r.worker.as_str()) && !dup {
            let task = r.task.clone();
            self.horde_results.push(task.as_str(), r);
        }
    }

    fn fold_close(&mut self, accounts: &Accounts, c: QuestClose)
        ensures
            final(self)@ == old(self)@.with_close(accounts@, c),
    {
        let by_author = match self.quests.get(c.quest.as_str()) {
            Some(q) => same(
                accounts.unit_for(q.author.as_str()).as_str(),
                accounts.unit_for(c.author.as_str()).as_str(),
            ),
            None => false,
        };
        if c.signed && by_author {
            let ts: i64 = match self.closed.get(c.quest.as_str()) {
                Some(ts) => if *ts <= c.created_ts {
                    *ts
                } else {
                    c.created_ts
                },
                None => c.created_ts,
            };
            self.closed.insert(c.quest.clone(), ts);
        }
    }

    fn fold_accept(&mut self, a: TaskAccept)
        ensures
            final(self)@ == old(self)@.with_accept(a),
    {
        let by_author = match self.quests.get(a.quest.as_str()) {
            Some(q) => same(q.author.as_str(), a.author.as_str()),
            None => false,
        };
        if a.signed && by_author {
            let quest = a.quest.clone();
            let task = a.task.clone();
            self.accepts.insert(quest.as_str(), task.as_str(), a);
        }
    }

    /// Whether another owner holds the name.
    pub fn is_name_taken(&self, key: &str, owner: &str) -> (r: bool)
        ensures
            r == self@.name_taken(key@, owner@),
    {
        match self.handles.get(key) {
            Some(h) => !same(h.owner.as_str(), owner),
            None => false,
        }
    }

    fn fold_handle(&mut self, h: Handle)
        ensures
            final(self)@ == old(self)@.with_handle(h),
    {
        let ghost before = self@;
        if h.signed && !self.is_name_taken(h.key.as_str(), h.owner.as_str()) {
            self.name_of.insert(h.owner.clone(), h.name.clone());
            assert(name_models(self.name_of@) =~= before.name_of.insert(h.owner@, h.name@));
            self.handles.insert(h.key.clone(), h);
        }
    }

    /// Folds one ledger entry into the catalog: at startup, when an entry is appended,
    /// and when a peer's entries come in.
    pub fn apply(&mut self, accounts: &Accounts, kind: &str, body: &str, record: Record)
        ensures
            final(self)@ == old(self)@.step(accounts@, kind@, body@, record),
    {
        match (kind_of(kind), record) {
            (Some(Kind::Artifact), Record::Artifact(a)) => self.fold_artifact(a),
            (Some(Kind::Attest), _) => self.fold_attest(body),
            (Some(Kind::Reproduction), Record::Attestation(a)) => self.fold_reproduction(a),
            (Some(Kind::Scroll), Record::Scroll(s)) => self.fold_scroll(s),
            (Some(Kind::Reply), Record::Reply(r)) => self.fold_reply(r),
            (Some(Kind::Vote), Record::Vote(v)) => self.fold_vote(v),
            (Some(Kind::Profile), Record::Profile(p)) => self.fold_profile(p),
            (Some(Kind::Quest), Record::Quest(q)) => self.fold_quest(q),
            (Some(Kind::Claim), Record::Claim(c)) => self.fold_claim(c),
            (Some(Kind::Result), Record::Result(r)) => self.fold_result(r),
            (Some(Kind::Verify), Record::Attestation(a)) => self.fold_verification(a),
            (Some(Kind::Boost), Record::Boost(b)) => self.fold_boost(b),
            (Some(Kind::HordeTask), Record::HordeTask(t)) => self.fold_horde_task(t),
            (Some(Kind::HordeClaim), Record::HordeClaim(c)) => self.fold_horde_claim(accounts, c),
            (Some(Kind::HordeResult), Record::HordeResult(r)) => self.fold_horde_result(accounts, r),
            (Some(Kind::Close), Record::Close(c)) => self.fold_close(accounts, c),
            (Some(Kind::Accept), Record::Accept(a)) => self.fold_accept(a),
            (Some(Kind::Handle), Record::Handle(h)) => self.fold_handle(h),
            _ => {},
        }
    }
}

} // verus!
