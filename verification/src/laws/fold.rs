//! Laws of one more entry: what it changes, and what it leaves alone.

use crate::accounts::Registry;
use crate::catalog::{CatalogModel, PeerModel, Reputation};
use crate::ordmap::list_at;
use crate::records::{
    kind_named, AgentProfile, Artifact, Attestation, Boost, Handle, HordeClaim, HordeResult, HordeTask, Kind, Quest, QuestClose,
    Record, Reply, Scroll, Str, TaskAccept, TaskClaim, TaskResult, Vote,
};
use vstd::prelude::*;

verus! {

/// Each kind of entry has its own part of the catalog, and changes no other.
pub proof fn law_entries_keep_to_their_part(c: CatalogModel, reg: Registry, kind: Str, body: Str, record: Record)
    ensures
        ({
            let k = kind_named(kind);
            let e = c.step(reg, kind, body, record);
            &&& e.peers == c.peers || k == Some(Kind::Artifact) || k == Some(Kind::Attest) || k == Some(Kind::Reproduction)
            &&& e.artifacts == c.artifacts || k == Some(Kind::Artifact)
            &&& e.reproductions == c.reproductions || k == Some(Kind::Reproduction)
            &&& e.scrolls == c.scrolls || k == Some(Kind::Scroll)
            &&& e.replies == c.replies || k == Some(Kind::Reply)
            &&& e.votes == c.votes || k == Some(Kind::Vote)
            &&& e.handles == c.handles || k == Some(Kind::Handle)
            &&& e.name_of == c.name_of || k == Some(Kind::Handle)
            &&& e.profiles == c.profiles || k == Some(Kind::Profile)
            &&& e.quests == c.quests || k == Some(Kind::Quest)
            &&& e.claims == c.claims || k == Some(Kind::Claim)
            &&& e.results == c.results || k == Some(Kind::Result)
            &&& e.result_loc == c.result_loc || k == Some(Kind::Result)
            &&& e.accepts == c.accepts || k == Some(Kind::Accept)
            &&& e.verifications == c.verifications || k == Some(Kind::Verify)
            &&& e.boosts == c.boosts || k == Some(Kind::Boost)
            &&& e.closed == c.closed || k == Some(Kind::Close)
            &&& e.horde_tasks == c.horde_tasks || k == Some(Kind::HordeTask)
            &&& e.horde_claims == c.horde_claims || k == Some(Kind::HordeClaim)
            &&& e.horde_results == c.horde_results || k == Some(Kind::HordeResult)
        }),
{
}

/// `after` has one more publication, or one more adoption, of `id`, and is otherwise as
/// before. A key that was no peer becomes one that has nothing else.
pub open spec fn one_more(
    before: Map<Str, PeerModel>,
    after: Map<Str, PeerModel>,
    id: Str,
    published: int,
    adopted: int,
) -> bool {
    &&& after.contains_key(id)
    &&& before.contains_key(id) ==> after[id].id == before[id].id && after[id].endpoint == before[id].endpoint
        && after[id].capabilities == before[id].capabilities
    &&& !before.contains_key(id) ==> after[id].id == id && after[id].endpoint.len() == 0 && after[id].capabilities.len() == 0
    &&& counts_on(
        if before.contains_key(id) {
            before[id].reputation.published as int
        } else {
            0
        },
        after[id].reputation.published as int,
        published,
    )
    &&& counts_on(
        if before.contains_key(id) {
            before[id].reputation.adopted as int
        } else {
            0
        },
        after[id].reputation.adopted as int,
        adopted,
    )
    &&& forall|k: Str| k != id ==> (#[trigger] after.contains_key(k)) == before.contains_key(k)
    &&& forall|k: Str| k != id && before.contains_key(k) ==> #[trigger] after[k] == before[k]
}

/// `b` is `by` more than `a`, or went round past what a counter holds.
pub open spec fn counts_on(a: int, b: int, by: int) -> bool {
    b == a + by || (a + by > u32::MAX && b == a + by - 0x1_0000_0000)
}

/// An artifact is kept under its id, in place of one that was there, and counts as a
/// publication of its author.
pub proof fn law_artifacts_are_kept(c: CatalogModel, a: Artifact)
    ensures
        ({
            let e = c.with_artifact(a);
            &&& e.artifacts.contains_key(a.id@) && e.artifacts[a.id@] == a
            &&& forall|k: Str| k != a.id@ ==> (#[trigger] e.artifacts.contains_key(k)) == c.artifacts.contains_key(k)
            &&& forall|k: Str| k != a.id@ ==> #[trigger] e.artifacts[k] == c.artifacts[k]
            &&& one_more(c.peers, e.peers, a.author@, 1, 0)
        }),
{
}

/// A peer that registers is known by what it says from then on, and keeps what it has earned,
/// which is nothing where it is new. No other peer changes, nor anything else.
pub proof fn law_registering_keeps_what_is_earned(c: CatalogModel, id: Str, endpoint: Str, capabilities: Seq<Str>)
    ensures
        ({
            let e = c.with_peer(id, endpoint, capabilities);
            &&& one_more(
                c.peers.insert(
                    id,
                    PeerModel {
                        id,
                        endpoint,
                        capabilities,
                        reputation: if c.peers.contains_key(id) {
                            c.peers[id].reputation
                        } else {
                            Reputation { published: 0, adopted: 0 }
                        },
                    },
                ),
                e.peers,
                id,
                0,
                0,
            )
            &&& e == (CatalogModel { peers: e.peers, ..c })
        }),
{
}

/// An `attest` entry counts as an adoption of the author it names, where it says that the
/// check passed; else it changes nothing.
pub proof fn law_checks_credit_the_author(c: CatalogModel, body: Str)
    ensures
        ({
            let passed = crate::json::json_flag(body, "passed"@);
            let author = crate::json::json_text(body, "author"@);
            let e = c.with_attest(body);
            &&& passed == Some(true) && author is Some && author->Some_0.len() > 0 ==> one_more(
                c.peers,
                e.peers,
                author->Some_0,
                0,
                1,
            )
            &&& !(passed == Some(true) && author is Some && author->Some_0.len() > 0) ==> e == c
        }),
{
}

/// A verdict on an artifact is kept at the end of those on it, unless its attester gave one
/// before. Where it reproduced the artifact, that counts as an adoption of the artifact's
/// author; nobody else is credited.
pub proof fn law_reproductions_are_kept(c: CatalogModel, a: Attestation)
    ensures
        ({
            let e = c.with_reproduction(a);
            let old = list_at(c.reproductions, a.artifact_id@);
            let fresh = forall|i: int| 0 <= i < old.len() ==> (#[trigger] old[i]).attester@ != a.attester@;
            let known = c.artifacts.contains_key(a.artifact_id@);
            &&& !fresh ==> e == c
            &&& fresh ==> list_at(e.reproductions, a.artifact_id@) == old.push(a)
            &&& forall|k: Str| k != a.artifact_id@ ==> #[trigger] list_at(e.reproductions, k) == list_at(c.reproductions, k)
            &&& fresh && a.reproduced && known ==> one_more(c.peers, e.peers, c.artifacts[a.artifact_id@].author@, 0, 1)
            &&& !(fresh && a.reproduced && known) ==> e.peers == c.peers
        }),
{
}

/// A scroll is kept as the newest, unless one of its id is there.
pub proof fn law_scrolls_are_kept(c: CatalogModel, s: Scroll)
    ensures
        ({
            let fresh = forall|i: int| 0 <= i < c.scrolls.len() ==> (#[trigger] c.scrolls[i]).id@ != s.id@;
            &&& fresh ==> c.with_scroll(s).scrolls == c.scrolls.push(s)
            &&& !fresh ==> c.with_scroll(s) == c
        }),
{
}

/// A reply is kept at the end of its parent's thread, unless one of its id is there.
pub proof fn law_replies_are_kept(c: CatalogModel, r: Reply)
    ensures
        ({
            let e = c.with_reply(r);
            let old = list_at(c.replies, r.parent@);
            let fresh = forall|i: int| 0 <= i < old.len() ==> (#[trigger] old[i]).id@ != r.id@;
            &&& fresh ==> list_at(e.replies, r.parent@) == old.push(r)
            &&& !fresh ==> e == c
            &&& forall|k: Str| k != r.parent@ ==> #[trigger] list_at(e.replies, k) == list_at(c.replies, k)
        }),
{
}

/// A signed vote is kept with those on its target.
pub proof fn law_votes_are_kept(c: CatalogModel, v: Vote)
    ensures
        ({
            let e = c.with_vote(v);
            &&& !v.signed ==> e == c
            &&& v.signed ==> list_at(e.votes, v.target@) == list_at(c.votes, v.target@).push(v)
            &&& forall|k: Str| k != v.target@ ==> #[trigger] list_at(e.votes, k) == list_at(c.votes, k)
        }),
{
}

/// A signed heartbeat is what is known of its agent from then on.
pub proof fn law_heartbeats_are_kept(c: CatalogModel, p: AgentProfile)
    ensures
        ({
            let e = c.with_profile(p);
            &&& !p.signed ==> e == c
            &&& p.signed ==> e.profiles.contains_key(p.agent@) && e.profiles[p.agent@] == p
            &&& forall|k: Str| k != p.agent@ ==> (#[trigger] e.profiles.contains_key(k)) == c.profiles.contains_key(k)
            &&& forall|k: Str| k != p.agent@ ==> #[trigger] e.profiles[k] == c.profiles[k]
        }),
{
}

/// A signed quest is kept, unless one of its id is there.
pub proof fn law_quests_are_kept(c: CatalogModel, q: Quest)
    ensures
        ({
            let e = c.with_quest(q);
            &&& !q.signed || c.quests.contains_key(q.id@) ==> e == c
            &&& q.signed && !c.quests.contains_key(q.id@) ==> e.quests.contains_key(q.id@) && e.quests[q.id@] == q
            &&& forall|k: Str| k != q.id@ ==> (#[trigger] e.quests.contains_key(k)) == c.quests.contains_key(k)
            &&& forall|k: Str| k != q.id@ ==> #[trigger] e.quests[k] == c.quests[k]
        }),
{
}

/// A signed claim is kept with those on its task.
pub proof fn law_claims_are_kept(c: CatalogModel, x: TaskClaim)
    ensures
        ({
            let e = c.with_claim(x);
            let at = (x.quest@, x.task@);
            &&& !x.signed ==> e == c
            &&& x.signed ==> list_at(e.claims, at) == list_at(c.claims, at).push(x)
            &&& forall|k: (Str, Str)| k != at ==> #[trigger] list_at(e.claims, k) == list_at(c.claims, k)
        }),
{
}

/// A signed result is kept at the end of those of its task, unless one of its id is there,
/// and can be found by its id.
pub proof fn law_results_are_kept(c: CatalogModel, r: TaskResult)
    ensures
        ({
            let e = c.with_result(r);
            let at = (r.quest@, r.task@);
            let old = list_at(c.results, at);
            let fresh = forall|i: int| 0 <= i < old.len() ==> (#[trigger] old[i]).id@ != r.id@;
            &&& !r.signed ==> e == c
            &&& r.signed && fresh ==> list_at(e.results, at) == old.push(r)
            &&& r.signed && !fresh ==> e.results == c.results
            &&& r.signed ==> e.result_loc.contains_key(r.id@) && e.result_loc[r.id@] == at
            &&& forall|k: (Str, Str)| k != at ==> #[trigger] list_at(e.results, k) == list_at(c.results, k)
            &&& forall|k: Str| k != r.id@ ==> (#[trigger] e.result_loc.contains_key(k)) == c.result_loc.contains_key(k)
            &&& forall|k: Str| k != r.id@ ==> #[trigger] e.result_loc[k] == c.result_loc[k]
        }),
{
}

/// A signed verdict on a result is kept at the end of those on it, unless its attester gave
/// one before.
pub proof fn law_verdicts_are_kept(c: CatalogModel, a: Attestation)
    ensures
        ({
            let e = c.with_verification(a);
            let old = list_at(c.verifications, a.artifact_id@);
            let fresh = forall|i: int| 0 <= i < old.len() ==> (#[trigger] old[i]).attester@ != a.attester@;
            &&& a.signed && fresh ==> list_at(e.verifications, a.artifact_id@) == old.push(a)
            &&& !(a.signed && fresh) ==> e == c
            &&& forall|k: Str| k != a.artifact_id@ ==> #[trigger] list_at(e.verifications, k) == list_at(c.verifications, k)
        }),
{
}

/// A signed boost is kept, unless one of its signature is there.
pub proof fn law_boosts_are_kept(c: CatalogModel, b: Boost)
    ensures
        ({
            let fresh = forall|i: int| 0 <= i < c.boosts.len() ==> (#[trigger] c.boosts[i]).sig@ != b.sig@;
            &&& b.signed && fresh ==> c.with_boost(b).boosts == c.boosts.push(b)
            &&& !(b.signed && fresh) ==> c.with_boost(b) == c
        }),
{
}

/// The very key that posted a quest says what it accepts, and its latest word stands.
pub proof fn law_acceptances_are_kept(c: CatalogModel, a: TaskAccept)
    ensures
        ({
            let e = c.with_accept(a);
            let at = (a.quest@, a.task@);
            let by_author = c.quests.contains_key(a.quest@) && c.quests[a.quest@].author@ == a.author@;
            &&& !(a.signed && by_author) ==> e == c
            &&& a.signed && by_author ==> e.accepts.contains_key(at) && e.accepts[at] == a
            &&& forall|k: (Str, Str)| k != at ==> (#[trigger] e.accepts.contains_key(k)) == c.accepts.contains_key(k)
            &&& forall|k: (Str, Str)| k != at ==> #[trigger] e.accepts[k] == c.accepts[k]
        }),
{
}

/// A close that is signed by an agent of the account that posted the quest closes it, at the
/// earlier of its own time and what was there.
pub proof fn law_closes_are_kept(c: CatalogModel, reg: Registry, x: QuestClose)
    ensures
        ({
            let e = c.with_close(reg, x);
            let by_author = c.quests.contains_key(x.quest@) && reg.unit_of(c.quests[x.quest@].author@) == reg.unit_of(x.author@);
            &&& !(x.signed && by_author) ==> e == c
            &&& x.signed && by_author ==> e.closed.contains_key(x.quest@) && e.closed[x.quest@] <= x.created_ts && (
            e.closed[x.quest@] == x.created_ts || (c.closed.contains_key(x.quest@) && e.closed[x.quest@] == c.closed[x.quest@]))
            &&& c.closed.contains_key(x.quest@) ==> e.closed.contains_key(x.quest@) && e.closed[x.quest@] <= c.closed[x.quest@]
            &&& forall|k: Str| k != x.quest@ ==> (#[trigger] e.closed.contains_key(k)) == c.closed.contains_key(k)
            &&& forall|k: Str| k != x.quest@ ==> #[trigger] e.closed[k] == c.closed[k]
        }),
{
}

/// A signed claim to a name that nobody else holds gives its owner the name, and the owner
/// is shown by it; nobody else's names change.
pub proof fn law_names_are_kept(c: CatalogModel, h: Handle)
    ensures
        ({
            let e = c.with_handle(h);
            let free = !c.handles.contains_key(h.key@) || c.handles[h.key@].owner@ == h.owner@;
            &&& !(h.signed && free) ==> e == c
            &&& h.signed && free ==> {
                &&& e.handles.contains_key(h.key@) && e.handles[h.key@] == h
                &&& e.name_of.contains_key(h.owner@) && e.name_of[h.owner@] == h.name@
            }
            &&& forall|k: Str| k != h.key@ ==> (#[trigger] e.handles.contains_key(k)) == c.handles.contains_key(k)
            &&& forall|k: Str| k != h.key@ ==> #[trigger] e.handles[k] == c.handles[k]
            &&& forall|k: Str| k != h.owner@ ==> (#[trigger] e.name_of.contains_key(k)) == c.name_of.contains_key(k)
            &&& forall|k: Str| k != h.owner@ ==> #[trigger] e.name_of[k] == c.name_of[k]
        }),
{
}

/// A signed piece of an account's own work is kept, unless one of its id is there.
pub proof fn law_own_work_is_kept(c: CatalogModel, t: HordeTask)
    ensures
        ({
            let e = c.with_horde_task(t);
            &&& !t.signed || c.horde_tasks.contains_key(t.id@) ==> e == c
            &&& t.signed && !c.horde_tasks.contains_key(t.id@) ==> e.horde_tasks.contains_key(t.id@) && e.horde_tasks[t.id@] == t
            &&& forall|k: Str| k != t.id@ ==> (#[trigger] e.horde_tasks.contains_key(k)) == c.horde_tasks.contains_key(k)
            &&& forall|k: Str| k != t.id@ ==> #[trigger] e.horde_tasks[k] == c.horde_tasks[k]
        }),
{
}

/// The key is one of the account that posted the piece of work.
pub open spec fn of_the_house(c: CatalogModel, reg: Registry, task: Str, pubkey: Str) -> bool {
    c.horde_tasks.contains_key(task) && reg.unit_of(c.horde_tasks[task].author@) == reg.unit_of(pubkey)
}

/// A claim on an account's own work, and an answer to it, are kept where an agent of the
/// account signed them and none of the id is there.
pub proof fn law_own_claims_and_answers_are_kept(c: CatalogModel, reg: Registry, x: HordeClaim, r: HordeResult)
    ensures
        ({
            let e = c.with_horde_claim(reg, x);
            let old = list_at(c.horde_claims, x.task@);
            let fresh = forall|i: int| 0 <= i < old.len() ==> (#[trigger] old[i]).id@ != x.id@;
            let kept = x.signed && of_the_house(c, reg, x.task@, x.worker@) && fresh;
            &&& kept ==> list_at(e.horde_claims, x.task@) == old.push(x)
            &&& !kept ==> e == c
            &&& forall|k: Str| k != x.task@ ==> #[trigger] list_at(e.horde_claims, k) == list_at(c.horde_claims, k)
        }),
        ({
            let e = c.with_horde_result(reg, r);
            let old = list_at(c.horde_results, r.task@);
            let fresh = forall|i: int| 0 <= i < old.len() ==> (#[trigger] old[i]).id@ != r.id@;
            let kept = r.signed && of_the_house(c, reg, r.task@, r.worker@) && fresh;
            &&& kept ==> list_at(e.horde_results, r.task@) == old.push(r)
            &&& !kept ==> e == c
            &&& forall|k: Str| k != r.task@ ==> #[trigger] list_at(e.horde_results, k) == list_at(c.horde_results, k)
        }),
{
}

/// An entry is folded in as a record of its kind, and as nothing else.
pub proof fn law_entries_are_read_by_kind(c: CatalogModel, reg: Registry, k: Kind, body: Str, record: Record)
    ensures
        ({
            let e = c.step(reg, k.name(), body, record);
            &&& k == Kind::Attest ==> e == c.with_attest(body)
            &&& record matches Record::Artifact(x) ==> k == Kind::Artifact ==> e == c.with_artifact(x)
            &&& record matches Record::Attestation(x) ==> {
                &&& k == Kind::Reproduction ==> e == c.with_reproduction(x)
                &&& k == Kind::Verify ==> e == c.with_verification(x)
            }
            &&& record matches Record::Scroll(x) ==> k == Kind::Scroll ==> e == c.with_scroll(x)
            &&& record matches Record::Reply(x) ==> k == Kind::Reply ==> e == c.with_reply(x)
            &&& record matches Record::Vote(x) ==> k == Kind::Vote ==> e == c.with_vote(x)
            &&& record matches Record::Profile(x) ==> k == Kind::Profile ==> e == c.with_profile(x)
            &&& record matches Record::Quest(x) ==> k == Kind::Quest ==> e == c.with_quest(x)
            &&& record matches Record::Claim(x) ==> k == Kind::Claim ==> e == c.with_claim(x)
            &&& record matches Record::Result(x) ==> k == Kind::Result ==> e == c.with_result(x)
            &&& record matches Record::Boost(x) ==> k == Kind::Boost ==> e == c.with_boost(x)
            &&& record matches Record::HordeTask(x) ==> k == Kind::HordeTask ==> e == c.with_horde_task(x)
            &&& record matches Record::HordeClaim(x) ==> k == Kind::HordeClaim ==> e == c.with_horde_claim(reg, x)
            &&& record matches Record::HordeResult(x) ==> k == Kind::HordeResult ==> e == c.with_horde_result(reg, x)
            &&& record matches Record::Close(x) ==> k == Kind::Close ==> e == c.with_close(reg, x)
            &&& record matches Record::Accept(x) ==> k == Kind::Accept ==> e == c.with_accept(x)
            &&& record matches Record::Handle(x) ==> k == Kind::Handle ==> e == c.with_handle(x)
        }),
{
    crate::records::lemma_kind_named(k);
}

} // verus!
