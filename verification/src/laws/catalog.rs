//! Laws of the catalog: what every entry keeps.

use crate::accounts::Registry;
use crate::catalog::{
    empty_catalog, has_attester, has_boost, has_horde_claim, has_horde_result, has_reply, has_result, has_scroll,
    credited, peer_or_new, CatalogModel, Credit,
};
use crate::directory::replay;
use crate::ledger::Row;
use crate::ordmap::list_at;
use crate::records::{
    kind_named, AgentProfile, Artifact, Attestation, Boost, Handle, HordeClaim, HordeResult, HordeTask, Kind, Quest, QuestClose,
    Record, Reply, Scroll, Str, TaskAccept, TaskClaim, TaskResult, Vote,
};
use vstd::prelude::*;

verus! {

/// At most one verdict of each attester, each on `id`.
pub open spec fn verdicts_on(list: Seq<Attestation>, id: Str) -> bool {
    &&& forall|i: int| 0 <= i < list.len() ==> (#[trigger] list[i]).artifact_id@ == id
    &&& forall|i: int, j: int|
        0 <= i < j < list.len() ==> (#[trigger] list[i]).attester@ != (#[trigger] list[j]).attester@
}

pub open spec fn sound_artifacts(m: Map<Str, Artifact>) -> bool {
    forall|k: Str| #[trigger] m.contains_key(k) ==> m[k].id@ == k
}

pub open spec fn sound_reproductions(m: Map<Str, Seq<Attestation>>) -> bool {
    forall|k: Str| #[trigger] m.contains_key(k) ==> verdicts_on(m[k], k)
}

pub open spec fn sound_scrolls(s: Seq<Scroll>) -> bool {
    forall|i: int, j: int| 0 <= i < j < s.len() ==> (#[trigger] s[i]).id@ != (#[trigger] s[j]).id@
}

/// Replies to `parent`, each once.
pub open spec fn replies_to(list: Seq<Reply>, parent: Str) -> bool {
    &&& forall|i: int| 0 <= i < list.len() ==> (#[trigger] list[i]).parent@ == parent
    &&& forall|i: int, j: int| 0 <= i < j < list.len() ==> (#[trigger] list[i]).id@ != (#[trigger] list[j]).id@
}

pub open spec fn sound_replies(m: Map<Str, Seq<Reply>>) -> bool {
    forall|k: Str| #[trigger] m.contains_key(k) ==> replies_to(m[k], k)
}

pub open spec fn votes_on(list: Seq<Vote>, target: Str) -> bool {
    forall|i: int| 0 <= i < list.len() ==> (#[trigger] list[i]).signed && list[i].target@ == target
}

pub open spec fn sound_votes(m: Map<Str, Seq<Vote>>) -> bool {
    forall|k: Str| #[trigger] m.contains_key(k) ==> votes_on(m[k], k)
}

pub open spec fn sound_handles(m: Map<Str, Handle>) -> bool {
    forall|k: Str| #[trigger] m.contains_key(k) ==> m[k].signed && m[k].key@ == k
}

pub open spec fn sound_profiles(m: Map<Str, AgentProfile>) -> bool {
    forall|k: Str| #[trigger] m.contains_key(k) ==> m[k].signed && m[k].agent@ == k
}

pub open spec fn sound_quests(m: Map<Str, Quest>) -> bool {
    forall|k: Str| #[trigger] m.contains_key(k) ==> m[k].signed && m[k].id@ == k
}

pub open spec fn claims_on(list: Seq<TaskClaim>, p: (Str, Str)) -> bool {
    forall|i: int|
        0 <= i < list.len() ==> (#[trigger] list[i]).signed && list[i].quest@ == p.0 && list[i].task@ == p.1
}

pub open spec fn sound_claims(m: Map<(Str, Str), Seq<TaskClaim>>) -> bool {
    forall|p: (Str, Str)| #[trigger] m.contains_key(p) ==> claims_on(m[p], p)
}

/// Results of a task, each once.
pub open spec fn results_on(list: Seq<TaskResult>, p: (Str, Str)) -> bool {
    &&& forall|i: int|
        0 <= i < list.len() ==> (#[trigger] list[i]).signed && list[i].quest@ == p.0 && list[i].task@ == p.1
    &&& forall|i: int, j: int| 0 <= i < j < list.len() ==> (#[trigger] list[i]).id@ != (#[trigger] list[j]).id@
}

pub open spec fn sound_results(m: Map<(Str, Str), Seq<TaskResult>>) -> bool {
    forall|p: (Str, Str)| #[trigger] m.contains_key(p) ==> results_on(m[p], p)
}

/// Every acceptance is the quest author's own.
pub open spec fn sound_accepts(m: Map<(Str, Str), TaskAccept>, quests: Map<Str, Quest>) -> bool {
    forall|p: (Str, Str)| #[trigger]
        m.contains_key(p) ==> m[p].signed && m[p].quest@ == p.0 && m[p].task@ == p.1 && quests.contains_key(p.0)
            && quests[p.0].author@ == m[p].author@
}

pub open spec fn signed_verdicts(list: Seq<Attestation>) -> bool {
    forall|i: int| 0 <= i < list.len() ==> (#[trigger] list[i]).signed
}

pub open spec fn sound_verifications(m: Map<Str, Seq<Attestation>>) -> bool {
    forall|k: Str| #[trigger] m.contains_key(k) ==> verdicts_on(m[k], k) && signed_verdicts(m[k])
}

pub open spec fn sound_boosts(s: Seq<Boost>) -> bool {
    &&& forall|i: int| 0 <= i < s.len() ==> (#[trigger] s[i]).signed
    &&& forall|i: int, j: int| 0 <= i < j < s.len() ==> (#[trigger] s[i]).sig@ != (#[trigger] s[j]).sig@
}

pub open spec fn sound_closed(m: Map<Str, i64>, quests: Map<Str, Quest>) -> bool {
    forall|k: Str| #[trigger] m.contains_key(k) ==> quests.contains_key(k)
}

pub open spec fn sound_horde_tasks(m: Map<Str, HordeTask>) -> bool {
    forall|k: Str| #[trigger] m.contains_key(k) ==> m[k].signed && m[k].id@ == k
}

pub open spec fn horde_claims_on(list: Seq<HordeClaim>, task: Str) -> bool {
    &&& forall|i: int| 0 <= i < list.len() ==> (#[trigger] list[i]).signed && list[i].task@ == task
    &&& forall|i: int, j: int| 0 <= i < j < list.len() ==> (#[trigger] list[i]).id@ != (#[trigger] list[j]).id@
}

pub open spec fn sound_horde_claims(m: Map<Str, Seq<HordeClaim>>, tasks: Map<Str, HordeTask>) -> bool {
    forall|k: Str| #[trigger] m.contains_key(k) ==> horde_claims_on(m[k], k) && tasks.contains_key(k)
}

pub open spec fn horde_results_on(list: Seq<HordeResult>, task: Str) -> bool {
    &&& forall|i: int| 0 <= i < list.len() ==> (#[trigger] list[i]).signed && list[i].task@ == task
    &&& forall|i: int, j: int| 0 <= i < j < list.len() ==> (#[trigger] list[i]).id@ != (#[trigger] list[j]).id@
}

pub open spec fn sound_horde_results(m: Map<Str, Seq<HordeResult>>, tasks: Map<Str, HordeTask>) -> bool {
    forall|k: Str| #[trigger] m.contains_key(k) ==> horde_results_on(m[k], k) && tasks.contains_key(k)
}

/// What every catalog is: records stand under their own keys, none stands twice, no
/// attester is counted twice, everything that money or standing hangs on is signed, and
/// only authors accept.
pub open spec fn sound(c: CatalogModel) -> bool {
    &&& sound_artifacts(c.artifacts)
    &&& sound_reproductions(c.reproductions)
    &&& sound_scrolls(c.scrolls)
    &&& sound_replies(c.replies)
    &&& sound_votes(c.votes)
    &&& sound_handles(c.handles)
    &&& sound_profiles(c.profiles)
    &&& sound_quests(c.quests)
    &&& sound_claims(c.claims)
    &&& sound_results(c.results)
    &&& sound_accepts(c.accepts, c.quests)
    &&& sound_verifications(c.verifications)
    &&& sound_boosts(c.boosts)
    &&& sound_closed(c.closed, c.quests)
    &&& sound_horde_tasks(c.horde_tasks)
    &&& sound_horde_claims(c.horde_claims, c.horde_tasks)
    &&& sound_horde_results(c.horde_results, c.horde_tasks)
}

/// The catalog of an empty ledger is sound.
pub proof fn law_empty_catalog_is_sound()
    ensures
        sound(empty_catalog()),
{
}

/// Every entry keeps the catalog sound, whatever it holds.
pub proof fn law_step_keeps_sound(c: CatalogModel, reg: Registry, kind: Str, body: Str, record: Record)
    requires
        sound(c),
    ensures
        sound(c.step(reg, kind, body, record)),
{
    let d = c.step(reg, kind, body, record);
    match (kind_named(kind), record) {
        (Some(Kind::Reproduction), Record::Attestation(a)) => {
            let list = list_at(c.reproductions, a.artifact_id@);
            assert(verdicts_on(list, a.artifact_id@));
            if !has_attester(list, a.attester@) {
                assert(verdicts_on(list.push(a), a.artifact_id@));
            }
        },
        (Some(Kind::Reply), Record::Reply(r)) => {
            let list = list_at(c.replies, r.parent@);
            assert(replies_to(list, r.parent@));
            if !has_reply(list, r.id@) {
                assert(replies_to(list.push(r), r.parent@));
            }
        },
        (Some(Kind::Vote), Record::Vote(v)) => {
            let list = list_at(c.votes, v.target@);
            assert(votes_on(list, v.target@));
            if v.signed {
                assert(votes_on(list.push(v), v.target@));
            }
        },
        (Some(Kind::Claim), Record::Claim(x)) => {
            let p = (x.quest@, x.task@);
            let list = list_at(c.claims, p);
            assert(claims_on(list, p));
            if x.signed {
                assert(claims_on(list.push(x), p));
            }
        },
        (Some(Kind::Result), Record::Result(r)) => {
            let p = (r.quest@, r.task@);
            let list = list_at(c.results, p);
            assert(results_on(list, p));
            if r.signed && !has_result(list, r.id@) {
                assert(results_on(list.push(r), p));
            }
        },
        (Some(Kind::Verify), Record::Attestation(a)) => {
            let list = list_at(c.verifications, a.artifact_id@);
            assert(verdicts_on(list, a.artifact_id@) && signed_verdicts(list));
            if a.signed && !has_attester(list, a.attester@) {
                assert(verdicts_on(list.push(a), a.artifact_id@));
                assert(signed_verdicts(list.push(a)));
            }
        },
        (Some(Kind::HordeClaim), Record::HordeClaim(x)) => {
            let list = list_at(c.horde_claims, x.task@);
            assert(horde_claims_on(list, x.task@));
            if x.signed && !has_horde_claim(list, x.id@) {
                assert(horde_claims_on(list.push(x), x.task@));
            }
        },
        (Some(Kind::HordeResult), Record::HordeResult(x)) => {
            let list = list_at(c.horde_results, x.task@);
            assert(horde_results_on(list, x.task@));
            if x.signed && !has_horde_result(list, x.id@) {
                assert(horde_results_on(list.push(x), x.task@));
            }
        },
        (Some(Kind::Quest), Record::Quest(q)) => {
            assert(sound_accepts(d.accepts, d.quests));
        },
        _ => {},
    }
}

/// Whatever is replayed, the catalog is sound.
pub proof fn law_replay_is_sound(c: CatalogModel, reg: Registry, rows: Seq<Row>)
    requires
        sound(c),
    ensures
        sound(replay(c, reg, rows)),
    decreases rows.len(),
{
    if rows.len() > 0 {
        law_replay_is_sound(c, reg, rows.drop_last());
        let row = rows.last();
        law_step_keeps_sound(
            replay(c, reg, rows.drop_last()),
            reg,
            row.entry.kind@,
            row.entry.body@,
            row.record,
        );
    }
}

/// A posted quest stays as it was posted: no later entry changes or removes it.
pub proof fn law_quests_stay(c: CatalogModel, reg: Registry, kind: Str, body: Str, record: Record, id: Str)
    requires
        c.quests.contains_key(id),
    ensures
        c.step(reg, kind, body, record).quests.contains_key(id),
        c.step(reg, kind, body, record).quests[id] == c.quests[id],
{
}

/// The first owner of a name keeps it: no later entry hands it to another.
pub proof fn law_first_owner_keeps_the_name(c: CatalogModel, reg: Registry, kind: Str, body: Str, record: Record, key: Str)
    requires
        c.handles.contains_key(key),
    ensures
        c.step(reg, kind, body, record).handles.contains_key(key),
        c.step(reg, kind, body, record).handles[key].owner@ == c.handles[key].owner@,
{
}

/// A claim to a name that another holds changes nothing.
pub proof fn law_taken_name_is_not_seized(c: CatalogModel, h: Handle)
    requires
        c.name_taken(h.key@, h.owner@),
    ensures
        c.with_handle(h) == c,
{
}

/// A closed quest stays closed, and its close never moves to a later time.
pub proof fn law_earliest_close_stands(c: CatalogModel, reg: Registry, kind: Str, body: Str, record: Record, quest: Str)
    requires
        c.closed.contains_key(quest),
    ensures
        c.step(reg, kind, body, record).closed.contains_key(quest),
        c.step(reg, kind, body, record).closed[quest] <= c.closed[quest],
{
}

/// Only an agent of the author's account closes a quest.
pub proof fn law_stranger_cannot_close(c: CatalogModel, reg: Registry, x: QuestClose)
    requires
        c.quests.contains_key(x.quest@) ==> reg.unit_of(c.quests[x.quest@].author@) != reg.unit_of(x.author@),
    ensures
        c.with_close(reg, x) == c,
{
}

/// A thread only grows.
pub proof fn law_threads_only_grow(c: CatalogModel, reg: Registry, kind: Str, body: Str, record: Record, id: Str)
    ensures
        list_at(c.replies, id).is_prefix_of(list_at(c.step(reg, kind, body, record).replies, id)),
{
    let before = list_at(c.replies, id);
    let after = list_at(c.step(reg, kind, body, record).replies, id);
    match (kind_named(kind), record) {
        (Some(Kind::Reply), Record::Reply(r)) => {
            if r.parent@ == id && !has_reply(before, r.id@) {
                assert(after == before.push(r));
            } else {
                assert(after == before);
            }
        },
        _ => {
            assert(after == before);
        },
    }
}

/// An entry of no known kind changes nothing.
pub proof fn law_unknown_kinds_are_ignored(c: CatalogModel, reg: Registry, kind: Str, body: Str, record: Record)
    requires
        kind_named(kind) is None,
    ensures
        c.step(reg, kind, body, record) == c,
{
}

/// A record that comes again counts once: verdicts, scrolls, replies, heartbeats, quests,
/// results, boosts, acceptances, closes and names.
pub proof fn law_repeats_count_once(
    c: CatalogModel,
    reg: Registry,
    a: Attestation,
    s: Scroll,
    y: Reply,
    p: AgentProfile,
    q: Quest,
    r: TaskResult,
    b: Boost,
    x: TaskAccept,
    z: QuestClose,
    h: Handle,
)
    ensures
        c.with_reproduction(a).with_reproduction(a) == c.with_reproduction(a),
        c.with_verification(a).with_verification(a) == c.with_verification(a),
        c.with_scroll(s).with_scroll(s) == c.with_scroll(s),
        c.with_reply(y).with_reply(y) == c.with_reply(y),
        c.with_profile(p).with_profile(p) == c.with_profile(p),
        c.with_quest(q).with_quest(q) == c.with_quest(q),
        c.with_result(r).with_result(r) == c.with_result(r),
        c.with_boost(b).with_boost(b) == c.with_boost(b),
        c.with_accept(x).with_accept(x) == c.with_accept(x),
        c.with_close(reg, z).with_close(reg, z) == c.with_close(reg, z),
        c.with_handle(h).with_handle(h) == c.with_handle(h),
{
    let list = list_at(c.reproductions, a.artifact_id@);
    if !has_attester(list, a.attester@) {
        let after = list_at(c.with_reproduction(a).reproductions, a.artifact_id@);
        assert(after[list.len() as int].attester@ == a.attester@);
    }
    let list = list_at(c.verifications, a.artifact_id@);
    if a.signed && !has_attester(list, a.attester@) {
        let after = list_at(c.with_verification(a).verifications, a.artifact_id@);
        assert(after[list.len() as int].attester@ == a.attester@);
    }
    if !has_scroll(c.scrolls, s.id@) {
        assert(c.with_scroll(s).scrolls[c.scrolls.len() as int].id@ == s.id@);
    }
    let list = list_at(c.replies, y.parent@);
    if !has_reply(list, y.id@) {
        assert(list_at(c.with_reply(y).replies, y.parent@)[list.len() as int].id@ == y.id@);
    }
    assert(c.with_profile(p).with_profile(p) =~= c.with_profile(p));
    let key = (r.quest@, r.task@);
    let list = list_at(c.results, key);
    if r.signed && !has_result(list, r.id@) {
        assert(list_at(c.with_result(r).results, key)[list.len() as int].id@ == r.id@);
    }
    assert(c.with_result(r).with_result(r) =~= c.with_result(r));
    if b.signed && !has_boost(c.boosts, b.sig@) {
        assert(c.with_boost(b).boosts[c.boosts.len() as int].sig@ == b.sig@);
    }
    assert(c.with_accept(x).with_accept(x) =~= c.with_accept(x));
    assert(c.with_close(reg, z).with_close(reg, z) =~= c.with_close(reg, z));
    assert(c.with_handle(h).with_handle(h) =~= c.with_handle(h));
}

/// A record of a private board that comes again counts once.
pub proof fn law_private_repeats_count_once(
    c: CatalogModel,
    reg: Registry,
    t: HordeTask,
    x: HordeClaim,
    r: HordeResult,
)
    ensures
        c.with_horde_task(t).with_horde_task(t) == c.with_horde_task(t),
        c.with_horde_claim(reg, x).with_horde_claim(reg, x) == c.with_horde_claim(reg, x),
        c.with_horde_result(reg, r).with_horde_result(reg, r) == c.with_horde_result(reg, r),
{
    let list = list_at(c.horde_claims, x.task@);
    if c.with_horde_claim(reg, x) != c {
        assert(list_at(c.with_horde_claim(reg, x).horde_claims, x.task@)[list.len() as int].id@ == x.id@);
    }
    let list = list_at(c.horde_results, r.task@);
    if c.with_horde_result(reg, r) != c {
        assert(list_at(c.with_horde_result(reg, r).horde_results, r.task@)[list.len() as int].id@ == r.id@);
    }
}

/// What the ledger adds up to depends on the accounts only through the private board and
/// through closing: all other entries give the same catalog under any accounts.
pub proof fn law_accounts_matter_to_few_kinds(
    c: CatalogModel,
    reg1: Registry,
    reg2: Registry,
    kind: Str,
    body: Str,
    record: Record,
)
    requires
        kind_named(kind) != Some(Kind::HordeClaim),
        kind_named(kind) != Some(Kind::HordeResult),
        kind_named(kind) != Some(Kind::Close),
    ensures
        c.step(reg1, kind, body, record) == c.step(reg2, kind, body, record),
{
}

/// A stranger's claim on, or answer to, an account's own work is not even kept.
pub proof fn law_private_board_is_closed_to_strangers(c: CatalogModel, reg: Registry, x: HordeClaim, r: HordeResult)
    ensures
        !c.horde_member(reg, x.task@, x.worker@) ==> c.with_horde_claim(reg, x) == c,
        !c.horde_member(reg, r.task@, r.worker@) ==> c.with_horde_result(reg, r) == c,
{
}

/// A published artifact is in the catalog, and its author is credited with it.
pub proof fn law_publishing_is_credited(c: CatalogModel, a: Artifact)
    ensures
        c.with_artifact(a).artifacts.contains_key(a.id@),
        c.with_artifact(a).artifacts[a.id@] == a,
        c.with_artifact(a).peers.contains_key(a.author@),
        c.with_artifact(a).peers[a.author@].reputation == credited(
            peer_or_new(c.peers, a.author@).reputation,
            Credit::Published,
        ),
{
}

/// The author of an artifact is credited for each attester that reproduces it, once.
pub proof fn law_reproduction_credits_the_author(c: CatalogModel, a: Attestation)
    requires
        c.artifacts.contains_key(a.artifact_id@),
    ensures
        ({
            let author = c.artifacts[a.artifact_id@].author@;
            let fresh = !has_attester(list_at(c.reproductions, a.artifact_id@), a.attester@);
            &&& a.reproduced && fresh ==> c.with_reproduction(a).peers[author].reputation == credited(
                peer_or_new(c.peers, author).reputation,
                Credit::Adopted,
            )
            &&& !a.reproduced || !fresh ==> c.with_reproduction(a).peers == c.peers
        }),
{
}

} // verus!
