//! Laws that tie what is let in to what is kept.

use crate::admission::{granted, Gate, Seal};
use crate::catalog::{has_attester, has_boost, has_horde_claim, has_horde_result, has_reply, has_result, has_scroll};
use crate::codex::{in_feed, shown, FeedQuery, FEED_DEFAULT, FEED_MAX};
use crate::directory::DirectoryModel;
use crate::events::{has_id, scroll_at};
use crate::ordmap::list_at;
use crate::records::{
    AgentProfile, Attestation, Boost, Handle, HordeClaim, HordeResult, Quest, QuestClose, Reply, Scroll, Str, TaskAccept,
    TaskClaim, TaskResult, Vote,
};
use crate::seqs::lemma_first_match_at;
use vstd::prelude::*;

verus! {

/// A name that is let in is its owner's from then on.
pub proof fn law_admitted_name_is_held(d: DirectoryModel, h: Handle)
    requires
        d.judge_handle(h) == granted(),
    ensures
        d.catalog.with_handle(h).name_of.contains_key(h.owner@),
        d.catalog.with_handle(h).name_of[h.owner@] == h.name@,
        d.catalog.with_handle(h).handles.contains_key(h.key@),
        d.catalog.with_handle(h).handles[h.key@] == h,
        forall|other: Str| other != h.owner@ ==> #[trigger] d.catalog.with_handle(h).name_taken(h.key@, other),
{
}

/// A claim, a result, a verdict, an acceptance and a close that are let in are kept.
pub proof fn law_admitted_work_is_kept(
    d: DirectoryModel,
    c: TaskClaim,
    r: TaskResult,
    v: Attestation,
    a: TaskAccept,
    x: QuestClose,
    now: i64,
)
    ensures
        d.judge_claim(c, now) == granted() ==> list_at(d.catalog.with_claim(c).claims, (c.quest@, c.task@)).last() == c,
        d.judge_result(r) == granted() ==> {
            &&& has_result(list_at(d.catalog.with_result(r).results, (r.quest@, r.task@)), r.id@)
            &&& d.catalog.with_result(r).result_loc[r.id@] == (r.quest@, r.task@)
        },
        d.judge_verify(v) == granted() ==> has_attester(
            list_at(d.catalog.with_verification(v).verifications, v.artifact_id@),
            v.attester@,
        ),
        d.judge_accept(a) == granted() ==> d.catalog.with_accept(a).accepts[(a.quest@, a.task@)] == a,
        d.judge_close(x) == granted() ==> d.catalog.with_close(d.accounts, x).closed.contains_key(x.quest@),
{
    let rs = list_at(d.catalog.results, (r.quest@, r.task@));
    if r.signed && !has_result(rs, r.id@) {
        let after = list_at(d.catalog.with_result(r).results, (r.quest@, r.task@));
        assert(after[rs.len() as int].id@ == r.id@);
    }
    let vs = list_at(d.catalog.verifications, v.artifact_id@);
    if v.signed && !has_attester(vs, v.attester@) {
        let after = list_at(d.catalog.with_verification(v).verifications, v.artifact_id@);
        assert(after[vs.len() as int].attester@ == v.attester@);
    }
}

/// A quest, a boost and a heartbeat that are let in are kept, the quest unless one of its
/// id is there.
pub proof fn law_admitted_records_are_kept(d: DirectoryModel, q: Quest, b: Boost, p: AgentProfile, now: i64)
    ensures
        d.judge_quest(q, now) == granted() ==> d.catalog.with_quest(q).quests.contains_key(q.id@),
        d.judge_quest(q, now) == granted() && !d.catalog.quests.contains_key(q.id@) ==> d.catalog.with_quest(q).quests[q.id@] == q,
        d.judge_boost(b, now) == granted() ==> has_boost(d.catalog.with_boost(b).boosts, b.sig@),
        d.judge(p.signed, p.agent@, Seal::Profile, Gate::Profile) == granted() ==> d.catalog.with_profile(p).profiles[p.agent@]
            == p,
{
    if b.signed && !has_boost(d.catalog.boosts, b.sig@) {
        assert(d.catalog.with_boost(b).boosts[d.catalog.boosts.len() as int].sig@ == b.sig@);
    }
}

/// An agent of the account that is let in finds its claim and its answer kept.
pub proof fn law_admitted_horde_work_is_kept(d: DirectoryModel, c: HordeClaim, r: HordeResult, now: i64)
    ensures
        d.judge_horde_claim(c, now) == granted() ==> has_horde_claim(
            list_at(d.catalog.with_horde_claim(d.accounts, c).horde_claims, c.task@),
            c.id@,
        ),
        d.judge_horde_result(r) == granted() ==> has_horde_result(
            list_at(d.catalog.with_horde_result(d.accounts, r).horde_results, r.task@),
            r.id@,
        ),
{
    let cs = list_at(d.catalog.horde_claims, c.task@);
    if d.judge_horde_claim(c, now) == granted() && !has_horde_claim(cs, c.id@) {
        let after = list_at(d.catalog.with_horde_claim(d.accounts, c).horde_claims, c.task@);
        assert(after[cs.len() as int].id@ == c.id@);
    }
    let rs = list_at(d.catalog.horde_results, r.task@);
    if d.judge_horde_result(r) == granted() && !has_horde_result(rs, r.id@) {
        let after = list_at(d.catalog.with_horde_result(d.accounts, r).horde_results, r.task@);
        assert(after[rs.len() as int].id@ == r.id@);
    }
}

/// A new scroll can be fetched, and leads the feed of whoever asks for such scrolls.
pub proof fn law_new_scroll_leads_the_feed(d: DirectoryModel, s: Scroll, q: FeedQuery)
    requires
        !has_scroll(d.catalog.scrolls, s.id@),
        in_feed(s, q),
        shown(q.limit, FEED_DEFAULT, FEED_MAX) > 0,
    ensures
        ({
            let after = DirectoryModel { catalog: d.catalog.with_scroll(s), ..d };
            &&& scroll_at(after.catalog.scrolls, s.id@) == Some(d.catalog.scrolls.len() as int)
            &&& after.catalog.scrolls.last() == s
            &&& after.feed(q).len() > 0
            &&& after.feed(q)[0] == s
        }),
{
    let after = DirectoryModel { catalog: d.catalog.with_scroll(s), ..d };
    let all = after.catalog.scrolls;
    let n = d.catalog.scrolls.len() as int;
    assert forall|j: int| 0 <= j < n implies !has_id(s.id@)(#[trigger] all[j]) by {
        assert(all[j] == d.catalog.scrolls[j]);
    }
    lemma_first_match_at(all, has_id(s.id@), n);
    let rev = all.reverse();
    let p = |x: Scroll| in_feed(x, q);
    assert(rev[0] == s);
    lemma_first_kept(rev, p);
}

proof fn lemma_first_kept<T>(s: Seq<T>, p: spec_fn(T) -> bool)
    requires
        s.len() > 0,
        p(s[0]),
    ensures
        s.filter(p).len() > 0,
        s.filter(p)[0] == s[0],
    decreases s.len(),
{
    reveal(Seq::filter);
    if s.len() > 1 {
        lemma_first_kept(s.drop_last(), p);
    } else {
        assert(s.drop_last().filter(p) =~= Seq::<T>::empty());
    }
}

/// A new reply ends its thread.
pub proof fn law_new_reply_ends_the_thread(d: DirectoryModel, r: Reply)
    requires
        !has_reply(d.thread(r.parent@), r.id@),
    ensures
        ({
            let after = DirectoryModel { catalog: d.catalog.with_reply(r), ..d };
            after.thread(r.parent@) == d.thread(r.parent@).push(r)
        }),
{
}

/// A signed vote that is later than what its unit cast before is the one that stands, and
/// leaves the other units' votes as they were.
pub proof fn law_later_vote_replaces(d: DirectoryModel, v: Vote, other: Str)
    requires
        v.signed,
        d.standing_votes(v.target@).contains_key(d.unit(v.voter@)) ==> crate::votes::later_vote(
            v,
            d.standing_votes(v.target@)[d.unit(v.voter@)],
        ),
        other != d.unit(v.voter@),
    ensures
        ({
            let after = DirectoryModel { catalog: d.catalog.with_vote(v), ..d };
            &&& after.standing_votes(v.target@).contains_key(d.unit(v.voter@))
            &&& after.standing_votes(v.target@)[d.unit(v.voter@)] == v
            &&& after.standing_votes(v.target@).contains_key(other) == d.standing_votes(v.target@).contains_key(other)
            &&& d.standing_votes(v.target@).contains_key(other) ==> after.standing_votes(v.target@)[other]
                == d.standing_votes(v.target@)[other]
        }),
{
    let after = DirectoryModel { catalog: d.catalog.with_vote(v), ..d };
    let before = list_at(d.catalog.votes, v.target@);
    assert(list_at(after.catalog.votes, v.target@) == before.push(v));
    assert(before.push(v).drop_last() =~= before);
}

} // verus!
