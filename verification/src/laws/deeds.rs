//! Laws of deeds: who is credited for what, on whose word.

use crate::credits::task_ids;
use crate::deeds::{last_under, thread_writings, vote_deed, Deed, RepEventModel};
use crate::directory::DirectoryModel;
use crate::laws::credits::{lemma_sum_ext, sum};
use crate::laws::lists::{lemma_concat_contains, lemma_concat_len, lemma_keys_distinct};
use crate::laws::quests::law_settlement_is_independent;
use crate::laws::tally::{law_one_vote_stands, stands_for};
use crate::laws::votes::lemma_latest_votes_finite;
use crate::ordmap::{list_at, sorted_keys};
use crate::records::{Quest, Scroll, Str};
use crate::seqs::concat_map;
use crate::text::texts;
use crate::signers::{among, among_lists, among_values, listed_under, stands_under};
use vstd::prelude::*;

verus! {

// ---- tasks ----

/// A settled task credits its solver and nobody else: on the word of the quest's author where
/// the author accepted, else on the word of each account that vouched, once each. It is
/// never the solver's own word. A task that is not settled credits nobody.
pub proof fn law_solvers_are_credited(d: DirectoryModel, q: Quest, task: Str)
    ensures
        d.settlement(q.id@, task) is None ==> d.task_deeds(q, task).len() == 0,
        d.settlement(q.id@, task) matches Some((solver, vs)) ==> {
            &&& d.task_deeds(q, task).len() == if vs.len() == 0 {
                1
            } else {
                vs.len()
            }
            &&& forall|i: int|
                0 <= i < d.task_deeds(q, task).len() ==> {
                    let e = #[trigger] d.task_deeds(q, task)[i];
                    &&& e.deed == Deed::Reproduced
                    &&& e.subject == solver
                    &&& e.actor == if vs.len() == 0 {
                        d.accounts.unit_of(q.author@)
                    } else {
                        vs[i]
                    }
                    &&& e.ts == q.created_ts
                }
        },
{
}

/// No deed of a quest credits the account that posted it, and none is done by the account
/// that it credits.
pub proof fn law_posters_gain_no_standing(d: DirectoryModel, k: Str, task: Str, i: int)
    requires
        d.catalog.quests.contains_key(k),
        d.catalog.quests[k].id@ == k,
        0 <= i < d.task_deeds(d.catalog.quests[k], task).len(),
    ensures
        d.task_deeds(d.catalog.quests[k], task)[i].subject != d.accounts.unit_of(d.catalog.quests[k].author@),
        d.task_deeds(d.catalog.quests[k], task)[i].actor != d.task_deeds(d.catalog.quests[k], task)[i].subject,
{
    law_solvers_are_credited(d, d.catalog.quests[k], task);
    law_settlement_is_independent(d, k, task);
    let (solver, vs) = d.settlement(k, task)->Some_0;
    if vs.len() > 0 {
        assert(vs.contains(vs[i]));
    }
}

// ---- what the deeds are ----

/// The deed is a verdict on a known artifact: for its author where it was reproduced, against
/// where it was not.
pub open spec fn verdict_deed(d: DirectoryModel, id: Str, i: int, e: RepEventModel) -> bool {
    let list = d.catalog.reproductions[id];
    &&& d.catalog.reproductions.contains_key(id)
    &&& d.catalog.artifacts.contains_key(id)
    &&& 0 <= i < list.len()
    &&& e.deed == (if list[i].reproduced { Deed::Reproduced } else { Deed::ReproductionFailed })
    &&& e.subject == d.accounts.unit_of(d.catalog.artifacts[id].author@)
    &&& e.actor == d.accounts.unit_of(list[i].attester@)
    &&& e.ts == list[i].created_ts
}

/// The deed is a scroll's reference to a known artifact: it credits the artifact's author, on
/// the word of the scroll's.
pub open spec fn citation_deed(d: DirectoryModel, i: int, j: int, e: RepEventModel) -> bool {
    let s = d.catalog.scrolls[i];
    &&& 0 <= i < d.catalog.scrolls.len()
    &&& 0 <= j < s.refs@.len()
    &&& d.catalog.artifacts.contains_key(s.refs@[j]@)
    &&& e.deed == Deed::Cited
    &&& e.subject == d.accounts.unit_of(d.catalog.artifacts[s.refs@[j]@].author@)
    &&& e.actor == d.accounts.unit_of(s.author@)
    &&& e.ts == s.created_ts
}

/// The deed is a standing vote on what `writer` wrote: up for them, down against.
pub open spec fn ballot_deed(d: DirectoryModel, target: Str, i: int, writer: Str, e: RepEventModel) -> bool {
    let v = list_at(d.catalog.votes, target)[i];
    &&& stands_for(d.accounts, list_at(d.catalog.votes, target), i, d.accounts.unit_of(v.voter@))
    &&& (v.value == 1 && e.deed == Deed::Upvote) || (v.value == -1 && e.deed == Deed::Downvote)
    &&& e.subject == d.accounts.unit_of(writer)
    &&& e.actor == d.accounts.unit_of(v.voter@)
    &&& e.ts == v.created_ts
}

proof fn lemma_reproduction_deeds(d: DirectoryModel, id: Str, e: RepEventModel)
    requires
        d.catalog.reproductions.contains_key(id),
    ensures
        d.reproduction_deeds(id).contains(e) <==> exists|i: int| verdict_deed(d, id, i, e),
{
    let all = d.reproduction_deeds(id);
    if all.contains(e) {
        let i = choose|i: int| 0 <= i < all.len() && all[i] == e;
        assert(verdict_deed(d, id, i, e));
    }
    if exists|i: int| verdict_deed(d, id, i, e) {
        let i = choose|i: int| verdict_deed(d, id, i, e);
        assert(all[i] == e);
    }
}

/// The verdicts on a known artifact are deeds for or against its author, one for each
/// attester, and those on an unknown one are none.
pub proof fn law_verdicts_count_for_the_author(d: DirectoryModel, id: Str, e: RepEventModel)
    requires
        d.catalog.reproductions.contains_key(id),
    ensures
        d.reproduction_deeds(id).contains(e) <==> exists|i: int| verdict_deed(d, id, i, e),
        d.reproduction_deeds(id).len() == if d.catalog.artifacts.contains_key(id) {
            d.catalog.reproductions[id].len()
        } else {
            0
        },
{
    lemma_reproduction_deeds(d, id, e);
}

/// A scroll credits the author of each artifact it refers to, once for each reference.
pub proof fn law_citations_credit_the_author(d: DirectoryModel, i: int, e: RepEventModel)
    requires
        0 <= i < d.catalog.scrolls.len(),
    ensures
        d.citations(d.catalog.scrolls[i]).contains(e) <==> exists|j: int| citation_deed(d, i, j, e),
        d.citations(d.catalog.scrolls[i]).len() == sum(
            texts(d.catalog.scrolls[i].refs@),
            |id: Str|
                if d.catalog.artifacts.contains_key(id) {
                    1int
                } else {
                    0
                },
        ),
{
    let s = d.catalog.scrolls[i];
    let ids = texts(s.refs@);
    let f = |id: Str| d.citation(s, id);
    lemma_concat_contains(ids, f, e);
    lemma_concat_len(ids, f);
    let a = |id: Str| f(id).len() as int;
    let b = |id: Str| if d.catalog.artifacts.contains_key(id) { 1int } else { 0 };
    lemma_sum_ext(ids, a, b);
    assert forall|j: int| 0 <= j < ids.len() implies f(#[trigger] ids[j]).contains(e) == citation_deed(d, i, j, e) by {
        assert(ids[j] == s.refs@[j]@);
        if citation_deed(d, i, j, e) {
            assert(f(ids[j])[0] == e);
        }
    }
    if exists|j: int| citation_deed(d, i, j, e) {
        let j = choose|j: int| citation_deed(d, i, j, e);
        assert(f(ids[j]).contains(e));
    }
    if exists|j: int| 0 <= j < ids.len() && f(#[trigger] ids[j]).contains(e) {
        let j = choose|j: int| 0 <= j < ids.len() && f(#[trigger] ids[j]).contains(e);
        assert(citation_deed(d, i, j, e));
    }
}

/// The standing votes on what somebody wrote are deeds for or against the writer, one of each
/// unit that votes up or down; those on what nobody wrote are none.
pub proof fn law_votes_count_for_the_writer(d: DirectoryModel, target: Str, e: RepEventModel)
    ensures
        match last_under(d.writings(), target) {
            Some(writer) => d.vote_deeds(target).contains(e) <==> exists|i: int| ballot_deed(d, target, i, writer, e),
            None => d.vote_deeds(target).len() == 0,
        },
{
    if let Some(writer) = last_under(d.writings(), target) {
        let votes = list_at(d.catalog.votes, target);
        let latest = d.standing_votes(target);
        let keys = sorted_keys(latest.dom());
        lemma_latest_votes_finite(d.accounts, votes);
        lemma_keys_distinct(latest.dom());
        let f = |u: Str| vote_deed(d.unit(writer), u, latest[u]);
        lemma_concat_contains(keys, f, e);
        if d.vote_deeds(target).contains(e) {
            let k = choose|k: int| 0 <= k < keys.len() && f(#[trigger] keys[k]).contains(e);
            let u = keys[k];
            assert(keys.contains(u));
            assert(latest.contains_key(u));
            law_one_vote_stands(d.accounts, votes, u);
            let i = choose|i: int| stands_for(d.accounts, votes, i, u) && latest[u] == #[trigger] votes[i];
            let one = f(u);
            let x = choose|x: int| 0 <= x < one.len() && one[x] == e;
            assert(ballot_deed(d, target, i, writer, e));
        }
        if exists|i: int| ballot_deed(d, target, i, writer, e) {
            let i = choose|i: int| ballot_deed(d, target, i, writer, e);
            let u = d.accounts.unit_of(votes[i].voter@);
            law_one_vote_stands(d.accounts, votes, u);
            assert(votes[i].signed);
            let w = choose|w: int| stands_for(d.accounts, votes, w, u) && latest[u] == #[trigger] votes[w];
            assert(w == i);
            assert(latest.dom().contains(u));
            assert(keys.contains(u));
            let k = choose|k: int| 0 <= k < keys.len() && keys[k] == u;
            assert(f(keys[k])[0] == e);
            assert(f(keys[k]).contains(e));
        }
    }
}

proof fn lemma_last_under(pairs: Seq<(Str, Str)>, k: Str)
    ensures
        match last_under(pairs, k) {
            Some(v) => exists|i: int|
                0 <= i < pairs.len() && #[trigger] pairs[i] == (k, v) && forall|j: int|
                    i < j < pairs.len() ==> (#[trigger] pairs[j]).0 != k,
            None => forall|i: int| 0 <= i < pairs.len() ==> (#[trigger] pairs[i]).0 != k,
        },
    decreases pairs.len(),
{
    if pairs.len() > 0 {
        let t = pairs.drop_last();
        let n = pairs.len() - 1;
        lemma_last_under(t, k);
        assert forall|i: int| 0 <= i < n implies #[trigger] pairs[i] == t[i] by {}
        if pairs.last().0 == k {
            assert(pairs[n] == (k, pairs.last().1));
        } else {
            match last_under(t, k) {
                Some(v) => {
                    let i = choose|i: int|
                        0 <= i < t.len() && #[trigger] t[i] == (k, v) && forall|j: int|
                            i < j < t.len() ==> (#[trigger] t[j]).0 != k;
                    assert(pairs[i] == (k, v));
                    assert forall|j: int| i < j < pairs.len() implies (#[trigger] pairs[j]).0 != k by {
                        if j < n {
                            assert(t[j].0 != k);
                        }
                    }
                },
                None => {},
            }
        }
    }
}

/// Somebody wrote `target`: a scroll with that id by `writer`.
pub open spec fn wrote_scroll(d: DirectoryModel, target: Str, writer: Str, i: int) -> bool {
    0 <= i < d.catalog.scrolls.len() && d.catalog.scrolls[i].id@ == target && d.catalog.scrolls[i].author@ == writer
}

/// Somebody wrote `target`: a reply with that id by `writer`.
pub open spec fn wrote_reply(d: DirectoryModel, target: Str, writer: Str, parent: Str, i: int) -> bool {
    let list = d.catalog.replies[parent];
    d.catalog.replies.contains_key(parent) && 0 <= i < list.len() && list[i].id@ == target && list[i].author@ == writer
}

/// What can be voted on for somebody's standing is what is a scroll or a reply; and the votes
/// count for its writer, which nobody else can be where no other scroll or reply has its id.
pub proof fn law_writers_of_what_is_voted_on(d: DirectoryModel, target: Str)
    requires
        d.catalog.replies.dom().finite(),
    ensures
        match last_under(d.writings(), target) {
            Some(writer) => (exists|i: int| wrote_scroll(d, target, writer, i)) || (exists|p: Str, i: int|
                wrote_reply(d, target, writer, p, i)),
            None => (forall|writer: Str, i: int| !wrote_scroll(d, target, writer, i)) && (forall|writer: Str, p: Str, i: int|
                !wrote_reply(d, target, writer, p, i)),
        },
{
    let own = d.catalog.scrolls.map_values(|s: Scroll| (s.id@, s.author@));
    let keys = sorted_keys(d.catalog.replies.dom());
    lemma_keys_distinct(d.catalog.replies.dom());
    let f = |p: Str| thread_writings(d.catalog.replies[p]);
    let run = concat_map(keys, f);
    let all = d.writings();
    assert(all == own + run);
    lemma_last_under(all, target);
    match last_under(all, target) {
        Some(writer) => {
            let x = choose|x: int|
                0 <= x < all.len() && #[trigger] all[x] == (target, writer) && forall|j: int|
                    x < j < all.len() ==> (#[trigger] all[j]).0 != target;
            if x < own.len() {
                assert(own[x] == (target, writer));
                assert(wrote_scroll(d, target, writer, x));
            } else {
                assert(run[x - own.len()] == (target, writer));
                assert(run.contains((target, writer)));
                lemma_concat_contains(keys, f, (target, writer));
                let k = choose|k: int| 0 <= k < keys.len() && f(#[trigger] keys[k]).contains((target, writer));
                assert(keys.contains(keys[k]));
                let w = f(keys[k]);
                let i = choose|i: int| 0 <= i < w.len() && w[i] == (target, writer);
                assert(wrote_reply(d, target, writer, keys[k], i));
            }
        },
        None => {
            assert forall|writer: Str, i: int| !wrote_scroll(d, target, writer, i) by {
                if wrote_scroll(d, target, writer, i) {
                    assert(all[i] == own[i]);
                    assert(all[i].0 == target);
                }
            }
            assert forall|writer: Str, p: Str, i: int| !wrote_reply(d, target, writer, p, i) by {
                if wrote_reply(d, target, writer, p, i) {
                    assert(d.catalog.replies.dom().contains(p));
                    assert(keys.contains(p));
                    let k = choose|k: int| 0 <= k < keys.len() && keys[k] == p;
                    assert(f(keys[k])[i] == (target, writer));
                    assert(f(keys[k]).contains((target, writer)));
                    lemma_concat_contains(keys, f, (target, writer));
                    let x = choose|x: int| 0 <= x < run.len() && run[x] == (target, writer);
                    assert(all[own.len() + x] == (target, writer));
                }
            }
        },
    }
}

/// The deed is one of the quest's task `i`.
pub open spec fn work_deed(d: DirectoryModel, k: Str, i: int, e: RepEventModel) -> bool {
    let q = d.catalog.quests[k];
    &&& d.catalog.quests.contains_key(k)
    &&& 0 <= i < q.tasks@.len()
    &&& e.deed == Deed::Reproduced
    &&& e.ts == q.created_ts
    &&& match d.settlement(q.id@, q.tasks@[i].id@) {
        Some((solver, vs)) => e.subject == solver && if vs.len() == 0 {
            e.actor == d.accounts.unit_of(q.author@)
        } else {
            vs.contains(e.actor)
        },
        None => false,
    }
}

/// Standing comes of four things and no others: verdicts on an artifact, references to it,
/// votes on what was written, and work that settled.
pub proof fn law_where_standing_comes_from(d: DirectoryModel, e: RepEventModel)
    requires
        d.catalog.reproductions.dom().finite(),
        d.catalog.votes.dom().finite(),
        d.catalog.quests.dom().finite(),
    ensures
        d.deeds().contains(e) <==> {
            ||| exists|id: Str, i: int| verdict_deed(d, id, i, e)
            ||| exists|i: int, j: int| citation_deed(d, i, j, e)
            ||| exists|t: Str, i: int|
                last_under(d.writings(), t) is Some && #[trigger] ballot_deed(d, t, i, last_under(d.writings(), t)->Some_0, e)
            ||| exists|k: Str, i: int| work_deed(d, k, i, e)
        },
{
    let ra = sorted_keys(d.catalog.reproductions.dom());
    let va = sorted_keys(d.catalog.votes.dom());
    let qa = sorted_keys(d.catalog.quests.dom());
    lemma_keys_distinct(d.catalog.reproductions.dom());
    lemma_keys_distinct(d.catalog.votes.dom());
    lemma_keys_distinct(d.catalog.quests.dom());
    let f1 = |id: Str| d.reproduction_deeds(id);
    let f2 = |s: Scroll| d.citations(s);
    let f3 = |t: Str| d.vote_deeds(t);
    let f4 = |k: Str| d.quest_deeds(d.catalog.quests[k]);
    let (p1, p2, p3, p4) = (
        concat_map(ra, f1),
        concat_map(d.catalog.scrolls, f2),
        concat_map(va, f3),
        concat_map(qa, f4),
    );
    lemma_four_parts(p1, p2, p3, p4, e);
    assert(d.deeds() == p1 + p2 + p3 + p4);
    lemma_concat_contains(ra, f1, e);
    lemma_concat_contains(d.catalog.scrolls, f2, e);
    lemma_concat_contains(va, f3, e);
    lemma_concat_contains(qa, f4, e);
    // verdicts
    if p1.contains(e) {
        let x = choose|x: int| 0 <= x < ra.len() && f1(#[trigger] ra[x]).contains(e);
        assert(ra.contains(ra[x]));
        lemma_reproduction_deeds(d, ra[x], e);
        let i = choose|i: int| verdict_deed(d, ra[x], i, e);
        assert(verdict_deed(d, ra[x], i, e));
    }
    if exists|id: Str, i: int| verdict_deed(d, id, i, e) {
        let (id, i) = choose|id: Str, i: int| verdict_deed(d, id, i, e);
        assert(d.catalog.reproductions.dom().contains(id));
        assert(ra.contains(id));
        lemma_reproduction_deeds(d, id, e);
        let x = choose|x: int| 0 <= x < ra.len() && ra[x] == id;
        assert(f1(ra[x]).contains(e));
    }
    // citations
    if p2.contains(e) {
        let x = choose|x: int| 0 <= x < d.catalog.scrolls.len() && f2(#[trigger] d.catalog.scrolls[x]).contains(e);
        law_citations_credit_the_author(d, x, e);
        let j = choose|j: int| citation_deed(d, x, j, e);
        assert(citation_deed(d, x, j, e));
    }
    if exists|i: int, j: int| citation_deed(d, i, j, e) {
        let (i, j) = choose|i: int, j: int| citation_deed(d, i, j, e);
        law_citations_credit_the_author(d, i, e);
        assert(f2(d.catalog.scrolls[i]).contains(e));
    }
    // votes
    if p3.contains(e) {
        let x = choose|x: int| 0 <= x < va.len() && f3(#[trigger] va[x]).contains(e);
        law_votes_count_for_the_writer(d, va[x], e);
        let w = last_under(d.writings(), va[x])->Some_0;
        let i = choose|i: int| ballot_deed(d, va[x], i, w, e);
        assert(ballot_deed(d, va[x], i, last_under(d.writings(), va[x])->Some_0, e));
    }
    if exists|t: Str, i: int|
        last_under(d.writings(), t) is Some && #[trigger] ballot_deed(d, t, i, last_under(d.writings(), t)->Some_0, e) {
        let (t, i) = choose|t: Str, i: int|
            last_under(d.writings(), t) is Some && #[trigger] ballot_deed(d, t, i, last_under(d.writings(), t)->Some_0, e);
        law_votes_count_for_the_writer(d, t, e);
        assert(d.catalog.votes.contains_key(t));
        assert(d.catalog.votes.dom().contains(t));
        assert(va.contains(t));
        let x = choose|x: int| 0 <= x < va.len() && va[x] == t;
        assert(f3(va[x]).contains(e));
    }
    // work
    if p4.contains(e) {
        let x = choose|x: int| 0 <= x < qa.len() && f4(#[trigger] qa[x]).contains(e);
        assert(qa.contains(qa[x]));
        lemma_quest_deeds(d, qa[x], e);
        let i = choose|i: int| work_deed(d, qa[x], i, e);
        assert(work_deed(d, qa[x], i, e));
    }
    if exists|k: Str, i: int| work_deed(d, k, i, e) {
        let (k, i) = choose|k: Str, i: int| work_deed(d, k, i, e);
        assert(d.catalog.quests.dom().contains(k));
        assert(qa.contains(k));
        lemma_quest_deeds(d, k, e);
        let x = choose|x: int| 0 <= x < qa.len() && qa[x] == k;
        assert(f4(qa[x]).contains(e));
    }
}

proof fn lemma_four_parts<T>(a: Seq<T>, b: Seq<T>, c: Seq<T>, e: Seq<T>, x: T)
    ensures
        (a + b + c + e).contains(x) <==> a.contains(x) || b.contains(x) || c.contains(x) || e.contains(x),
{
    let s = a + b + c + e;
    if a.contains(x) {
        let i = choose|i: int| 0 <= i < a.len() && a[i] == x;
        assert(s[i] == x);
    }
    if b.contains(x) {
        let i = choose|i: int| 0 <= i < b.len() && b[i] == x;
        assert(s[a.len() + i] == x);
    }
    if c.contains(x) {
        let i = choose|i: int| 0 <= i < c.len() && c[i] == x;
        assert(s[a.len() + b.len() + i] == x);
    }
    if e.contains(x) {
        let i = choose|i: int| 0 <= i < e.len() && e[i] == x;
        assert(s[a.len() + b.len() + c.len() + i] == x);
    }
    if s.contains(x) {
        let i = choose|i: int| 0 <= i < s.len() && s[i] == x;
        if i < a.len() {
            assert(a[i] == x);
        } else if i < a.len() + b.len() {
            assert(b[i - a.len()] == x);
        } else if i < a.len() + b.len() + c.len() {
            assert(c[i - a.len() - b.len()] == x);
        } else {
            assert(e[i - a.len() - b.len() - c.len()] == x);
        }
    }
}

proof fn lemma_quest_deeds(d: DirectoryModel, k: Str, e: RepEventModel)
    requires
        d.catalog.quests.contains_key(k),
    ensures
        d.quest_deeds(d.catalog.quests[k]).contains(e) <==> exists|i: int| work_deed(d, k, i, e),
{
    let q = d.catalog.quests[k];
    let ids = task_ids(q.tasks@);
    let f = |t: Str| d.task_deeds(q, t);
    lemma_concat_contains(ids, f, e);
    assert forall|i: int| 0 <= i < ids.len() implies f(#[trigger] ids[i]).contains(e) == work_deed(d, k, i, e) by {
        let all = f(ids[i]);
        assert(ids[i] == q.tasks@[i].id@);
        law_solvers_are_credited(d, q, ids[i]);
        if all.contains(e) {
            let x = choose|x: int| 0 <= x < all.len() && all[x] == e;
            let (solver, vs) = d.settlement(q.id@, ids[i])->Some_0;
            if vs.len() > 0 {
                assert(vs.contains(vs[x]));
            }
        }
        if work_deed(d, k, i, e) {
            let (solver, vs) = d.settlement(q.id@, ids[i])->Some_0;
            if vs.len() == 0 {
                assert(all[0] == e);
            } else {
                let x = choose|x: int| 0 <= x < vs.len() && vs[x] == e.actor;
                assert(all[x] == e);
            }
        }
    }
    if exists|i: int| work_deed(d, k, i, e) {
        let i = choose|i: int| work_deed(d, k, i, e);
        assert(f(ids[i]).contains(e));
    }
    if exists|i: int| 0 <= i < ids.len() && f(#[trigger] ids[i]).contains(e) {
        let i = choose|i: int| 0 <= i < ids.len() && f(#[trigger] ids[i]).contains(e);
        assert(work_deed(d, k, i, e));
    }
}

/// No deed is counted twice over: there are as many as the verdicts on known artifacts, the
/// references to them, the standing votes and the words for settled work together.
pub proof fn law_each_deed_counts_once(d: DirectoryModel)
    ensures
        d.deeds().len() == sum(
            sorted_keys(d.catalog.reproductions.dom()),
            |id: Str| d.reproduction_deeds(id).len() as int,
        ) + sum(d.catalog.scrolls, |s: Scroll| d.citations(s).len() as int) + sum(
            sorted_keys(d.catalog.votes.dom()),
            |t: Str| d.vote_deeds(t).len() as int,
        ) + sum(
            sorted_keys(d.catalog.quests.dom()),
            |k: Str| sum(task_ids(d.catalog.quests[k].tasks@), |t: Str| d.task_deeds(d.catalog.quests[k], t).len() as int),
        ),
{
    let ra = sorted_keys(d.catalog.reproductions.dom());
    let va = sorted_keys(d.catalog.votes.dom());
    let qa = sorted_keys(d.catalog.quests.dom());
    let f1 = |id: Str| d.reproduction_deeds(id);
    let f2 = |s: Scroll| d.citations(s);
    let f3 = |t: Str| d.vote_deeds(t);
    let f4 = |k: Str| d.quest_deeds(d.catalog.quests[k]);
    lemma_concat_len(ra, f1);
    lemma_concat_len(d.catalog.scrolls, f2);
    lemma_concat_len(va, f3);
    lemma_concat_len(qa, f4);
    lemma_sum_ext(ra, |id: Str| f1(id).len() as int, |id: Str| d.reproduction_deeds(id).len() as int);
    lemma_sum_ext(d.catalog.scrolls, |s: Scroll| f2(s).len() as int, |s: Scroll| d.citations(s).len() as int);
    lemma_sum_ext(va, |t: Str| f3(t).len() as int, |t: Str| d.vote_deeds(t).len() as int);
    let a = |k: Str| f4(k).len() as int;
    let b = |k: Str| sum(task_ids(d.catalog.quests[k].tasks@), |t: Str| d.task_deeds(d.catalog.quests[k], t).len() as int);
    assert forall|i: int| 0 <= i < qa.len() implies a(#[trigger] qa[i]) == b(qa[i]) by {
        let q = d.catalog.quests[qa[i]];
        let f = |t: Str| d.task_deeds(q, t);
        lemma_concat_len(task_ids(q.tasks@), f);
        lemma_sum_ext(task_ids(q.tasks@), |t: Str| f(t).len() as int, |t: Str| d.task_deeds(q, t).len() as int);
    }
    lemma_sum_ext(qa, a, b);
}

/// A key has its unit's standing once it published an artifact, a scroll, a reply or a
/// verdict on an artifact, and not before.
pub proof fn law_contributors(d: DirectoryModel, pubkey: Str)
    ensures
        d.contributes(pubkey) <==> {
            ||| exists|k: Str| #[trigger] d.catalog.artifacts.contains_key(k) && d.catalog.artifacts[k].author@ == pubkey
            ||| exists|i: int| 0 <= i < d.catalog.scrolls.len() && (#[trigger] d.catalog.scrolls[i]).author@ == pubkey
            ||| exists|k: Str, i: int|
                d.catalog.replies.contains_key(k) && 0 <= i < d.catalog.replies[k].len() && (
                #[trigger] d.catalog.replies[k][i]).author@ == pubkey
            ||| exists|k: Str, i: int|
                d.catalog.reproductions.contains_key(k) && 0 <= i < d.catalog.reproductions[k].len() && (
                #[trigger] d.catalog.reproductions[k][i]).attester@ == pubkey
        },
{
    let arts = d.catalog.artifacts;
    if among_values(arts, pubkey) {
        let k = choose|k: Str| #[trigger] stands_under(arts, k, pubkey);
        assert(arts.contains_key(k) && arts[k].author@ == pubkey);
    }
    if exists|k: Str| #[trigger] arts.contains_key(k) && arts[k].author@ == pubkey {
        let k = choose|k: Str| #[trigger] arts.contains_key(k) && arts[k].author@ == pubkey;
        assert(stands_under(arts, k, pubkey));
    }
    let scrolls = d.catalog.scrolls;
    if among(scrolls, pubkey) {
        let i = choose|i: int| 0 <= i < scrolls.len() && crate::signers::Signed::by(&#[trigger] scrolls[i]) == pubkey;
        assert(scrolls[i].author@ == pubkey);
    }
    if exists|i: int| 0 <= i < scrolls.len() && (#[trigger] scrolls[i]).author@ == pubkey {
        let i = choose|i: int| 0 <= i < scrolls.len() && (#[trigger] scrolls[i]).author@ == pubkey;
        assert(crate::signers::Signed::by(&scrolls[i]) == pubkey);
    }
    let replies = d.catalog.replies;
    if among_lists(replies, pubkey) {
        let k = choose|k: Str| #[trigger] listed_under(replies, k, pubkey);
        let i = choose|i: int| 0 <= i < replies[k].len() && crate::signers::Signed::by(&#[trigger] replies[k][i]) == pubkey;
        assert(replies[k][i].author@ == pubkey);
    }
    if exists|k: Str, i: int|
        replies.contains_key(k) && 0 <= i < replies[k].len() && (#[trigger] replies[k][i]).author@ == pubkey {
        let (k, i) = choose|k: Str, i: int|
            replies.contains_key(k) && 0 <= i < replies[k].len() && (#[trigger] replies[k][i]).author@ == pubkey;
        assert(crate::signers::Signed::by(&replies[k][i]) == pubkey);
        assert(listed_under(replies, k, pubkey));
    }
    let verdicts = d.catalog.reproductions;
    if among_lists(verdicts, pubkey) {
        let k = choose|k: Str| #[trigger] listed_under(verdicts, k, pubkey);
        let i = choose|i: int| 0 <= i < verdicts[k].len() && crate::signers::Signed::by(&#[trigger] verdicts[k][i]) == pubkey;
        assert(verdicts[k][i].attester@ == pubkey);
    }
    if exists|k: Str, i: int|
        verdicts.contains_key(k) && 0 <= i < verdicts[k].len() && (#[trigger] verdicts[k][i]).attester@ == pubkey {
        let (k, i) = choose|k: Str, i: int|
            verdicts.contains_key(k) && 0 <= i < verdicts[k].len() && (#[trigger] verdicts[k][i]).attester@ == pubkey;
        assert(crate::signers::Signed::by(&verdicts[k][i]) == pubkey);
        assert(listed_under(verdicts, k, pubkey));
    }
}

/// A key has its unit's credits shown once it posted a quest, answered a task or gave a verdict
/// on a result, and not before.
pub proof fn law_traders(d: DirectoryModel, pubkey: Str)
    ensures
        d.trades(pubkey) <==> {
            ||| exists|k: Str| #[trigger] d.catalog.quests.contains_key(k) && d.catalog.quests[k].author@ == pubkey
            ||| exists|p: (Str, Str), i: int|
                d.catalog.results.contains_key(p) && 0 <= i < d.catalog.results[p].len() && (
                #[trigger] d.catalog.results[p][i]).worker@ == pubkey
            ||| exists|k: Str, i: int|
                d.catalog.verifications.contains_key(k) && 0 <= i < d.catalog.verifications[k].len() && (
                #[trigger] d.catalog.verifications[k][i]).attester@ == pubkey
        },
{
    let quests = d.catalog.quests;
    if among_values(quests, pubkey) {
        let k = choose|k: Str| #[trigger] stands_under(quests, k, pubkey);
        assert(quests.contains_key(k) && quests[k].author@ == pubkey);
    }
    if exists|k: Str| #[trigger] quests.contains_key(k) && quests[k].author@ == pubkey {
        let k = choose|k: Str| #[trigger] quests.contains_key(k) && quests[k].author@ == pubkey;
        assert(stands_under(quests, k, pubkey));
    }
    let results = d.catalog.results;
    if among_lists(results, pubkey) {
        let p = choose|p: (Str, Str)| #[trigger] listed_under(results, p, pubkey);
        let i = choose|i: int| 0 <= i < results[p].len() && crate::signers::Signed::by(&#[trigger] results[p][i]) == pubkey;
        assert(results[p][i].worker@ == pubkey);
    }
    if exists|p: (Str, Str), i: int|
        results.contains_key(p) && 0 <= i < results[p].len() && (#[trigger] results[p][i]).worker@ == pubkey {
        let (p, i) = choose|p: (Str, Str), i: int|
            results.contains_key(p) && 0 <= i < results[p].len() && (#[trigger] results[p][i]).worker@ == pubkey;
        assert(crate::signers::Signed::by(&results[p][i]) == pubkey);
        assert(listed_under(results, p, pubkey));
    }
    let verdicts = d.catalog.verifications;
    if among_lists(verdicts, pubkey) {
        let k = choose|k: Str| #[trigger] listed_under(verdicts, k, pubkey);
        let i = choose|i: int| 0 <= i < verdicts[k].len() && crate::signers::Signed::by(&#[trigger] verdicts[k][i]) == pubkey;
        assert(verdicts[k][i].attester@ == pubkey);
    }
    if exists|k: Str, i: int|
        verdicts.contains_key(k) && 0 <= i < verdicts[k].len() && (#[trigger] verdicts[k][i]).attester@ == pubkey {
        let (k, i) = choose|k: Str, i: int|
            verdicts.contains_key(k) && 0 <= i < verdicts[k].len() && (#[trigger] verdicts[k][i]).attester@ == pubkey;
        assert(crate::signers::Signed::by(&verdicts[k][i]) == pubkey);
        assert(listed_under(verdicts, k, pubkey));
    }
}

} // verus!
