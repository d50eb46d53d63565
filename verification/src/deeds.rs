//! The deeds that reputation is reckoned from, and reputation by key.

use crate::credits::task_ids;
use crate::directory::{Directory, DirectoryModel};
use crate::ordmap::{sorted_keys, OrdMap};
use crate::records::{Attestation, Quest, Reply, Scroll, Str, Vote};
use crate::seqs::{concat_map, lemma_concat_map_step, lemma_take_contains};
use crate::signers::{
    add_list_signers, add_signers, add_value_signers, among, among_lists, among_values, KeySet,
};
use crate::text::texts;
use crate::votes::points_at;
use vstd::prelude::*;

verus! {

/// What one unit did that bears on another's reputation.
#[derive(Debug, Clone, Copy, PartialEq, Eq, Structural)]
pub enum Deed {
    Reproduced,
    ReproductionFailed,
    Cited,
    Upvote,
    Downvote,
}

/// A deed of `actor` that bears on the reputation of `subject`.
pub struct RepEvent {
    pub deed: Deed,
    pub subject: String,
    pub actor: String,
    pub ts: i64,
}

/// What a `RepEvent` says.
pub struct RepEventModel {
    pub deed: Deed,
    pub subject: Str,
    pub actor: Str,
    pub ts: i64,
}

impl View for RepEvent {
    type V = RepEventModel;

    open spec fn view(&self) -> RepEventModel {
        RepEventModel { deed: self.deed, subject: self.subject@, actor: self.actor@, ts: self.ts }
    }
}

pub open spec fn event_models(s: Seq<RepEvent>) -> Seq<RepEventModel> {
    s.map_values(|e: RepEvent| e@)
}

/// The last value under `k`.
pub open spec fn last_under(pairs: Seq<(Str, Str)>, k: Str) -> Option<Str>
    decreases pairs.len(),
{
    if pairs.len() == 0 {
        None
    } else if pairs.last().0 == k {
        Some(pairs.last().1)
    } else {
        last_under(pairs.drop_last(), k)
    }
}

/// What a vote does to the reputation of `subject`.
pub open spec fn vote_deed(subject: Str, actor: Str, v: Vote) -> Seq<RepEventModel> {
    if v.value == 1 {
        seq![RepEventModel { deed: Deed::Upvote, subject, actor, ts: v.created_ts }]
    } else if v.value == -1 {
        seq![RepEventModel { deed: Deed::Downvote, subject, actor, ts: v.created_ts }]
    } else {
        Seq::empty()
    }
}

impl DirectoryModel {
    /// Verdicts on an artifact count for or against its author.
    pub open spec fn reproduction_deeds(self, id: Str) -> Seq<RepEventModel> {
        if self.catalog.artifacts.contains_key(id) {
            let subject = self.unit(self.catalog.artifacts[id].author@);
            self.catalog.reproductions[id].map_values(
                |a: Attestation|
                    RepEventModel {
                        deed: if a.reproduced {
                            Deed::Reproduced
                        } else {
                            Deed::ReproductionFailed
                        },
                        subject,
                        actor: self.unit(a.attester@),
                        ts: a.created_ts,
                    },
            )
        } else {
            Seq::empty()
        }
    }

    /// A scroll that cites an artifact credits the artifact's author.
    pub open spec fn citation(self, s: Scroll, id: Str) -> Seq<RepEventModel> {
        if self.catalog.artifacts.contains_key(id) {
            seq![
                RepEventModel {
                    deed: Deed::Cited,
                    subject: self.unit(self.catalog.artifacts[id].author@),
                    actor: self.unit(s.author@),
                    ts: s.created_ts,
                },
            ]
        } else {
            Seq::empty()
        }
    }

    pub open spec fn citations(self, s: Scroll) -> Seq<RepEventModel> {
        concat_map(texts(s.refs@), |id: Str| self.citation(s, id))
    }

    /// Who wrote what can be voted on: scrolls, then replies by their threads.
    pub open spec fn writings(self) -> Seq<(Str, Str)> {
        self.catalog.scrolls.map_values(|s: Scroll| (s.id@, s.author@)) + concat_map(
            sorted_keys(self.catalog.replies.dom()),
            |p: Str| thread_writings(self.catalog.replies[p]),
        )
    }

    /// Votes on a scroll or a reply count for or against its author, one per unit.
    pub open spec fn vote_deeds(self, target: Str) -> Seq<RepEventModel> {
        match last_under(self.writings(), target) {
            None => Seq::empty(),
            Some(author) => {
                let latest = self.standing_votes(target);
                concat_map(sorted_keys(latest.dom()), |u: Str| vote_deed(self.unit(author), u, latest[u]))
            },
        }
    }

    /// A settled task credits its solver, on the word of whoever settled it: the author,
    /// or each account that vouched.
    pub open spec fn task_deeds(self, q: Quest, task: Str) -> Seq<RepEventModel> {
        match self.settlement(q.id@, task) {
            None => Seq::empty(),
            Some((solver, verifiers)) => if verifiers.len() == 0 {
                seq![
                    RepEventModel {
                        deed: Deed::Reproduced,
                        subject: solver,
                        actor: self.unit(q.author@),
                        ts: q.created_ts,
                    },
                ]
            } else {
                verifiers.map_values(
                    |v: Str| RepEventModel { deed: Deed::Reproduced, subject: solver, actor: v, ts: q.created_ts },
                )
            },
        }
    }

    pub open spec fn quest_deeds(self, q: Quest) -> Seq<RepEventModel> {
        concat_map(task_ids(q.tasks@), |t: Str| self.task_deeds(q, t))
    }

    /// All deeds, in units, so that the many keys of one human count as one.
    pub open spec fn deeds(self) -> Seq<RepEventModel> {
        concat_map(sorted_keys(self.catalog.reproductions.dom()), |id: Str| self.reproduction_deeds(id)) + concat_map(
            self.catalog.scrolls,
            |s: Scroll| self.citations(s),
        ) + concat_map(sorted_keys(self.catalog.votes.dom()), |t: Str| self.vote_deeds(t)) + concat_map(
            sorted_keys(self.catalog.quests.dom()),
            |k: Str| self.quest_deeds(self.catalog.quests[k]),
        )
    }

    /// The key published an artifact, a scroll, a reply or a verdict on an artifact.
    pub open spec fn contributes(self, pubkey: Str) -> bool {
        ||| among_values(self.catalog.artifacts, pubkey)
        ||| among(self.catalog.scrolls, pubkey)
        ||| among_lists(self.catalog.replies, pubkey)
        ||| among_lists(self.catalog.reproductions, pubkey)
    }
}

/// Who wrote the replies of a thread.
pub open spec fn thread_writings(thread: Seq<Reply>) -> Seq<(Str, Str)> {
    thread.map_values(|r: Reply| (r.id@, r.author@))
}

/// `m` holds the last value under each key.
spec fn keeps_last(m: Map<Str, String>, pairs: Seq<(Str, Str)>) -> bool {
    forall|k: Str|
        match last_under(pairs, k) {
            Some(v) => #[trigger] m.contains_key(k) && m[k]@ == v,
            None => !m.contains_key(k),
        }
}

fn put_last(m: &mut OrdMap<String>, k: &str, v: &str, Ghost(pairs): Ghost<Seq<(Str, Str)>>)
    requires
        keeps_last(old(m)@, pairs),
    ensures
        keeps_last(final(m)@, pairs.push((k@, v@))),
{
    let ghost before = m@;
    m.insert(k.to_owned(), v.to_owned());
    proof {
        let more = pairs.push((k@, v@));
        assert(more.drop_last() =~= pairs);
        assert forall|x: Str|
            match last_under(more, x) {
                Some(y) => #[trigger] m@.contains_key(x) && m@[x]@ == y,
                None => !m@.contains_key(x),
            } by {
            if x != k@ {
                assert(m@.contains_key(x) == before.contains_key(x));
            }
        }
    }
}

fn log(out: &mut Vec<RepEvent>, deed: Deed, subject: &str, actor: &str, ts: i64)
    ensures
        event_models(final(out)@) == event_models(old(out)@).push(
            RepEventModel { deed, subject: subject@, actor: actor@, ts },
        ),
{
    let ghost before = out@;
    out.push(RepEvent { deed, subject: subject.to_owned(), actor: actor.to_owned(), ts });
    assert(event_models(out@) =~= event_models(before).push(RepEventModel { deed, subject: subject@, actor: actor@, ts }));
}

impl Directory {
    /// The author of each scroll and reply.
    fn writers(&self) -> (r: OrdMap<String>)
        ensures
            keeps_last(r@, self@.writings()),
    {
        let mut m: OrdMap<String> = OrdMap::new();
        let ghost all = self@.catalog.scrolls.map_values(|s: Scroll| (s.id@, s.author@));
        let mut i: usize = 0;
        assert(keeps_last(m@, all.take(0)));
        while i < self.catalog.scrolls.len()
            invariant
                0 <= i <= self.catalog.scrolls.len(),
                all == self@.catalog.scrolls.map_values(|s: Scroll| (s.id@, s.author@)),
                keeps_last(m@, all.take(i as int)),
            decreases self.catalog.scrolls.len() - i,
        {
            let s = &self.catalog.scrolls[i];
            put_last(&mut m, s.id.as_str(), s.author.as_str(), Ghost(all.take(i as int)));
            assert(all.take(i as int).push((s.id@, s.author@)) =~= all.take(i + 1));
            i = i + 1;
        }
        assert(all.take(i as int) =~= all);
        let ghost keys = sorted_keys(self@.catalog.replies.dom());
        let ghost f = |p: Str| thread_writings(self@.catalog.replies[p]);
        let n = self.catalog.replies.len();
        let mut i: usize = 0;
        assert(all + concat_map(keys.take(0), f) =~= all);
        while i < n
            invariant
                0 <= i <= n,
                n == keys.len(),
                keys == sorted_keys(self@.catalog.replies.dom()),
                f == (|p: Str| thread_writings(self@.catalog.replies[p])),
                keeps_last(m@, all + concat_map(keys.take(i as int), f)),
            decreases n - i,
        {
            let thread = self.catalog.replies.list_at_key(i);
            let ghost so_far = all + concat_map(keys.take(i as int), f);
            let ghost w = thread_writings(thread@);
            let mut j: usize = 0;
            assert(so_far + w.take(0) =~= so_far);
            while j < thread.len()
                invariant
                    0 <= j <= thread.len(),
                    w == thread_writings(thread@),
                    keeps_last(m@, so_far + w.take(j as int)),
                decreases thread.len() - j,
            {
                let r = &thread[j];
                put_last(&mut m, r.id.as_str(), r.author.as_str(), Ghost(so_far + w.take(j as int)));
                assert((so_far + w.take(j as int)).push((r.id@, r.author@)) =~= so_far + w.take(j + 1));
                j = j + 1;
            }
            proof {
                assert(w.take(j as int) =~= w);
                lemma_concat_map_step(keys, f, i as int);
                assert(so_far + w =~= all + concat_map(keys.take(i + 1), f));
            }
            i = i + 1;
        }
        assert(keys.take(i as int) =~= keys);
        m
    }

    fn log_reproductions(&self, out: &mut Vec<RepEvent>, id: &str, list: &Vec<Attestation>)
        requires
            list@ == self@.catalog.reproductions[id@],
        ensures
            event_models(final(out)@) == event_models(old(out)@) + self@.reproduction_deeds(id@),
    {
        let ghost before = event_models(out@);
        let ghost all = self@.reproduction_deeds(id@);
        match self.catalog.artifacts.get(id) {
            None => {
                assert(before + all =~= before);
            },
            Some(art) => {
                let subject = self.acct(art.author.as_str());
                let mut i: usize = 0;
                assert(before + all.take(0) =~= before);
                while i < list.len()
                    invariant
                        0 <= i <= list.len(),
                        all == self@.reproduction_deeds(id@),
                        list@ == self@.catalog.reproductions[id@],
                        self@.catalog.artifacts.contains_key(id@),
                        subject@ == self@.unit(self@.catalog.artifacts[id@].author@),
                        event_models(out@) == before + all.take(i as int),
                    decreases list.len() - i,
                {
                    let a = &list[i];
                    let actor = self.acct(a.attester.as_str());
                    let deed = if a.reproduced {
                        Deed::Reproduced
                    } else {
                        Deed::ReproductionFailed
                    };
                    log(out, deed, subject.as_str(), actor.as_str(), a.created_ts);
                    assert((before + all.take(i as int)).push(all[i as int]) =~= before + all.take(i + 1));
                    i = i + 1;
                }
                assert(all.take(i as int) =~= all);
            },
        }
    }

    fn log_citations(&self, out: &mut Vec<RepEvent>, s: &Scroll)
        ensures
            event_models(final(out)@) == event_models(old(out)@) + self@.citations(*s),
    {
        let ghost before = event_models(out@);
        let ghost ids = texts(s.refs@);
        let ghost f = |id: Str| self@.citation(*s, id);
        let mut i: usize = 0;
        assert(before + concat_map(ids.take(0), f) =~= before);
        while i < s.refs.len()
            invariant
                0 <= i <= s.refs.len(),
                ids == texts(s.refs@),
                f == (|id: Str| self@.citation(*s, id)),
                event_models(out@) == before + concat_map(ids.take(i as int), f),
            decreases s.refs.len() - i,
        {
            let ghost so_far = before + concat_map(ids.take(i as int), f);
            if let Some(art) = self.catalog.artifacts.get(s.refs[i].as_str()) {
                let subject = self.acct(art.author.as_str());
                let actor = self.acct(s.author.as_str());
                log(out, Deed::Cited, subject.as_str(), actor.as_str(), s.created_ts);
            }
            proof {
                lemma_concat_map_step(ids, f, i as int);
                assert(event_models(out@) =~= so_far + f(ids[i as int]));
                assert(so_far + f(ids[i as int]) =~= before + concat_map(ids.take(i + 1), f));
            }
            i = i + 1;
        }
        assert(ids.take(i as int) =~= ids);
    }

    fn log_votes(&self, out: &mut Vec<RepEvent>, target: &str, votes: &Vec<Vote>, writers: &OrdMap<String>)
        requires
            keeps_last(writers@, self@.writings()),
            self@.catalog.votes.contains_key(target@),
            votes@ == self@.catalog.votes[target@],
        ensures
            event_models(final(out)@) == event_models(old(out)@) + self@.vote_deeds(target@),
    {
        let ghost before = event_models(out@);
        let ghost all = self@.vote_deeds(target@);
        match writers.get(target) {
            None => {
                assert(last_under(self@.writings(), target@) is None);
                assert(before + all =~= before);
            },
            Some(author) => {
                assert(last_under(self@.writings(), target@) == Some(author@));
                let subject = self.acct(author.as_str());
                let m = self.latest_of(votes);
                let ghost latest = self@.standing_votes(target@);
                let ghost keys = sorted_keys(latest.dom());
                let ghost f = |u: Str| vote_deed(self@.unit(author@), u, latest[u]);
                let n = m.len();
                let mut i: usize = 0;
                assert(before + concat_map(keys.take(0), f) =~= before);
                while i < n
                    invariant
                        0 <= i <= n,
                        n == keys.len(),
                        keys == m.keys(),
                        keys == sorted_keys(latest.dom()),
                        points_at(m@, votes@, latest),
                        subject@ == self@.unit(author@),
                        f == (|u: Str| vote_deed(self@.unit(author@), u, latest[u])),
                        event_models(out@) == before + concat_map(keys.take(i as int), f),
                    decreases n - i,
                {
                    let ghost so_far = before + concat_map(keys.take(i as int), f);
                    let actor = m.key_at(i);
                    let v = &votes[*m.value_at(i)];
                    if v.value == 1 {
                        log(out, Deed::Upvote, subject.as_str(), actor.as_str(), v.created_ts);
                    } else if v.value == -1 {
                        log(out, Deed::Downvote, subject.as_str(), actor.as_str(), v.created_ts);
                    }
                    proof {
                        lemma_concat_map_step(keys, f, i as int);
                        assert(event_models(out@) =~= so_far + f(keys[i as int]));
                        assert(so_far + f(keys[i as int]) =~= before + concat_map(keys.take(i + 1), f));
                    }
                    i = i + 1;
                }
                assert(keys.take(i as int) =~= keys);
            },
        }
    }

    fn log_task(&self, out: &mut Vec<RepEvent>, q: &Quest, task: &str, author: &str)
        requires
            author@ == self@.unit(q.author@),
        ensures
            event_models(final(out)@) == event_models(old(out)@) + self@.task_deeds(*q, task@),
    {
        let ghost before = event_models(out@);
        let ghost all = self@.task_deeds(*q, task@);
        match self.task_settlement(q.id.as_str(), task) {
            None => {
                assert(before + all =~= before);
            },
            Some((solver, verifiers)) => {
                let ghost vs = texts(verifiers@);
                assert(vs.len() == verifiers@.len());
                if verifiers.len() == 0 {
                    log(out, Deed::Reproduced, solver.as_str(), author, q.created_ts);
                    assert(event_models(out@) =~= before + all);
                } else {
                    let mut i: usize = 0;
                    assert(before + all.take(0) =~= before);
                    while i < verifiers.len()
                        invariant
                            0 <= i <= verifiers.len(),
                            vs == texts(verifiers@),
                            vs.len() > 0,
                            self@.settlement(q.id@, task@) == Some((solver@, vs)),
                            all == self@.task_deeds(*q, task@),
                            event_models(out@) == before + all.take(i as int),
                        decreases verifiers.len() - i,
                    {
                        log(out, Deed::Reproduced, solver.as_str(), verifiers[i].as_str(), q.created_ts);
                        assert((before + all.take(i as int)).push(all[i as int]) =~= before + all.take(i + 1));
                        i = i + 1;
                    }
                    assert(all.take(i as int) =~= all);
                }
            },
        }
    }

    fn log_quest(&self, out: &mut Vec<RepEvent>, q: &Quest)
        ensures
            event_models(final(out)@) == event_models(old(out)@) + self@.quest_deeds(*q),
    {
        let author = self.acct(q.author.as_str());
        let ghost before = event_models(out@);
        let ghost ids = task_ids(q.tasks@);
        let ghost f = |t: Str| self@.task_deeds(*q, t);
        let mut i: usize = 0;
        assert(before + concat_map(ids.take(0), f) =~= before);
        while i < q.tasks.len()
            invariant
                0 <= i <= q.tasks.len(),
                ids == task_ids(q.tasks@),
                author@ == self@.unit(q.author@),
                f == (|t: Str| self@.task_deeds(*q, t)),
                event_models(out@) == before + concat_map(ids.take(i as int), f),
            decreases q.tasks.len() - i,
        {
            let ghost so_far = before + concat_map(ids.take(i as int), f);
            self.log_task(out, q, q.tasks[i].id.as_str(), author.as_str());
            proof {
                lemma_concat_map_step(ids, f, i as int);
                assert(so_far + f(ids[i as int]) =~= before + concat_map(ids.take(i + 1), f));
            }
            i = i + 1;
        }
        assert(ids.take(i as int) =~= ids);
    }

    /// All deeds that bear on reputation: verdicts on artifacts, citations, votes and
    /// settled tasks, between units.
    pub fn rep_events(&self) -> (r: Vec<RepEvent>)
        ensures
            event_models(r@) == self@.deeds(),
    {
        let mut out: Vec<RepEvent> = Vec::new();
        assert(event_models(out@) =~= Seq::<RepEventModel>::empty());

        let ghost keys = sorted_keys(self@.catalog.reproductions.dom());
        let ghost f = |id: Str| self@.reproduction_deeds(id);
        let n = self.catalog.reproductions.len();
        let mut i: usize = 0;
        while i < n
            invariant
                0 <= i <= n,
                n == keys.len(),
                keys == sorted_keys(self@.catalog.reproductions.dom()),
                f == (|id: Str| self@.reproduction_deeds(id)),
                event_models(out@) == concat_map(keys.take(i as int), f),
            decreases n - i,
        {
            self.log_reproductions(
                &mut out,
                self.catalog.reproductions.key_at(i).as_str(),
                self.catalog.reproductions.list_at_key(i),
            );
            proof {
                lemma_concat_map_step(keys, f, i as int);
            }
            i = i + 1;
        }
        assert(keys.take(i as int) =~= keys);
        let ghost part1 = event_models(out@);

        let ghost scrolls = self@.catalog.scrolls;
        let ghost g = |s: Scroll| self@.citations(s);
        let mut i: usize = 0;
        assert(part1 + concat_map(scrolls.take(0), g) =~= part1);
        while i < self.catalog.scrolls.len()
            invariant
                0 <= i <= self.catalog.scrolls.len(),
                scrolls == self@.catalog.scrolls,
                g == (|s: Scroll| self@.citations(s)),
                event_models(out@) == part1 + concat_map(scrolls.take(i as int), g),
            decreases self.catalog.scrolls.len() - i,
        {
            let ghost so_far = part1 + concat_map(scrolls.take(i as int), g);
            self.log_citations(&mut out, &self.catalog.scrolls[i]);
            proof {
                lemma_concat_map_step(scrolls, g, i as int);
                assert(so_far + g(scrolls[i as int]) =~= part1 + concat_map(scrolls.take(i + 1), g));
            }
            i = i + 1;
        }
        assert(scrolls.take(i as int) =~= scrolls);
        let ghost part2 = event_models(out@);

        let writers = self.writers();
        let ghost vkeys = sorted_keys(self@.catalog.votes.dom());
        let ghost h = |t: Str| self@.vote_deeds(t);
        let n = self.catalog.votes.len();
        let mut i: usize = 0;
        assert(part2 + concat_map(vkeys.take(0), h) =~= part2);
        while i < n
            invariant
                0 <= i <= n,
                n == vkeys.len(),
                vkeys == sorted_keys(self@.catalog.votes.dom()),
                h == (|t: Str| self@.vote_deeds(t)),
                keeps_last(writers@, self@.writings()),
                event_models(out@) == part2 + concat_map(vkeys.take(i as int), h),
            decreases n - i,
        {
            let ghost so_far = part2 + concat_map(vkeys.take(i as int), h);
            self.log_votes(
                &mut out,
                self.catalog.votes.key_at(i).as_str(),
                self.catalog.votes.list_at_key(i),
                &writers,
            );
            proof {
                lemma_concat_map_step(vkeys, h, i as int);
                assert(so_far + h(vkeys[i as int]) =~= part2 + concat_map(vkeys.take(i + 1), h));
            }
            i = i + 1;
        }
        assert(vkeys.take(i as int) =~= vkeys);
        let ghost part3 = event_models(out@);

        let ghost qkeys = sorted_keys(self@.catalog.quests.dom());
        let ghost w = |k: Str| self@.quest_deeds(self@.catalog.quests[k]);
        let n = self.catalog.quests.len();
        let mut i: usize = 0;
        assert(part3 + concat_map(qkeys.take(0), w) =~= part3);
        while i < n
            invariant
                0 <= i <= n,
                n == qkeys.len(),
                qkeys == sorted_keys(self@.catalog.quests.dom()),
                w == (|k: Str| self@.quest_deeds(self@.catalog.quests[k])),
                event_models(out@) == part3 + concat_map(qkeys.take(i as int), w),
            decreases n - i,
        {
            let ghost so_far = part3 + concat_map(qkeys.take(i as int), w);
            self.log_quest(&mut out, self.catalog.quests.value_at(i));
            proof {
                lemma_concat_map_step(qkeys, w, i as int);
                assert(so_far + w(qkeys[i as int]) =~= part3 + concat_map(qkeys.take(i + 1), w));
            }
            i = i + 1;
        }
        assert(qkeys.take(i as int) =~= qkeys);
        out
    }

    /// Scores by unit, as reckoned from the deeds, brought down to the keys that
    /// contributed: each key has what its unit has.
    pub fn reputation_by_pubkey<S: Copy>(&self, scores: &OrdMap<S>) -> (r: OrdMap<S>)
        ensures
            forall|pk: Str|
                #[trigger] r@.contains_key(pk) <==> self@.contributes(pk) && scores@.contains_key(self@.unit(pk)),
            forall|pk: Str| #[trigger] r@.contains_key(pk) ==> r@[pk] == scores@[self@.unit(pk)],
            forall|a: Str, b: Str| #[trigger]
                r@.contains_key(a) && #[trigger] r@.contains_key(b) && self@.accounts.unit_of(a) == self@.accounts.unit_of(b) ==> r@[a] == r@[b],
    {
        let mut contributors: KeySet = OrdMap::new();
        add_value_signers(&mut contributors, &self.catalog.artifacts);
        add_signers(&mut contributors, &self.catalog.scrolls);
        add_list_signers(&mut contributors, &self.catalog.replies);
        add_list_signers(&mut contributors, &self.catalog.reproductions);
        let mut out: OrdMap<S> = OrdMap::new();
        let ghost keys = contributors.keys();
        let n = contributors.len();
        let mut i: usize = 0;
        while i < n
            invariant
                0 <= i <= n,
                n == keys.len(),
                keys == contributors.keys(),
                forall|pk: Str| #[trigger] out@.contains_key(pk) ==> out@[pk] == scores@[self@.unit(pk)],
                forall|pk: Str|
                    #[trigger] out@.contains_key(pk) <==> keys.take(i as int).contains(pk) && scores@.contains_key(
                        self@.unit(pk),
                    ),
            decreases n - i,
        {
            let ghost mid = out@;
            let pk = contributors.key_at(i);
            if let Some(s) = scores.get(self.acct(pk.as_str()).as_str()) {
                out.insert(pk.clone(), *s);
            }
            proof {
                lemma_take_contains(keys, i as int);
                assert forall|x: Str| #[trigger] out@.contains_key(x) <==> keys.take(i + 1).contains(x) && scores@.contains_key(
                    self@.unit(x),
                ) by {
                    if x != pk@ {
                        assert(out@.contains_key(x) == mid.contains_key(x));
                    } else {
                        assert(!scores@.contains_key(self@.unit(x)) ==> (mid.contains_key(x) == out@.contains_key(x)));
                    }
                }
            }
            i = i + 1;
        }
        assert(keys.take(i as int) =~= keys);
        assert forall|pk: Str| #[trigger] out@.contains_key(pk) <==> self@.contributes(pk) && scores@.contains_key(
            self@.unit(pk),
        ) by {
            assert(contributors@.contains_key(pk) <==> self@.contributes(pk));
            assert(contributors@.dom().contains(pk) <==> keys.contains(pk));
        }
        out
    }
}

} // verus!
