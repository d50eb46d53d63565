//! The live event stream: which ledger entries a subscriber is told of. A thread that has
//! settled is pushed no further, so that no discussion storms on without end.

use crate::directory::{Directory, DirectoryModel};
use crate::ledger::Row;
use crate::ordmap::list_at;
use crate::records::{kind_named, kind_of, Artifact, Attestation, Handle, Kind, Record, Reply, Scroll, Str, Vote};
use crate::seqs::{
    first_match, lemma_filter_ascends, lemma_filter_holds, lemma_filter_none, lemma_filter_step, lemma_first_match_at,
    lemma_first_match_none,
};
use crate::text::{contains_string, excerpt, same, texts};
use vstd::arithmetic::power::{lemma_pow_positive, pow};
use vstd::prelude::*;

verus! {

/// How many characters of a text a notice quotes.
pub const EXCERPT_CHARS: usize = 140;

// ---- thread convergence ----

/// A thread's energy starts at 1 and shrinks to three fifths with each reply. Below one
/// twentieth the thread is settled.
pub open spec fn settled_after(replies: nat) -> bool {
    20 * pow(3, replies) < pow(5, replies)
}

/// A thread settles with its sixth reply, and stays settled.
pub proof fn lemma_settles_at_six(replies: nat)
    ensures
        settled_after(replies) <==> replies >= 6,
    decreases replies,
{
    reveal_with_fuel(pow, 7);
    if replies > 6 {
        lemma_settles_at_six((replies - 1) as nat);
        let m = (replies - 1) as nat;
        assert(pow(3, replies) == 3 * pow(3, m));
        assert(pow(5, replies) == 5 * pow(5, m));
        lemma_pow_positive(3, m);
        lemma_pow_positive(5, m);
    } else if replies == 6 {
        assert(pow(3, 6) == 729);
        assert(pow(5, 6) == 15625);
    } else if replies == 5 {
        assert(pow(3, 5) == 243);
        assert(pow(5, 5) == 3125);
    } else if replies == 4 {
        assert(pow(3, 4) == 81);
        assert(pow(5, 4) == 625);
    } else if replies == 3 {
        assert(pow(3, 3) == 27);
        assert(pow(5, 3) == 125);
    } else if replies == 2 {
        assert(pow(3, 2) == 9);
        assert(pow(5, 2) == 25);
    } else if replies == 1 {
        assert(pow(3, 1) == 3);
        assert(pow(5, 1) == 5);
    } else {
        assert(pow(3, 0) == 1);
        assert(pow(5, 0) == 1);
    }
}

impl DirectoryModel {
    /// The replies under a scroll.
    pub open spec fn thread(self, id: Str) -> Seq<Reply> {
        list_at(self.catalog.replies, id)
    }

    pub open spec fn settled(self, id: Str) -> bool {
        settled_after(self.thread(id).len())
    }
}

// ---- subscriptions ----

/// What a subscriber wants to be told of. Labels are in their normal form.
pub struct EventQuery {
    /// Only entries after this one.
    pub since: Option<i64>,
    /// Only entries of one kind.
    pub kind: Option<String>,
    /// Only scrolls with this sigil, and replies under them.
    pub sigil: Option<String>,
    /// Only scrolls of this tome, and replies under them.
    pub tome: Option<String>,
    /// Only one scroll and its replies.
    pub thread: Option<String>,
}

impl Default for EventQuery {
    fn default() -> (r: Self)
        ensures
            r == (EventQuery { since: None, kind: None, sigil: None, tome: None, thread: None }),
    {
        EventQuery { since: None, kind: None, sigil: None, tome: None, thread: None }
    }
}

/// Nothing is wanted, or just this.
pub open spec fn wants(o: Option<String>, s: Str) -> bool {
    match o {
        Some(t) => t@ == s,
        None => true,
    }
}

/// Whether nothing is wanted, or just this.
pub fn is_wanted(o: &Option<String>, s: &str) -> (r: bool)
    ensures
        r == wants(*o, s@),
{
    match o {
        Some(t) => same(t.as_str(), s),
        None => true,
    }
}

impl EventQuery {
    /// A sigil or a tome is asked for.
    pub open spec fn has_facet(self) -> bool {
        self.sigil is Some || self.tome is Some
    }
}

/// The scroll has the sigil and the tome that are asked for.
pub open spec fn bears(s: Scroll, sigil: Option<String>, tome: Option<String>) -> bool {
    &&& sigil matches Some(g) ==> texts(s.sigils@).contains(g@)
    &&& tome matches Some(t) ==> s.tome is Some && s.tome->Some_0@ == t@
}

/// Whether the scroll has the sigil and the tome that are asked for.
pub fn scroll_bears(s: &Scroll, sigil: &Option<String>, tome: &Option<String>) -> (r: bool)
    ensures
        r == bears(*s, *sigil, *tome),
{
    let sigil_fits = match sigil {
        Some(g) => contains_string(&s.sigils, g.as_str()),
        None => true,
    };
    let tome_fits = match tome {
        Some(t) => match &s.tome {
            Some(u) => same(u.as_str(), t.as_str()),
            None => false,
        },
        None => true,
    };
    sigil_fits && tome_fits
}

pub open spec fn has_id(id: Str) -> spec_fn(Scroll) -> bool {
    |s: Scroll| s.id@ == id
}

/// The first scroll with this id.
pub open spec fn scroll_at(scrolls: Seq<Scroll>, id: Str) -> Option<int> {
    first_match(scrolls, has_id(id))
}

impl DirectoryModel {
    /// The scroll that a reply stands under has the facets asked for.
    pub open spec fn parent_bears(self, parent: Str, q: EventQuery) -> bool {
        match scroll_at(self.catalog.scrolls, parent) {
            Some(i) => bears(self.catalog.scrolls[i], q.sigil, q.tome),
            None => false,
        }
    }

    /// The subscriber is told of the entry.
    pub open spec fn shows(self, row: Row, q: EventQuery) -> bool {
        wants(q.kind, row.entry.kind@) && match (kind_named(row.entry.kind@), row.record) {
            (Some(Kind::Scroll), Record::Scroll(s)) => wants(q.thread, s.id@) && bears(s, q.sigil, q.tome),
            (Some(Kind::Reply), Record::Reply(r)) => wants(q.thread, r.parent@) && (q.has_facet() ==> self.parent_bears(
                r.parent@,
                q,
            )) && !self.settled(r.parent@),
            (Some(Kind::Vote), Record::Vote(_)) => q.thread is None && !q.has_facet(),
            (Some(Kind::Handle), Record::Handle(_)) => q.thread is None && !q.has_facet(),
            (Some(Kind::Artifact), Record::Artifact(_)) => q.thread is None && !q.has_facet(),
            (Some(Kind::Reproduction), Record::Attestation(_)) => q.thread is None && !q.has_facet(),
            _ => false,
        }
    }

    /// The entries after `cursor` that the subscriber is told of, in ledger order.
    pub open spec fn pushes(self, rows: Seq<Row>, cursor: i64, q: EventQuery) -> Seq<Row> {
        rows.filter(|row: Row| row.entry.seq > cursor && self.shows(row, q))
    }
}

/// The entries come in the order of their sequence numbers, none of which comes twice.
pub open spec fn ascending(rows: Seq<Row>) -> bool {
    forall|i: int, j: int| 0 <= i < j < rows.len() ==> (#[trigger] rows[i]).entry.seq < (#[trigger] rows[j]).entry.seq
}

/// What a subscriber is told of an entry.
pub enum Notice<'a> {
    Scroll { seq: i64, scroll: &'a Scroll, excerpt: String },
    Reply { seq: i64, reply: &'a Reply, excerpt: String },
    Vote { seq: i64, vote: &'a Vote },
    Handle { seq: i64, handle: &'a Handle },
    Artifact { seq: i64, artifact: &'a Artifact },
    Reproduction { seq: i64, attestation: &'a Attestation },
}

/// The first characters of a text.
pub open spec fn lead(s: Str) -> Str {
    s.take(if EXCERPT_CHARS < s.len() { EXCERPT_CHARS as int } else { s.len() as int })
}

/// The notice tells of the entry.
pub open spec fn tells_of(n: Notice, row: Row) -> bool {
    match (n, row.record) {
        (Notice::Scroll { seq, scroll, excerpt }, Record::Scroll(s)) => seq == row.entry.seq && *scroll == s && excerpt@ == lead(
            s.body@,
        ),
        (Notice::Reply { seq, reply, excerpt }, Record::Reply(r)) => seq == row.entry.seq && *reply == r && excerpt@ == lead(
            r.body@,
        ),
        (Notice::Vote { seq, vote }, Record::Vote(v)) => seq == row.entry.seq && *vote == v,
        (Notice::Handle { seq, handle }, Record::Handle(h)) => seq == row.entry.seq && *handle == h,
        (Notice::Artifact { seq, artifact }, Record::Artifact(a)) => seq == row.entry.seq && *artifact == a,
        (Notice::Reproduction { seq, attestation }, Record::Attestation(a)) => seq == row.entry.seq && *attestation == a,
        _ => false,
    }
}

impl Directory {
    /// How many replies a thread has.
    pub fn reply_count(&self, thread_id: &str) -> (r: usize)
        ensures
            r == self@.thread(thread_id@).len(),
    {
        self.catalog.replies.count(thread_id)
    }

    /// Whether a thread has settled: its new replies are pushed to nobody, but stay
    /// visible to those who look.
    pub fn thread_settled(&self, thread_id: &str) -> (r: bool)
        ensures
            r == self@.settled(thread_id@),
    {
        let n = self.reply_count(thread_id);
        proof {
            lemma_settles_at_six(n as nat);
        }
        n >= 6
    }

    /// Whether a scroll fits the facets of a subscription.
    pub fn scroll_matches(&self, s: &Scroll, q: &EventQuery) -> (r: bool)
        ensures
            r == bears(*s, q.sigil, q.tome),
    {
        scroll_bears(s, &q.sigil, &q.tome)
    }

    /// The position of a scroll.
    pub fn find_scroll(&self, id: &str) -> (r: Option<usize>)
        ensures
            match r {
                Some(i) => scroll_at(self@.catalog.scrolls, id@) == Some(i as int) && i < self.catalog.scrolls.len(),
                None => scroll_at(self@.catalog.scrolls, id@) is None,
            },
    {
        let ghost all = self@.catalog.scrolls;
        let ghost p = has_id(id@);
        let mut i: usize = 0;
        while i < self.catalog.scrolls.len()
            invariant
                0 <= i <= self.catalog.scrolls.len(),
                all == self.catalog.scrolls@,
                p == has_id(id@),
                forall|j: int| 0 <= j < i ==> !p(#[trigger] all[j]),
            decreases self.catalog.scrolls.len() - i,
        {
            if same(self.catalog.scrolls[i].id.as_str(), id) {
                proof {
                    lemma_first_match_at(all, p, i as int);
                }
                return Some(i);
            }
            i = i + 1;
        }
        proof {
            lemma_first_match_none(all, p);
        }
        None
    }

    /// What a subscriber is told of an entry; nothing where it does not fit the
    /// subscription, or is a reply in a settled thread.
    pub fn event_for<'a>(&self, row: &'a Row, q: &EventQuery) -> (r: Option<Notice<'a>>)
        ensures
            r is Some <==> self@.shows(*row, *q),
            r matches Some(n) ==> tells_of(n, *row),
    {
        if !is_wanted(&q.kind, row.entry.kind.as_str()) {
            return None;
        }
        let has_facet = q.sigil.is_some() || q.tome.is_some();
        let seq = row.entry.seq;
        match (kind_of(row.entry.kind.as_str()), &row.record) {
            (Some(Kind::Scroll), Record::Scroll(s)) => {
                if !is_wanted(&q.thread, s.id.as_str()) || !self.scroll_matches(s, q) {
                    return None;
                }
                Some(Notice::Scroll { seq, scroll: s, excerpt: excerpt(s.body.as_str(), EXCERPT_CHARS) })
            },
            (Some(Kind::Reply), Record::Reply(r)) => {
                if !is_wanted(&q.thread, r.parent.as_str()) {
                    return None;
                }
                if has_facet {
                    match self.find_scroll(r.parent.as_str()) {
                        Some(i) => {
                            if !self.scroll_matches(&self.catalog.scrolls[i], q) {
                                return None;
                            }
                        },
                        None => {
                            return None;
                        },
                    }
                }
                if self.thread_settled(r.parent.as_str()) {
                    return None;
                }
                Some(Notice::Reply { seq, reply: r, excerpt: excerpt(r.body.as_str(), EXCERPT_CHARS) })
            },
            (kind, record) => {
                if q.thread.is_some() || has_facet {
                    return None;
                }
                match (kind, record) {
                    (Some(Kind::Vote), Record::Vote(v)) => Some(Notice::Vote { seq, vote: v }),
                    (Some(Kind::Handle), Record::Handle(h)) => Some(Notice::Handle { seq, handle: h }),
                    (Some(Kind::Artifact), Record::Artifact(a)) => Some(Notice::Artifact { seq, artifact: a }),
                    (Some(Kind::Reproduction), Record::Attestation(a)) => Some(
                        Notice::Reproduction { seq, attestation: a },
                    ),
                    _ => None,
                }
            },
        }
    }

    /// What a subscriber is told of the entries after `cursor`, in ledger order, each
    /// with its sequence number: the cursor to go on from.
    pub fn events_since<'a>(&self, rows: &'a Vec<Row>, cursor: i64, q: &EventQuery) -> (r: Vec<(i64, Notice<'a>)>)
        ensures
            r.len() == self@.pushes(rows@, cursor, *q).len(),
            forall|i: int|
                0 <= i < r.len() ==> (#[trigger] r@[i]).0 == self@.pushes(rows@, cursor, *q)[i].entry.seq && tells_of(
                    r@[i].1,
                    self@.pushes(rows@, cursor, *q)[i],
                ),
            forall|i: int| 0 <= i < r.len() ==> (#[trigger] r@[i]).0 > cursor,
            ascending(rows@) ==> forall|i: int, j: int| 0 <= i < j < r.len() ==> (#[trigger] r@[i]).0 < (#[trigger] r@[j]).0,
    {
        let ghost p = |row: Row| row.entry.seq > cursor && self@.shows(row, *q);
        let mut out: Vec<(i64, Notice<'a>)> = Vec::new();
        let mut i: usize = 0;
        proof {
            lemma_filter_none(rows@, p);
        }
        while i < rows.len()
            invariant
                0 <= i <= rows.len(),
                p == (|row: Row| row.entry.seq > cursor && self@.shows(row, *q)),
                out.len() == rows@.take(i as int).filter(p).len(),
                forall|j: int|
                    0 <= j < out.len() ==> (#[trigger] out@[j]).0 == rows@.take(i as int).filter(p)[j].entry.seq
                        && tells_of(out@[j].1, rows@.take(i as int).filter(p)[j]),
            decreases rows.len() - i,
        {
            proof {
                lemma_filter_step(rows@, p, i as int);
            }
            if rows[i].entry.seq > cursor {
                if let Some(n) = self.event_for(&rows[i], q) {
                    out.push((rows[i].entry.seq, n));
                }
            }
            i = i + 1;
        }
        proof {
            assert(rows@.take(i as int) =~= rows@);
            lemma_filter_holds(rows@, p);
            if ascending(rows@) {
                let seq = |row: Row| row.entry.seq as int;
                assert forall|i: int, j: int| 0 <= i < j < rows@.len() implies seq(#[trigger] rows@[i]) < seq(
                    #[trigger] rows@[j],
                ) by {}
                lemma_filter_ascends(rows@, p, seq);
                assert forall|i: int, j: int| 0 <= i < j < out.len() implies (#[trigger] out@[i]).0 < (#[trigger] out@[j]).0 by {
                    assert(seq(rows@.filter(p)[i]) < seq(rows@.filter(p)[j]));
                }
            }
        }
        out
    }
}

} // verus!
