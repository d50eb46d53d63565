//! Laws of the event stream: whom it tells of what.

use crate::directory::DirectoryModel;
use crate::events::{has_id, lemma_settles_at_six, scroll_at, tells_of, EventQuery, Notice};
use crate::laws::catalog::sound_scrolls;
use crate::laws::lists::{lemma_filter_places, picked_in_order};
use crate::ledger::Row;
use crate::ordmap::list_at;
use crate::records::{kind_named, Kind, Record, Reply, Scroll, Str};
use crate::seqs::lemma_first_match;
use crate::text::texts;
use vstd::prelude::*;

verus! {

/// The scroll has the sigil `g`.
pub open spec fn has_sigil(s: Scroll, g: Str) -> bool {
    exists|j: int| 0 <= j < s.sigils@.len() && (#[trigger] s.sigils@[j])@ == g
}

/// The scroll is of the tome `t`.
pub open spec fn in_tome(s: Scroll, t: Str) -> bool {
    match s.tome {
        Some(x) => x@ == t,
        None => false,
    }
}

/// The scroll has what the subscription asks for of a scroll.
pub open spec fn fits(s: Scroll, sigil: Option<String>, tome: Option<String>) -> bool {
    (match sigil {
        Some(g) => has_sigil(s, g@),
        None => true,
    }) && (match tome {
        Some(t) => in_tome(s, t@),
        None => true,
    })
}

/// Where a sigil or a tome is asked for, a scroll fits only with it; where none is, always.
pub proof fn law_facets(s: Scroll, sigil: Option<String>, tome: Option<String>)
    ensures
        crate::events::bears(s, sigil, tome) <==> fits(s, sigil, tome),
{
    if let Some(g) = sigil {
        let all = texts(s.sigils@);
        if all.contains(g@) {
            let j = choose|j: int| 0 <= j < all.len() && all[j] == g@;
            assert(s.sigils@[j]@ == g@);
        }
        if has_sigil(s, g@) {
            let j = choose|j: int| 0 <= j < s.sigils@.len() && (#[trigger] s.sigils@[j])@ == g@;
            assert(all[j] == g@);
        }
    }
}

/// The subscription asks for this kind of entry, or for any.
pub open spec fn kind_asked(row: Row, q: EventQuery) -> bool {
    match q.kind {
        Some(k) => k@ == row.entry.kind@,
        None => true,
    }
}

/// The entry is what it says: an entry of the kind `k`.
pub open spec fn is_entry_of(row: Row, k: Kind) -> bool {
    kind_named(row.entry.kind@) == Some(k)
}

/// A subscriber is told of a scroll that has what they ask for: its kind, its thread, its
/// sigil and its tome; and of no other.
pub proof fn law_told_of_scrolls(d: DirectoryModel, row: Row, q: EventQuery)
    requires
        is_entry_of(row, Kind::Scroll),
        row.record is Scroll,
    ensures
        d.shows(row, q) <==> {
            let s = row.record->Scroll_0;
            &&& kind_asked(row, q)
            &&& q.thread matches Some(t) ==> t@ == s.id@
            &&& fits(s, q.sigil, q.tome)
        },
{
    law_facets(row.record->Scroll_0, q.sigil, q.tome);
}

/// A subscriber is told of a reply while its thread has fewer than six: of one under the
/// thread they ask for, and, where they ask for a sigil or a tome, only if the first scroll
/// with its parent's id has them; and of no other.
pub proof fn law_told_of_replies(d: DirectoryModel, row: Row, q: EventQuery)
    requires
        is_entry_of(row, Kind::Reply),
        row.record is Reply,
    ensures
        d.shows(row, q) <==> {
            let r = row.record->Reply_0;
            &&& kind_asked(row, q)
            &&& q.thread matches Some(t) ==> t@ == r.parent@
            &&& q.sigil is None && q.tome is None || exists|i: int|
                0 <= i < d.catalog.scrolls.len() && (#[trigger] d.catalog.scrolls[i]).id@ == r.parent@ && fits(
                    d.catalog.scrolls[i],
                    q.sigil,
                    q.tome,
                ) && forall|j: int| 0 <= j < i ==> (#[trigger] d.catalog.scrolls[j]).id@ != r.parent@
            &&& list_at(d.catalog.replies, r.parent@).len() < 6
        },
{
    let r = row.record->Reply_0;
    let all = d.catalog.scrolls;
    let p = has_id(r.parent@);
    lemma_settles_at_six(list_at(d.catalog.replies, r.parent@).len());
    lemma_first_match(all, p);
    match scroll_at(all, r.parent@) {
        Some(i) => {
            law_facets(all[i], q.sigil, q.tome);
            assert(p(all[i]));
            assert forall|j: int| 0 <= j < i implies (#[trigger] all[j]).id@ != r.parent@ by {
                assert(!p(all[j]));
            }
            if exists|k: int|
                0 <= k < all.len() && (#[trigger] all[k]).id@ == r.parent@ && fits(all[k], q.sigil, q.tome) && forall|j: int|
                    0 <= j < k ==> (#[trigger] all[j]).id@ != r.parent@ {
                let k = choose|k: int|
                    0 <= k < all.len() && (#[trigger] all[k]).id@ == r.parent@ && fits(all[k], q.sigil, q.tome) && forall|j: int|
                        0 <= j < k ==> (#[trigger] all[j]).id@ != r.parent@;
                if i < k {
                    assert(all[i].id@ != r.parent@);
                }
                if k < i {
                    assert(!p(all[k]));
                }
                assert(i == k);
            }
        },
        None => {
            assert forall|j: int| 0 <= j < all.len() implies (#[trigger] all[j]).id@ != r.parent@ by {
                assert(!p(all[j]));
            }
        },
    }
}

/// Who asks for a tome is told of a reply only under a scroll of that tome, and likewise for
/// a sigil; and of every reply under such a scroll, until the thread has settled.
pub proof fn law_replies_follow_their_scroll(d: DirectoryModel, row: Row, q: EventQuery, i: int)
    requires
        is_entry_of(row, Kind::Reply),
        row.record is Reply,
        sound_scrolls(d.catalog.scrolls),
        0 <= i < d.catalog.scrolls.len(),
        d.catalog.scrolls[i].id@ == row.record->Reply_0.parent@,
    ensures
        d.shows(row, q) ==> fits(d.catalog.scrolls[i], q.sigil, q.tome),
        q.kind is None && q.thread is None && fits(d.catalog.scrolls[i], q.sigil, q.tome) && list_at(
            d.catalog.replies,
            row.record->Reply_0.parent@,
        ).len() < 6 ==> d.shows(row, q),
{
    law_told_of_replies(d, row, q);
    let r = row.record->Reply_0;
    let all = d.catalog.scrolls;
    assert forall|j: int| 0 <= j < i implies (#[trigger] all[j]).id@ != r.parent@ by {
        assert(all[j].id@ != all[i].id@);
    }
    if d.shows(row, q) && !(q.sigil is None && q.tome is None) {
        let k = choose|k: int|
            0 <= k < all.len() && (#[trigger] all[k]).id@ == r.parent@ && fits(all[k], q.sigil, q.tome) && forall|j: int|
                0 <= j < k ==> (#[trigger] all[j]).id@ != r.parent@;
        if k < i {
            assert(all[k].id@ != all[i].id@);
        }
        if i < k {
            assert(all[i].id@ != all[k].id@);
        }
    }
}

/// Of votes, names, artifacts and verdicts on artifacts a subscriber is told who asks for no
/// thread, sigil or tome; of all other entries nobody is.
pub proof fn law_told_of_the_rest(d: DirectoryModel, row: Row, q: EventQuery)
    requires
        !(is_entry_of(row, Kind::Scroll) && row.record is Scroll),
        !(is_entry_of(row, Kind::Reply) && row.record is Reply),
    ensures
        d.shows(row, q) <==> {
            &&& kind_asked(row, q)
            &&& q.thread is None && q.sigil is None && q.tome is None
            &&& {
                ||| is_entry_of(row, Kind::Vote) && row.record is Vote
                ||| is_entry_of(row, Kind::Handle) && row.record is Handle
                ||| is_entry_of(row, Kind::Artifact) && row.record is Artifact
                ||| is_entry_of(row, Kind::Reproduction) && row.record is Attestation
            }
        },
{
}

/// What a subscriber is told is the entry's number and its record, and of a text the first
/// 140 characters, or all where it has no more.
pub proof fn law_notices_tell_the_entry(n: Notice, row: Row)
    requires
        tells_of(n, row),
    ensures
        match n {
            Notice::Scroll { seq, scroll, excerpt } => {
                &&& row.record == Record::Scroll(*scroll)
                &&& seq == row.entry.seq
                &&& excerpt@.is_prefix_of(scroll.body@)
                &&& excerpt@.len() == if scroll.body@.len() < 140 {
                    scroll.body@.len()
                } else {
                    140
                }
            },
            Notice::Reply { seq, reply, excerpt } => {
                &&& row.record == Record::Reply(*reply)
                &&& seq == row.entry.seq
                &&& excerpt@.is_prefix_of(reply.body@)
                &&& excerpt@.len() == if reply.body@.len() < 140 {
                    reply.body@.len()
                } else {
                    140
                }
            },
            Notice::Vote { seq, vote } => row.record == Record::Vote(*vote) && seq == row.entry.seq,
            Notice::Handle { seq, handle } => row.record == Record::Handle(*handle) && seq == row.entry.seq,
            Notice::Artifact { seq, artifact } => row.record == Record::Artifact(*artifact) && seq == row.entry.seq,
            Notice::Reproduction { seq, attestation } => row.record == Record::Attestation(*attestation) && seq
                == row.entry.seq,
        },
{
}

/// A stream leaves nothing out and puts nothing in: it tells of just those entries after the
/// cursor that the subscriber is to be told of, in ledger order.
pub proof fn law_streams_are_complete(d: DirectoryModel, rows: Seq<Row>, cursor: i64, q: EventQuery) -> (at: Seq<int>)
    ensures
        picked_in_order(rows, d.pushes(rows, cursor, q), at),
        forall|k: int|
            0 <= k < rows.len() ==> (at.contains(k) <==> (#[trigger] rows[k]).entry.seq > cursor && d.shows(rows[k], q)),
{
    let p = |row: Row| row.entry.seq > cursor && d.shows(row, q);
    let at = lemma_filter_places(rows, p);
    assert forall|k: int| 0 <= k < rows.len() implies (at.contains(k) <==> (#[trigger] rows[k]).entry.seq > cursor && d.shows(
        rows[k],
        q,
    )) by {
        if at.contains(k) {
            let i = choose|i: int| 0 <= i < at.len() && at[i] == k;
            assert(p(rows[at[i]]));
        }
        if p(rows[k]) {
            assert(at.contains(k));
        }
    }
    at
}

} // verus!
