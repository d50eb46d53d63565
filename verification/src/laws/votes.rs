//! Laws of votes, threads, subscriptions and standings.

use crate::accounts::Registry;
use crate::directory::DirectoryModel;
use crate::events::{ascending, lemma_settles_at_six, settled_after, EventQuery};
use crate::ledger::Row;
use crate::order::{comes_before, lemma_ranking_exists, ranking, RankKey};
use crate::ordmap::{lemma_keys_listed, lemma_sorted_keys, list_at, sorted_keys};
use crate::records::{Reply, Str, Vote};
use crate::seqs::{
    first_match, lemma_filter_ascends, lemma_filter_ext, lemma_filter_holds, lemma_filter_twice, lemma_first_match,
};
use crate::standings::{lemma_face, of_unit};
use crate::text::{lemma_lex_irreflexive, lemma_lex_total, lemma_lex_transitive};
use crate::votes::{latest_votes, later_vote, units_for, Tally};
use vstd::prelude::*;

verus! {

/// A signed vote of the unit.
pub open spec fn vote_of(reg: Registry, votes: Seq<Vote>, i: int, unit: Str) -> bool {
    0 <= i < votes.len() && votes[i].signed && reg.unit_of(votes[i].voter@) == unit
}

proof fn lemma_later_transitive(a: Vote, b: Vote, c: Vote)
    requires
        !later_vote(a, b),
        later_vote(c, b),
    ensures
        !later_vote(a, c),
{
    if later_vote(a, c) {
        if a.created_ts == c.created_ts && c.created_ts == b.created_ts {
            lemma_lex_transitive(b.id@, c.id@, a.id@);
        }
    }
}

/// However often a unit votes, and with however many keys, one vote of it stands: a signed
/// one of its own that none of its signed votes is later than. Every unit that voted has
/// one.
pub proof fn law_latest_vote_stands(reg: Registry, votes: Seq<Vote>, unit: Str)
    ensures
        latest_votes(reg, votes).contains_key(unit) <==> exists|i: int| vote_of(reg, votes, i, unit),
        latest_votes(reg, votes).contains_key(unit) ==> {
            let v = latest_votes(reg, votes)[unit];
            &&& exists|i: int| vote_of(reg, votes, i, unit) && #[trigger] votes[i] == v
            &&& forall|j: int| vote_of(reg, votes, j, unit) ==> !later_vote(#[trigger] votes[j], v)
        },
    decreases votes.len(),
{
    if votes.len() > 0 {
        let t = votes.drop_last();
        let n = votes.len() - 1;
        law_latest_vote_stands(reg, t, unit);
        let m = latest_votes(reg, t);
        let w = latest_votes(reg, votes);
        let v = votes.last();
        let u = reg.unit_of(v.voter@);
        assert forall|i: int| 0 <= i < n implies #[trigger] t[i] == votes[i] by {}
        assert forall|i: int| 0 <= i < n implies vote_of(reg, t, i, unit) == vote_of(reg, votes, i, unit) by {
            assert(t[i] == votes[i]);
        }
        if m.contains_key(unit) {
            let i = choose|i: int| vote_of(reg, t, i, unit) && #[trigger] t[i] == m[unit];
            assert(vote_of(reg, votes, i, unit));
            assert(votes[i] == m[unit]);
        }
        if w.contains_key(unit) {
            if unit == u && v.signed {
                assert(vote_of(reg, votes, n, unit));
                lemma_lex_irreflexive(v.id@);
            }
            assert forall|j: int| vote_of(reg, votes, j, unit) implies !later_vote(#[trigger] votes[j], w[unit]) by {
                if j < n {
                    assert(vote_of(reg, t, j, unit));
                    assert(t[j] == votes[j]);
                    assert(!later_vote(t[j], m[unit]));
                    if w[unit] != m[unit] {
                        lemma_later_transitive(votes[j], m[unit], v);
                    }
                }
            }
        }
        if exists|i: int| vote_of(reg, votes, i, unit) {
            let i = choose|i: int| vote_of(reg, votes, i, unit);
            if i < n {
                assert(vote_of(reg, t, i, unit));
            }
        }
    }
}

/// An unsigned vote changes no tally.
pub proof fn law_unsigned_votes_do_not_count(reg: Registry, votes: Seq<Vote>, v: Vote)
    requires
        !v.signed,
    ensures
        latest_votes(reg, votes.push(v)) == latest_votes(reg, votes),
{
    assert(votes.push(v).drop_last() =~= votes);
}

pub proof fn lemma_latest_votes_finite(reg: Registry, votes: Seq<Vote>)
    ensures
        latest_votes(reg, votes).dom().finite(),
    decreases votes.len(),
{
    if votes.len() > 0 {
        lemma_latest_votes_finite(reg, votes.drop_last());
        let m = latest_votes(reg, votes.drop_last());
        let v = votes.last();
        let u = reg.unit_of(v.voter@);
        assert(m.insert(u, v).dom() =~= m.dom().insert(u));
    }
}

/// Each unit is counted at most once, for or against; one whose latest vote is 0 is
/// counted for neither.
pub proof fn law_one_vote_per_unit(reg: Registry, votes: Seq<Vote>, unit: Str)
    ensures
        ({
            let m = latest_votes(reg, votes);
            &&& units_for(m, 1).len() + units_for(m, -1).len() <= m.dom().len()
            &&& m.contains_key(unit) && m[unit].value == 0 ==> !units_for(m, 1).contains(unit) && !units_for(m, -1).contains(
                unit,
            )
        }),
{
    let m = latest_votes(reg, votes);
    lemma_latest_votes_finite(reg, votes);
    let keys = sorted_keys(m.dom());
    lemma_keys_listed(m.dom());
    lemma_sorted_keys(keys, m.dom());
    let p = |u: Str| m[u].value == 1int;
    let q = |u: Str| m[u].value == -1int;
    lemma_disjoint_filters(keys, p, q);
    lemma_filter_holds(keys, p);
    lemma_filter_holds(keys, q);
    assert(units_for(m, 1) == keys.filter(p));
    assert(units_for(m, -1) == keys.filter(q));
}

proof fn lemma_disjoint_filters<T>(s: Seq<T>, p: spec_fn(T) -> bool, q: spec_fn(T) -> bool)
    requires
        forall|x: T| !(#[trigger] p(x) && q(x)),
    ensures
        s.filter(p).len() + s.filter(q).len() <= s.len(),
    decreases s.len(),
{
    reveal(Seq::filter);
    if s.len() > 0 {
        lemma_disjoint_filters(s.drop_last(), p, q);
    }
}

/// A thread that settled stays settled as it grows.
pub proof fn law_settled_stays_settled(before: Seq<Reply>, after: Seq<Reply>)
    requires
        before.is_prefix_of(after),
        settled_after(before.len()),
    ensures
        settled_after(after.len()),
{
    lemma_settles_at_six(before.len());
    lemma_settles_at_six(after.len());
}

/// Nobody is told of a reply in a settled thread, whatever they subscribed to.
pub proof fn law_settled_threads_are_silent(d: DirectoryModel, row: Row, q: EventQuery)
    requires
        row.record is Reply,
        d.settled(row.record->Reply_0.parent@),
    ensures
        !d.shows(row, q),
{
}

/// The storm on any thread ends: it is pushed no further from its sixth reply on.
pub proof fn law_threads_settle(d: DirectoryModel, id: Str)
    ensures
        d.settled(id) <==> d.thread(id).len() >= 6,
{
    lemma_settles_at_six(d.thread(id).len());
}

/// The entries between two cursors that the subscriber is told of.
pub open spec fn pushes_between(d: DirectoryModel, rows: Seq<Row>, from: i64, to: i64, q: EventQuery) -> Seq<Row> {
    rows.filter(|row: Row| from < row.entry.seq <= to && d.shows(row, q))
}

/// A dropped stream resumes without loss: what follows a later cursor is what follows an
/// earlier one and lies beyond the later, in whatever order the entries come.
pub proof fn law_streams_resume(d: DirectoryModel, rows: Seq<Row>, from: i64, to: i64, q: EventQuery)
    requires
        from <= to,
    ensures
        d.pushes(rows, to, q) == d.pushes(rows, from, q).filter(|row: Row| row.entry.seq > to),
        pushes_between(d, rows, from, to, q) == d.pushes(rows, from, q).filter(|row: Row| row.entry.seq <= to),
{
    let after = |row: Row| row.entry.seq > from && d.shows(row, q);
    let beyond = |row: Row| row.entry.seq > to;
    let upto = |row: Row| row.entry.seq <= to;
    lemma_filter_twice(rows, after, beyond, |row: Row| row.entry.seq > to && d.shows(row, q));
    lemma_filter_twice(rows, after, upto, |row: Row| from < row.entry.seq <= to && d.shows(row, q));
}

/// A stream only moves on: it tells of nothing up to its cursor, and in a ledger whose
/// entries are in order each entry it tells of comes after the last.
pub proof fn law_streams_move_on(d: DirectoryModel, rows: Seq<Row>, cursor: i64, q: EventQuery)
    ensures
        forall|i: int|
            0 <= i < d.pushes(rows, cursor, q).len() ==> (#[trigger] d.pushes(rows, cursor, q)[i]).entry.seq > cursor,
        ascending(rows) ==> ascending(d.pushes(rows, cursor, q)),
{
    let p = |row: Row| row.entry.seq > cursor && d.shows(row, q);
    lemma_filter_holds(rows, p);
    if ascending(rows) {
        let seq = |row: Row| row.entry.seq as int;
        assert forall|i: int, j: int| 0 <= i < j < rows.len() implies seq(#[trigger] rows[i]) < seq(#[trigger] rows[j]) by {}
        lemma_filter_ascends(rows, p, seq);
        let pushed = d.pushes(rows, cursor, q);
        assert forall|i: int, j: int| 0 <= i < j < pushed.len() implies (#[trigger] pushed[i]).entry.seq < (
        #[trigger] pushed[j]).entry.seq by {
            assert(seq(rows.filter(p)[i]) < seq(rows.filter(p)[j]));
        }
    }
}

/// In a ledger whose entries are in order, what follows a cursor is what follows it up to
/// any later entry, and then what follows that entry.
pub proof fn law_streams_continue(d: DirectoryModel, rows: Seq<Row>, from: i64, to: i64, q: EventQuery)
    requires
        from <= to,
        ascending(rows),
    ensures
        d.pushes(rows, from, q) == pushes_between(d, rows, from, to, q) + d.pushes(rows, to, q),
    decreases rows.len(),
{
    reveal(Seq::filter);
    let a = d.pushes(rows, from, q);
    let b = pushes_between(d, rows, from, to, q);
    let c = d.pushes(rows, to, q);
    if rows.len() > 0 {
        let t = rows.drop_last();
        let x = rows.last();
        assert forall|i: int, j: int| 0 <= i < j < t.len() implies (#[trigger] t[i]).entry.seq < (#[trigger] t[j]).entry.seq by {
            assert(t[i] == rows[i] && t[j] == rows[j]);
        }
        law_streams_continue(d, t, from, to, q);
        if x.entry.seq <= to {
            let p = |row: Row| row.entry.seq > to && d.shows(row, q);
            lemma_filter_holds(t, p);
            if t.filter(p).len() > 0 {
                let k = choose|k: int| 0 <= k < t.len() && t[k] == t.filter(p)[0];
                assert(p(t.filter(p)[0]) && t.contains(t.filter(p)[0]));
                assert(rows[k].entry.seq < rows[rows.len() - 1].entry.seq);
            }
            assert(d.pushes(t, to, q) =~= Seq::<Row>::empty());
        }
    }
    assert(a =~= b + c);
}

/// No unit has two signed votes of one time and one id with different values.
pub open spec fn votes_agree(reg: Registry, votes: Seq<Vote>) -> bool {
    forall|i: int, j: int|
        0 <= i < votes.len() && 0 <= j < votes.len() && (#[trigger] votes[i]).signed && (#[trigger] votes[j]).signed && reg.unit_of(
            votes[i].voter@,
        ) == reg.unit_of(votes[j].voter@) && votes[i].created_ts == votes[j].created_ts && votes[i].id@ == votes[j].id@
            ==> votes[i].value == votes[j].value
}

/// The tally does not depend on the order in which the votes were stored, nor on how often.
pub proof fn law_tally_ignores_order(d: DirectoryModel, e: DirectoryModel, target: Str)
    requires
        d.accounts == e.accounts,
        forall|v: Vote|
            #[trigger] list_at(d.catalog.votes, target).contains(v) <==> list_at(e.catalog.votes, target).contains(v),
        votes_agree(d.accounts, list_at(d.catalog.votes, target)),
    ensures
        d.standing_votes(target).dom() == e.standing_votes(target).dom(),
        forall|u: Str| #[trigger]
            d.standing_votes(target).contains_key(u) ==> d.standing_votes(target)[u].value == e.standing_votes(
                target,
            )[u].value,
        d.tally(target) == e.tally(target),
{
    let reg = d.accounts;
    let a = list_at(d.catalog.votes, target);
    let b = list_at(e.catalog.votes, target);
    let x = d.standing_votes(target);
    let y = e.standing_votes(target);
    assert forall|u: Str| #[trigger] x.contains_key(u) == y.contains_key(u) && (x.contains_key(u) ==> x[u].value
        == y[u].value) by {
        law_latest_vote_stands(reg, a, u);
        law_latest_vote_stands(reg, b, u);
        if x.contains_key(u) {
            let i = choose|i: int| vote_of(reg, a, i, u) && #[trigger] a[i] == x[u];
            assert(a.contains(a[i]));
            assert(b.contains(a[i]));
            let j = choose|j: int| 0 <= j < b.len() && b[j] == a[i];
            assert(vote_of(reg, b, j, u));
        }
        if y.contains_key(u) {
            let i = choose|i: int| vote_of(reg, b, i, u) && #[trigger] b[i] == y[u];
            assert(b.contains(b[i]));
            assert(a.contains(b[i]));
            let j = choose|j: int| 0 <= j < a.len() && a[j] == b[i];
            assert(vote_of(reg, a, j, u));
        }
        if x.contains_key(u) && y.contains_key(u) {
            let i = choose|i: int| vote_of(reg, a, i, u) && #[trigger] a[i] == x[u];
            let k = choose|k: int| vote_of(reg, b, k, u) && #[trigger] b[k] == y[u];
            assert(a.contains(a[i]) && b.contains(b[k]));
            assert(b.contains(a[i]) && a.contains(b[k]));
            let m = choose|m: int| 0 <= m < b.len() && b[m] == a[i];
            let n = choose|n: int| 0 <= n < a.len() && a[n] == b[k];
            assert(vote_of(reg, b, m, u));
            assert(vote_of(reg, a, n, u));
            assert(!later_vote(b[m], y[u]));
            assert(!later_vote(a[n], x[u]));
            lemma_lex_total(x[u].id@, y[u].id@);
            assert(a[i].value == a[n].value);
        }
    }
    assert(x.dom() =~= y.dom()) by {
        assert forall|u: Str| x.dom().contains(u) == y.dom().contains(u) by {
            assert(x.contains_key(u) == y.contains_key(u));
        }
    }
    lemma_latest_votes_finite(reg, a);
    lemma_keys_listed(x.dom());
    let keys = sorted_keys(x.dom());
    assert forall|value: int| units_for(x, value) == #[trigger] units_for(y, value) by {
        let p = |u: Str| x[u].value == value;
        let q = |u: Str| y[u].value == value;
        assert forall|i: int| 0 <= i < keys.len() implies p(#[trigger] keys[i]) == q(keys[i]) by {
            assert(keys.contains(keys[i]));
            assert(x.dom().contains(keys[i]));
            assert(x.contains_key(keys[i]));
        }
        lemma_filter_ext(keys, p, q);
    }
    assert(units_for(x, 1) == units_for(y, 1));
    assert(units_for(x, -1) == units_for(y, -1));
}

/// What nobody voted on has a tally of nothing.
pub proof fn law_unvoted_has_no_tally(d: DirectoryModel, target: Str)
    requires
        list_at(d.catalog.votes, target).len() == 0,
    ensures
        d.tally(target) == (Tally { up: 0, down: 0, score: 0 }),
{
    let m = d.standing_votes(target);
    assert(m.dom() =~= Set::empty());
    lemma_keys_listed(m.dom());
    let keys = sorted_keys(m.dom());
    if keys.len() > 0 {
        assert(keys.contains(keys[0]));
        assert(m.dom().contains(keys[0]));
    }
    lemma_filter_holds(keys, |u: Str| m[u].value == 1int);
    lemma_filter_holds(keys, |u: Str| m[u].value == -1int);
    assert(units_for(m, 1).len() == 0 && units_for(m, -1).len() == 0);
}

/// The key that stands for a unit on the leaderboard is one of the unit's own, with a
/// claimed name where one of them has one.
pub proof fn law_faces_are_their_own(d: DirectoryModel, keys: Seq<Str>, unit: Str)
    requires
        exists|i: int| 0 <= i < keys.len() && d.unit(#[trigger] keys[i]) == unit,
    ensures
        keys.contains(d.face(keys, unit)),
        d.unit(d.face(keys, unit)) == unit,
        d.catalog.name_of.contains_key(d.face(keys, unit)) || forall|i: int|
            0 <= i < keys.len() && d.unit(#[trigger] keys[i]) == unit ==> !d.catalog.name_of.contains_key(keys[i]),
{
    let p = of_unit(d, unit);
    lemma_first_match(keys, p);
    let w = choose|i: int| 0 <= i < keys.len() && d.unit(#[trigger] keys[i]) == unit;
    assert(p(keys[w]));
    lemma_face(d, keys, unit);
}

/// The leaderboard has one row for each unit.
pub proof fn law_one_row_per_unit(d: DirectoryModel, reputations: Map<Str, i64>, now: i64)
    ensures
        d.leaders(reputations, now).no_duplicates(),
{
    let all = sorted_keys(d.contenders(reputations));
    let named = all.map_values(|pk: Str| d.unit(pk));
    vstd::seq_lib::seq_to_set_is_finite(named);
    lemma_keys_listed(d.units_of(all));
    let units = d.ranked(reputations);
    let keys = units.map_values(
        |u: Str|
            RankKey { first: d.unit_score(reputations, u) as i128, second: d.balance(u, now), third: 0 },
    );
    lemma_ranking_exists(keys);
    let p = ranking(keys);
    let rows = d.leaders(reputations, now);
    assert forall|i: int, j: int| 0 <= i < rows.len() && 0 <= j < rows.len() && i != j implies rows[i] != rows[j] by {
        assert(0 <= p[i] < keys.len() && 0 <= p[j] < keys.len());
        assert(rows[i] == units[p[i]] && rows[j] == units[p[j]]);
        if i < j {
            assert(comes_before(keys, p[i], p[j]));
        } else {
            assert(comes_before(keys, p[j], p[i]));
        }
        assert(p[i] != p[j]);
        if units[p[i]] == units[p[j]] {
            lemma_lex_irreflexive(units[p[i]]);
        }
    }
}

/// A unit is ranked by its own score, whichever of its keys contributed: where every key
/// has what its unit is scored, so has the row.
pub proof fn law_rows_have_the_units_score(
    d: DirectoryModel,
    scores: Map<Str, i64>,
    reputations: Map<Str, i64>,
    pubkey: Str,
)
    requires
        reputations.dom().finite(),
        forall|pk: Str| #[trigger] reputations.contains_key(pk) ==> reputations[pk] == scores[d.unit(pk)],
        reputations.contains_key(pubkey),
    ensures
        d.unit_score(reputations, d.unit(pubkey)) == scores[d.unit(pubkey)],
{
    let keys = sorted_keys(reputations.dom());
    lemma_keys_listed(reputations.dom());
    let p = of_unit(d, d.unit(pubkey));
    lemma_first_match(keys, p);
    assert(reputations.dom().contains(pubkey));
    let w = choose|w: int| 0 <= w < keys.len() && keys[w] == pubkey;
    assert(p(keys[w]));
    let i = first_match(keys, p)->Some_0;
    assert(keys.contains(keys[i]));
    assert(reputations.dom().contains(keys[i]));
    assert(reputations.contains_key(keys[i]));
}

} // verus!
