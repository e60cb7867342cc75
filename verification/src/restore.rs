//! Rebuilding the bookkeeping from its tables when the agent starts.
//!
//! The rows of the bookkeeping table give the applied and cleared versions;
//! where rows overlap, a later row wins. The rows of the table of buffered
//! sequence numbers give the buffered versions: all rows of one version of
//! one actor together make its set of sequence numbers, and the last of them
//! gives its last sequence number and clock reading. A buffered version wins
//! over what the bookkeeping table says of it. Versions found fully buffered
//! are handed out to be queued for promotion.

use crate::booked::{
    inserted, lemma_range_found, lemma_stretch_wf, range_index, ranges_cover, ranges_view,
    ranges_wf, BookedRange,
};
use crate::compact::rows_of;
use crate::bookie::{versions_of, Bookie};
use crate::known::{ActorId, Known, KnownDbVersion, Timestamp};
use crate::rows::{BookkeepingRow, SeqBookkeepingRow};
use crate::seqs::{seq_values, seqs_clone, seqs_insert, seqs_new, span};
use vstd::prelude::*;

verus! {

/// Whether the store's own site id has to be overwritten with the agent's
/// actor id: it has whenever the two differ, a store without a site id
/// counting as having the nil id.
pub fn site_id_differs(stored: Option<ActorId>, actor_id: ActorId) -> (b: bool)
    ensures
        b == (match stored {
            Some(id) => id,
            None => ActorId(0),
        } != actor_id),
{
    let have = match stored {
        Some(id) => id,
        None => ActorId(0),
    };
    have != actor_id
}

/// Whether a row of the bookkeeping table can be taken in: its versions do
/// not end before they start, and a row with a `db_version` speaks of one
/// version and has a last sequence number and a clock reading.
pub open spec fn row_ok(r: BookkeepingRow) -> bool {
    &&& r.spec_versions().0 <= r.spec_versions().1
    &&& r.db_version is Some ==> r.spec_versions().0 == r.spec_versions().1 && r.last_seq is Some
        && r.ts is Some
}

/// The state that an acceptable row gives its versions: applied where it has
/// a `db_version`, cleared where it has none.
pub open spec fn row_state(r: BookkeepingRow) -> Known {
    match r.db_version {
        Some(db_version) => Known::Current {
            db_version,
            last_seq: r.last_seq->0,
            ts: r.ts->0,
        },
        None => Known::Cleared,
    }
}

/// What the rows of the bookkeeping table say of version `v` of `actor`:
/// what the last row that holds the version says.
pub open spec fn state_from_rows(rows: Seq<BookkeepingRow>, actor: ActorId, v: int) -> Option<Known>
    decreases rows.len(),
{
    if rows.len() == 0 {
        None
    } else {
        let r = rows.last();
        if r.actor_id == actor && r.spec_versions().0 <= v <= r.spec_versions().1 {
            Some(row_state(r))
        } else {
            state_from_rows(rows.drop_last(), actor, v)
        }
    }
}

/// Whether a row of the table of buffered sequence numbers can be taken in:
/// its run does not end before it starts.
pub open spec fn seq_row_ok(r: SeqBookkeepingRow) -> bool {
    r.start_seq <= r.end_seq
}

/// The sequence numbers that the rows give version `v` of `actor`.
pub open spec fn group_seqs(rows: Seq<SeqBookkeepingRow>, actor: ActorId, v: int) -> Set<int> {
    Set::new(
        |x: int|
            exists|i: int|
                0 <= i < rows.len() && (#[trigger] rows[i]).site_id == actor && rows[i].version
                    == v && rows[i].start_seq <= x <= rows[i].end_seq,
    )
}

/// The last sequence number and clock reading that the rows give version `v`
/// of `actor`: those of the last row for it, if there is a row for it.
pub open spec fn group_last(rows: Seq<SeqBookkeepingRow>, actor: ActorId, v: int) -> Option<
    (i64, Timestamp),
>
    decreases rows.len(),
{
    if rows.len() == 0 {
        None
    } else {
        let r = rows.last();
        if r.site_id == actor && r.version == v {
            Some((r.last_seq, r.ts))
        } else {
            group_last(rows.drop_last(), actor, v)
        }
    }
}

/// What the two tables together say of version `v` of `actor`.
pub open spec fn restored_state(
    rows: Seq<BookkeepingRow>,
    seq_rows: Seq<SeqBookkeepingRow>,
    actor: ActorId,
    v: int,
) -> Option<Known> {
    match group_last(seq_rows, actor, v) {
        Some(p) => Some(
            Known::Partial { seqs: group_seqs(seq_rows, actor, v), last_seq: p.0, ts: p.1 },
        ),
        None => state_from_rows(rows, actor, v),
    }
}

/// Whether some row of either table is for `actor`.
pub open spec fn actor_in_rows(
    rows: Seq<BookkeepingRow>,
    seq_rows: Seq<SeqBookkeepingRow>,
    actor: ActorId,
) -> bool {
    ||| exists|i: int| 0 <= i < rows.len() && (#[trigger] rows[i]).actor_id == actor
    ||| exists|i: int| 0 <= i < seq_rows.len() && (#[trigger] seq_rows[i]).site_id == actor
}

/// The bookkeeping that the two tables hold.
pub open spec fn restored(rows: Seq<BookkeepingRow>, seq_rows: Seq<SeqBookkeepingRow>) -> Map<
    ActorId,
    Map<int, Known>,
> {
    Map::new(
        |a: ActorId| actor_in_rows(rows, seq_rows, a),
        |a: ActorId|
            Map::new(
                |v: int| restored_state(rows, seq_rows, a, v) is Some,
                |v: int| restored_state(rows, seq_rows, a, v)->0,
            ),
    )
}

/// Why the bookkeeping could not be rebuilt.
#[derive(Clone, Copy, Debug, PartialEq, Eq, Structural)]
pub enum RestoreError {
    /// The row at this position of the bookkeeping table cannot be taken in.
    Bookkeeping(usize),
    /// The row at this position of the table of buffered sequence numbers
    /// cannot be taken in.
    SeqBookkeeping(usize),
}

/// The bookkeeping rebuilt, and the versions to queue for promotion.
#[derive(Debug, PartialEq, Eq)]
pub struct Restored {
    pub bookie: Bookie,
    pub to_apply: Vec<(ActorId, i64)>,
}

/// Takes one row of the bookkeeping table into the bookkeeping.
fn take_row(bookie: &mut Bookie, r: &BookkeepingRow) -> (ok: bool)
    requires
        old(bookie).wf(),
    ensures
        final(bookie).wf(),
        ok == row_ok(*r),
        ok ==> final(bookie)@ == old(bookie)@.insert(
            r.actor_id,
            inserted(versions_of(old(bookie)@, r.actor_id), r.spec_versions(), row_state(*r)),
        ),
        !ok ==> final(bookie)@ == old(bookie)@,
{
    let versions = r.versions();
    if versions.0 > versions.1 {
        return false;
    }
    match r.db_version {
        Some(db_version) => {
            if versions.0 != versions.1 {
                return false;
            }
            match (r.last_seq, r.ts) {
                (Some(last_seq), Some(ts)) => {
                    bookie.insert_many(
                        r.actor_id,
                        versions,
                        KnownDbVersion::Current { db_version, last_seq, ts },
                    );
                    true
                },
                _ => false,
            }
        },
        None => {
            bookie.insert_many(r.actor_id, versions, KnownDbVersion::Cleared);
            true
        },
    }
}

/// The rows of the bookkeeping table say something of a version of an actor
/// only if one of them is for that actor.
proof fn lemma_state_needs_row(rows: Seq<BookkeepingRow>, actor: ActorId, v: int)
    requires
        state_from_rows(rows, actor, v) is Some,
    ensures
        exists|i: int| 0 <= i < rows.len() && (#[trigger] rows[i]).actor_id == actor,
    decreases rows.len(),
{
    if rows.last().actor_id == actor {
        assert(rows[rows.len() - 1].actor_id == actor);
    } else {
        lemma_state_needs_row(rows.drop_last(), actor, v);
        let i = choose|i: int|
            0 <= i < rows.drop_last().len() && (#[trigger] rows.drop_last()[i]).actor_id == actor;
        assert(rows[i].actor_id == actor);
    }
}

/// The rows of buffered sequence numbers give a version of an actor a last
/// sequence number only if one of them is for that actor.
proof fn lemma_group_needs_row(rows: Seq<SeqBookkeepingRow>, actor: ActorId, v: int)
    requires
        group_last(rows, actor, v) is Some,
    ensures
        exists|i: int|
            0 <= i < rows.len() && (#[trigger] rows[i]).site_id == actor && rows[i].version == v,
    decreases rows.len(),
{
    if rows.last().site_id == actor && rows.last().version == v {
        assert(rows[rows.len() - 1].site_id == actor);
    } else {
        lemma_group_needs_row(rows.drop_last(), actor, v);
        let i = choose|i: int|
            0 <= i < rows.drop_last().len() && (#[trigger] rows.drop_last()[i]).site_id == actor
                && rows.drop_last()[i].version == v;
        assert(rows[i].site_id == actor);
    }
}

/// Of an actor that no row is for, the tables say nothing.
proof fn lemma_unknown_actor(
    rows: Seq<BookkeepingRow>,
    seq_rows: Seq<SeqBookkeepingRow>,
    actor: ActorId,
    v: int,
)
    requires
        !actor_in_rows(rows, seq_rows, actor),
    ensures
        restored_state(rows, seq_rows, actor, v) is None,
{
    if group_last(seq_rows, actor, v) is Some {
        lemma_group_needs_row(seq_rows, actor, v);
    }
    if state_from_rows(rows, actor, v) is Some {
        lemma_state_needs_row(rows, actor, v);
    }
}

/// Taking in one more row of the bookkeeping table changes what the rows
/// say by one insertion.
proof fn lemma_rows_step(rows: Seq<BookkeepingRow>, r: BookkeepingRow)
    requires
        row_ok(r),
    ensures
        restored(rows.push(r), Seq::empty()) == restored(rows, Seq::empty()).insert(
            r.actor_id,
            inserted(
                versions_of(restored(rows, Seq::empty()), r.actor_id),
                r.spec_versions(),
                row_state(r),
            ),
        ),
{
    let none = Seq::<SeqBookkeepingRow>::empty();
    let longer = rows.push(r);
    let before = restored(rows, none);
    let after = restored(longer, none);
    let want = before.insert(
        r.actor_id,
        inserted(versions_of(before, r.actor_id), r.spec_versions(), row_state(r)),
    );
    assert(longer.drop_last() =~= rows);
    assert(longer.last() == r);
    assert forall|a: ActorId| #[trigger]
        after.contains_key(a) == want.contains_key(a) && (after.contains_key(a) ==> after[a]
            =~= want[a]) by {
        if actor_in_rows(rows, none, a) {
            let i = choose|i: int| 0 <= i < rows.len() && (#[trigger] rows[i]).actor_id == a;
            assert(longer[i].actor_id == a);
        }
        if a == r.actor_id {
            assert(longer[rows.len() as int].actor_id == a);
        }
        if actor_in_rows(longer, none, a) && a != r.actor_id {
            let i = choose|i: int| 0 <= i < longer.len() && (#[trigger] longer[i]).actor_id == a;
            assert(rows[i].actor_id == a);
        }
        if after.contains_key(a) {
            assert forall|v: int| #[trigger]
                after[a].contains_key(v) == want[a].contains_key(v) && (after[a].contains_key(v)
                    ==> after[a][v] == want[a][v]) by {
                assert(group_last(none, a, v) is None);
                if !before.contains_key(a) {
                    lemma_unknown_actor(rows, none, a, v);
                }
            }
            assert(after[a].dom() =~= want[a].dom());
        }
    }
    assert(after.dom() =~= want.dom());
    assert(after =~= want);
}

/// What one more row of the table of buffered sequence numbers gives its
/// version: the sequence numbers it had and those of the row, with the row's
/// last sequence number and clock reading.
proof fn lemma_seq_rows_step(
    rows: Seq<BookkeepingRow>,
    seq_rows: Seq<SeqBookkeepingRow>,
    r: SeqBookkeepingRow,
)
    ensures
        restored(rows, seq_rows.push(r)) == restored(rows, seq_rows).insert(
            r.site_id,
            versions_of(restored(rows, seq_rows), r.site_id).insert(
                r.version as int,
                Known::Partial {
                    seqs: group_seqs(seq_rows, r.site_id, r.version as int).union(
                        span(r.start_seq as int, r.end_seq as int),
                    ),
                    last_seq: r.last_seq,
                    ts: r.ts,
                },
            ),
        ),
{
    let longer = seq_rows.push(r);
    let before = restored(rows, seq_rows);
    let after = restored(rows, longer);
    let a0 = r.site_id;
    let v0 = r.version as int;
    let grown = group_seqs(seq_rows, a0, v0).union(span(r.start_seq as int, r.end_seq as int));
    let want = before.insert(
        a0,
        versions_of(before, a0).insert(
            v0,
            Known::Partial { seqs: grown, last_seq: r.last_seq, ts: r.ts },
        ),
    );
    assert(longer.drop_last() =~= seq_rows);
    assert(longer.last() == r);
    assert forall|x: int| group_seqs(longer, a0, v0).contains(x) <==> grown.contains(x) by {
        if group_seqs(seq_rows, a0, v0).contains(x) {
            let i = choose|i: int|
                0 <= i < seq_rows.len() && (#[trigger] seq_rows[i]).site_id == a0
                    && seq_rows[i].version == v0 && seq_rows[i].start_seq <= x
                    <= seq_rows[i].end_seq;
            assert(longer[i] == seq_rows[i]);
        }
        if r.start_seq <= x <= r.end_seq {
            assert(longer[seq_rows.len() as int] == r);
        }
        if group_seqs(longer, a0, v0).contains(x) {
            let i = choose|i: int|
                0 <= i < longer.len() && (#[trigger] longer[i]).site_id == a0 && longer[i].version
                    == v0 && longer[i].start_seq <= x <= longer[i].end_seq;
            if i < seq_rows.len() {
                assert(longer[i] == seq_rows[i]);
            }
        }
    }
    assert(group_seqs(longer, a0, v0) =~= grown);
    assert forall|a: ActorId| #[trigger]
        after.contains_key(a) == want.contains_key(a) && (after.contains_key(a) ==> after[a]
            =~= want[a]) by {
        if actor_in_rows(rows, seq_rows, a) {
            if exists|i: int| 0 <= i < seq_rows.len() && (#[trigger] seq_rows[i]).site_id == a {
                let i = choose|i: int|
                    0 <= i < seq_rows.len() && (#[trigger] seq_rows[i]).site_id == a;
                assert(longer[i].site_id == a);
            }
        }
        if a == a0 {
            assert(longer[seq_rows.len() as int].site_id == a);
        }
        if actor_in_rows(rows, longer, a) && a != a0 {
            if exists|i: int| 0 <= i < longer.len() && (#[trigger] longer[i]).site_id == a {
                let i = choose|i: int| 0 <= i < longer.len() && (#[trigger] longer[i]).site_id == a;
                assert(seq_rows[i].site_id == a);
            }
        }
        if after.contains_key(a) {
            assert forall|v: int| #[trigger]
                after[a].contains_key(v) == want[a].contains_key(v) && (after[a].contains_key(v)
                    ==> after[a][v] == want[a][v]) by {
                if !before.contains_key(a) {
                    lemma_unknown_actor(rows, seq_rows, a, v);
                }
                if !(a == a0 && v == v0) {
                    assert forall|x: int|
                        group_seqs(longer, a, v).contains(x) <==> group_seqs(
                            seq_rows,
                            a,
                            v,
                        ).contains(x) by {
                        if group_seqs(seq_rows, a, v).contains(x) {
                            let i = choose|i: int|
                                0 <= i < seq_rows.len() && (#[trigger] seq_rows[i]).site_id == a
                                    && seq_rows[i].version == v && seq_rows[i].start_seq <= x
                                    <= seq_rows[i].end_seq;
                            assert(longer[i] == seq_rows[i]);
                        }
                        if group_seqs(longer, a, v).contains(x) {
                            let i = choose|i: int|
                                0 <= i < longer.len() && (#[trigger] longer[i]).site_id == a
                                    && longer[i].version == v && longer[i].start_seq <= x
                                    <= longer[i].end_seq;
                            assert(longer[i] == seq_rows[i]);
                        }
                    }
                    assert(group_seqs(longer, a, v) =~= group_seqs(seq_rows, a, v));
                }
            }
            assert(after[a].dom() =~= want[a].dom());
        }
    }
    assert(after.dom() =~= want.dom());
    assert(after =~= want);
}

/// Where the rows give a version no last sequence number, none of them is
/// for it.
proof fn lemma_no_group(rows: Seq<SeqBookkeepingRow>, actor: ActorId, v: int)
    requires
        group_last(rows, actor, v) is None,
    ensures
        forall|i: int|
            0 <= i < rows.len() ==> !((#[trigger] rows[i]).site_id == actor && rows[i].version == v),
        group_seqs(rows, actor, v) == Set::<int>::empty(),
    decreases rows.len(),
{
    if rows.len() > 0 {
        lemma_no_group(rows.drop_last(), actor, v);
        assert forall|i: int| 0 <= i < rows.len() implies !((#[trigger] rows[i]).site_id == actor
            && rows[i].version == v) by {
            if i < rows.len() - 1 {
                assert(rows.drop_last()[i] == rows[i]);
            }
        }
    }
    assert(group_seqs(rows, actor, v) =~= Set::<int>::empty());
}

/// Whether `(actor, v)` is among the pairs of the list.
pub open spec fn queued(list: Seq<(ActorId, i64)>, actor: ActorId, v: i64) -> bool {
    exists|i: int| 0 <= i < list.len() && #[trigger] list[i] == (actor, v)
}

/// Whether the tables hold version `v` of `actor` as buffered with no
/// sequence number missing.
pub open spec fn restored_ready(
    rows: Seq<BookkeepingRow>,
    seq_rows: Seq<SeqBookkeepingRow>,
    actor: ActorId,
    v: i64,
) -> bool {
    restored_state(rows, seq_rows, actor, v as int) matches Some(k) && k.fully_buffered()
}

/// Whether `(actor, v)` is already among the pairs of the list.
fn is_queued(list: &Vec<(ActorId, i64)>, actor: ActorId, v: i64) -> (b: bool)
    ensures
        b == queued(list@, actor, v),
{
    let mut i: usize = 0;
    while i < list.len()
        invariant
            i <= list@.len(),
            forall|j: int| 0 <= j < i ==> (#[trigger] list@[j]) != (actor, v),
        decreases list@.len() - i,
    {
        if list[i].0 == actor && list[i].1 == v {
            assert(list@[i as int] == (actor, v));
            return true;
        }
        i = i + 1;
    }
    false
}

/// Rebuilds the bookkeeping from the rows of its two tables, and finds the
/// versions that are fully buffered and wait to be promoted.
///
/// The rows are taken in their order. The first row that cannot be taken in
/// ([`row_ok`], [`seq_row_ok`]) ends the work with its position; rows of the
/// bookkeeping table are looked at first.
pub fn restore(rows: &Vec<BookkeepingRow>, seq_rows: &Vec<SeqBookkeepingRow>) -> (r: Result<
    Restored,
    RestoreError,
>)
    ensures
        match r {
            Ok(x) => {
                &&& forall|j: int| 0 <= j < rows@.len() ==> row_ok(#[trigger] rows@[j])
                &&& forall|j: int| 0 <= j < seq_rows@.len() ==> seq_row_ok(#[trigger] seq_rows@[j])
                &&& x.bookie.wf()
                &&& x.bookie@ == restored(rows@, seq_rows@)
                &&& x.to_apply@.no_duplicates()
                &&& forall|a: ActorId, v: i64|
                    queued(x.to_apply@, a, v) <==> restored_ready(rows@, seq_rows@, a, v)
            },
            Err(RestoreError::Bookkeeping(i)) => {
                &&& i < rows@.len()
                &&& !row_ok(rows@[i as int])
                &&& forall|j: int| 0 <= j < i ==> row_ok(#[trigger] rows@[j])
            },
            Err(RestoreError::SeqBookkeeping(i)) => {
                &&& forall|j: int| 0 <= j < rows@.len() ==> row_ok(#[trigger] rows@[j])
                &&& i < seq_rows@.len()
                &&& !seq_row_ok(seq_rows@[i as int])
                &&& forall|j: int| 0 <= j < i ==> seq_row_ok(#[trigger] seq_rows@[j])
            },
        },
{
    let ghost none = Seq::<SeqBookkeepingRow>::empty();
    let mut bookie = Bookie::new();
    assert(bookie@ =~= restored(rows@.take(0), none)) by {
        assert forall|a: ActorId| !actor_in_rows(rows@.take(0), none, a) by {}
    }
    let mut i: usize = 0;
    while i < rows.len()
        invariant
            i <= rows@.len(),
            bookie.wf(),
            none == Seq::<SeqBookkeepingRow>::empty(),
            bookie@ == restored(rows@.take(i as int), none),
            forall|j: int| 0 <= j < i ==> row_ok(#[trigger] rows@[j]),
        decreases rows@.len() - i,
    {
        if !take_row(&mut bookie, &rows[i]) {
            return Err(RestoreError::Bookkeeping(i));
        }
        proof {
            let r = rows@[i as int];
            lemma_rows_step(rows@.take(i as int), r);
            assert(rows@.take(i + 1) =~= rows@.take(i as int).push(r));
        }
        i = i + 1;
    }
    assert(rows@.take(i as int) =~= rows@);
    assert(seq_rows@.take(0) =~= none);
    let mut n: usize = 0;
    while n < seq_rows.len()
        invariant
            n <= seq_rows@.len(),
            bookie.wf(),
            bookie@ == restored(rows@, seq_rows@.take(n as int)),
            forall|j: int| 0 <= j < rows@.len() ==> row_ok(#[trigger] rows@[j]),
            forall|j: int| 0 <= j < n ==> seq_row_ok(#[trigger] seq_rows@[j]),
        decreases seq_rows@.len() - n,
    {
        let r = &seq_rows[n];
        if r.start_seq > r.end_seq {
            return Err(RestoreError::SeqBookkeeping(n));
        }
        let ghost done = seq_rows@.take(n as int);
        let mut seqs = match bookie.get(r.site_id) {
            Some(booked) => match booked.get(r.version) {
                Some(KnownDbVersion::Partial { seqs, .. }) => seqs_clone(seqs),
                _ => seqs_new(),
            },
            None => seqs_new(),
        };
        proof {
            let a = r.site_id;
            let v = r.version as int;
            if group_last(done, a, v) is None {
                lemma_no_group(done, a, v);
                if bookie@.contains_key(a) && bookie@[a].contains_key(v) {
                    lemma_state_never_partial(rows@, a, v);
                }
            } else {
                lemma_group_needs_row(done, a, v);
                assert(actor_in_rows(rows@, done, a));
            }
            assert(seq_values(seqs) == group_seqs(done, a, v));
        }
        seqs_insert(&mut seqs, r.start_seq, r.end_seq);
        bookie.insert(
            r.site_id,
            r.version,
            KnownDbVersion::Partial { seqs, last_seq: r.last_seq, ts: r.ts },
        );
        proof {
            lemma_seq_rows_step(rows@, done, *r);
            assert(seq_rows@.take(n + 1) =~= done.push(*r));
        }
        n = n + 1;
    }
    assert(seq_rows@.take(n as int) =~= seq_rows@);
    let mut to_apply: Vec<(ActorId, i64)> = Vec::new();
    let mut m: usize = 0;
    while m < seq_rows.len()
        invariant
            m <= seq_rows@.len(),
            bookie.wf(),
            bookie@ == restored(rows@, seq_rows@),
            to_apply@.no_duplicates(),
            forall|a: ActorId, v: i64|
                queued(to_apply@, a, v) <==> (restored_ready(rows@, seq_rows@, a, v) && exists|
                    j: int,
                |
                    0 <= j < m && (#[trigger] seq_rows@[j]).site_id == a && seq_rows@[j].version
                        == v),
        decreases seq_rows@.len() - m,
    {
        let r = &seq_rows[m];
        let ready = match bookie.get(r.site_id) {
            Some(booked) => match booked.get(r.version) {
                Some(known) => known.is_fully_buffered(),
                None => false,
            },
            None => false,
        };
        proof {
            assert(actor_in_rows(rows@, seq_rows@, r.site_id));
            assert(ready == restored_ready(rows@, seq_rows@, r.site_id, r.version));
        }
        let ghost before = to_apply@;
        let fresh = ready && !is_queued(&to_apply, r.site_id, r.version);
        if fresh {
            to_apply.push((r.site_id, r.version));
        }
        proof {
            assert forall|a: ActorId, v: i64|
                queued(to_apply@, a, v) <==> (restored_ready(rows@, seq_rows@, a, v) && exists|
                    j: int,
                |
                    0 <= j < m + 1 && (#[trigger] seq_rows@[j]).site_id == a && seq_rows@[j].version
                        == v) by {
                if queued(before, a, v) {
                    let k = choose|k: int| 0 <= k < before.len() && #[trigger] before[k] == (a, v);
                    assert(to_apply@[k] == (a, v));
                    let j = choose|j: int|
                        0 <= j < m && (#[trigger] seq_rows@[j]).site_id == a && seq_rows@[j].version
                            == v;
                    assert(0 <= j < m + 1 && seq_rows@[j].site_id == a);
                }
                if queued(to_apply@, a, v) && !queued(before, a, v) {
                    let k = choose|k: int|
                        0 <= k < to_apply@.len() && #[trigger] to_apply@[k] == (a, v);
                    if k < before.len() {
                        assert(before[k] == (a, v));
                    }
                    assert(a == r.site_id && v == r.version);
                    assert(seq_rows@[m as int].site_id == a);
                }
                if restored_ready(rows@, seq_rows@, a, v) && (exists|j: int|
                    0 <= j < m + 1 && (#[trigger] seq_rows@[j]).site_id == a && seq_rows@[j].version
                        == v) {
                    let j = choose|j: int|
                        0 <= j < m + 1 && (#[trigger] seq_rows@[j]).site_id == a
                            && seq_rows@[j].version == v;
                    if j == m {
                        if fresh {
                            assert(to_apply@[before.len() as int] == (a, v));
                        }
                    }
                }
            }
        }
        m = m + 1;
    }
    proof {
        assert forall|a: ActorId, v: i64|
            restored_ready(rows@, seq_rows@, a, v) implies exists|j: int|
            0 <= j < seq_rows@.len() && (#[trigger] seq_rows@[j]).site_id == a
                && seq_rows@[j].version == v by {
            if group_last(seq_rows@, a, v as int) is None {
                lemma_state_never_partial(rows@, a, v as int);
            } else {
                lemma_group_needs_row(seq_rows@, a, v as int);
            }
        }
    }
    Ok(Restored { bookie, to_apply })
}

/// What an agent starts from.
#[derive(Debug, PartialEq, Eq)]
pub struct Setup {
    /// Whether the store's site id has to be overwritten with the agent's
    /// actor id.
    pub override_site_id: bool,
    /// The bookkeeping as the store holds it.
    pub bookie: Bookie,
    /// The versions found fully buffered, to queue for promotion.
    pub to_apply: Vec<(ActorId, i64)>,
}

/// Works out what an agent starts from, given what the store holds: its
/// site id, and the rows of the two bookkeeping tables. The store's site id
/// is to be overwritten where it differs from the agent's actor id
/// ([`site_id_differs`]); the bookkeeping is rebuilt from the rows, and
/// fails on the same rows, as [`restore`] says.
pub fn setup(
    actor_id: ActorId,
    stored_site_id: Option<ActorId>,
    rows: &Vec<BookkeepingRow>,
    seq_rows: &Vec<SeqBookkeepingRow>,
) -> (r: Result<Setup, RestoreError>)
    ensures
        match r {
            Ok(s) => {
                &&& s.override_site_id == (match stored_site_id {
                    Some(id) => id,
                    None => ActorId(0),
                } != actor_id)
                &&& forall|j: int| 0 <= j < rows@.len() ==> row_ok(#[trigger] rows@[j])
                &&& forall|j: int| 0 <= j < seq_rows@.len() ==> seq_row_ok(#[trigger] seq_rows@[j])
                &&& s.bookie.wf()
                &&& s.bookie@ == restored(rows@, seq_rows@)
                &&& s.to_apply@.no_duplicates()
                &&& forall|a: ActorId, v: i64|
                    queued(s.to_apply@, a, v) <==> restored_ready(rows@, seq_rows@, a, v)
            },
            Err(RestoreError::Bookkeeping(i)) => {
                &&& i < rows@.len()
                &&& !row_ok(rows@[i as int])
                &&& forall|j: int| 0 <= j < i ==> row_ok(#[trigger] rows@[j])
            },
            Err(RestoreError::SeqBookkeeping(i)) => {
                &&& forall|j: int| 0 <= j < rows@.len() ==> row_ok(#[trigger] rows@[j])
                &&& i < seq_rows@.len()
                &&& !seq_row_ok(seq_rows@[i as int])
                &&& forall|j: int| 0 <= j < i ==> seq_row_ok(#[trigger] seq_rows@[j])
            },
        },
{
    let override_site_id = site_id_differs(stored_site_id, actor_id);
    match restore(rows, seq_rows) {
        Ok(restored) => Ok(
            Setup { override_site_id, bookie: restored.bookie, to_apply: restored.to_apply },
        ),
        Err(e) => Err(e),
    }
}

/// The rows of the bookkeeping table never say that a version is buffered.
proof fn lemma_state_never_partial(rows: Seq<BookkeepingRow>, actor: ActorId, v: int)
    ensures
        !(state_from_rows(rows, actor, v) matches Some(Known::Partial { .. })),
    decreases rows.len(),
{
    if rows.len() > 0 {
        lemma_state_never_partial(rows.drop_last(), actor, v);
    }
}

/// What the rows written for a well-formed list of stored ranges say of a
/// version, once they are read back: what the list says of it, if that is
/// applied or cleared, and nothing if the list holds it as buffered or not
/// at all. So the bookkeeping table and the bookkeeping in memory agree on
/// every applied version, with its `db_version`, last sequence number and
/// clock reading, and on every cleared one.
pub proof fn lemma_rows_read_back(actor: ActorId, rs: Seq<BookedRange>, v: int)
    requires
        ranges_wf(rs),
    ensures
        state_from_rows(rows_of(actor, rs), actor, v) == (if ranges_cover(rs, v) && !(ranges_view(
            rs,
        )[v] is Partial) {
            Some(ranges_view(rs)[v])
        } else {
            None
        }),
    decreases rs.len(),
{
    if rs.len() > 0 {
        let front = rs.drop_last();
        let last = rs.last();
        let n = rs.len() - 1;
        assert(front =~= rs.subrange(0, n));
        lemma_stretch_wf(rs, 0, n);
        lemma_rows_read_back(actor, front, v);
        assert(last.start <= last.end);
        if last.covers(v) {
            lemma_range_found(rs, n, v);
            if ranges_cover(front, v) {
                let j = range_index(front, v);
                assert(front[j] == rs[j]);
                assert(rs[j].end < rs[n].start);
            }
        } else {
            if ranges_cover(rs, v) {
                let j = range_index(rs, v);
                assert(front[j] == rs[j]);
                lemma_range_found(rs, j, v);
                lemma_range_found(front, j, v);
            }
            if ranges_cover(front, v) {
                let j = range_index(front, v);
                assert(front[j] == rs[j]);
                lemma_range_found(rs, j, v);
                lemma_range_found(front, j, v);
            }
        }
        let rows = rows_of(actor, rs);
        let before = rows_of(actor, front);
        if !(last.known@ is Partial) {
            assert(rows.drop_last() =~= before);
        }
    }
}

/// Whether the rows of buffered sequence numbers mirror the bookkeeping `m`
/// of `actor`: they give each buffered version its sequence numbers, last
/// sequence number and clock reading, and give no other version anything.
pub open spec fn mirrors(seq_rows: Seq<SeqBookkeepingRow>, actor: ActorId, m: Map<int, Known>) -> bool {
    forall|v: int|
        if m.contains_key(v) && m[v] is Partial {
            &&& #[trigger] group_last(seq_rows, actor, v) == Some((m[v]->Partial_last_seq, m[v]->Partial_ts))
            &&& group_seqs(seq_rows, actor, v) == m[v]->Partial_seqs
        } else {
            #[trigger] group_last(seq_rows, actor, v) is None
        }
}

/// A bookkeeping comes back from its rows: what is rebuilt from the rows
/// written for a well-formed list of stored ranges, together with rows of
/// buffered sequence numbers that mirror it, says of every version what the
/// list says.
pub proof fn lemma_comes_back(
    actor: ActorId,
    rs: Seq<BookedRange>,
    seq_rows: Seq<SeqBookkeepingRow>,
    v: int,
)
    requires
        ranges_wf(rs),
        mirrors(seq_rows, actor, ranges_view(rs)),
    ensures
        restored_state(rows_of(actor, rs), seq_rows, actor, v) == (if ranges_cover(rs, v) {
            Some(ranges_view(rs)[v])
        } else {
            None
        }),
{
    lemma_rows_read_back(actor, rs, v);
    let m = ranges_view(rs);
    if m.contains_key(v) && m[v] is Partial {
        assert(group_last(seq_rows, actor, v) == Some(
            (m[v]->Partial_last_seq, m[v]->Partial_ts),
        ));
    } else {
        assert(group_last(seq_rows, actor, v) is None);
    }
}

/// The rows written for a well-formed list of stored ranges can all be
/// taken in again.
pub proof fn lemma_rows_acceptable(actor: ActorId, rs: Seq<BookedRange>)
    requires
        ranges_wf(rs),
    ensures
        forall|i: int| 0 <= i < rows_of(actor, rs).len() ==> row_ok(#[trigger] rows_of(actor, rs)[i]),
    decreases rs.len(),
{
    if rs.len() > 0 {
        let front = rs.drop_last();
        let n = rs.len() - 1;
        assert(front =~= rs.subrange(0, n));
        lemma_stretch_wf(rs, 0, n);
        lemma_rows_acceptable(actor, front);
        assert(rs[n].start <= rs[n].end);
        let rows = rows_of(actor, rs);
        let before = rows_of(actor, front);
        assert forall|i: int| 0 <= i < rows.len() implies row_ok(#[trigger] rows[i]) by {
            if i < before.len() {
                assert(rows[i] == before[i]);
            }
        }
    }
}

} // verus!
