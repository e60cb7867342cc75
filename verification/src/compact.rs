//! Compaction: retiring applied versions that the store no longer holds.
//!
//! From time to time, for each actor, the agent takes the applied versions
//! with the `db_version` of each, asks the store which of those `db_version`s
//! are still live, and retires the others: the bookkeeping table of the actor
//! is rewritten from the bookkeeping in memory, and the versions retired are
//! set to cleared there.

use crate::booked::{
    applied_as, lemma_one_list_per_meaning, lemma_range_found, range_index, ranges_view,
    ranges_wf, same_ranges, snapshot_of, BookedRange, BookedVersions,
};
use crate::known::{ActorId, Known, KnownDbVersion};
use crate::rows::{row_of, BookkeepingRow};
use std::collections::BTreeMap;
use std::collections::HashSet;
use vstd::prelude::*;
use vstd::std_specs::btree::axiom_spec_keys_iter;
use vstd::std_specs::iter::IteratorSpec;

verus! {

/// The keys of the map, each once.
pub fn db_versions_of(versions: &BTreeMap<i64, i64>) -> (out: Vec<i64>)
    ensures
        out@.no_duplicates(),
        forall|d: i64| out@.contains(d) <==> versions@.contains_key(d),
{
    broadcast use axiom_spec_keys_iter;

    let mut out: Vec<i64> = Vec::new();
    let keys = versions.keys();
    let ghost all = keys.remaining().unref();
    for k in it: keys
        invariant
            it.seq().unref() == all,
            out@ == all.take(it.index() as int),
    {
        assert(all.take(it.index() + 1) =~= all.take(it.index() as int).push(*k));
        out.push(*k);
    }
    proof {
        assert(out@ =~= all);
        assert(all.to_set() == versions@.dom());
        assert forall|d: i64| out@.contains(d) <==> versions@.contains_key(d) by {
            assert(all.to_set().contains(d) <==> all.contains(d));
        }
    }
    out
}

/// The lowest and the highest `db_version` among the keys of `versions`:
/// the bounds between which the store is asked for what is still live.
pub fn live_query_bounds(versions: &BTreeMap<i64, i64>) -> (r: Option<(i64, i64)>)
    ensures
        match r {
            Some(b) => versions@.contains_key(b.0) && versions@.contains_key(b.1) && forall|
                d: i64,
            |
                versions@.contains_key(d) ==> b.0 <= d <= b.1,
            None => forall|d: i64| !versions@.contains_key(d),
        },
{
    let keys = db_versions_of(versions);
    if keys.len() == 0 {
        assert forall|d: i64| !versions@.contains_key(d) by {
            assert(!keys@.contains(d));
        }
        return None;
    }
    let mut lo = keys[0];
    let mut hi = keys[0];
    assert(keys@.contains(keys@[0]));
    let mut i: usize = 1;
    while i < keys.len()
        invariant
            1 <= i <= keys@.len(),
            keys@.contains(lo),
            keys@.contains(hi),
            forall|j: int| 0 <= j < i ==> lo <= (#[trigger] keys@[j]) <= hi,
        decreases keys@.len() - i,
    {
        let k = keys[i];
        assert(keys@.contains(keys@[i as int]));
        if k < lo {
            lo = k;
        }
        if k > hi {
            hi = k;
        }
        i = i + 1;
    }
    proof {
        assert forall|d: i64| versions@.contains_key(d) implies lo <= d <= hi by {
            assert(keys@.contains(d));
            let j = choose|j: int| 0 <= j < keys@.len() && keys@[j] == d;
            assert(lo <= keys@[j] <= hi);
        }
    }
    Some((lo, hi))
}

/// The `db_version`s among the keys of `versions` that are not live any
/// more.
pub open spec fn stale(versions: Map<i64, i64>, still_live: Set<i64>) -> Set<i64> {
    Set::new(|d: i64| versions.contains_key(d) && !still_live.contains(d))
}

/// Finds the `db_version`s to retire: those of `versions` that the store no
/// longer reports as live.
pub fn compact_booked_for_actor(versions: &BTreeMap<i64, i64>, still_live: &HashSet<i64>) -> (to_clear:
    HashSet<i64>)
    ensures
        to_clear@ == stale(versions@, still_live@),
{
    let keys = db_versions_of(versions);
    let mut to_clear: HashSet<i64> = HashSet::new();
    let mut i: usize = 0;
    while i < keys.len()
        invariant
            i <= keys@.len(),
            forall|d: i64|
                to_clear@.contains(d) <==> (keys@.take(i as int).contains(d)
                    && !still_live@.contains(d)),
        decreases keys@.len() - i,
    {
        let k = keys[i];
        proof {
            assert(keys@.take(i + 1) =~= keys@.take(i as int).push(k));
            assert forall|d: i64|
                keys@.take(i + 1).contains(d) <==> (keys@.take(i as int).contains(d) || d
                    == k) by {
                if keys@.take(i as int).contains(d) {
                    let j = choose|j: int| 0 <= j < i && keys@.take(i as int)[j] == d;
                    assert(keys@.take(i + 1)[j] == d);
                }
                if d == k {
                    assert(keys@.take(i + 1)[i as int] == d);
                }
            }
        }
        if !still_live.contains(&k) {
            to_clear.insert(k);
        }
        i = i + 1;
    }
    proof {
        assert(keys@.take(i as int) =~= keys@);
        assert(to_clear@ =~= stale(versions@, still_live@));
    }
    to_clear
}

/// Whether version `v` is retired: the bookkeeping `m` has it as applied
/// under one of the `db_version`s to clear.
pub open spec fn retiring(m: Map<int, Known>, to_clear: Set<i64>, v: int) -> bool {
    exists|d: i64| to_clear.contains(d) && #[trigger] applied_as(m, v, d)
}

/// The bookkeeping `m` after every version applied under a `db_version` of
/// `to_clear` was retired: those are cleared, every other version is as it
/// was.
pub open spec fn retired(m: Map<int, Known>, to_clear: Set<i64>) -> Map<int, Known> {
    Map::new(
        |v: int| m.contains_key(v),
        |v: int|
            if retiring(m, to_clear, v) {
                Known::Cleared
            } else {
                m[v]
            },
    )
}

/// The bookkeeping `m` with the versions of `done` cleared.
spec fn cleared_at(m: Map<int, Known>, done: Set<int>) -> Map<int, Known> {
    Map::new(
        |v: int| m.contains_key(v),
        |v: int|
            if done.contains(v) {
                Known::Cleared
            } else {
                m[v]
            },
    )
}

/// Whether the stored range is of a version applied under `db_version`.
spec fn held_under(r: BookedRange, db_version: i64) -> bool {
    match r.known@ {
        Known::Current { db_version: d, .. } => d == db_version,
        _ => false,
    }
}

/// The versions that the bookkeeping has as applied under one of the
/// `db_version`s of `to_clear`.
fn versions_to_retire(booked: &BookedVersions, to_clear: &HashSet<i64>) -> (out: Vec<i64>)
    requires
        booked.wf(),
    ensures
        forall|v: int| retiring(booked@, to_clear@, v) <==> exists|k: int|
            0 <= k < out@.len() && #[trigger] out@[k] == v,
{
    let ranges = booked.ranges();
    let mut out: Vec<i64> = Vec::new();
    let mut i: usize = 0;
    while i < ranges.len()
        invariant
            i <= ranges@.len(),
            ranges_wf(ranges@),
            ranges_view(ranges@) == booked@,
            forall|k: int|
                0 <= k < out@.len() ==> retiring(booked@, to_clear@, #[trigger] out@[k] as int),
            forall|j: int, d: i64|
                0 <= j < i && to_clear@.contains(d) && #[trigger] held_under(ranges@[j], d)
                    ==> exists|k: int| 0 <= k < out@.len() && #[trigger] out@[k] == ranges@[j].start,
        decreases ranges@.len() - i,
    {
        let r = &ranges[i];
        let ghost before = out@;
        match r.known {
            KnownDbVersion::Current { db_version, .. } => {
                if to_clear.contains(&db_version) {
                    out.push(r.start);
                    proof {
                        assert(r.start <= r.end);
                        lemma_range_found(ranges@, i as int, r.start as int);
                        assert(applied_as(booked@, r.start as int, db_version));
                        assert(out@[before.len() as int] == r.start);
                    }
                }
            },
            _ => {},
        }
        proof {
            assert forall|k: int| 0 <= k < out@.len() implies retiring(
                booked@,
                to_clear@,
                #[trigger] out@[k] as int,
            ) by {
                if k < before.len() {
                    assert(out@[k] == before[k]);
                }
            }
            assert forall|j: int, d: i64|
                0 <= j < i + 1 && to_clear@.contains(d) && #[trigger] held_under(
                    ranges@[j],
                    d,
                ) implies exists|k: int|
                0 <= k < out@.len() && #[trigger] out@[k] == ranges@[j].start by {
                if j < i {
                    let k = choose|k: int|
                        0 <= k < before.len() && #[trigger] before[k] == ranges@[j].start;
                    assert(out@[k] == before[k]);
                } else {
                    assert(out@[before.len() as int] == ranges@[j].start);
                }
            }
        }
        i = i + 1;
    }
    proof {
        assert forall|v: int| retiring(booked@, to_clear@, v) implies exists|k: int|
            0 <= k < out@.len() && #[trigger] out@[k] == v by {
            let d = choose|d: i64| to_clear@.contains(d) && #[trigger] applied_as(booked@, v, d);
            let j = range_index(ranges@, v);
            lemma_range_found(ranges@, j, v);
            assert(ranges@[j].start == ranges@[j].end);
            assert(held_under(ranges@[j], d));
        }
    }
    out
}

/// Sets to cleared, in the bookkeeping in memory, every version that is
/// applied under a `db_version` of `to_clear`.
pub fn clear_versions(booked: &mut BookedVersions, to_clear: &HashSet<i64>)
    requires
        old(booked).wf(),
    ensures
        final(booked).wf(),
        final(booked)@ == retired(old(booked)@, to_clear@),
{
    let doomed = versions_to_retire(booked, to_clear);
    let ghost before = booked@;
    let mut i: usize = 0;
    assert(booked@ =~= cleared_at(before, Set::new(|v: int| false)));
    while i < doomed.len()
        invariant
            i <= doomed@.len(),
            booked.wf(),
            forall|v: int| retiring(before, to_clear@, v) <==> exists|k: int|
                0 <= k < doomed@.len() && #[trigger] doomed@[k] == v,
            booked@ == cleared_at(
                before,
                Set::new(|v: int| exists|k: int| 0 <= k < i && #[trigger] doomed@[k] == v),
            ),
        decreases doomed@.len() - i,
    {
        let v = doomed[i];
        let ghost done = Set::new(|w: int| exists|k: int| 0 <= k < i && #[trigger] doomed@[k] == w);
        let ghost next = Set::new(
            |w: int| exists|k: int| 0 <= k < i + 1 && #[trigger] doomed@[k] == w,
        );
        booked.insert(v, KnownDbVersion::Cleared);
        proof {
            assert(retiring(before, to_clear@, v as int)) by {
                assert(doomed@[i as int] == v);
            }
            assert forall|w: int| next.contains(w) <==> (done.contains(w) || w == v) by {
                if done.contains(w) {
                    let k = choose|k: int| 0 <= k < i && #[trigger] doomed@[k] == w;
                    assert(0 <= k < i + 1 && doomed@[k] == w);
                }
                if w == v {
                    assert(doomed@[i as int] == w);
                }
            }
            assert(booked@ =~= cleared_at(before, next));
        }
        i = i + 1;
    }
    proof {
        let all = Set::new(|v: int| exists|k: int| 0 <= k < i && #[trigger] doomed@[k] == v);
        assert forall|v: int| all.contains(v) <==> retiring(before, to_clear@, v) by {}
        assert(cleared_at(before, all) =~= retired(before, to_clear@));
    }
}

/// The rows that persist a list of stored ranges of `actor`: one for each
/// applied version and each cleared range, in the order of the list.
pub open spec fn rows_of(actor: ActorId, rs: Seq<BookedRange>) -> Seq<BookkeepingRow>
    decreases rs.len(),
{
    if rs.len() == 0 {
        Seq::empty()
    } else {
        let before = rows_of(actor, rs.drop_last());
        match row_of(actor, (rs.last().start, rs.last().end), rs.last().known@) {
            Some(row) => before.push(row),
            None => before,
        }
    }
}

/// The rows to write in the place of all rows of `actor` in the bookkeeping
/// table: one for each applied version and each cleared range now in
/// memory. Buffered versions are kept elsewhere and get none.
pub fn compaction_rows(actor: ActorId, booked: &BookedVersions) -> (rows: Vec<BookkeepingRow>)
    requires
        booked.wf(),
    ensures
        rows@ == rows_of(actor, booked.stored()),
{
    let ranges = booked.ranges();
    let mut rows: Vec<BookkeepingRow> = Vec::new();
    let mut i: usize = 0;
    while i < ranges.len()
        invariant
            i <= ranges@.len(),
            rows@ == rows_of(actor, ranges@.take(i as int)),
        decreases ranges@.len() - i,
    {
        let r = &ranges[i];
        proof {
            assert(ranges@.take(i + 1).drop_last() =~= ranges@.take(i as int));
            assert(ranges@.take(i + 1).last() == ranges@[i as int]);
        }
        match BookkeepingRow::for_known(actor, (r.start, r.end), &r.known) {
            Some(row) => {
                rows.push(row);
            },
            None => {},
        }
        i = i + 1;
    }
    assert(ranges@.take(i as int) =~= ranges@);
    rows
}

/// Lists that hold the same ranges in the same states are persisted by the
/// same rows.
proof fn lemma_rows_same(actor: ActorId, x: Seq<BookedRange>, y: Seq<BookedRange>)
    requires
        same_ranges(x, y),
    ensures
        rows_of(actor, x) == rows_of(actor, y),
    decreases x.len(),
{
    if x.len() > 0 {
        let fx = x.drop_last();
        let fy = y.drop_last();
        assert forall|i: int| 0 <= i < fx.len() implies (#[trigger] fx[i]).start == fy[i].start
            && fx[i].end == fy[i].end && fx[i].known@ == fy[i].known@ by {
            assert(fx[i] == x[i] && fy[i] == y[i]);
        }
        lemma_rows_same(actor, fx, fy);
        assert(x.last() == x[x.len() - 1]);
        assert(y.last() == y[y.len() - 1]);
    }
}

/// The rows that persist a bookkeeping go by its meaning alone: whatever
/// way two bookkeepings that mean the same were arrived at, a compaction
/// writes the same rows for both.
pub proof fn lemma_rows_by_meaning(actor: ActorId, x: Seq<BookedRange>, y: Seq<BookedRange>)
    requires
        ranges_wf(x),
        ranges_wf(y),
        ranges_view(x) == ranges_view(y),
    ensures
        rows_of(actor, x) == rows_of(actor, y),
{
    lemma_one_list_per_meaning(x, y);
    lemma_rows_same(actor, x, y);
}

/// What a compaction of one actor has to do.
#[derive(Debug, PartialEq, Eq)]
pub struct CompactionPlan {
    /// The `db_version`s to retire; there is at least one.
    pub to_clear: HashSet<i64>,
    /// The rows to write in the place of all rows of the actor.
    pub rows: Vec<BookkeepingRow>,
}

/// Plans the compaction of `actor`, whose applied versions are `versions`
/// by `db_version`, of which the store reports `still_live` as live. Where
/// every `db_version` is live there is nothing to do: no row is rewritten
/// and the bookkeeping in memory stays as it is. Else the plan holds the
/// `db_version`s to retire and the rows to write before the versions are
/// cleared in memory.
pub fn plan_compaction(
    actor: ActorId,
    booked: &BookedVersions,
    versions: &BTreeMap<i64, i64>,
    still_live: &HashSet<i64>,
) -> (r: Option<CompactionPlan>)
    requires
        booked.wf(),
    ensures
        match r {
            Some(plan) => plan.to_clear@ == stale(versions@, still_live@) && plan.to_clear@
                != Set::<i64>::empty() && plan.rows@ == rows_of(actor, booked.stored()),
            None => stale(versions@, still_live@) == Set::<i64>::empty(),
        },
{
    let keys = db_versions_of(versions);
    let mut i: usize = 0;
    while i < keys.len()
        invariant
            i <= keys@.len(),
            booked.wf(),
            forall|d: i64| keys@.contains(d) <==> versions@.contains_key(d),
            forall|j: int| 0 <= j < i ==> still_live@.contains(#[trigger] keys@[j]),
        decreases keys@.len() - i,
    {
        if !still_live.contains(&keys[i]) {
            let to_clear = compact_booked_for_actor(versions, still_live);
            proof {
                assert(keys@.contains(keys@[i as int]));
                assert(stale(versions@, still_live@).contains(keys@[i as int]));
            }
            return Some(CompactionPlan { to_clear, rows: compaction_rows(actor, booked) });
        }
        i = i + 1;
    }
    proof {
        assert forall|d: i64| !stale(versions@, still_live@).contains(d) by {
            if versions@.contains_key(d) {
                assert(keys@.contains(d));
                let j = choose|j: int| 0 <= j < keys@.len() && keys@[j] == d;
                assert(still_live@.contains(keys@[j]));
            }
        }
        assert(stale(versions@, still_live@) =~= Set::<i64>::empty());
    }
    None
}

/// Compaction settles: once the versions whose `db_version` is not live were
/// retired, a second compaction against the same live `db_version`s finds
/// nothing to retire, so it writes no row and leaves the bookkeeping as it
/// is.
pub proof fn lemma_compaction_settles(
    m: Map<int, Known>,
    versions: Map<i64, i64>,
    still_live: Set<i64>,
    again: Map<i64, i64>,
)
    requires
        snapshot_of(m, versions),
        snapshot_of(retired(m, stale(versions, still_live)), again),
    ensures
        stale(again, still_live) == Set::<i64>::empty(),
        retired(retired(m, stale(versions, still_live)), stale(again, still_live)) == retired(
            m,
            stale(versions, still_live),
        ),
{
    let first = stale(versions, still_live);
    let after = retired(m, first);
    assert forall|d: i64| !stale(again, still_live).contains(d) by {
        if again.contains_key(d) && !still_live.contains(d) {
            let v = again[d] as int;
            assert(applied_as(after, v, d));
            assert(!retiring(m, first, v));
            assert(applied_as(m, v, d));
            assert(versions.contains_key(d));
            assert(first.contains(d));
        }
    }
    assert(stale(again, still_live) =~= Set::<i64>::empty());
    assert forall|v: int| !retiring(after, Set::<i64>::empty(), v) by {}
    assert(retired(after, Set::<i64>::empty()) =~= after);
}

} // verus!
