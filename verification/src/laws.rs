//! What holds of the bookkeeping whatever the order and number of
//! deliveries.

use crate::booked::{all_known_in, inserted, known_in};
use crate::bookie::{actor_knows, versions_of};
use crate::changes::{grew, impactful, Change, ChangeV1, Changeset};
use crate::compact::retired;
use crate::ingest::{
    applied, buffered, held_seqs, outcome_of, plan_for, row_runs, IngestPlan, Ingested,
    StorageReport,
};
use crate::known::{ActorId, Known, Timestamp};
use crate::promote::{promoted, promoted_state, ready, Promoted};
use crate::rows::row_of;
use crate::seqs::{in_ranges, lemma_in_ranges_push, ranges_values, span};
use vstd::prelude::*;

verus! {

/// The bookkeeping `m` after the outcome `x` of a changeset was recorded.
pub open spec fn recorded(m: Map<ActorId, Map<int, Known>>, x: Ingested) -> Map<
    ActorId,
    Map<int, Known>,
> {
    m.insert(x.actor_id, inserted(versions_of(m, x.actor_id), x.versions, x.known@))
}

/// Whether the state `later` has every sequence number that `earlier` has.
pub open spec fn no_less(earlier: Known, later: Known) -> bool {
    forall|s: int| earlier.has_seq(s) ==> later.has_seq(s)
}

/// Whether the bookkeeping `after` has every version that `before` has, each
/// with every sequence number it had.
pub open spec fn grown(before: Map<int, Known>, after: Map<int, Known>) -> bool {
    forall|v: int|
        before.contains_key(v) ==> after.contains_key(v) && no_less(before[v], #[trigger] after[v])
}

/// What is known stays known: where the bookkeeping of an actor only grows,
/// versions and sequence numbers found known before are found known after.
pub proof fn lemma_known_stays_known(
    before: Map<int, Known>,
    after: Map<int, Known>,
    versions: (i64, i64),
    seqs: Option<(i64, i64)>,
)
    requires
        grown(before, after),
        all_known_in(before, versions, seqs),
    ensures
        all_known_in(after, versions, seqs),
{
    assert forall|v: int| versions.0 <= v <= versions.1 implies known_in(after, v, seqs) by {
        assert(known_in(before, v, seqs));
        assert(no_less(before[v], after[v]));
    }
}

/// Setting versions to applied or cleared makes the bookkeeping grow, since
/// such a version has every sequence number.
pub proof fn lemma_settled_grows(m: Map<int, Known>, versions: (i64, i64), k: Known)
    requires
        !(k is Partial),
    ensures
        grown(m, inserted(m, versions, k)),
{
}

/// Buffering a version makes the bookkeeping grow where the version was not
/// known before, or was buffered with none but sequence numbers that it is
/// buffered with now.
pub proof fn lemma_buffered_grows(m: Map<int, Known>, version: i64, k: Known)
    requires
        m.contains_key(version as int) ==> no_less(m[version as int], k),
    ensures
        grown(m, inserted(m, (version, version), k)),
{
}

/// A promotion never makes the bookkeeping forget: the version promoted
/// ends applied or cleared, and has every sequence number then.
pub proof fn lemma_promotion_keeps_known(
    m: Map<int, Known>,
    version: i64,
    last_seq: i64,
    ts: Timestamp,
    rows_impacted: i64,
    db_version: i64,
    versions: (i64, i64),
    seqs: Option<(i64, i64)>,
)
    requires
        all_known_in(m, versions, seqs),
    ensures
        all_known_in(
            m.insert(
                version as int,
                promoted_state(last_seq, ts, rows_impacted, db_version),
            ),
            versions,
            seqs,
        ),
{
    let k = promoted_state(last_seq, ts, rows_impacted, db_version);
    let after = m.insert(version as int, k);
    assert(after =~= inserted(m, (version, version), k));
    lemma_settled_grows(m, (version, version), k);
    lemma_known_stays_known(m, after, versions, seqs);
}

/// A compaction never makes the bookkeeping forget: the versions retired
/// are cleared, and have every sequence number then.
pub proof fn lemma_compaction_keeps_known(
    m: Map<int, Known>,
    to_clear: Set<i64>,
    versions: (i64, i64),
    seqs: Option<(i64, i64)>,
)
    requires
        all_known_in(m, versions, seqs),
    ensures
        all_known_in(retired(m, to_clear), versions, seqs),
{
    let after = retired(m, to_clear);
    assert(grown(m, after));
    lemma_known_stays_known(m, after, versions, seqs);
}

/// Taking in a changeset never makes the bookkeeping forget: whatever
/// versions and sequence numbers of whatever actor were found known before
/// the outcome was recorded are found known after it. A fragment is merged
/// into what the bookkeeping held for its version, so nothing that was
/// buffered is lost.
pub proof fn lemma_ingest_keeps_known(
    m: Map<ActorId, Map<int, Known>>,
    change: ChangeV1,
    report: StorageReport,
    x: Ingested,
    actor: ActorId,
    versions: (i64, i64),
    seqs: Option<(i64, i64)>,
)
    requires
        change.changeset.wf(),
        plan_for(m, change) != IngestPlan::AlreadyKnown,
        outcome_of(x, m, change, report),
        actor_knows(m, actor, versions, seqs),
    ensures
        actor_knows(recorded(m, x), actor, versions, seqs),
{
    let of_actor = versions_of(m, x.actor_id);
    let after = inserted(of_actor, x.versions, x.known@);
    if actor == x.actor_id {
        if x.known@ is Partial {
            let v = x.versions.0 as int;
            let q = change.changeset.spec_seqs()->0;
            assert(x.versions == change.changeset.spec_versions());
            if of_actor.contains_key(v) {
                if !(of_actor[v] is Partial) {
                    assert(known_in(of_actor, v, Some(q)));
                    assert(all_known_in(of_actor, x.versions, Some(q)));
                    assert(m.contains_key(x.actor_id));
                    assert(false);
                }
                assert(no_less(of_actor[v], x.known@));
            }
            lemma_buffered_grows(of_actor, x.versions.0, x.known@);
        } else {
            lemma_settled_grows(of_actor, x.versions, x.known@);
        }
        lemma_known_stays_known(of_actor, after, versions, seqs);
    }
}

/// A second delivery does nothing: once the outcome of a changeset is
/// recorded, the plan for the same changeset is to do nothing, whatever the
/// store would answer.
pub proof fn lemma_second_delivery(
    m: Map<ActorId, Map<int, Known>>,
    change: ChangeV1,
    report: StorageReport,
    x: Ingested,
)
    requires
        change.changeset.wf(),
        outcome_of(x, m, change, report),
    ensures
        plan_for(recorded(m, x), change) == IngestPlan::AlreadyKnown,
{
    let after = inserted(versions_of(m, x.actor_id), x.versions, x.known@);
    let versions = change.changeset.spec_versions();
    let seqs = change.changeset.spec_seqs();
    assert(x.actor_id == change.actor_id);
    assert(x.versions == versions);
    assert forall|v: int| versions.0 <= v <= versions.1 implies known_in(after, v, seqs) by {
        assert(after[v] == x.known@);
        match seqs {
            Some(q) => {
                assert forall|s: int| q.0 <= s <= q.1 implies x.known@.has_seq(s) by {
                    assert(span(q.0 as int, q.1 as int).contains(s));
                }
            },
            None => {},
        }
    }
}

/// The row written for a changeset is the row of the state recorded for it:
/// an applied version is persisted with the `db_version`, last sequence
/// number and clock reading that the bookkeeping in memory holds, cleared
/// versions as cleared, and a buffered version with no row in the
/// bookkeeping table.
pub proof fn lemma_row_agrees(
    m: Map<ActorId, Map<int, Known>>,
    change: ChangeV1,
    report: StorageReport,
    x: Ingested,
)
    requires
        outcome_of(x, m, change, report),
    ensures
        x.bookkeeping == row_of(x.actor_id, x.versions, x.known@),
{
}

/// Whether every buffered version of the bookkeeping `m` has its sequence
/// numbers within `0..=last_seq`.
pub open spec fn within_bounds(m: Map<int, Known>) -> bool {
    forall|v: int| m.contains_key(v) ==> (#[trigger] m[v]).seqs_in_bounds()
}

/// Buffered versions keep their sequence numbers within `0..=last_seq`:
/// where that holds of the bookkeeping of an actor, it holds again once the
/// outcome of a changeset for the actor is recorded. Of a fragment this is
/// stated where it carries no sequence number beyond its `last_seq`, and
/// where its `last_seq` is not below what the version is buffered with
/// already.
pub proof fn lemma_bounds_kept(
    m: Map<ActorId, Map<int, Known>>,
    change: ChangeV1,
    report: StorageReport,
    x: Ingested,
)
    requires
        outcome_of(x, m, change, report),
        within_bounds(versions_of(m, x.actor_id)),
        change.changeset matches Changeset::Full { version, seqs, last_seq, .. }
            ==> change.changeset.spec_is_complete() || (0 <= seqs.0 && seqs.1 <= last_seq
            && held_seqs(m, change.actor_id, version).subset_of(span(0, last_seq as int))),
    ensures
        within_bounds(recorded(m, x)[x.actor_id]),
{
    let before = versions_of(m, x.actor_id);
    let after = recorded(m, x)[x.actor_id];
    assert forall|v: int| after.contains_key(v) implies (#[trigger] after[v]).seqs_in_bounds() by {
        if x.versions.0 <= v <= x.versions.1 {
            assert(after[v] == x.known@);
        } else {
            assert(after[v] == before[v]);
        }
    }
}

/// The order of fragments is of no account: two lists of runs of sequence
/// numbers that hold the same runs, in whatever order and however often,
/// make the same set.
pub proof fn lemma_fragments_any_order(first: Seq<(i64, i64)>, second: Seq<(i64, i64)>)
    requires
        forall|r: (i64, i64)| first.contains(r) <==> second.contains(r),
    ensures
        ranges_values(first) == ranges_values(second),
{
    assert forall|x: int| in_ranges(first, x) <==> in_ranges(second, x) by {
        if in_ranges(first, x) {
            let i = choose|i: int| 0 <= i < first.len() && (#[trigger] first[i]).0 <= x <= first[i].1;
            assert(first.contains(first[i]));
            let j = choose|j: int| 0 <= j < second.len() && second[j] == first[i];
            assert(second[j].0 <= x <= second[j].1);
        }
        if in_ranges(second, x) {
            let i = choose|i: int|
                0 <= i < second.len() && (#[trigger] second[i]).0 <= x <= second[i].1;
            assert(second.contains(second[i]));
            let j = choose|j: int| 0 <= j < first.len() && first[j] == second[i];
            assert(first[j].0 <= x <= first[j].1);
        }
    }
    assert(ranges_values(first) =~= ranges_values(second));
}

/// The sequence numbers that a state holds as buffered: none where it is
/// not the state of a buffered version.
pub open spec fn buffered_with(k: Known) -> Set<int> {
    match k {
        Known::Partial { seqs, .. } => seqs,
        _ => Set::empty(),
    }
}

/// Once the outcome of a fragment is recorded, the bookkeeping holds for
/// the version what the outcome says: the next fragment of the version is
/// merged into just that.
pub proof fn lemma_held_after(m: Map<ActorId, Map<int, Known>>, x: Ingested)
    requires
        x.versions.0 == x.versions.1,
    ensures
        held_seqs(recorded(m, x), x.actor_id, x.versions.0) == buffered_with(x.known@),
{
}

/// Whether `xs` are the outcomes of taking in the fragments of one version
/// one after the other, each recorded before the next is taken in, starting
/// from a version buffered with `start`: fragment `i` carries the sequence
/// numbers `runs[i]` with the changes `changes[i]`.
pub open spec fn taken_in_turn(
    xs: Seq<Ingested>,
    actor: ActorId,
    version: i64,
    start: Set<int>,
    runs: Seq<(i64, i64)>,
    changes: Seq<Vec<Change>>,
    last_seq: i64,
    ts: Timestamp,
) -> bool {
    &&& xs.len() == runs.len()
    &&& xs.len() == changes.len()
    &&& forall|i: int|
        0 <= i < xs.len() ==> buffered(
            #[trigger] xs[i],
            actor,
            version,
            changes[i],
            runs[i],
            last_seq,
            ts,
            if i == 0 {
                start
            } else {
                buffered_with(xs[i - 1].known@)
            },
        )
}

/// Fragments add up: after the fragments of a version were taken in one
/// after the other, the version is buffered with what it started with and
/// just the sequence numbers that the fragments carry between them, the
/// rows written for it hold just those, and it is queued for promotion
/// exactly if none up to the last is missing among them.
pub proof fn lemma_fragments_add_up(
    xs: Seq<Ingested>,
    actor: ActorId,
    version: i64,
    start: Set<int>,
    runs: Seq<(i64, i64)>,
    changes: Seq<Vec<Change>>,
    last_seq: i64,
    ts: Timestamp,
)
    requires
        xs.len() > 0,
        taken_in_turn(xs, actor, version, start, runs, changes, last_seq, ts),
    ensures
        xs.last().known@ == (Known::Partial {
            seqs: start.union(ranges_values(runs)),
            last_seq,
            ts,
        }),
        ranges_values(row_runs(xs.last().seq_rows@)) == start.union(ranges_values(runs)),
        xs.last().schedule_apply == span(0, last_seq as int).subset_of(
            start.union(ranges_values(runs)),
        ),
    decreases xs.len(),
{
    let n = xs.len() - 1;
    let x = xs[n];
    let before: Set<int> = if n == 0 {
        start
    } else {
        buffered_with(xs[n - 1].known@)
    };
    assert(buffered(x, actor, version, changes[n], runs[n], last_seq, ts, before));
    if n > 0 {
        let front = xs.drop_last();
        assert forall|i: int| 0 <= i < front.len() implies buffered(
            #[trigger] front[i],
            actor,
            version,
            changes.drop_last()[i],
            runs.drop_last()[i],
            last_seq,
            ts,
            if i == 0 {
                start
            } else {
                buffered_with(front[i - 1].known@)
            },
        ) by {
            assert(front[i] == xs[i]);
            if i > 0 {
                assert(front[i - 1] == xs[i - 1]);
            }
        }
        lemma_fragments_add_up(
            front,
            actor,
            version,
            start,
            runs.drop_last(),
            changes.drop_last(),
            last_seq,
            ts,
        );
        assert(front.last() == xs[n - 1]);
        assert(before == start.union(ranges_values(runs.drop_last())));
    } else {
        assert(runs.drop_last() =~= Seq::<(i64, i64)>::empty());
    }
    let merged = before.union(span(runs[n].0 as int, runs[n].1 as int));
    let want = start.union(ranges_values(runs));
    assert forall|s: int| merged.contains(s) <==> want.contains(s) by {
        lemma_in_ranges_push(runs.drop_last(), runs[n], s);
        assert(runs.drop_last().push(runs[n]) =~= runs);
        if n == 0 {
            assert(!in_ranges(Seq::<(i64, i64)>::empty(), s));
        }
    }
    assert(merged =~= want);
}

/// The order of delivery is of no account: two deliveries of the fragments
/// of a version, in whatever order and however often each fragment came,
/// leave the version buffered with the same sequence numbers, and agree on
/// whether it is ready for promotion.
pub proof fn lemma_delivery_order(
    xs: Seq<Ingested>,
    ys: Seq<Ingested>,
    actor: ActorId,
    version: i64,
    start: Set<int>,
    first: Seq<(i64, i64)>,
    first_changes: Seq<Vec<Change>>,
    second: Seq<(i64, i64)>,
    second_changes: Seq<Vec<Change>>,
    last_seq: i64,
    ts: Timestamp,
)
    requires
        xs.len() > 0,
        ys.len() > 0,
        taken_in_turn(xs, actor, version, start, first, first_changes, last_seq, ts),
        taken_in_turn(ys, actor, version, start, second, second_changes, last_seq, ts),
        forall|r: (i64, i64)| first.contains(r) <==> second.contains(r),
    ensures
        xs.last().known@ == ys.last().known@,
        xs.last().schedule_apply == ys.last().schedule_apply,
{
    lemma_fragments_add_up(xs, actor, version, start, first, first_changes, last_seq, ts);
    lemma_fragments_add_up(ys, actor, version, start, second, second_changes, last_seq, ts);
    lemma_fragments_any_order(first, second);
}

/// Whether the counts are those of a counter that starts at 0 and never
/// falls.
pub open spec fn counting_up(counts: Seq<i64>) -> bool {
    &&& forall|i: int| 0 <= i < counts.len() ==> 0 <= #[trigger] counts[i]
    &&& forall|i: int, j: int| 0 <= i <= j < counts.len() ==> counts[i] <= counts[j]
}

/// With a counter that never falls, some change had an effect exactly when
/// the count ends above 0.
proof fn lemma_effect_shows(changes: Seq<Change>, counts: Seq<i64>)
    requires
        counting_up(counts),
        0 < changes.len() <= counts.len(),
    ensures
        impactful(changes, counts).len() > 0 <==> counts[changes.len() - 1] > 0,
    decreases changes.len(),
{
    let n = changes.len() - 1;
    let before = impactful(changes.drop_last(), counts);
    assert(impactful(changes, counts) == (if grew(counts, n) {
        before.push(changes.last())
    } else {
        before
    }));
    if n > 0 {
        lemma_effect_shows(changes.drop_last(), counts);
        assert(changes.drop_last().len() - 1 == n - 1);
        assert(0 <= counts[n - 1] <= counts[n]);
    } else {
        assert(changes.drop_last().len() == 0);
        assert(before.len() == 0);
        assert(0 <= counts[0]);
    }
}

/// A version ends the same whether it is applied at once or promoted from
/// the buffer: where the store's count of impacted rows never falls, ends
/// the same either way and the same `db_version` is given, the version
/// applied at once is recorded in the state that its promotion would leave.
/// With [`lemma_fragments_any_order`] this makes the end of a version
/// independent of how it was cut into fragments and of their order.
pub proof fn lemma_promoted_as_applied(
    x: Ingested,
    actor: ActorId,
    version: i64,
    changes: Vec<Change>,
    seqs: (i64, i64),
    last_seq: i64,
    ts: Timestamp,
    db_version: i64,
    counts: Seq<i64>,
)
    requires
        counting_up(counts),
        counts.len() == changes@.len(),
        counts.len() > 0,
        applied(x, actor, version, changes, seqs, last_seq, ts, db_version, counts),
    ensures
        x.known@ == promoted_state(last_seq, ts, counts.last(), db_version),
{
    lemma_effect_shows(changes@, counts);
}

/// A version ends the same however it was delivered. Let its fragments be
/// delivered twice, in whatever order and however often each, to a node that
/// had nothing of the version, and let them carry every sequence number up
/// to the last between them. Then after either delivery the version is
/// queued and the bookkeeping holds it as ready, so that it is promoted;
/// and where the store touches the same rows and gives the same
/// `db_version`, both promotions leave it in one state, which is the state
/// recorded for it where it is applied at once from one complete changeset.
pub proof fn lemma_same_end_however_delivered(
    m: Map<ActorId, Map<int, Known>>,
    xs: Seq<Ingested>,
    ys: Seq<Ingested>,
    actor: ActorId,
    version: i64,
    first: Seq<(i64, i64)>,
    first_changes: Seq<Vec<Change>>,
    second: Seq<(i64, i64)>,
    second_changes: Seq<Vec<Change>>,
    last_seq: i64,
    ts: Timestamp,
    p: Promoted,
    q: Promoted,
    db_version: i64,
    at_once: Ingested,
    changes: Vec<Change>,
    counts: Seq<i64>,
)
    requires
        xs.len() > 0,
        ys.len() > 0,
        taken_in_turn(xs, actor, version, Set::empty(), first, first_changes, last_seq, ts),
        taken_in_turn(ys, actor, version, Set::empty(), second, second_changes, last_seq, ts),
        forall|r: (i64, i64)| first.contains(r) <==> second.contains(r),
        span(0, last_seq as int).subset_of(ranges_values(first)),
        counting_up(counts),
        counts.len() == changes@.len(),
        counts.len() > 0,
        applied(at_once, actor, version, changes, (0, last_seq), last_seq, ts, db_version, counts),
        forall|l: i64, t: Timestamp| #[trigger]
            ready(recorded(m, xs.last()), actor, version, l, t) ==> promoted(
                p,
                actor,
                version,
                l,
                t,
                counts.last(),
                db_version,
            ),
        forall|l: i64, t: Timestamp| #[trigger]
            ready(recorded(m, ys.last()), actor, version, l, t) ==> promoted(
                q,
                actor,
                version,
                l,
                t,
                counts.last(),
                db_version,
            ),
    ensures
        xs.last().schedule_apply,
        ys.last().schedule_apply,
        ready(recorded(m, xs.last()), actor, version, last_seq, ts),
        ready(recorded(m, ys.last()), actor, version, last_seq, ts),
        p.known@ == q.known@,
        p.known@ == at_once.known@,
        p.bookkeeping == q.bookkeeping,
{
    let none = Set::<int>::empty();
    lemma_fragments_add_up(xs, actor, version, none, first, first_changes, last_seq, ts);
    lemma_fragments_add_up(ys, actor, version, none, second, second_changes, last_seq, ts);
    lemma_fragments_any_order(first, second);
    assert(none.union(ranges_values(first)) =~= ranges_values(first));
    assert(none.union(ranges_values(second)) =~= ranges_values(second));
    let n = xs.len() - 1;
    let k = ys.len() - 1;
    assert(xs[n].versions == (version, version) && xs[n].actor_id == actor);
    assert(ys[k].versions == (version, version) && ys[k].actor_id == actor);
    assert(recorded(m, xs.last())[actor][version as int] == xs.last().known@);
    assert(recorded(m, ys.last())[actor][version as int] == ys.last().known@);
    assert(ready(recorded(m, xs.last()), actor, version, last_seq, ts));
    assert(ready(recorded(m, ys.last()), actor, version, last_seq, ts));
    lemma_promoted_as_applied(
        at_once,
        actor,
        version,
        changes,
        (0, last_seq),
        last_seq,
        ts,
        db_version,
        counts,
    );
}

/// One insertion into the bookkeeping of an actor: the versions and the
/// state they are set to.
pub ghost struct Insertion {
    pub versions: (i64, i64),
    pub known: Known,
}

/// The bookkeeping `m` after the insertions of the list, made in its order.
pub open spec fn inserted_all(m: Map<int, Known>, ops: Seq<Insertion>) -> Map<int, Known>
    decreases ops.len(),
{
    if ops.len() == 0 {
        m
    } else {
        inserted(inserted_all(m, ops.drop_last()), ops.last().versions, ops.last().known)
    }
}

/// Whether no version is set by two insertions of the list.
pub open spec fn apart(ops: Seq<Insertion>) -> bool {
    forall|i: int, j: int|
        0 <= i < j < ops.len() ==> (#[trigger] ops[i]).versions.1 < (#[trigger] ops[j]).versions.0
            || ops[j].versions.1 < ops[i].versions.0
}

/// Whether insertion `op` sets version `v`.
pub open spec fn sets(op: Insertion, v: int) -> bool {
    op.versions.0 <= v <= op.versions.1
}

/// After insertions that set no version twice, a version set by one of them
/// has the state that one gave it, and every other version is as it was.
pub proof fn lemma_inserted_all_at(m: Map<int, Known>, ops: Seq<Insertion>, v: int)
    requires
        apart(ops),
    ensures
        forall|i: int|
            0 <= i < ops.len() && sets(#[trigger] ops[i], v) ==> inserted_all(m, ops).contains_key(
                v,
            ) && inserted_all(m, ops)[v] == ops[i].known,
        (forall|i: int| 0 <= i < ops.len() ==> !sets(#[trigger] ops[i], v)) ==> inserted_all(
            m,
            ops,
        ).contains_key(v) == m.contains_key(v) && (m.contains_key(v) ==> inserted_all(m, ops)[v]
            == m[v]),
    decreases ops.len(),
{
    if ops.len() > 0 {
        let front = ops.drop_last();
        assert forall|i: int, j: int| 0 <= i < j < front.len() implies (
        #[trigger] front[i]).versions.1 < (#[trigger] front[j]).versions.0 || front[j].versions.1
            < front[i].versions.0 by {
            assert(front[i] == ops[i] && front[j] == ops[j]);
        }
        lemma_inserted_all_at(m, front, v);
        let n = ops.len() - 1;
        assert forall|i: int| 0 <= i < ops.len() && sets(#[trigger] ops[i], v) implies inserted_all(
            m,
            ops,
        ).contains_key(v) && inserted_all(m, ops)[v] == ops[i].known by {
            if i < n {
                assert(front[i] == ops[i]);
                assert(ops[i].versions.1 < ops[n].versions.0 || ops[n].versions.1
                    < ops[i].versions.0);
            }
        }
        if forall|i: int| 0 <= i < ops.len() ==> !sets(#[trigger] ops[i], v) {
            assert(!sets(ops[n], v));
            assert forall|i: int| 0 <= i < front.len() implies !sets(#[trigger] front[i], v) by {
                assert(front[i] == ops[i]);
            }
        }
    }
}

/// The order of versions is of no account: insertions that set no version
/// twice leave the same bookkeeping in whatever order they are made.
pub proof fn lemma_insertions_any_order(
    m: Map<int, Known>,
    first: Seq<Insertion>,
    second: Seq<Insertion>,
)
    requires
        apart(first),
        apart(second),
        forall|op: Insertion| first.contains(op) <==> second.contains(op),
    ensures
        inserted_all(m, first) == inserted_all(m, second),
{
    let a = inserted_all(m, first);
    let b = inserted_all(m, second);
    assert forall|v: int| #[trigger]
        a.contains_key(v) == b.contains_key(v) && (a.contains_key(v) ==> a[v] == b[v]) by {
        lemma_inserted_all_at(m, first, v);
        lemma_inserted_all_at(m, second, v);
        if exists|i: int| 0 <= i < first.len() && sets(#[trigger] first[i], v) {
            let i = choose|i: int| 0 <= i < first.len() && sets(#[trigger] first[i], v);
            assert(first.contains(first[i]));
            let j = choose|j: int| 0 <= j < second.len() && second[j] == first[i];
            assert(sets(second[j], v));
        } else if exists|j: int| 0 <= j < second.len() && sets(#[trigger] second[j], v) {
            let j = choose|j: int| 0 <= j < second.len() && sets(#[trigger] second[j], v);
            assert(second.contains(second[j]));
            let i = choose|i: int| 0 <= i < first.len() && first[i] == second[j];
            assert(sets(first[i], v));
        }
    }
    assert(a.dom() =~= b.dom());
    assert(a =~= b);
}

} // verus!
