//! Taking in a changeset.
//!
//! The bookkeeping in memory is what the ingestor goes by. The table of
//! buffered sequence numbers mirrors it: it is read when the agent starts,
//! and whenever a fragment is taken in, the rows of its version are replaced
//! by the runs that the bookkeeping then holds. So merging a fragment into
//! what the bookkeeping holds is merging it into what is persisted.
//!
//! The ingestor works in steps, with the store in between. It first decides,
//! from the bookkeeping alone, what has to be done ([`plan_ingest`]). The
//! caller does that work in one transaction and reports what the store
//! answered. From the report the ingestor decides what the bookkeeping will
//! say of the versions, which rows persist that, and what is passed on to
//! other nodes ([`process_single_version`]). The caller writes the rows and
//! commits; only then is the outcome recorded in memory
//! ([`record_ingested`]), so a failed transaction leaves the bookkeeping as
//! it was.

use crate::booked::inserted;
use crate::bookie::{actor_knows, versions_of, Bookie};
use crate::changes::{impactful, select_impactful, Change, ChangeV1, Changeset};
use crate::known::{ActorId, Known, KnownDbVersion, Timestamp};
use crate::rows::{cleared_row, current_row, BookkeepingRow, SeqBookkeepingRow};
use crate::seqs::{
    all_ordered, ranges_values, separated, seq_values, seqs_cover, seqs_from_ranges, seqs_insert,
    seqs_ranges, span,
};
use vstd::prelude::*;

verus! {

/// What the store has to do for a changeset.
#[derive(Clone, Copy, Debug, PartialEq, Eq)]
pub enum IngestPlan {
    /// Nothing: the bookkeeping has it all.
    AlreadyKnown,
    /// Drop whatever is buffered for the versions.
    StoreEmpty { versions: (i64, i64) },
    /// Buffer the changes of the fragment.
    Buffer { version: i64 },
    /// Read the next `db_version`, apply the changes one by one, and read
    /// the count of impacted rows after each.
    Apply { version: i64 },
}

/// What the store answered.
#[derive(Debug, PartialEq, Eq)]
pub enum StorageReport {
    /// The transaction failed; the text says how.
    Failed(String),
    /// What was buffered for the versions is dropped.
    Emptied,
    /// The changes of the fragment are buffered.
    Buffered,
    /// The changes went in, to be applied under `db_version`;
    /// `rows_impacted[i]` is the running count read after change `i`.
    Applied { db_version: i64, rows_impacted: Vec<i64> },
}

/// Why a changeset was not taken in.
#[derive(Debug, PartialEq, Eq)]
pub enum ChangeError {
    /// The store failed.
    Storage(String),
    /// The report does not answer the plan for the changeset, or what it
    /// holds cannot be: a count of impacted rows too many or too few, rows
    /// touched by a promotion without a `db_version` for them.
    Report,
}

/// What taking in a changeset comes to.
#[derive(Debug, PartialEq, Eq)]
pub struct Ingested {
    /// The actor and versions concerned.
    pub actor_id: ActorId,
    pub versions: (i64, i64),
    /// What the bookkeeping is to say of those versions.
    pub known: KnownDbVersion,
    /// What is passed on to other nodes.
    pub changeset: Changeset,
    /// The row to write to the bookkeeping table, if any.
    pub bookkeeping: Option<BookkeepingRow>,
    /// For a fragment: the rows to put in the place of those recorded for
    /// the version in the table of buffered sequence numbers.
    pub seq_rows: Vec<SeqBookkeepingRow>,
    /// Whether the version is fully buffered now and has to be queued for
    /// promotion.
    pub schedule_apply: bool,
    /// The `db_version` under which changes were applied, if any were:
    /// subscribers are told of the changes then.
    pub db_version: Option<i64>,
}

/// The plan for a changeset, given the bookkeeping `m`.
pub open spec fn plan_for(m: Map<ActorId, Map<int, Known>>, change: ChangeV1) -> IngestPlan {
    if actor_knows(m, change.actor_id, change.changeset.spec_versions(), change.changeset.spec_seqs()) {
        IngestPlan::AlreadyKnown
    } else {
        match change.changeset {
            Changeset::Empty { versions } => IngestPlan::StoreEmpty { versions },
            Changeset::Full { version, .. } => if change.changeset.spec_is_complete() {
                IngestPlan::Apply { version }
            } else {
                IngestPlan::Buffer { version }
            },
        }
    }
}

/// Decides what the store has to do for a changeset. Nothing, if the
/// bookkeeping has every version and sequence number of it already.
pub fn plan_ingest(bookie: &Bookie, change: &ChangeV1) -> (plan: IngestPlan)
    requires
        bookie.wf(),
    ensures
        plan == plan_for(bookie@, *change),
{
    if bookie.contains(change.actor_id, change.changeset.versions(), change.changeset.seqs()) {
        return IngestPlan::AlreadyKnown;
    }
    match &change.changeset {
        Changeset::Empty { versions } => IngestPlan::StoreEmpty { versions: *versions },
        Changeset::Full { version, .. } => if change.changeset.is_complete() {
            IngestPlan::Apply { version: *version }
        } else {
            IngestPlan::Buffer { version: *version }
        },
    }
}

/// The outcome for versions found empty: they are cleared, a cleared row
/// persists that, and the news is passed on.
pub open spec fn emptied(x: Ingested, actor: ActorId, versions: (i64, i64)) -> bool {
    &&& x.actor_id == actor
    &&& x.versions == versions
    &&& x.known@ == Known::Cleared
    &&& x.changeset == (Changeset::Empty { versions })
    &&& x.bookkeeping == Some(cleared_row(actor, versions))
    &&& x.seq_rows@.len() == 0
    &&& !x.schedule_apply
    &&& x.db_version is None
}

/// The runs of sequence numbers that the rows speak of.
pub open spec fn row_runs(rows: Seq<SeqBookkeepingRow>) -> Seq<(i64, i64)> {
    rows.map_values(|r: SeqBookkeepingRow| (r.start_seq, r.end_seq))
}

/// The sequence numbers that the bookkeeping `m` holds for `version` of
/// `actor` as buffered: none where the version is not buffered.
pub open spec fn held_seqs(m: Map<ActorId, Map<int, Known>>, actor: ActorId, version: i64) -> Set<
    int,
> {
    let of_actor = versions_of(m, actor);
    if of_actor.contains_key(version as int) {
        match of_actor[version as int] {
            Known::Partial { seqs, .. } => seqs,
            _ => Set::empty(),
        }
    } else {
        Set::empty()
    }
}

/// The outcome for a fragment, where `held` are the sequence numbers that
/// the version was buffered with before: the version is buffered with those
/// and the fragment's; the rows to write hold exactly those, in separate
/// runs; the fragment is passed on as it came; and the version is queued for
/// promotion if no sequence number up to the last is missing.
pub open spec fn buffered(
    x: Ingested,
    actor: ActorId,
    version: i64,
    changes: Vec<Change>,
    seqs: (i64, i64),
    last_seq: i64,
    ts: Timestamp,
    held: Set<int>,
) -> bool {
    let merged = held.union(span(seqs.0 as int, seqs.1 as int));
    &&& x.actor_id == actor
    &&& x.versions == (version, version)
    &&& x.known@ == Known::Partial { seqs: merged, last_seq, ts }
    &&& x.changeset == (Changeset::Full { version, changes, seqs, last_seq, ts })
    &&& x.bookkeeping is None
    &&& separated(row_runs(x.seq_rows@))
    &&& ranges_values(row_runs(x.seq_rows@)) == merged
    &&& forall|i: int|
        0 <= i < x.seq_rows@.len() ==> {
            let r = #[trigger] x.seq_rows@[i];
            r.site_id == actor && r.version == version && r.last_seq == last_seq && r.ts == ts
        }
    &&& x.schedule_apply == span(0, last_seq as int).subset_of(merged)
    &&& x.db_version is None
}

/// The outcome for a complete version. Where some change had an effect, the
/// version is applied under `db_version`, and the changes that had an effect
/// are passed on. Where none had, the version is cleared and passed on as
/// empty.
pub open spec fn applied(
    x: Ingested,
    actor: ActorId,
    version: i64,
    changes: Vec<Change>,
    seqs: (i64, i64),
    last_seq: i64,
    ts: Timestamp,
    db_version: i64,
    rows_impacted: Seq<i64>,
) -> bool {
    let kept = impactful(changes@, rows_impacted);
    &&& x.actor_id == actor
    &&& x.versions == (version, version)
    &&& x.seq_rows@.len() == 0
    &&& !x.schedule_apply
    &&& if kept.len() > 0 {
        &&& x.known@ == Known::Current { db_version, last_seq, ts }
        &&& x.changeset matches Changeset::Full {
            version: v,
            changes: c,
            seqs: s,
            last_seq: l,
            ts: t,
        } && v == version && c@ == kept && s == seqs && l == last_seq && t == ts
        &&& x.bookkeeping == Some(current_row(actor, version, db_version, last_seq, ts))
        &&& x.db_version == Some(db_version)
    } else {
        &&& x.known@ == Known::Cleared
        &&& x.changeset == (Changeset::Empty { versions: (version, version) })
        &&& x.bookkeeping == Some(cleared_row(actor, (version, version)))
        &&& x.db_version is None
    }
}

/// Takes in the news that `versions` of `actor` are empty.
pub fn ingest_empty(actor: ActorId, versions: (i64, i64)) -> (x: Ingested)
    ensures
        emptied(x, actor, versions),
{
    Ingested {
        actor_id: actor,
        versions,
        known: KnownDbVersion::Cleared,
        changeset: Changeset::Empty { versions },
        bookkeeping: Some(BookkeepingRow::cleared(actor, versions)),
        seq_rows: Vec::new(),
        schedule_apply: false,
        db_version: None,
    }
}

/// Takes in a fragment of `version` of `actor`, given the runs of sequence
/// numbers `held` that the version was buffered with before. There is no
/// outcome if one of those runs ends before it starts.
pub fn ingest_fragment(
    actor: ActorId,
    version: i64,
    changes: Vec<Change>,
    seqs: (i64, i64),
    last_seq: i64,
    ts: Timestamp,
    held: &Vec<(i64, i64)>,
) -> (r: Option<Ingested>)
    requires
        seqs.0 <= seqs.1,
    ensures
        match r {
            Some(x) => all_ordered(held@) && buffered(
                x,
                actor,
                version,
                changes,
                seqs,
                last_seq,
                ts,
                ranges_values(held@),
            ),
            None => !all_ordered(held@),
        },
{
    let mut merged = match seqs_from_ranges(held) {
        Some(s) => s,
        None => {
            return None;
        },
    };
    seqs_insert(&mut merged, seqs.0, seqs.1);
    let runs = seqs_ranges(&merged);
    let mut seq_rows: Vec<SeqBookkeepingRow> = Vec::new();
    let mut i: usize = 0;
    while i < runs.len()
        invariant
            i <= runs@.len(),
            seq_rows@.len() == i,
            forall|j: int|
                0 <= j < i ==> (#[trigger] seq_rows@[j]) == (SeqBookkeepingRow {
                    site_id: actor,
                    version,
                    start_seq: runs@[j].0,
                    end_seq: runs@[j].1,
                    last_seq,
                    ts,
                }),
        decreases runs@.len() - i,
    {
        let (start_seq, end_seq) = runs[i];
        seq_rows.push(SeqBookkeepingRow { site_id: actor, version, start_seq, end_seq, last_seq, ts });
        i = i + 1;
    }
    let schedule_apply = seqs_cover(&merged, 0, last_seq);
    proof {
        assert(row_runs(seq_rows@) =~= runs@);
        assert(ranges_values(runs@) =~= seq_values(merged));
    }
    Some(
        Ingested {
            actor_id: actor,
            versions: (version, version),
            known: KnownDbVersion::Partial { seqs: merged, last_seq, ts },
            changeset: Changeset::Full { version, changes, seqs, last_seq, ts },
            bookkeeping: None,
            seq_rows,
            schedule_apply,
            db_version: None,
        },
    )
}

/// Takes in the complete `version` of `actor` after its changes went into
/// the store: `rows_impacted[i]` is the store's running count of impacted
/// rows, read after change `i`. There is no outcome unless there is one
/// count for each change.
pub fn ingest_complete(
    actor: ActorId,
    version: i64,
    changes: Vec<Change>,
    seqs: (i64, i64),
    last_seq: i64,
    ts: Timestamp,
    db_version: i64,
    rows_impacted: &Vec<i64>,
) -> (r: Option<Ingested>)
    ensures
        match r {
            Some(x) => rows_impacted@.len() == changes@.len() && applied(
                x,
                actor,
                version,
                changes,
                seqs,
                last_seq,
                ts,
                db_version,
                rows_impacted@,
            ),
            None => rows_impacted@.len() != changes@.len(),
        },
{
    if rows_impacted.len() != changes.len() {
        return None;
    }
    let kept = select_impactful(changes, rows_impacted);
    if kept.len() > 0 {
        Some(
            Ingested {
                actor_id: actor,
                versions: (version, version),
                known: KnownDbVersion::Current { db_version, last_seq, ts },
                changeset: Changeset::Full { version, changes: kept, seqs, last_seq, ts },
                bookkeeping: Some(
                    BookkeepingRow::current(actor, version, db_version, last_seq, ts),
                ),
                seq_rows: Vec::new(),
                schedule_apply: false,
                db_version: Some(db_version),
            },
        )
    } else {
        Some(
            Ingested {
                actor_id: actor,
                versions: (version, version),
                known: KnownDbVersion::Cleared,
                changeset: Changeset::Empty { versions: (version, version) },
                bookkeeping: Some(BookkeepingRow::cleared(actor, (version, version))),
                seq_rows: Vec::new(),
                schedule_apply: false,
                db_version: None,
            },
        )
    }
}

/// Whether `x` is the outcome of taking in `change` into the bookkeeping `m`
/// after the store answered `report`.
pub open spec fn outcome_of(
    x: Ingested,
    m: Map<ActorId, Map<int, Known>>,
    change: ChangeV1,
    report: StorageReport,
) -> bool {
    match (change.changeset, report) {
        (Changeset::Empty { versions }, StorageReport::Emptied) => emptied(
            x,
            change.actor_id,
            versions,
        ),
        (Changeset::Full { version, changes, seqs, last_seq, ts }, StorageReport::Buffered) => {
            !change.changeset.spec_is_complete() && buffered(
                x,
                change.actor_id,
                version,
                changes,
                seqs,
                last_seq,
                ts,
                held_seqs(m, change.actor_id, version),
            )
        },
        (
            Changeset::Full { version, changes, seqs, last_seq, ts },
            StorageReport::Applied { db_version, rows_impacted },
        ) => change.changeset.spec_is_complete() && rows_impacted@.len() == changes@.len()
            && applied(
            x,
            change.actor_id,
            version,
            changes,
            seqs,
            last_seq,
            ts,
            db_version,
            rows_impacted@,
        ),
        _ => false,
    }
}

/// Whether the report answers the plan for the changeset, and holds what
/// can be.
pub open spec fn report_fits(change: ChangeV1, report: StorageReport) -> bool {
    match (change.changeset, report) {
        (Changeset::Empty { .. }, StorageReport::Emptied) => true,
        (Changeset::Full { .. }, StorageReport::Buffered) => !change.changeset.spec_is_complete(),
        (Changeset::Full { changes, .. }, StorageReport::Applied { rows_impacted, .. }) => {
            change.changeset.spec_is_complete() && rows_impacted@.len() == changes@.len()
        },
        _ => false,
    }
}

/// The runs of sequence numbers that the bookkeeping holds for `version` of
/// `actor` as buffered.
pub fn held_runs(bookie: &Bookie, actor: ActorId, version: i64) -> (runs: Vec<(i64, i64)>)
    requires
        bookie.wf(),
    ensures
        separated(runs@),
        ranges_values(runs@) == held_seqs(bookie@, actor, version),
{
    let held = match bookie.get(actor) {
        Some(booked) => match booked.get(version) {
            Some(KnownDbVersion::Partial { seqs, .. }) => Some(seqs),
            _ => None,
        },
        None => None,
    };
    match held {
        Some(seqs) => {
            let runs = seqs_ranges(seqs);
            assert(ranges_values(runs@) =~= seq_values(*seqs));
            runs
        },
        None => {
            let runs: Vec<(i64, i64)> = Vec::new();
            assert(ranges_values(runs@) =~= Set::<int>::empty());
            runs
        },
    }
}

/// Decides what taking in `change` comes to, once the store has answered.
///
/// A changeset that the bookkeeping has in full comes to nothing, whatever
/// the report. Else a failed transaction is an error, and so is a report
/// that does not answer the plan for the changeset. In every other case
/// there is an outcome, as [`emptied`], [`buffered`] and [`applied`]
/// describe it; a fragment is merged into what the bookkeeping holds for
/// its version.
pub fn process_single_version(bookie: &Bookie, change: ChangeV1, report: StorageReport) -> (r:
    Result<Option<Ingested>, ChangeError>)
    requires
        bookie.wf(),
        change.changeset.wf(),
    ensures
        plan_for(bookie@, change) == IngestPlan::AlreadyKnown ==> r == Ok::<
            Option<Ingested>,
            ChangeError,
        >(None),
        plan_for(bookie@, change) != IngestPlan::AlreadyKnown ==> match r {
            Ok(Some(x)) => outcome_of(x, bookie@, change, report),
            Ok(None) => false,
            Err(ChangeError::Storage(msg)) => report == StorageReport::Failed(msg),
            Err(ChangeError::Report) => !(report is Failed) && !report_fits(change, report),
        },
{
    if bookie.contains(change.actor_id, change.changeset.versions(), change.changeset.seqs()) {
        return Ok(None);
    }
    let complete = change.changeset.is_complete();
    let ChangeV1 { actor_id, changeset } = change;
    match (changeset, report) {
        (_, StorageReport::Failed(msg)) => Err(ChangeError::Storage(msg)),
        (Changeset::Empty { versions }, StorageReport::Emptied) => Ok(
            Some(ingest_empty(actor_id, versions)),
        ),
        (Changeset::Full { version, changes, seqs, last_seq, ts }, StorageReport::Buffered) => {
            if complete {
                return Err(ChangeError::Report);
            }
            let held = held_runs(bookie, actor_id, version);
            assert(all_ordered(held@));
            match ingest_fragment(actor_id, version, changes, seqs, last_seq, ts, &held) {
                Some(x) => Ok(Some(x)),
                None => Err(ChangeError::Report),
            }
        },
        (
            Changeset::Full { version, changes, seqs, last_seq, ts },
            StorageReport::Applied { db_version, rows_impacted },
        ) => {
            if !complete {
                return Err(ChangeError::Report);
            }
            match ingest_complete(
                actor_id,
                version,
                changes,
                seqs,
                last_seq,
                ts,
                db_version,
                &rows_impacted,
            ) {
                Some(x) => Ok(Some(x)),
                None => Err(ChangeError::Report),
            }
        },
        _ => Err(ChangeError::Report),
    }
}

/// Records the outcome of a changeset in the bookkeeping, once the store has
/// committed it.
pub fn record_ingested(bookie: &mut Bookie, x: &Ingested)
    requires
        old(bookie).wf(),
        x.versions.0 <= x.versions.1,
        x.known@ == Known::Cleared || x.versions.0 == x.versions.1,
    ensures
        final(bookie).wf(),
        final(bookie)@ == old(bookie)@.insert(
            x.actor_id,
            inserted(versions_of(old(bookie)@, x.actor_id), x.versions, x.known@),
        ),
{
    bookie.insert_many(x.actor_id, x.versions, x.known.clone());
}

} // verus!
