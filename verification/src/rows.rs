//! The rows that persist the bookkeeping.
//!
//! Applied and cleared versions are kept in one table, a row per stored
//! range. Buffered versions are kept in another, a row per run of sequence
//! numbers received.

use crate::known::{ActorId, Known, KnownDbVersion, Timestamp};
use vstd::prelude::*;

verus! {

/// A row of the bookkeeping table. A cleared range has its end set and no
/// `db_version`; an applied version has `db_version` and `last_seq` set and
/// no end.
#[derive(Clone, Copy, Debug, PartialEq, Eq, Structural)]
pub struct BookkeepingRow {
    pub actor_id: ActorId,
    pub start_version: i64,
    pub end_version: Option<i64>,
    pub db_version: Option<i64>,
    pub last_seq: Option<i64>,
    pub ts: Option<Timestamp>,
}

/// A row of the table of buffered sequence numbers: the version `version` of
/// `site_id` has the sequence numbers `start_seq..=end_seq`.
#[derive(Clone, Copy, Debug, PartialEq, Eq, Structural)]
pub struct SeqBookkeepingRow {
    pub site_id: ActorId,
    pub version: i64,
    pub start_seq: i64,
    pub end_seq: i64,
    pub last_seq: i64,
    pub ts: Timestamp,
}

/// The row for the cleared versions `versions.0..=versions.1` of `actor`.
pub open spec fn cleared_row(actor: ActorId, versions: (i64, i64)) -> BookkeepingRow {
    BookkeepingRow {
        actor_id: actor,
        start_version: versions.0,
        end_version: Some(versions.1),
        db_version: None,
        last_seq: None,
        ts: None,
    }
}

/// The row for version `version` of `actor`, applied under `db_version`.
pub open spec fn current_row(
    actor: ActorId,
    version: i64,
    db_version: i64,
    last_seq: i64,
    ts: Timestamp,
) -> BookkeepingRow {
    BookkeepingRow {
        actor_id: actor,
        start_version: version,
        end_version: None,
        db_version: Some(db_version),
        last_seq: Some(last_seq),
        ts: Some(ts),
    }
}

/// The row that persists the state `k` of the versions `versions` of
/// `actor`. A buffered version has none: it is kept in the other table.
pub open spec fn row_of(actor: ActorId, versions: (i64, i64), k: Known) -> Option<BookkeepingRow> {
    match k {
        Known::Current { db_version, last_seq, ts } => Some(
            current_row(actor, versions.0, db_version, last_seq, ts),
        ),
        Known::Cleared => Some(cleared_row(actor, versions)),
        Known::Partial { .. } => None,
    }
}

impl BookkeepingRow {
    /// The row for the cleared versions `versions.0..=versions.1` of `actor`.
    pub fn cleared(actor: ActorId, versions: (i64, i64)) -> (row: BookkeepingRow)
        ensures
            row == cleared_row(actor, versions),
    {
        BookkeepingRow {
            actor_id: actor,
            start_version: versions.0,
            end_version: Some(versions.1),
            db_version: None,
            last_seq: None,
            ts: None,
        }
    }

    /// The row for version `version` of `actor`, applied under `db_version`.
    pub fn current(actor: ActorId, version: i64, db_version: i64, last_seq: i64, ts: Timestamp) -> (row:
        BookkeepingRow)
        ensures
            row == current_row(actor, version, db_version, last_seq, ts),
    {
        BookkeepingRow {
            actor_id: actor,
            start_version: version,
            end_version: None,
            db_version: Some(db_version),
            last_seq: Some(last_seq),
            ts: Some(ts),
        }
    }

    /// The row that persists the state `known` of the versions `versions` of
    /// `actor`, if that state is kept in this table.
    pub fn for_known(actor: ActorId, versions: (i64, i64), known: &KnownDbVersion) -> (row: Option<
        BookkeepingRow,
    >)
        ensures
            row == row_of(actor, versions, known@),
    {
        match known {
            KnownDbVersion::Current { db_version, last_seq, ts } => Some(
                BookkeepingRow::current(actor, versions.0, *db_version, *last_seq, *ts),
            ),
            KnownDbVersion::Cleared => Some(BookkeepingRow::cleared(actor, versions)),
            KnownDbVersion::Partial { .. } => None,
        }
    }

    /// The versions the row speaks of: from its start to its end, or its
    /// start alone where no end is set.
    pub open spec fn spec_versions(&self) -> (i64, i64) {
        (
            self.start_version,
            match self.end_version {
                Some(e) => e,
                None => self.start_version,
            },
        )
    }

    /// The versions the row speaks of.
    #[verifier::when_used_as_spec(spec_versions)]
    pub fn versions(&self) -> (r: (i64, i64))
        ensures
            r == self.spec_versions(),
    {
        (
            self.start_version,
            match self.end_version {
                Some(e) => e,
                None => self.start_version,
            },
        )
    }
}

} // verus!
