//! Promoting a fully buffered version to the live store.
//!
//! A version that arrived in fragments stays buffered until no sequence
//! number is missing. Then, in one transaction, the caller moves its changes
//! from the buffer to the store, in the order of `db_version` and sequence
//! number, and reports how many rows that touched. This is the only place
//! where a buffered version becomes applied or cleared.

use crate::bookie::{versions_of, Bookie};
use crate::ingest::ChangeError;
use crate::known::{ActorId, Known, KnownDbVersion, Timestamp};
use crate::rows::{cleared_row, current_row, BookkeepingRow};
use vstd::prelude::*;

verus! {

/// What the store answered to a promotion.
#[derive(Debug, PartialEq, Eq)]
pub enum PromotionReport {
    /// The transaction failed; the text says how.
    Failed(String),
    /// The buffered changes went in and touched `rows_impacted` rows. Where
    /// they touched any, the store was asked for the next `db_version`.
    Moved { rows_impacted: i64, db_version: Option<i64> },
}

/// What a promotion comes to.
#[derive(Debug, PartialEq, Eq)]
pub struct Promoted {
    pub actor_id: ActorId,
    pub version: i64,
    /// What the bookkeeping is to say of the version: applied or cleared.
    pub known: KnownDbVersion,
    /// The row to write to the bookkeeping table.
    pub bookkeeping: BookkeepingRow,
}

/// Whether the bookkeeping `m` holds `version` of `actor` as buffered with
/// no sequence number missing, its last one being `last_seq` and its clock
/// reading `ts`.
pub open spec fn ready(
    m: Map<ActorId, Map<int, Known>>,
    actor: ActorId,
    version: i64,
    last_seq: i64,
    ts: Timestamp,
) -> bool {
    let of_actor = versions_of(m, actor);
    &&& of_actor.contains_key(version as int)
    &&& of_actor[version as int].fully_buffered()
    &&& of_actor[version as int] matches Known::Partial { last_seq: l, ts: t, .. } && l == last_seq
        && t == ts
}

/// Whether `version` of `actor` can be promoted: the bookkeeping holds it as
/// buffered, and no sequence number is missing. Gives its last sequence
/// number and clock reading if so.
pub fn promotion_ready(bookie: &Bookie, actor: ActorId, version: i64) -> (r: Option<
    (i64, Timestamp),
>)
    requires
        bookie.wf(),
    ensures
        match r {
            Some(p) => ready(bookie@, actor, version, p.0, p.1),
            None => forall|l: i64, t: Timestamp| !ready(bookie@, actor, version, l, t),
        },
{
    let booked = match bookie.get(actor) {
        Some(b) => b,
        None => {
            return None;
        },
    };
    match booked.get(version) {
        Some(known) => {
            if known.is_fully_buffered() {
                match known {
                    KnownDbVersion::Partial { last_seq, ts, .. } => Some((*last_seq, *ts)),
                    _ => None,
                }
            } else {
                None
            }
        },
        None => None,
    }
}

/// The state a promoted version ends in: applied under `db_version` if the
/// move touched any row, cleared if it touched none.
pub open spec fn promoted_state(last_seq: i64, ts: Timestamp, rows_impacted: i64, db_version: i64) -> Known {
    if rows_impacted > 0 {
        Known::Current { db_version, last_seq, ts }
    } else {
        Known::Cleared
    }
}

/// Whether `p` is what the promotion of `version` of `actor` comes to,
/// where the move touched `rows_impacted` rows: the version ends as
/// [`promoted_state`] says, with the bookkeeping row of that state.
pub open spec fn promoted(
    p: Promoted,
    actor: ActorId,
    version: i64,
    last_seq: i64,
    ts: Timestamp,
    rows_impacted: i64,
    db_version: i64,
) -> bool {
    &&& p.actor_id == actor
    &&& p.version == version
    &&& p.known@ == promoted_state(last_seq, ts, rows_impacted, db_version)
    &&& p.bookkeeping == (if rows_impacted > 0 {
        current_row(actor, version, db_version, last_seq, ts)
    } else {
        cleared_row(actor, (version, version))
    })
}

/// Decides what the promotion of `version` of `actor` comes to, once the
/// store has answered.
///
/// A version that the bookkeeping does not hold as fully buffered is not
/// promoted, whatever the report. Else a failed transaction is an error,
/// and so is a report of rows touched that lacks the `db_version`. Else the
/// version ends as [`promoted`] says: applied under the `db_version` where
/// rows were touched, cleared where none was.
pub fn process_fully_buffered_changes(
    bookie: &Bookie,
    actor: ActorId,
    version: i64,
    report: PromotionReport,
) -> (r: Result<Option<Promoted>, ChangeError>)
    requires
        bookie.wf(),
    ensures
        (forall|l: i64, t: Timestamp| !ready(bookie@, actor, version, l, t)) ==> r == Ok::<
            Option<Promoted>,
            ChangeError,
        >(None),
        forall|l: i64, t: Timestamp| #[trigger]
            ready(bookie@, actor, version, l, t) ==> match report {
                PromotionReport::Failed(text) => r == Err::<Option<Promoted>, ChangeError>(
                    ChangeError::Storage(text),
                ),
                PromotionReport::Moved { rows_impacted, db_version } => match db_version {
                    Some(d) => r matches Ok(Some(p)) && promoted(
                        p,
                        actor,
                        version,
                        l,
                        t,
                        rows_impacted,
                        d,
                    ),
                    None => if rows_impacted > 0 {
                        r == Err::<Option<Promoted>, ChangeError>(ChangeError::Report)
                    } else {
                        r matches Ok(Some(p)) && promoted(p, actor, version, l, t, rows_impacted, 0)
                    },
                },
            },
{
    let (last_seq, ts) = match promotion_ready(bookie, actor, version) {
        Some(p) => p,
        None => {
            return Ok(None);
        },
    };
    match report {
        PromotionReport::Failed(msg) => Err(ChangeError::Storage(msg)),
        PromotionReport::Moved { rows_impacted, db_version } => {
            if rows_impacted > 0 {
                match db_version {
                    Some(db_version) => Ok(
                        Some(
                            Promoted {
                                actor_id: actor,
                                version,
                                known: KnownDbVersion::Current { db_version, last_seq, ts },
                                bookkeeping: BookkeepingRow::current(
                                    actor,
                                    version,
                                    db_version,
                                    last_seq,
                                    ts,
                                ),
                            },
                        ),
                    ),
                    None => Err(ChangeError::Report),
                }
            } else {
                Ok(
                    Some(
                        Promoted {
                            actor_id: actor,
                            version,
                            known: KnownDbVersion::Cleared,
                            bookkeeping: BookkeepingRow::cleared(actor, (version, version)),
                        },
                    ),
                )
            }
        },
    }
}

/// Records a promotion in the bookkeeping, once the store has committed it.
pub fn record_promoted(bookie: &mut Bookie, p: &Promoted)
    requires
        old(bookie).wf(),
    ensures
        final(bookie).wf(),
        final(bookie)@ == old(bookie)@.insert(
            p.actor_id,
            versions_of(old(bookie)@, p.actor_id).insert(p.version as int, p.known@),
        ),
{
    bookie.insert(p.actor_id, p.version, p.known.clone());
}

} // verus!
