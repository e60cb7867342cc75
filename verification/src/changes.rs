//! Changesets: what nodes send each other about one actor's versions.

use crate::known::{ActorId, Timestamp};
use vstd::prelude::*;

verus! {

/// A value of one column. A real number is held by its bit pattern.
#[derive(Debug, PartialEq, Eq)]
pub enum SqliteValue {
    Null,
    Integer(i64),
    Real(u64),
    Text(String),
    Blob(Vec<u8>),
}

/// One row-level change, as the store's change table holds it.
#[derive(Debug, PartialEq, Eq)]
pub struct Change {
    pub table: String,
    pub pk: Vec<u8>,
    pub cid: String,
    pub val: SqliteValue,
    pub col_version: i64,
    pub db_version: i64,
    pub seq: i64,
    pub site_id: ActorId,
    pub cl: i64,
}

/// The changes of one version, whole or in part, or the news that a range of
/// versions is empty.
#[derive(Debug, PartialEq, Eq)]
pub enum Changeset {
    /// The versions `versions.0..=versions.1` hold no change.
    Empty { versions: (i64, i64) },
    /// The changes with sequence numbers `seqs.0..=seqs.1` of `version`, whose
    /// sequence numbers run from 0 to `last_seq`.
    Full { version: i64, changes: Vec<Change>, seqs: (i64, i64), last_seq: i64, ts: Timestamp },
}

impl Changeset {
    /// The versions spoken of, as a closed range.
    pub open spec fn spec_versions(&self) -> (i64, i64) {
        match *self {
            Changeset::Empty { versions } => versions,
            Changeset::Full { version, .. } => (version, version),
        }
    }

    /// The sequence numbers carried, if the changeset carries changes.
    pub open spec fn spec_seqs(&self) -> Option<(i64, i64)> {
        match *self {
            Changeset::Empty { .. } => None,
            Changeset::Full { seqs, .. } => Some(seqs),
        }
    }

    /// Whether nothing is missing: an empty changeset always, one with
    /// changes when it carries every sequence number from 0 to the last.
    pub open spec fn spec_is_complete(&self) -> bool {
        match *self {
            Changeset::Empty { .. } => true,
            Changeset::Full { seqs, last_seq, .. } => seqs.0 == 0 && seqs.1 == last_seq,
        }
    }

    /// The changesets that can be taken in: a range of empty versions must
    /// not start after it ends, nor may the sequence numbers of a fragment.
    pub open spec fn wf(&self) -> bool {
        match *self {
            Changeset::Empty { versions } => versions.0 <= versions.1,
            Changeset::Full { seqs, .. } => self.spec_is_complete() || seqs.0 <= seqs.1,
        }
    }

    /// Whether the changeset can be taken in.
    pub fn is_well_formed(&self) -> (b: bool)
        ensures
            b == self.wf(),
    {
        match self {
            Changeset::Empty { versions } => versions.0 <= versions.1,
            Changeset::Full { seqs, last_seq, .. } => (seqs.0 == 0 && seqs.1 == *last_seq)
                || seqs.0 <= seqs.1,
        }
    }

    /// The versions spoken of, as a closed range.
    #[verifier::when_used_as_spec(spec_versions)]
    pub fn versions(&self) -> (r: (i64, i64))
        ensures
            r == self.spec_versions(),
    {
        match self {
            Changeset::Empty { versions } => *versions,
            Changeset::Full { version, .. } => (*version, *version),
        }
    }

    /// The sequence numbers carried, if the changeset carries changes.
    #[verifier::when_used_as_spec(spec_seqs)]
    pub fn seqs(&self) -> (r: Option<(i64, i64)>)
        ensures
            r == self.spec_seqs(),
    {
        match self {
            Changeset::Empty { .. } => None,
            Changeset::Full { seqs, .. } => Some(*seqs),
        }
    }

    /// The last sequence number of the version, if the changeset carries
    /// changes.
    pub fn last_seq(&self) -> (r: Option<i64>)
        ensures
            r == match *self {
                Changeset::Empty { .. } => None::<i64>,
                Changeset::Full { last_seq, .. } => Some(last_seq),
            },
    {
        match self {
            Changeset::Empty { .. } => None,
            Changeset::Full { last_seq, .. } => Some(*last_seq),
        }
    }

    /// The clock reading of the version, if the changeset carries changes.
    pub fn ts(&self) -> (r: Option<Timestamp>)
        ensures
            r == match *self {
                Changeset::Empty { .. } => None::<Timestamp>,
                Changeset::Full { ts, .. } => Some(ts),
            },
    {
        match self {
            Changeset::Empty { .. } => None,
            Changeset::Full { ts, .. } => Some(*ts),
        }
    }

    /// Whether nothing is missing.
    #[verifier::when_used_as_spec(spec_is_complete)]
    pub fn is_complete(&self) -> (b: bool)
        ensures
            b == self.spec_is_complete(),
    {
        match self {
            Changeset::Empty { .. } => true,
            Changeset::Full { seqs, last_seq, .. } => seqs.0 == 0 && seqs.1 == *last_seq,
        }
    }

    /// The number of changes carried.
    pub fn len(&self) -> (n: usize)
        ensures
            n == match *self {
                Changeset::Empty { .. } => 0,
                Changeset::Full { changes, .. } => changes@.len(),
            },
    {
        match self {
            Changeset::Empty { .. } => 0,
            Changeset::Full { changes, .. } => changes.len(),
        }
    }

    /// Whether no change is carried.
    pub fn is_empty(&self) -> (b: bool)
        ensures
            b == match *self {
                Changeset::Empty { .. } => true,
                Changeset::Full { changes, .. } => changes@.len() == 0,
            },
    {
        self.len() == 0
    }

    /// Whether this is the news of empty versions.
    pub fn is_empty_versions(&self) -> (b: bool)
        ensures
            b == (*self is Empty),
    {
        match self {
            Changeset::Empty { .. } => true,
            Changeset::Full { .. } => false,
        }
    }
}

/// A changeset with the actor whose versions it speaks of.
#[derive(Debug, PartialEq, Eq)]
pub struct ChangeV1 {
    pub actor_id: ActorId,
    pub changeset: Changeset,
}

impl ChangeV1 {
    /// Whether nothing is missing from the changeset.
    pub fn is_complete(&self) -> (b: bool)
        ensures
            b == self.changeset.spec_is_complete(),
    {
        self.changeset.is_complete()
    }
}

/// Whether the store's count of impacted rows grew with change `i`: the
/// count after it is higher than the count after the change before it, or
/// than 0 for the first change.
pub open spec fn grew(counts: Seq<i64>, i: int) -> bool {
    counts[i] > (if i == 0 {
        0
    } else {
        counts[i - 1]
    })
}

/// The changes with which the count of impacted rows grew, in their order.
pub open spec fn impactful(changes: Seq<Change>, counts: Seq<i64>) -> Seq<Change>
    decreases changes.len(),
{
    if changes.len() == 0 {
        Seq::empty()
    } else {
        let before = impactful(changes.drop_last(), counts);
        if grew(counts, changes.len() - 1) {
            before.push(changes.last())
        } else {
            before
        }
    }
}

/// Keeps the changes that had an effect on the store. `counts[i]` is the
/// store's running count of impacted rows, read after change `i` went in.
pub fn select_impactful(changes: Vec<Change>, counts: &Vec<i64>) -> (out: Vec<Change>)
    requires
        counts@.len() == changes@.len(),
    ensures
        out@ == impactful(changes@, counts@),
{
    let mut out: Vec<Change> = Vec::new();
    let mut last: i64 = 0;
    let ghost all = changes@;
    let n = counts.len();
    let mut i: usize = 0;
    for change in it: changes
        invariant
            it.seq() == all,
            i == it.index(),
            n == all.len(),
            counts@.len() == all.len(),
            last == (if i == 0 {
                0
            } else {
                counts@[i - 1]
            }),
            out@ == impactful(all.take(i as int), counts@),
    {
        let count = counts[i];
        proof {
            assert(all.take(i + 1).drop_last() =~= all.take(i as int));
            assert(all.take(i + 1).last() == change);
        }
        if count > last {
            out.push(change);
        }
        last = count;
        i = i + 1;
    }
    assert(all.take(i as int) =~= all);
    out
}

} // verus!
