//! What a node knows about one version of one actor.

use crate::seqs::{seq_values, seqs_clone, seqs_contains, seqs_cover, span};
use rangemap::RangeInclusiveSet;
use vstd::prelude::*;

verus! {

/// A 128-bit node identity. All bookkeeping is keyed by it.
#[derive(Clone, Copy, Debug, PartialEq, Eq, Structural, PartialOrd, Ord, Hash)]
pub struct ActorId(pub u128);

/// A hybrid logical clock reading, carried along with each version.
#[derive(Clone, Copy, Debug, PartialEq, Eq, Structural, PartialOrd, Ord, Hash)]
pub struct Timestamp(pub u64);

/// The receiver's knowledge of one `(actor, version)`.
#[derive(Debug, PartialEq, Eq)]
pub enum KnownDbVersion {
    /// Applied locally under the store's own `db_version`.
    Current { db_version: i64, last_seq: i64, ts: Timestamp },
    /// Some fragments are buffered; the version is not applied yet.
    Partial { seqs: RangeInclusiveSet<i64>, last_seq: i64, ts: Timestamp },
    /// Known to be empty or compacted away.
    Cleared,
}

/// The mathematical value of a `KnownDbVersion`.
pub ghost enum Known {
    Current { db_version: i64, last_seq: i64, ts: Timestamp },
    Partial { seqs: Set<int>, last_seq: i64, ts: Timestamp },
    Cleared,
}

impl Known {
    /// Whether sequence number `seq` of the version counts as received: always
    /// for an applied or cleared version, for a buffered one when that
    /// sequence number is among those recorded.
    pub open spec fn has_seq(self, seq: int) -> bool {
        match self {
            Known::Partial { seqs, .. } => seqs.contains(seq),
            _ => true,
        }
    }

    /// A buffered version is complete when it has every sequence number of
    /// `0..=last_seq`.
    pub open spec fn fully_buffered(self) -> bool {
        match self {
            Known::Partial { seqs, last_seq, .. } => span(0, last_seq as int).subset_of(seqs),
            _ => false,
        }
    }

    /// The recorded sequence numbers of a buffered version lie in
    /// `0..=last_seq`.
    pub open spec fn seqs_in_bounds(self) -> bool {
        match self {
            Known::Partial { seqs, last_seq, .. } => seqs.subset_of(span(0, last_seq as int)),
            _ => true,
        }
    }
}

impl View for KnownDbVersion {
    type V = Known;

    open spec fn view(&self) -> Known {
        match *self {
            KnownDbVersion::Current { db_version, last_seq, ts } => Known::Current {
                db_version,
                last_seq,
                ts,
            },
            KnownDbVersion::Partial { seqs, last_seq, ts } => Known::Partial {
                seqs: seq_values(seqs),
                last_seq,
                ts,
            },
            KnownDbVersion::Cleared => Known::Cleared,
        }
    }
}

impl KnownDbVersion {
    /// Whether this is the cleared state.
    pub fn is_cleared(&self) -> (b: bool)
        ensures
            b == (self@ == Known::Cleared),
    {
        match self {
            KnownDbVersion::Cleared => true,
            _ => false,
        }
    }

    /// Whether sequence number `seq` counts as received.
    pub fn has_seq(&self, seq: i64) -> (b: bool)
        ensures
            b == self@.has_seq(seq as int),
    {
        match self {
            KnownDbVersion::Partial { seqs, .. } => seqs_contains(seqs, seq),
            _ => true,
        }
    }

    /// Whether every sequence number of `lo..=hi` counts as received.
    pub fn has_seqs(&self, lo: i64, hi: i64) -> (b: bool)
        ensures
            b == (forall|s: int| lo <= s <= hi ==> self@.has_seq(s)),
    {
        match self {
            KnownDbVersion::Partial { seqs, .. } => {
                let b = seqs_cover(seqs, lo, hi);
                proof {
                    if b {
                        assert forall|s: int| lo <= s <= hi implies self@.has_seq(s) by {
                            assert(span(lo as int, hi as int).contains(s));
                        }
                    } else {
                        let s = choose|s: int|
                            span(lo as int, hi as int).contains(s) && !seq_values(*seqs).contains(
                                s,
                            );
                        assert(lo <= s <= hi && !self@.has_seq(s));
                    }
                }
                b
            },
            _ => true,
        }
    }

    /// Whether this is a buffered version with no sequence number of
    /// `0..=last_seq` missing.
    pub fn is_fully_buffered(&self) -> (b: bool)
        ensures
            b == self@.fully_buffered(),
    {
        match self {
            KnownDbVersion::Partial { seqs, last_seq, .. } => seqs_cover(seqs, 0, *last_seq),
            _ => false,
        }
    }
}

impl Clone for KnownDbVersion {
    /// A copy with the same value.
    fn clone(&self) -> (c: KnownDbVersion)
        ensures
            c@ == self@,
    {
        match self {
            KnownDbVersion::Current { db_version, last_seq, ts } => KnownDbVersion::Current {
                db_version: *db_version,
                last_seq: *last_seq,
                ts: *ts,
            },
            KnownDbVersion::Partial { seqs, last_seq, ts } => KnownDbVersion::Partial {
                seqs: seqs_clone(seqs),
                last_seq: *last_seq,
                ts: *ts,
            },
            KnownDbVersion::Cleared => KnownDbVersion::Cleared,
        }
    }
}

} // verus!
