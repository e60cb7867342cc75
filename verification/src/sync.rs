//! Anti-entropy: what a node asks a peer for, whom it asks, and what it
//! does with the answer.

use crate::booked::{is_head, missing};
use crate::bookie::{versions_of, Bookie};
use crate::ingest::ChangeError;
use crate::known::{ActorId, Known};
use crate::members::{Actor, Members};
use crate::random::{choose_positions, positions_of};
use crate::seqs::{all_ordered, in_ranges, separated};
use vstd::prelude::*;

verus! {

/// The longest wait between two syncs, in milliseconds.
pub const MAX_SYNC_BACKOFF_MS: u64 = 60_000;

/// The shortest wait between two syncs, in milliseconds.
pub const MIN_SYNC_BACKOFF_MS: u64 = 1_000;

/// How often a sync is tried again on a peer that is busy.
pub const UNAVAILABLE_RETRIES: u32 = 5;

/// The shortest and longest wait before such a retry, in milliseconds.
pub const MIN_RETRY_MS: u64 = 100;

pub const MAX_RETRY_MS: u64 = 1_000;

/// The status of an answer that lets a sync go on.
pub const STATUS_OK: u16 = 200;

/// The status with which a busy peer turns a sync away.
pub const STATUS_UNAVAILABLE: u16 = 503;

/// How long the answer's headers may take, in seconds.
pub const SYNC_HEADER_TIMEOUT_SECS: u64 = 15;

/// The header that carries the sender's clock reading to a peer.
pub const CLOCK_HEADER: &'static str = "corro-clock";

/// The path under which a peer serves syncs.
pub const SYNC_PATH: &'static str = "/v1/sync";

/// How many peers are drawn at random to choose from.
pub const SYNC_CANDIDATES: usize = 2;

/// Why a sync as a client failed.
#[derive(Debug, PartialEq, Eq)]
pub enum SyncClientError {
    /// The peer answered with this status, which is neither success nor
    /// "service unavailable".
    Status(u16),
    /// The peer was busy, also after every retry.
    Unavailable,
    /// The request failed; the text says how.
    Hyper(String),
    /// The answer's headers did not come in time.
    RequestTimedOut,
    Io(String),
    Pool(String),
    /// There is no peer to sync with.
    NoGoodCandidate,
    Decoded(String),
    Encoded(String),
    Sync(String),
}

impl SyncClientError {
    /// Whether the error is that the peer was busy.
    pub fn is_unavailable(&self) -> (b: bool)
        ensures
            b == (*self is Unavailable),
    {
        match self {
            SyncClientError::Unavailable => true,
            _ => false,
        }
    }
}

/// Why receiving in a sync failed.
#[derive(Debug, PartialEq, Eq)]
pub enum SyncRecvError {
    Decoded(String),
    Change(ChangeError),
    Io(String),
    UnexpectedSyncMessage,
}

/// What a node tells a peer at the start of a sync: for each actor the
/// highest version it knows, and the ranges of versions it lacks below that.
#[derive(Debug, PartialEq, Eq)]
pub struct SyncState {
    pub actor_id: ActorId,
    pub heads: Vec<(ActorId, i64)>,
    pub need: Vec<(ActorId, Vec<(i64, i64)>)>,
}

/// The number of versions in the listed ranges.
pub open spec fn ranges_len(ranges: Seq<(i64, i64)>) -> int
    decreases ranges.len(),
{
    if ranges.len() == 0 {
        0
    } else {
        ranges_len(ranges.drop_last()) + (ranges.last().1 - ranges.last().0 + 1)
    }
}

/// The ranges listed for `actor`, in the first entry for it; none if there
/// is no entry.
pub open spec fn need_of(need: Seq<(ActorId, Vec<(i64, i64)>)>, actor: ActorId) -> Seq<(i64, i64)>
    decreases need.len(),
{
    if need.len() == 0 {
        Seq::empty()
    } else if need[0].0 == actor {
        need[0].1@
    } else {
        need_of(need.skip(1), actor)
    }
}

/// A count cut off at the highest number that 64 bits hold.
pub open spec fn capped(n: int) -> u64 {
    if n > u64::MAX {
        u64::MAX
    } else if n < 0 {
        0
    } else {
        n as u64
    }
}

/// Counts the versions in the listed ranges, none of which may end before
/// it starts. The count is cut off at the highest number that 64 bits hold.
pub fn count_versions(ranges: &Vec<(i64, i64)>) -> (n: u64)
    requires
        all_ordered(ranges@),
    ensures
        n == capped(ranges_len(ranges@)),
        0 <= ranges_len(ranges@),
{
    let mut n: u64 = 0;
    let mut i: usize = 0;
    while i < ranges.len()
        invariant
            i <= ranges@.len(),
            all_ordered(ranges@),
            0 <= ranges_len(ranges@.take(i as int)),
            n == capped(ranges_len(ranges@.take(i as int))),
        decreases ranges@.len() - i,
    {
        let (lo, hi) = ranges[i];
        proof {
            assert(ranges@.take(i + 1).drop_last() =~= ranges@.take(i as int));
            assert(ranges@.take(i + 1).last() == ranges@[i as int]);
            assert(ranges@[i as int].0 <= ranges@[i as int].1);
        }
        let width: u64 = (hi as i128 - lo as i128) as u64;
        n = n.saturating_add(width).saturating_add(1);
        i = i + 1;
    }
    assert(ranges@.take(i as int) =~= ranges@);
    n
}

/// Whether the list has an entry for `actor`.
pub open spec fn has_entry<T>(list: Seq<(ActorId, T)>, actor: ActorId) -> bool {
    exists|i: int| 0 <= i < list.len() && (#[trigger] list[i]).0 == actor
}

/// Whether no actor has two entries in the list.
pub open spec fn one_entry_each<T>(list: Seq<(ActorId, T)>) -> bool {
    forall|i: int, j: int|
        0 <= i < j < list.len() ==> (#[trigger] list[i]).0 != (#[trigger] list[j]).0
}

/// Whether `state` is what the bookkeeping `m` gives to tell a peer. Every
/// actor of which a version is known has one head, its highest version.
/// Every actor with a version missing has one entry of needs: the maximal
/// ranges of missing versions, in ascending order.
pub open spec fn sync_state_of(state: SyncState, m: Map<ActorId, Map<int, Known>>) -> bool {
    &&& one_entry_each(state.heads@)
    &&& one_entry_each(state.need@)
    &&& forall|i: int|
        0 <= i < state.heads@.len() ==> is_head(
            versions_of(m, (#[trigger] state.heads@[i]).0),
            state.heads@[i].1 as int,
        )
    &&& forall|a: ActorId, h: int| #[trigger]
        is_head(versions_of(m, a), h) ==> has_entry(state.heads@, a)
    &&& forall|i: int|
        0 <= i < state.need@.len() ==> {
            let entry = #[trigger] state.need@[i];
            &&& entry.1@.len() > 0
            &&& separated(entry.1@)
            &&& forall|v: int| in_ranges(entry.1@, v) <==> missing(versions_of(m, entry.0), v)
        }
    &&& forall|a: ActorId, v: int| #[trigger]
        missing(versions_of(m, a), v) ==> has_entry(state.need@, a)
}

/// Makes what this node tells a peer at the start of a sync.
pub fn generate_sync(bookie: &Bookie, actor_id: ActorId) -> (state: SyncState)
    requires
        bookie.wf(),
    ensures
        state.actor_id == actor_id,
        state.wf(),
        sync_state_of(state, bookie@),
{
    let actors = bookie.actors();
    let mut heads: Vec<(ActorId, i64)> = Vec::new();
    let mut need: Vec<(ActorId, Vec<(i64, i64)>)> = Vec::new();
    let mut i: usize = 0;
    while i < actors.len()
        invariant
            i <= actors@.len(),
            bookie.wf(),
            actors@.no_duplicates(),
            forall|j: int|
                0 <= j < heads@.len() ==> exists|k: int|
                    0 <= k < i && actors@[k] == (#[trigger] heads@[j]).0,
            forall|j: int|
                0 <= j < need@.len() ==> exists|k: int|
                    0 <= k < i && actors@[k] == (#[trigger] need@[j]).0,
            one_entry_each(heads@),
            one_entry_each(need@),
            forall|j: int|
                0 <= j < heads@.len() ==> is_head(
                    versions_of(bookie@, (#[trigger] heads@[j]).0),
                    heads@[j].1 as int,
                ),
            forall|k: int, h: int|
                0 <= k < i && #[trigger] is_head(versions_of(bookie@, actors@[k]), h)
                    ==> has_entry(heads@, actors@[k]),
            forall|j: int|
                0 <= j < need@.len() ==> {
                    let entry = #[trigger] need@[j];
                    &&& entry.1@.len() > 0
                    &&& separated(entry.1@)
                    &&& forall|v: int|
                        in_ranges(entry.1@, v) <==> missing(versions_of(bookie@, entry.0), v)
                },
            forall|k: int, v: int|
                0 <= k < i && #[trigger] missing(versions_of(bookie@, actors@[k]), v)
                    ==> has_entry(need@, actors@[k]),
        decreases actors@.len() - i,
    {
        let a = actors[i];
        let ghost heads_before = heads@;
        let ghost need_before = need@;
        match bookie.last(a) {
            Some(last) => {
                let ranges = bookie.need(a);
                if ranges.len() > 0 {
                    need.push((a, ranges));
                } else {
                    assert forall|v: int| !missing(versions_of(bookie@, a), v) by {
                        assert(!in_ranges(ranges@, v));
                    }
                }
                heads.push((a, last));
            },
            None => {
                assert forall|v: int| !missing(versions_of(bookie@, a), v) by {}
                assert forall|h: int| !is_head(versions_of(bookie@, a), h) by {}
            },
        }
        proof {
            assert forall|j: int| 0 <= j < heads@.len() implies exists|k: int|
                0 <= k < i + 1 && actors@[k] == (#[trigger] heads@[j]).0 by {
                if j < heads_before.len() {
                    assert(heads@[j] == heads_before[j]);
                    let k = choose|k: int| 0 <= k < i && actors@[k] == heads_before[j].0;
                    assert(0 <= k < i + 1 && actors@[k] == heads@[j].0);
                } else {
                    assert(actors@[i as int] == heads@[j].0);
                }
            }
            assert forall|j: int| 0 <= j < need@.len() implies exists|k: int|
                0 <= k < i + 1 && actors@[k] == (#[trigger] need@[j]).0 by {
                if j < need_before.len() {
                    assert(need@[j] == need_before[j]);
                    let k = choose|k: int| 0 <= k < i && actors@[k] == need_before[j].0;
                    assert(0 <= k < i + 1 && actors@[k] == need@[j].0);
                } else {
                    assert(actors@[i as int] == need@[j].0);
                }
            }
            assert forall|j: int, l: int| 0 <= j < l < heads@.len() implies (
            #[trigger] heads@[j]).0 != (#[trigger] heads@[l]).0 by {
                if l == heads_before.len() {
                    assert(heads@[j] == heads_before[j]);
                    let k = choose|k: int| 0 <= k < i && actors@[k] == heads_before[j].0;
                    assert(actors@[k] != actors@[i as int]);
                } else {
                    assert(heads@[j] == heads_before[j] && heads@[l] == heads_before[l]);
                }
            }
            assert forall|j: int, l: int| 0 <= j < l < need@.len() implies (
            #[trigger] need@[j]).0 != (#[trigger] need@[l]).0 by {
                if l == need_before.len() {
                    assert(need@[j] == need_before[j]);
                    let k = choose|k: int| 0 <= k < i && actors@[k] == need_before[j].0;
                    assert(actors@[k] != actors@[i as int]);
                } else {
                    assert(need@[j] == need_before[j] && need@[l] == need_before[l]);
                }
            }
            assert forall|j: int| 0 <= j < heads@.len() implies is_head(
                versions_of(bookie@, (#[trigger] heads@[j]).0),
                heads@[j].1 as int,
            ) by {
                if j < heads_before.len() {
                    assert(heads@[j] == heads_before[j]);
                }
            }
            assert forall|k: int, h: int|
                0 <= k < i + 1 && #[trigger] is_head(
                    versions_of(bookie@, actors@[k]),
                    h,
                ) implies has_entry(heads@, actors@[k]) by {
                if k < i {
                    assert(has_entry(heads_before, actors@[k]));
                    let j = choose|j: int|
                        0 <= j < heads_before.len() && (#[trigger] heads_before[j]).0
                            == actors@[k];
                    assert(heads@[j] == heads_before[j]);
                } else {
                    assert(heads@[heads@.len() - 1].0 == a);
                }
            }
            assert forall|j: int| 0 <= j < need@.len() implies {
                let entry = #[trigger] need@[j];
                &&& entry.1@.len() > 0
                &&& separated(entry.1@)
                &&& forall|v: int|
                    in_ranges(entry.1@, v) <==> missing(versions_of(bookie@, entry.0), v)
            } by {
                if j < need_before.len() {
                    assert(need@[j] == need_before[j]);
                }
            }
            assert forall|k: int, v: int|
                0 <= k < i + 1 && #[trigger] missing(
                    versions_of(bookie@, actors@[k]),
                    v,
                ) implies has_entry(need@, actors@[k]) by {
                if k < i {
                    assert(has_entry(need_before, actors@[k]));
                    let j = choose|j: int|
                        0 <= j < need_before.len() && (#[trigger] need_before[j]).0 == actors@[k];
                    assert(need@[j] == need_before[j]);
                } else {
                    assert(need@[need@.len() - 1].0 == a);
                }
            }
        }
        i = i + 1;
    }
    let state = SyncState { actor_id, heads, need };
    proof {
        assert forall|a: ActorId, h: int| #[trigger]
            is_head(versions_of(bookie@, a), h) implies has_entry(state.heads@, a) by {
            assert(bookie@.contains_key(a));
            assert(actors@.contains(a));
            let k = choose|k: int| 0 <= k < actors@.len() && actors@[k] == a;
            assert(is_head(versions_of(bookie@, actors@[k]), h));
        }
        assert forall|a: ActorId, v: int| #[trigger]
            missing(versions_of(bookie@, a), v) implies has_entry(state.need@, a) by {
            assert(bookie@.contains_key(a));
            assert(actors@.contains(a));
            let k = choose|k: int| 0 <= k < actors@.len() && actors@[k] == a;
            assert(missing(versions_of(bookie@, actors@[k]), v));
        }
        assert forall|j: int| 0 <= j < state.need@.len() implies all_ordered(
            (#[trigger] state.need@[j]).1@,
        ) by {}
    }
    state
}

/// The number of versions in the ranges of all entries.
pub open spec fn total_len(need: Seq<(ActorId, Vec<(i64, i64)>)>) -> int
    decreases need.len(),
{
    if need.len() == 0 {
        0
    } else {
        total_len(need.drop_last()) + ranges_len(need.last().1@)
    }
}

impl SyncState {
    /// The sync states that can be counted: no range of needed versions
    /// ends before it starts.
    pub open spec fn wf(&self) -> bool {
        forall|i: int| 0 <= i < self.need@.len() ==> all_ordered((#[trigger] self.need@[i]).1@)
    }

    /// The number of versions needed of `actor`, cut off at the highest
    /// number that 64 bits hold: a measure of how much there is to get from
    /// a peer that is this actor.
    pub fn need_len_for_actor(&self, actor: ActorId) -> (n: u64)
        requires
            self.wf(),
        ensures
            n == capped(ranges_len(need_of(self.need@, actor))),
    {
        let mut i: usize = 0;
        assert(self.need@.skip(0) =~= self.need@);
        while i < self.need.len()
            invariant
                i <= self.need@.len(),
                self.wf(),
                need_of(self.need@, actor) == need_of(self.need@.skip(i as int), actor),
            decreases self.need@.len() - i,
        {
            proof {
                assert(self.need@.skip(i as int)[0] == self.need@[i as int]);
                assert(self.need@.skip(i as int).skip(1) =~= self.need@.skip(i + 1));
            }
            if self.need[i].0 == actor {
                return count_versions(&self.need[i].1);
            }
            i = i + 1;
        }
        assert(self.need@.skip(i as int).len() == 0);
        0
    }

    /// The number of versions needed of all actors together, cut off at the
    /// highest number that 64 bits hold.
    pub fn need_len(&self) -> (n: u64)
        requires
            self.wf(),
        ensures
            n == capped(total_len(self.need@)),
    {
        let mut n: u64 = 0;
        let mut i: usize = 0;
        while i < self.need.len()
            invariant
                i <= self.need@.len(),
                self.wf(),
                0 <= total_len(self.need@.take(i as int)),
                n == capped(total_len(self.need@.take(i as int))),
            decreases self.need@.len() - i,
        {
            proof {
                assert(self.need@.take(i + 1).drop_last() =~= self.need@.take(i as int));
                assert(self.need@.take(i + 1).last() == self.need@[i as int]);
            }
            n = n.saturating_add(count_versions(&self.need[i].1));
            i = i + 1;
        }
        assert(self.need@.take(i as int) =~= self.need@);
        n
    }
}

/// The members other than `me`, in their order.
pub open spec fn others(states: Seq<Actor>, me: ActorId) -> Seq<Actor>
    decreases states.len(),
{
    if states.len() == 0 {
        Seq::empty()
    } else {
        let before = others(states.drop_last(), me);
        if states.last().id != me {
            before.push(states.last())
        } else {
            before
        }
    }
}

/// The members a node can sync with: all but itself.
pub fn sync_candidates(members: &Members, me: ActorId) -> (out: Vec<Actor>)
    ensures
        out@ == others(members.states@, me),
{
    let mut out: Vec<Actor> = Vec::new();
    let mut i: usize = 0;
    while i < members.states.len()
        invariant
            i <= members.states@.len(),
            out@ == others(members.states@.take(i as int), me),
        decreases members.states@.len() - i,
    {
        proof {
            assert(members.states@.take(i + 1).drop_last() =~= members.states@.take(i as int));
            assert(members.states@.take(i + 1).last() == members.states@[i as int]);
        }
        if members.states[i].id != me {
            out.push(members.states[i]);
        }
        i = i + 1;
    }
    assert(members.states@.take(i as int) =~= members.states@);
    out
}

/// How much `state` needs of the actor that candidate `c` is.
pub open spec fn need_from(state: SyncState, c: Actor) -> u64 {
    capped(ranges_len(need_of(state.need@, c.id)))
}

/// Whether `r` is the choice among the candidates drawn at `picks`: the
/// one of whose own versions `state` needs most, and among several such the
/// one drawn first; none only where none was drawn.
pub open spec fn choice_among(
    state: SyncState,
    candidates: Seq<Actor>,
    picks: Seq<usize>,
    r: Option<Actor>,
) -> bool {
    match r {
        Some(c) => exists|i: int|
            {
                &&& 0 <= i < picks.len()
                &&& c == candidates[#[trigger] picks[i] as int]
                &&& forall|j: int|
                    0 <= j < i ==> need_from(state, candidates[picks[j] as int]) < need_from(
                        state,
                        c,
                    )
                &&& forall|j: int|
                    i <= j < picks.len() ==> need_from(state, candidates[picks[j] as int])
                        <= need_from(state, c)
            },
        None => picks.len() == 0,
    }
}

/// Chooses the peer to sync with among the candidates drawn: the one of
/// whose own versions this node needs most, and among several such the one
/// drawn first. There is none only where none was drawn.
pub fn choose_sync_peer(state: &SyncState, candidates: &Vec<Actor>, picks: &Vec<usize>) -> (r:
    Option<Actor>)
    requires
        state.wf(),
        positions_of(picks@, candidates@.len() as int),
    ensures
        choice_among(*state, candidates@, picks@, r),
{
    if picks.len() == 0 {
        return None;
    }
    let mut best: usize = 0;
    let mut best_need: u64 = state.need_len_for_actor(candidates[picks[0]].id);
    let mut i: usize = 1;
    while i < picks.len()
        invariant
            1 <= i <= picks@.len(),
            state.wf(),
            positions_of(picks@, candidates@.len() as int),
            best < i,
            best_need == need_from(*state, candidates@[picks@[best as int] as int]),
            forall|j: int|
                0 <= j < best ==> need_from(*state, candidates@[#[trigger] picks@[j] as int])
                    < best_need,
            forall|j: int|
                best <= j < i ==> need_from(*state, candidates@[#[trigger] picks@[j] as int])
                    <= best_need,
        decreases picks@.len() - i,
    {
        let n = state.need_len_for_actor(candidates[picks[i]].id);
        if n > best_need {
            best = i;
            best_need = n;
        }
        i = i + 1;
    }
    let c = candidates[picks[best]];
    assert(c == candidates@[picks@[best as int] as int]);
    Some(c)
}

/// Draws candidates at random and chooses the peer to sync with among
/// them. Two candidates are drawn, or the only one there is; which they are
/// is left to chance. The peer is the choice among those drawn
/// ([`choice_among`]), so it is one of the candidates, and there is no good
/// candidate only where there is no candidate at all.
pub fn pick_sync_peer(state: &SyncState, candidates: &Vec<Actor>) -> (r: Result<
    Actor,
    SyncClientError,
>)
    requires
        state.wf(),
    ensures
        exists|picks: Seq<usize>|
            {
                &&& #[trigger] positions_of(picks, candidates@.len() as int)
                &&& picks.len() == (if candidates@.len() < SYNC_CANDIDATES {
                    candidates@.len()
                } else {
                    SYNC_CANDIDATES as nat
                })
                &&& choice_among(*state, candidates@, picks, match r {
                    Ok(c) => Some(c),
                    Err(_) => None,
                })
            },
        match r {
            Ok(c) => candidates@.contains(c),
            Err(e) => e == SyncClientError::NoGoodCandidate && candidates@.len() == 0,
        },
{
    let picks = choose_positions(candidates.len(), SYNC_CANDIDATES);
    let chosen = choose_sync_peer(state, candidates, &picks);
    let r = match chosen {
        Some(c) => Ok(c),
        None => Err(SyncClientError::NoGoodCandidate),
    };
    proof {
        assert(positions_of(picks@, candidates@.len() as int));
        assert(choice_among(*state, candidates@, picks@, chosen));
    }
    r
}

/// Waits that double from one try to the next, up to a longest wait, for a
/// number of tries or without end.
#[derive(Clone, Copy, Debug, PartialEq, Eq, Structural)]
pub struct Backoff {
    /// How many waits are given in all; 0 for no limit.
    pub retries: u32,
    /// How many were given so far, counted only where there is a limit.
    pub given: u32,
    /// The wait that is given next, in milliseconds.
    pub next_ms: u64,
    /// The longest wait, in milliseconds.
    pub max_ms: u64,
}

impl Backoff {
    /// Whether every wait was given.
    pub open spec fn spent(self) -> bool {
        self.retries > 0 && self.given >= self.retries
    }

    /// The backoff after one more wait was given: the next wait is twice as
    /// long, but no longer than the longest.
    pub open spec fn advanced(self) -> Backoff {
        Backoff {
            retries: self.retries,
            given: if self.retries > 0 {
                (self.given + 1) as u32
            } else {
                self.given
            },
            next_ms: if 2 * self.next_ms > self.max_ms {
                self.max_ms
            } else {
                (2 * self.next_ms) as u64
            },
            max_ms: self.max_ms,
        }
    }

    /// A backoff that gives `retries` waits, or waits without end if that is
    /// 0, starting at `min_ms` and never above `max_ms`.
    pub fn new(retries: u32, min_ms: u64, max_ms: u64) -> (b: Backoff)
        ensures
            b == (Backoff {
                retries,
                given: 0,
                next_ms: if min_ms > max_ms {
                    max_ms
                } else {
                    min_ms
                },
                max_ms,
            }),
    {
        Backoff {
            retries,
            given: 0,
            next_ms: if min_ms > max_ms {
                max_ms
            } else {
                min_ms
            },
            max_ms,
        }
    }

    /// The next wait in milliseconds, if one is left.
    pub fn next(&mut self) -> (r: Option<u64>)
        ensures
            old(self).spent() ==> r is None && *final(self) == *old(self),
            !old(self).spent() ==> r == Some(old(self).next_ms) && *final(self) == old(
                self,
            ).advanced(),
    {
        if self.retries > 0 && self.given >= self.retries {
            return None;
        }
        let wait = self.next_ms;
        if self.retries > 0 {
            self.given = self.given + 1;
        }
        self.next_ms = if wait > self.max_ms / 2 {
            self.max_ms
        } else {
            let twice = wait * 2;
            if twice > self.max_ms {
                self.max_ms
            } else {
                twice
            }
        };
        Some(wait)
    }
}

/// The waits between two syncs: from one second up to a minute, without
/// end.
pub fn sync_backoff() -> (b: Backoff)
    ensures
        b == (Backoff {
            retries: 0,
            given: 0,
            next_ms: MIN_SYNC_BACKOFF_MS,
            max_ms: MAX_SYNC_BACKOFF_MS,
        }),
{
    Backoff::new(0, MIN_SYNC_BACKOFF_MS, MAX_SYNC_BACKOFF_MS)
}

/// The waits before a sync is tried again on a busy peer: five of them,
/// from a tenth of a second up to a second.
pub fn retry_backoff() -> (b: Backoff)
    ensures
        b == (Backoff {
            retries: UNAVAILABLE_RETRIES,
            given: 0,
            next_ms: MIN_RETRY_MS,
            max_ms: MAX_RETRY_MS,
        }),
{
    Backoff::new(UNAVAILABLE_RETRIES, MIN_RETRY_MS, MAX_RETRY_MS)
}

/// What came back for the request that opens a sync.
#[derive(Debug, PartialEq, Eq)]
pub enum SyncResponse {
    /// The peer answered with this status.
    Status(u16),
    /// The headers did not come in time.
    TimedOut,
    /// The request failed; the text says how.
    Failed(String),
}

/// What to do about it.
#[derive(Debug, PartialEq, Eq)]
pub enum SyncDecision {
    /// Go on: send the sync state and take in what the peer streams back.
    Stream,
    /// Wait this many milliseconds, then choose a peer and ask again.
    RetryAfter(u64),
    /// Give up this sync with the error.
    Fail(SyncClientError),
}

/// Decides what to do with the answer to the request that opens a sync.
///
/// Status 200 lets the sync go on. Status 503 means the peer is busy: the
/// sync is tried again after the next wait of `retries`, and fails as
/// unavailable once no wait is left. Any other status fails the sync with
/// that status. A request that timed out or failed fails the sync.
pub fn on_sync_response(response: SyncResponse, retries: &mut Backoff) -> (d: SyncDecision)
    ensures
        match response {
            SyncResponse::Status(STATUS_OK) => d == SyncDecision::Stream && *final(retries)
                == *old(retries),
            SyncResponse::Status(STATUS_UNAVAILABLE) => if old(retries).spent() {
                d == SyncDecision::Fail(SyncClientError::Unavailable) && *final(retries) == *old(
                    retries,
                )
            } else {
                d == SyncDecision::RetryAfter(old(retries).next_ms) && *final(retries) == old(
                    retries,
                ).advanced()
            },
            SyncResponse::Status(status) => d == SyncDecision::Fail(
                SyncClientError::Status(status),
            ) && *final(retries) == *old(retries),
            SyncResponse::TimedOut => d == SyncDecision::Fail(SyncClientError::RequestTimedOut)
                && *final(retries) == *old(retries),
            SyncResponse::Failed(msg) => d == SyncDecision::Fail(SyncClientError::Hyper(msg))
                && *final(retries) == *old(retries),
        },
{
    match response {
        SyncResponse::Status(status) => {
            if status == STATUS_OK {
                SyncDecision::Stream
            } else if status == STATUS_UNAVAILABLE {
                match retries.next() {
                    Some(wait) => SyncDecision::RetryAfter(wait),
                    None => SyncDecision::Fail(SyncClientError::Unavailable),
                }
            } else {
                SyncDecision::Fail(SyncClientError::Status(status))
            }
        },
        SyncResponse::TimedOut => SyncDecision::Fail(SyncClientError::RequestTimedOut),
        SyncResponse::Failed(msg) => SyncDecision::Fail(SyncClientError::Hyper(msg)),
    }
}

/// What the sync loop wakes up to. Where several are due at once, a version
/// to promote is taken first, then the time to sync, then the shutdown
/// signal.
#[derive(Clone, Copy, Debug, PartialEq, Eq, Structural)]
pub enum LoopEvent {
    /// A fully buffered version was queued for promotion.
    Apply(ActorId, i64),
    /// The queue of versions to promote is closed.
    ApplyClosed,
    /// It is time to sync.
    Tick,
    /// The shutdown signal was given.
    Tripped,
}

/// What the sync loop does next.
#[derive(Clone, Copy, Debug, PartialEq, Eq, Structural)]
pub enum LoopStep {
    /// Promote the version.
    Promote(ActorId, i64),
    /// Sync with a peer.
    Sync,
    /// Leave the loop.
    Stop,
}

/// Decides what the sync loop does on an event.
pub fn on_loop_event(event: LoopEvent) -> (step: LoopStep)
    ensures
        step == match event {
            LoopEvent::Apply(actor, version) => LoopStep::Promote(actor, version),
            LoopEvent::Tick => LoopStep::Sync,
            LoopEvent::ApplyClosed => LoopStep::Stop,
            LoopEvent::Tripped => LoopStep::Stop,
        },
{
    match event {
        LoopEvent::Apply(actor, version) => LoopStep::Promote(actor, version),
        LoopEvent::Tick => LoopStep::Sync,
        LoopEvent::ApplyClosed => LoopStep::Stop,
        LoopEvent::Tripped => LoopStep::Stop,
    }
}

/// Decides when to sync next, once a sync has ended: after the next wait
/// of the backoff, whether the sync went well or not. A sync cut short by
/// the shutdown signal is the last: there is no next.
pub fn after_sync(preempted: bool, backoff: &mut Backoff) -> (wait: Option<u64>)
    requires
        old(backoff).retries == 0,
    ensures
        preempted ==> wait is None && *final(backoff) == *old(backoff),
        !preempted ==> wait == Some(old(backoff).next_ms) && *final(backoff) == old(
            backoff,
        ).advanced(),
{
    if preempted {
        None
    } else {
        backoff.next()
    }
}

} // verus!
