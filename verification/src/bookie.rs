//! The bookkeeping of every actor a node has heard of.

use crate::booked::{
    all_known_in, applied_as, inserted, is_head, missing, snapshot_of, BookedVersions,
};
use crate::compact::{clear_versions, retired};
use std::collections::HashSet;
use crate::known::{ActorId, Known, KnownDbVersion};
use crate::seqs::{in_ranges, separated};
use std::collections::BTreeMap;
use vstd::prelude::*;

verus! {

/// The bookkeeping of one actor.
#[derive(Debug, PartialEq, Eq)]
pub struct Booked {
    pub actor_id: ActorId,
    pub versions: BookedVersions,
}

/// Whether some entry of the list is for `actor`.
pub open spec fn has_actor(entries: Seq<Booked>, actor: ActorId) -> bool {
    exists|i: int| 0 <= i < entries.len() && (#[trigger] entries[i]).actor_id == actor
}

/// The position of the entry for `actor`.
pub open spec fn actor_index(entries: Seq<Booked>, actor: ActorId) -> int {
    choose|i: int| 0 <= i < entries.len() && (#[trigger] entries[i]).actor_id == actor
}

/// Every actor heard of, each with its bookkeeping.
#[derive(Debug, PartialEq, Eq)]
pub struct Bookie {
    entries: Vec<Booked>,
}

impl View for Bookie {
    type V = Map<ActorId, Map<int, Known>>;

    closed spec fn view(&self) -> Map<ActorId, Map<int, Known>> {
        Map::new(
            |actor: ActorId| has_actor(self.entries@, actor),
            |actor: ActorId| self.entries@[actor_index(self.entries@, actor)].versions@,
        )
    }
}

/// Whether the bookkeeping `m` has `actor`, and for it every version of
/// `versions` with the sequence numbers asked for.
pub open spec fn actor_knows(
    m: Map<ActorId, Map<int, Known>>,
    actor: ActorId,
    versions: (i64, i64),
    seqs: Option<(i64, i64)>,
) -> bool {
    m.contains_key(actor) && all_known_in(m[actor], versions, seqs)
}

/// What is known of `actor`: nothing at all for an actor never heard of.
pub open spec fn versions_of(m: Map<ActorId, Map<int, Known>>, actor: ActorId) -> Map<int, Known> {
    if m.contains_key(actor) {
        m[actor]
    } else {
        Map::empty()
    }
}

impl Bookie {
    /// The representation invariant: one entry per actor, each well-formed.
    pub closed spec fn wf(&self) -> bool {
        &&& forall|i: int, j: int|
            0 <= i < j < self.entries@.len() ==> (#[trigger] self.entries@[i]).actor_id != (
            #[trigger] self.entries@[j]).actor_id
        &&& forall|i: int| 0 <= i < self.entries@.len() ==> (#[trigger] self.entries@[i]).versions.wf()
    }

    /// With one entry per actor, the entry found for an actor is the one the
    /// view speaks of.
    proof fn lemma_found(&self, i: int)
        requires
            self.wf(),
            0 <= i < self.entries@.len(),
        ensures
            self@.contains_key(self.entries@[i].actor_id),
            self@[self.entries@[i].actor_id] == self.entries@[i].versions@,
            actor_index(self.entries@, self.entries@[i].actor_id) == i,
    {
        let actor = self.entries@[i].actor_id;
        let j = actor_index(self.entries@, actor);
        assert(self.entries@[j].actor_id == actor);
    }

    /// A bookie that has heard of no actor.
    pub fn new() -> (b: Bookie)
        ensures
            b.wf(),
            b@ == Map::<ActorId, Map<int, Known>>::empty(),
    {
        let b = Bookie { entries: Vec::new() };
        assert(b@ =~= Map::<ActorId, Map<int, Known>>::empty());
        b
    }

    /// The position of the entry for `actor`, if there is one.
    fn find(&self, actor: ActorId) -> (r: Option<usize>)
        requires
            self.wf(),
        ensures
            match r {
                Some(i) => i < self.entries@.len() && self.entries@[i as int].actor_id == actor
                    && self@.contains_key(actor) && self@[actor]
                    == self.entries@[i as int].versions@,
                None => !self@.contains_key(actor),
            },
    {
        let mut i: usize = 0;
        while i < self.entries.len()
            invariant
                self.wf(),
                i <= self.entries@.len(),
                forall|j: int| 0 <= j < i ==> (#[trigger] self.entries@[j]).actor_id != actor,
            decreases self.entries@.len() - i,
        {
            if self.entries[i].actor_id == actor {
                proof {
                    self.lemma_found(i as int);
                }
                return Some(i);
            }
            i = i + 1;
        }
        None
    }

    /// The bookkeeping of `actor`, if the actor was ever heard of.
    pub fn get(&self, actor: ActorId) -> (r: Option<&BookedVersions>)
        requires
            self.wf(),
        ensures
            match r {
                Some(b) => b.wf() && self@.contains_key(actor) && self@[actor] == b@,
                None => !self@.contains_key(actor),
            },
    {
        match self.find(actor) {
            Some(i) => Some(&self.entries[i].versions),
            None => None,
        }
    }

    /// Whether every version of `versions.0..=versions.1` of `actor` is
    /// already known, each with the sequence numbers `seqs.0..=seqs.1` where
    /// some are asked for. Of an actor never heard of nothing is known.
    pub fn contains(&self, actor: ActorId, versions: (i64, i64), seqs: Option<(i64, i64)>) -> (b:
        bool)
        requires
            self.wf(),
        ensures
            b == actor_knows(self@, actor, versions, seqs),
    {
        match self.get(actor) {
            Some(booked) => booked.contains_all(versions, seqs),
            None => false,
        }
    }

    /// Sets every version of `versions.0..=versions.1` of `actor` to the
    /// state `known`; an actor not heard of before is heard of from then on.
    pub fn insert_many(&mut self, actor: ActorId, versions: (i64, i64), known: KnownDbVersion)
        requires
            old(self).wf(),
            versions.0 <= versions.1,
            known@ == Known::Cleared || versions.0 == versions.1,
        ensures
            final(self).wf(),
            final(self)@ == old(self)@.insert(
                actor,
                inserted(versions_of(old(self)@, actor), versions, known@),
            ),
    {
        let ghost before = *self;
        let ghost want = before@.insert(
            actor,
            inserted(versions_of(before@, actor), versions, known@),
        );
        let found = self.find(actor);
        let at: usize = match found {
            Some(i) => {
                self.entries[i].versions.insert_many(versions, known);
                i
            },
            None => {
                let mut fresh = BookedVersions::new();
                fresh.insert_many(versions, known);
                self.entries.push(Booked { actor_id: actor, versions: fresh });
                self.entries.len() - 1
            },
        };
        proof {
            assert(self.entries@[at as int].actor_id == actor);
            assert forall|j: int| 0 <= j < before.entries@.len() && j != at implies (
            #[trigger] self.entries@[j]) == before.entries@[j] by {}
            assert(self.wf());
            self.lemma_found(at as int);
            assert forall|b: ActorId| #[trigger]
                self@.contains_key(b) == want.contains_key(b) && (self@.contains_key(b) ==> self@[b]
                    == want[b]) by {
                if b != actor {
                    if has_actor(self.entries@, b) {
                        let j = actor_index(self.entries@, b);
                        assert(before.entries@[j].actor_id == b);
                        before.lemma_found(j);
                        self.lemma_found(j);
                    }
                    if has_actor(before.entries@, b) {
                        let j = actor_index(before.entries@, b);
                        assert(self.entries@[j].actor_id == b);
                        before.lemma_found(j);
                        self.lemma_found(j);
                    }
                }
            }
            assert(self@.dom() =~= want.dom());
            assert(self@ =~= want);
        }
    }

    /// Sets version `v` of `actor` to the state `known`.
    pub fn insert(&mut self, actor: ActorId, v: i64, known: KnownDbVersion)
        requires
            old(self).wf(),
        ensures
            final(self).wf(),
            final(self)@ == old(self)@.insert(
                actor,
                versions_of(old(self)@, actor).insert(v as int, known@),
            ),
    {
        self.insert_many(actor, (v, v), known);
        assert(inserted(versions_of(old(self)@, actor), (v, v), known@) =~= versions_of(
            old(self)@,
            actor,
        ).insert(v as int, known@));
    }

    /// Makes `actor` heard of, with nothing known of it yet, unless it was
    /// heard of before.
    pub fn ensure_actor(&mut self, actor: ActorId)
        requires
            old(self).wf(),
        ensures
            final(self).wf(),
            final(self)@ == old(self)@.insert(actor, versions_of(old(self)@, actor)),
    {
        let ghost before = *self;
        let ghost want = before@.insert(actor, versions_of(before@, actor));
        match self.find(actor) {
            Some(_) => {
                assert(self@ =~= want);
            },
            None => {
                self.entries.push(Booked { actor_id: actor, versions: BookedVersions::new() });
                proof {
                    let at = self.entries@.len() - 1;
                    assert forall|j: int| 0 <= j < before.entries@.len() implies (
                    #[trigger] self.entries@[j]) == before.entries@[j] by {}
                    assert(self.wf());
                    self.lemma_found(at);
                    assert forall|b: ActorId| #[trigger]
                        self@.contains_key(b) == want.contains_key(b) && (self@.contains_key(b)
                            ==> self@[b] == want[b]) by {
                        if b != actor {
                            if has_actor(self.entries@, b) {
                                let j = actor_index(self.entries@, b);
                                assert(before.entries@[j].actor_id == b);
                                before.lemma_found(j);
                                self.lemma_found(j);
                            }
                            if has_actor(before.entries@, b) {
                                let j = actor_index(before.entries@, b);
                                assert(self.entries@[j].actor_id == b);
                                before.lemma_found(j);
                                self.lemma_found(j);
                            }
                        }
                    }
                    assert(self@.dom() =~= want.dom());
                    assert(self@ =~= want);
                }
            },
        }
    }

    /// The highest version known of `actor`.
    pub fn last(&self, actor: ActorId) -> (r: Option<i64>)
        requires
            self.wf(),
        ensures
            match r {
                Some(m) => is_head(versions_of(self@, actor), m as int),
                None => versions_of(self@, actor) == Map::<int, Known>::empty(),
            },
    {
        match self.get(actor) {
            Some(booked) => booked.last(),
            None => None,
        }
    }

    /// The ranges of versions of `actor` that are missing below the highest
    /// one known.
    pub fn need(&self, actor: ActorId) -> (out: Vec<(i64, i64)>)
        requires
            self.wf(),
        ensures
            separated(out@),
            forall|v: int| in_ranges(out@, v) <==> missing(versions_of(self@, actor), v),
    {
        match self.get(actor) {
            Some(booked) => booked.need(),
            None => {
                let out: Vec<(i64, i64)> = Vec::new();
                assert(forall|v: int| !in_ranges(out@, v));
                out
            },
        }
    }

    /// The applied versions of `actor` by the `db_version` each was applied
    /// under.
    pub fn current_versions(&self, actor: ActorId) -> (m: BTreeMap<i64, i64>)
        requires
            self.wf(),
        ensures
            snapshot_of(versions_of(self@, actor), m@),
    {
        match self.get(actor) {
            Some(booked) => booked.current_versions(),
            None => {
                let m: BTreeMap<i64, i64> = BTreeMap::new();
                assert(forall|d: i64, v: int| !applied_as(versions_of(self@, actor), v, d));
                m
            },
        }
    }

    /// The actors heard of, each once.
    pub fn actors(&self) -> (out: Vec<ActorId>)
        requires
            self.wf(),
        ensures
            out@.no_duplicates(),
            forall|a: ActorId| out@.contains(a) <==> self@.contains_key(a),
    {
        let mut out: Vec<ActorId> = Vec::new();
        let mut i: usize = 0;
        while i < self.entries.len()
            invariant
                self.wf(),
                i <= self.entries@.len(),
                out@.len() == i,
                forall|j: int| 0 <= j < i ==> (#[trigger] out@[j]) == self.entries@[j].actor_id,
            decreases self.entries@.len() - i,
        {
            out.push(self.entries[i].actor_id);
            i = i + 1;
        }
        proof {
            assert forall|a: int, b: int| 0 <= a < out@.len() && 0 <= b < out@.len() && a
                != b implies out@[a] != out@[b] by {
                if a < b {
                    assert(self.entries@[a].actor_id != self.entries@[b].actor_id);
                } else {
                    assert(self.entries@[b].actor_id != self.entries@[a].actor_id);
                }
            }
            assert forall|a: ActorId| out@.contains(a) <==> self@.contains_key(a) by {
                if out@.contains(a) {
                    let j = choose|j: int| 0 <= j < out@.len() && out@[j] == a;
                    assert(self.entries@[j].actor_id == a);
                }
                if self@.contains_key(a) {
                    let j = actor_index(self.entries@, a);
                    assert(out@[j] == a);
                }
            }
        }
        out
    }

    /// Sets to cleared every version of `actor` that is applied under a
    /// `db_version` of `to_clear`. An actor never heard of stays so.
    pub fn clear_versions(&mut self, actor: ActorId, to_clear: &HashSet<i64>)
        requires
            old(self).wf(),
        ensures
            final(self).wf(),
            final(self)@ == (if old(self)@.contains_key(actor) {
                old(self)@.insert(actor, retired(old(self)@[actor], to_clear@))
            } else {
                old(self)@
            }),
    {
        let ghost before = *self;
        match self.find(actor) {
            Some(i) => {
                clear_versions(&mut self.entries[i].versions, to_clear);
                proof {
                    let want = before@.insert(actor, retired(before@[actor], to_clear@));
                    assert forall|j: int| 0 <= j < before.entries@.len() && j != i implies (
                    #[trigger] self.entries@[j]) == before.entries@[j] by {}
                    assert(self.wf());
                    self.lemma_found(i as int);
                    assert forall|b: ActorId| #[trigger]
                        self@.contains_key(b) == want.contains_key(b) && (self@.contains_key(b)
                            ==> self@[b] == want[b]) by {
                        if b != actor {
                            if has_actor(self.entries@, b) {
                                let j = actor_index(self.entries@, b);
                                assert(before.entries@[j].actor_id == b);
                                before.lemma_found(j);
                                self.lemma_found(j);
                            }
                            if has_actor(before.entries@, b) {
                                let j = actor_index(before.entries@, b);
                                assert(self.entries@[j].actor_id == b);
                                before.lemma_found(j);
                                self.lemma_found(j);
                            }
                        }
                    }
                    assert(self@.dom() =~= want.dom());
                    assert(self@ =~= want);
                }
            },
            None => {},
        }
    }
}

} // verus!
