//! The table of cluster members, as the failure detector reports them.

use crate::known::ActorId;
use vstd::prelude::*;

verus! {

/// An IP address, by its number.
#[derive(Clone, Copy, Debug, PartialEq, Eq, Structural, Hash)]
pub enum IpAddress {
    V4(u32),
    V6(u128),
}

/// The address of a node's gossip socket.
#[derive(Clone, Copy, Debug, PartialEq, Eq, Structural, Hash)]
pub struct SocketAddress {
    pub ip: IpAddress,
    pub port: u16,
}

impl SocketAddress {
    /// Whether this is an IPv6 address.
    pub fn is_ipv6(&self) -> (b: bool)
        ensures
            b == (self.ip is V6),
    {
        match self.ip {
            IpAddress::V6(_) => true,
            IpAddress::V4(_) => false,
        }
    }
}

/// A node of the cluster: its identity and where it is reached.
#[derive(Clone, Copy, Debug, PartialEq, Eq, Structural, Hash)]
pub struct Actor {
    pub id: ActorId,
    pub addr: SocketAddress,
}

/// What the failure detector tells the agent.
#[derive(Clone, Copy, Debug, PartialEq, Eq, Structural)]
pub enum Notification {
    /// A node was found alive.
    MemberUp(Actor),
    /// A node was found down.
    MemberDown(Actor),
    /// This node takes part in the cluster.
    Active,
    /// This node knows of no other.
    Idle,
    /// This node has left the cluster.
    Defunct,
    /// This node joined again under a new identity.
    Rejoin(Actor),
}

/// A change of membership, passed on to whoever follows the cluster.
#[derive(Clone, Copy, Debug, PartialEq, Eq, Structural)]
pub enum MemberEvent {
    Up(Actor),
    Down(Actor),
}

/// What the agent does on a notification that changed the table.
#[derive(Clone, Copy, Debug, PartialEq, Eq, Structural)]
pub struct MemberChange {
    /// The new size of the cluster to tell the failure detector, whose
    /// timeouts go by it. No size is told of an empty table.
    pub cluster_size: Option<u32>,
    /// The event to pass on.
    pub event: MemberEvent,
}

/// Whether some member of the list has the identity `id`.
pub open spec fn has_member(states: Seq<Actor>, id: ActorId) -> bool {
    exists|i: int| 0 <= i < states.len() && (#[trigger] states[i]).id == id
}

/// The members known to be up, one entry per identity.
#[derive(Debug, PartialEq, Eq)]
pub struct Members {
    pub states: Vec<Actor>,
}

impl View for Members {
    type V = Map<ActorId, SocketAddress>;

    open spec fn view(&self) -> Map<ActorId, SocketAddress> {
        Map::new(
            |id: ActorId| has_member(self.states@, id),
            |id: ActorId|
                self.states@[choose|i: int|
                    0 <= i < self.states@.len() && (#[trigger] self.states@[i]).id == id].addr,
        )
    }
}

impl Members {
    /// The invariant of the table: no identity stands in it twice.
    pub open spec fn wf(&self) -> bool {
        forall|i: int, j: int|
            0 <= i < j < self.states@.len() ==> (#[trigger] self.states@[i]).id != (
            #[trigger] self.states@[j]).id
    }

    /// In a well-formed table, the entry found for an identity gives its
    /// address.
    pub proof fn lemma_member_at(&self, i: int)
        requires
            self.wf(),
            0 <= i < self.states@.len(),
        ensures
            self@.contains_key(self.states@[i].id),
            self@[self.states@[i].id] == self.states@[i].addr,
    {
        let id = self.states@[i].id;
        let j = choose|j: int| 0 <= j < self.states@.len() && (#[trigger] self.states@[j]).id == id;
        if i < j {
            assert(self.states@[i].id != self.states@[j].id);
        } else if j < i {
            assert(self.states@[j].id != self.states@[i].id);
        }
    }

    /// An empty table.
    pub fn new() -> (m: Members)
        ensures
            m.wf(),
            m@ == Map::<ActorId, SocketAddress>::empty(),
    {
        let m = Members { states: Vec::new() };
        assert(m@ =~= Map::<ActorId, SocketAddress>::empty());
        m
    }

    /// The position of the member with the identity `id`, if it is in the
    /// table.
    fn find(&self, id: ActorId) -> (r: Option<usize>)
        ensures
            match r {
                Some(i) => i < self.states@.len() && self.states@[i as int].id == id,
                None => !has_member(self.states@, id),
            },
    {
        let mut i: usize = 0;
        while i < self.states.len()
            invariant
                i <= self.states@.len(),
                forall|j: int| 0 <= j < i ==> (#[trigger] self.states@[j]).id != id,
            decreases self.states@.len() - i,
        {
            if self.states[i].id == id {
                return Some(i);
            }
            i = i + 1;
        }
        None
    }

    /// The number of members.
    pub fn len(&self) -> (n: usize)
        ensures
            n == self.states@.len(),
    {
        self.states.len()
    }

    /// Puts a node in the table. Says whether it was added: a node whose
    /// identity is in the table already is not, and the table stays as it
    /// is.
    pub fn add_member(&mut self, actor: &Actor) -> (added: bool)
        requires
            old(self).wf(),
        ensures
            final(self).wf(),
            added == !old(self)@.contains_key(actor.id),
            added ==> final(self)@ == old(self)@.insert(actor.id, actor.addr),
            added ==> final(self).states@.len() == old(self).states@.len() + 1,
            !added ==> *final(self) == *old(self),
    {
        let ghost before = *self;
        match self.find(actor.id) {
            Some(_) => false,
            None => {
                self.states.push(*actor);
                proof {
                    let n = before.states@.len() as int;
                    self.lemma_member_at(n);
                    let want = before@.insert(actor.id, actor.addr);
                    assert forall|id: ActorId| #[trigger]
                        self@.contains_key(id) == want.contains_key(id) && (self@.contains_key(id)
                            ==> self@[id] == want[id]) by {
                        if has_member(before.states@, id) {
                            let i = choose|i: int|
                                0 <= i < before.states@.len() && (
                                #[trigger] before.states@[i]).id == id;
                            assert(self.states@[i] == before.states@[i]);
                            before.lemma_member_at(i);
                            self.lemma_member_at(i);
                        }
                        if has_member(self.states@, id) && id != actor.id {
                            let i = choose|i: int|
                                0 <= i < self.states@.len() && (#[trigger] self.states@[i]).id
                                    == id;
                            assert(before.states@[i] == self.states@[i]);
                        }
                    }
                    assert(self@.dom() =~= want.dom());
                    assert(self@ =~= want);
                }
                true
            },
        }
    }

    /// Takes a node out of the table. Says whether it was removed: a node
    /// whose identity is not in the table is not.
    pub fn remove_member(&mut self, actor: &Actor) -> (removed: bool)
        requires
            old(self).wf(),
        ensures
            final(self).wf(),
            removed == old(self)@.contains_key(actor.id),
            removed ==> final(self)@ == old(self)@.remove(actor.id),
            removed ==> final(self).states@.len() + 1 == old(self).states@.len(),
            !removed ==> *final(self) == *old(self),
    {
        let ghost before = *self;
        match self.find(actor.id) {
            Some(at) => {
                self.states.remove(at);
                proof {
                    assert forall|i: int| 0 <= i < self.states@.len() implies (
                    #[trigger] self.states@[i]) == before.states@[if i < at {
                        i
                    } else {
                        i + 1
                    }] by {}
                    assert forall|i: int, j: int| 0 <= i < j < self.states@.len() implies (
                    #[trigger] self.states@[i]).id != (#[trigger] self.states@[j]).id by {
                        let i0 = if i < at {
                            i
                        } else {
                            i + 1
                        };
                        let j0 = if j < at {
                            j
                        } else {
                            j + 1
                        };
                        assert(before.states@[i0].id != before.states@[j0].id);
                    }
                    before.lemma_member_at(at as int);
                    let want = before@.remove(actor.id);
                    assert forall|id: ActorId| #[trigger]
                        self@.contains_key(id) == want.contains_key(id) && (self@.contains_key(id)
                            ==> self@[id] == want[id]) by {
                        if has_member(self.states@, id) {
                            let i = choose|i: int|
                                0 <= i < self.states@.len() && (#[trigger] self.states@[i]).id
                                    == id;
                            let i0 = if i < at {
                                i
                            } else {
                                i + 1
                            };
                            assert(before.states@[i0].id == id);
                            if i0 < at {
                                assert(before.states@[i0].id != before.states@[at as int].id);
                            } else {
                                assert(before.states@[at as int].id != before.states@[i0].id);
                            }
                            before.lemma_member_at(i0);
                            self.lemma_member_at(i);
                        }
                        if has_member(before.states@, id) && id != actor.id {
                            let i0 = choose|i: int|
                                0 <= i < before.states@.len() && (
                                #[trigger] before.states@[i]).id == id;
                            let i = if i0 < at {
                                i0
                            } else {
                                i0 - 1
                            };
                            assert(self.states@[i].id == id);
                        }
                    }
                    assert(self@.dom() =~= want.dom());
                    assert(self@ =~= want);
                }
                true
            },
            None => false,
        }
    }
}

/// The size of the cluster to tell the failure detector for a table of
/// `len` members: none for an empty table, and none for one too large to
/// count in 32 bits.
pub open spec fn cluster_size_of(len: int) -> Option<u32> {
    if 0 < len <= u32::MAX {
        Some(len as u32)
    } else {
        None
    }
}

/// What a notification of the failure detector does to the table, and what
/// the agent has to do about it.
///
/// A node found alive is added, a node found down is removed. Where that
/// changed the table, the new size of the cluster is told to the failure
/// detector and the event is passed on. Every other notification, and one
/// that leaves the table as it is, asks for nothing.
pub fn handle_notification(members: &mut Members, notification: Notification) -> (r: Option<
    MemberChange,
>)
    requires
        old(members).wf(),
    ensures
        final(members).wf(),
        match notification {
            Notification::MemberUp(actor) => if old(members)@.contains_key(actor.id) {
                r is None && *final(members) == *old(members)
            } else {
                final(members)@ == old(members)@.insert(actor.id, actor.addr) && r == Some(
                    MemberChange {
                        cluster_size: cluster_size_of(old(members).states@.len() as int + 1),
                        event: MemberEvent::Up(actor),
                    },
                )
            },
            Notification::MemberDown(actor) => if old(members)@.contains_key(actor.id) {
                final(members)@ == old(members)@.remove(actor.id) && r == Some(
                    MemberChange {
                        cluster_size: cluster_size_of(old(members).states@.len() as int - 1),
                        event: MemberEvent::Down(actor),
                    },
                )
            } else {
                r is None && *final(members) == *old(members)
            },
            _ => r is None && *final(members) == *old(members),
        },
{
    match notification {
        Notification::MemberUp(actor) => {
            if members.add_member(&actor) {
                Some(
                    MemberChange {
                        cluster_size: cluster_size(members.len()),
                        event: MemberEvent::Up(actor),
                    },
                )
            } else {
                None
            }
        },
        Notification::MemberDown(actor) => {
            if members.remove_member(&actor) {
                Some(
                    MemberChange {
                        cluster_size: cluster_size(members.len()),
                        event: MemberEvent::Down(actor),
                    },
                )
            } else {
                None
            }
        },
        _ => None,
    }
}

/// The size of the cluster for a table of `len` members.
pub fn cluster_size(len: usize) -> (r: Option<u32>)
    ensures
        r == cluster_size_of(len as int),
{
    if len > 0 && len <= 0xffff_ffff {
        Some(len as u32)
    } else {
        None
    }
}

} // verus!
