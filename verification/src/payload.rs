//! What one gossip datagram carries.
//!
//! A single socket carries the failure detector's own traffic and the
//! application's broadcasts. The first byte of a datagram says which; the
//! rest is the payload.

use vstd::prelude::*;
use vstd::slice::slice_subrange;

verus! {

/// The size from which a message is too large for one datagram.
pub const FRAGMENTS_AT: usize = 1400;

/// The kind of payload, told by the first byte of a datagram.
#[derive(Clone, Copy, Debug, PartialEq, Eq, Structural)]
pub enum PayloadKind {
    /// A datagram of the failure detector: byte 0.
    Swim,
    /// An application message: byte 1.
    Broadcast,
    /// An application message sent ahead of the others: byte 2.
    PriorityBroadcast,
}

impl PayloadKind {
    /// The byte that stands for the kind.
    pub open spec fn spec_byte(self) -> u8 {
        match self {
            PayloadKind::Swim => 0,
            PayloadKind::Broadcast => 1,
            PayloadKind::PriorityBroadcast => 2,
        }
    }

    /// The kind that a byte stands for, if it stands for one.
    pub open spec fn spec_from_repr(byte: u8) -> Option<PayloadKind> {
        if byte == 0 {
            Some(PayloadKind::Swim)
        } else if byte == 1 {
            Some(PayloadKind::Broadcast)
        } else if byte == 2 {
            Some(PayloadKind::PriorityBroadcast)
        } else {
            None
        }
    }

    /// The byte that stands for the kind.
    #[verifier::when_used_as_spec(spec_byte)]
    pub fn byte(self) -> (b: u8)
        ensures
            b == self.spec_byte(),
    {
        match self {
            PayloadKind::Swim => 0,
            PayloadKind::Broadcast => 1,
            PayloadKind::PriorityBroadcast => 2,
        }
    }

    /// The kind that a byte stands for, if it stands for one.
    #[verifier::when_used_as_spec(spec_from_repr)]
    pub fn from_repr(byte: u8) -> (r: Option<PayloadKind>)
        ensures
            r == PayloadKind::spec_from_repr(byte),
    {
        match byte {
            0 => Some(PayloadKind::Swim),
            1 => Some(PayloadKind::Broadcast),
            2 => Some(PayloadKind::PriorityBroadcast),
            _ => None,
        }
    }

    /// The kind under which a broadcast travels: ahead of the others if it
    /// has priority.
    pub fn for_broadcast(priority: bool) -> (k: PayloadKind)
        ensures
            k == (if priority {
                PayloadKind::PriorityBroadcast
            } else {
                PayloadKind::Broadcast
            }),
    {
        if priority {
            PayloadKind::PriorityBroadcast
        } else {
            PayloadKind::Broadcast
        }
    }

    /// The name of the kind, as it is written in logs and metrics.
    pub fn as_str(&self) -> (s: &'static str)
        ensures
            s@ == match *self {
                PayloadKind::Swim => "swim"@,
                PayloadKind::Broadcast => "broadcast"@,
                PayloadKind::PriorityBroadcast => "priority-broadcast"@,
            },
    {
        match self {
            PayloadKind::Swim => "swim",
            PayloadKind::Broadcast => "broadcast",
            PayloadKind::PriorityBroadcast => "priority-broadcast",
        }
    }

    /// The name of the kind as an owned string.
    pub fn to_string(&self) -> (s: String)
        ensures
            s@ == match *self {
                PayloadKind::Swim => "swim"@,
                PayloadKind::Broadcast => "broadcast"@,
                PayloadKind::PriorityBroadcast => "priority-broadcast"@,
            },
    {
        self.as_str().to_owned()
    }
}

/// Every kind is told back from its byte.
pub proof fn lemma_kind_round_trip(kind: PayloadKind)
    ensures
        PayloadKind::spec_from_repr(kind.spec_byte()) == Some(kind),
{
}

/// What came in with one datagram.
#[derive(Debug, PartialEq, Eq)]
pub enum Incoming<'a> {
    /// A datagram for the failure detector, with its payload.
    Swim(&'a [u8]),
    /// An application message, still encoded, and whether it came with
    /// priority.
    Broadcast { payload: &'a [u8], priority: bool },
    /// A first byte that stands for no kind; the datagram is dropped.
    Unknown(u8),
}

/// Tells what a datagram carries from its first byte, and hands out the
/// payload that follows it. A datagram has at least that one byte.
pub fn read_datagram<'a>(datagram: &'a [u8]) -> (r: Incoming<'a>)
    requires
        datagram@.len() > 0,
    ensures
        match PayloadKind::spec_from_repr(datagram@[0]) {
            Some(PayloadKind::Swim) => r matches Incoming::Swim(p) && p@ == datagram@.skip(1),
            Some(PayloadKind::Broadcast) => r matches Incoming::Broadcast { payload, priority }
                && payload@ == datagram@.skip(1) && !priority,
            Some(PayloadKind::PriorityBroadcast) => r matches Incoming::Broadcast {
                payload,
                priority,
            } && payload@ == datagram@.skip(1) && priority,
            None => r == Incoming::Unknown(datagram@[0]),
        },
{
    let first = datagram[0];
    let rest = slice_subrange(datagram, 1, datagram.len());
    assert(rest@ =~= datagram@.skip(1));
    match PayloadKind::from_repr(first) {
        Some(PayloadKind::Swim) => Incoming::Swim(rest),
        Some(PayloadKind::Broadcast) => Incoming::Broadcast { payload: rest, priority: false },
        Some(PayloadKind::PriorityBroadcast) => Incoming::Broadcast {
            payload: rest,
            priority: true,
        },
        None => Incoming::Unknown(first),
    }
}

/// Makes the datagram for a payload of the given kind: the kind's byte, then
/// the payload.
pub fn write_datagram(kind: PayloadKind, payload: &[u8]) -> (out: Vec<u8>)
    ensures
        out@ == seq![kind.spec_byte()] + payload@,
{
    let mut out: Vec<u8> = Vec::new();
    out.push(kind.byte());
    let mut i: usize = 0;
    while i < payload.len()
        invariant
            i <= payload@.len(),
            out@ == seq![kind.spec_byte()] + payload@.take(i as int),
        decreases payload@.len() - i,
    {
        out.push(payload[i]);
        proof {
            assert(payload@.take(i + 1) =~= payload@.take(i as int).push(payload@[i as int]));
            assert(out@ =~= seq![kind.spec_byte()] + payload@.take(i + 1));
        }
        i = i + 1;
    }
    assert(payload@.take(i as int) =~= payload@);
    out
}

/// Whether a datagram of this length travels over UDP: one above
/// [`FRAGMENTS_AT`] bytes does not, and has to go another way.
pub fn goes_by_udp(datagram_len: usize) -> (b: bool)
    ensures
        b == (datagram_len <= FRAGMENTS_AT),
{
    datagram_len <= FRAGMENTS_AT
}

/// A datagram made for a payload is read back as that kind and payload.
pub proof fn lemma_datagram_round_trip(kind: PayloadKind, payload: Seq<u8>)
    ensures
        (seq![kind.spec_byte()] + payload).len() > 0,
        PayloadKind::spec_from_repr((seq![kind.spec_byte()] + payload)[0]) == Some(kind),
        (seq![kind.spec_byte()] + payload).skip(1) == payload,
{
    assert((seq![kind.spec_byte()] + payload).skip(1) =~= payload);
}

} // verus!
