//! Finding nodes to announce oneself to.
//!
//! A node is configured with bootstrap entries of the form
//! `host[:port][@dns-server]`. An entry that is an address is used as it
//! is; of any other, the host is looked up, with the DNS server named or
//! the system's own. What the lookups give, without the node's own address,
//! are the candidates; if there are none, addresses of members stored
//! earlier take their place. A few candidates chosen at random are
//! announced to.

use crate::members::{IpAddress, SocketAddress};
use crate::random::{choose_positions, items_at, positions_of};
use vstd::prelude::*;
use vstd::slice::slice_subrange;

verus! {

/// The gossip port of an entry that names none.
pub const DEFAULT_GOSSIP_PORT: u16 = 4001;

/// The port of a DNS server named without one.
pub const DEFAULT_DNS_PORT: u16 = 53;

/// How many nodes are announced to at most.
pub const RANDOM_NODES_CHOICES: usize = 10;

/// How many stored members are read where the lookups gave nothing.
pub const FALLBACK_MEMBERS: usize = 5;

/// How often the bootstrap is repeated, in seconds.
pub const BOOTSTRAP_INTERVAL_SECS: u64 = 300;

/// The position of the first `sep` in `s`, or the length of `s` if there is
/// none.
pub open spec fn first_at(s: Seq<u8>, sep: u8) -> int
    decreases s.len(),
{
    if s.len() == 0 || s[0] == sep {
        0
    } else {
        1 + first_at(s.skip(1), sep)
    }
}

/// What stands before the first `sep`: all of `s` if there is none.
pub open spec fn before(s: Seq<u8>, sep: u8) -> Seq<u8> {
    s.take(first_at(s, sep))
}

/// What stands after the first `sep`, if there is one.
pub open spec fn after(s: Seq<u8>, sep: u8) -> Option<Seq<u8>> {
    if first_at(s, sep) < s.len() {
        Some(s.skip(first_at(s, sep) + 1))
    } else {
        None
    }
}

/// The first separator is within the text or at its end, and nothing before
/// it is a separator.
pub proof fn lemma_first_at(s: Seq<u8>, sep: u8)
    ensures
        0 <= first_at(s, sep) <= s.len(),
        first_at(s, sep) < s.len() ==> s[first_at(s, sep)] == sep,
        forall|i: int| 0 <= i < first_at(s, sep) ==> s[i] != sep,
    decreases s.len(),
{
    if s.len() > 0 && s[0] != sep {
        lemma_first_at(s.skip(1), sep);
        assert forall|i: int| 0 <= i < first_at(s, sep) implies s[i] != sep by {
            if i > 0 {
                assert(s.skip(1)[i - 1] == s[i]);
            }
        }
    }
}

/// Finds the first `sep` in `s`.
fn find_first(s: &[u8], sep: u8) -> (at: usize)
    ensures
        at == first_at(s@, sep),
        at <= s@.len(),
{
    let mut i: usize = 0;
    assert(s@.skip(0) =~= s@);
    while i < s.len() && s[i] != sep
        invariant
            i <= s@.len(),
            first_at(s@, sep) == i + first_at(s@.skip(i as int), sep),
        decreases s@.len() - i,
    {
        proof {
            assert(s@.skip(i as int)[0] == s@[i as int]);
            assert(s@.skip(i as int).skip(1) =~= s@.skip(i + 1));
        }
        i = i + 1;
    }
    proof {
        if i < s@.len() {
            assert(s@.skip(i as int)[0] == s@[i as int]);
        }
        lemma_first_at(s@, sep);
    }
    i
}

/// Splits `s` at the first `sep`.
fn split_first<'a>(s: &'a [u8], sep: u8) -> (r: (&'a [u8], Option<&'a [u8]>))
    ensures
        r.0@ == before(s@, sep),
        match r.1 {
            Some(t) => after(s@, sep) == Some(t@),
            None => after(s@, sep) is None,
        },
{
    let at = find_first(s, sep);
    let head = slice_subrange(s, 0, at);
    assert(head@ =~= before(s@, sep));
    if at < s.len() {
        let tail = slice_subrange(s, at + 1, s.len());
        assert(tail@ =~= s@.skip(at + 1));
        (head, Some(tail))
    } else {
        (head, None)
    }
}

/// Whether the byte is a decimal digit.
pub open spec fn is_digit(b: u8) -> bool {
    48 <= b <= 57
}

/// The number that the digits write.
pub open spec fn digits_value(s: Seq<u8>) -> int
    decreases s.len(),
{
    if s.len() == 0 {
        0
    } else {
        10 * digits_value(s.drop_last()) + (s.last() - 48)
    }
}

/// The digits of a port as they may be written: with a plus sign before
/// them or without.
pub open spec fn unsigned_part(s: Seq<u8>) -> Seq<u8> {
    if s.len() > 0 && s[0] == 43 {
        s.skip(1)
    } else {
        s
    }
}

/// The port that a text names: one or more decimal digits, with a plus sign
/// before them or without, that write a number of 16 bits. Any other text
/// names none.
pub open spec fn port_of(s: Seq<u8>) -> Option<u16> {
    let digits = unsigned_part(s);
    if digits.len() > 0 && (forall|i: int| 0 <= i < digits.len() ==> is_digit(#[trigger] digits[i]))
        && digits_value(digits) <= u16::MAX {
        Some(digits_value(digits) as u16)
    } else {
        None
    }
}

/// The number that digits write does not get smaller with more digits.
proof fn lemma_digits_grow(s: Seq<u8>, n: int)
    requires
        0 <= n <= s.len(),
        forall|i: int| 0 <= i < s.len() ==> is_digit(#[trigger] s[i]),
    ensures
        0 <= digits_value(s.take(n)) <= digits_value(s),
    decreases s.len() - n,
{
    lemma_digits_nonneg(s.take(n));
    if n < s.len() {
        lemma_digits_grow(s, n + 1);
        assert(s.take(n + 1).drop_last() =~= s.take(n));
        assert(s.take(n + 1).last() == s[n]);
    } else {
        assert(s.take(n) =~= s);
    }
}

/// Digits write no negative number.
proof fn lemma_digits_nonneg(s: Seq<u8>)
    requires
        forall|i: int| 0 <= i < s.len() ==> is_digit(#[trigger] s[i]),
    ensures
        0 <= digits_value(s),
    decreases s.len(),
{
    if s.len() > 0 {
        assert forall|i: int| 0 <= i < s.drop_last().len() implies is_digit(
            #[trigger] s.drop_last()[i],
        ) by {
            assert(s.drop_last()[i] == s[i]);
        }
        lemma_digits_nonneg(s.drop_last());
    }
}

/// Reads the port that a text names.
pub fn parse_port(s: &[u8]) -> (r: Option<u16>)
    ensures
        r == port_of(s@),
{
    let start: usize = if s.len() > 0 && s[0] == 43 {
        1
    } else {
        0
    };
    let digits = slice_subrange(s, start, s.len());
    assert(digits@ =~= unsigned_part(s@));
    if digits.len() == 0 {
        return None;
    }
    let mut value: u32 = 0;
    let mut i: usize = 0;
    while i < digits.len()
        invariant
            i <= digits@.len(),
            digits@.len() > 0,
            digits@ == unsigned_part(s@),
            forall|j: int| 0 <= j < i ==> is_digit(#[trigger] digits@[j]),
            value == digits_value(digits@.take(i as int)),
            value <= u16::MAX,
        decreases digits@.len() - i,
    {
        let b = digits[i];
        if b < 48 || b > 57 {
            assert(!is_digit(digits@[i as int]));
            return None;
        }
        proof {
            assert(digits@.take(i + 1).drop_last() =~= digits@.take(i as int));
            assert(digits@.take(i + 1).last() == b);
        }
        let next: u32 = value * 10 + (b - 48) as u32;
        if next > 0xffff {
            proof {
                let rest = digits@;
                if forall|j: int| 0 <= j < rest.len() ==> is_digit(#[trigger] rest[j]) {
                    lemma_digits_grow(rest, i + 1);
                }
            }
            return None;
        }
        value = next;
        i = i + 1;
    }
    assert(digits@.take(i as int) =~= digits@);
    Some(value as u16)
}

/// A bootstrap entry taken apart.
#[derive(Debug, PartialEq, Eq)]
pub struct BootstrapEntry {
    /// The host to look up.
    pub host: Vec<u8>,
    /// The gossip port of the nodes found.
    pub port: u16,
    /// The DNS server to ask, as written; the system's own if none is
    /// named.
    pub dns_server: Option<Vec<u8>>,
}

/// The host of an entry: what stands before the first `@`, up to the first
/// `:` of it.
pub open spec fn entry_host(entry: Seq<u8>) -> Seq<u8> {
    before(before(entry, 64), 58)
}

/// The port of an entry: what stands between the first and the second `:`
/// before the first `@`, if that names a port; else the default port.
pub open spec fn entry_port(entry: Seq<u8>) -> u16 {
    match after(before(entry, 64), 58) {
        Some(rest) => match port_of(before(rest, 58)) {
            Some(port) => port,
            None => DEFAULT_GOSSIP_PORT,
        },
        None => DEFAULT_GOSSIP_PORT,
    }
}

/// The DNS server of an entry: what stands between the first and the second
/// `@`, if there is an `@`.
pub open spec fn entry_dns_server(entry: Seq<u8>) -> Option<Seq<u8>> {
    match after(entry, 64) {
        Some(rest) => Some(before(rest, 64)),
        None => None,
    }
}

/// Copies bytes into a buffer of their own.
fn to_vec(s: &[u8]) -> (v: Vec<u8>)
    ensures
        v@ == s@,
{
    let mut v: Vec<u8> = Vec::new();
    let mut i: usize = 0;
    while i < s.len()
        invariant
            i <= s@.len(),
            v@ == s@.take(i as int),
        decreases s@.len() - i,
    {
        v.push(s[i]);
        assert(s@.take(i + 1) =~= s@.take(i as int).push(s@[i as int]));
        i = i + 1;
    }
    assert(s@.take(i as int) =~= s@);
    v
}

/// Takes apart a bootstrap entry of the form `host[:port][@dns-server]`.
pub fn parse_bootstrap_entry(entry: &[u8]) -> (r: BootstrapEntry)
    ensures
        r.host@ == entry_host(entry@),
        r.port == entry_port(entry@),
        match r.dns_server {
            Some(d) => entry_dns_server(entry@) == Some(d@),
            None => entry_dns_server(entry@) is None,
        },
{
    let (host_port, after_at) = split_first(entry, 64);
    let dns_server = match after_at {
        Some(rest) => {
            let (server, _) = split_first(rest, 64);
            Some(to_vec(server))
        },
        None => None,
    };
    let (host, after_colon) = split_first(host_port, 58);
    let port = match after_colon {
        Some(rest) => {
            let (text, _) = split_first(rest, 58);
            match parse_port(text) {
                Some(port) => port,
                None => DEFAULT_GOSSIP_PORT,
            }
        },
        None => DEFAULT_GOSSIP_PORT,
    };
    BootstrapEntry { host: to_vec(host), port, dns_server }
}

/// The kind of record to look up.
#[derive(Clone, Copy, Debug, PartialEq, Eq, Structural)]
pub enum RecordType {
    A,
    AAAA,
}

/// The kind of record to look up for a node that gossips on `our_addr`:
/// addresses of its own family.
pub fn record_type_for(our_addr: &SocketAddress) -> (r: RecordType)
    ensures
        r == (if our_addr.ip is V6 {
            RecordType::AAAA
        } else {
            RecordType::A
        }),
{
    if our_addr.is_ipv6() {
        RecordType::AAAA
    } else {
        RecordType::A
    }
}

/// Whether `addr` can be another node for one that gossips on `ours`: it is
/// of the same family and not the same address.
pub open spec fn other_node(ours: SocketAddress, addr: SocketAddress) -> bool {
    (ours.ip is V4 <==> addr.ip is V4) && ours != addr
}

/// Whether `addr` can be another node for one that gossips on `ours`.
pub fn is_other_node(ours: &SocketAddress, addr: &SocketAddress) -> (b: bool)
    ensures
        b == other_node(*ours, *addr),
{
    match (ours.ip, addr.ip) {
        (IpAddress::V4(a), IpAddress::V4(b)) => a != b || ours.port != addr.port,
        (IpAddress::V6(a), IpAddress::V6(b)) => a != b || ours.port != addr.port,
        _ => false,
    }
}

/// Adds to the candidates an address that a bootstrap entry gives as it
/// is. Such an address is used directly, whatever its family and also if it
/// is the node's own; only an address that is a candidate already is not
/// added again.
pub fn add_literal(candidates: &mut Vec<SocketAddress>, addr: SocketAddress)
    requires
        old(candidates)@.no_duplicates(),
    ensures
        final(candidates)@.no_duplicates(),
        final(candidates)@ == (if old(candidates)@.contains(addr) {
            old(candidates)@
        } else {
            old(candidates)@.push(addr)
        }),
{
    if !holds(candidates, &addr) {
        let ghost held = candidates@;
        candidates.push(addr);
        proof {
            assert forall|i: int, j: int|
                0 <= i < candidates@.len() && 0 <= j < candidates@.len() && i
                    != j implies candidates@[i] != candidates@[j] by {
                if i < held.len() && j < held.len() {
                    assert(held[i] != held[j]);
                } else if i < held.len() {
                    assert(held.contains(held[i]));
                } else {
                    assert(held.contains(held[j]));
                }
            }
        }
    }
}

/// Adds to the candidates the addresses that a lookup gave, each with the
/// gossip port `port`, leaving out the node's own address, addresses of the
/// other family and addresses that are candidates already.
pub fn add_resolved(
    candidates: &mut Vec<SocketAddress>,
    ours: &SocketAddress,
    port: u16,
    found: &Vec<IpAddress>,
)
    requires
        old(candidates)@.no_duplicates(),
    ensures
        final(candidates)@.no_duplicates(),
        forall|a: SocketAddress| #[trigger]
            final(candidates)@.contains(a) <==> (old(candidates)@.contains(a) || (a.port == port
                && found@.contains(a.ip) && other_node(*ours, a))),
{
    let ghost start = candidates@;
    let mut i: usize = 0;
    while i < found.len()
        invariant
            i <= found@.len(),
            candidates@.no_duplicates(),
            forall|a: SocketAddress| #[trigger]
                candidates@.contains(a) <==> (start.contains(a) || (a.port == port
                    && found@.take(i as int).contains(a.ip) && other_node(*ours, a))),
        decreases found@.len() - i,
    {
        let addr = SocketAddress { ip: found[i], port };
        let ghost held = candidates@;
        proof {
            assert(found@.take(i + 1) =~= found@.take(i as int).push(found@[i as int]));
            assert forall|ip: IpAddress|
                found@.take(i + 1).contains(ip) <==> (found@.take(i as int).contains(ip) || ip
                    == found@[i as int]) by {
                if found@.take(i as int).contains(ip) {
                    let j = choose|j: int| 0 <= j < i && found@.take(i as int)[j] == ip;
                    assert(found@.take(i + 1)[j] == ip);
                }
                if ip == found@[i as int] {
                    assert(found@.take(i + 1)[i as int] == ip);
                }
            }
        }
        let fresh = is_other_node(ours, &addr) && !holds(candidates, &addr);
        if fresh {
            candidates.push(addr);
        }
        proof {
            assert forall|a: SocketAddress| #[trigger]
                candidates@.contains(a) <==> (start.contains(a) || (a.port == port
                    && found@.take(i + 1).contains(a.ip) && other_node(*ours, a))) by {
                assert(held.contains(a) <==> (start.contains(a) || (a.port == port
                    && found@.take(i as int).contains(a.ip) && other_node(*ours, a))));
                if fresh {
                    if held.contains(a) {
                        let j = choose|j: int| 0 <= j < held.len() && held[j] == a;
                        assert(candidates@[j] == a);
                    }
                    if a == addr {
                        assert(candidates@[held.len() as int] == a);
                    }
                    if candidates@.contains(a) && a != addr {
                        let j = choose|j: int| 0 <= j < candidates@.len() && candidates@[j] == a;
                        assert(held[j] == a);
                    }
                }
            }
        }
        i = i + 1;
    }
    assert(found@.take(i as int) =~= found@);
}

/// Whether `addr` is in the list.
fn holds(list: &Vec<SocketAddress>, addr: &SocketAddress) -> (b: bool)
    ensures
        b == list@.contains(*addr),
{
    let mut i: usize = 0;
    while i < list.len()
        invariant
            i <= list@.len(),
            forall|j: int| 0 <= j < i ==> list@[j] != *addr,
        decreases list@.len() - i,
    {
        if list[i] == *addr {
            return true;
        }
        i = i + 1;
    }
    false
}

/// The candidates that the addresses of members stored earlier give: each
/// once, without the node's own address and addresses of the other family.
pub fn fallback_candidates(ours: &SocketAddress, stored: &Vec<SocketAddress>) -> (out: Vec<
    SocketAddress,
>)
    ensures
        out@.no_duplicates(),
        forall|a: SocketAddress| #[trigger]
            out@.contains(a) <==> (stored@.contains(a) && other_node(*ours, a)),
{
    let mut out: Vec<SocketAddress> = Vec::new();
    let mut i: usize = 0;
    while i < stored.len()
        invariant
            i <= stored@.len(),
            out@.no_duplicates(),
            forall|a: SocketAddress| #[trigger]
                out@.contains(a) <==> (stored@.take(i as int).contains(a) && other_node(*ours, a)),
        decreases stored@.len() - i,
    {
        let addr = stored[i];
        let ghost held = out@;
        proof {
            assert(stored@.take(i + 1) =~= stored@.take(i as int).push(addr));
            assert forall|a: SocketAddress|
                stored@.take(i + 1).contains(a) <==> (stored@.take(i as int).contains(a) || a
                    == addr) by {
                if stored@.take(i as int).contains(a) {
                    let j = choose|j: int| 0 <= j < i && stored@.take(i as int)[j] == a;
                    assert(stored@.take(i + 1)[j] == a);
                }
                if a == addr {
                    assert(stored@.take(i + 1)[i as int] == a);
                }
            }
        }
        let fresh = is_other_node(ours, &addr) && !holds(&out, &addr);
        if fresh {
            out.push(addr);
        }
        proof {
            assert forall|a: SocketAddress| #[trigger]
                out@.contains(a) <==> (stored@.take(i + 1).contains(a) && other_node(
                    *ours,
                    a,
                )) by {
                assert(held.contains(a) <==> (stored@.take(i as int).contains(a) && other_node(
                    *ours,
                    a,
                )));
                if fresh {
                    if held.contains(a) {
                        let j = choose|j: int| 0 <= j < held.len() && held[j] == a;
                        assert(out@[j] == a);
                    }
                    if a == addr {
                        assert(out@[held.len() as int] == a);
                    }
                    if out@.contains(a) && a != addr {
                        let j = choose|j: int| 0 <= j < out@.len() && out@[j] == a;
                        assert(held[j] == a);
                    }
                }
            }
        }
        i = i + 1;
    }
    assert(stored@.take(i as int) =~= stored@);
    out
}

/// The candidates at the positions drawn, in the order of the draw.
pub fn take_positions(candidates: &Vec<SocketAddress>, picks: &Vec<usize>) -> (out: Vec<
    SocketAddress,
>)
    requires
        positions_of(picks@, candidates@.len() as int),
    ensures
        out@ == items_at(candidates@, picks@),
{
    let mut out: Vec<SocketAddress> = Vec::new();
    let mut i: usize = 0;
    while i < picks.len()
        invariant
            i <= picks@.len(),
            positions_of(picks@, candidates@.len() as int),
            out@.len() == i,
            forall|j: int| 0 <= j < i ==> out@[j] == candidates@[picks@[j] as int],
        decreases picks@.len() - i,
    {
        out.push(candidates[picks[i]]);
        i = i + 1;
    }
    assert(out@ =~= items_at(candidates@, picks@));
    out
}

/// Chooses at random the nodes to announce to: ten of the candidates, or
/// all of them if there are no more. Each node chosen is a candidate, and
/// where no candidate comes twice, no node is chosen twice.
pub fn choose_announce_targets(candidates: &Vec<SocketAddress>) -> (out: Vec<SocketAddress>)
    ensures
        out@.len() == (if candidates@.len() < RANDOM_NODES_CHOICES {
            candidates@.len()
        } else {
            RANDOM_NODES_CHOICES as nat
        }),
        forall|i: int| 0 <= i < out@.len() ==> candidates@.contains(#[trigger] out@[i]),
        candidates@.no_duplicates() ==> out@.no_duplicates(),
{
    let picks = choose_positions(candidates.len(), RANDOM_NODES_CHOICES);
    let out = take_positions(candidates, &picks);
    proof {
        assert forall|i: int| 0 <= i < out@.len() implies candidates@.contains(
            #[trigger] out@[i],
        ) by {
            assert(out@[i] == candidates@[picks@[i] as int]);
        }
        if candidates@.no_duplicates() {
            assert forall|i: int, j: int| 0 <= i < out@.len() && 0 <= j < out@.len() && i
                != j implies out@[i] != out@[j] by {
                assert(picks@[i] != picks@[j]);
            }
        }
    }
    out
}

} // verus!
