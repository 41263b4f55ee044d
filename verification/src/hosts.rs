//! How hosts are told apart and found: the order of their addresses, the bytes that stand for the
//! members of a mesh, the choice of interfaces, the sockets, and the search for a member.
use crate::addr::{
    addr_lt, increasing, lemma_increasing_is_unique, lemma_sorted, sorted, IpAddr, Peer,
    SocketAddr,
};
use crate::crc::crc32;
use crate::discovery::{interval_after, new_search, next_interval, Search};
use crate::fingerprint::{fingerprint_of, membership_bytes};
use crate::laws::lemma_others_bytes;
use crate::networking::{
    any_port, best_interface, first_where, ipv4_addrs, ipv4_sockets, ipv6_sockets,
    leads_outside, wished, Interface, Wish,
};
use crate::text::{addr_text, full_text, ip_text, uncompressed_text};
use crate::time::{Duration, Instant};
use vstd::prelude::*;
use vstd::utf8::encode_utf8;

verus! {

// The order of addresses.

/// Of two different addresses one comes before the other, and none comes before one that comes
/// before it.
pub proof fn law_addresses_are_ordered(a: SocketAddr, b: SocketAddr, c: SocketAddr)
    ensures
        !addr_lt(a, a),
        a != b ==> (addr_lt(a, b) <==> !addr_lt(b, a)),
        addr_lt(a, b) && addr_lt(b, c) ==> addr_lt(a, c),
{
}

/// IPv4 addresses come before IPv6 addresses. Of two addresses of a kind, the first of these in which
/// they differ decides: the IP address, the port, the flow and the scope.
pub proof fn law_what_decides_the_order(
    ip4: u32,
    other4: u32,
    ip: u128,
    other: u128,
    port: u16,
    other_port: u16,
    flowinfo: u32,
    other_flowinfo: u32,
    scope_id: u32,
    other_scope_id: u32,
)
    ensures
        ({
            let a = SocketAddr::V4 { ip: ip4, port };
            let b = SocketAddr::V4 { ip: other4, port: other_port };
            let c = SocketAddr::V6 { ip, port, flowinfo, scope_id };
            let d = SocketAddr::V6 {
                ip: other,
                port: other_port,
                flowinfo: other_flowinfo,
                scope_id: other_scope_id,
            };
            &&& addr_lt(a, d) && !addr_lt(d, a)
            &&& ip4 != other4 ==> (addr_lt(a, b) <==> ip4 < other4)
            &&& ip4 == other4 ==> (addr_lt(a, b) <==> port < other_port)
            &&& ip != other ==> (addr_lt(c, d) <==> ip < other)
            &&& ip == other && port != other_port ==> (addr_lt(c, d) <==> port < other_port)
            &&& ip == other && port == other_port && flowinfo != other_flowinfo ==> (addr_lt(c, d)
                <==> flowinfo < other_flowinfo)
            &&& ip == other && port == other_port && flowinfo == other_flowinfo ==> (addr_lt(c, d)
                <==> scope_id < other_scope_id)
        }),
{
}

// The members of a mesh.

/// The bytes that stand for the members of a mesh: none for no one; and a member that comes behind
/// all others adds its address in words, and its identity.
pub proof fn law_what_stands_for_the_members(
    members: Map<Peer, Seq<u8>>,
    peer: Peer,
    identity: Seq<u8>,
)
    requires
        members.dom().finite(),
        !members.contains_key(peer),
        forall|other: Peer| #[trigger] members.contains_key(other) ==> addr_lt(other, peer),
    ensures
        membership_bytes(Map::empty()).len() == 0,
        membership_bytes(members.insert(peer, identity)) == membership_bytes(members) + encode_utf8(
            addr_text(peer),
        ) + identity,
        fingerprint_of(members.insert(peer, identity)) == crc32(
            membership_bytes(members) + encode_utf8(addr_text(peer)) + identity,
        ),
{
    let none = Map::<Peer, Seq<u8>>::empty();
    lemma_sorted(none.dom());
    assert(sorted(none.dom()).len() == 0) by {
        let s = sorted(none.dom());
        if s.len() > 0 {
            assert(s.to_set().contains(s[0]));
        }
    }
    let more = members.insert(peer, identity);
    let listed = sorted(members.dom());
    lemma_sorted(members.dom());
    lemma_sorted(more.dom());
    let longer = listed.push(peer);
    assert(longer.to_set() =~= more.dom()) by {
        assert forall|p: Peer| longer.to_set().contains(p) <==> more.dom().contains(p) by {
            if longer.contains(p) {
                let i = longer.index_of(p);
                if i < listed.len() {
                    assert(listed[i] == p);
                    assert(listed.to_set().contains(p));
                }
            }
            if members.contains_key(p) {
                assert(listed.to_set().contains(p));
                let i = listed.index_of(p);
                assert(longer[i] == p);
            }
            if p == peer {
                assert(longer[listed.len() as int] == p);
            }
        }
    }
    assert(increasing(longer)) by {
        assert forall|i: int, j: int| 0 <= i < j < longer.len() implies addr_lt(
            #[trigger] longer[i],
            #[trigger] longer[j],
        ) by {
            assert(longer[i] == listed[i]);
            if j < listed.len() {
                assert(longer[j] == listed[j]);
            } else {
                assert(listed.to_set().contains(listed[i]));
                assert(members.contains_key(listed[i]));
            }
        }
    }
    lemma_increasing_is_unique(longer, sorted(more.dom()));
    assert(longer.drop_last() =~= listed);
    assert(!listed.contains(peer)) by {
        if listed.contains(peer) {
            assert(listed.to_set().contains(peer));
        }
    }
    lemma_others_bytes(members, listed, peer, identity);
}

// Interfaces.

/// An interface by which other hosts can be reached: one whose address is not from `127.0.0.0` to
/// `127.255.255.255`, and not `::1`.
pub open spec fn reaches_others(interface: Interface) -> bool {
    match interface.ip {
        IpAddr::V4(ip) => ip < 0x7f00_0000 || ip > 0x7fff_ffff,
        IpAddr::V6(ip) => ip != 1,
    }
}

/// An interface that a user means who asks for one by this text.
pub open spec fn is_meant_by(interface: Interface, text: Seq<char>) -> bool {
    if text == seq!['i', 'p', 'v', '4'] {
        interface.ip is V4
    } else if text == seq!['i', 'p', 'v', '6'] {
        interface.ip is V6
    } else {
        ||| interface.name@ == text
        ||| ip_text(interface.ip) == text
        ||| uncompressed_text(interface.ip) == text
        ||| full_text(interface.ip) == text
    }
}

proof fn lemma_reaches_others(interface: Interface)
    ensures
        leads_outside()(interface) == reaches_others(interface),
{
}

proof fn lemma_first_of_more(s: Seq<Interface>, x: Interface, pred: spec_fn(Interface) -> bool)
    ensures
        first_where(s.push(x), pred) == match first_where(s, pred) {
            Some(found) => Some(found),
            None => if pred(x) {
                Some(x)
            } else {
                None
            },
        },
    decreases s.len(),
{
    reveal_with_fuel(first_where, 2);
    if s.len() == 0 {
        assert(s.push(x).skip(1) =~= Seq::<Interface>::empty());
    } else {
        assert(s.push(x).skip(1) =~= s.skip(1).push(x));
        assert(s.push(x)[0] == s[0]);
        lemma_first_of_more(s.skip(1), x, pred);
    }
}

proof fn lemma_first_that_reaches_others(
    interfaces: Seq<Interface>,
    pred: spec_fn(Interface) -> bool,
    k: int,
)
    requires
        0 <= k <= interfaces.len(),
        forall|j: int|
            0 <= j < k ==> !(reaches_others(#[trigger] interfaces[j]) && pred(interfaces[j])),
        k < interfaces.len() ==> reaches_others(interfaces[k]) && pred(interfaces[k]),
    ensures
        first_where(interfaces.filter(leads_outside()), pred) == if k < interfaces.len() {
            Some(interfaces[k])
        } else {
            None
        },
    decreases interfaces.len(),
{
    reveal(Seq::filter);
    if interfaces.len() > 0 {
        let rest = interfaces.drop_last();
        let last = interfaces.last();
        lemma_reaches_others(last);
        if k < rest.len() {
            lemma_first_that_reaches_others(rest, pred, k);
        } else {
            lemma_first_that_reaches_others(rest, pred, rest.len() as int);
        }
        if leads_outside()(last) {
            lemma_first_of_more(rest.filter(leads_outside()), last, pred);
        }
    }
}

/// A user who asks for an interface gets the first that is meant and by which others can be reached,
/// and none only if there is none: `k` is its place, or the number of interfaces.
pub proof fn law_interface_that_is_asked_for(interfaces: Seq<Interface>, text: &str, k: int)
    requires
        0 <= k <= interfaces.len(),
        forall|j: int|
            0 <= j < k ==> !(reaches_others(#[trigger] interfaces[j]) && is_meant_by(
                interfaces[j],
                text@,
            )),
        k < interfaces.len() ==> reaches_others(interfaces[k]) && is_meant_by(interfaces[k], text@),
    ensures
        first_where(interfaces.filter(leads_outside()), wished(text).pred()) == if k
            < interfaces.len() {
            Some(interfaces[k])
        } else {
            None
        },
{
    reveal_strlit("ipv4");
    reveal_strlit("ipv6");
    assert("ipv4"@ =~= seq!['i', 'p', 'v', '4']);
    assert("ipv6"@ =~= seq!['i', 'p', 'v', '6']);
    assert(seq!['i', 'p', 'v', '4'][3] != seq!['i', 'p', 'v', '6'][3]);
    assert forall|j: int| 0 <= j < interfaces.len() implies wished(text).pred()(
        #[trigger] interfaces[j],
    ) == is_meant_by(interfaces[j], text@) by {}
    lemma_first_that_reaches_others(interfaces, wished(text).pred(), k);
}

/// If none is asked for, it is the first with an IPv6 address by which others can be reached: `k` is
/// its place. If there is none, it is the first with an IPv4 address: `l` is its place. A place that
/// is the number of interfaces means that there is none.
pub proof fn law_interface_by_default(interfaces: Seq<Interface>, k: int, l: int)
    requires
        0 <= k <= interfaces.len(),
        0 <= l <= interfaces.len(),
        forall|j: int|
            0 <= j < k ==> !(reaches_others(#[trigger] interfaces[j]) && interfaces[j].ip is V6),
        forall|j: int|
            0 <= j < l ==> !(reaches_others(#[trigger] interfaces[j]) && interfaces[j].ip is V4),
        k < interfaces.len() ==> reaches_others(interfaces[k]) && interfaces[k].ip is V6,
        l < interfaces.len() ==> reaches_others(interfaces[l]) && interfaces[l].ip is V4,
    ensures
        best_interface(interfaces) == if k < interfaces.len() {
            Some(interfaces[k])
        } else if l < interfaces.len() {
            Some(interfaces[l])
        } else {
            None
        },
{
    lemma_first_that_reaches_others(interfaces, Wish::Ipv6.pred(), k);
    lemma_first_that_reaches_others(interfaces, Wish::Ipv4.pred(), l);
}

/// The addresses at which a service is: those IPv4 addresses by which others can be reached, in the
/// order of the interfaces.
pub proof fn law_where_services_are(interfaces: Seq<Interface>, interface: Interface)
    ensures
        ipv4_addrs(Seq::empty()).len() == 0,
        interface.ip matches IpAddr::V4(ip) ==> ipv4_addrs(interfaces.push(interface)) == if ip
            < 0x7f00_0000 || ip > 0x7fff_ffff {
            ipv4_addrs(interfaces).push(ip)
        } else {
            ipv4_addrs(interfaces)
        },
        interface.ip is V6 ==> ipv4_addrs(interfaces.push(interface)) == ipv4_addrs(interfaces),
{
    assert(interfaces.push(interface).drop_last() =~= interfaces);
}

// Sockets.

/// Two members on one port hear each other: each listens at the port to which the other sends, on
/// every address of its own; for IPv6, in the group to which the other sends, on the interface that
/// it sends from. What they send to one another goes from a port that the system chooses.
pub proof fn law_members_on_one_port_hear_each_other(port: u16, index: u32, ip4: u32, ip: u128)
    ensures
        ({
            let sockets = ipv4_sockets(port);
            &&& sockets.inbound.bind == SocketAddr::V4 { ip: 0, port }
            &&& sockets.broadcast_addr == SocketAddr::V4 { ip: 0xffff_ffff, port }
            &&& sockets.inbound.broadcast && sockets.outbound is None
            &&& !sockets.inbound.only_v6
            &&& sockets.inbound.join_multicast is None && sockets.inbound.multicast_if is None
        }),
        ({
            let sockets = ipv6_sockets(port, index);
            let group = 0xff02_0000_0000_0000_0000_0000_1213_1989u128;
            &&& sockets.inbound.bind == SocketAddr::V6 { ip: 0, port, flowinfo: 0, scope_id: 0 }
            &&& sockets.inbound.join_multicast == Some((group, index))
            &&& sockets.inbound.only_v6
            &&& !sockets.inbound.broadcast && sockets.inbound.multicast_if is None
            &&& sockets.broadcast_addr == SocketAddr::V6 {
                ip: group,
                port,
                flowinfo: 0,
                scope_id: 0,
            }
            &&& sockets.outbound matches Some(outbound) && {
                &&& outbound.multicast_if == Some(index)
                &&& outbound.join_multicast is None
                &&& !outbound.broadcast && !outbound.only_v6
                &&& outbound.bind == SocketAddr::V6 { ip: 0, port: 0, flowinfo: 0, scope_id: 0 }
            }
        }),
        any_port(IpAddr::V4(ip4)) == (SocketAddr::V4 { ip: ip4, port: 0 }),
        any_port(IpAddr::V6(ip)) == (SocketAddr::V6 { ip, port: 0, flowinfo: 0, scope_id: 0 }),
{
}

// The search for a member.

proof fn lemma_longer_wait(interval: Duration)
    requires
        interval % 1_000_000 == 0,
        1_000_000_000 <= interval <= 10_000_000_000,
    ensures
        next_interval(interval) % 1_000_000 == 0,
        1_000_000_000 <= next_interval(interval) <= 10_000_000_000,
        4 * next_interval(interval) <= 5 * interval,
        next_interval(interval) < 10_000_000_000 ==> 4 * next_interval(interval) > 5 * interval - 4
            * 1_000_000,
{
    let ms = interval as int / 1_000_000;
    let longer_ms = ms * 5 / 4;
    assert(interval == ms * 1_000_000);
    assert(4 * longer_ms <= 5 * ms < 4 * longer_ms + 4);
    let longer = longer_ms * 1_000_000;
    assert(longer % 1_000_000 == 0);
    assert(next_interval(interval) == if longer < 10_000_000_000 {
        longer
    } else {
        10_000_000_000
    });
}

/// The wait for an answer is a second at first. Each further one is a quarter longer than the one
/// before, rounded down to milliseconds, but not longer than ten seconds.
pub proof fn law_waits_get_longer(repeats: nat)
    ensures
        interval_after(0) == 1_000_000_000,
        interval_after(repeats) % 1_000_000 == 0,
        1_000_000_000 <= interval_after(repeats) <= 10_000_000_000,
        4 * interval_after(repeats + 1) <= 5 * interval_after(repeats),
        interval_after(repeats + 1) < 10_000_000_000 ==> 4 * interval_after(repeats + 1) > 5
            * interval_after(repeats) - 4 * 1_000_000,
    decreases repeats,
{
    if repeats > 0 {
        law_waits_get_longer((repeats - 1) as nat);
        lemma_longer_wait(interval_after((repeats - 1) as nat));
    }
    lemma_longer_wait(interval_after(repeats));
}

/// A search begins at once; after a probe, it waits until its time is over, and no longer. A probe
/// leaves the address as it is, and the first one also the time to wait.
pub proof fn law_when_to_probe(search: Search, addr: SocketAddr, now: Instant, at: Instant)
    requires
        search.wf(),
    ensures
        new_search(addr).addr == addr,
        new_search(addr).time_left(now) == 0,
        search.probed(at).addr == search.addr,
        search.last_broadcast is None ==> search.probed(at).interval == search.interval,
        search.last_broadcast is Some ==> search.interval <= search.probed(at).interval,
        search.last_broadcast is Some && search.interval < 10_000_000_000 ==> search.interval
            < search.probed(at).interval,
        now >= at + search.probed(at).interval <==> search.probed(at).time_left(now) == 0,
        at <= now < at + search.probed(at).interval ==> now + search.probed(at).time_left(now) == at
            + search.probed(at).interval,
{
    if search.interval < 10_000_000_000 {
        let ms = search.interval as int / 1_000_000;
        assert(ms * 1_000_000 <= search.interval < (ms + 1) * 1_000_000);
        assert(ms * 5 / 4 >= ms + 1);
        assert(next_interval(search.interval) > search.interval);
    }
}

} // verus!
