//! Network addresses, as plain values.
use vstd::prelude::*;

verus! {

/// An IP address: the bits of the address as one big-endian number.
#[derive(Clone, Copy, Debug, Eq, Hash)]
pub enum IpAddr {
    V4(u32),
    V6(u128),
}

/// The address of a UDP endpoint.
#[derive(Clone, Copy, Debug, Eq, Hash)]
#[allow(inconsistent_fields)]
pub enum SocketAddr {
    V4 { ip: u32, port: u16 },
    V6 { ip: u128, port: u16, flowinfo: u32, scope_id: u32 },
}

/// A peer is identified by the address that it uses for one-to-one messages.
pub type Peer = SocketAddr;

impl vstd::std_specs::cmp::PartialEqSpecImpl for SocketAddr {
    open spec fn obeys_eq_spec() -> bool {
        true
    }

    open spec fn eq_spec(&self, other: &Self) -> bool {
        *self == *other
    }
}

impl PartialEq for SocketAddr {
    fn eq(&self, other: &Self) -> (r: bool) {
        let r = match *self {
            SocketAddr::V4 { ip, port } => match *other {
                SocketAddr::V4 { ip: ip2, port: port2 } => ip == ip2 && port == port2,
                SocketAddr::V6 { .. } => false,
            },
            SocketAddr::V6 { ip, port, flowinfo, scope_id } => match *other {
                SocketAddr::V4 { .. } => false,
                SocketAddr::V6 { ip: ip2, port: port2, flowinfo: flowinfo2, scope_id: scope_id2 } =>
                    ip == ip2 && port == port2 && flowinfo == flowinfo2 && scope_id == scope_id2,
            },
        };
        r
    }
}

impl vstd::std_specs::cmp::PartialEqSpecImpl for IpAddr {
    open spec fn obeys_eq_spec() -> bool {
        true
    }

    open spec fn eq_spec(&self, other: &Self) -> bool {
        *self == *other
    }
}

impl PartialEq for IpAddr {
    fn eq(&self, other: &Self) -> (r: bool) {
        let r = match (*self, *other) {
            (IpAddr::V4(a), IpAddr::V4(b)) => a == b,
            (IpAddr::V6(a), IpAddr::V6(b)) => a == b,
            _ => false,
        };
        r
    }
}

/// `a` comes before `b`: IPv4 addresses come first, then the IP address decides, then the port, then
/// the rest.
pub open spec fn addr_lt(a: SocketAddr, b: SocketAddr) -> bool {
    match (a, b) {
        (SocketAddr::V4 { ip, port }, SocketAddr::V4 { ip: ip2, port: port2 }) => ip < ip2 || (ip
            == ip2 && port < port2),
        (SocketAddr::V4 { .. }, SocketAddr::V6 { .. }) => true,
        (SocketAddr::V6 { .. }, SocketAddr::V4 { .. }) => false,
        (
            SocketAddr::V6 { ip, port, flowinfo, scope_id },
            SocketAddr::V6 { ip: ip2, port: port2, flowinfo: flowinfo2, scope_id: scope_id2 },
        ) => ip < ip2 || (ip == ip2 && (port < port2 || (port == port2 && (flowinfo < flowinfo2 || (
        flowinfo == flowinfo2 && scope_id < scope_id2))))),
    }
}

/// Each address comes before those that follow it.
pub open spec fn increasing(addrs: Seq<SocketAddr>) -> bool {
    forall|i: int, j: int| 0 <= i < j < addrs.len() ==> addr_lt(#[trigger] addrs[i], #[trigger] addrs[j])
}

/// The addresses of a set in order.
pub open spec fn sorted(addrs: Set<SocketAddr>) -> Seq<SocketAddr> {
    choose|s: Seq<SocketAddr>| increasing(s) && #[trigger] s.to_set() == addrs
}

impl SocketAddr {
    /// Whether this address comes before `other`.
    pub fn precedes(&self, other: &Self) -> (r: bool)
        ensures
            r == addr_lt(*self, *other),
    {
        match (*self, *other) {
            (SocketAddr::V4 { ip, port }, SocketAddr::V4 { ip: ip2, port: port2 }) => ip < ip2 || (ip
                == ip2 && port < port2),
            (SocketAddr::V4 { .. }, SocketAddr::V6 { .. }) => true,
            (SocketAddr::V6 { .. }, SocketAddr::V4 { .. }) => false,
            (
                SocketAddr::V6 { ip, port, flowinfo, scope_id },
                SocketAddr::V6 { ip: ip2, port: port2, flowinfo: flowinfo2, scope_id: scope_id2 },
            ) => ip < ip2 || (ip == ip2 && (port < port2 || (port == port2 && (flowinfo < flowinfo2
                || (flowinfo == flowinfo2 && scope_id < scope_id2))))),
        }
    }
}

/// There is one way to put the addresses of a set in order.
pub proof fn lemma_increasing_is_unique(a: Seq<SocketAddr>, b: Seq<SocketAddr>)
    requires
        increasing(a),
        increasing(b),
        a.to_set() == b.to_set(),
    ensures
        a == b,
    decreases a.len(),
{
    if a.len() == 0 {
        if b.len() > 0 {
            assert(b.to_set().contains(b[0]));
            assert(a.contains(b[0]));
        }
        assert(a =~= b);
    } else {
        assert(a.to_set().contains(a.last()));
        assert(b.contains(a.last()));
        assert(b.to_set().contains(b.last()));
        assert(a.contains(b.last()));
        let i = b.index_of(a.last());
        let j = a.index_of(b.last());
        if a.last() != b.last() {
            assert(addr_lt(b[i], b[b.len() - 1]));
            assert(addr_lt(a[j], a[a.len() - 1]));
        }
        let a2 = a.drop_last();
        let b2 = b.drop_last();
        assert forall|x: SocketAddr| #[trigger] a2.contains(x) <==> b2.contains(x) by {
            if a2.contains(x) {
                let k = a2.index_of(x);
                assert(a[k] == x);
                assert(a.to_set().contains(x));
                assert(b.contains(x));
                let m = b.index_of(x);
                assert(addr_lt(a[k], a[a.len() - 1]));
                assert(b2[m] == x);
            }
            if b2.contains(x) {
                let k = b2.index_of(x);
                assert(b[k] == x);
                assert(b.to_set().contains(x));
                assert(a.contains(x));
                let m = a.index_of(x);
                assert(addr_lt(b[k], b[b.len() - 1]));
                assert(a2[m] == x);
            }
        }
        assert(a2.to_set() =~= b2.to_set());
        lemma_increasing_is_unique(a2, b2);
        assert(a =~= a2.push(a.last()));
        assert(b =~= b2.push(b.last()));
    }
}

/// The given addresses in order.
pub fn sort_addrs(addrs: &Vec<SocketAddr>) -> (r: Vec<SocketAddr>)
    requires
        addrs@.no_duplicates(),
    ensures
        r@ == sorted(addrs@.to_set()),
        increasing(r@),
        r@.to_set() == addrs@.to_set(),
        r@.len() == addrs@.len(),
{
    let mut r: Vec<SocketAddr> = Vec::new();
    let mut i: usize = 0;
    assert(r@.to_set() =~= addrs@.take(0).to_set());
    while i < addrs.len()
        invariant
            i <= addrs@.len(),
            addrs@.no_duplicates(),
            increasing(r@),
            r@.len() == i,
            r@.to_set() == addrs@.take(i as int).to_set(),
        decreases addrs@.len() - i,
    {
        let addr = addrs[i];
        let ghost before = r@;
        assert(!r@.contains(addr)) by {
            if r@.contains(addr) {
                assert(r@.to_set().contains(addr));
                assert(addrs@.take(i as int).contains(addr));
            }
        }
        let mut at: usize = 0;
        while at < r.len() && r[at].precedes(&addr)
            invariant
                at <= r@.len(),
                forall|j: int| 0 <= j < at ==> addr_lt(#[trigger] r@[j], addr),
            ensures
                at <= r@.len(),
                forall|j: int| 0 <= j < at ==> addr_lt(#[trigger] r@[j], addr),
                at < r@.len() ==> !addr_lt(r@[at as int], addr),
            decreases r@.len() - at,
        {
            at += 1;
        }
        assert forall|j: int| at <= j < r@.len() implies addr_lt(addr, #[trigger] r@[j]) by {
            assert(r@.contains(r@[j]));
            if at < j {
                assert(addr_lt(r@[at as int], r@[j]));
            }
            assert(r@.contains(r@[at as int]));
        }
        r.insert(at, addr);
        proof {
            assert(increasing(r@));
            assert forall|x: SocketAddr| #[trigger] r@.to_set().contains(x) <==> addrs@.take(
                i + 1,
            ).to_set().contains(x) by {
                before.insert_ensures(at as int, addr);
                let now = addrs@.take(i + 1);
                if r@.contains(x) {
                    let k = r@.index_of(x);
                    if k == at {
                        assert(now[i as int] == x);
                    } else {
                        let k2 = if k < at { k } else { k - 1 };
                        assert(before[k2] == x);
                        assert(before.to_set().contains(x));
                        let m = addrs@.take(i as int).index_of(x);
                        assert(now[m] == x);
                    }
                }
                if now.contains(x) {
                    let m = now.index_of(x);
                    if m == i {
                        assert(r@[at as int] == x);
                    } else {
                        assert(addrs@.take(i as int)[m] == x);
                        assert(addrs@.take(i as int).to_set().contains(x));
                        assert(before.contains(x));
                        let k2 = before.index_of(x);
                        let k = if k2 < at { k2 } else { k2 + 1 };
                        assert(r@[k] == x);
                    }
                }
            }
            assert(r@.to_set() =~= addrs@.take(i + 1).to_set());
        }
        i += 1;
    }
    assert(addrs@.take(i as int) =~= addrs@);
    proof {
        let s = sorted(addrs@.to_set());
        assert(increasing(s) && s.to_set() == addrs@.to_set());
        lemma_increasing_is_unique(r@, s);
    }
    r
}

/// One of the addresses of a set comes after all others.
proof fn lemma_last(addrs: Set<SocketAddr>) -> (last: SocketAddr)
    requires
        addrs.finite(),
        addrs.len() > 0,
    ensures
        addrs.contains(last),
        forall|a: SocketAddr| #[trigger] addrs.contains(a) && a != last ==> addr_lt(a, last),
    decreases addrs.len(),
{
    let one = addrs.choose();
    let rest = addrs.remove(one);
    if rest.len() == 0 {
        assert forall|a: SocketAddr| #[trigger] addrs.contains(a) && a != one implies addr_lt(
            a,
            one,
        ) by {
            assert(rest.contains(a));
        }
        one
    } else {
        let last = lemma_last(rest);
        if addr_lt(one, last) {
            assert forall|a: SocketAddr| #[trigger] addrs.contains(a) && a != last implies addr_lt(
                a,
                last,
            ) by {
                if a != one {
                    assert(rest.contains(a));
                }
            }
            last
        } else {
            assert forall|a: SocketAddr| #[trigger] addrs.contains(a) && a != one implies addr_lt(
                a,
                one,
            ) by {
                assert(rest.contains(a));
            }
            one
        }
    }
}

proof fn lemma_can_be_sorted(addrs: Set<SocketAddr>) -> (s: Seq<SocketAddr>)
    requires
        addrs.finite(),
    ensures
        increasing(s),
        s.to_set() == addrs,
    decreases addrs.len(),
{
    if addrs.len() == 0 {
        let s = Seq::<SocketAddr>::empty();
        assert(s.to_set() =~= addrs);
        s
    } else {
        let last = lemma_last(addrs);
        let rest = lemma_can_be_sorted(addrs.remove(last));
        let s = rest.push(last);
        rest.lemma_push_to_set_commute(last);
        assert(s.to_set() =~= addrs);
        assert forall|i: int, j: int| 0 <= i < j < s.len() implies addr_lt(
            #[trigger] s[i],
            #[trigger] s[j],
        ) by {
            if j == rest.len() {
                assert(rest.to_set().contains(rest[i])) by {
                    assert(rest.contains(rest[i]));
                }
            } else {
                assert(addr_lt(rest[i], rest[j]));
            }
        }
        s
    }
}

/// The addresses of a finite set can be put in order, and none of them occurs twice then.
pub proof fn lemma_sorted(addrs: Set<SocketAddr>)
    requires
        addrs.finite(),
    ensures
        increasing(sorted(addrs)),
        sorted(addrs).to_set() == addrs,
        sorted(addrs).no_duplicates(),
{
    let s = lemma_can_be_sorted(addrs);
    assert(increasing(s) && s.to_set() == addrs);
    let s = sorted(addrs);
    assert forall|i: int, j: int| 0 <= i < s.len() && 0 <= j < s.len() && i != j implies s[i]
        != s[j] by {
        if i < j {
            assert(addr_lt(s[i], s[j]));
        } else {
            assert(addr_lt(s[j], s[i]));
        }
    }
}

} // verus!
