//! Network interfaces, and the sockets for messages to the entire mesh.
use crate::addr::{IpAddr, SocketAddr};
use crate::errors::KaboodleError;
use crate::text::{full_text, ip_text, uncompressed_text};
use vstd::prelude::*;

verus! {

/// A network interface of this host.
#[derive(Debug)]
pub struct Interface {
    /// The name, such as `en0`.
    pub name: String,
    pub ip: IpAddr,
    /// The number of the interface, if the system tells it.
    pub index: Option<u32>,
}

impl Clone for Interface {
    fn clone(&self) -> (r: Self)
        ensures
            r == *self,
    {
        Interface { name: self.name.clone(), ip: self.ip, index: self.index }
    }
}

/// An address by which a host reaches only itself: any that begins with 127, or `::1`.
pub open spec fn is_loopback_ip(ip: IpAddr) -> bool {
    match ip {
        IpAddr::V4(ip) => ip / 0x100_0000 == 127,
        IpAddr::V6(ip) => ip == 1,
    }
}

/// The interfaces that are not loopback interfaces.
pub open spec fn leads_outside() -> spec_fn(Interface) -> bool {
    |interface: Interface| !is_loopback_ip(interface.ip)
}

/// The first of the interfaces that meets the condition.
pub open spec fn first_where(
    interfaces: Seq<Interface>,
    pred: spec_fn(Interface) -> bool,
) -> Option<Interface>
    decreases interfaces.len(),
{
    if interfaces.len() == 0 {
        None
    } else if pred(interfaces[0]) {
        Some(interfaces[0])
    } else {
        first_where(interfaces.skip(1), pred)
    }
}

/// `text` is a way to write the address: the shortest, that without compression, or that in full.
pub open spec fn names_ip(ip: IpAddr, text: Seq<char>) -> bool {
    text == ip_text(ip) || text == uncompressed_text(ip) || text == full_text(ip)
}

/// What is asked of an interface.
#[derive(Debug)]
pub enum Wish<'a> {
    /// That it has an IPv4 address.
    Ipv4,
    /// That it has an IPv6 address.
    Ipv6,
    /// That it has this address or this name.
    IpOrName(&'a str),
}

impl<'a> Wish<'a> {
    /// The interfaces that are wished for.
    pub open spec fn pred(self) -> spec_fn(Interface) -> bool {
        match self {
            Wish::Ipv4 => |interface: Interface| interface.ip is V4,
            Wish::Ipv6 => |interface: Interface| interface.ip is V6,
            Wish::IpOrName(text) => |interface: Interface|
                names_ip(interface.ip, text@) || interface.name@ == text@,
        }
    }
}

impl Interface {
    /// Whether this is a loopback interface.
    pub fn is_loopback(&self) -> (r: bool)
        ensures
            r == is_loopback_ip(self.ip),
    {
        match self.ip {
            IpAddr::V4(ip) => ip / 0x100_0000 == 127,
            IpAddr::V6(ip) => ip == 1,
        }
    }

    /// Whether this is an interface that is wished for.
    pub fn meets(&self, wish: &Wish<'_>) -> (r: bool)
        ensures
            r == wish.pred()(*self),
    {
        match wish {
            Wish::Ipv4 => match self.ip {
                IpAddr::V4(_) => true,
                IpAddr::V6(_) => false,
            },
            Wish::Ipv6 => match self.ip {
                IpAddr::V4(_) => false,
                IpAddr::V6(_) => true,
            },
            Wish::IpOrName(text) => {
                let wanted: String = (*text).to_owned();
                self.ip.to_string() == wanted || self.ip.to_uncompressed_string() == wanted
                    || self.ip.to_full_string() == wanted || self.name == wanted
            },
        }
    }
}

/// Those of the interfaces of this host that are not loopback interfaces.
pub fn non_loopback_interfaces(interfaces: &Vec<Interface>) -> (r: Vec<Interface>)
    ensures
        r@ == interfaces@.filter(leads_outside()),
{
    let mut r: Vec<Interface> = Vec::new();
    let mut i: usize = 0;
    proof {
        reveal(Seq::filter);
        assert(interfaces@.take(0).filter(leads_outside()) =~= Seq::<Interface>::empty());
    }
    while i < interfaces.len()
        invariant
            i <= interfaces@.len(),
            r@ == interfaces@.take(i as int).filter(leads_outside()),
        decreases interfaces@.len() - i,
    {
        proof {
            reveal(Seq::filter);
            assert(interfaces@.take(i + 1).drop_last() =~= interfaces@.take(i as int));
        }
        if !interfaces[i].is_loopback() {
            r.push(interfaces[i].clone());
        }
        i += 1;
    }
    assert(interfaces@.take(i as int) =~= interfaces@);
    r
}

/// The first of the interfaces that is wished for.
pub fn find_interface(interfaces: &Vec<Interface>, wish: &Wish<'_>) -> (r: Option<Interface>)
    ensures
        r == first_where(interfaces@, wish.pred()),
{
    let mut i: usize = 0;
    assert(interfaces@.skip(0) =~= interfaces@);
    while i < interfaces.len()
        invariant
            i <= interfaces@.len(),
            first_where(interfaces@, wish.pred()) == first_where(
                interfaces@.skip(i as int),
                wish.pred(),
            ),
        decreases interfaces@.len() - i,
    {
        assert(interfaces@.skip(i as int).skip(1) =~= interfaces@.skip(i + 1));
        if interfaces[i].meets(wish) {
            return Some(interfaces[i].clone());
        }
        i += 1;
    }
    None
}

/// The interface to use if none is asked for: the first with an IPv6 address that is not a loopback
/// interface, or else the first with an IPv4 address.
pub open spec fn best_interface(interfaces: Seq<Interface>) -> Option<Interface> {
    let outside = interfaces.filter(leads_outside());
    match first_where(outside, Wish::Ipv6.pred()) {
        Some(interface) => Some(interface),
        None => first_where(outside, Wish::Ipv4.pred()),
    }
}

/// The interface to use, of all the interfaces of this host, if none is asked for.
pub fn best_available_interface(interfaces: &Vec<Interface>) -> (r: Result<
    Interface,
    KaboodleError,
>)
    ensures
        match r {
            Ok(interface) => best_interface(interfaces@) == Some(interface),
            Err(err) => best_interface(interfaces@) is None && err is NoAvailableInterfaces,
        },
{
    let outside = non_loopback_interfaces(interfaces);
    if let Some(interface) = find_interface(&outside, &Wish::Ipv6) {
        return Ok(interface);
    }
    match find_interface(&outside, &Wish::Ipv4) {
        Some(interface) => Ok(interface),
        None => Err(KaboodleError::NoAvailableInterfaces),
    }
}

/// The interface to use: the preferred one, if there is one.
pub fn choose_interface(preferred_interface: Option<Interface>, interfaces: &Vec<Interface>) -> (r:
    Result<Interface, KaboodleError>)
    ensures
        match (preferred_interface, r) {
            (Some(preferred), _) => r == Ok::<Interface, KaboodleError>(preferred),
            (None, Ok(interface)) => best_interface(interfaces@) == Some(interface),
            (None, Err(err)) => best_interface(interfaces@) is None && err is NoAvailableInterfaces,
        },
{
    match preferred_interface {
        Some(interface) => Ok(interface),
        None => best_available_interface(interfaces),
    }
}

/// What a user asks for: `ipv4`, `ipv6`, or the address or name of an interface.
pub open spec fn wished(text: &str) -> Wish<'_> {
    if text@ == "ipv4"@ {
        Wish::Ipv4
    } else if text@ == "ipv6"@ {
        Wish::Ipv6
    } else {
        Wish::IpOrName(text)
    }
}

/// The first of the interfaces of this host, but for loopback interfaces, that a user asks for. An
/// IPv6 address can be given in full, with or without leading zeros, or in its shortest form.
pub fn get_interface(interfaces: &Vec<Interface>, specified_interface: &str) -> (r: Option<Interface>)
    ensures
        r == first_where(
            interfaces@.filter(leads_outside()),
            wished(specified_interface).pred(),
        ),
{
    let outside = non_loopback_interfaces(interfaces);
    let text: String = specified_interface.to_owned();
    if text == "ipv4".to_owned() {
        find_interface(&outside, &Wish::Ipv4)
    } else if text == "ipv6".to_owned() {
        find_interface(&outside, &Wish::Ipv6)
    } else {
        find_interface(&outside, &Wish::IpOrName(specified_interface))
    }
}

/// The IPv4 addresses of the interfaces, but for loopback interfaces.
pub open spec fn ipv4_addrs(interfaces: Seq<Interface>) -> Seq<u32>
    decreases interfaces.len(),
{
    if interfaces.len() == 0 {
        Seq::empty()
    } else {
        let before = ipv4_addrs(interfaces.drop_last());
        match interfaces.last().ip {
            IpAddr::V4(ip) => if is_loopback_ip(IpAddr::V4(ip)) {
                before
            } else {
                before.push(ip)
            },
            IpAddr::V6(_) => before,
        }
    }
}

/// The IPv4 addresses of this host, but for those of loopback interfaces.
pub fn my_ipv4_addrs(interfaces: &Vec<Interface>) -> (r: Vec<u32>)
    ensures
        r@ == ipv4_addrs(interfaces@),
{
    let mut r: Vec<u32> = Vec::new();
    let mut i: usize = 0;
    assert(interfaces@.take(0) =~= Seq::<Interface>::empty());
    while i < interfaces.len()
        invariant
            i <= interfaces@.len(),
            r@ == ipv4_addrs(interfaces@.take(i as int)),
        decreases interfaces@.len() - i,
    {
        assert(interfaces@.take(i + 1).drop_last() =~= interfaces@.take(i as int));
        if !interfaces[i].is_loopback() {
            if let IpAddr::V4(ip) = interfaces[i].ip {
                r.push(ip);
            }
        }
        i += 1;
    }
    assert(interfaces@.take(i as int) =~= interfaces@);
    r
}

/// The IPv6 multicast address of the mesh, `ff02::1213:1989`. Its prefix keeps the messages from
/// passing beyond the local router.
pub const MULTICAST_IP: u128 = 0xff02_0000_0000_0000_0000_0000_1213_1989;

/// How a socket is to be set up before it is bound. All sockets are
/// non-blocking and share their address and port.
#[derive(Clone, Copy, Debug)]
pub struct SocketSetup {
    /// Whether it may send to the broadcast address.
    pub broadcast: bool,
    /// The multicast group to join, and the number of the interface to join it on.
    pub join_multicast: Option<(u128, u32)>,
    /// The number of the interface for outgoing multicast messages.
    pub multicast_if: Option<u32>,
    /// Whether it is closed to IPv4.
    pub only_v6: bool,
    /// The address to bind it to.
    pub bind: SocketAddr,
}

/// The sockets for messages to the entire mesh.
#[derive(Clone, Copy, Debug)]
pub struct BroadcastSockets {
    /// The socket for incoming messages.
    pub inbound: SocketSetup,
    /// The socket for outgoing messages; the one for incoming messages, if there is no other.
    pub outbound: Option<SocketSetup>,
    /// The address to which messages to the entire mesh are sent.
    pub broadcast_addr: SocketAddr,
}

/// The sockets for an interface with an IPv4 address: one for both directions, which is bound to
/// every address and sends to the broadcast address.
pub open spec fn ipv4_sockets(port: u16) -> BroadcastSockets {
    BroadcastSockets {
        inbound: SocketSetup {
            broadcast: true,
            join_multicast: None,
            multicast_if: None,
            only_v6: false,
            bind: SocketAddr::V4 { ip: 0, port },
        },
        outbound: None,
        broadcast_addr: SocketAddr::V4 { ip: 0xffff_ffff, port },
    }
}

/// The sockets for an interface with an IPv6 address: one that joins the multicast group, and one
/// that sends to the group from the interface.
pub open spec fn ipv6_sockets(port: u16, index: u32) -> BroadcastSockets {
    BroadcastSockets {
        inbound: SocketSetup {
            broadcast: false,
            join_multicast: Some((MULTICAST_IP, index)),
            multicast_if: None,
            only_v6: true,
            bind: SocketAddr::V6 { ip: 0, port, flowinfo: 0, scope_id: 0 },
        },
        outbound: Some(
            SocketSetup {
                broadcast: false,
                join_multicast: None,
                multicast_if: Some(index),
                only_v6: false,
                bind: SocketAddr::V6 { ip: 0, port: 0, flowinfo: 0, scope_id: 0 },
            },
        ),
        broadcast_addr: SocketAddr::V6 { ip: MULTICAST_IP, port, flowinfo: 0, scope_id: 0 },
    }
}

/// The address to which a socket for one-to-one messages is to be bound: the given one, with a port
/// of the system's choice.
pub open spec fn any_port(ip: IpAddr) -> SocketAddr {
    match ip {
        IpAddr::V4(ip) => SocketAddr::V4 { ip, port: 0 },
        IpAddr::V6(ip) => SocketAddr::V6 { ip, port: 0, flowinfo: 0, scope_id: 0 },
    }
}

impl Interface {
    /// The address to which a socket for one-to-one messages is to be bound on this interface. The
    /// system chooses the port; which one, and what else it fills in, is not known before.
    pub fn bind_addr(&self) -> (r: SocketAddr)
        ensures
            r == any_port(self.ip),
    {
        match self.ip {
            IpAddr::V4(ip) => SocketAddr::V4 { ip, port: 0 },
            IpAddr::V6(ip) => SocketAddr::V6 { ip, port: 0, flowinfo: 0, scope_id: 0 },
        }
    }
}

/// The sockets for receiving and sending messages to the entire mesh on the given port with the
/// given interface. For IPv6 the number of the interface has to be known.
pub fn create_broadcast_sockets(interface: &Interface, broadcast_port: &u16) -> (r: Result<
    BroadcastSockets,
    KaboodleError,
>)
    ensures
        match (interface.ip, interface.index, r) {
            (IpAddr::V4(_), _, Ok(sockets)) => sockets == ipv4_sockets(*broadcast_port),
            (IpAddr::V4(_), _, Err(_)) => false,
            (IpAddr::V6(_), Some(index), Ok(sockets)) => sockets == ipv6_sockets(
                *broadcast_port,
                index,
            ),
            (IpAddr::V6(_), Some(_), Err(_)) => false,
            (IpAddr::V6(_), None, Ok(_)) => false,
            (IpAddr::V6(_), None, Err(err)) => err is UnableToFindInterfaceNumber,
        },
{
    let port: u16 = *broadcast_port;
    match interface.ip {
        IpAddr::V4(_) => Ok(
            BroadcastSockets {
                inbound: SocketSetup {
                    broadcast: true,
                    join_multicast: None,
                    multicast_if: None,
                    only_v6: false,
                    bind: SocketAddr::V4 { ip: 0, port },
                },
                outbound: None,
                broadcast_addr: SocketAddr::V4 { ip: 0xffff_ffff, port },
            },
        ),
        IpAddr::V6(_) => match interface.index {
            None => Err(KaboodleError::UnableToFindInterfaceNumber),
            Some(index) => Ok(
                BroadcastSockets {
                    inbound: SocketSetup {
                        broadcast: false,
                        join_multicast: Some((MULTICAST_IP, index)),
                        multicast_if: None,
                        only_v6: true,
                        bind: SocketAddr::V6 { ip: 0, port, flowinfo: 0, scope_id: 0 },
                    },
                    outbound: Some(
                        SocketSetup {
                            broadcast: false,
                            join_multicast: None,
                            multicast_if: Some(index),
                            only_v6: false,
                            bind: SocketAddr::V6 { ip: 0, port: 0, flowinfo: 0, scope_id: 0 },
                        },
                    ),
                    broadcast_addr: SocketAddr::V6 {
                        ip: MULTICAST_IP,
                        port,
                        flowinfo: 0,
                        scope_id: 0,
                    },
                },
            ),
        },
    }
}

} // verus!
