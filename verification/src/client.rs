//! A client of a mesh: an instance that can be started and stopped.
use crate::addr::{Peer, SocketAddr};
use crate::errors::KaboodleError;
use crate::fingerprint::{generate_fingerprint, membership};
use crate::identity::bytes_of;
use crate::kaboodle::{fingerprint, peer_identities, KaboodleInner, Node};
use crate::map::VecMap;
use crate::networking::{best_interface, choose_interface, Interface};
use crate::structs::{identities, Fingerprint, KnownPeers, PeerInfo, PeerInfoView, PeerState};
use crate::table::{forget_peer, peer_views, table};
use crate::time::Instant;
use bytes::Bytes;
use rand_chacha::ChaChaRng;
use vstd::prelude::*;

verus! {

/// The mathematical content of a [`Kaboodle`].
pub ghost struct Client {
    pub broadcast_port: u16,
    /// The address that the client uses for one-to-one messages, while it is running.
    pub self_addr: Option<SocketAddr>,
    pub interface: Interface,
    pub identity: Seq<u8>,
}

/// A client of a mesh. What it knows of the mesh is kept beside it, in [`KnownPeers`].
#[derive(Debug)]
pub struct Kaboodle {
    broadcast_port: u16,
    self_addr: Option<SocketAddr>,
    interface: Interface,
    identity: Bytes,
}

impl View for Kaboodle {
    type V = Client;

    closed spec fn view(&self) -> Client {
        Client {
            broadcast_port: self.broadcast_port,
            self_addr: self.self_addr,
            interface: self.interface,
            identity: bytes_of(self.identity),
        }
    }
}

/// The entry of a client that comes up at the given time in its own table.
pub open spec fn own_entry(client: Client, now: Instant) -> PeerInfoView {
    PeerInfoView { identity: client.identity, state: PeerState::Known(now), latency: None }
}

/// An instance that has just come up.
pub open spec fn fresh_node(client: Client, self_addr: SocketAddr) -> Node {
    Node {
        self_addr,
        identity: client.identity,
        curious_peers: Map::empty(),
        last_broadcast_time: None,
        draws: Seq::empty(),
    }
}

impl Kaboodle {
    /// Makes a client, which is not running yet, for the mesh of the given port. It uses the
    /// preferred interface, if there is one, and else the best of the interfaces of this host.
    pub fn new(
        broadcast_port: u16,
        preferred_interface: Option<Interface>,
        identity: Bytes,
        interfaces: &Vec<Interface>,
    ) -> (r: Result<Kaboodle, KaboodleError>)
        ensures
            match (preferred_interface, r) {
                (Some(preferred), Ok(client)) => client@ == (Client {
                    broadcast_port,
                    self_addr: None,
                    interface: preferred,
                    identity: bytes_of(identity),
                }),
                (Some(_), Err(_)) => false,
                (None, Ok(client)) => best_interface(interfaces@) matches Some(best) && client@ == (
                Client {
                    broadcast_port,
                    self_addr: None,
                    interface: best,
                    identity: bytes_of(identity),
                }),
                (None, Err(err)) => best_interface(interfaces@) is None
                    && err is NoAvailableInterfaces,
            },
    {
        match choose_interface(preferred_interface, interfaces) {
            Ok(interface) => Ok(
                Kaboodle { broadcast_port, self_addr: None, interface, identity },
            ),
            Err(err) => Err(err),
        }
    }

    /// Starts the client at the given address, unless it is running. The address is that of a socket
    /// that was bound to [`Interface::bind_addr`]. `sockets` says whether the
    /// sockets for messages to the entire mesh could be made; if they could not, the client does not
    /// run, though its address is in the table.
    pub fn start(
        &mut self,
        known_peers: &mut KnownPeers,
        self_addr: SocketAddr,
        sockets: Result<(), KaboodleError>,
        rng: ChaChaRng,
        now: Instant,
    ) -> (r: Result<Option<KaboodleInner>, KaboodleError>)
        requires
            old(known_peers).wf(),
        ensures
            final(known_peers).wf(),
            if old(self)@.self_addr is Some {
                &&& *final(self) == *old(self)
                &&& *final(known_peers) == *old(known_peers)
                &&& r matches Ok(None)
            } else {
                &&& table(*final(known_peers)) == table(*old(known_peers)).put(
                    self_addr,
                    own_entry(old(self)@, now),
                )
                &&& match sockets {
                    Ok(_) => {
                        &&& final(self)@ == (Client {
                            self_addr: Some(self_addr),
                            ..old(self)@
                        })
                        &&& r matches Ok(Some(instance)) && instance.wf() && instance@
                            == fresh_node(old(self)@, self_addr)
                    },
                    Err(err) => {
                        &&& *final(self) == *old(self)
                        &&& r == Err::<Option<KaboodleInner>, KaboodleError>(err)
                    },
                }
            },
    {
        if self.self_addr.is_some() {
            return Ok(None);
        }
        let instance = KaboodleInner::start(
            known_peers,
            self_addr,
            self.identity.clone(),
            rng,
            now,
        );
        match sockets {
            Ok(_) => {
                self.self_addr = Some(self_addr);
                Ok(Some(instance))
            },
            Err(err) => Err(err),
        }
    }

    /// Stops the client, unless it is not running. It forgets its own address, and `cancel` tells
    /// the running instance to end; it returns whether it could.
    pub fn stop<F: FnOnce() -> bool>(&mut self, known_peers: &mut KnownPeers, cancel: F) -> (r: Result<
        (),
        KaboodleError,
    >)
        requires
            old(known_peers).wf(),
            call_requires(cancel, ()),
        ensures
            final(known_peers).wf(),
            match old(self)@.self_addr {
                None => {
                    &&& *final(self) == *old(self)
                    &&& *final(known_peers) == *old(known_peers)
                    &&& r is Ok
                },
                Some(self_addr) => {
                    &&& final(self)@ == (Client { self_addr: None, ..old(self)@ })
                    &&& table(*final(known_peers)) == table(*old(known_peers)).forget(self_addr)
                    &&& match r {
                        Ok(_) => call_ensures(cancel, (), true),
                        Err(err) => err is StoppingFailed && call_ensures(cancel, (), false),
                    }
                },
            },
    {
        match self.self_addr {
            None => Ok(()),
            Some(self_addr) => {
                self.self_addr = None;
                forget_peer(known_peers, &self_addr);
                if cancel() {
                    Ok(())
                } else {
                    Err(KaboodleError::StoppingFailed("the instance is gone".to_owned()))
                }
            },
        }
    }

    /// Whether the client is running.
    pub fn is_running(&self) -> (r: bool)
        ensures
            r == self@.self_addr is Some,
    {
        self.self_addr.is_some()
    }

    /// The address that the client uses for one-to-one messages, while it is running.
    pub fn self_addr(&self) -> (r: Option<SocketAddr>)
        ensures
            r == self@.self_addr,
    {
        self.self_addr
    }

    /// The port of the mesh.
    pub fn broadcast_port(&self) -> (r: u16)
        ensures
            r == self@.broadcast_port,
    {
        self.broadcast_port
    }

    /// The network interface that the client uses.
    pub fn interface(&self) -> (r: Interface)
        ensures
            r == self@.interface,
    {
        self.interface.clone()
    }

    /// The identity of the client.
    pub fn identity(&self) -> (r: Bytes)
        ensures
            bytes_of(r) == self@.identity,
    {
        self.identity.clone()
    }

    /// Changes the identity of the client. That is not possible while it is running, since there is
    /// no message that tells others so.
    pub fn set_identity(&mut self, new_identity: Bytes) -> (r: Result<(), KaboodleError>)
        ensures
            r is Err == (old(self)@.self_addr is Some),
            match r {
                Ok(_) => final(self)@ == (Client {
                    identity: bytes_of(new_identity),
                    ..old(self)@
                }),
                Err(err) => *final(self) == *old(self) && (err matches KaboodleError::InvalidOperation(
                    detail,
                ) && detail@
                    == "Cannot change identity while the mesh is running; call .stop first"@),
            },
    {
        if self.is_running() {
            return Err(
                KaboodleError::InvalidOperation(
                    "Cannot change identity while the mesh is running; call .stop first".to_owned(),
                ),
            );
        }
        self.identity = new_identity;
        Ok(())
    }

    /// The addresses to ping in the hope to find peers there, which takes a client that is running.
    pub fn ping_addrs(&self, addrs: Vec<SocketAddr>) -> (r: Result<Vec<SocketAddr>, KaboodleError>)
        ensures
            match r {
                Ok(pinged) => self@.self_addr is Some && pinged == addrs,
                Err(err) => self@.self_addr is None && err is NotRunning,
            },
    {
        if self.is_running() {
            Ok(addrs)
        } else {
            Err(KaboodleError::NotRunning)
        }
    }

    /// The fingerprint of the mesh as the client knows it.
    pub fn fingerprint(&self, known_peers: &KnownPeers) -> (r: Fingerprint)
        requires
            known_peers.wf(),
        ensures
            r == fingerprint(table(*known_peers)),
    {
        generate_fingerprint(known_peers)
    }

    /// The known peers with their identities.
    pub fn peers(&self, known_peers: &KnownPeers) -> (r: VecMap<Peer, Bytes>)
        requires
            known_peers.wf(),
        ensures
            r.wf(),
            identities(r@) == membership(table(*known_peers).peers),
            r.order() == table(*known_peers).order,
    {
        peer_identities(known_peers)
    }

    /// The known peers with all that is known of them.
    pub fn peer_states(&self, known_peers: &KnownPeers) -> (r: VecMap<Peer, PeerInfo>)
        requires
            known_peers.wf(),
        ensures
            r.wf(),
            peer_views(r@) == table(*known_peers).peers,
            r.order() == table(*known_peers).order,
    {
        let copy = known_peers.clone();
        proof {
            copy.lemma_order();
            assert(peer_views(copy@) =~= table(*known_peers).peers);
        }
        <VecMap<Peer, PeerInfo> as From<KnownPeers>>::from(copy)
    }
}

} // verus!
