//! What an instance knows of its peers, and the messages that peers exchange.
use crate::addr::{Peer, SocketAddr};
use crate::identity::{bytes_of, same_identity};
use crate::map::VecMap;
use crate::observable_hashmap::{Event, Notice, ObservableHashMap};
use crate::time::{Duration, Instant};
use bytes::Bytes;
use vstd::prelude::*;

verus! {

/// A checksum of what an instance knows of the membership of the mesh.
pub type Fingerprint = u32;

/// What an instance knows of the membership of the mesh.
pub type KnownPeers = ObservableHashMap<Peer, PeerInfo>;

/// Our knowledge about the status of a peer at some moment.
#[derive(Clone, Copy, Debug, PartialEq, Eq, Structural)]
pub enum PeerState {
    /// The peer is believed to be up. We keep track of the last time we heard of it, so that we can
    /// ping those peers first about which our knowledge is most out of date.
    Known(Instant),
    /// We have sent a ping at the given time and wait for the response.
    WaitingForPing(Instant),
    /// We have asked other peers, at the given time, to ping this peer for us.
    WaitingForIndirectPing(Instant),
}

impl PeerState {
    /// What `to_string` returns.
    pub open spec fn text(&self) -> Seq<char> {
        match self {
            PeerState::Known(_) => "Known"@,
            PeerState::WaitingForPing(_) => "WaitingForPing"@,
            PeerState::WaitingForIndirectPing(_) => "WaitingForIndirectPing"@,
        }
    }

    /// The name of the state.
    pub fn to_string(&self) -> (r: String)
        ensures
            r@ == self.text(),
    {
        match self {
            PeerState::Known(_) => "Known".to_owned(),
            PeerState::WaitingForPing(_) => "WaitingForPing".to_owned(),
            PeerState::WaitingForIndirectPing(_) => "WaitingForIndirectPing".to_owned(),
        }
    }

    /// The time that the state carries.
    pub open spec fn time(&self) -> Instant {
        match self {
            PeerState::Known(t) => *t,
            PeerState::WaitingForPing(t) => *t,
            PeerState::WaitingForIndirectPing(t) => *t,
        }
    }
}

/// What we know of a peer.
#[derive(Debug)]
pub struct PeerInfo {
    pub identity: Bytes,
    pub state: PeerState,
    /// How long the peer takes to answer a ping, once it has answered one.
    pub latency: Option<Duration>,
}

/// The mathematical content of a [`PeerInfo`].
pub ghost struct PeerInfoView {
    pub identity: Seq<u8>,
    pub state: PeerState,
    pub latency: Option<Duration>,
}

impl View for PeerInfo {
    type V = PeerInfoView;

    open spec fn view(&self) -> PeerInfoView {
        PeerInfoView {
            identity: bytes_of(self.identity),
            state: self.state,
            latency: self.latency,
        }
    }
}

impl Clone for PeerInfo {
    fn clone(&self) -> (r: Self)
        ensures
            r@ == self@,
    {
        PeerInfo { identity: self.identity.clone(), state: self.state, latency: self.latency }
    }
}

impl vstd::std_specs::cmp::PartialEqSpecImpl for PeerInfo {
    open spec fn obeys_eq_spec() -> bool {
        true
    }

    open spec fn eq_spec(&self, other: &Self) -> bool {
        self@ == other@
    }
}

impl PartialEq for PeerInfo {
    fn eq(&self, other: &Self) -> (r: bool) {
        let same_latency = match (self.latency, other.latency) {
            (Some(a), Some(b)) => a == b,
            (None, None) => true,
            _ => false,
        };
        let r = same_latency && self.state == other.state && same_identity(
            &self.identity,
            &other.identity,
        );
        r
    }
}

/// A message to the entire mesh.
#[derive(Debug)]
pub enum SwimBroadcast {
    /// Announces the sender to the mesh.
    Join { addr: Peer, identity: Bytes },
    /// Announces that the given peer, not the sender, is believed to be down.
    Failed(Peer),
    /// Looks for any member of the mesh, without the intent to join it.
    Probe(SocketAddr),
}

/// The mathematical content of a [`SwimBroadcast`].
pub ghost enum SwimBroadcastView {
    Join { addr: Peer, identity: Seq<u8> },
    Failed(Peer),
    Probe(SocketAddr),
}

impl View for SwimBroadcast {
    type V = SwimBroadcastView;

    open spec fn view(&self) -> SwimBroadcastView {
        match *self {
            SwimBroadcast::Join { addr, identity } => SwimBroadcastView::Join {
                addr,
                identity: bytes_of(identity),
            },
            SwimBroadcast::Failed(peer) => SwimBroadcastView::Failed(peer),
            SwimBroadcast::Probe(addr) => SwimBroadcastView::Probe(addr),
        }
    }
}

/// A message to one peer.
#[derive(Debug)]
pub enum SwimMessage {
    /// Asks whether the peer is still in the mesh; answered by an `Ack`.
    Ping,
    /// Asks to ping the given peer for the sender, who cannot reach it directly.
    PingRequest(Peer),
    /// Answers a ping: `peer` is up, and this is how it sees the mesh.
    Ack { peer: Peer, mesh_fingerprint: u32, num_peers: u32 },
    /// The peers that the sender knows of, with their identities.
    KnownPeers(VecMap<Peer, Bytes>),
    /// Asks for the peers that the receiver knows of.
    KnownPeersRequest { mesh_fingerprint: u32, num_peers: u32 },
}

/// The mathematical content of a [`SwimMessage`].
pub ghost enum SwimMessageView {
    Ping,
    PingRequest(Peer),
    Ack { peer: Peer, mesh_fingerprint: u32, num_peers: u32 },
    KnownPeers(Map<Peer, Seq<u8>>),
    KnownPeersRequest { mesh_fingerprint: u32, num_peers: u32 },
}

/// The bytes of each identity.
pub open spec fn identities(peers: Map<Peer, Bytes>) -> Map<Peer, Seq<u8>> {
    peers.map_values(|identity: Bytes| bytes_of(identity))
}

impl View for SwimMessage {
    type V = SwimMessageView;

    open spec fn view(&self) -> SwimMessageView {
        match *self {
            SwimMessage::Ping => SwimMessageView::Ping,
            SwimMessage::PingRequest(peer) => SwimMessageView::PingRequest(peer),
            SwimMessage::Ack { peer, mesh_fingerprint, num_peers } => SwimMessageView::Ack {
                peer,
                mesh_fingerprint,
                num_peers,
            },
            SwimMessage::KnownPeers(peers) => SwimMessageView::KnownPeers(identities(peers@)),
            SwimMessage::KnownPeersRequest { mesh_fingerprint, num_peers } =>
                SwimMessageView::KnownPeersRequest { mesh_fingerprint, num_peers },
        }
    }
}

impl SwimMessage {
    /// A list of peers names no peer twice.
    pub open spec fn wf(&self) -> bool {
        match *self {
            SwimMessage::KnownPeers(peers) => peers.wf(),
            _ => true,
        }
    }
}

/// A message to one peer, with the identity of the sender.
#[derive(Debug)]
pub struct SwimEnvelope {
    pub identity: Bytes,
    pub msg: SwimMessage,
}

/// The answer to a `SwimBroadcast::Probe`: the identity of the member that answers.
#[derive(Debug)]
pub struct ProbeResponse {
    pub identity: Bytes,
}

/// The mathematical content of an event of [`KnownPeers`].
pub type EventView = Event<Peer, PeerInfoView>;

/// The mathematical content of a notice of [`KnownPeers`].
pub ghost struct NoticeView {
    pub event: EventView,
    pub observers: Seq<u64>,
}

pub open spec fn event_view(event: Event<Peer, PeerInfo>) -> EventView {
    match event {
        Event::Added(peer) => Event::Added(peer),
        Event::Updated(peer, prev, new) => Event::Updated(peer, prev@, new@),
        Event::Removed(peer) => Event::Removed(peer),
    }
}

pub open spec fn notice_view(notice: Notice<Peer, PeerInfo>) -> NoticeView {
    NoticeView { event: event_view(notice.event), observers: notice.observers@ }
}

} // verus!
