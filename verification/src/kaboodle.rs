//! The protocol: how an instance answers to messages and to the passing of time.
use crate::action::{action_views, actions_wf, push_action, Action, ActionView};
use crate::addr::{Peer, SocketAddr};
use crate::fingerprint::{fingerprint_of, generate_fingerprint, membership};
use crate::identity::bytes_of;
use crate::map::{lemma_take_more, with, VecMap};
use crate::random::{sample_of, Chance, Draw};
use crate::structs::{
    identities, Fingerprint, KnownPeers, PeerInfo, PeerInfoView, PeerState, SwimBroadcast,
    SwimBroadcastView, SwimEnvelope, SwimMessage, SwimMessageView,
};
use crate::table::{lemma_table, put_peer, set_peer_state, table, Table};
use crate::time::{duration_since, elapsed, Duration, Instant, MILLISECOND};
use crate::trimming::{empty_list_fits, is_fit};
use bytes::Bytes;
use rand_chacha::ChaChaRng;
use vstd::prelude::*;

verus! {

/// The time between rounds of communication with the mesh, as long as a round takes no longer.
pub const PROTOCOL_PERIOD: Duration = 1_000_000_000;

/// The time for which a round reads incoming messages at least.
pub const MIN_READ_TIME: Duration = 10_000_000;

/// The size of the buffer for an incoming message. Longer messages cannot be received.
pub const INCOMING_BUFFER_SIZE: usize = 10240;

/// How recently we must have heard from a peer to name it to another peer that asks.
pub const MAX_PEER_SHARE_AGE: Duration = 10_000_000_000;

/// How many other peers to ask to ping an unresponsive peer for us.
pub const NUM_INDIRECT_PING_PEERS: usize = 3;

/// Of how many of the peers from which we have not heard for longest the next one to ping is chosen.
pub const NUM_CANDIDATE_TARGET_PEERS: usize = 5;

/// How long to wait for an answer to a ping before we assume that it will never come.
pub const PING_TIMEOUT: Duration = 2_000_000_000;

/// How often to announce ourselves anew while we know of no other peer.
pub const REBROADCAST_INTERVAL: Duration = 10_000_000_000;

/// The mathematical content of a [`KaboodleInner`].
#[verifier::ext_equal]
pub ghost struct Node {
    /// The address that this instance uses for one-to-one messages.
    pub self_addr: Peer,
    /// The identity of this instance.
    pub identity: Seq<u8>,
    /// For each peer that others cannot reach, who wants to hear when it answers us.
    pub curious_peers: Map<Peer, Seq<Peer>>,
    /// When this instance last announced itself.
    pub last_broadcast_time: Option<Instant>,
    /// The draws on whether to answer to a message to the entire mesh, oldest first.
    pub draws: Seq<Draw>,
}

/// The lists of a map.
pub open spec fn lists(map: Map<Peer, Vec<Peer>>) -> Map<Peer, Seq<Peer>> {
    map.map_values(|list: Vec<Peer>| list@)
}

/// One instance of the protocol. What it knows of the mesh is kept beside it, in [`KnownPeers`].
pub struct KaboodleInner {
    chance: Chance,
    self_addr: SocketAddr,
    /// Maps from the address of a peer to the peers who would like to hear when it answers us.
    curious_peers: VecMap<Peer, Vec<Peer>>,
    /// When we last announced ourselves.
    last_broadcast_time: Option<Instant>,
    /// What identifies this instance to its peers.
    identity: Bytes,
}

impl View for KaboodleInner {
    type V = Node;

    closed spec fn view(&self) -> Node {
        Node {
            self_addr: self.self_addr,
            identity: bytes_of(self.identity),
            curious_peers: lists(self.curious_peers@),
            last_broadcast_time: self.last_broadcast_time,
            draws: self.chance.draws(),
        }
    }
}

impl Node {
    /// The sending of a message to one peer, with our identity on it.
    pub open spec fn send(self, to: Peer, msg: SwimMessageView) -> ActionView {
        ActionView::Send { to, identity: self.identity, msg }
    }

    /// Whether we are to announce ourselves: at first, and then now and then while we know of no one
    /// but ourselves.
    pub open spec fn join_is_due(self, t: Table, now: Instant) -> bool {
        match self.last_broadcast_time {
            None => true,
            Some(at) => elapsed(now, at) >= REBROADCAST_INTERVAL && t.order.len() <= 1,
        }
    }
}

/// The number of known peers, as messages state it.
pub open spec fn num_peers(t: Table) -> u32 {
    t.order.len() as u32
}

/// The fingerprint of the mesh as it is known.
pub open spec fn fingerprint(t: Table) -> Fingerprint {
    fingerprint_of(membership(t.peers))
}

/// A peer that sees the mesh differently, and knows of no fewer peers than we do, is asked for those
/// that it knows.
pub open spec fn asks_for_peers(
    our_fingerprint: Fingerprint,
    our_num_peers: u32,
    their_fingerprint: Fingerprint,
    their_num_peers: u32,
) -> bool {
    our_fingerprint != their_fingerprint && our_num_peers <= their_num_peers
}

/// What to ask of a peer that sees the mesh in the given way, if anything.
pub fn sync_request(
    our_fingerprint: Fingerprint,
    our_num_peers: u32,
    their_fingerprint: Fingerprint,
    their_num_peers: u32,
) -> (r: Option<SwimMessage>)
    ensures
        match r {
            Some(msg) => asks_for_peers(
                our_fingerprint,
                our_num_peers,
                their_fingerprint,
                their_num_peers,
            ) && msg@ == (SwimMessageView::KnownPeersRequest {
                mesh_fingerprint: our_fingerprint,
                num_peers: our_num_peers,
            }) && msg.wf(),
            None => !asks_for_peers(
                our_fingerprint,
                our_num_peers,
                their_fingerprint,
                their_num_peers,
            ),
        },
{
    if our_fingerprint == their_fingerprint {
        return None;
    }
    if our_num_peers > their_num_peers {
        // We know of more peers than they do, so they will ask us.
        return None;
    }
    Some(
        SwimMessage::KnownPeersRequest {
            mesh_fingerprint: our_fingerprint,
            num_peers: our_num_peers,
        },
    )
}

/// What we send to `peer`, who sees the mesh in the given way.
pub open spec fn sync_actions(
    node: Node,
    t: Table,
    peer: Peer,
    their_fingerprint: Fingerprint,
    their_num_peers: u32,
) -> Seq<ActionView> {
    if asks_for_peers(fingerprint(t), num_peers(t), their_fingerprint, their_num_peers) {
        seq![
            node.send(
                peer,
                SwimMessageView::KnownPeersRequest {
                    mesh_fingerprint: fingerprint(t),
                    num_peers: num_peers(t),
                },
            ),
        ]
    } else {
        Seq::empty()
    }
}

/// The time that each round has left for incoming messages.
pub open spec fn read_time(time_since_tick_start: Duration) -> Duration {
    if time_since_tick_start + MIN_READ_TIME <= PROTOCOL_PERIOD {
        (PROTOCOL_PERIOD - time_since_tick_start) as u128
    } else {
        MIN_READ_TIME
    }
}

/// How long a round reads incoming messages: for what is left of the period, but at least for a
/// moment, so that they do not pile up.
pub fn required_delay(time_since_tick_start: Duration) -> (r: Duration)
    ensures
        r == read_time(time_since_tick_start),
{
    let left: u128 = if time_since_tick_start <= PROTOCOL_PERIOD {
        PROTOCOL_PERIOD - time_since_tick_start
    } else {
        0
    };
    if left > MIN_READ_TIME {
        left
    } else {
        MIN_READ_TIME
    }
}

impl KaboodleInner {
    /// The peers that others are curious about are listed once.
    pub closed spec fn wf(&self) -> bool {
        self.curious_peers.wf()
    }

    /// Brings up an instance at the given address and enters it into the table.
    pub fn start(
        known_peers: &mut KnownPeers,
        self_addr: SocketAddr,
        identity: Bytes,
        rng: ChaChaRng,
        now: Instant,
    ) -> (r: KaboodleInner)
        requires
            old(known_peers).wf(),
        ensures
            final(known_peers).wf(),
            table(*final(known_peers)) == table(*old(known_peers)).put(
                self_addr,
                PeerInfoView {
                    identity: bytes_of(identity),
                    state: PeerState::Known(now),
                    latency: None,
                },
            ),
            r.wf(),
            r@ == (Node {
                self_addr,
                identity: bytes_of(identity),
                curious_peers: Map::empty(),
                last_broadcast_time: None,
                draws: Seq::empty(),
            }),
    {
        put_peer(
            known_peers,
            self_addr,
            PeerInfo { identity: identity.clone(), state: PeerState::Known(now), latency: None },
        );
        let r = KaboodleInner {
            chance: Chance::new(rng),
            self_addr,
            curious_peers: VecMap::new(),
            last_broadcast_time: None,
            identity,
        };
        assert(r@.curious_peers =~= Map::<Peer, Seq<Peer>>::empty());
        r
    }

    /// The address that this instance uses for one-to-one messages.
    pub fn self_addr(&self) -> (r: SocketAddr)
        ensures
            r == self@.self_addr,
    {
        self.self_addr
    }

    /// Puts our identity on a message.
    fn envelope(&self, msg: SwimMessage) -> (r: SwimEnvelope)
        ensures
            bytes_of(r.identity) == self@.identity,
            r.msg == msg,
    {
        SwimEnvelope { identity: self.identity.clone(), msg }
    }

    /// The sending of a message to one peer.
    pub(crate) fn send_msg(&self, to: Peer, msg: SwimMessage) -> (r: Action)
        requires
            msg.wf(),
        ensures
            r@ == self@.send(to, msg@),
            r.wf(),
    {
        Action::Send { to, envelope: self.envelope(msg) }
    }

    /// Our identity.
    pub fn identity(&self) -> (r: Bytes)
        ensures
            bytes_of(r) == self@.identity,
    {
        self.identity.clone()
    }

    /// True with a probability of `numerator` in `denominator`.
    pub(crate) fn flip_coin(&mut self, numerator: u32, denominator: u32) -> (r: bool)
        requires
            old(self).wf(),
            0 < denominator,
            numerator <= denominator,
        ensures
            final(self).wf(),
            final(self)@ == (Node {
                draws: old(self)@.draws.push(Draw { numerator, denominator, came_out: r }),
                ..old(self)@
            }),
            numerator == denominator ==> r,
            numerator == 0 ==> !r,
    {
        self.chance.flip(numerator, denominator)
    }

    /// A random sample of the peers.
    pub(crate) fn choose_peers(&mut self, from: &Vec<Peer>, amount: usize) -> (r: Vec<Peer>)
        requires
            old(self).wf(),
        ensures
            final(self).wf(),
            final(self)@ == old(self)@,
            sample_of(from@, r@, amount as nat),
    {
        self.chance.sample(from, amount)
    }

    /// One of the peers at random.
    pub(crate) fn choose_peer(&mut self, from: &Vec<Peer>) -> (r: Option<Peer>)
        requires
            old(self).wf(),
        ensures
            final(self).wf(),
            final(self)@ == old(self)@,
            match r {
                Some(peer) => from@.contains(peer),
                None => from@.len() == 0,
            },
    {
        self.chance.pick(from)
    }

    /// Forgets who wants to hear of `peer`.
    pub(crate) fn forget_curious_peers(&mut self, peer: &Peer)
        requires
            old(self).wf(),
        ensures
            final(self).wf(),
            final(self)@ == (Node {
                curious_peers: old(self)@.curious_peers.remove(*peer),
                ..old(self)@
            }),
    {
        self.curious_peers.remove(peer);
        assert(self@.curious_peers =~= old(self)@.curious_peers.remove(*peer));
    }

    /// Announces this instance to the mesh, if that is due.
    pub fn maybe_broadcast_join(&mut self, known_peers: &KnownPeers, now: Instant) -> (r: Option<
        SwimBroadcast,
    >)
        requires
            old(self).wf(),
            known_peers.wf(),
        ensures
            final(self).wf(),
            r is Some == old(self)@.join_is_due(table(*known_peers), now),
            match r {
                Some(msg) => {
                    &&& msg@ == (SwimBroadcastView::Join {
                        addr: old(self)@.self_addr,
                        identity: old(self)@.identity,
                    })
                    &&& final(self)@ == (Node { last_broadcast_time: Some(now), ..old(self)@ })
                },
                None => *final(self) == *old(self),
            },
    {
        if let Some(last_broadcast_time) = self.last_broadcast_time {
            if duration_since(now, last_broadcast_time) < REBROADCAST_INTERVAL || known_peers.len()
                > 1 {
                return None;
            }
        }
        self.last_broadcast_time = Some(now);
        Some(SwimBroadcast::Join { addr: self.self_addr, identity: self.identity.clone() })
    }

    /// Pings an address in the hope to find a new peer there.
    pub fn handle_incoming_ping_request(&self, target_peer: Peer) -> (r: Action)
        ensures
            r@ == self@.send(target_peer, SwimMessageView::Ping),
            r.wf(),
    {
        self.send_msg(target_peer, SwimMessage::Ping)
    }

    /// Holds what we know of the mesh against what `peer` knows, and asks it for its peers if it may
    /// know better.
    pub fn maybe_sync_known_peers(
        &self,
        known_peers: &KnownPeers,
        peer: Peer,
        their_fingerprint: Fingerprint,
        their_num_peers: u32,
    ) -> (r: Option<Action>)
        requires
            known_peers.wf(),
        ensures
            match r {
                Some(action) => sync_actions(
                    self@,
                    table(*known_peers),
                    peer,
                    their_fingerprint,
                    their_num_peers,
                ) == seq![action@] && action.wf(),
                None => sync_actions(
                    self@,
                    table(*known_peers),
                    peer,
                    their_fingerprint,
                    their_num_peers,
                ) == Seq::<ActionView>::empty(),
            },
    {
        let our_fingerprint = generate_fingerprint(known_peers);
        let our_num_peers: u32 = known_peers.len() as u32;
        match sync_request(our_fingerprint, our_num_peers, their_fingerprint, their_num_peers) {
            Some(msg) => Some(self.send_msg(peer, msg)),
            None => None,
        }
    }
}

/// `mixed` is what `mix` may make of the two latencies.
pub open spec fn is_mix_of<F: Fn(u128, u128) -> u64>(
    mix: F,
    new_ms: u128,
    prev_ms: u128,
    mixed: Duration,
) -> bool {
    exists|ms: u64| #[trigger]
        call_ensures(mix, (new_ms, prev_ms), ms) && mixed == ms * MILLISECOND
}

/// `r` is what becomes of the latency of a peer from which we hear at the given time. If we were
/// waiting for it, the time since we sent the ping is its latency, which `mix` mixes with the
/// previous one, if there is one; both are handed to it in whole milliseconds.
pub open spec fn latency_after<F: Fn(u128, u128) -> u64>(
    mix: F,
    info: PeerInfoView,
    now: Instant,
    r: Option<Duration>,
) -> bool {
    match info.state {
        PeerState::Known(_) => r == info.latency,
        PeerState::WaitingForPing(sent) | PeerState::WaitingForIndirectPing(sent) => {
            let ping_latency = (now - sent) as u128;
            match info.latency {
                None => r == Some(ping_latency),
                Some(prev) => r matches Some(mixed) && is_mix_of(
                    mix,
                    ping_latency / MILLISECOND,
                    prev / MILLISECOND,
                    mixed,
                ),
            }
        },
    }
}

/// We wait for a peer in this state since a time that does not lie after `now`.
pub open spec fn waits_since_before(state: PeerState, now: Instant) -> bool {
    state !is Known ==> state.time() <= now
}

/// The latency of a peer from which we hear at the given time.
pub fn calculate_peer_latency<F: Fn(u128, u128) -> u64>(
    peer_info: &PeerInfo,
    now: Instant,
    mix: F,
) -> (r: Option<Duration>)
    requires
        waits_since_before(peer_info.state, now),
        forall|new_ms: u128, prev_ms: u128| #[trigger] call_requires(mix, (new_ms, prev_ms)),
    ensures
        latency_after(mix, peer_info@, now, r),
{
    let ping_send_time: u128 = match peer_info.state {
        PeerState::WaitingForIndirectPing(sent) => sent,
        PeerState::WaitingForPing(sent) => sent,
        PeerState::Known(_) => {
            // We were not expecting to hear from this peer, so there is nothing to compare with.
            return peer_info.latency;
        },
    };
    let ping_latency: u128 = now - ping_send_time;
    match peer_info.latency {
        None => Some(ping_latency),
        Some(prev_latency) => {
            let ms: u64 = mix(ping_latency / MILLISECOND, prev_latency / MILLISECOND);
            Some((ms as u128) * MILLISECOND)
        },
    }
}

/// `latency` is what becomes of the latency of `sender`, from which we hear at the given time.
pub open spec fn sender_latency<F: Fn(u128, u128) -> u64>(
    mix: F,
    t: Table,
    sender: Peer,
    now: Instant,
    latency: Option<Duration>,
) -> bool {
    if t.peers.contains_key(sender) {
        latency_after(mix, t.peers[sender], now, latency)
    } else {
        latency is None
    }
}

/// The table once we have heard from `sender`.
pub open spec fn heard_from(
    t: Table,
    sender: Peer,
    identity: Seq<u8>,
    now: Instant,
    latency: Option<Duration>,
) -> Table {
    t.put(sender, PeerInfoView { identity, state: PeerState::Known(now), latency })
}

/// The table once we have been told of the listed peers. Those that are new get a time that is too
/// old for us to name them to others before we have heard from them ourselves.
pub open spec fn learn(
    t: Table,
    listed: Seq<Peer>,
    members: Map<Peer, Seq<u8>>,
    now: Instant,
) -> Table
    decreases listed.len(),
{
    if listed.len() == 0 {
        t
    } else {
        let before = learn(t, listed.drop_last(), members, now);
        let peer = listed.last();
        if before.peers.contains_key(peer) {
            before
        } else {
            before.put(
                peer,
                PeerInfoView {
                    identity: members[peer],
                    state: PeerState::Known((now - MAX_PEER_SHARE_AGE) as u128),
                    latency: None,
                },
            )
        }
    }
}

/// Whether we name `peer` to `requester`: someone else, from whom we have heard of late.
pub open spec fn is_shared(node: Node, t: Table, requester: Peer, now: Instant, peer: Peer) -> bool {
    &&& t.peers.contains_key(peer)
    &&& peer != node.self_addr
    &&& peer != requester
    &&& match t.peers[peer].state {
        PeerState::Known(last_heard) => elapsed(now, last_heard) < MAX_PEER_SHARE_AGE,
        _ => false,
    }
}

/// The peers that we name to `requester`.
pub open spec fn shared_peers(node: Node, t: Table, requester: Peer, now: Instant) -> Map<
    Peer,
    Seq<u8>,
> {
    Map::new(
        |peer: Peer| is_shared(node, t, requester, now, peer),
        |peer: Peer| t.peers[peer].identity,
    )
}

/// Who wants to hear when `peer` answers us.
pub open spec fn curious_about(node: Node, peer: Peer) -> Seq<Peer> {
    if node.curious_peers.contains_key(peer) {
        node.curious_peers[peer]
    } else {
        Seq::empty()
    }
}

/// What becomes of an instance and its table, and what it sends.
#[verifier::ext_equal]
pub ghost struct Step {
    pub node: Node,
    pub table: Table,
    pub actions: Seq<ActionView>,
}

/// The passing on of an answer to those who are curious about it.
pub open spec fn pass_on(node: Node, observers: Seq<Peer>, ack: SwimMessageView) -> Seq<ActionView> {
    observers.map_values(|observer: Peer| node.send(observer, ack))
}

/// The table once we know, from the peer itself or from another, that `peer` has answered: if we
/// know of it, it is up.
pub open spec fn vouched(t: Table, peer: Peer, now: Instant) -> Table {
    t.set_state(peer, PeerState::Known(now))
}

/// `reply` is what may be sent in answer to a request for peers: those that we name to whoever asks,
/// or as many of them as fit into its buffer; nothing, only if not even a list that names no one
/// fits. No other message is answered in this way.
pub open spec fn may_reply<F: Fn(&SwimEnvelope) -> Vec<u8>>(
    serialize: F,
    node: Node,
    t: Table,
    sender: Peer,
    msg: SwimMessage,
    now: Instant,
    reply: Seq<ActionView>,
) -> bool {
    if msg is KnownPeersRequest {
        ||| reply.len() == 0 && !empty_list_fits(serialize, node.identity)
        ||| exists|bytes: Seq<u8>| #[trigger]
            is_fit(serialize, node.identity, shared_peers(node, t, sender, now), bytes) && reply
                == seq![ActionView::SendBytes { to: sender, bytes }]
    } else {
        reply.len() == 0
    }
}

/// How an instance answers to a message, with `t` the table once it has heard from `sender`, and
/// `reply` what it sends in answer to a request for peers.
pub open spec fn on_message(
    node: Node,
    t: Table,
    sender: Peer,
    msg: SwimMessage,
    now: Instant,
    reply: Seq<ActionView>,
) -> Step {
    match msg {
        SwimMessage::Ack { peer, mesh_fingerprint, num_peers } => Step {
            node: Node { curious_peers: node.curious_peers.remove(peer), ..node },
            table: vouched(t, peer, now),
            actions: pass_on(
                node,
                curious_about(node, peer),
                SwimMessageView::Ack { peer, mesh_fingerprint, num_peers },
            ) + sync_actions(node, vouched(t, peer, now), peer, mesh_fingerprint, num_peers),
        },
        SwimMessage::KnownPeers(peers) => Step {
            node,
            table: learn(t, peers.order(), identities(peers@), now),
            actions: Seq::empty(),
        },
        SwimMessage::KnownPeersRequest { mesh_fingerprint, num_peers } => Step {
            node,
            table: t,
            actions: reply + sync_actions(node, t, sender, mesh_fingerprint, num_peers),
        },
        SwimMessage::Ping => Step {
            node,
            table: t,
            actions: seq![
                node.send(
                    sender,
                    SwimMessageView::Ack {
                        peer: node.self_addr,
                        mesh_fingerprint: fingerprint(t),
                        num_peers: num_peers(t),
                    },
                ),
            ],
        },
        SwimMessage::PingRequest(peer) => Step {
            node: Node {
                curious_peers: node.curious_peers.insert(
                    peer,
                    with(curious_about(node, peer), sender),
                ),
                ..node
            },
            table: t,
            actions: seq![node.send(peer, SwimMessageView::Ping)],
        },
    }
}

/// `step` is how an instance may answer to a message, with `t` the table once it has heard from
/// `sender`. Which peers are left out of a list that would be too long is a matter of chance.
pub open spec fn is_answer<F: Fn(&SwimEnvelope) -> Vec<u8>>(
    serialize: F,
    node: Node,
    t: Table,
    sender: Peer,
    msg: SwimMessage,
    now: Instant,
    step: Step,
) -> bool {
    exists|reply: Seq<ActionView>| #[trigger]
        may_reply(serialize, node, t, sender, msg, now, reply) && step == on_message(
            node,
            t,
            sender,
            msg,
            now,
            reply,
        )
}

/// Adds the peers of a list that are not known yet.
fn learn_peers(known_peers: &mut KnownPeers, peers: &VecMap<Peer, Bytes>, now: Instant)
    requires
        old(known_peers).wf(),
        peers.wf(),
        now >= MAX_PEER_SHARE_AGE,
    ensures
        final(known_peers).wf(),
        table(*final(known_peers)) == learn(
            table(*old(known_peers)),
            peers.order(),
            identities(peers@),
            now,
        ),
{
    let ghost members = identities(peers@);
    let too_old_to_share: u128 = now - MAX_PEER_SHARE_AGE;
    let entries = peers.iter();
    let mut i: usize = 0;
    assert(peers.order().take(0) =~= Seq::<Peer>::empty());
    while i < entries.len()
        invariant
            i <= entries@.len(),
            entries@.len() == peers.order().len(),
            forall|j: int|
                0 <= j < entries@.len() ==> {
                    &&& (#[trigger] entries@[j]).0 == peers.order()[j]
                    &&& peers@.contains_key(entries@[j].0)
                    &&& entries@[j].1 == peers@[entries@[j].0]
                },
            members == identities(peers@),
            now >= MAX_PEER_SHARE_AGE,
            too_old_to_share == now - MAX_PEER_SHARE_AGE,
            known_peers.wf(),
            table(*known_peers) == learn(
                table(*old(known_peers)),
                peers.order().take(i as int),
                members,
                now,
            ),
        decreases entries@.len() - i,
    {
        let entry = &entries[i];
        proof {
            lemma_table(*known_peers);
            assert(peers.order().take(i + 1).drop_last() =~= peers.order().take(i as int));
        }
        if !known_peers.contains_key(&entry.0) {
            put_peer(
                known_peers,
                entry.0,
                PeerInfo {
                    identity: entry.1.clone(),
                    state: PeerState::Known(too_old_to_share),
                    latency: None,
                },
            );
        }
        i += 1;
    }
    assert(peers.order().take(i as int) =~= peers.order());
}

/// The known peers with their identities.
pub fn peer_identities(known_peers: &KnownPeers) -> (r: VecMap<Peer, Bytes>)
    requires
        known_peers.wf(),
    ensures
        r.wf(),
        identities(r@) == membership(table(*known_peers).peers),
        r.order() == known_peers.order(),
{
    let ghost t = table(*known_peers);
    let entries = known_peers.iter();
    let mut r: VecMap<Peer, Bytes> = VecMap::new();
    let mut i: usize = 0;
    assert(t.order.take(0) =~= Seq::<Peer>::empty());
    proof {
        lemma_table(*known_peers);
    }
    while i < entries.len()
        invariant
            i <= entries@.len(),
            t == table(*known_peers),
            t.wf(),
            entries@.len() == t.order.len(),
            forall|j: int|
                0 <= j < entries@.len() ==> {
                    &&& (#[trigger] entries@[j]).0 == t.order[j]
                    &&& entries@[j].1@ == t.peers[t.order[j]]
                },
            r.wf(),
            r.order() == t.order.take(i as int),
            forall|peer: Peer| #[trigger]
                r@.contains_key(peer) ==> bytes_of(r@[peer]) == t.peers[peer].identity,
        decreases entries@.len() - i,
    {
        let entry = &entries[i];
        proof {
            r.lemma_order();
            assert(t.order.take(i + 1) =~= t.order.take(i as int).push(entry.0));
            assert(!t.order.take(i as int).contains(entry.0));
        }
        r.insert(entry.0, entry.1.identity.clone());
        i += 1;
    }
    proof {
        assert(t.order.take(i as int) =~= t.order);
        r.lemma_order();
        assert(identities(r@) =~= membership(t.peers));
    }
    r
}

impl KaboodleInner {
    /// The peers that we name to `requester`.
    fn peers_to_share(&self, known_peers: &KnownPeers, requester: Peer, now: Instant) -> (r: VecMap<
        Peer,
        Bytes,
    >)
        requires
            known_peers.wf(),
        ensures
            r.wf(),
            identities(r@) == shared_peers(self@, table(*known_peers), requester, now),
    {
        let ghost t = table(*known_peers);
        let ghost node = self@;
        let entries = known_peers.iter();
        let mut r: VecMap<Peer, Bytes> = VecMap::new();
        let mut i: usize = 0;
        assert(t.order.take(0) =~= Seq::<Peer>::empty());
        proof {
            lemma_table(*known_peers);
        }
        while i < entries.len()
            invariant
                i <= entries@.len(),
                t == table(*known_peers),
                t.wf(),
                node == self@,
                known_peers.wf(),
                entries@.len() == t.order.len(),
                forall|j: int|
                    0 <= j < entries@.len() ==> {
                        &&& (#[trigger] entries@[j]).0 == t.order[j]
                        &&& entries@[j].1@ == t.peers[t.order[j]]
                    },
                r.wf(),
                forall|peer: Peer| #[trigger]
                    r@.contains_key(peer) <==> t.order.take(i as int).contains(peer) && is_shared(
                        node,
                        t,
                        requester,
                        now,
                        peer,
                    ),
                forall|peer: Peer| #[trigger]
                    r@.contains_key(peer) ==> bytes_of(r@[peer]) == t.peers[peer].identity,
            decreases entries@.len() - i,
        {
            let entry = &entries[i];
            proof {
                lemma_table(*known_peers);
                assert(t.order.contains(entry.0));
                assert(t.peers.contains_key(entry.0));
                lemma_take_more(t.order, i as int);
            }
            if let PeerState::Known(last_heard) = entry.1.state {
                if entry.0 != self.self_addr && entry.0 != requester && duration_since(
                    now,
                    last_heard,
                ) < MAX_PEER_SHARE_AGE {
                    r.insert(entry.0, entry.1.identity.clone());
                }
            }
            i += 1;
        }
        proof {
            assert(t.order.take(i as int) =~= t.order);
            lemma_table(*known_peers);
            assert(identities(r@) =~= shared_peers(node, t, requester, now));
        }
        r
    }

    /// Answers to an answer: `peer` is up, and those who are curious about it are told.
    fn handle_ack(
        &mut self,
        known_peers: &mut KnownPeers,
        peer: Peer,
        mesh_fingerprint: Fingerprint,
        num_peers: u32,
        now: Instant,
    ) -> (r: Vec<Action>)
        requires
            old(self).wf(),
            old(known_peers).wf(),
        ensures
            final(self).wf(),
            final(known_peers).wf(),
            table(*final(known_peers)) == vouched(table(*old(known_peers)), peer, now),
            actions_wf(r@),
            final(self)@ == (Node {
                curious_peers: old(self)@.curious_peers.remove(peer),
                ..old(self)@
            }),
            action_views(r@) == pass_on(
                old(self)@,
                curious_about(old(self)@, peer),
                SwimMessageView::Ack { peer, mesh_fingerprint, num_peers },
            ) + sync_actions(
                old(self)@,
                vouched(table(*old(known_peers)), peer, now),
                peer,
                mesh_fingerprint,
                num_peers,
            ),
    {
        let ghost node = self@;
        set_peer_state(known_peers, &peer, PeerState::Known(now));
        let ghost ack = SwimMessageView::Ack { peer, mesh_fingerprint, num_peers };
        let mut actions: Vec<Action> = Vec::new();
        let removed = self.curious_peers.remove(&peer);
        assert(self@.curious_peers =~= node.curious_peers.remove(peer));
        assert(action_views(actions@) =~= Seq::<ActionView>::empty());
        if let Some(observers) = removed {
            let mut i: usize = 0;
            assert(action_views(actions@) =~= pass_on(node, observers@.take(0), ack));
            while i < observers.len()
                invariant
                    i <= observers@.len(),
                    self@.identity == node.identity,
                    ack == (SwimMessageView::Ack { peer, mesh_fingerprint, num_peers }),
                    actions_wf(actions@),
                    action_views(actions@) == pass_on(node, observers@.take(i as int), ack),
                decreases observers@.len() - i,
            {
                let action = self.send_msg(
                    observers[i],
                    SwimMessage::Ack { peer, mesh_fingerprint, num_peers },
                );
                push_action(&mut actions, action);
                assert(action_views(actions@) =~= pass_on(node, observers@.take(i + 1), ack));
                i += 1;
            }
            assert(observers@.take(i as int) =~= observers@);
            assert(curious_about(node, peer) == observers@);
        } else {
            assert(pass_on(node, curious_about(node, peer), ack) =~= Seq::<ActionView>::empty());
        }
        let ghost passed_on = action_views(actions@);
        match self.maybe_sync_known_peers(known_peers, peer, mesh_fingerprint, num_peers) {
            Some(action) => {
                push_action(&mut actions, action);
                assert(action_views(actions@) =~= passed_on + seq![action@]);
            },
            None => {
                assert(passed_on =~= passed_on + Seq::<ActionView>::empty());
            },
        }
        actions
    }

    /// Makes a note that `sender` wants to hear when `peer` answers us.
    fn note_curious_peer(&mut self, peer: Peer, sender: Peer)
        requires
            old(self).wf(),
        ensures
            final(self).wf(),
            final(self)@ == (Node {
                curious_peers: old(self)@.curious_peers.insert(
                    peer,
                    with(curious_about(old(self)@, peer), sender),
                ),
                ..old(self)@
            }),
    {
        let ghost node = self@;
        let mut observers: Vec<Peer> = match self.curious_peers.remove(&peer) {
            Some(observers) => observers,
            None => Vec::new(),
        };
        assert(observers@ =~= curious_about(node, peer));
        if !contains_peer(&observers, &sender) {
            observers.push(sender);
        }
        let ghost list = observers@;
        self.curious_peers.insert(peer, observers);
        assert(self@.curious_peers =~= node.curious_peers.insert(peer, list));
    }

    /// Answers to a message that came from `sender`. The peer is known from then on; if we were
    /// waiting for it, we no longer are.
    pub fn handle_incoming_message<
        F: Fn(u128, u128) -> u64,
        G: Fn(&SwimEnvelope) -> Vec<u8>,
    >(
        &mut self,
        known_peers: &mut KnownPeers,
        sender: Peer,
        env: SwimEnvelope,
        now: Instant,
        mix: F,
        serialize: &G,
    ) -> (r: Vec<Action>)
        requires
            old(self).wf(),
            old(known_peers).wf(),
            env.msg.wf(),
            table(*old(known_peers)).peers.contains_key(sender) ==> waits_since_before(
                table(*old(known_peers)).peers[sender].state,
                now,
            ),
            env.msg is KnownPeers ==> now >= MAX_PEER_SHARE_AGE,
            forall|new_ms: u128, prev_ms: u128| #[trigger] call_requires(mix, (new_ms, prev_ms)),
            forall|e: SwimEnvelope| #[trigger] call_requires(*serialize, (&e,)),
        ensures
            final(self).wf(),
            final(known_peers).wf(),
            actions_wf(r@),
            exists|latency: Option<Duration>|
                {
                    &&& #[trigger] sender_latency(
                        mix,
                        table(*old(known_peers)),
                        sender,
                        now,
                        latency,
                    )
                    &&& is_answer(
                        *serialize,
                        old(self)@,
                        heard_from(
                            table(*old(known_peers)),
                            sender,
                            bytes_of(env.identity),
                            now,
                            latency,
                        ),
                        sender,
                        env.msg,
                        now,
                        Step {
                            node: final(self)@,
                            table: table(*final(known_peers)),
                            actions: action_views(r@),
                        },
                    )
                },
    {
        proof {
            lemma_table(*known_peers);
        }
        let latency = match known_peers.get(&sender) {
            Some(info) => calculate_peer_latency(info, now, mix),
            None => None,
        };
        assert(sender_latency(mix, table(*old(known_peers)), sender, now, latency));
        self.handle_message_with(known_peers, sender, env, now, latency, serialize)
    }

    /// Answers to a message that came from `sender`, whose latency becomes the given one.
    pub fn handle_message_with<G: Fn(&SwimEnvelope) -> Vec<u8>>(
        &mut self,
        known_peers: &mut KnownPeers,
        sender: Peer,
        env: SwimEnvelope,
        now: Instant,
        latency: Option<Duration>,
        serialize: &G,
    ) -> (r: Vec<Action>)
        requires
            old(self).wf(),
            old(known_peers).wf(),
            env.msg.wf(),
            env.msg is KnownPeers ==> now >= MAX_PEER_SHARE_AGE,
            forall|e: SwimEnvelope| #[trigger] call_requires(*serialize, (&e,)),
        ensures
            final(self).wf(),
            final(known_peers).wf(),
            actions_wf(r@),
            is_answer(
                *serialize,
                old(self)@,
                heard_from(
                    table(*old(known_peers)),
                    sender,
                    bytes_of(env.identity),
                    now,
                    latency,
                ),
                sender,
                env.msg,
                now,
                Step {
                    node: final(self)@,
                    table: table(*final(known_peers)),
                    actions: action_views(r@),
                },
            ),
    {
        let SwimEnvelope { identity, msg } = env;
        put_peer(
            known_peers,
            sender,
            PeerInfo { identity, state: PeerState::Known(now), latency },
        );
        let ghost node = self@;
        let ghost t = table(*known_peers);
        let ghost mut reply: Seq<ActionView> = Seq::empty();
        let actions = match msg {
            SwimMessage::Ack { peer, mesh_fingerprint, num_peers } => {
                self.handle_ack(known_peers, peer, mesh_fingerprint, num_peers, now)
            },
            SwimMessage::KnownPeers(peers) => {
                learn_peers(known_peers, &peers, now);
                let actions: Vec<Action> = Vec::new();
                assert(action_views(actions@) =~= Seq::<ActionView>::empty());
                actions
            },
            SwimMessage::KnownPeersRequest { mesh_fingerprint, num_peers } => {
                let mut actions: Vec<Action> = Vec::new();
                assert(action_views(actions@) =~= Seq::<ActionView>::empty());
                let shared = self.peers_to_share(known_peers, sender, now);
                if let Some(bytes) = self.fit_peers(shared, serialize) {
                    let ghost sent = bytes@;
                    push_action(&mut actions, Action::SendBytes { to: sender, bytes });
                    assert(action_views(actions@) =~= seq![
                        ActionView::SendBytes { to: sender, bytes: sent },
                    ]);
                }
                proof {
                    reply = action_views(actions@);
                }
                match self.maybe_sync_known_peers(known_peers, sender, mesh_fingerprint, num_peers) {
                    Some(action) => {
                        push_action(&mut actions, action);
                        assert(action_views(actions@) =~= reply + seq![action@]);
                    },
                    None => {
                        assert(reply =~= reply + Seq::<ActionView>::empty());
                    },
                }
                actions
            },
            SwimMessage::Ping => {
                let mut actions: Vec<Action> = Vec::new();
                let our_fingerprint = generate_fingerprint(known_peers);
                let our_num_peers: u32 = known_peers.len() as u32;
                let reply = self.send_msg(
                    sender,
                    SwimMessage::Ack {
                        peer: self.self_addr,
                        mesh_fingerprint: our_fingerprint,
                        num_peers: our_num_peers,
                    },
                );
                push_action(&mut actions, reply);
                assert(action_views(actions@) =~= seq![reply@]);
                actions
            },
            SwimMessage::PingRequest(peer) => {
                let mut actions: Vec<Action> = Vec::new();
                self.note_curious_peer(peer, sender);
                let ping = self.send_msg(peer, SwimMessage::Ping);
                push_action(&mut actions, ping);
                assert(action_views(actions@) =~= seq![ping@]);
                actions
            },
        };
        proof {
            assert(may_reply(*serialize, node, t, sender, env.msg, now, reply));
            assert((Step {
                node: self@,
                table: table(*known_peers),
                actions: action_views(actions@),
            }) == on_message(node, t, sender, env.msg, now, reply));
        }
        actions
    }
}

/// Whether `peer` is in the list.
pub(crate) fn contains_peer(list: &Vec<Peer>, peer: &Peer) -> (r: bool)
    ensures
        r == list@.contains(*peer),
{
    let mut i: usize = 0;
    while i < list.len()
        invariant
            i <= list@.len(),
            forall|j: int| 0 <= j < i ==> #[trigger] list@[j] != *peer,
        decreases list@.len() - i,
    {
        if list[i] == *peer {
            assert(list@[i as int] == *peer);
            return true;
        }
        i += 1;
    }
    false
}

} // verus!
