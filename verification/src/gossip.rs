//! A simpler protocol: peers have no identities, everyone answers to a newcomer, and what a peer
//! knows of the mesh is not compared.
use crate::addr::{Peer, SocketAddr};
use crate::kaboodle::{contains_peer, lists};
use crate::listing::{comma_separated, join_texts, sort_texts, text_order, text_views};
use crate::map::{lemma_filter_step, other_than, with, without, VecMap};
use crate::random::{sample_of, thread_choose_multiple, thread_choose_one};
use crate::suspicion::Judgement;
use crate::text::addr_text;
use crate::time::{duration_since, elapsed, Duration, Instant, MILLISECOND};
use rand::rngs::ThreadRng;
use vstd::prelude::*;

verus! {

/// The time from the start of a round to the start of the next, as long as a round takes no longer.
pub const IDEAL_TICK_DURATION: Duration = 1_000_000_000;

/// The size of the buffer for an incoming message. Longer messages cannot be received.
pub const INCOMING_BUFFER_SIZE: usize = 1024;

/// How many other peers to ask to ping an unresponsive peer for us.
pub const NUM_INDIRECT_PING_PEERS: usize = 3;

/// How long to wait for an answer to a ping before we assume that it will never come.
pub const PING_TIMEOUT: Duration = 2_000_000_000;

/// How often to announce ourselves anew while we know of no other peer.
pub const REBROADCAST_INTERVAL: Duration = 10_000_000_000;

/// What peers send to each other.
#[derive(Debug)]
pub enum SwimMessage {
    /// To everyone: the given peer, the sender, is there.
    Join(Peer),
    /// Asks whether the receiver is still there; answered by an `Ack`.
    Ping,
    /// Asks to ping the given peer for the sender.
    PingRequest(Peer),
    /// The given peer is there.
    Ack(Peer),
    /// To everyone: the given peer is believed to be down.
    Failed(Peer),
    /// The peers that the sender knows of.
    KnownPeers(Vec<Peer>),
}

/// The mathematical content of a [`SwimMessage`].
pub ghost enum SwimMessageView {
    Join(Peer),
    Ping,
    PingRequest(Peer),
    Ack(Peer),
    Failed(Peer),
    KnownPeers(Seq<Peer>),
}

impl View for SwimMessage {
    type V = SwimMessageView;

    open spec fn view(&self) -> SwimMessageView {
        match *self {
            SwimMessage::Join(peer) => SwimMessageView::Join(peer),
            SwimMessage::Ping => SwimMessageView::Ping,
            SwimMessage::PingRequest(peer) => SwimMessageView::PingRequest(peer),
            SwimMessage::Ack(peer) => SwimMessageView::Ack(peer),
            SwimMessage::Failed(peer) => SwimMessageView::Failed(peer),
            SwimMessage::KnownPeers(peers) => SwimMessageView::KnownPeers(peers@),
        }
    }
}

/// Something to be sent.
#[derive(Debug)]
pub enum Action {
    /// To one peer.
    Send(Peer, SwimMessage),
    /// To everyone.
    Broadcast(SwimMessage),
}

/// The mathematical content of an [`Action`].
pub ghost enum ActionView {
    Send(Peer, SwimMessageView),
    Broadcast(SwimMessageView),
}

impl View for Action {
    type V = ActionView;

    open spec fn view(&self) -> ActionView {
        match *self {
            Action::Send(peer, msg) => ActionView::Send(peer, msg@),
            Action::Broadcast(msg) => ActionView::Broadcast(msg@),
        }
    }
}

/// The content of the actions.
pub open spec fn action_views(actions: Seq<Action>) -> Seq<ActionView> {
    actions.map_values(|action: Action| action@)
}

/// What we know of a peer.
#[derive(Clone, Copy, Debug, PartialEq, Eq, Structural)]
pub enum PeerState {
    /// The peer is believed to be up.
    Known,
    /// We have sent a ping at the given time and wait for the response.
    WaitingForPing(Instant),
    /// We have asked other peers, at the given time, to ping this peer for us.
    WaitingForIndirectPing(Instant),
}

impl PeerState {
    /// What `to_string` returns.
    pub open spec fn text(&self) -> Seq<char> {
        match self {
            PeerState::Known => "Known"@,
            PeerState::WaitingForPing(_) => "WaitingForPing"@,
            PeerState::WaitingForIndirectPing(_) => "WaitingForIndirectPing"@,
        }
    }

    /// The name of the state.
    pub fn to_string(&self) -> (r: String)
        ensures
            r@ == self.text(),
    {
        match self {
            PeerState::Known => "Known".to_owned(),
            PeerState::WaitingForPing(_) => "WaitingForPing".to_owned(),
            PeerState::WaitingForIndirectPing(_) => "WaitingForIndirectPing".to_owned(),
        }
    }
}

/// The mathematical content of a [`Gossip`].
#[verifier::ext_equal]
pub ghost struct Member {
    /// The address that this member uses for one-to-one messages.
    pub self_addr: Peer,
    /// What is known of each peer.
    pub peers: Map<Peer, PeerState>,
    /// The peers, in the order in which they became known.
    pub order: Seq<Peer>,
    /// For each peer that others cannot reach, who wants to hear when it answers us.
    pub curious_peers: Map<Peer, Seq<Peer>>,
    /// When this member last announced itself.
    pub last_broadcast_time: Option<Instant>,
}

/// What becomes of a member, and what it sends.
#[verifier::ext_equal]
pub ghost struct Step {
    pub member: Member,
    pub actions: Seq<ActionView>,
}

impl Member {
    /// `state` becomes what is known of `peer`.
    pub open spec fn put(self, peer: Peer, state: PeerState) -> Member {
        Member { peers: self.peers.insert(peer, state), order: with(self.order, peer), ..self }
    }

    /// `peer` becomes known, if it is not.
    pub open spec fn learn(self, peer: Peer) -> Member {
        if self.peers.contains_key(peer) {
            self
        } else {
            self.put(peer, PeerState::Known)
        }
    }

    /// All `listed` peers become known.
    pub open spec fn learn_all(self, listed: Seq<Peer>) -> Member
        decreases listed.len(),
    {
        if listed.len() == 0 {
            self
        } else {
            self.learn_all(listed.drop_last()).learn(listed.last())
        }
    }

    /// `peer` is forgotten.
    pub open spec fn forget(self, peer: Peer) -> Member {
        Member {
            peers: self.peers.remove(peer),
            order: without(self.order, peer),
            ..self
        }
    }

    /// Who wants to hear when `peer` answers us.
    pub open spec fn curious_about(self, peer: Peer) -> Seq<Peer> {
        if self.curious_peers.contains_key(peer) {
            self.curious_peers[peer]
        } else {
            Seq::empty()
        }
    }

    /// No one wants to hear of `peer` any longer.
    pub open spec fn without_curious(self, peer: Peer) -> Member {
        Member { curious_peers: self.curious_peers.remove(peer), ..self }
    }

    /// Nothing happens.
    pub open spec fn idle(self) -> Step {
        Step { member: self, actions: Seq::empty() }
    }

    /// Whether we are to announce ourselves: at first, and then now and then while we know of no one
    /// but ourselves.
    pub open spec fn join_is_due(self, now: Instant) -> bool {
        match self.last_broadcast_time {
            None => true,
            Some(at) => self.order.len() == 1 && elapsed(now, at) >= REBROADCAST_INTERVAL,
        }
    }

    /// We announce ourselves, if that is due.
    pub open spec fn on_tick(self, now: Instant) -> Step {
        if self.join_is_due(now) {
            Step {
                member: Member { last_broadcast_time: Some(now), ..self },
                actions: seq![ActionView::Broadcast(SwimMessageView::Join(self.self_addr))],
            }
        } else {
            self.idle()
        }
    }

    /// The answer to a message to everyone. We do not forget ourselves, and a newcomer is told of
    /// all others that we know of.
    pub open spec fn on_broadcast(self, msg: SwimMessageView) -> Step {
        match msg {
            SwimMessageView::Failed(peer) => if peer == self.self_addr {
                self.idle()
            } else {
                self.forget(peer).idle()
            },
            SwimMessageView::Join(peer) => if peer == self.self_addr {
                self.idle()
            } else {
                let member = self.put(peer, PeerState::Known);
                let others = member.order.filter(other_than(peer));
                Step {
                    member,
                    actions: if others.len() == 0 {
                        Seq::empty()
                    } else {
                        seq![ActionView::Send(peer, SwimMessageView::KnownPeers(others))]
                    },
                }
            },
            _ => self.idle(),
        }
    }

    /// The answer to a message to us.
    pub open spec fn on_message(self, sender: Peer, msg: SwimMessageView) -> Step {
        match msg {
            SwimMessageView::Ack(peer) => Step {
                member: self.put(peer, PeerState::Known).without_curious(peer),
                actions: pass_on(self.curious_about(peer), peer),
            },
            SwimMessageView::KnownPeers(peers) => self.learn_all(peers).idle(),
            SwimMessageView::Ping => Step {
                member: self.put(sender, PeerState::Known),
                actions: seq![ActionView::Send(sender, SwimMessageView::Ack(self.self_addr))],
            },
            SwimMessageView::PingRequest(peer) => Step {
                member: Member {
                    curious_peers: self.curious_peers.insert(
                        peer,
                        with(self.curious_about(peer), sender),
                    ),
                    ..self
                },
                actions: seq![ActionView::Send(peer, SwimMessageView::Ping)],
            },
            _ => self.idle(),
        }
    }

    /// The answers to messages to everyone, one after the other.
    pub open spec fn on_broadcasts(self, msgs: Seq<SwimMessageView>) -> Step
        decreases msgs.len(),
    {
        if msgs.len() == 0 {
            self.idle()
        } else {
            let before = self.on_broadcasts(msgs.drop_last());
            let step = before.member.on_broadcast(msgs.last());
            Step { member: step.member, actions: before.actions + step.actions }
        }
    }

    /// The answers to messages to us, one after the other.
    pub open spec fn on_messages(self, msgs: Seq<(Peer, SwimMessageView)>) -> Step
        decreases msgs.len(),
    {
        if msgs.len() == 0 {
            self.idle()
        } else {
            let before = self.on_messages(msgs.drop_last());
            let step = before.member.on_message(msgs.last().0, msgs.last().1);
            Step { member: step.member, actions: before.actions + step.actions }
        }
    }

    /// The peers that we may ping or ask for help: those that are believed to be up, but for
    /// ourselves.
    pub open spec fn is_target(self) -> spec_fn(Peer) -> bool {
        |peer: Peer| self.peers[peer] is Known && peer != self.self_addr
    }

    /// The peers whom we can ask for help, in the order in which they became known.
    pub open spec fn helpers(self) -> Seq<Peer> {
        self.order.filter(self.is_target())
    }

    /// The peers that we may ping, in the order in which they became known.
    pub open spec fn targets(self) -> Seq<Peer> {
        self.order.filter(self.is_target())
    }

    /// The peers that have not answered our ping in time.
    pub open spec fn is_suspected(self, now: Instant) -> spec_fn(Peer) -> bool {
        |peer: Peer|
            match self.peers[peer] {
                PeerState::WaitingForPing(sent) => elapsed(now, sent) >= PING_TIMEOUT,
                _ => false,
            }
    }

    /// The peers that have not answered the pings of those whom we asked for help, either.
    pub open spec fn is_lost(self, now: Instant) -> spec_fn(Peer) -> bool {
        |peer: Peer|
            match self.peers[peer] {
                PeerState::WaitingForIndirectPing(sent) => elapsed(now, sent) >= PING_TIMEOUT,
                _ => false,
            }
    }

    /// The peers about which we ask others: those that are suspected, if there is anyone to ask.
    pub open spec fn is_asked_about(self, now: Instant) -> spec_fn(Peer) -> bool {
        |peer: Peer| self.is_suspected(now)(peer) && self.helpers().len() > 0
    }

    /// The peers on which we give up: those that are lost, and those that are suspected if there is
    /// no one to ask about them.
    pub open spec fn is_given_up(self, now: Instant) -> spec_fn(Peer) -> bool {
        |peer: Peer|
            self.is_lost(now)(peer) || (self.is_suspected(now)(peer) && self.helpers().len() == 0)
    }

    /// All `peers` get into the given state.
    pub open spec fn put_all(self, peers: Seq<Peer>, state: PeerState) -> Member
        decreases peers.len(),
    {
        if peers.len() == 0 {
            self
        } else {
            self.put_all(peers.drop_last(), state).put(peers.last(), state)
        }
    }

    /// All `peers` are forgotten, with those who want to hear of them.
    pub open spec fn forget_all(self, peers: Seq<Peer>) -> Member
        decreases peers.len(),
    {
        if peers.len() == 0 {
            self
        } else {
            self.forget_all(peers.drop_last()).forget(peers.last()).without_curious(peers.last())
        }
    }

    /// What a member does about the peers that do not answer, with `asked` saying whom it asks about
    /// each of those about which it asks.
    pub open spec fn on_suspicion(self, now: Instant, asked: Seq<Seq<Peer>>) -> Step {
        let asked_about = self.order.filter(self.is_asked_about(now));
        let given_up = self.order.filter(self.is_given_up(now));
        Step {
            member: self.put_all(asked_about, PeerState::WaitingForIndirectPing(now)).forget_all(
                given_up,
            ),
            actions: ask_about_all(asked_about, asked) + announce_failed(given_up),
        }
    }

    /// About each peer a few of the helpers are asked: as many as there are to be, or all if there
    /// are not so many.
    pub open spec fn are_samples(self, now: Instant, asked: Seq<Seq<Peer>>) -> bool {
        &&& asked.len() == self.order.filter(self.is_asked_about(now)).len()
        &&& forall|i: int|
            0 <= i < asked.len() ==> sample_of(
                self.helpers(),
                #[trigger] asked[i],
                NUM_INDIRECT_PING_PEERS as nat,
            )
    }

    /// The given peer, if there is one, is pinged.
    pub open spec fn on_ping(self, target: Option<Peer>, now: Instant) -> Step {
        match target {
            Some(peer) => Step {
                member: self.put(peer, PeerState::WaitingForPing(now)),
                actions: seq![ActionView::Send(peer, SwimMessageView::Ping)],
            },
            None => self.idle(),
        }
    }

    /// `target` may be the peer that is pinged: one of those that are believed to be up, but for
    /// ourselves, and no one only if there is none.
    pub open spec fn may_ping(self, target: Option<Peer>) -> bool {
        match target {
            Some(peer) => self.targets().contains(peer),
            None => self.targets().len() == 0,
        }
    }

    /// A round: we announce ourselves, if that is due, answer to what has come in, look after the
    /// peers that do not answer, and ping one of the others.
    pub open spec fn round(
        self,
        tick_start: Instant,
        now: Instant,
        broadcasts: Seq<SwimMessageView>,
        messages: Seq<(Peer, SwimMessageView)>,
        asked: Seq<Seq<Peer>>,
        target: Option<Peer>,
    ) -> Step {
        let announced = self.on_tick(tick_start);
        let heard = announced.member.on_broadcasts(broadcasts);
        let answered = heard.member.on_messages(messages);
        let suspected = answered.member.on_suspicion(now, asked);
        let pinged = suspected.member.on_ping(target, now);
        Step {
            member: pinged.member,
            actions: announced.actions + heard.actions + answered.actions + suspected.actions
                + pinged.actions,
        }
    }

    /// The choices that are left to chance in a round are among those that there are.
    pub open spec fn may_choose(
        self,
        tick_start: Instant,
        now: Instant,
        broadcasts: Seq<SwimMessageView>,
        messages: Seq<(Peer, SwimMessageView)>,
        asked: Seq<Seq<Peer>>,
        target: Option<Peer>,
    ) -> bool {
        let announced = self.on_tick(tick_start);
        let heard = announced.member.on_broadcasts(broadcasts);
        let answered = heard.member.on_messages(messages);
        let suspected = answered.member.on_suspicion(now, asked);
        &&& answered.member.are_samples(now, asked)
        &&& suspected.member.may_ping(target)
    }
}

/// The passing on of the news that `peer` is there.
pub open spec fn pass_on(observers: Seq<Peer>, peer: Peer) -> Seq<ActionView> {
    observers.map_values(|observer: Peer| ActionView::Send(observer, SwimMessageView::Ack(peer)))
}

/// The requests to ping `peer`, one to each of those whom we ask.
pub open spec fn ask_about(peer: Peer, asked: Seq<Peer>) -> Seq<ActionView> {
    asked.map_values(|helper: Peer| ActionView::Send(helper, SwimMessageView::PingRequest(peer)))
}

/// The requests to ping the peers, with `asked` saying whom we ask about each of them.
pub open spec fn ask_about_all(peers: Seq<Peer>, asked: Seq<Seq<Peer>>) -> Seq<ActionView>
    decreases peers.len(),
{
    if peers.len() == 0 {
        Seq::empty()
    } else {
        ask_about_all(peers.drop_last(), asked) + ask_about(peers.last(), asked[peers.len() - 1])
    }
}

/// The announcements that the peers are down.
pub open spec fn announce_failed(peers: Seq<Peer>) -> Seq<ActionView> {
    peers.map_values(|peer: Peer| ActionView::Broadcast(SwimMessageView::Failed(peer)))
}

/// The text of which the fingerprint is the hash: the addresses in words, in order, with commas
/// between them.
pub open spec fn hosts_text(order: Seq<Peer>) -> Seq<char> {
    comma_separated(order.map_values(|peer: Peer| addr_text(peer)).sort_by(text_order()))
}

/// What `sha256::digest` returns for a text: the SHA-256 hash of its bytes in hexadecimal.
pub uninterp spec fn sha256_of(text: Seq<char>) -> Seq<char>;

/// `sha256::digest`: the hash depends on the text alone.
#[verifier::external_body]
fn digest(text: &String) -> (r: String)
    ensures
        r@ == sha256_of(text@),
{
    sha256::digest(text)
}

/// A member of a mesh.
#[derive(Debug)]
pub struct Gossip {
    rng: ThreadRng,
    self_addr: SocketAddr,
    known_peers: VecMap<Peer, PeerState>,
    curious_peers: VecMap<Peer, Vec<Peer>>,
    /// When we last announced ourselves.
    last_broadcast_time: Option<Instant>,
}

impl View for Gossip {
    type V = Member;

    closed spec fn view(&self) -> Member {
        Member {
            self_addr: self.self_addr,
            peers: self.known_peers@,
            order: self.known_peers.order(),
            curious_peers: lists(self.curious_peers@),
            last_broadcast_time: self.last_broadcast_time,
        }
    }
}

/// The content of the messages and their senders.
pub open spec fn message_views(msgs: Seq<(Peer, SwimMessage)>) -> Seq<(Peer, SwimMessageView)> {
    msgs.map_values(|msg: (Peer, SwimMessage)| (msg.0, msg.1@))
}

/// The content of the messages.
pub open spec fn broadcast_views(msgs: Seq<SwimMessage>) -> Seq<SwimMessageView> {
    msgs.map_values(|msg: SwimMessage| msg@)
}

/// The lists that the vectors hold.
pub open spec fn vec_lists(lists: Seq<Vec<Peer>>) -> Seq<Seq<Peer>> {
    lists.map_values(|list: Vec<Peer>| list@)
}

/// `actions`, then `action`.
fn push_action(actions: &mut Vec<Action>, action: Action)
    ensures
        action_views(final(actions)@) == action_views(old(actions)@).push(action@),
{
    actions.push(action);
    assert(action_views(actions@) =~= action_views(old(actions)@).push(action@));
}

impl Gossip {
    /// No peer is listed twice.
    pub closed spec fn wf(&self) -> bool {
        &&& self.known_peers.wf()
        &&& self.curious_peers.wf()
    }

    /// The order lists each known peer, and each of them once.
    pub proof fn lemma_order(&self)
        requires
            self.wf(),
        ensures
            self@.order.no_duplicates(),
            self@.peers.dom() == self@.order.to_set(),
            forall|peer: Peer| #[trigger] self@.peers.contains_key(peer) <==> self@.order.contains(
                peer,
            ),
    {
        self.known_peers.lemma_order();
    }

    /// A member with the given address, which knows of no one but itself.
    pub fn new(self_addr: SocketAddr, rng: ThreadRng) -> (r: Gossip)
        ensures
            r.wf(),
            r@ == (Member {
                self_addr,
                peers: map![self_addr => PeerState::Known],
                order: seq![self_addr],
                curious_peers: Map::empty(),
                last_broadcast_time: None,
            }),
    {
        let mut known_peers: VecMap<Peer, PeerState> = VecMap::new();
        known_peers.insert(self_addr, PeerState::Known);
        let r = Gossip {
            rng,
            self_addr,
            known_peers,
            curious_peers: VecMap::new(),
            last_broadcast_time: None,
        };
        assert(r@.curious_peers =~= Map::<Peer, Seq<Peer>>::empty());
        assert(r@.order =~= seq![self_addr]);
        assert(r@.peers =~= map![self_addr => PeerState::Known]);
        r
    }

    /// The text of which the fingerprint is the hash.
    pub fn fingerprint_text(&self) -> (r: String)
        requires
            self.wf(),
        ensures
            r@ == hosts_text(self@.order),
    {
        let peers = self.known_peers.keys();
        let ghost texts = peers@.map_values(|peer: Peer| addr_text(peer));
        let mut hosts: Vec<String> = Vec::new();
        let mut i: usize = 0;
        assert(text_views(hosts@) =~= texts.take(0));
        while i < peers.len()
            invariant
                i <= peers@.len(),
                texts == peers@.map_values(|peer: Peer| addr_text(peer)),
                text_views(hosts@) == texts.take(i as int),
            decreases peers@.len() - i,
        {
            let ghost before = hosts@;
            let host = peers[i].to_string();
            let ghost text = host@;
            hosts.push(host);
            proof {
                assert(text_views(hosts@) =~= text_views(before).push(text));
                assert(texts.take(i + 1) =~= texts.take(i as int).push(text));
            }
            i += 1;
        }
        assert(texts.take(i as int) =~= texts);
        let sorted = sort_texts(hosts);
        join_texts(&sorted)
    }

    /// A SHA-256 hash of the peers that we know of. They are put in order first, so that it does not
    /// depend on the order in which they became known.
    pub fn get_fingerprint(&self) -> (r: String)
        requires
            self.wf(),
        ensures
            r@ == sha256_of(hosts_text(self@.order)),
    {
        let text = self.fingerprint_text();
        digest(&text)
    }

    /// The address that we use for one-to-one messages.
    pub fn get_self_addr(&self) -> (r: SocketAddr)
        ensures
            r == self@.self_addr,
    {
        self.self_addr
    }

    /// What we know of each peer.
    pub fn get_peers(&self) -> (r: &VecMap<Peer, PeerState>)
        requires
            self.wf(),
        ensures
            r.wf(),
            r@ == self@.peers,
            r.order() == self@.order,
    {
        &self.known_peers
    }

    /// Announces this member, if that is due.
    pub fn maybe_broadcast_join(&mut self, now: Instant) -> (r: Vec<Action>)
        requires
            old(self).wf(),
        ensures
            final(self).wf(),
            (Step { member: final(self)@, actions: action_views(r@) }) == old(self)@.on_tick(now),
    {
        let mut actions: Vec<Action> = Vec::new();
        assert(action_views(actions@) =~= Seq::<ActionView>::empty());
        let should_broadcast = match self.last_broadcast_time {
            Some(last_broadcast_time) => self.known_peers.len() == 1 && duration_since(
                now,
                last_broadcast_time,
            ) >= REBROADCAST_INTERVAL,
            None => true,
        };
        if should_broadcast {
            self.last_broadcast_time = Some(now);
            push_action(&mut actions, Action::Broadcast(SwimMessage::Join(self.self_addr)));
            assert(action_views(actions@) =~= seq![
                ActionView::Broadcast(SwimMessageView::Join(self.self_addr)),
            ]);
        }
        actions
    }

    /// Answers to a message to everyone.
    pub fn handle_broadcast(&mut self, msg: SwimMessage) -> (r: Vec<Action>)
        requires
            old(self).wf(),
        ensures
            final(self).wf(),
            (Step { member: final(self)@, actions: action_views(r@) }) == old(self)@.on_broadcast(
                msg@,
            ),
    {
        let ghost member = self@;
        let mut actions: Vec<Action> = Vec::new();
        assert(action_views(actions@) =~= Seq::<ActionView>::empty());
        match msg {
            SwimMessage::Failed(peer) => {
                if peer != self.self_addr {
                    self.known_peers.remove(&peer);
                }
            },
            SwimMessage::Join(peer) => {
                if peer != self.self_addr {
                    self.known_peers.insert(peer, PeerState::Known);
                    let other_peers = self.others(&peer);
                    if other_peers.len() > 0 {
                        let ghost others = other_peers@;
                        push_action(
                            &mut actions,
                            Action::Send(peer, SwimMessage::KnownPeers(other_peers)),
                        );
                        assert(action_views(actions@) =~= seq![
                            ActionView::Send(peer, SwimMessageView::KnownPeers(others)),
                        ]);
                    }
                }
            },
            _ => {},
        }
        actions
    }

    /// The peers that we know of, but for the given one.
    fn others(&self, peer: &Peer) -> (r: Vec<Peer>)
        requires
            self.wf(),
        ensures
            r@ == self@.order.filter(other_than(*peer)),
    {
        let peers = self.known_peers.keys();
        let mut r: Vec<Peer> = Vec::new();
        let mut i: usize = 0;
        assert(peers@.take(0).filter(other_than(*peer)) =~= Seq::<Peer>::empty()) by {
            reveal(Seq::filter);
        }
        while i < peers.len()
            invariant
                i <= peers@.len(),
                r@ == peers@.take(i as int).filter(other_than(*peer)),
            decreases peers@.len() - i,
        {
            proof {
                lemma_filter_step(peers@, other_than(*peer), i as int);
            }
            if peers[i] != *peer {
                r.push(peers[i]);
            }
            i += 1;
        }
        assert(peers@.take(i as int) =~= peers@);
        r
    }

    /// Answers to a message to us.
    pub fn handle_message(&mut self, sender: Peer, msg: SwimMessage) -> (r: Vec<Action>)
        requires
            old(self).wf(),
        ensures
            final(self).wf(),
            (Step { member: final(self)@, actions: action_views(r@) }) == old(self)@.on_message(
                sender,
                msg@,
            ),
    {
        let ghost member = self@;
        let mut actions: Vec<Action> = Vec::new();
        assert(action_views(actions@) =~= Seq::<ActionView>::empty());
        match msg {
            SwimMessage::Ack(peer) => {
                self.known_peers.insert(peer, PeerState::Known);
                let removed = self.curious_peers.remove(&peer);
                assert(self@.curious_peers =~= member.curious_peers.remove(peer));
                if let Some(observers) = removed {
                    assert(member.curious_about(peer) == observers@);
                    let mut i: usize = 0;
                    assert(action_views(actions@) =~= pass_on(observers@.take(0), peer));
                    while i < observers.len()
                        invariant
                            i <= observers@.len(),
                            action_views(actions@) == pass_on(observers@.take(i as int), peer),
                        decreases observers@.len() - i,
                    {
                        push_action(
                            &mut actions,
                            Action::Send(observers[i], SwimMessage::Ack(peer)),
                        );
                        assert(action_views(actions@) =~= pass_on(observers@.take(i + 1), peer));
                        i += 1;
                    }
                    assert(observers@.take(i as int) =~= observers@);
                } else {
                    assert(action_views(actions@) =~= pass_on(member.curious_about(peer), peer));
                }
            },
            SwimMessage::KnownPeers(peers) => {
                let mut i: usize = 0;
                assert(peers@.take(0) =~= Seq::<Peer>::empty());
                while i < peers.len()
                    invariant
                        i <= peers@.len(),
                        self.wf(),
                        self@ == member.learn_all(peers@.take(i as int)),
                    decreases peers@.len() - i,
                {
                    assert(peers@.take(i + 1).drop_last() =~= peers@.take(i as int));
                    if !self.known_peers.contains_key(&peers[i]) {
                        self.known_peers.insert(peers[i], PeerState::Known);
                    }
                    i += 1;
                }
                assert(peers@.take(i as int) =~= peers@);
            },
            SwimMessage::Ping => {
                push_action(&mut actions, Action::Send(sender, SwimMessage::Ack(self.self_addr)));
                self.known_peers.insert(sender, PeerState::Known);
                assert(action_views(actions@) =~= seq![
                    ActionView::Send(sender, SwimMessageView::Ack(self.self_addr)),
                ]);
            },
            SwimMessage::PingRequest(peer) => {
                let mut observers: Vec<Peer> = match self.curious_peers.remove(&peer) {
                    Some(observers) => observers,
                    None => Vec::new(),
                };
                assert(observers@ =~= member.curious_about(peer));
                if !contains_peer(&observers, &sender) {
                    observers.push(sender);
                }
                let ghost list = observers@;
                self.curious_peers.insert(peer, observers);
                assert(self@.curious_peers =~= member.curious_peers.insert(peer, list));
                push_action(&mut actions, Action::Send(peer, SwimMessage::Ping));
                assert(action_views(actions@) =~= seq![
                    ActionView::Send(peer, SwimMessageView::Ping),
                ]);
            },
            _ => {},
        }
        actions
    }
}

/// The judgement on the peers of a member.
pub open spec fn is_judgement(j: Judgement, member: Member, now: Instant) -> bool {
    &&& j.helpers@ == member.helpers()
    &&& j.asked_about@ == member.order.filter(member.is_asked_about(now))
    &&& j.given_up@ == member.order.filter(member.is_given_up(now))
}

impl Gossip {
    /// The peers that are believed to be up, but for ourselves.
    fn other_known_peers(&self) -> (r: Vec<Peer>)
        requires
            self.wf(),
        ensures
            r@ == self@.helpers(),
            r@ == self@.targets(),
    {
        let ghost member = self@;
        let ghost pred = member.is_target();
        let entries = self.known_peers.iter();
        let mut r: Vec<Peer> = Vec::new();
        let mut i: usize = 0;
        assert(member.order.take(0).filter(pred) =~= Seq::<Peer>::empty()) by {
            reveal(Seq::filter);
        }
        while i < entries.len()
            invariant
                i <= entries@.len(),
                member == self@,
                entries@.len() == member.order.len(),
                forall|j: int|
                    0 <= j < entries@.len() ==> {
                        &&& (#[trigger] entries@[j]).0 == member.order[j]
                        &&& entries@[j].1 == member.peers[member.order[j]]
                    },
                pred == member.is_target(),
                r@ == member.order.take(i as int).filter(pred),
            decreases entries@.len() - i,
        {
            let entry = &entries[i];
            proof {
                lemma_filter_step(member.order, pred, i as int);
            }
            if let PeerState::Known = entry.1 {
                if entry.0 != self.self_addr {
                    r.push(entry.0);
                }
            }
            i += 1;
        }
        assert(member.order.take(i as int) =~= member.order);
        r
    }

    /// Finds the peers that do not answer.
    pub fn judge_peers(&self, now: Instant) -> (r: Judgement)
        requires
            self.wf(),
        ensures
            is_judgement(r, self@, now),
    {
        let ghost member = self@;
        let helpers = self.other_known_peers();
        let ghost asked_pred = member.is_asked_about(now);
        let ghost given_up_pred = member.is_given_up(now);
        let mut asked_about: Vec<Peer> = Vec::new();
        let mut given_up: Vec<Peer> = Vec::new();
        let entries = self.known_peers.iter();
        let mut i: usize = 0;
        proof {
            reveal(Seq::filter);
            assert(member.order.take(0).filter(asked_pred) =~= Seq::<Peer>::empty());
            assert(member.order.take(0).filter(given_up_pred) =~= Seq::<Peer>::empty());
        }
        while i < entries.len()
            invariant
                i <= entries@.len(),
                entries@.len() == member.order.len(),
                forall|j: int|
                    0 <= j < entries@.len() ==> {
                        &&& (#[trigger] entries@[j]).0 == member.order[j]
                        &&& entries@[j].1 == member.peers[member.order[j]]
                    },
                helpers@ == member.helpers(),
                asked_pred == member.is_asked_about(now),
                given_up_pred == member.is_given_up(now),
                asked_about@ == member.order.take(i as int).filter(asked_pred),
                given_up@ == member.order.take(i as int).filter(given_up_pred),
            decreases entries@.len() - i,
        {
            let entry = &entries[i];
            proof {
                lemma_filter_step(member.order, asked_pred, i as int);
                lemma_filter_step(member.order, given_up_pred, i as int);
            }
            match entry.1 {
                PeerState::Known => {},
                PeerState::WaitingForPing(sent) => {
                    if duration_since(now, sent) >= PING_TIMEOUT {
                        if helpers.len() == 0 {
                            given_up.push(entry.0);
                        } else {
                            asked_about.push(entry.0);
                        }
                    }
                },
                PeerState::WaitingForIndirectPing(sent) => {
                    if duration_since(now, sent) >= PING_TIMEOUT {
                        given_up.push(entry.0);
                    }
                },
            }
            i += 1;
        }
        assert(member.order.take(i as int) =~= member.order);
        Judgement { helpers, asked_about, given_up }
    }

    /// Acts on a judgement, with `asked` saying whom to ask about each of the peers about which we
    /// ask: asks them, gives up on the lost peers and tells the mesh so.
    pub fn act_on_judgement(&mut self, judgement: Judgement, asked: Vec<Vec<Peer>>, now: Instant) -> (r:
        Vec<Action>)
        requires
            old(self).wf(),
            is_judgement(judgement, old(self)@, now),
            asked@.len() == judgement.asked_about@.len(),
        ensures
            final(self).wf(),
            (Step { member: final(self)@, actions: action_views(r@) }) == old(self)@.on_suspicion(
                now,
                vec_lists(asked@),
            ),
    {
        let ghost member = self@;
        let ghost lists = vec_lists(asked@);
        let ghost state = PeerState::WaitingForIndirectPing(now);
        let Judgement { helpers: _, asked_about, given_up } = judgement;
        let mut actions: Vec<Action> = Vec::new();

        let mut i: usize = 0;
        assert(asked_about@.take(0) =~= Seq::<Peer>::empty());
        assert(action_views(actions@) =~= Seq::<ActionView>::empty());
        while i < asked_about.len()
            invariant
                i <= asked_about@.len(),
                asked@.len() == asked_about@.len(),
                lists == vec_lists(asked@),
                action_views(actions@) == ask_about_all(asked_about@.take(i as int), lists),
            decreases asked_about@.len() - i,
        {
            let peer = asked_about[i];
            let helpers = &asked[i];
            let ghost before = action_views(actions@);
            let mut j: usize = 0;
            assert(before + ask_about(peer, helpers@.take(0)) =~= before);
            while j < helpers.len()
                invariant
                    j <= helpers@.len(),
                    action_views(actions@) == before + ask_about(peer, helpers@.take(j as int)),
                decreases helpers@.len() - j,
            {
                push_action(&mut actions, Action::Send(helpers[j], SwimMessage::PingRequest(peer)));
                assert(action_views(actions@) =~= before + ask_about(peer, helpers@.take(j + 1)));
                j += 1;
            }
            assert(helpers@.take(j as int) =~= helpers@);
            assert(asked_about@.take(i + 1).drop_last() =~= asked_about@.take(i as int));
            i += 1;
        }
        assert(asked_about@.take(i as int) =~= asked_about@);

        let mut i: usize = 0;
        while i < asked_about.len()
            invariant
                i <= asked_about@.len(),
                self.wf(),
                state == PeerState::WaitingForIndirectPing(now),
                self@ == member.put_all(asked_about@.take(i as int), state),
            decreases asked_about@.len() - i,
        {
            self.known_peers.insert(asked_about[i], PeerState::WaitingForIndirectPing(now));
            assert(asked_about@.take(i + 1).drop_last() =~= asked_about@.take(i as int));
            i += 1;
        }
        assert(asked_about@.take(i as int) =~= asked_about@);

        let ghost waiting = self@;
        let ghost asked_actions = action_views(actions@);
        let mut i: usize = 0;
        assert(given_up@.take(0) =~= Seq::<Peer>::empty());
        assert(asked_actions + announce_failed(given_up@.take(0)) =~= asked_actions);
        while i < given_up.len()
            invariant
                i <= given_up@.len(),
                self.wf(),
                self@ == waiting.forget_all(given_up@.take(i as int)),
                action_views(actions@) == asked_actions + announce_failed(given_up@.take(i as int)),
            decreases given_up@.len() - i,
        {
            let peer = given_up[i];
            let ghost before = self@.curious_peers;
            self.known_peers.remove(&peer);
            self.curious_peers.remove(&peer);
            push_action(&mut actions, Action::Broadcast(SwimMessage::Failed(peer)));
            proof {
                assert(self@.curious_peers =~= before.remove(peer));
                assert(given_up@.take(i + 1).drop_last() =~= given_up@.take(i as int));
                assert(action_views(actions@) =~= asked_actions + announce_failed(
                    given_up@.take(i + 1),
                ));
            }
            i += 1;
        }
        assert(given_up@.take(i as int) =~= given_up@);
        actions
    }

    /// Looks after the peers that do not answer. Whom we ask about them is a matter of chance.
    pub fn handle_suspected_peers(&mut self, now: Instant) -> (r: Vec<Action>)
        requires
            old(self).wf(),
        ensures
            final(self).wf(),
            exists|asked: Seq<Seq<Peer>>| #[trigger]
                old(self)@.are_samples(now, asked) && (Step {
                    member: final(self)@,
                    actions: action_views(r@),
                }) == old(self)@.on_suspicion(now, asked),
    {
        let judgement = self.judge_peers(now);
        let mut asked: Vec<Vec<Peer>> = Vec::new();
        while asked.len() < judgement.asked_about.len()
            invariant
                asked@.len() <= judgement.asked_about@.len(),
                self.wf(),
                self@ == old(self)@,
                forall|i: int|
                    0 <= i < asked@.len() ==> sample_of(
                        judgement.helpers@,
                        (#[trigger] asked@[i])@,
                        NUM_INDIRECT_PING_PEERS as nat,
                    ),
            decreases judgement.asked_about@.len() - asked@.len(),
        {
            let sample = thread_choose_multiple(
                &mut self.rng,
                judgement.helpers.as_slice(),
                NUM_INDIRECT_PING_PEERS,
            );
            asked.push(sample);
        }
        assert(self@.are_samples(now, vec_lists(asked@)));
        self.act_on_judgement(judgement, asked, now)
    }

    /// Pings the given peer, if there is one, and waits for its answer from now on.
    pub fn ping_peer(&mut self, target: Option<Peer>, now: Instant) -> (r: Vec<Action>)
        requires
            old(self).wf(),
        ensures
            final(self).wf(),
            (Step { member: final(self)@, actions: action_views(r@) }) == old(self)@.on_ping(
                target,
                now,
            ),
    {
        let mut actions: Vec<Action> = Vec::new();
        assert(action_views(actions@) =~= Seq::<ActionView>::empty());
        if let Some(peer) = target {
            self.known_peers.insert(peer, PeerState::WaitingForPing(now));
            push_action(&mut actions, Action::Send(peer, SwimMessage::Ping));
            assert(action_views(actions@) =~= seq![ActionView::Send(peer, SwimMessageView::Ping)]);
        }
        actions
    }

    /// Pings one of the peers that are believed to be up. Which one is a matter of chance.
    pub fn ping_random_peer(&mut self, now: Instant) -> (r: Vec<Action>)
        requires
            old(self).wf(),
        ensures
            final(self).wf(),
            exists|target: Option<Peer>| #[trigger]
                old(self)@.may_ping(target) && (Step {
                    member: final(self)@,
                    actions: action_views(r@),
                }) == old(self)@.on_ping(target, now),
    {
        let targets = self.other_known_peers();
        let target = thread_choose_one(&mut self.rng, targets.as_slice());
        assert(self@ == old(self)@);
        assert(self@.may_ping(target));
        self.ping_peer(target, now)
    }

    /// Runs the next round of mesh maintenance, with the messages that have come in since the last
    /// one.
    pub fn tick(
        &mut self,
        tick_start: Instant,
        now: Instant,
        broadcasts: Vec<SwimMessage>,
        messages: Vec<(Peer, SwimMessage)>,
    ) -> (r: Vec<Action>)
        requires
            old(self).wf(),
        ensures
            final(self).wf(),
            exists|asked: Seq<Seq<Peer>>, target: Option<Peer>|
                #[trigger] old(self)@.may_choose(
                    tick_start,
                    now,
                    broadcast_views(broadcasts@),
                    message_views(messages@),
                    asked,
                    target,
                ) && (Step { member: final(self)@, actions: action_views(r@) }) == old(self)@.round(
                    tick_start,
                    now,
                    broadcast_views(broadcasts@),
                    message_views(messages@),
                    asked,
                    target,
                ),
    {
        let ghost heard_msgs = broadcast_views(broadcasts@);
        let ghost msgs = message_views(messages@);
        let mut actions = self.maybe_broadcast_join(tick_start);
        let heard = self.handle_broadcasts(broadcasts);
        append_actions(&mut actions, heard);
        let answered = self.handle_messages(messages);
        append_actions(&mut actions, answered);
        let ghost member = self@;
        let suspected = self.handle_suspected_peers(now);
        let ghost asked = choose|asked: Seq<Seq<Peer>>| #[trigger]
            member.are_samples(now, asked) && (Step {
                member: self@,
                actions: action_views(suspected@),
            }) == member.on_suspicion(now, asked);
        append_actions(&mut actions, suspected);
        let ghost member2 = self@;
        let pinged = self.ping_random_peer(now);
        let ghost target = choose|target: Option<Peer>| #[trigger]
            member2.may_ping(target) && (Step {
                member: self@,
                actions: action_views(pinged@),
            }) == member2.on_ping(target, now);
        append_actions(&mut actions, pinged);
        assert(old(self)@.may_choose(tick_start, now, heard_msgs, msgs, asked, target));
        actions
    }

    /// Answers to messages to everyone, one after the other.
    pub fn handle_broadcasts(&mut self, broadcasts: Vec<SwimMessage>) -> (r: Vec<Action>)
        requires
            old(self).wf(),
        ensures
            final(self).wf(),
            (Step { member: final(self)@, actions: action_views(r@) }) == old(self)@.on_broadcasts(
                broadcast_views(broadcasts@),
            ),
    {
        let ghost member = self@;
        let ghost views = broadcast_views(broadcasts@);
        let mut actions: Vec<Action> = Vec::new();
        let mut pending = broadcasts;
        let ghost mut i: int = 0;
        assert(action_views(actions@) =~= Seq::<ActionView>::empty());
        assert(views.take(0) =~= Seq::<SwimMessageView>::empty());
        assert(views.skip(0) =~= views);
        while pending.len() > 0
            invariant
                0 <= i,
                i + pending@.len() == views.len(),
                broadcast_views(pending@) == views.skip(i),
                self.wf(),
                (Step { member: self@, actions: action_views(actions@) }) == member.on_broadcasts(
                    views.take(i),
                ),
            decreases pending@.len(),
        {
            let ghost before = pending@;
            let msg = pending.remove(0);
            proof {
                assert(broadcast_views(before)[0] == msg@);
                assert(broadcast_views(pending@) =~= broadcast_views(before).skip(1));
                assert(views.skip(i).skip(1) =~= views.skip(i + 1));
                assert(views.take(i + 1).drop_last() =~= views.take(i));
                assert(views.take(i + 1).last() == msg@);
            }
            let answers = self.handle_broadcast(msg);
            append_actions(&mut actions, answers);
            proof {
                i = i + 1;
            }
        }
        assert(views.take(i) =~= views);
        actions
    }

    /// Answers to messages to us, one after the other.
    pub fn handle_messages(&mut self, messages: Vec<(Peer, SwimMessage)>) -> (r: Vec<Action>)
        requires
            old(self).wf(),
        ensures
            final(self).wf(),
            (Step { member: final(self)@, actions: action_views(r@) }) == old(self)@.on_messages(
                message_views(messages@),
            ),
    {
        let ghost member = self@;
        let ghost views = message_views(messages@);
        let mut actions: Vec<Action> = Vec::new();
        let mut pending = messages;
        let ghost mut i: int = 0;
        assert(action_views(actions@) =~= Seq::<ActionView>::empty());
        assert(views.take(0) =~= Seq::<(Peer, SwimMessageView)>::empty());
        assert(views.skip(0) =~= views);
        while pending.len() > 0
            invariant
                0 <= i,
                i + pending@.len() == views.len(),
                message_views(pending@) == views.skip(i),
                self.wf(),
                (Step { member: self@, actions: action_views(actions@) }) == member.on_messages(
                    views.take(i),
                ),
            decreases pending@.len(),
        {
            let ghost before = pending@;
            let (sender, msg) = pending.remove(0);
            proof {
                assert(message_views(before)[0] == (sender, msg@));
                assert(message_views(pending@) =~= message_views(before).skip(1));
                assert(views.skip(i).skip(1) =~= views.skip(i + 1));
                assert(views.take(i + 1).drop_last() =~= views.take(i));
                assert(views.take(i + 1).last() == (sender, msg@));
            }
            let answers = self.handle_message(sender, msg);
            append_actions(&mut actions, answers);
            proof {
                i = i + 1;
            }
        }
        assert(views.take(i) =~= views);
        actions
    }
}

/// `actions`, then `more`.
fn append_actions(actions: &mut Vec<Action>, more: Vec<Action>)
    ensures
        action_views(final(actions)@) == action_views(old(actions)@) + action_views(more@),
{
    let mut more = more;
    let ghost added = more@;
    actions.append(&mut more);
    assert(action_views(actions@) =~= action_views(old(actions)@) + action_views(added));
}

/// How long to sleep before the next round, if at all: for what is left of the period, if that is at
/// least a millisecond. A round that took longer than the period is followed by the next at once.
pub fn required_delay(time_since_tick_start: Duration) -> (r: Option<Duration>)
    ensures
        r == if IDEAL_TICK_DURATION - time_since_tick_start >= MILLISECOND {
            Some((IDEAL_TICK_DURATION - time_since_tick_start) as u128)
        } else {
            None
        },
{
    if time_since_tick_start > IDEAL_TICK_DURATION {
        return None;
    }
    let required_delay: u128 = IDEAL_TICK_DURATION - time_since_tick_start;
    if required_delay / MILLISECOND > 0 {
        Some(required_delay)
    } else {
        None
    }
}

} // verus!
