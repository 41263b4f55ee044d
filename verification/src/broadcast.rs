//! How an instance answers to messages to the entire mesh.
use crate::action::{Action, ActionView};
use crate::addr::{Peer, SocketAddr};
use crate::identity::bytes_of;
use crate::kaboodle::{KaboodleInner, Node};
use crate::map::{lemma_take_more, VecMap};
use crate::random::Draw;
use crate::structs::{
    identities, KnownPeers, PeerInfo, PeerInfoView, PeerState, ProbeResponse, SwimBroadcast,
    SwimBroadcastView, SwimEnvelope,
};
use crate::table::{forget_peer, lemma_table, put_peer, table, Table};
use crate::time::{Duration, Instant};
use crate::trimming::{empty_list_fits, is_fit};
use bytes::Bytes;
use vstd::prelude::*;

verus! {

/// The chance, in percent, with which an instance that knows of so many peers answers to a
/// broadcast: certain if no one but itself and the sender is there, and at least one in a hundred.
pub open spec fn response_percent(num_known: nat) -> nat {
    if num_known <= 2 {
        100
    } else {
        let others = num_known - 2;
        let percent = 100 - others * others;
        if percent > 1 {
            percent as nat
        } else {
            1
        }
    }
}

/// The chance, in percent, with which an instance that knows of so many peers answers to a
/// broadcast. Everyone in the mesh receives it, so whoever sent it would be buried in answers if
/// everyone answered.
pub fn percent_chance_of_response(num_known: usize) -> (r: u32)
    ensures
        r == response_percent(num_known as nat),
        1 <= r <= 100,
{
    // minus ourselves and the sender
    if num_known <= 2 {
        return 100;
    }
    let others: usize = num_known - 2;
    if others >= 10 {
        assert(others * others >= 100) by (nonlinear_arith)
            requires
                others >= 10,
        ;
        1
    } else {
        assert(1 <= others * others <= 81) by (nonlinear_arith)
            requires
                1 <= others <= 9,
        ;
        let few: u32 = others as u32;
        100 - few * few
    }
}

/// Whether an instance that knows of so many peers answers to a broadcast, with `drawn` saying how
/// the draw with that chance came out: the draw decides, unless no one else will answer.
pub fn responds_to_draw(num_known: usize, drawn: bool) -> (r: bool)
    ensures
        r == (num_known <= 2 || drawn),
{
    num_known <= 2 || drawn
}

/// What is known of the sender of a `Join` from then on: its latency stays what it was.
pub open spec fn joined(t: Table, addr: Peer, identity: Seq<u8>, now: Instant) -> Table {
    t.put(
        addr,
        PeerInfoView {
            identity,
            state: PeerState::Known(now),
            latency: if t.peers.contains_key(addr) {
                t.peers[addr].latency
            } else {
                None
            },
        },
    )
}

/// The table once a message to the entire mesh has come from `sender`. We do not forget ourselves,
/// and no one else on the word of someone who is not in the mesh.
pub open spec fn after_broadcast(
    node: Node,
    t: Table,
    sender: Peer,
    msg: SwimBroadcastView,
    now: Instant,
) -> Table {
    match msg {
        SwimBroadcastView::Failed(peer) => if peer != node.self_addr && t.peers.contains_key(
            sender,
        ) {
            t.forget(peer)
        } else {
            t
        },
        SwimBroadcastView::Join { addr, identity } => if addr != node.self_addr {
            joined(t, addr, identity, now)
        } else {
            t
        },
        SwimBroadcastView::Probe(_) => t,
    }
}

/// What an instance may answer to a message to the entire mesh.
#[derive(Clone, Copy, Debug)]
pub enum Answer {
    /// Nothing.
    Nothing,
    /// To a newcomer: the peers that we know of.
    KnownPeers(Peer),
    /// To a probe: our identity.
    ProbeResponse(SocketAddr),
}

/// What an instance may answer to a message to the entire mesh: to a newcomer the peers that it
/// knows of, and to a probe its identity.
pub open spec fn answer_to(node: Node, t: Table, msg: SwimBroadcastView) -> Answer {
    match msg {
        SwimBroadcastView::Failed(_) => Answer::Nothing,
        SwimBroadcastView::Join { addr, identity: _ } => if addr != node.self_addr
            && !t.peers.contains_key(addr) {
            Answer::KnownPeers(addr)
        } else {
            Answer::Nothing
        },
        SwimBroadcastView::Probe(addr) => Answer::ProbeResponse(addr),
    }
}

/// We are sure that `peer` is up, as far as we know.
pub open spec fn is_confident(t: Table, peer: Peer) -> bool {
    t.peers.contains_key(peer) && t.peers[peer].state is Known
}

/// The peers of whose state we are confident, with their identities.
pub open spec fn confident_peers(t: Table) -> Map<Peer, Seq<u8>> {
    Map::new(|peer: Peer| is_confident(t, peer), |peer: Peer| t.peers[peer].identity)
}

/// Whether there is anything to send: a list that names no one is not sent to a newcomer.
pub open spec fn answer_is_due(t: Table, answer: Answer) -> bool {
    match answer {
        Answer::Nothing => false,
        Answer::KnownPeers(_) => confident_peers(t) != Map::<Peer, Seq<u8>>::empty(),
        Answer::ProbeResponse(_) => true,
    }
}

/// An answer is sent if there is anything to send and the draw says so; the draw does not count
/// if no one else will answer.
pub open spec fn answers(t: Table, answer: Answer, drawn: bool) -> bool {
    answer_is_due(t, answer) && (t.order.len() <= 2 || drawn)
}

/// An instance once it was decided whether it answers to a message to the entire mesh. No draw is
/// made if no one else will answer; otherwise it is made with the chance that the number of known
/// peers calls for.
pub open spec fn after_draw(node: Node, t: Table, came_out: bool) -> Node {
    if t.order.len() <= 2 {
        node
    } else {
        Node {
            draws: node.draws.push(
                Draw {
                    numerator: response_percent(t.order.len()) as u32,
                    denominator: 100,
                    came_out,
                },
            ),
            ..node
        }
    }
}

/// An instance once it was decided whether it gives the answer that is called for, if there is one.
pub open spec fn after_answer(node: Node, t: Table, answer: Answer, came_out: bool) -> Node {
    if answer is Nothing {
        node
    } else {
        after_draw(node, t, came_out)
    }
}

/// The message that `answer` calls for is sent.
pub open spec fn is_reply<F: Fn(&SwimEnvelope) -> Vec<u8>>(
    serialize: F,
    node: Node,
    t: Table,
    answer: Answer,
    action: ActionView,
) -> bool {
    match answer {
        Answer::Nothing => false,
        Answer::KnownPeers(addr) => exists|bytes: Seq<u8>|
            {
                &&& #[trigger] is_fit(serialize, node.identity, confident_peers(t), bytes)
                &&& action == (ActionView::SendBytes { to: addr, bytes })
            },
        Answer::ProbeResponse(addr) => action == (ActionView::AnswerProbe {
            to: addr,
            identity: node.identity,
        }),
    }
}

/// The peers of whose state we are confident, with their identities.
pub fn confident_identities(known_peers: &KnownPeers) -> (r: VecMap<Peer, Bytes>)
    requires
        known_peers.wf(),
    ensures
        r.wf(),
        identities(r@) == confident_peers(table(*known_peers)),
{
    let ghost t = table(*known_peers);
    let entries = known_peers.iter();
    let mut r: VecMap<Peer, Bytes> = VecMap::new();
    let mut i: usize = 0;
    proof {
        lemma_table(*known_peers);
        assert(t.order.take(0) =~= Seq::<Peer>::empty());
    }
    while i < entries.len()
        invariant
            i <= entries@.len(),
            t == table(*known_peers),
            t.wf(),
            known_peers.wf(),
            entries@.len() == t.order.len(),
            forall|j: int|
                0 <= j < entries@.len() ==> {
                    &&& (#[trigger] entries@[j]).0 == t.order[j]
                    &&& entries@[j].1@ == t.peers[t.order[j]]
                },
            r.wf(),
            forall|peer: Peer| #[trigger]
                r@.contains_key(peer) <==> t.order.take(i as int).contains(peer) && is_confident(
                    t,
                    peer,
                ),
            forall|peer: Peer| #[trigger]
                r@.contains_key(peer) ==> bytes_of(r@[peer]) == t.peers[peer].identity,
        decreases entries@.len() - i,
    {
        let entry = &entries[i];
        proof {
            lemma_table(*known_peers);
            assert(t.order.contains(entry.0));
            assert(t.peers.contains_key(entry.0));
            lemma_take_more(t.order, i as int);
        }
        if let PeerState::Known(_) = entry.1.state {
            r.insert(entry.0, entry.1.identity.clone());
        }
        i += 1;
    }
    proof {
        assert(t.order.take(i as int) =~= t.order);
        lemma_table(*known_peers);
        assert(identities(r@) =~= confident_peers(t));
    }
    r
}

impl KaboodleInner {
    /// Takes note of a message to the entire mesh that came from `sender`; what may be answered.
    pub fn note_broadcast(
        &self,
        known_peers: &mut KnownPeers,
        sender: Peer,
        msg: SwimBroadcast,
        now: Instant,
    ) -> (r: Answer)
        requires
            self.wf(),
            old(known_peers).wf(),
        ensures
            final(known_peers).wf(),
            table(*final(known_peers)) == after_broadcast(
                self@,
                table(*old(known_peers)),
                sender,
                msg@,
                now,
            ),
            r == answer_to(self@, table(*old(known_peers)), msg@),
    {
        proof {
            lemma_table(*known_peers);
        }
        match msg {
            SwimBroadcast::Failed(peer) => {
                // If it is us, someone else must have lost connectivity to us, but that does not
                // mean that we should forget about ourselves. A sender who is not a member of the
                // mesh may be in a bad state.
                if peer != self.self_addr() && known_peers.contains_key(&sender) {
                    forget_peer(known_peers, &peer);
                }
                Answer::Nothing
            },
            SwimBroadcast::Join { addr, identity } => {
                if addr == self.self_addr() {
                    return Answer::Nothing;
                }
                let latency: Option<Duration> = match known_peers.get(&addr) {
                    Some(info) => info.latency,
                    None => None,
                };
                let is_new_peer = put_peer(
                    known_peers,
                    addr,
                    PeerInfo { identity, state: PeerState::Known(now), latency },
                );
                if is_new_peer {
                    Answer::KnownPeers(addr)
                } else {
                    Answer::Nothing
                }
            },
            SwimBroadcast::Probe(addr) => Answer::ProbeResponse(addr),
        }
    }

    /// Whether to answer to a broadcast. That is a matter of chance, unless no one else will answer.
    /// The chance with which it is drawn is `percent_chance_of_response`.
    pub fn should_respond_to_broadcast(&mut self, known_peers: &KnownPeers) -> (r: bool)
        requires
            old(self).wf(),
            known_peers.wf(),
        ensures
            final(self).wf(),
            final(self)@ == after_draw(old(self)@, table(*known_peers), r),
            table(*known_peers).order.len() <= 2 ==> r,
    {
        let num_known: usize = known_peers.len();
        if num_known <= 2 {
            // No one else is going to answer.
            return true;
        }
        let drawn = self.flip_coin(percent_chance_of_response(num_known), 100);
        responds_to_draw(num_known, drawn)
    }

    /// Answers to a probe.
    pub fn respond_to_probe(&self, addr: SocketAddr) -> (r: Action)
        ensures
            r.wf(),
            r@ == (ActionView::AnswerProbe { to: addr, identity: self@.identity }),
    {
        Action::AnswerProbe { to: addr, response: ProbeResponse { identity: self.identity() } }
    }

    /// Answers to a probe, or does not, in the hope that someone else will; `drawn` says how the draw
    /// came out.
    pub fn respond_to_probe_with(
        &self,
        known_peers: &KnownPeers,
        addr: SocketAddr,
        drawn: bool,
    ) -> (r: Option<Action>)
        requires
            known_peers.wf(),
        ensures
            r is Some == (table(*known_peers).order.len() <= 2 || drawn),
            r matches Some(action) ==> action.wf() && action@ == (ActionView::AnswerProbe {
                to: addr,
                identity: self@.identity,
            }),
    {
        if !responds_to_draw(known_peers.len(), drawn) {
            return None;
        }
        Some(self.respond_to_probe(addr))
    }

    /// Answers to a probe, or does not, in the hope that someone else will. The draw decides, unless
    /// no one else will answer; see `respond_to_probe_with`.
    pub fn maybe_respond_to_probe(&mut self, known_peers: &KnownPeers, addr: SocketAddr) -> (r:
        Option<Action>)
        requires
            old(self).wf(),
            known_peers.wf(),
        ensures
            final(self).wf(),
            final(self)@ == after_draw(old(self)@, table(*known_peers), r is Some),
            table(*known_peers).order.len() <= 2 ==> r is Some,
            r matches Some(action) ==> action.wf() && action@ == (ActionView::AnswerProbe {
                to: addr,
                identity: old(self)@.identity,
            }),
    {
        let drawn = self.should_respond_to_broadcast(known_peers);
        self.respond_to_probe_with(known_peers, addr, drawn)
    }

    /// Sends the peers of whose state we are confident to the given address, if there are any. If
    /// they are too many for the buffer of the receiver, some of them, chosen at random, are left
    /// out.
    pub fn send_known_peers_to_peer<F: Fn(&SwimEnvelope) -> Vec<u8>>(
        &mut self,
        known_peers: &KnownPeers,
        addr: SocketAddr,
        serialize: &F,
    ) -> (r: Option<Action>)
        requires
            old(self).wf(),
            known_peers.wf(),
            forall|env: SwimEnvelope| #[trigger] call_requires(*serialize, (&env,)),
            empty_list_fits(*serialize, old(self)@.identity),
        ensures
            final(self).wf(),
            final(self)@ == old(self)@,
            r is Some == answer_is_due(table(*known_peers), Answer::KnownPeers(addr)),
            r matches Some(action) ==> action.wf() && is_reply(
                *serialize,
                old(self)@,
                table(*known_peers),
                Answer::KnownPeers(addr),
                action@,
            ),
    {
        let other_peers = confident_identities(known_peers);
        let ghost members = identities(other_peers@);
        if other_peers.is_empty() {
            assert(members =~= Map::<Peer, Seq<u8>>::empty());
            return None;
        }
        proof {
            if members == Map::<Peer, Seq<u8>>::empty() {
                assert(other_peers@.dom() =~= members.dom());
                assert(other_peers@ =~= Map::<Peer, Bytes>::empty());
            }
        }
        match self.fit_peers(other_peers, serialize) {
            Some(bytes) => Some(Action::SendBytes { to: addr, bytes }),
            None => None,
        }
    }

    /// Sends the peers of whose state we are confident to a newcomer, or does not, in the hope that
    /// someone else will; `drawn` says how the draw came out.
    pub fn send_known_peers_with<F: Fn(&SwimEnvelope) -> Vec<u8>>(
        &mut self,
        known_peers: &KnownPeers,
        addr: SocketAddr,
        drawn: bool,
        serialize: &F,
    ) -> (r: Option<Action>)
        requires
            old(self).wf(),
            known_peers.wf(),
            forall|env: SwimEnvelope| #[trigger] call_requires(*serialize, (&env,)),
            table(*known_peers).order.len() <= 2 || drawn ==> empty_list_fits(
                *serialize,
                old(self)@.identity,
            ),
        ensures
            final(self).wf(),
            final(self)@ == old(self)@,
            r is Some == answers(table(*known_peers), Answer::KnownPeers(addr), drawn),
            r matches Some(action) ==> action.wf() && is_reply(
                *serialize,
                old(self)@,
                table(*known_peers),
                Answer::KnownPeers(addr),
                action@,
            ),
    {
        if !responds_to_draw(known_peers.len(), drawn) {
            return None;
        }
        self.send_known_peers_to_peer(known_peers, addr, serialize)
    }

    /// Sends the peers of whose state we are confident to a newcomer, or does not, in the hope that
    /// someone else will. The draw decides, unless no one else will answer; see
    /// `send_known_peers_with`.
    pub fn maybe_send_known_peers_to_peer<F: Fn(&SwimEnvelope) -> Vec<u8>>(
        &mut self,
        known_peers: &KnownPeers,
        addr: SocketAddr,
        serialize: &F,
    ) -> (r: Option<Action>)
        requires
            old(self).wf(),
            known_peers.wf(),
            forall|env: SwimEnvelope| #[trigger] call_requires(*serialize, (&env,)),
            empty_list_fits(*serialize, old(self)@.identity),
        ensures
            final(self).wf(),
            exists|drawn: bool|
                final(self)@ == #[trigger] after_draw(old(self)@, table(*known_peers), drawn)
                    && r is Some == answers(table(*known_peers), Answer::KnownPeers(addr), drawn),
            r matches Some(action) ==> action.wf() && is_reply(
                *serialize,
                old(self)@,
                table(*known_peers),
                Answer::KnownPeers(addr),
                action@,
            ),
    {
        let drawn = self.should_respond_to_broadcast(known_peers);
        self.send_known_peers_with(known_peers, addr, drawn, serialize)
    }

    /// Gives the answer that is called for, or does not; `drawn` says how the draw came out.
    pub fn answer_with<F: Fn(&SwimEnvelope) -> Vec<u8>>(
        &mut self,
        known_peers: &KnownPeers,
        answer: Answer,
        drawn: bool,
        serialize: &F,
    ) -> (r: Option<Action>)
        requires
            old(self).wf(),
            known_peers.wf(),
            forall|env: SwimEnvelope| #[trigger] call_requires(*serialize, (&env,)),
            answer is KnownPeers && (table(*known_peers).order.len() <= 2 || drawn)
                ==> empty_list_fits(*serialize, old(self)@.identity),
        ensures
            final(self).wf(),
            final(self)@ == old(self)@,
            r is Some == answers(table(*known_peers), answer, drawn),
            r matches Some(action) ==> action.wf() && is_reply(
                *serialize,
                old(self)@,
                table(*known_peers),
                answer,
                action@,
            ),
    {
        match answer {
            Answer::Nothing => None,
            Answer::KnownPeers(addr) => self.send_known_peers_with(
                known_peers,
                addr,
                drawn,
                serialize,
            ),
            Answer::ProbeResponse(addr) => self.respond_to_probe_with(known_peers, addr, drawn),
        }
    }

    /// Answers to a message to the entire mesh that came from `sender`. Whether an answer is sent at
    /// all is a matter of chance, unless no one else will answer; see `answer_with`.
    pub fn handle_incoming_broadcast<F: Fn(&SwimEnvelope) -> Vec<u8>>(
        &mut self,
        known_peers: &mut KnownPeers,
        sender: Peer,
        msg: SwimBroadcast,
        now: Instant,
        serialize: &F,
    ) -> (r: Option<Action>)
        requires
            old(self).wf(),
            old(known_peers).wf(),
            forall|env: SwimEnvelope| #[trigger] call_requires(*serialize, (&env,)),
            answer_to(old(self)@, table(*old(known_peers)), msg@) is KnownPeers ==> empty_list_fits(
                *serialize,
                old(self)@.identity,
            ),
        ensures
            final(self).wf(),
            final(known_peers).wf(),
            table(*final(known_peers)) == after_broadcast(
                old(self)@,
                table(*old(known_peers)),
                sender,
                msg@,
                now,
            ),
            exists|drawn: bool|
                final(self)@ == #[trigger] after_answer(
                    old(self)@,
                    table(*final(known_peers)),
                    answer_to(old(self)@, table(*old(known_peers)), msg@),
                    drawn,
                ) && r is Some == answers(
                    table(*final(known_peers)),
                    answer_to(old(self)@, table(*old(known_peers)), msg@),
                    drawn,
                ),
            r matches Some(action) ==> action.wf() && is_reply(
                *serialize,
                old(self)@,
                table(*final(known_peers)),
                answer_to(old(self)@, table(*old(known_peers)), msg@),
                action@,
            ),
    {
        let answer = self.note_broadcast(known_peers, sender, msg, now);
        proof {
            lemma_table(*known_peers);
            if let Answer::KnownPeers(addr) = answer {
                assert(is_confident(table(*known_peers), addr));
                assert(confident_peers(table(*known_peers)).contains_key(addr));
            }
        }
        let ghost t = table(*known_peers);
        if let Answer::Nothing = answer {
            assert(self@ == after_answer(old(self)@, t, answer, false));
            return None;
        }
        let drawn = self.should_respond_to_broadcast(known_peers);
        assert(self@ == after_answer(old(self)@, t, answer, drawn));
        self.answer_with(known_peers, answer, drawn, serialize)
    }
}

} // verus!
