//! What holds of an instance over time, whatever comes in.
use crate::action::ActionView;
use crate::addr::Peer;
use crate::broadcast::{after_answer, after_broadcast, answer_to};
use crate::client::{fresh_node, own_entry, Client};
use crate::fingerprint::membership;
use crate::identity::bytes_of;
use crate::kaboodle::{heard_from, learn, on_message, shared_peers, Node, MAX_PEER_SHARE_AGE};
use crate::laws::{
    law_learning_is_a_union, law_senders_are_known, law_suspicion, lemma_forget, lemma_put,
    lemma_set_state, vouches_for,
};
use crate::round::after_join;
use crate::structs::{
    identities, PeerInfo, PeerInfoView, PeerState, SwimBroadcastView, SwimMessage,
};
use crate::suspicion::{is_asked_about, is_given_up, lemma_helpers, may_be_pinged, on_suspicion};
use crate::table::{peer_views, Table};
use crate::time::{Duration, Instant};
use bytes::Bytes;
use vstd::prelude::*;

verus! {

/// An instance and its table.
pub ghost struct State {
    pub node: Node,
    pub table: Table,
}

/// Something that happens to an instance.
pub ghost enum Input {
    /// It may be time to announce itself.
    Announce,
    /// It looks after the peers that do not answer.
    Check { asked: Seq<Seq<Peer>> },
    /// It pings the peer.
    Ping { target: Peer },
    /// The ping could not even be sent.
    Unreachable { target: Peer },
    /// A message to it comes in.
    Message {
        sender: Peer,
        identity: Seq<u8>,
        latency: Option<Duration>,
        msg: SwimMessage,
        reply: Seq<ActionView>,
    },
    /// A message to the entire mesh comes in; `drawn` says how the draw on an answer comes out.
    Broadcast { sender: Peer, news: SwimBroadcastView, drawn: bool },
}

impl State {
    /// What becomes of an instance.
    pub open spec fn next(self, input: Input, now: Instant) -> State {
        let node = self.node;
        let t = self.table;
        match input {
            Input::Announce => State { node: after_join(node, t, now), table: t },
            Input::Check { asked } => State {
                node: on_suspicion(node, t, now, asked).node,
                table: on_suspicion(node, t, now, asked).table,
            },
            Input::Ping { target } => State {
                node,
                table: t.set_state(target, PeerState::WaitingForPing(now)),
            },
            Input::Unreachable { target } => State { node, table: t.forget(target) },
            Input::Message { sender, identity, latency, msg, reply } => {
                let heard = heard_from(t, sender, identity, now, latency);
                let step = on_message(node, heard, sender, msg, now, reply);
                State { node: step.node, table: step.table }
            },
            Input::Broadcast { sender, news: msg, drawn } => {
                let t2 = after_broadcast(node, t, sender, msg, now);
                State { node: after_answer(node, t2, answer_to(node, t, msg), drawn), table: t2 }
            },
        }
    }

    /// What can happen: we ping those whom we may ping, and what comes from our own address carries
    /// our own identity.
    pub open spec fn can_happen(self, input: Input) -> bool {
        match input {
            Input::Ping { target } => may_be_pinged(self.node, self.table, target),
            Input::Unreachable { target } => target != self.node.self_addr,
            Input::Message { sender, identity, .. } => sender == self.node.self_addr ==> identity
                == self.node.identity,
            _ => true,
        }
    }

    /// Our own entry says that we are up, and who we are.
    pub open spec fn knows_itself(self) -> bool {
        &&& self.table.peers.contains_key(self.node.self_addr)
        &&& self.table.peers[self.node.self_addr].state is Known
        &&& self.table.peers[self.node.self_addr].identity == self.node.identity
    }

    /// What becomes of an instance over time.
    pub open spec fn run(self, inputs: Seq<(Input, Instant)>) -> State
        decreases inputs.len(),
    {
        if inputs.len() == 0 {
            self
        } else {
            self.run(inputs.drop_last()).next(inputs.last().0, inputs.last().1)
        }
    }

    /// All of this can happen, one after the other.
    pub open spec fn can_all_happen(self, inputs: Seq<(Input, Instant)>) -> bool
        decreases inputs.len(),
    {
        inputs.len() == 0 || (self.can_all_happen(inputs.drop_last()) && self.run(
            inputs.drop_last(),
        ).can_happen(inputs.last().0))
    }
}

/// A step keeps a table in order.
proof fn lemma_next(s: State, input: Input, now: Instant)
    requires
        s.table.wf(),
    ensures
        s.next(input, now).table.wf(),
        s.next(input, now).node.self_addr == s.node.self_addr,
        s.next(input, now).node.identity == s.node.identity,
{
    match input {
        Input::Announce => {},
        Input::Check { asked } => {
            law_suspicion(s.node, s.table, now, asked);
        },
        Input::Ping { target } => {
            lemma_set_state(s.table, target, PeerState::WaitingForPing(now));
        },
        Input::Unreachable { target } => {
            lemma_forget(s.table, target);
        },
        Input::Message { sender, identity, latency, msg, reply } => {
            law_senders_are_known(s.node, s.table, sender, identity, latency, msg, now, reply);
        },
        Input::Broadcast { sender, news: msg, .. } => {
            lemma_broadcast(s.node, s.table, sender, msg, now);
        },
    }
}

/// What a message to the entire mesh changes: it removes a peer that failed, or enters one that has
/// joined.
proof fn lemma_broadcast(node: Node, t: Table, sender: Peer, msg: SwimBroadcastView, now: Instant)
    requires
        t.wf(),
    ensures
        after_broadcast(node, t, sender, msg, now).wf(),
        forall|peer: Peer| #[trigger]
            after_broadcast(node, t, sender, msg, now).peers.contains_key(peer) ==> {
                ||| t.peers.contains_key(peer) && after_broadcast(
                    node,
                    t,
                    sender,
                    msg,
                    now,
                ).peers[peer] == t.peers[peer]
                ||| msg matches SwimBroadcastView::Join { addr, .. } && addr == peer
            },
{
    match msg {
        SwimBroadcastView::Failed(peer) => {
            lemma_forget(t, peer);
        },
        SwimBroadcastView::Join { addr, identity } => {
            let info = PeerInfoView {
                identity,
                state: PeerState::Known(now),
                latency: if t.peers.contains_key(addr) {
                    t.peers[addr].latency
                } else {
                    None
                },
            };
            lemma_put(t, addr, info);
        },
        SwimBroadcastView::Probe(_) => {},
    }
}

proof fn lemma_knows_itself(s: State, input: Input, now: Instant)
    requires
        s.table.wf(),
        s.knows_itself(),
        s.can_happen(input),
    ensures
        s.next(input, now).knows_itself(),
{
    let own = s.node.self_addr;
    lemma_next(s, input, now);
    match input {
        Input::Announce => {},
        Input::Check { asked } => {
            law_suspicion(s.node, s.table, now, asked);
            assert(!is_asked_about(s.node, s.table, now)(own));
            assert(!is_given_up(s.node, s.table, now)(own));
            assert(s.next(input, now).table.peers.contains_key(own));
        },
        Input::Ping { target } => {
            lemma_helpers(s.node, s.table);
            lemma_set_state(s.table, target, PeerState::WaitingForPing(now));
        },
        Input::Unreachable { target } => {
            lemma_forget(s.table, target);
        },
        Input::Message { sender, identity, latency, msg, reply } => {
            law_senders_are_known(s.node, s.table, sender, identity, latency, msg, now, reply);
        },
        Input::Broadcast { sender, news: msg, .. } => {
            match msg {
                SwimBroadcastView::Failed(peer) => {
                    lemma_forget(s.table, peer);
                },
                SwimBroadcastView::Join { addr, identity } => {
                    let info = PeerInfoView {
                        identity,
                        state: PeerState::Known(now),
                        latency: if s.table.peers.contains_key(addr) {
                            s.table.peers[addr].latency
                        } else {
                            None
                        },
                    };
                    lemma_put(s.table, addr, info);
                },
                SwimBroadcastView::Probe(_) => {},
            }
        },
    }
}

/// Whatever happens to an instance, and for however long, its own entry says that it is up, and who
/// it is.
pub proof fn law_own_entry_stays(s: State, inputs: Seq<(Input, Instant)>)
    requires
        s.table.wf(),
        s.knows_itself(),
        s.can_all_happen(inputs),
    ensures
        s.run(inputs).table.wf(),
        s.run(inputs).knows_itself(),
        s.run(inputs).node.self_addr == s.node.self_addr,
        s.run(inputs).node.identity == s.node.identity,
    decreases inputs.len(),
{
    if inputs.len() > 0 {
        law_own_entry_stays(s, inputs.drop_last());
        let before = s.run(inputs.drop_last());
        lemma_next(before, inputs.last().0, inputs.last().1);
        lemma_knows_itself(before, inputs.last().0, inputs.last().1);
    }
}

/// While a client is running, its table holds its own address with its own identity.
pub proof fn law_running_clients_list_themselves(
    client: Client,
    t: Table,
    self_addr: Peer,
    started_at: Instant,
    inputs: Seq<(Input, Instant)>,
)
    requires
        t.wf(),
        (State {
            node: fresh_node(client, self_addr),
            table: t.put(self_addr, own_entry(client, started_at)),
        }).can_all_happen(inputs),
    ensures
        ({
            let started = State {
                node: fresh_node(client, self_addr),
                table: t.put(self_addr, own_entry(client, started_at)),
            };
            let members = membership(started.run(inputs).table.peers);
            members.contains_key(self_addr) && members[self_addr] == client.identity
        }),
{
    lemma_put(t, self_addr, own_entry(client, started_at));
    let started = State {
        node: fresh_node(client, self_addr),
        table: t.put(self_addr, own_entry(client, started_at)),
    };
    law_own_entry_stays(started, inputs);
}

/// The two listings of a client name the same peers, in whatever state, with the same identities.
pub proof fn law_listings_agree(t: Table, states: Map<Peer, PeerInfo>, peers: Map<Peer, Bytes>)
    requires
        peer_views(states) == t.peers,
        identities(peers) == membership(t.peers),
    ensures
        states.dom() == peers.dom(),
        forall|peer: Peer| #[trigger]
            states.contains_key(peer) ==> bytes_of(peers[peer]) == states[peer]@.identity,
{
    assert(states.dom() =~= peer_views(states).dom());
    assert(peers.dom() =~= identities(peers).dom());
    assert(states.dom() =~= peers.dom());
    assert forall|peer: Peer| #[trigger] states.contains_key(peer) implies bytes_of(peers[peer])
        == states[peer]@.identity by {
        assert(identities(peers).contains_key(peer));
        assert(identities(peers)[peer] == bytes_of(peers[peer]));
        assert(peer_views(states)[peer] == states[peer]@);
    }
}

/// The peer itself is heard: it sends a message or announces itself, or someone has an answer of it.
pub open spec fn hears(input: Input, peer: Peer) -> bool {
    match input {
        Input::Message { sender, msg, .. } => sender == peer || vouches_for(msg, peer),
        Input::Broadcast { news: msg, .. } => msg matches SwimBroadcastView::Join { addr, .. } && addr
            == peer,
        _ => false,
    }
}

/// If `peer` is known at all, it has not been heard for so long that it is not named to others from
/// `since` on.
pub open spec fn is_hearsay(t: Table, peer: Peer, since: Instant) -> bool {
    t.peers.contains_key(peer) ==> match t.peers[peer].state {
        PeerState::Known(heard) => heard + MAX_PEER_SHARE_AGE <= since,
        _ => true,
    }
}

/// None of this happens before `since`, and nothing before what is listed before it.
pub open spec fn in_order(since: Instant, inputs: Seq<(Input, Instant)>) -> bool
    decreases inputs.len(),
{
    inputs.len() == 0 || (in_order(since, inputs.drop_last()) && last_time(
        since,
        inputs.drop_last(),
    ) <= inputs.last().1)
}

/// When the last of this happens.
pub open spec fn last_time(since: Instant, inputs: Seq<(Input, Instant)>) -> Instant {
    if inputs.len() == 0 {
        since
    } else {
        inputs.last().1
    }
}

proof fn lemma_stays_hearsay(s: State, input: Input, now: Instant, peer: Peer, since: Instant)
    requires
        s.table.wf(),
        is_hearsay(s.table, peer, since),
        since <= now,
        now >= MAX_PEER_SHARE_AGE,
        !hears(input, peer),
    ensures
        is_hearsay(s.next(input, now).table, peer, now),
{
    let t = s.table;
    let after = s.next(input, now).table;
    match input {
        Input::Announce => {},
        Input::Check { asked } => {
            law_suspicion(s.node, t, now, asked);
            if after.peers.contains_key(peer) {
                assert(t.peers.contains_key(peer));
            }
        },
        Input::Ping { target } => {
            lemma_set_state(t, target, PeerState::WaitingForPing(now));
        },
        Input::Unreachable { target } => {
            lemma_forget(t, target);
        },
        Input::Message { sender, identity, latency, msg, reply } => {
            law_senders_are_known(s.node, t, sender, identity, latency, msg, now, reply);
            let info = PeerInfoView { identity, state: PeerState::Known(now), latency };
            lemma_put(t, sender, info);
            let heard = heard_from(t, sender, identity, now, latency);
            match msg {
                SwimMessage::KnownPeers(peers) => {
                    let order = peers.order();
                    law_learning_is_a_union(heard, order, identities(peers@), now);
                    if after.peers.contains_key(peer) && !heard.peers.contains_key(peer) {
                        assert(after.peers.dom().contains(peer));
                        assert(order.to_set().contains(peer));
                        assert(order.contains(peer));
                    }
                },
                SwimMessage::Ack { peer: vouched_for, .. } => {
                    lemma_set_state(heard, vouched_for, PeerState::Known(now));
                },
                _ => {},
            }
        },
        Input::Broadcast { sender, news: msg, .. } => {
            lemma_broadcast(s.node, t, sender, msg, now);
            if after.peers.contains_key(peer) {
                assert(t.peers.contains_key(peer));
            }
        },
    }
}

/// A peer of which we have only been told is not named to anyone, whatever else happens, until the
/// peer itself is heard or someone has an answer of it. So peers that are gone are not passed around
/// forever.
pub proof fn law_hearsay_is_not_passed_on(
    s: State,
    since: Instant,
    inputs: Seq<(Input, Instant)>,
    peer: Peer,
    requester: Peer,
    later: Instant,
)
    requires
        s.table.wf(),
        is_hearsay(s.table, peer, since),
        since >= MAX_PEER_SHARE_AGE,
        in_order(since, inputs),
        forall|i: int| 0 <= i < inputs.len() ==> !hears((#[trigger] inputs[i]).0, peer),
        later >= last_time(since, inputs),
    ensures
        s.run(inputs).table.wf(),
        is_hearsay(s.run(inputs).table, peer, last_time(since, inputs)),
        since <= last_time(since, inputs),
        !shared_peers(s.run(inputs).node, s.run(inputs).table, requester, later).contains_key(peer),
    decreases inputs.len(),
{
    if inputs.len() > 0 {
        let rest = inputs.drop_last();
        assert forall|i: int| 0 <= i < rest.len() implies !hears((#[trigger] rest[i]).0, peer) by {
            assert(rest[i] == inputs[i]);
        }
        law_hearsay_is_not_passed_on(s, since, rest, peer, requester, last_time(since, rest));
        let before = s.run(rest);
        let (input, now) = inputs.last();
        assert(!hears(inputs[inputs.len() - 1].0, peer));
        lemma_next(before, input, now);
        lemma_stays_hearsay(before, input, now, peer, last_time(since, rest));
    }
}

/// A peer that we did not know and that a list names is hearsay.
pub proof fn law_lists_are_hearsay(
    t: Table,
    listed: Seq<Peer>,
    members: Map<Peer, Seq<u8>>,
    now: Instant,
    peer: Peer,
)
    requires
        t.wf(),
        now >= MAX_PEER_SHARE_AGE,
        !t.peers.contains_key(peer),
    ensures
        is_hearsay(learn(t, listed, members, now), peer, now),
{
    law_learning_is_a_union(t, listed, members, now);
    let after = learn(t, listed, members, now);
    if after.peers.contains_key(peer) {
        assert(after.peers.dom().contains(peer));
        assert(listed.to_set().contains(peer));
        assert(listed.contains(peer));
    }
}

} // verus!
