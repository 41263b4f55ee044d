//! What each message does, to an instance and to what it knows, and what is sent in answer.
use crate::action::ActionView;
use crate::addr::Peer;
use crate::broadcast::{
    after_answer, after_broadcast, answer_to, answers, confident_peers, is_confident, is_reply,
    response_percent, Answer,
};
use crate::fingerprint::{fingerprint_of, membership};
use crate::identity::bytes_of;
use crate::kaboodle::{
    heard_from, may_reply, on_message, sender_latency, shared_peers, Node, INCOMING_BUFFER_SIZE,
    MAX_PEER_SHARE_AGE,
};
use crate::laws::{law_learning_is_a_union, lemma_forget, lemma_put, lemma_set_state};
use crate::map::{lemma_take_more, VecMap};
use crate::structs::{
    identities, PeerInfoView, PeerState, SwimBroadcastView, SwimEnvelope, SwimMessage,
    SwimMessageView,
};
use crate::table::Table;
use crate::time::{Duration, Instant};
use crate::trimming::{empty_list_fits, encodes, is_fit, is_trimming};
use bytes::Bytes;
use vstd::prelude::*;

verus! {

// Messages to us.

/// Whom an instance knows once a message has come, and what it knows of each.
///
/// The sender is up, with the identity and latency that it has now. A peer about which the message
/// is an answer is up, too, if we know of it. A peer that we did not know is known if the message
/// lists it, but as one from which we have not heard for long. Nothing else changes.
pub proof fn law_what_a_message_tells(
    node: Node,
    t: Table,
    sender: Peer,
    identity: Seq<u8>,
    latency: Option<Duration>,
    msg: SwimMessage,
    now: Instant,
    reply: Seq<ActionView>,
    peer: Peer,
)
    requires
        t.wf(),
        msg.wf(),
    ensures
        ({
            let heard = heard_from(t, sender, identity, now, latency);
            let after = on_message(node, heard, sender, msg, now, reply).table;
            let is_listed = msg matches SwimMessage::KnownPeers(peers) && peers@.contains_key(peer);
            let has_answered = msg matches SwimMessage::Ack { peer: p, .. } && p == peer;
            &&& after.wf()
            &&& after.peers.contains_key(peer) <==> peer == sender || t.peers.contains_key(peer)
                || is_listed
            &&& peer == sender ==> after.peers[peer] == (PeerInfoView {
                identity,
                state: PeerState::Known(now),
                latency,
            })
            &&& peer != sender && t.peers.contains_key(peer) && !has_answered ==> after.peers[peer]
                == t.peers[peer]
            &&& peer != sender && t.peers.contains_key(peer) && has_answered ==> {
                &&& after.peers[peer].state == PeerState::Known(now)
                &&& after.peers[peer].identity == t.peers[peer].identity
                &&& after.peers[peer].latency == t.peers[peer].latency
            }
            &&& peer != sender && !t.peers.contains_key(peer) && is_listed ==> {
                &&& msg matches SwimMessage::KnownPeers(peers) && after.peers[peer].identity
                    == bytes_of(peers@[peer])
                &&& now >= MAX_PEER_SHARE_AGE ==> (
                after.peers[peer].state matches PeerState::Known(heard_at) && heard_at
                    + MAX_PEER_SHARE_AGE == now)
                &&& after.peers[peer].latency is None
            }
        }),
{
    let heard = heard_from(t, sender, identity, now, latency);
    lemma_put(t, sender, PeerInfoView { identity, state: PeerState::Known(now), latency });
    let after = on_message(node, heard, sender, msg, now, reply).table;
    match msg {
        SwimMessage::KnownPeers(peers) => {
            peers.lemma_order();
            law_learning_is_a_union(heard, peers.order(), identities(peers@), now);
            assert(after.peers.dom().contains(peer) <==> heard.peers.dom().contains(peer)
                || peers.order().to_set().contains(peer));
            assert(peers.order().contains(peer) <==> peers@.contains_key(peer));
            assert(heard.peers.contains_key(peer) ==> after.peers[peer] == heard.peers[peer]);
            if peers@.contains_key(peer) {
                assert(identities(peers@)[peer] == bytes_of(peers@[peer]));
            }
        },
        SwimMessage::Ack { peer: p, .. } => {
            lemma_set_state(heard, p, PeerState::Known(now));
        },
        _ => {},
    }
}

/// Who wants to hear of a peer once a message has come.
///
/// Whoever asks for a ping of it is listed from then on, behind those who already were, and no one is
/// listed twice. Once an answer of it has come, no one is. A message about another peer, or any other
/// message, changes nothing, and no message changes who we are, when we announced ourselves and what
/// was drawn.
pub proof fn law_who_wants_to_hear_of_a_peer(
    node: Node,
    t: Table,
    sender: Peer,
    msg: SwimMessage,
    now: Instant,
    reply: Seq<ActionView>,
    about: Peer,
)
    ensures
        ({
            let after = on_message(node, t, sender, msg, now, reply).node;
            let before = if node.curious_peers.contains_key(about) {
                node.curious_peers[about]
            } else {
                Seq::empty()
            };
            &&& after.self_addr == node.self_addr
            &&& after.identity == node.identity
            &&& after.last_broadcast_time == node.last_broadcast_time
            &&& after.draws == node.draws
            &&& match msg {
                SwimMessage::PingRequest(peer) => if peer == about {
                    &&& after.curious_peers.contains_key(about)
                    &&& before.contains(sender) ==> after.curious_peers[about] == before
                    &&& !before.contains(sender) ==> after.curious_peers[about] == before.push(
                        sender,
                    )
                } else {
                    &&& after.curious_peers.contains_key(about)
                        == node.curious_peers.contains_key(about)
                    &&& node.curious_peers.contains_key(about) ==> after.curious_peers[about]
                        == node.curious_peers[about]
                },
                SwimMessage::Ack { peer, .. } => if peer == about {
                    !after.curious_peers.contains_key(about)
                } else {
                    &&& after.curious_peers.contains_key(about)
                        == node.curious_peers.contains_key(about)
                    &&& node.curious_peers.contains_key(about) ==> after.curious_peers[about]
                        == node.curious_peers[about]
                },
                _ => after.curious_peers == node.curious_peers,
            }
        }),
{
}

/// An asker stays listed: whatever other messages come, as long as none of them is an answer of the
/// peer, and however many others ask, about it or about others.
pub proof fn law_askers_stay_listed(
    node: Node,
    t: Table,
    sender: Peer,
    msg: SwimMessage,
    now: Instant,
    reply: Seq<ActionView>,
    about: Peer,
    asker: Peer,
)
    requires
        node.curious_peers.contains_key(about),
        node.curious_peers[about].contains(asker),
        !(msg matches SwimMessage::Ack { peer, .. } && peer == about),
    ensures
        ({
            let after = on_message(node, t, sender, msg, now, reply).node;
            after.curious_peers.contains_key(about) && after.curious_peers[about].contains(asker)
        }),
{
    law_who_wants_to_hear_of_a_peer(node, t, sender, msg, now, reply, about);
    let before = node.curious_peers[about];
    let k = before.index_of(asker);
    assert(before.push(sender)[k] == asker);
}

/// What is sent when a message has come, with `t` the table by then.
///
/// A ping is answered with who we are and how we see the mesh. A ping that is asked for is sent. An
/// answer is passed on to each of those who want to hear of the peer, once and in their order, and
/// nothing else is sent but a request for peers. That is sent to a peer, who is the one that the
/// answer is of or the one that asks us for peers, if and only if it sees the mesh differently and
/// knows of no fewer peers than we do.
pub proof fn law_what_is_sent(
    node: Node,
    t: Table,
    sender: Peer,
    msg: SwimMessage,
    now: Instant,
    reply: Seq<ActionView>,
)
    requires
        t.wf(),
    ensures
        ({
            let step = on_message(node, t, sender, msg, now, reply);
            let actions = step.actions;
            let ours = fingerprint_of(membership(step.table.peers));
            let count = step.table.peers.dom().len() as u32;
            match msg {
                SwimMessage::Ping => {
                    &&& actions.len() == 1
                    &&& actions[0] == (ActionView::Send {
                        to: sender,
                        identity: node.identity,
                        msg: SwimMessageView::Ack {
                            peer: node.self_addr,
                            mesh_fingerprint: ours,
                            num_peers: count,
                        },
                    })
                },
                SwimMessage::PingRequest(peer) => {
                    &&& actions.len() == 1
                    &&& actions[0] == (ActionView::Send {
                        to: peer,
                        identity: node.identity,
                        msg: SwimMessageView::Ping,
                    })
                },
                SwimMessage::KnownPeers(_) => actions.len() == 0,
                SwimMessage::Ack { peer, mesh_fingerprint, num_peers } => {
                    let curious = if node.curious_peers.contains_key(peer) {
                        node.curious_peers[peer]
                    } else {
                        Seq::empty()
                    };
                    let is_asked = mesh_fingerprint != ours && num_peers >= count;
                    &&& actions.len() == curious.len() + if is_asked {
                        1nat
                    } else {
                        0nat
                    }
                    &&& forall|i: int|
                        0 <= i < curious.len() ==> #[trigger] actions[i] == (ActionView::Send {
                            to: curious[i],
                            identity: node.identity,
                            msg: SwimMessageView::Ack { peer, mesh_fingerprint, num_peers },
                        })
                    &&& is_asked ==> actions.last() == (ActionView::Send {
                        to: peer,
                        identity: node.identity,
                        msg: SwimMessageView::KnownPeersRequest {
                            mesh_fingerprint: ours,
                            num_peers: count,
                        },
                    })
                },
                SwimMessage::KnownPeersRequest { mesh_fingerprint, num_peers } => {
                    let is_asked = mesh_fingerprint != ours && num_peers >= count;
                    &&& actions.len() == reply.len() + if is_asked {
                        1nat
                    } else {
                        0nat
                    }
                    &&& actions.take(reply.len() as int) == reply
                    &&& is_asked ==> actions.last() == (ActionView::Send {
                        to: sender,
                        identity: node.identity,
                        msg: SwimMessageView::KnownPeersRequest {
                            mesh_fingerprint: ours,
                            num_peers: count,
                        },
                    })
                },
            }
        }),
{
    let step = on_message(node, t, sender, msg, now, reply);
    if let SwimMessage::Ack { peer, .. } = msg {
        lemma_set_state(t, peer, PeerState::Known(now));
    }
    if !(msg is KnownPeers) {
        assert(step.table.wf());
        step.table.order.unique_seq_to_set();
    }
    if msg is KnownPeersRequest {
        assert(step.actions.take(reply.len() as int) =~= reply);
    }
}

/// Of two instances that see the mesh differently, at least one asks the other for its peers, once
/// each has answered a ping of the other; of two that see it alike, neither does.
pub proof fn law_one_of_two_asks(
    a: Node,
    a_table: Table,
    b: Node,
    b_table: Table,
    from_a: SwimMessage,
    from_b: SwimMessage,
    now: Instant,
    reply: Seq<ActionView>,
)
    requires
        a_table.wf(),
        b_table.wf(),
        // Each knows that the other is up already, so that the answer itself changes nothing.
        a_table.peers.contains_key(b.self_addr),
        b_table.peers.contains_key(a.self_addr),
        a.curious_peers == Map::<Peer, Seq<Peer>>::empty(),
        b.curious_peers == Map::<Peer, Seq<Peer>>::empty(),
        from_a == (SwimMessage::Ack {
            peer: a.self_addr,
            mesh_fingerprint: fingerprint_of(membership(a_table.peers)),
            num_peers: a_table.peers.dom().len() as u32,
        }),
        from_b == (SwimMessage::Ack {
            peer: b.self_addr,
            mesh_fingerprint: fingerprint_of(membership(b_table.peers)),
            num_peers: b_table.peers.dom().len() as u32,
        }),
    ensures
        ({
            let at_a = on_message(a, a_table, b.self_addr, from_b, now, reply).actions;
            let at_b = on_message(b, b_table, a.self_addr, from_a, now, reply).actions;
            let asks_b = exists|i: int|
                0 <= i < at_a.len() && (#[trigger] at_a[i] matches ActionView::Send { to, msg, .. }
                    && to == b.self_addr && msg is KnownPeersRequest);
            let asks_a = exists|i: int|
                0 <= i < at_b.len() && (#[trigger] at_b[i] matches ActionView::Send { to, msg, .. }
                    && to == a.self_addr && msg is KnownPeersRequest);
            asks_a || asks_b <==> fingerprint_of(membership(a_table.peers)) != fingerprint_of(
                membership(b_table.peers),
            )
        }),
{
    law_what_is_sent(a, a_table, b.self_addr, from_b, now, reply);
    law_what_is_sent(b, b_table, a.self_addr, from_a, now, reply);
    lemma_set_state(a_table, b.self_addr, PeerState::Known(now));
    lemma_set_state(b_table, a.self_addr, PeerState::Known(now));
    let a2 = on_message(a, a_table, b.self_addr, from_b, now, reply);
    let b2 = on_message(b, b_table, a.self_addr, from_a, now, reply);
    assert(membership(a2.table.peers) =~= membership(a_table.peers));
    assert(membership(b2.table.peers) =~= membership(b_table.peers));
    assert(a2.table.peers.dom() =~= a_table.peers.dom());
    assert(b2.table.peers.dom() =~= b_table.peers.dom());
    if a2.actions.len() > 0 {
        assert(a2.actions[a2.actions.len() - 1] == a2.actions.last());
    }
    if b2.actions.len() > 0 {
        assert(b2.actions[b2.actions.len() - 1] == b2.actions.last());
    }
}

/// Who is named to a peer that asks: everyone but itself and ourselves who is up and from whom we
/// have heard of late, with its identity, whatever else we know of it; and no one else.
pub proof fn law_who_is_named(node: Node, t: Table, requester: Peer, now: Instant, peer: Peer)
    ensures
        shared_peers(node, t, requester, now).contains_key(peer) <==> {
            &&& t.peers.contains_key(peer)
            &&& peer != node.self_addr
            &&& peer != requester
            &&& t.peers[peer].state matches PeerState::Known(heard) && now < heard
                + MAX_PEER_SHARE_AGE
        },
        shared_peers(node, t, requester, now).contains_key(peer) ==> shared_peers(
            node,
            t,
            requester,
            now,
        )[peer] == t.peers[peer].identity,
{
}

/// The latency of a peer once a message of it has come. If we were waiting for it, it is the time
/// since the ping was sent, mixed with the previous one if there is one, in whole milliseconds.
/// Otherwise it is what it was, and there is none for a peer that we did not know.
pub proof fn law_latencies<F: Fn(u128, u128) -> u64>(
    mix: F,
    t: Table,
    sender: Peer,
    now: Instant,
    latency: Option<Duration>,
)
    requires
        sender_latency(mix, t, sender, now, latency),
        t.peers.contains_key(sender) ==> (t.peers[sender].state is Known
            || t.peers[sender].state.time() <= now),
    ensures
        !t.peers.contains_key(sender) ==> latency is None,
        t.peers.contains_key(sender) ==> match t.peers[sender].state {
            PeerState::Known(_) => latency == t.peers[sender].latency,
            PeerState::WaitingForPing(sent) => match t.peers[sender].latency {
                None => latency matches Some(new) && sent + new == now,
                Some(prev) => latency matches Some(mixed) && exists|ms: u64| #[trigger]
                    call_ensures(
                        mix,
                        (((now - sent) as u128 / 1_000_000), (prev / 1_000_000)),
                        ms,
                    ) && mixed == ms * 1_000_000,
            },
            PeerState::WaitingForIndirectPing(sent) => match t.peers[sender].latency {
                None => latency matches Some(new) && sent + new == now,
                Some(prev) => latency matches Some(mixed) && exists|ms: u64| #[trigger]
                    call_ensures(
                        mix,
                        (((now - sent) as u128 / 1_000_000), (prev / 1_000_000)),
                        ms,
                    ) && mixed == ms * 1_000_000,
            },
        },
{
}

// Lists of peers.

/// A list that is sent is what `serialize` makes of a message with our identity, and fits into the
/// buffer of the receiver. It names no one but those that it is to name, with their identities.
/// Someone is left out only if a message that names one more was too long.
pub proof fn law_what_a_list_says<F: Fn(&SwimEnvelope) -> Vec<u8>>(
    serialize: F,
    identity: Seq<u8>,
    members: Map<Peer, Seq<u8>>,
    bytes: Seq<u8>,
)
    requires
        is_fit(serialize, identity, members, bytes),
    ensures
        bytes.len() < INCOMING_BUFFER_SIZE,
        exists|env: SwimEnvelope, out: Vec<u8>, listed: VecMap<Peer, Bytes>|
            {
                &&& #[trigger] call_ensures(serialize, (&env,), out)
                &&& out@ == bytes
                &&& bytes_of(env.identity) == identity
                &&& env.msg == SwimMessage::KnownPeers(listed)
                &&& #[trigger] listed.wf()
                &&& forall|peer: Peer| #[trigger]
                    listed@.contains_key(peer) ==> members.contains_key(peer) && bytes_of(
                        listed@[peer],
                    ) == members[peer]
                &&& (forall|peer: Peer| #[trigger]
                    members.contains_key(peer) ==> listed@.contains_key(peer))
                    || is_one_too_many(serialize, identity, members, listed)
            },
{
    let (dropped, tries) = choose|dropped: Seq<Peer>, tries: Seq<Seq<u8>>| #[trigger]
        is_trimming(serialize, identity, members, dropped, tries) && bytes == tries.last();
    let last = tries.len() - 1;
    assert(encodes(
        serialize,
        identity,
        members.remove_keys(dropped.take(last).to_set()),
        tries[last],
    ));
    assert(dropped.take(last) =~= dropped);
    let (env, out) = choose|env: SwimEnvelope, out: Vec<u8>|
        {
            &&& #[trigger] call_ensures(serialize, (&env,), out)
            &&& out@ == bytes
            &&& bytes_of(env.identity) == identity
            &&& env.msg@ == SwimMessageView::KnownPeers(
                members.remove_keys(dropped.to_set()),
            )
            &&& env.msg.wf()
        };
    let listed = env.msg->KnownPeers_0;
    assert(env.msg == SwimMessage::KnownPeers(listed));
    let named = identities(listed@);
    assert(named == members.remove_keys(dropped.to_set()));
    assert forall|peer: Peer| #[trigger] listed@.contains_key(peer) implies members.contains_key(
        peer,
    ) && bytes_of(listed@[peer]) == members[peer] by {
        assert(named.contains_key(peer));
        assert(named[peer] == bytes_of(listed@[peer]));
    }
    if dropped.len() == 0 {
        assert forall|peer: Peer| #[trigger] members.contains_key(
            peer,
        ) implies listed@.contains_key(peer) by {
            assert(!dropped.to_set().contains(peer));
            assert(named.contains_key(peer));
        }
    } else {
        let k = dropped.len() - 1;
        let left_out = dropped[k];
        let fewer = dropped.take(k);
        assert(tries[k].len() >= INCOMING_BUFFER_SIZE);
        assert(encodes(serialize, identity, members.remove_keys(fewer.to_set()), tries[k]));
        let (env2, out2) = choose|env2: SwimEnvelope, out2: Vec<u8>|
            {
                &&& #[trigger] call_ensures(serialize, (&env2,), out2)
                &&& out2@ == tries[k]
                &&& bytes_of(env2.identity) == identity
                &&& env2.msg@ == SwimMessageView::KnownPeers(
                    members.remove_keys(fewer.to_set()),
                )
                &&& env2.msg.wf()
            };
        lemma_take_more(dropped, k);
        assert(dropped.take(k + 1) =~= dropped);
        assert(members.contains_key(left_out));
        assert(!fewer.contains(left_out)) by {
            if fewer.contains(left_out) {
                assert(dropped[fewer.index_of(left_out)] == dropped[k]);
            }
        }
        assert(dropped.to_set().contains(left_out));
        assert(!named.contains_key(left_out));
        assert(members.remove_keys(fewer.to_set()) =~= named.insert(left_out, members[left_out])) by {
            assert forall|peer: Peer| #[trigger] dropped.to_set().contains(peer)
                <==> fewer.to_set().contains(peer) || peer == left_out by {
                assert(dropped.contains(peer) <==> fewer.contains(peer) || peer == left_out);
            }
        }
        assert(is_one_too_many(serialize, identity, members, listed));
    }
}

/// There is someone whom the list does not name and is to name, and with whom it was too long.
pub open spec fn is_one_too_many<F: Fn(&SwimEnvelope) -> Vec<u8>>(
    serialize: F,
    identity: Seq<u8>,
    members: Map<Peer, Seq<u8>>,
    listed: VecMap<Peer, Bytes>,
) -> bool {
    exists|env: SwimEnvelope, out: Vec<u8>, left_out: Peer|
        {
            &&& #[trigger] call_ensures(serialize, (&env,), out)
            &&& out@.len() >= INCOMING_BUFFER_SIZE
            &&& bytes_of(env.identity) == identity
            &&& !listed@.contains_key(left_out)
            &&& #[trigger] members.contains_key(left_out)
            &&& env.msg@ == SwimMessageView::KnownPeers(
                identities(listed@).insert(left_out, members[left_out]),
            )
        }
}

/// Whoever asks for peers is sent one list, to its own address, of those that are to be named to it;
/// nothing, only if a message that lists no one is too long. No other message is answered in this
/// way.
pub proof fn law_requests_get_a_list<F: Fn(&SwimEnvelope) -> Vec<u8>>(
    serialize: F,
    node: Node,
    t: Table,
    sender: Peer,
    msg: SwimMessage,
    now: Instant,
    reply: Seq<ActionView>,
)
    requires
        may_reply(serialize, node, t, sender, msg, now, reply),
    ensures
        !(msg is KnownPeersRequest) ==> reply.len() == 0,
        msg is KnownPeersRequest && reply.len() != 1 ==> reply.len() == 0 && exists|
            env: SwimEnvelope,
            out: Vec<u8>,
        | #[trigger]
            call_ensures(serialize, (&env,), out) && out@.len() >= INCOMING_BUFFER_SIZE && bytes_of(
                env.identity,
            ) == node.identity && env.msg@ == SwimMessageView::KnownPeers(Map::empty()),
        msg is KnownPeersRequest && reply.len() == 1 ==> (reply[0] matches ActionView::SendBytes {
            to,
            bytes,
        } && to == sender && is_fit(
            serialize,
            node.identity,
            shared_peers(node, t, sender, now),
            bytes,
        )),
{
    if msg is KnownPeersRequest && reply.len() == 0 {
        assert(!empty_list_fits(serialize, node.identity));
        let bytes = choose|bytes: Seq<u8>| #[trigger]
            encodes(serialize, node.identity, Map::empty(), bytes) && bytes.len()
                >= INCOMING_BUFFER_SIZE;
        assert(encodes(serialize, node.identity, Map::empty(), bytes));
    }
}

// Messages to the entire mesh.

/// Whom an instance knows once a message to the entire mesh has come, and what it knows of each.
///
/// A peer that a member of the mesh reports as failed is forgotten, unless it is ourselves. One that
/// announces itself is up, under the identity that it states and with the latency that we know of,
/// unless it is ourselves. Nothing else changes.
pub proof fn law_what_a_broadcast_tells(
    node: Node,
    t: Table,
    sender: Peer,
    msg: SwimBroadcastView,
    now: Instant,
    peer: Peer,
)
    requires
        t.wf(),
    ensures
        ({
            let after = after_broadcast(node, t, sender, msg, now);
            let has_failed = msg == SwimBroadcastView::Failed(peer) && peer != node.self_addr
                && t.peers.contains_key(sender);
            let has_joined = msg matches SwimBroadcastView::Join { addr, .. } && addr == peer && peer
                != node.self_addr;
            &&& after.wf()
            &&& after.peers.contains_key(peer) <==> (t.peers.contains_key(peer) && !has_failed)
                || has_joined
            &&& t.peers.contains_key(peer) && !has_failed && !has_joined ==> after.peers[peer]
                == t.peers[peer]
            &&& has_joined ==> {
                &&& msg matches SwimBroadcastView::Join { identity, .. }
                    && after.peers[peer].identity == identity
                &&& after.peers[peer].state == PeerState::Known(now)
                &&& after.peers[peer].latency == if t.peers.contains_key(peer) {
                    t.peers[peer].latency
                } else {
                    None
                }
            }
        }),
{
    match msg {
        SwimBroadcastView::Failed(p) => {
            lemma_forget(t, p);
        },
        SwimBroadcastView::Join { addr, identity } => {
            lemma_put(
                t,
                addr,
                PeerInfoView {
                    identity,
                    state: PeerState::Known(now),
                    latency: if t.peers.contains_key(addr) {
                        t.peers[addr].latency
                    } else {
                        None
                    },
                },
            );
        },
        SwimBroadcastView::Probe(_) => {},
    }
}

/// What may be answered to a message to the entire mesh: a list of peers to a newcomer other than
/// ourselves, our identity to a probe, and nothing to anything else.
pub proof fn law_what_a_broadcast_asks_for(node: Node, t: Table, msg: SwimBroadcastView)
    ensures
        match answer_to(node, t, msg) {
            Answer::KnownPeers(to) => {
                &&& msg matches SwimBroadcastView::Join { addr, .. } && addr == to
                &&& to != node.self_addr
                &&& !t.peers.contains_key(to)
            },
            Answer::ProbeResponse(to) => msg == SwimBroadcastView::Probe(to),
            Answer::Nothing => match msg {
                SwimBroadcastView::Failed(_) => true,
                SwimBroadcastView::Join { addr, .. } => addr == node.self_addr
                    || t.peers.contains_key(addr),
                SwimBroadcastView::Probe(_) => false,
            },
        },
{
}

/// Whether an answer is sent, and with which chance that is drawn.
///
/// If no more than two peers are known, there is no draw, and the answer is sent. Otherwise one draw
/// is made, with a chance of one in a hundred, or of a hundred less the square of the number of the
/// others where that is more, and the answer is sent if it comes out. A list that names no one is not
/// sent at all.
pub proof fn law_whether_to_answer(node: Node, t: Table, answer: Answer, drawn: bool)
    requires
        t.wf(),
        !(answer is Nothing),
    ensures
        ({
            let others = t.peers.dom().len() - 2;
            let after = after_answer(node, t, answer, drawn);
            let is_sent = answers(t, answer, drawn);
            let is_there_anyone = exists|peer: Peer| #[trigger]
                t.peers.contains_key(peer) && t.peers[peer].state is Known;
            &&& is_sent <==> (others <= 0 || drawn) && (answer is ProbeResponse || is_there_anyone)
            &&& after.self_addr == node.self_addr
            &&& after.identity == node.identity
            &&& after.curious_peers == node.curious_peers
            &&& after.last_broadcast_time == node.last_broadcast_time
            &&& others <= 0 ==> after.draws == node.draws
            &&& others > 0 ==> {
                let draw = after.draws.last();
                &&& after.draws.len() == node.draws.len() + 1
                &&& after.draws.drop_last() == node.draws
                &&& draw.came_out == drawn
                &&& draw.denominator == 100
                &&& draw.numerator >= 1
                &&& draw.numerator >= 100 - others * others
                &&& draw.numerator == 1 || draw.numerator == 100 - others * others
            }
        }),
{
    t.order.unique_seq_to_set();
    let others = t.peers.dom().len() - 2;
    let after = after_answer(node, t, answer, drawn);
    let confident = confident_peers(t);
    if exists|peer: Peer| #[trigger] t.peers.contains_key(peer) && t.peers[peer].state is Known {
        let peer = choose|peer: Peer| #[trigger]
            t.peers.contains_key(peer) && t.peers[peer].state is Known;
        assert(confident.contains_key(peer));
        assert(confident != Map::<Peer, Seq<u8>>::empty());
    } else {
        assert forall|peer: Peer| !(#[trigger] confident.contains_key(peer)) by {
            assert(is_confident(t, peer) ==> t.peers.contains_key(peer));
        }
        assert(confident =~= Map::<Peer, Seq<u8>>::empty());
    }
    if others > 0 {
        assert(after.draws.drop_last() =~= node.draws);
        assert(others * others >= 1) by (nonlinear_arith)
            requires
                others > 0,
        ;
    }
}

/// The chance of an answer in percent, of an instance that knows of so many peers.
pub proof fn law_chance_of_an_answer(num_known: nat)
    ensures
        num_known <= 2 ==> response_percent(num_known) == 100,
        num_known > 2 ==> {
            let others = num_known - 2;
            &&& response_percent(num_known) >= 1
            &&& response_percent(num_known) >= 100 - others * others
            &&& response_percent(num_known) == 1 || response_percent(num_known) == 100 - others
                * others
        },
{
}

/// What an answer to a message to the entire mesh says, and to whom: our identity to a probe, and to
/// a newcomer a list of those who are up, as far as we know, with their identities.
pub proof fn law_what_an_answer_says<F: Fn(&SwimEnvelope) -> Vec<u8>>(
    serialize: F,
    node: Node,
    t: Table,
    answer: Answer,
    action: ActionView,
    peer: Peer,
)
    requires
        is_reply(serialize, node, t, answer, action),
    ensures
        match answer {
            Answer::Nothing => false,
            Answer::ProbeResponse(addr) => action == (ActionView::AnswerProbe {
                to: addr,
                identity: node.identity,
            }),
            Answer::KnownPeers(addr) => action matches ActionView::SendBytes { to, bytes } && to
                == addr && is_fit(serialize, node.identity, confident_peers(t), bytes),
        },
        confident_peers(t).contains_key(peer) <==> t.peers.contains_key(peer)
            && t.peers[peer].state is Known,
        confident_peers(t).contains_key(peer) ==> confident_peers(t)[peer]
            == t.peers[peer].identity,
{
}

} // verus!
