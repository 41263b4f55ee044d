//! What holds of the protocol as a whole.
use crate::action::ActionView;
use crate::addr::{lemma_sorted, sorted, Peer};
use crate::broadcast::{
    after_broadcast, after_draw, answer_to, confident_peers, is_reply, response_percent, Answer,
};
use crate::client::{own_entry, Client};
use crate::crc::{law_checksum_of_nothing, law_small_changes_show};
use crate::events::{is_new_fingerprint, news, news_of, news_of_all, NotificationView};
use crate::fingerprint::{fingerprint_of, members_bytes, membership, membership_bytes};
use crate::kaboodle::{
    asks_for_peers, curious_about, fingerprint, heard_from, is_shared, learn, may_reply, num_peers,
    on_message, pass_on, read_time, shared_peers, Node, INCOMING_BUFFER_SIZE, MAX_PEER_SHARE_AGE, MIN_READ_TIME,
    NUM_INDIRECT_PING_PEERS, PING_TIMEOUT, PROTOCOL_PERIOD, REBROADCAST_INTERVAL,
};
use crate::map::{lemma_filter, lemma_without_absent, lemma_without_keeps, with, without, VecMap};
use crate::networking::{
    best_interface, first_where, ipv4_sockets, ipv6_sockets, is_loopback_ip, leads_outside,
    Interface, Wish,
};
use crate::observable_hashmap::Event;
use crate::random::{picked_at, sample_of};
use crate::round::after_join;
use crate::structs::{
    identities, EventView, Fingerprint, NoticeView, PeerInfoView, PeerState, SwimBroadcastView,
    SwimEnvelope, SwimMessage, SwimMessageView,
};
use crate::suspicion::{
    announce_failed, are_samples, ask_about, ask_about_all, forget_all, helpers, is_asked_about,
    is_given_up, is_lost, is_suspected, lemma_helpers, may_be_pinged, on_suspicion, set_states,
};
use crate::table::Table;
use crate::text::addr_text;
use crate::time::{elapsed, Duration, Instant};
use crate::trimming::{empty_list_fits, encodes, is_fit, is_trimming};
use bytes::Bytes;
use vstd::prelude::*;
use vstd::utf8::encode_utf8;

verus! {

// The table of known peers.

/// An entry keeps a table in order.
pub proof fn lemma_put(t: Table, peer: Peer, info: PeerInfoView)
    requires
        t.wf(),
    ensures
        t.put(peer, info).wf(),
        t.put(peer, info).peers == t.peers.insert(peer, info),
        t.put(peer, info).observers == t.observers,
{
    let t2 = t.put(peer, info);
    if t.order.contains(peer) {
        assert(t.order.to_set().contains(peer));
        assert(t2.peers.dom() =~= t2.order.to_set());
    } else {
        assert(!t.order.to_set().contains(peer));
        t.order.lemma_push_to_set_commute(peer);
        assert(t2.order.no_duplicates());
        assert(t2.peers.dom() =~= t2.order.to_set());
    }
}

/// Forgetting keeps a table in order.
pub proof fn lemma_forget(t: Table, peer: Peer)
    requires
        t.wf(),
    ensures
        t.forget(peer).wf(),
        t.forget(peer).peers == t.peers.remove(peer),
        t.forget(peer).observers == t.observers,
{
    let t2 = t.forget(peer);
    if t.peers.contains_key(peer) {
        lemma_without_keeps(t.order, peer);
        assert forall|p: Peer| #[trigger] t2.peers.dom().contains(p) <==> t2.order.to_set().contains(
            p,
        ) by {
            assert(t.peers.dom().contains(p) <==> t.order.to_set().contains(p));
        }
        assert(t2.peers.dom() =~= t2.order.to_set());
    } else {
        assert(t.peers =~= t.peers.remove(peer));
    }
}

/// A new state keeps a table in order.
pub proof fn lemma_set_state(t: Table, peer: Peer, state: PeerState)
    requires
        t.wf(),
    ensures
        t.set_state(peer, state).wf(),
        t.set_state(peer, state).peers == if t.peers.contains_key(peer) {
            t.peers.insert(peer, PeerInfoView { state, ..t.peers[peer] })
        } else {
            t.peers
        },
        t.set_state(peer, state).observers == t.observers,
{
    if t.peers.contains_key(peer) {
        if t.peers[peer].state != state {
            lemma_put(t, peer, PeerInfoView { state, ..t.peers[peer] });
        } else {
            assert(t.peers =~= t.peers.insert(peer, PeerInfoView { state, ..t.peers[peer] }));
        }
    }
}

/// New states for some peers leave everything else as it is.
pub proof fn lemma_set_states(t: Table, listed: Seq<Peer>, state: PeerState)
    requires
        t.wf(),
        forall|i: int| 0 <= i < listed.len() ==> t.peers.contains_key(#[trigger] listed[i]),
    ensures
        set_states(t, listed, state).wf(),
        set_states(t, listed, state).peers.dom() == t.peers.dom(),
        forall|peer: Peer| #[trigger]
            t.peers.contains_key(peer) ==> set_states(t, listed, state).peers[peer] == (
            if listed.contains(peer) {
                PeerInfoView { state, ..t.peers[peer] }
            } else {
                t.peers[peer]
            }),
        set_states(t, listed, state).observers == t.observers,
    decreases listed.len(),
{
    if listed.len() > 0 {
        let rest = listed.drop_last();
        assert forall|i: int| 0 <= i < rest.len() implies t.peers.contains_key(
            #[trigger] rest[i],
        ) by {
            assert(listed[i] == rest[i]);
        }
        lemma_set_states(t, rest, state);
        let before = set_states(t, rest, state);
        let last = listed.last();
        assert(t.peers.contains_key(listed[listed.len() - 1]));
        lemma_set_state(before, last, state);
        let after = set_states(t, listed, state);
        assert(after.peers.dom() =~= t.peers.dom());
        assert forall|peer: Peer| #[trigger] t.peers.contains_key(peer) implies after.peers[peer]
            == (if listed.contains(peer) {
            PeerInfoView { state, ..t.peers[peer] }
        } else {
            t.peers[peer]
        }) by {
            assert(before.peers.contains_key(peer));
            if listed.contains(peer) && peer != last {
                let k = listed.index_of(peer);
                assert(rest[k] == peer);
            }
            if rest.contains(peer) {
                assert(listed[rest.index_of(peer)] == peer);
            }
        }
    }
}

/// Forgetting some peers leaves everyone else.
pub proof fn lemma_forget_all(t: Table, listed: Seq<Peer>)
    requires
        t.wf(),
    ensures
        forget_all(t, listed).wf(),
        forget_all(t, listed).peers == t.peers.remove_keys(listed.to_set()),
        forget_all(t, listed).observers == t.observers,
    decreases listed.len(),
{
    if listed.len() > 0 {
        let rest = listed.drop_last();
        lemma_forget_all(t, rest);
        lemma_forget(forget_all(t, rest), listed.last());
        assert(listed =~= rest.push(listed.last()));
        rest.lemma_push_to_set_commute(listed.last());
        assert(forget_all(t, listed).peers =~= t.peers.remove_keys(listed.to_set()));
    } else {
        assert(t.peers =~= t.peers.remove_keys(listed.to_set()));
    }
}

/// Being told of peers adds those that are new, and leaves those that are known as they are.
pub proof fn law_learning_is_a_union(
    t: Table,
    listed: Seq<Peer>,
    members: Map<Peer, Seq<u8>>,
    now: Instant,
)
    requires
        t.wf(),
    ensures
        learn(t, listed, members, now).wf(),
        learn(t, listed, members, now).observers == t.observers,
        learn(t, listed, members, now).peers.dom() == t.peers.dom().union(listed.to_set()),
        forall|peer: Peer| #[trigger]
            t.peers.contains_key(peer) ==> learn(t, listed, members, now).peers[peer]
                == t.peers[peer],
        forall|peer: Peer|
            !t.peers.contains_key(peer) && #[trigger] listed.contains(peer) ==> learn(
                t,
                listed,
                members,
                now,
            ).peers[peer] == (PeerInfoView {
                identity: members[peer],
                state: PeerState::Known((now - MAX_PEER_SHARE_AGE) as u128),
                latency: None,
            }),
    decreases listed.len(),
{
    let after = learn(t, listed, members, now);
    if listed.len() > 0 {
        let rest = listed.drop_last();
        let last = listed.last();
        law_learning_is_a_union(t, rest, members, now);
        let before = learn(t, rest, members, now);
        let info = PeerInfoView {
            identity: members[last],
            state: PeerState::Known((now - MAX_PEER_SHARE_AGE) as u128),
            latency: None,
        };
        lemma_put(before, last, info);
        assert(listed =~= rest.push(last));
        rest.lemma_push_to_set_commute(last);
        assert(after.peers.dom() =~= t.peers.dom().union(listed.to_set()));
        assert forall|peer: Peer| !t.peers.contains_key(peer) && #[trigger] listed.contains(
            peer,
        ) implies after.peers[peer] == (PeerInfoView {
            identity: members[peer],
            state: PeerState::Known((now - MAX_PEER_SHARE_AGE) as u128),
            latency: None,
        }) by {
            let k = listed.index_of(peer);
            if k < rest.len() {
                assert(rest[k] == peer);
                assert(rest.contains(peer));
                assert(before.peers.dom().contains(peer)) by {
                    assert(rest.to_set().contains(peer));
                }
            }
            if rest.contains(peer) {
                assert(rest.to_set().contains(peer));
            }
            if peer == last && !rest.contains(peer) {
                assert(!rest.to_set().contains(peer));
                assert(!before.peers.dom().contains(peer));
            }
        }
    } else {
        assert(t.peers.dom().union(listed.to_set()) =~= t.peers.dom());
    }
}

// Peers that do not answer.

/// What becomes of each peer when an instance looks after those that do not answer: it stays as it
/// is, unless others are asked about it or it is given up.
pub proof fn law_suspicion(node: Node, t: Table, now: Instant, asked: Seq<Seq<Peer>>)
    requires
        t.wf(),
    ensures
        on_suspicion(node, t, now, asked).table.wf(),
        on_suspicion(node, t, now, asked).table.observers == t.observers,
        forall|peer: Peer| #[trigger]
            on_suspicion(node, t, now, asked).table.peers.contains_key(peer)
                <==> t.peers.contains_key(peer) && !is_given_up(node, t, now)(peer),
        forall|peer: Peer| #[trigger]
            on_suspicion(node, t, now, asked).table.peers.contains_key(peer) ==> on_suspicion(
                node,
                t,
                now,
                asked,
            ).table.peers[peer] == (if is_asked_about(node, t, now)(peer) {
                PeerInfoView { state: PeerState::WaitingForIndirectPing(now), ..t.peers[peer] }
            } else {
                t.peers[peer]
            }),
{
    let asked_pred = is_asked_about(node, t, now);
    let given_up_pred = is_given_up(node, t, now);
    let asked_about = t.order.filter(asked_pred);
    let given_up = t.order.filter(given_up_pred);
    let state = PeerState::WaitingForIndirectPing(now);
    lemma_filter(t.order, asked_pred);
    lemma_filter(t.order, given_up_pred);
    assert forall|i: int| 0 <= i < asked_about.len() implies t.peers.contains_key(
        #[trigger] asked_about[i],
    ) by {
        assert(asked_about.contains(asked_about[i]));
        assert(t.order.to_set().contains(asked_about[i]));
    }
    lemma_set_states(t, asked_about, state);
    let waiting = set_states(t, asked_about, state);
    lemma_forget_all(waiting, given_up);
    let after = on_suspicion(node, t, now, asked).table;
    assert forall|peer: Peer| #[trigger] after.peers.contains_key(peer) <==> t.peers.contains_key(
        peer,
    ) && !given_up_pred(peer) by {
        assert(waiting.peers.dom().contains(peer) <==> t.peers.dom().contains(peer));
        assert(given_up.to_set().contains(peer) <==> given_up.contains(peer));
        assert(t.order.to_set().contains(peer) <==> t.order.contains(peer));
    }
    assert forall|peer: Peer| #[trigger] after.peers.contains_key(peer) implies after.peers[peer]
        == (if asked_pred(peer) {
        PeerInfoView { state, ..t.peers[peer] }
    } else {
        t.peers[peer]
    }) by {
        assert(t.order.to_set().contains(peer));
        assert(asked_about.contains(peer) <==> asked_pred(peer));
    }
}

/// No one asks but for pings of the peers about which it asks, and only those whom it can ask.
pub proof fn lemma_requests(node: Node, peers: Seq<Peer>, asked: Seq<Seq<Peer>>, action: ActionView)
    requires
        asked.len() >= peers.len(),
        ask_about_all(node, peers, asked).contains(action),
    ensures
        exists|i: int, j: int|
            0 <= i < peers.len() && 0 <= j < asked[i].len() && action == node.send(
                #[trigger] asked[i][j],
                SwimMessageView::PingRequest(peers[i]),
            ),
    decreases peers.len(),
{
    if peers.len() > 0 {
        let rest = ask_about_all(node, peers.drop_last(), asked);
        let last = peers.len() - 1;
        let requests = ask_about(node, peers.last(), asked[last]);
        let all = ask_about_all(node, peers, asked);
        let k = all.index_of(action);
        if k < rest.len() {
            assert(rest[k] == action);
            lemma_requests(node, peers.drop_last(), asked, action);
            let (i, j) = choose|i: int, j: int|
                0 <= i < peers.drop_last().len() && 0 <= j < asked[i].len() && action == node.send(
                    #[trigger] asked[i][j],
                    SwimMessageView::PingRequest(peers.drop_last()[i]),
                );
            assert(peers[i] == peers.drop_last()[i]);
            assert(action == node.send(asked[i][j], SwimMessageView::PingRequest(peers[i])));
        } else {
            let j = k - rest.len();
            assert(requests[j] == action);
            assert(action == node.send(asked[last][j], SwimMessageView::PingRequest(peers[last])));
        }
    }
}

/// The mesh is told that a peer failed if and only if we give up on it.
pub proof fn law_failures_are_announced(
    node: Node,
    t: Table,
    now: Instant,
    asked: Seq<Seq<Peer>>,
    peer: Peer,
)
    requires
        t.wf(),
        are_samples(node, t, now, asked),
    ensures
        on_suspicion(node, t, now, asked).actions.contains(
            ActionView::Broadcast(SwimBroadcastView::Failed(peer)),
        ) <==> t.peers.contains_key(peer) && !on_suspicion(
            node,
            t,
            now,
            asked,
        ).table.peers.contains_key(peer),
{
    law_suspicion(node, t, now, asked);
    let asked_about = t.order.filter(is_asked_about(node, t, now));
    let given_up = t.order.filter(is_given_up(node, t, now));
    let requests = ask_about_all(node, asked_about, asked);
    let failures = announce_failed(given_up);
    let all = requests + failures;
    let news = ActionView::Broadcast(SwimBroadcastView::Failed(peer));
    lemma_filter(t.order, is_given_up(node, t, now));
    assert(t.order.to_set().contains(peer) <==> t.order.contains(peer));
    if all.contains(news) {
        let k = all.index_of(news);
        if k < requests.len() {
            assert(requests[k] == news);
            lemma_requests(node, asked_about, asked, news);
        } else {
            assert(failures[k - requests.len()] == news);
            assert(given_up[k - requests.len()] == peer);
            assert(given_up.contains(peer));
        }
    }
    if given_up.contains(peer) {
        let k = given_up.index_of(peer);
        assert(failures[k] == news);
        assert(all[requests.len() + k] == news);
    }
}

pub proof fn lemma_requests_are_sent(
    node: Node,
    peers: Seq<Peer>,
    asked: Seq<Seq<Peer>>,
    i: int,
    j: int,
)
    requires
        asked.len() >= peers.len(),
        0 <= i < peers.len(),
        0 <= j < asked[i].len(),
    ensures
        ask_about_all(node, peers, asked).contains(
            node.send(asked[i][j], SwimMessageView::PingRequest(peers[i])),
        ),
    decreases peers.len(),
{
    let last = peers.len() - 1;
    let rest = ask_about_all(node, peers.drop_last(), asked);
    let requests = ask_about(node, peers.last(), asked[last]);
    let all = ask_about_all(node, peers, asked);
    let request = node.send(asked[i][j], SwimMessageView::PingRequest(peers[i]));
    if i == last {
        assert(requests[j] == request);
        assert(all[rest.len() + j] == request);
    } else {
        lemma_requests_are_sent(node, peers.drop_last(), asked, i, j);
        assert(peers.drop_last()[i] == peers[i]);
        let k = rest.index_of(request);
        assert(all[k] == request);
    }
}

/// About a peer that has not answered our ping in time a few others are asked, or all if they are
/// not so many: peers that are up as far as we know, neither ourselves nor the peer itself.
pub proof fn law_suspects_are_asked_about(
    node: Node,
    t: Table,
    now: Instant,
    asked: Seq<Seq<Peer>>,
    peer: Peer,
)
    requires
        t.wf(),
        are_samples(node, t, now, asked),
        t.peers.contains_key(peer),
        t.peers[peer].state matches PeerState::WaitingForPing(sent) && elapsed(now, sent)
            >= PING_TIMEOUT,
        helpers(node, t).len() > 0,
    ensures
        exists|i: int|
            {
                &&& 0 <= i < asked.len()
                &&& (#[trigger] asked[i]).len() == if helpers(node, t).len()
                    < NUM_INDIRECT_PING_PEERS {
                    helpers(node, t).len()
                } else {
                    NUM_INDIRECT_PING_PEERS as nat
                }
                &&& asked[i].no_duplicates()
                &&& forall|j: int|
                    0 <= j < asked[i].len() ==> {
                        let helper = #[trigger] asked[i][j];
                        &&& t.peers.contains_key(helper)
                        &&& t.peers[helper].state is Known
                        &&& helper != node.self_addr
                        &&& helper != peer
                        &&& on_suspicion(node, t, now, asked).actions.contains(
                            node.send(helper, SwimMessageView::PingRequest(peer)),
                        )
                    }
            },
{
    let asked_about = t.order.filter(is_asked_about(node, t, now));
    lemma_filter(t.order, is_asked_about(node, t, now));
    lemma_helpers(node, t);
    assert(t.order.to_set().contains(peer));
    assert(asked_about.contains(peer));
    let i = asked_about.index_of(peer);
    let from = helpers(node, t);
    let sample = asked[i];
    assert(sample_of(from, sample, NUM_INDIRECT_PING_PEERS as nat));
    let at = choose|at: Seq<int>| picked_at(from, sample, at);
    assert forall|a: int, b: int| 0 <= a < sample.len() && 0 <= b < sample.len() && a
        != b implies sample[a] != sample[b] by {
        assert(at[a] != at[b]);
        assert(from[at[a]] != from[at[b]]);
    }
    let requests = ask_about_all(node, asked_about, asked);
    let all = on_suspicion(node, t, now, asked).actions;
    assert forall|j: int| 0 <= j < sample.len() implies {
        let helper = #[trigger] sample[j];
        &&& t.peers.contains_key(helper)
        &&& t.peers[helper].state is Known
        &&& helper != node.self_addr
        &&& helper != peer
        &&& all.contains(node.send(helper, SwimMessageView::PingRequest(peer)))
    } by {
        let helper = sample[j];
        assert(0 <= at[j] < from.len());
        assert(from.contains(helper));
        lemma_requests_are_sent(node, asked_about, asked, i, j);
        let request = node.send(helper, SwimMessageView::PingRequest(peer));
        let k = requests.index_of(request);
        assert(all[k] == request);
    }
}

/// A peer that is silent for good is found out: once it has not answered our ping in time, and then
/// has not answered those whom we asked in time, it is gone.
pub proof fn law_silent_peers_are_found_out(
    node: Node,
    t: Table,
    peer: Peer,
    first: Instant,
    asked: Seq<Seq<Peer>>,
    second: Instant,
    asked2: Seq<Seq<Peer>>,
)
    requires
        t.wf(),
        t.peers.contains_key(peer),
        t.peers[peer].state matches PeerState::WaitingForPing(sent) && elapsed(first, sent)
            >= PING_TIMEOUT,
        elapsed(second, first) >= PING_TIMEOUT,
    ensures
        ({
            let once = on_suspicion(node, t, first, asked);
            let twice = on_suspicion(once.node, once.table, second, asked2);
            &&& !twice.table.peers.contains_key(peer)
            &&& !twice.node.curious_peers.contains_key(peer)
        }),
{
    let once = on_suspicion(node, t, first, asked);
    let twice = on_suspicion(once.node, once.table, second, asked2);
    law_suspicion(node, t, first, asked);
    law_suspicion(once.node, once.table, second, asked2);
    if once.table.peers.contains_key(peer) {
        assert(is_suspected(t, first)(peer));
        assert(is_asked_about(node, t, first)(peer));
        assert(once.table.peers[peer].state == PeerState::WaitingForIndirectPing(first));
        assert(is_lost(once.table, second)(peer));
        lemma_filter(once.table.order, is_given_up(once.node, once.table, second));
        assert(once.table.order.to_set().contains(peer));
        let given_up = once.table.order.filter(is_given_up(once.node, once.table, second));
        assert(given_up.contains(peer));
        assert(given_up.to_set().contains(peer));
    } else {
        lemma_filter(t.order, is_given_up(node, t, first));
        assert(t.order.to_set().contains(peer));
        let given_up = t.order.filter(is_given_up(node, t, first));
        assert(given_up.contains(peer));
        assert(given_up.to_set().contains(peer));
    }
}

/// A peer is not given up before it has had its time: while we wait for it since less than the
/// timeout, nothing is done about it.
pub proof fn law_peers_get_their_time(
    node: Node,
    t: Table,
    peer: Peer,
    now: Instant,
    asked: Seq<Seq<Peer>>,
)
    requires
        t.wf(),
        t.peers.contains_key(peer),
        t.peers[peer].state is Known || elapsed(now, t.peers[peer].state.time()) < PING_TIMEOUT,
    ensures
        on_suspicion(node, t, now, asked).table.peers.contains_key(peer),
        on_suspicion(node, t, now, asked).table.peers[peer] == t.peers[peer],
{
    law_suspicion(node, t, now, asked);
    assert(!is_asked_about(node, t, now)(peer));
    assert(!is_given_up(node, t, now)(peer));
    assert(on_suspicion(node, t, now, asked).table.peers.contains_key(peer));
}

// Hearing from peers.

/// The message says that `peer` has answered a ping.
pub open spec fn vouches_for(msg: SwimMessage, peer: Peer) -> bool {
    msg matches SwimMessage::Ack { peer: p, .. } && p == peer
}

/// Whoever sends us a message is known from then on, and no longer suspected. Of all others nothing
/// changes, but for a peer that has answered, as the message says: it is no longer suspected,
/// either.
pub proof fn law_senders_are_known(
    node: Node,
    t: Table,
    sender: Peer,
    identity: Seq<u8>,
    latency: Option<Duration>,
    msg: SwimMessage,
    now: Instant,
    reply: Seq<ActionView>,
)
    requires
        t.wf(),
    ensures
        ({
            let heard = heard_from(t, sender, identity, now, latency);
            let after = on_message(node, heard, sender, msg, now, reply).table;
            &&& after.wf()
            &&& after.observers == t.observers
            &&& after.peers.contains_key(sender)
            &&& after.peers[sender] == (PeerInfoView {
                identity,
                state: PeerState::Known(now),
                latency,
            })
            &&& forall|peer: Peer| #[trigger]
                t.peers.contains_key(peer) && peer != sender ==> after.peers.contains_key(peer)
                    && after.peers[peer] == (if vouches_for(msg, peer) {
                    PeerInfoView { state: PeerState::Known(now), ..t.peers[peer] }
                } else {
                    t.peers[peer]
                })
        }),
{
    let info = PeerInfoView { identity, state: PeerState::Known(now), latency };
    lemma_put(t, sender, info);
    let heard = heard_from(t, sender, identity, now, latency);
    if let SwimMessage::KnownPeers(peers) = msg {
        law_learning_is_a_union(heard, peers.order(), identities(peers@), now);
        let after = learn(heard, peers.order(), identities(peers@), now);
        assert(after.peers.dom().contains(sender));
        assert forall|peer: Peer| #[trigger] t.peers.contains_key(peer) && peer
            != sender implies after.peers.contains_key(peer) && after.peers[peer]
            == t.peers[peer] by {
            assert(heard.peers.contains_key(peer));
            assert(after.peers.dom().contains(peer));
        }
    }
    if let SwimMessage::Ack { peer, .. } = msg {
        lemma_set_state(heard, peer, PeerState::Known(now));
    }
}

/// A peer that someone vouches for is not given up: once an answer of it has reached us, by whatever
/// way, and however long we had been waiting, it stays until it is pinged and silent again.
pub proof fn law_vouched_peers_are_kept(
    node: Node,
    t: Table,
    sender: Peer,
    identity: Seq<u8>,
    latency: Option<Duration>,
    msg: SwimMessage,
    now: Instant,
    reply: Seq<ActionView>,
    peer: Peer,
    later: Instant,
    asked: Seq<Seq<Peer>>,
)
    requires
        t.wf(),
        t.peers.contains_key(peer),
        vouches_for(msg, peer),
    ensures
        ({
            let heard = heard_from(t, sender, identity, now, latency);
            let answered = on_message(node, heard, sender, msg, now, reply);
            let after = on_suspicion(answered.node, answered.table, later, asked).table;
            &&& answered.table.peers[peer].state == PeerState::Known(now)
            &&& after.peers.contains_key(peer)
            &&& after.peers[peer] == answered.table.peers[peer]
        }),
{
    law_senders_are_known(node, t, sender, identity, latency, msg, now, reply);
    let heard = heard_from(t, sender, identity, now, latency);
    let answered = on_message(node, heard, sender, msg, now, reply);
    law_peers_get_their_time(answered.node, answered.table, peer, later, asked);
}

/// We never forget ourselves, nor suspect ourselves: whatever comes in and however time passes, our
/// own entry says that we are up.
pub proof fn law_self_is_kept(
    node: Node,
    t: Table,
    sender: Peer,
    identity: Seq<u8>,
    latency: Option<Duration>,
    msg: SwimMessage,
    reply: Seq<ActionView>,
    broadcast: SwimBroadcastView,
    asked: Seq<Seq<Peer>>,
    target: Peer,
    now: Instant,
)
    requires
        t.wf(),
        t.peers.contains_key(node.self_addr),
        t.peers[node.self_addr].state is Known,
    ensures
        ({
            let heard = heard_from(t, sender, identity, now, latency);
            let after = on_message(node, heard, sender, msg, now, reply).table;
            after.peers.contains_key(node.self_addr) && after.peers[node.self_addr].state is Known
        }),
        ({
            let after = after_broadcast(node, t, sender, broadcast, now);
            after.peers.contains_key(node.self_addr) && after.peers[node.self_addr].state is Known
        }),
        ({
            let after = on_suspicion(node, t, now, asked).table;
            after.peers.contains_key(node.self_addr) && after.peers[node.self_addr]
                == t.peers[node.self_addr]
        }),
        may_be_pinged(node, t, target) ==> {
            let after = t.set_state(target, PeerState::WaitingForPing(now));
            &&& after.peers.contains_key(node.self_addr)
            &&& after.peers[node.self_addr] == t.peers[node.self_addr]
            &&& after.forget(target).peers.contains_key(node.self_addr)
            &&& after.forget(target).peers[node.self_addr] == t.peers[node.self_addr]
        },
{
    law_senders_are_known(node, t, sender, identity, latency, msg, now, reply);
    let heard = heard_from(t, sender, identity, now, latency);
    let after = on_message(node, heard, sender, msg, now, reply).table;
    match broadcast {
        SwimBroadcastView::Failed(peer) => {
            lemma_forget(t, peer);
        },
        SwimBroadcastView::Join { addr, identity: joining } => {
            let info = PeerInfoView {
                identity: joining,
                state: PeerState::Known(now),
                latency: if t.peers.contains_key(addr) {
                    t.peers[addr].latency
                } else {
                    None
                },
            };
            lemma_put(t, addr, info);
        },
        SwimBroadcastView::Probe(_) => {},
    }
    law_suspicion(node, t, now, asked);
    assert(!is_asked_about(node, t, now)(node.self_addr));
    assert(!is_given_up(node, t, now)(node.self_addr));
    assert(on_suspicion(node, t, now, asked).table.peers.contains_key(node.self_addr));
    if may_be_pinged(node, t, target) {
        lemma_helpers(node, t);
        lemma_set_state(t, target, PeerState::WaitingForPing(now));
        lemma_forget(t.set_state(target, PeerState::WaitingForPing(now)), target);
    }
}

/// What comes in and what time brings carries no time that lies ahead, so that the time since a ping
/// was sent can always be told.
pub proof fn law_times_do_not_lie_ahead(
    node: Node,
    t: Table,
    sender: Peer,
    identity: Seq<u8>,
    latency: Option<Duration>,
    msg: SwimMessage,
    reply: Seq<ActionView>,
    broadcast: SwimBroadcastView,
    asked: Seq<Seq<Peer>>,
    target: Peer,
    before: Instant,
    now: Instant,
)
    requires
        t.wf(),
        t.times_at_most(before),
        before <= now,
        now >= MAX_PEER_SHARE_AGE,
    ensures
        on_message(
            node,
            heard_from(t, sender, identity, now, latency),
            sender,
            msg,
            now,
            reply,
        ).table.times_at_most(now),
        after_broadcast(node, t, sender, broadcast, now).times_at_most(now),
        on_suspicion(node, t, now, asked).table.times_at_most(now),
        t.set_state(target, PeerState::WaitingForPing(now)).times_at_most(now),
{
    let heard = heard_from(t, sender, identity, now, latency);
    law_senders_are_known(node, t, sender, identity, latency, msg, now, reply);
    let info = PeerInfoView { identity, state: PeerState::Known(now), latency };
    lemma_put(t, sender, info);
    let after = on_message(node, heard, sender, msg, now, reply).table;
    assert(after.times_at_most(now)) by {
        if let SwimMessage::KnownPeers(peers) = msg {
            law_learning_is_a_union(heard, peers.order(), identities(peers@), now);
            assert forall|peer: Peer| #[trigger] after.peers.contains_key(
                peer,
            ) implies after.peers[peer].state.time() <= now by {
                assert(after.peers.dom().contains(peer));
                if heard.peers.contains_key(peer) {
                    if peer != sender {
                        assert(t.peers.contains_key(peer));
                    }
                } else {
                    assert(peers.order().to_set().contains(peer));
                    assert(peers.order().contains(peer));
                }
            }
        } else {
            if let SwimMessage::Ack { peer, .. } = msg {
                lemma_set_state(heard, peer, PeerState::Known(now));
            }
            assert forall|peer: Peer| #[trigger] after.peers.contains_key(
                peer,
            ) implies after.peers[peer].state.time() <= now by {
                if peer != sender {
                    assert(t.peers.contains_key(peer));
                }
            }
        }
    }
    assert(t.times_at_most(now)) by {
        assert forall|peer: Peer| #[trigger] t.peers.contains_key(
            peer,
        ) implies t.peers[peer].state.time() <= now by {}
    }
    match broadcast {
        SwimBroadcastView::Failed(peer) => {
            lemma_forget(t, peer);
            assert(t.forget(peer).times_at_most(now)) by {
                assert forall|p: Peer| #[trigger] t.forget(peer).peers.contains_key(
                    p,
                ) implies t.forget(peer).peers[p].state.time() <= now by {
                    assert(t.peers.contains_key(p));
                }
            }
        },
        SwimBroadcastView::Join { addr, identity: joining } => {
            let info = PeerInfoView {
                identity: joining,
                state: PeerState::Known(now),
                latency: if t.peers.contains_key(addr) {
                    t.peers[addr].latency
                } else {
                    None
                },
            };
            lemma_put(t, addr, info);
            assert(t.put(addr, info).times_at_most(now)) by {
                assert forall|p: Peer| #[trigger] t.put(addr, info).peers.contains_key(
                    p,
                ) implies t.put(addr, info).peers[p].state.time() <= now by {
                    if p != addr {
                        assert(t.peers.contains_key(p));
                    }
                }
            }
        },
        SwimBroadcastView::Probe(_) => {},
    }
    law_suspicion(node, t, now, asked);
    let looked_after = on_suspicion(node, t, now, asked).table;
    assert forall|p: Peer| #[trigger] looked_after.peers.contains_key(
        p,
    ) implies looked_after.peers[p].state.time() <= now by {
        assert(t.peers.contains_key(p));
    }
    lemma_set_state(t, target, PeerState::WaitingForPing(now));
    let pinged = t.set_state(target, PeerState::WaitingForPing(now));
    assert forall|p: Peer| #[trigger] pinged.peers.contains_key(p) implies pinged.peers[p].state.time()
        <= now by {
        assert(t.peers.contains_key(p));
    }
}

// Answering.

/// A ping is answered, and with how we see the mesh once we know whoever sent it.
pub proof fn law_pings_are_answered(
    node: Node,
    t: Table,
    sender: Peer,
    now: Instant,
    msg: SwimMessage,
    reply: Seq<ActionView>,
)
    requires
        msg is Ping,
    ensures
        on_message(node, t, sender, msg, now, reply).actions == seq![
            node.send(
                sender,
                SwimMessageView::Ack {
                    peer: node.self_addr,
                    mesh_fingerprint: fingerprint(t),
                    num_peers: num_peers(t),
                },
            ),
        ],
        on_message(node, t, sender, msg, now, reply).node == node,
{
}

/// Whoever asks for peers is sent those that we are sure of, or as many of them as fit, before
/// anything else.
pub proof fn law_requests_are_answered<F: Fn(&SwimEnvelope) -> Vec<u8>>(
    serialize: F,
    node: Node,
    t: Table,
    sender: Peer,
    now: Instant,
    msg: SwimMessage,
    reply: Seq<ActionView>,
)
    requires
        msg is KnownPeersRequest,
        may_reply(serialize, node, t, sender, msg, now, reply),
        empty_list_fits(serialize, node.identity),
    ensures
        on_message(node, t, sender, msg, now, reply).actions.len() > 0,
        on_message(node, t, sender, msg, now, reply).actions[0] matches ActionView::SendBytes {
            to,
            bytes,
        } && to == sender && is_fit(
            serialize,
            node.identity,
            shared_peers(node, t, sender, now),
            bytes,
        ),
{
}

/// What is sent as a list of peers fits into the buffer of the receiver, and names no one but those
/// that it is to name; all of them, unless that was too long.
pub proof fn law_lists_fit<F: Fn(&SwimEnvelope) -> Vec<u8>>(
    serialize: F,
    identity: Seq<u8>,
    members: Map<Peer, Seq<u8>>,
    bytes: Seq<u8>,
)
    requires
        is_fit(serialize, identity, members, bytes),
    ensures
        bytes.len() < INCOMING_BUFFER_SIZE,
        exists|listed: Map<Peer, Seq<u8>>, first: Seq<u8>|
            {
                &&& #[trigger] encodes(serialize, identity, listed, bytes)
                &&& listed.submap_of(members)
                &&& #[trigger] encodes(serialize, identity, members, first)
                &&& first.len() < INCOMING_BUFFER_SIZE ==> bytes == first
            },
{
    let (dropped, tries) = choose|dropped: Seq<Peer>, tries: Seq<Seq<u8>>| #[trigger]
        is_trimming(serialize, identity, members, dropped, tries) && bytes == tries.last();
    let last = tries.len() - 1;
    let listed = members.remove_keys(dropped.take(last).to_set());
    assert(encodes(serialize, identity, listed, tries[last]));
    assert(listed.submap_of(members));
    let all = members.remove_keys(dropped.take(0).to_set());
    assert(encodes(serialize, identity, all, tries[0]));
    assert(all =~= members);
    if tries[0].len() < INCOMING_BUFFER_SIZE {
        if dropped.len() > 0 {
            assert(tries[0].len() >= INCOMING_BUFFER_SIZE);
        }
    }
}

/// A list of peers is sent as bytes that fit into the buffer of the receiver.
pub open spec fn lists_fit(action: ActionView) -> bool {
    match action {
        ActionView::Send { msg, .. } => !(msg is KnownPeers),
        ActionView::SendBytes { bytes, .. } => bytes.len() < INCOMING_BUFFER_SIZE,
        _ => true,
    }
}

/// No list of peers that is too long for its receiver is ever sent: neither in answer to a message
/// nor to a newcomer, nor when we look after the peers that do not answer.
pub proof fn law_no_list_is_too_long<F: Fn(&SwimEnvelope) -> Vec<u8>>(
    serialize: F,
    node: Node,
    t: Table,
    sender: Peer,
    msg: SwimMessage,
    now: Instant,
    reply: Seq<ActionView>,
    answer: Answer,
    action: ActionView,
    asked: Seq<Seq<Peer>>,
)
    requires
        may_reply(serialize, node, t, sender, msg, now, reply),
        are_samples(node, t, now, asked),
    ensures
        on_message(node, t, sender, msg, now, reply).actions.contains(action) ==> lists_fit(action),
        is_reply(serialize, node, t, answer, action) ==> lists_fit(action),
        on_suspicion(node, t, now, asked).actions.contains(action) ==> lists_fit(action),
{
    let actions = on_message(node, t, sender, msg, now, reply).actions;
    if actions.contains(action) {
        let k = actions.index_of(action);
        if k < reply.len() && msg is KnownPeersRequest {
            assert(actions[k] == reply[k]);
            let bytes = choose|bytes: Seq<u8>| #[trigger]
                is_fit(serialize, node.identity, shared_peers(node, t, sender, now), bytes)
                    && reply == seq![ActionView::SendBytes { to: sender, bytes }];
            law_lists_fit(serialize, node.identity, shared_peers(node, t, sender, now), bytes);
        }
    }
    if is_reply(serialize, node, t, answer, action) {
        if let Answer::KnownPeers(addr) = answer {
            let bytes = choose|bytes: Seq<u8>| #[trigger]
                is_fit(serialize, node.identity, confident_peers(t), bytes) && action == (
                ActionView::SendBytes { to: addr, bytes });
            law_lists_fit(serialize, node.identity, confident_peers(t), bytes);
        }
    }
    let all = on_suspicion(node, t, now, asked).actions;
    if all.contains(action) {
        let asked_about = t.order.filter(is_asked_about(node, t, now));
        let requests = ask_about_all(node, asked_about, asked);
        let k = all.index_of(action);
        if k < requests.len() {
            assert(requests[k] == action);
            lemma_requests(node, asked_about, asked, action);
        }
    }
}

/// What a newcomer is sent names only peers of whose state we are confident: none that we wait for.
pub proof fn law_newcomers_are_told_of_confident_peers(t: Table, peer: Peer)
    ensures
        confident_peers(t).contains_key(peer) <==> t.peers.contains_key(peer)
            && t.peers[peer].state is Known,
        confident_peers(t).contains_key(peer) ==> confident_peers(t)[peer]
            == t.peers[peer].identity,
{
}

// Telling others.

/// Who asks for peers is named neither us nor itself, and no one from whom we have not heard of
/// late.
pub proof fn law_replies_name_others(
    node: Node,
    t: Table,
    requester: Peer,
    now: Instant,
    peer: Peer,
)
    requires
        shared_peers(node, t, requester, now).contains_key(peer),
    ensures
        peer != node.self_addr,
        peer != requester,
        t.peers.contains_key(peer),
        t.peers[peer].state matches PeerState::Known(heard) && elapsed(now, heard)
            < MAX_PEER_SHARE_AGE,
        shared_peers(node, t, requester, now)[peer] == t.peers[peer].identity,
{
}

/// Everyone that a list names is known to whoever gets it.
pub proof fn law_lists_spread_knowledge(
    theirs: Table,
    listed: Seq<Peer>,
    members: Map<Peer, Seq<u8>>,
    now: Instant,
    peer: Peer,
)
    requires
        theirs.wf(),
        listed.to_set() == members.dom(),
        members.contains_key(peer),
    ensures
        learn(theirs, listed, members, now).peers.contains_key(peer),
        learn(theirs, listed, members, now).peers[peer].identity == if theirs.peers.contains_key(
            peer,
        ) {
            theirs.peers[peer].identity
        } else {
            members[peer]
        },
{
    law_learning_is_a_union(theirs, listed, members, now);
    assert(listed.to_set().contains(peer));
    assert(learn(theirs, listed, members, now).peers.dom().contains(peer));
}

/// If two peers see the mesh differently, at least one of them asks the other; if they see it alike,
/// neither does.
pub proof fn law_differences_are_settled(
    ours: Fingerprint,
    our_num_peers: u32,
    theirs: Fingerprint,
    their_num_peers: u32,
)
    ensures
        ours != theirs <==> asks_for_peers(ours, our_num_peers, theirs, their_num_peers)
            || asks_for_peers(theirs, their_num_peers, ours, our_num_peers),
{
}

/// What `serialize` writes can be read in one way only.
pub open spec fn is_readable<F: Fn(&SwimEnvelope) -> Vec<u8>>(serialize: F) -> bool {
    forall|identity: Seq<u8>, one: Map<Peer, Seq<u8>>, other: Map<Peer, Seq<u8>>, bytes: Seq<u8>|
        #[trigger] encodes(serialize, identity, one, bytes) && #[trigger] encodes(
            serialize,
            identity,
            other,
            bytes,
        ) ==> one == other
}

/// A message that lists these peers fits into the buffer of the receiver.
pub open spec fn list_fits<F: Fn(&SwimEnvelope) -> Vec<u8>>(
    serialize: F,
    identity: Seq<u8>,
    members: Map<Peer, Seq<u8>>,
) -> bool {
    forall|bytes: Seq<u8>| #[trigger]
        encodes(serialize, identity, members, bytes) ==> bytes.len() < INCOMING_BUFFER_SIZE
}

/// Whoever is sent a list reads there no one but those that it is to name, with their identities;
/// all of them, unless that was too long.
pub proof fn law_lists_are_read_as_written<F: Fn(&SwimEnvelope) -> Vec<u8>>(
    serialize: F,
    identity: Seq<u8>,
    members: Map<Peer, Seq<u8>>,
    bytes: Seq<u8>,
    read: Map<Peer, Seq<u8>>,
)
    requires
        is_readable(serialize),
        is_fit(serialize, identity, members, bytes),
        encodes(serialize, identity, read, bytes),
    ensures
        read.submap_of(members),
        list_fits(serialize, identity, members) ==> read == members,
{
    law_lists_fit(serialize, identity, members, bytes);
    let (listed, first) = choose|listed: Map<Peer, Seq<u8>>, first: Seq<u8>|
        {
            &&& #[trigger] encodes(serialize, identity, listed, bytes)
            &&& listed.submap_of(members)
            &&& #[trigger] encodes(serialize, identity, members, first)
            &&& first.len() < INCOMING_BUFFER_SIZE ==> bytes == first
        };
    assert(read == listed);
}

/// `bytes` is what an instance sends to `requester`, who asks for peers, and `read` is what is read
/// there.
pub open spec fn is_told_by<F: Fn(&SwimEnvelope) -> Vec<u8>>(
    serialize: F,
    node: Node,
    t: Table,
    requester: Peer,
    now: Instant,
    bytes: Seq<u8>,
    read: VecMap<Peer, Bytes>,
) -> bool {
    &&& is_fit(serialize, node.identity, shared_peers(node, t, requester, now), bytes)
    &&& encodes(serialize, node.identity, identities(read@), bytes)
    &&& read.wf()
}

/// Everyone whom `t` names and `other` does not, but for the two of them, has been heard of late, and
/// all who have fit into one message.
pub open spec fn can_tell_all<F: Fn(&SwimEnvelope) -> Vec<u8>>(
    serialize: F,
    node: Node,
    t: Table,
    requester: Peer,
    other: Table,
    now: Instant,
) -> bool {
    &&& list_fits(serialize, node.identity, shared_peers(node, t, requester, now))
    &&& forall|peer: Peer| #[trigger]
        t.peers.contains_key(peer) && !other.peers.contains_key(peer) && peer != node.self_addr
            && peer != requester ==> is_shared(node, t, requester, now, peer)
}

/// The table once a list of peers has come from `node`.
pub open spec fn after_list(
    t: Table,
    node: Node,
    read: VecMap<Peer, Bytes>,
    now: Instant,
    latency: Option<Duration>,
) -> Table {
    learn(
        heard_from(t, node.self_addr, node.identity, now, latency),
        read.order(),
        identities(read@),
        now,
    )
}

/// Whom an instance knows once a list has come, and under which identities.
proof fn lemma_after_list(
    t: Table,
    node: Node,
    read: VecMap<Peer, Bytes>,
    now: Instant,
    latency: Option<Duration>,
)
    requires
        t.wf(),
        read.wf(),
    ensures
        ({
            let after = after_list(t, node, read, now, latency);
            forall|peer: Peer|
                {
                    &&& #[trigger] after.peers.contains_key(peer) <==> {
                        ||| t.peers.contains_key(peer)
                        ||| peer == node.self_addr
                        ||| identities(read@).contains_key(peer)
                    }
                    &&& after.peers.contains_key(peer) ==> after.peers[peer].identity == if peer
                        == node.self_addr {
                        node.identity
                    } else if t.peers.contains_key(peer) {
                        t.peers[peer].identity
                    } else {
                        identities(read@)[peer]
                    }
                }
        }),
{
    let heard = heard_from(t, node.self_addr, node.identity, now, latency);
    let info = PeerInfoView {
        identity: node.identity,
        state: PeerState::Known(now),
        latency,
    };
    lemma_put(t, node.self_addr, info);
    law_learning_is_a_union(heard, read.order(), identities(read@), now);
    read.lemma_order();
    let after = after_list(t, node, read, now, latency);
    assert forall|peer: Peer|
        {
            &&& #[trigger] after.peers.contains_key(peer) <==> {
                ||| t.peers.contains_key(peer)
                ||| peer == node.self_addr
                ||| identities(read@).contains_key(peer)
            }
            &&& after.peers.contains_key(peer) ==> after.peers[peer].identity == if peer
                == node.self_addr {
                node.identity
            } else if t.peers.contains_key(peer) {
                t.peers[peer].identity
            } else {
                identities(read@)[peer]
            }
        } by {
        assert(after.peers.dom().contains(peer) <==> heard.peers.dom().contains(peer)
            || read.order().to_set().contains(peer));
        assert(read.order().contains(peer) <==> read@.contains_key(peer));
    }
}

/// Once two peers have asked each other for those that they know, they know of the same peers, if
/// each has heard of late from those of whom the other does not know, and they fit into one message.
/// If they agreed on the identities of those that both knew, they see the mesh alike, and neither
/// has anything to ask of the other.
pub proof fn law_exchange_brings_agreement<F: Fn(&SwimEnvelope) -> Vec<u8>>(
    serialize: F,
    node_a: Node,
    a: Table,
    now_a: Instant,
    bytes_a: Seq<u8>,
    read_a: VecMap<Peer, Bytes>,
    later_a: Instant,
    latency_a: Option<Duration>,
    node_b: Node,
    b: Table,
    now_b: Instant,
    bytes_b: Seq<u8>,
    read_b: VecMap<Peer, Bytes>,
    later_b: Instant,
    latency_b: Option<Duration>,
    n: u32,
    m: u32,
)
    requires
        is_readable(serialize),
        a.wf(),
        b.wf(),
        a.peers.contains_key(node_a.self_addr),
        a.peers[node_a.self_addr].identity == node_a.identity,
        b.peers.contains_key(node_b.self_addr),
        b.peers[node_b.self_addr].identity == node_b.identity,
        node_a.self_addr != node_b.self_addr,
        forall|peer: Peer| #[trigger]
            a.peers.contains_key(peer) && b.peers.contains_key(peer) && peer != node_a.self_addr
                && peer != node_b.self_addr ==> a.peers[peer].identity == b.peers[peer].identity,
        is_told_by(serialize, node_a, a, node_b.self_addr, now_a, bytes_a, read_a),
        is_told_by(serialize, node_b, b, node_a.self_addr, now_b, bytes_b, read_b),
        can_tell_all(serialize, node_a, a, node_b.self_addr, b, now_a),
        can_tell_all(serialize, node_b, b, node_a.self_addr, a, now_b),
    ensures
        ({
            let a2 = after_list(a, node_b, read_b, later_a, latency_b);
            let b2 = after_list(b, node_a, read_a, later_b, latency_a);
            &&& a2.peers.dom() == b2.peers.dom()
            &&& membership(a2.peers) == membership(b2.peers)
            &&& fingerprint(a2) == fingerprint(b2)
            &&& !asks_for_peers(fingerprint(a2), n, fingerprint(b2), m)
            &&& !asks_for_peers(fingerprint(b2), m, fingerprint(a2), n)
        }),
{
    let a2 = after_list(a, node_b, read_b, later_a, latency_b);
    let b2 = after_list(b, node_a, read_a, later_b, latency_a);
    let shared_a = shared_peers(node_a, a, node_b.self_addr, now_a);
    let shared_b = shared_peers(node_b, b, node_a.self_addr, now_b);
    law_lists_are_read_as_written(
        serialize,
        node_a.identity,
        shared_a,
        bytes_a,
        identities(read_a@),
    );
    law_lists_are_read_as_written(
        serialize,
        node_b.identity,
        shared_b,
        bytes_b,
        identities(read_b@),
    );
    lemma_after_list(a, node_b, read_b, later_a, latency_b);
    lemma_after_list(b, node_a, read_a, later_b, latency_a);
    assert forall|peer: Peer| #[trigger]
        a2.peers.dom().contains(peer) == b2.peers.dom().contains(peer) by {
        assert(a2.peers.contains_key(peer) == b2.peers.contains_key(peer)) by {
            assert(shared_a.contains_key(peer) <==> is_shared(
                node_a,
                a,
                node_b.self_addr,
                now_a,
                peer,
            ));
            assert(shared_b.contains_key(peer) <==> is_shared(
                node_b,
                b,
                node_a.self_addr,
                now_b,
                peer,
            ));
        }
    }
    assert(a2.peers.dom() =~= b2.peers.dom());
    assert(membership(a2.peers) =~= membership(b2.peers));
}

// Pinging for others.

/// A list that holds an item keeps it when the same or another is added at the end.
proof fn lemma_with_contains<K>(list: Seq<K>, key: K)
    ensures
        with(list, key).contains(key),
        list.no_duplicates() ==> with(list, key).no_duplicates(),
{
    if !list.contains(key) {
        assert(list.push(key)[list.len() as int] == key);
    }
}

/// Whoever asked us to ping a peer is told once that peer answers, and the matter is done with.
pub proof fn law_answers_are_passed_on(
    node: Node,
    t: Table,
    asker: Peer,
    peer: Peer,
    request: SwimMessage,
    asked_at: Instant,
    t2: Table,
    sender: Peer,
    answer: SwimMessage,
    replies: (Seq<ActionView>, Seq<ActionView>),
    mesh_fingerprint: u32,
    num_peers: u32,
    now: Instant,
)
    requires
        request == SwimMessage::PingRequest(peer),
        answer == (SwimMessage::Ack { peer, mesh_fingerprint, num_peers }),
    ensures
        ({
            let asked = on_message(node, t, asker, request, asked_at, replies.0);
            let answered = on_message(asked.node, t2, sender, answer, now, replies.1);
            &&& asked.actions == seq![node.send(peer, SwimMessageView::Ping)]
            &&& answered.actions.contains(
                node.send(
                    asker,
                    SwimMessageView::Ack { peer, mesh_fingerprint, num_peers },
                ),
            )
            &&& curious_about(answered.node, peer).len() == 0
        }),
{
    let asked = on_message(node, t, asker, request, asked_at, replies.0);
    let answered = on_message(asked.node, t2, sender, answer, now, replies.1);
    let ack = SwimMessageView::Ack { peer, mesh_fingerprint, num_peers };
    let list = with(curious_about(node, peer), asker);
    lemma_with_contains(curious_about(node, peer), asker);
    assert(curious_about(asked.node, peer) == list);
    let k = list.index_of(asker);
    let told = pass_on(asked.node, list, ack);
    assert(told[k] == node.send(asker, ack));
    assert(answered.actions[k] == told[k]);
}

/// However often a peer asks, it is told once.
pub proof fn law_askers_are_listed_once(
    node: Node,
    t: Table,
    asker: Peer,
    peer: Peer,
    request: SwimMessage,
    now: Instant,
    reply: Seq<ActionView>,
)
    requires
        request == SwimMessage::PingRequest(peer),
        curious_about(node, peer).no_duplicates(),
    ensures
        curious_about(on_message(node, t, asker, request, now, reply).node, peer).no_duplicates(),
        on_message(
            on_message(node, t, asker, request, now, reply).node,
            t,
            asker,
            request,
            now,
            reply,
        ).node.curious_peers == on_message(node, t, asker, request, now, reply).node.curious_peers,
{
    let list = with(curious_about(node, peer), asker);
    lemma_with_contains(curious_about(node, peer), asker);
    let once = on_message(node, t, asker, request, now, reply).node;
    assert(curious_about(once, peer) == list);
    let twice = on_message(once, t, asker, request, now, reply).node;
    assert(twice.curious_peers =~= once.curious_peers);
}

// Messages to the entire mesh.

/// We do not forget ourselves because someone else lost sight of us, and no one on the word of
/// someone who is not in the mesh.
pub proof fn law_failures_are_not_taken_on_faith(
    node: Node,
    t: Table,
    sender: Peer,
    peer: Peer,
    now: Instant,
)
    requires
        peer == node.self_addr || !t.peers.contains_key(sender),
    ensures
        after_broadcast(node, t, sender, SwimBroadcastView::Failed(peer), now) == t,
{
}

/// When a member of the mesh gives up on a peer, everyone who hears of it forgets that peer.
pub proof fn law_failures_spread(node: Node, t: Table, sender: Peer, peer: Peer, now: Instant)
    requires
        t.wf(),
        t.peers.contains_key(sender),
        peer != node.self_addr,
    ensures
        after_broadcast(node, t, sender, SwimBroadcastView::Failed(peer), now).peers
            == t.peers.remove(peer),
        answer_to(node, t, SwimBroadcastView::Failed(peer)) is Nothing,
{
    lemma_forget(t, peer);
}

/// Whoever announces itself is known from then on, with the latency that it had; it is answered if
/// and only if it is new, and so not a second time.
pub proof fn law_newcomers_are_known(
    node: Node,
    t: Table,
    sender: Peer,
    addr: Peer,
    identity: Seq<u8>,
    now: Instant,
)
    requires
        t.wf(),
        addr != node.self_addr,
    ensures
        ({
            let join = SwimBroadcastView::Join { addr, identity };
            let after = after_broadcast(node, t, sender, join, now);
            &&& after.wf()
            &&& after.peers == t.peers.insert(
                addr,
                PeerInfoView {
                    identity,
                    state: PeerState::Known(now),
                    latency: if t.peers.contains_key(addr) {
                        t.peers[addr].latency
                    } else {
                        None
                    },
                },
            )
            &&& answer_to(node, t, join) == if t.peers.contains_key(addr) {
                Answer::Nothing
            } else {
                Answer::KnownPeers(addr)
            }
            &&& answer_to(node, after, join) is Nothing
        }),
{
    let info = PeerInfoView {
        identity,
        state: PeerState::Known(now),
        latency: if t.peers.contains_key(addr) {
            t.peers[addr].latency
        } else {
            None
        },
    };
    lemma_put(t, addr, info);
}

/// The chance of an answer lies between one and a hundred percent, and gets no greater as the mesh
/// grows: certain for up to two known peers, the least from twelve on.
pub proof fn law_response_percent(fewer: nat, more: nat)
    requires
        fewer <= more,
    ensures
        1 <= response_percent(more) <= response_percent(fewer) <= 100,
        fewer <= 2 ==> response_percent(fewer) == 100,
        fewer > 2 ==> response_percent(fewer) <= 99,
        more >= 12 ==> response_percent(more) == 1,
{
    if more > 2 {
        let m = more - 2;
        assert(m * m >= 1) by (nonlinear_arith)
            requires
                m >= 1,
        ;
        if more >= 12 {
            assert(m * m >= 100) by (nonlinear_arith)
                requires
                    m >= 10,
            ;
        }
        if fewer > 2 {
            let f = fewer - 2;
            assert(1 <= f * f <= m * m) by (nonlinear_arith)
                requires
                    1 <= f <= m,
            ;
        }
    }
}

/// Whether to answer is drawn with the chance that the number of known peers calls for: not at all
/// for up to two, and otherwise with a chance between one and ninety-nine percent that gets no
/// greater as the mesh grows.
pub proof fn law_draws_have_their_chances(
    node: Node,
    t: Table,
    came_out: bool,
    other: Node,
    larger: Table,
    other_came_out: bool,
)
    requires
        t.order.len() <= larger.order.len(),
    ensures
        t.order.len() <= 2 ==> after_draw(node, t, came_out) == node,
        t.order.len() > 2 ==> {
            let one = after_draw(node, t, came_out).draws;
            let two = after_draw(other, larger, other_came_out).draws;
            &&& one.drop_last() == node.draws
            &&& one.last().came_out == came_out
            &&& one.last().denominator == two.last().denominator == 100
            &&& 1 <= two.last().numerator <= one.last().numerator <= 99
            &&& larger.order.len() >= 12 ==> two.last().numerator == 1
        },
{
    law_response_percent(t.order.len(), larger.order.len());
    if t.order.len() > 2 {
        assert(after_draw(node, t, came_out).draws.drop_last() =~= node.draws);
    }
}

// Rounds.

/// A round reads incoming messages for a moment at least and for a period at most, and takes at
/// least a period.
pub proof fn law_read_time(time_since_tick_start: Duration)
    ensures
        MIN_READ_TIME <= read_time(time_since_tick_start) <= PROTOCOL_PERIOD,
        time_since_tick_start + read_time(time_since_tick_start) >= PROTOCOL_PERIOD,
{
}

/// Once an instance has announced itself, it does not do so again while it knows of anyone else, nor
/// before a while has passed.
pub proof fn law_announcements_are_spaced(
    node: Node,
    t: Table,
    now: Instant,
    later_table: Table,
    later: Instant,
)
    requires
        node.join_is_due(t, now),
        later >= now,
    ensures
        after_join(node, t, now).join_is_due(later_table, later) <==> later - now
            >= REBROADCAST_INTERVAL && later_table.order.len() <= 1,
{
}

// The fingerprint.

/// The fingerprint depends on who is in the mesh and with which identity, and on nothing else: not
/// on states or latencies, and not on the order in which peers became known.
pub proof fn law_fingerprint_is_of_the_membership(a: Table, b: Table)
    requires
        membership(a.peers) == membership(b.peers),
    ensures
        fingerprint(a) == fingerprint(b),
{
}

/// Neither a ping nor a suspicion changes the fingerprint, and neither does a message from a peer
/// that is known under the same identity.
pub proof fn law_fingerprint_is_stable(
    t: Table,
    peer: Peer,
    state: PeerState,
    now: Instant,
    latency: Option<Duration>,
)
    requires
        t.wf(),
        t.peers.contains_key(peer),
    ensures
        fingerprint(t.set_state(peer, state)) == fingerprint(t),
        fingerprint(heard_from(t, peer, t.peers[peer].identity, now, latency)) == fingerprint(t),
{
    lemma_set_state(t, peer, state);
    assert(membership(t.set_state(peer, state).peers) =~= membership(t.peers));
    let info = PeerInfoView {
        identity: t.peers[peer].identity,
        state: PeerState::Known(now),
        latency,
    };
    lemma_put(t, peer, info);
    assert(membership(t.put(peer, info).peers) =~= membership(t.peers));
}

/// The identity of one member stands at one place among the bytes of which the fingerprint is the
/// checksum.
proof fn lemma_identity_place(members: Map<Peer, Seq<u8>>, listed: Seq<Peer>, peer: Peer) -> (r: (
    Seq<u8>,
    Seq<u8>,
))
    requires
        listed.no_duplicates(),
        listed.contains(peer),
    ensures
        forall|identity: Seq<u8>| #[trigger]
            members_bytes(members.insert(peer, identity), listed) == r.0 + identity + r.1,
    decreases listed.len(),
{
    let rest = listed.drop_last();
    let last = listed.last();
    let text = encode_utf8(addr_text(last));
    if last == peer {
        assert(!rest.contains(peer)) by {
            if rest.contains(peer) {
                assert(listed[rest.index_of(peer)] == listed[listed.len() - 1]);
            }
        }
        let before = members_bytes(members, rest);
        let r = (before + text, Seq::<u8>::empty());
        assert forall|identity: Seq<u8>| #[trigger]
            members_bytes(members.insert(peer, identity), listed) == r.0 + identity + r.1 by {
            lemma_others_bytes(members, rest, peer, identity);
            assert(members_bytes(members.insert(peer, identity), listed) =~= r.0 + identity + r.1);
        }
        r
    } else {
        assert(rest.contains(peer)) by {
            assert(rest[listed.index_of(peer)] == peer);
        }
        let place = lemma_identity_place(members, rest, peer);
        let r = (place.0, place.1 + text + members[last]);
        assert forall|identity: Seq<u8>| #[trigger]
            members_bytes(members.insert(peer, identity), listed) == r.0 + identity + r.1 by {
            assert(members_bytes(members.insert(peer, identity), rest) == place.0 + identity
                + place.1);
            assert(members_bytes(members.insert(peer, identity), listed) =~= r.0 + identity + r.1);
        }
        r
    }
}

pub proof fn lemma_others_bytes(
    members: Map<Peer, Seq<u8>>,
    listed: Seq<Peer>,
    peer: Peer,
    identity: Seq<u8>,
)
    requires
        !listed.contains(peer),
    ensures
        members_bytes(members.insert(peer, identity), listed) == members_bytes(members, listed),
    decreases listed.len(),
{
    if listed.len() > 0 {
        let rest = listed.drop_last();
        assert(listed[listed.len() - 1] != peer);
        assert(!rest.contains(peer)) by {
            if rest.contains(peer) {
                assert(listed[rest.index_of(peer)] == peer);
            }
        }
        lemma_others_bytes(members, rest, peer, identity);
    }
}

/// When a peer changes its identity, the bytes of which the fingerprint is the checksum change.
pub proof fn law_identities_count(members: Map<Peer, Seq<u8>>, peer: Peer, identity: Seq<u8>)
    requires
        members.dom().finite(),
        members.contains_key(peer),
        members[peer] != identity,
    ensures
        membership_bytes(members.insert(peer, identity)) != membership_bytes(members),
{
    let changed = members.insert(peer, identity);
    assert(changed.dom() =~= members.dom());
    assert(members.insert(peer, members[peer]) =~= members);
    lemma_sorted(members.dom());
    let listed = sorted(members.dom());
    assert(listed.to_set().contains(peer));
    let place = lemma_identity_place(members, listed, peer);
    let a = members_bytes(members.insert(peer, members[peer]), listed);
    let b = members_bytes(members.insert(peer, identity), listed);
    assert(a == place.0 + members[peer] + place.1);
    assert(b == place.0 + identity + place.1);
    if a == b {
        assert(a.len() == b.len());
        assert forall|i: int| 0 <= i < identity.len() implies members[peer][i] == identity[i] by {
            assert(a[place.0.len() + i] == b[place.0.len() + i]);
        }
        assert(members[peer] =~= identity);
    }
}

/// When a peer changes its identity in up to four places next to each other, the fingerprint changes.
pub proof fn law_identity_changes_show(
    members: Map<Peer, Seq<u8>>,
    peer: Peer,
    identity: Seq<u8>,
    at: int,
)
    requires
        members.dom().finite(),
        members.contains_key(peer),
        members[peer] != identity,
        members[peer].len() == identity.len(),
        0 <= at,
        forall|i: int|
            0 <= i < identity.len() && !(at <= i < at + 4) ==> members[peer][i]
                == #[trigger] identity[i],
    ensures
        fingerprint_of(members.insert(peer, identity)) != fingerprint_of(members),
{
    let current = members[peer];
    let changed = members.insert(peer, identity);
    assert(changed.dom() =~= members.dom());
    assert(members.insert(peer, current) =~= members);
    lemma_sorted(members.dom());
    let listed = sorted(members.dom());
    assert(listed.to_set().contains(peer));
    let place = lemma_identity_place(members, listed, peer);
    let len = identity.len() as int;
    if at >= len {
        assert(current =~= identity);
    }
    let end = if at + 4 < len {
        at + 4
    } else {
        len
    };
    let before = place.0 + identity.take(at);
    let after = identity.skip(end) + place.1;
    let (old_part, new_part) = (current.subrange(at, end), identity.subrange(at, end));
    assert(current =~= identity.take(at) + old_part + identity.skip(end));
    assert(identity =~= identity.take(at) + new_part + identity.skip(end));
    assert(place.0 + current + place.1 =~= before + old_part + after);
    assert(place.0 + identity + place.1 =~= before + new_part + after);
    assert(members_bytes(members.insert(peer, current), listed) == before + old_part + after);
    assert(members_bytes(members.insert(peer, identity), listed) == before + new_part + after);
    law_small_changes_show(before, old_part, new_part, after);
}

/// The fingerprint of a mesh without members is zero.
pub proof fn law_fingerprint_of_no_one()
    ensures
        fingerprint_of(Map::empty()) == 0,
{
    let no_one = Map::<Peer, Seq<u8>>::empty();
    lemma_sorted(no_one.dom());
    let listed = sorted(no_one.dom());
    if listed.len() > 0 {
        assert(listed.contains(listed[0]));
        assert(listed.to_set().contains(listed[0]));
    }
    law_checksum_of_nothing();
}

// News.

/// What observers were told, applied to the peers that were there at first.
pub open spec fn replay(peers: Set<Peer>, notices: Seq<NoticeView>) -> Set<Peer>
    decreases notices.len(),
{
    if notices.len() == 0 {
        peers
    } else {
        let before = replay(peers, notices.drop_last());
        match notices.last().event {
            Event::Added(peer) => before.insert(peer),
            Event::Updated(_, _, _) => before,
            Event::Removed(peer) => before.remove(peer),
        }
    }
}

/// What observers were told tells them who is there.
pub open spec fn is_told(start: Set<Peer>, t: Table) -> bool {
    replay(start, t.notices) == t.peers.dom()
}

proof fn lemma_put_is_told(start: Set<Peer>, t: Table, peer: Peer, info: PeerInfoView)
    requires
        t.observers.len() > 0,
        is_told(start, t),
    ensures
        is_told(start, t.put(peer, info)),
        t.put(peer, info).observers == t.observers,
{
    let t2 = t.put(peer, info);
    assert(t2.notices.drop_last() =~= t.notices);
    assert(replay(start, t2.notices) =~= t2.peers.dom());
}

proof fn lemma_forget_is_told(start: Set<Peer>, t: Table, peer: Peer)
    requires
        t.observers.len() > 0,
        is_told(start, t),
    ensures
        is_told(start, t.forget(peer)),
        t.forget(peer).observers == t.observers,
{
    let t2 = t.forget(peer);
    if t.peers.contains_key(peer) {
        assert(t2.notices.drop_last() =~= t.notices);
        assert(replay(start, t2.notices) =~= t2.peers.dom());
    }
}

proof fn lemma_set_states_is_told(start: Set<Peer>, t: Table, listed: Seq<Peer>, state: PeerState)
    requires
        t.observers.len() > 0,
        is_told(start, t),
    ensures
        is_told(start, set_states(t, listed, state)),
        set_states(t, listed, state).observers == t.observers,
    decreases listed.len(),
{
    if listed.len() > 0 {
        lemma_set_states_is_told(start, t, listed.drop_last(), state);
        let before = set_states(t, listed.drop_last(), state);
        let peer = listed.last();
        if before.peers.contains_key(peer) {
            lemma_put_is_told(
                start,
                before,
                peer,
                PeerInfoView { state, ..before.peers[peer] },
            );
        }
    }
}

proof fn lemma_forget_all_is_told(start: Set<Peer>, t: Table, listed: Seq<Peer>)
    requires
        t.observers.len() > 0,
        is_told(start, t),
    ensures
        is_told(start, forget_all(t, listed)),
        forget_all(t, listed).observers == t.observers,
    decreases listed.len(),
{
    if listed.len() > 0 {
        lemma_forget_all_is_told(start, t, listed.drop_last());
        lemma_forget_is_told(start, forget_all(t, listed.drop_last()), listed.last());
    }
}

proof fn lemma_learn_is_told(
    start: Set<Peer>,
    t: Table,
    listed: Seq<Peer>,
    members: Map<Peer, Seq<u8>>,
    now: Instant,
)
    requires
        t.observers.len() > 0,
        is_told(start, t),
    ensures
        is_told(start, learn(t, listed, members, now)),
        learn(t, listed, members, now).observers == t.observers,
    decreases listed.len(),
{
    if listed.len() > 0 {
        lemma_learn_is_told(start, t, listed.drop_last(), members, now);
        let before = learn(t, listed.drop_last(), members, now);
        let peer = listed.last();
        lemma_put_is_told(
            start,
            before,
            peer,
            PeerInfoView {
                identity: members[peer],
                state: PeerState::Known((now - MAX_PEER_SHARE_AGE) as u128),
                latency: None,
            },
        );
    }
}

/// Observers can tell from what they are told who is in the mesh: no arrival and no departure is
/// kept from them, whatever comes in and however time passes.
pub proof fn law_observers_can_follow(
    start: Set<Peer>,
    node: Node,
    t: Table,
    sender: Peer,
    identity: Seq<u8>,
    latency: Option<Duration>,
    msg: SwimMessage,
    reply: Seq<ActionView>,
    broadcast: SwimBroadcastView,
    asked: Seq<Seq<Peer>>,
    target: Peer,
    now: Instant,
)
    requires
        t.observers.len() > 0,
        is_told(start, t),
    ensures
        is_told(
            start,
            on_message(
                node,
                heard_from(t, sender, identity, now, latency),
                sender,
                msg,
                now,
                reply,
            ).table,
        ),
        is_told(start, after_broadcast(node, t, sender, broadcast, now)),
        is_told(start, on_suspicion(node, t, now, asked).table),
        is_told(start, t.set_state(target, PeerState::WaitingForPing(now))),
        is_told(start, t.forget(target)),
{
    let heard = heard_from(t, sender, identity, now, latency);
    lemma_put_is_told(
        start,
        t,
        sender,
        PeerInfoView { identity, state: PeerState::Known(now), latency },
    );
    if let SwimMessage::KnownPeers(peers) = msg {
        lemma_learn_is_told(start, heard, peers.order(), identities(peers@), now);
    }
    if let SwimMessage::Ack { peer, .. } = msg {
        if heard.peers.contains_key(peer) {
            lemma_put_is_told(
                start,
                heard,
                peer,
                PeerInfoView { state: PeerState::Known(now), ..heard.peers[peer] },
            );
        }
    }
    match broadcast {
        SwimBroadcastView::Failed(peer) => {
            lemma_forget_is_told(start, t, peer);
        },
        SwimBroadcastView::Join { addr, identity: joining } => {
            lemma_put_is_told(
                start,
                t,
                addr,
                PeerInfoView {
                    identity: joining,
                    state: PeerState::Known(now),
                    latency: if t.peers.contains_key(addr) {
                        t.peers[addr].latency
                    } else {
                        None
                    },
                },
            );
        },
        SwimBroadcastView::Probe(_) => {},
    }
    let asked_about = t.order.filter(is_asked_about(node, t, now));
    let given_up = t.order.filter(is_given_up(node, t, now));
    let state = PeerState::WaitingForIndirectPing(now);
    lemma_set_states_is_told(start, t, asked_about, state);
    lemma_forget_all_is_told(start, set_states(t, asked_about, state), given_up);
    if t.peers.contains_key(target) {
        lemma_put_is_told(
            start,
            t,
            target,
            PeerInfoView { state: PeerState::WaitingForPing(now), ..t.peers[target] },
        );
    }
    lemma_forget_is_told(start, t, target);
}

/// No news is false: an arrival is told of a peer that is in the mesh, with its identity, and a
/// departure of one that is not.
pub proof fn law_news_is_true(t: Table, events: Seq<EventView>, i: int)
    requires
        0 <= i < news_of_all(t, events).len(),
    ensures
        match news_of_all(t, events)[i] {
            NotificationView::Discovered(peer, identity) => t.peers.contains_key(peer)
                && t.peers[peer].identity == identity,
            NotificationView::Departed(peer) => !t.peers.contains_key(peer),
            NotificationView::FingerprintChanged(_) => false,
        },
    decreases events.len(),
{
    if events.len() > 0 {
        let before = news_of_all(t, events.drop_last());
        if i < before.len() {
            law_news_is_true(t, events.drop_last(), i);
            assert(news_of_all(t, events)[i] == before[i]);
        }
    }
}

/// No news is missed: a peer that has joined and is still there is told as an arrival, and one that
/// has left and is not back as a departure.
pub proof fn law_no_news_is_missed(t: Table, events: Seq<EventView>, i: int)
    requires
        0 <= i < events.len(),
    ensures
        news_of(t, events[i]) matches Some(told) ==> news_of_all(t, events).contains(told),
        events[i] matches Event::Added(peer) ==> t.peers.contains_key(peer) ==> news_of_all(
            t,
            events,
        ).contains(NotificationView::Discovered(peer, t.peers[peer].identity)),
        events[i] matches Event::Removed(peer) ==> !t.peers.contains_key(peer) ==> news_of_all(
            t,
            events,
        ).contains(NotificationView::Departed(peer)),
    decreases events.len(),
{
    let all = news_of_all(t, events);
    let before = news_of_all(t, events.drop_last());
    if i == events.len() - 1 {
        if let Some(told) = news_of(t, events[i]) {
            assert(all[before.len() as int] == told);
        }
    } else {
        law_no_news_is_missed(t, events.drop_last(), i);
        assert(events.drop_last()[i] == events[i]);
        if let Some(told) = news_of(t, events[i]) {
            let k = before.index_of(told);
            assert(all[k] == told);
        }
    }
}

/// What one more change adds to the news: the arrival of a peer that is in the mesh, with its
/// identity, even if that is empty; the departure of one that is not; and nothing else.
pub proof fn law_news_of_one_more_change(t: Table, events: Seq<EventView>, event: EventView)
    ensures
        ({
            let before = news_of_all(t, events);
            let after = news_of_all(t, events.push(event));
            match event {
                Event::Added(peer) => if t.peers.contains_key(peer) {
                    &&& after == before.push(
                        NotificationView::Discovered(peer, t.peers[peer].identity),
                    )
                    &&& news_of(t, event) == Some(
                        NotificationView::Discovered(peer, t.peers[peer].identity),
                    )
                } else {
                    after == before && news_of(t, event) is None
                },
                Event::Updated(_, _, _) => after == before && news_of(t, event) is None,
                Event::Removed(peer) => if t.peers.contains_key(peer) {
                    after == before && news_of(t, event) is None
                } else {
                    &&& after == before.push(NotificationView::Departed(peer))
                    &&& news_of(t, event) == Some(NotificationView::Departed(peer))
                },
            }
        }),
        news_of_all(t, Seq::empty()).len() == 0,
{
    assert(events.push(event).drop_last() =~= events);
}

/// The fingerprint is told, behind all other news, if and only if someone listens, someone is in the
/// mesh, and it is not the one that was told last.
pub proof fn law_when_the_fingerprint_is_told(
    t: Table,
    events: Seq<EventView>,
    prev: Fingerprint,
    listeners: bool,
)
    requires
        t.wf(),
    ensures
        ({
            let is_anyone_there = exists|peer: Peer| #[trigger] t.peers.contains_key(peer);
            let current = fingerprint_of(membership(t.peers));
            &&& is_new_fingerprint(t, prev, listeners) <==> listeners && is_anyone_there && current
                != prev
            &&& news(t, events, prev, listeners) == if listeners && is_anyone_there && current
                != prev {
                news_of_all(t, events).push(NotificationView::FingerprintChanged(current))
            } else {
                news_of_all(t, events)
            }
        }),
{
    if t.order.len() > 0 {
        assert(t.order.to_set().contains(t.order[0]));
        assert(t.peers.contains_key(t.order[0]));
    }
    if exists|peer: Peer| #[trigger] t.peers.contains_key(peer) {
        let peer = choose|peer: Peer| #[trigger] t.peers.contains_key(peer);
        assert(t.order.to_set().contains(peer));
        assert(t.order.contains(peer));
    }
}

/// The fingerprint is told once after some changes, as it is then, if it is not the one that was
/// told last.
pub proof fn law_fingerprint_is_told_once(
    t: Table,
    events: Seq<EventView>,
    prev: Fingerprint,
    listeners: bool,
    i: int,
)
    requires
        0 <= i < news(t, events, prev, listeners).len(),
        news(t, events, prev, listeners)[i] is FingerprintChanged,
    ensures
        i == news(t, events, prev, listeners).len() - 1,
        news(t, events, prev, listeners)[i] == NotificationView::FingerprintChanged(fingerprint(t)),
        fingerprint(t) != prev,
        listeners,
{
    if i < news_of_all(t, events).len() {
        law_news_is_true(t, events, i);
    }
}

// Starting and stopping.

/// A client that is stopped again is not in its own table, and everyone else is as before.
pub proof fn law_stop_undoes_start(t: Table, client: Client, self_addr: Peer, now: Instant)
    requires
        t.wf(),
        !t.peers.contains_key(self_addr),
    ensures
        t.put(self_addr, own_entry(client, now)).forget(self_addr).peers == t.peers,
        t.put(self_addr, own_entry(client, now)).forget(self_addr).order == t.order,
{
    let entry = own_entry(client, now);
    lemma_put(t, self_addr, entry);
    let started = t.put(self_addr, entry);
    lemma_forget(started, self_addr);
    let stopped = started.forget(self_addr);
    assert(stopped.peers =~= t.peers);
    assert(!t.order.contains(self_addr)) by {
        assert(t.order.to_set().contains(self_addr) <==> t.order.contains(self_addr));
    }
    assert(started.order == t.order.push(self_addr));
    reveal(Seq::filter);
    lemma_without_absent(t.order, self_addr);
    assert(started.order.drop_last() =~= t.order);
    assert(without(started.order, self_addr) =~= t.order);
}

// The network.

/// Meshes on different ports do not hear of each other, on whichever interfaces of their hosts they
/// are: neither the addresses at which they listen nor those to which they send are the same.
pub proof fn law_ports_keep_meshes_apart(port: u16, index: u32, other: u16, other_index: u32)
    requires
        port != other,
    ensures
        ipv4_sockets(port).inbound.bind != ipv4_sockets(other).inbound.bind,
        ipv4_sockets(port).broadcast_addr != ipv4_sockets(other).broadcast_addr,
        ipv6_sockets(port, index).inbound.bind != ipv6_sockets(other, other_index).inbound.bind,
        ipv6_sockets(port, index).broadcast_addr != ipv6_sockets(
            other,
            other_index,
        ).broadcast_addr,
{
}

proof fn lemma_first_where(
    interfaces: Seq<Interface>,
    pred: spec_fn(Interface) -> bool,
)
    ensures
        match first_where(interfaces, pred) {
            Some(interface) => pred(interface) && interfaces.contains(interface),
            None => forall|i: int| 0 <= i < interfaces.len() ==> !pred(#[trigger] interfaces[i]),
        },
    decreases interfaces.len(),
{
    if interfaces.len() > 0 && !pred(interfaces[0]) {
        let rest = interfaces.skip(1);
        lemma_first_where(rest, pred);
        if let Some(interface) = first_where(rest, pred) {
            assert(interfaces[rest.index_of(interface) + 1] == interface);
        } else {
            assert forall|i: int| 0 <= i < interfaces.len() implies !pred(
                #[trigger] interfaces[i],
            ) by {
                if i > 0 {
                    assert(rest[i - 1] == interfaces[i]);
                }
            }
        }
    }
}

/// The interface that is used if none is asked for is one of this host, and not a loopback
/// interface. It has an IPv4 address only if there is no such interface with an IPv6 address, and
/// there is one unless there are loopback interfaces only.
pub proof fn law_best_interface(interfaces: Seq<Interface>)
    ensures
        match best_interface(interfaces) {
            Some(best) => {
                &&& interfaces.contains(best)
                &&& !is_loopback_ip(best.ip)
                &&& best.ip is V4 ==> forall|i: int|
                    0 <= i < interfaces.len() && (#[trigger] interfaces[i]).ip is V6
                        ==> is_loopback_ip(interfaces[i].ip)
            },
            None => forall|i: int|
                0 <= i < interfaces.len() ==> is_loopback_ip((#[trigger] interfaces[i]).ip),
        },
{
    let outside = interfaces.filter(leads_outside());
    lemma_filter(interfaces, leads_outside());
    lemma_first_where(outside, Wish::Ipv6.pred());
    lemma_first_where(outside, Wish::Ipv4.pred());
    assert forall|i: int| 0 <= i < interfaces.len() && !is_loopback_ip(
        (#[trigger] interfaces[i]).ip,
    ) implies outside.contains(interfaces[i]) by {
        assert(interfaces.contains(interfaces[i]));
    }
    if first_where(outside, Wish::Ipv6.pred()) is None {
        assert forall|i: int| 0 <= i < interfaces.len() && (#[trigger] interfaces[i]).ip is V6 implies
            is_loopback_ip(interfaces[i].ip) by {
            if !is_loopback_ip(interfaces[i].ip) {
                let k = outside.index_of(interfaces[i]);
                assert(!Wish::Ipv6.pred()(outside[k]));
            }
        }
        if first_where(outside, Wish::Ipv4.pred()) is None {
            assert forall|i: int| 0 <= i < interfaces.len() implies is_loopback_ip(
                (#[trigger] interfaces[i]).ip,
            ) by {
                if !is_loopback_ip(interfaces[i].ip) {
                    let k = outside.index_of(interfaces[i]);
                    assert(!Wish::Ipv4.pred()(outside[k]));
                    assert(!Wish::Ipv6.pred()(outside[k]));
                }
            }
        }
    }
}

} // verus!
