//! What each step of the protocol does, peer by peer and message by message.
use crate::action::{action_views, Action, ActionView};
use crate::addr::Peer;
use crate::kaboodle::{Node, NUM_INDIRECT_PING_PEERS, PING_TIMEOUT, REBROADCAST_INTERVAL};
use crate::laws::{
    law_failures_are_announced, law_suspicion, lemma_requests, lemma_requests_are_sent,
    lemma_set_state,
};
use crate::map::lemma_filter;
use crate::random::{picked_at, sample_of};
use crate::round::{after_join, is_ping, is_round, Round};
use crate::structs::{PeerInfoView, PeerState, SwimBroadcastView, SwimMessageView};
use crate::suspicion::{
    announce_failed, are_samples, ask_about, ask_about_all, heard_before, heard_no_later,
    helpers, is_asked_about, is_given_up, is_judgement, lemma_helpers, may_be_pinged,
    on_suspicion, Judgement,
};
use crate::table::Table;
use crate::time::Instant;
use vstd::prelude::*;

verus! {

// Looking after the peers that do not answer.

/// Someone but ourselves is up, as far as we know.
proof fn lemma_someone_is_up(node: Node, t: Table)
    requires
        t.wf(),
    ensures
        helpers(node, t).len() > 0 <==> exists|other: Peer|
            other != node.self_addr && #[trigger] t.peers.contains_key(other)
                && t.peers[other].state is Known,
{
    lemma_helpers(node, t);
    let from = helpers(node, t);
    if from.len() > 0 {
        assert(from.contains(from[0]));
        assert(t.peers.contains_key(from[0]));
    }
    if exists|other: Peer|
        other != node.self_addr && #[trigger] t.peers.contains_key(other)
            && t.peers[other].state is Known {
        let other = choose|other: Peer|
            other != node.self_addr && #[trigger] t.peers.contains_key(other)
                && t.peers[other].state is Known;
        assert(from.contains(other));
    }
}

/// What becomes of a peer when an instance looks after those that do not answer.
///
/// A peer that is up, or for whose answer we have not waited long enough, stays as it is. A peer
/// that has not answered our ping in time stays, too, with all that we know of it, if there is anyone
/// else whom we can ask about it; from then on we wait for the answers of those. If there is no one,
/// or if they have not heard of it in time, either, it is forgotten, and so is who was curious about
/// it. The mesh is told that it failed then, and only then.
pub proof fn law_what_becomes_of_silent_peers(
    node: Node,
    t: Table,
    now: Instant,
    asked: Seq<Seq<Peer>>,
    peer: Peer,
)
    requires
        t.wf(),
        are_samples(node, t, now, asked),
    ensures
        ({
            let step = on_suspicion(node, t, now, asked);
            let after = step.table.peers;
            let told = step.actions.contains(
                ActionView::Broadcast(SwimBroadcastView::Failed(peer)),
            );
            let anyone_to_ask = exists|other: Peer|
                other != node.self_addr && #[trigger] t.peers.contains_key(other)
                    && t.peers[other].state is Known;
            let stays = after.contains_key(peer) && after[peer] == t.peers[peer] && !told;
            let is_gone = !after.contains_key(peer) && told;
            if !t.peers.contains_key(peer) {
                !after.contains_key(peer) && !told
            } else {
                match t.peers[peer].state {
                    PeerState::Known(_) => stays,
                    PeerState::WaitingForPing(sent) => if now < sent + PING_TIMEOUT {
                        stays
                    } else if anyone_to_ask {
                        &&& after.contains_key(peer)
                        &&& after[peer].state == PeerState::WaitingForIndirectPing(now)
                        &&& after[peer].identity == t.peers[peer].identity
                        &&& after[peer].latency == t.peers[peer].latency
                        &&& !told
                    } else {
                        is_gone
                    },
                    PeerState::WaitingForIndirectPing(sent) => if now < sent + PING_TIMEOUT {
                        stays
                    } else {
                        is_gone
                    },
                }
            }
        }),
        ({
            let step = on_suspicion(node, t, now, asked);
            let before = node.curious_peers;
            let after = step.node.curious_peers;
            if t.peers.contains_key(peer) && !step.table.peers.contains_key(peer) {
                !after.contains_key(peer)
            } else {
                &&& after.contains_key(peer) == before.contains_key(peer)
                &&& before.contains_key(peer) ==> after[peer] == before[peer]
            }
        }),
        on_suspicion(node, t, now, asked).node.self_addr == node.self_addr,
        on_suspicion(node, t, now, asked).node.identity == node.identity,
        on_suspicion(node, t, now, asked).node.last_broadcast_time == node.last_broadcast_time,
        on_suspicion(node, t, now, asked).node.draws == node.draws,
{
    let step = on_suspicion(node, t, now, asked);
    law_suspicion(node, t, now, asked);
    law_failures_are_announced(node, t, now, asked, peer);
    lemma_someone_is_up(node, t);
    let after = step.table.peers;
    assert(after.contains_key(peer) <==> t.peers.contains_key(peer) && !is_given_up(node, t, now)(
        peer,
    ));
    let given_up = t.order.filter(is_given_up(node, t, now));
    lemma_filter(t.order, is_given_up(node, t, now));
    assert(given_up.to_set().contains(peer) <==> given_up.contains(peer));
    assert(t.order.to_set().contains(peer) <==> t.order.contains(peer));
    assert(t.peers.dom().contains(peer) <==> t.order.to_set().contains(peer));
}

/// The judgement on the peers of a table says of each whom it lists what is to be done about it.
pub proof fn law_judgements_are_just(j: Judgement, node: Node, t: Table, now: Instant, peer: Peer)
    requires
        t.wf(),
        is_judgement(j, node, t, now),
    ensures
        j.helpers@.no_duplicates(),
        j.asked_about@.no_duplicates(),
        j.given_up@.no_duplicates(),
        j.helpers@.contains(peer) <==> t.peers.contains_key(peer) && peer != node.self_addr
            && t.peers[peer].state is Known,
        j.asked_about@.contains(peer) <==> {
            &&& t.peers.contains_key(peer)
            &&& t.peers[peer].state matches PeerState::WaitingForPing(sent) && now >= sent
                + PING_TIMEOUT
            &&& j.helpers@.len() > 0
        },
        j.given_up@.contains(peer) <==> {
            &&& t.peers.contains_key(peer)
            &&& match t.peers[peer].state {
                PeerState::Known(_) => false,
                PeerState::WaitingForPing(sent) => now >= sent + PING_TIMEOUT && j.helpers@.len()
                    == 0,
                PeerState::WaitingForIndirectPing(sent) => now >= sent + PING_TIMEOUT,
            }
        },
{
    lemma_helpers(node, t);
    lemma_filter(t.order, is_asked_about(node, t, now));
    lemma_filter(t.order, is_given_up(node, t, now));
    assert(t.order.to_set().contains(peer) <==> t.order.contains(peer));
    assert(t.peers.dom().contains(peer) <==> t.order.to_set().contains(peer));
}

/// The requests about the peers are all different, if no one is asked twice about a peer.
proof fn lemma_requests_are_different(node: Node, peers: Seq<Peer>, asked: Seq<Seq<Peer>>)
    requires
        asked.len() >= peers.len(),
        peers.no_duplicates(),
        forall|i: int| 0 <= i < peers.len() ==> (#[trigger] asked[i]).no_duplicates(),
    ensures
        ask_about_all(node, peers, asked).no_duplicates(),
    decreases peers.len(),
{
    if peers.len() > 0 {
        let fewer = peers.drop_last();
        let last = peers.len() - 1;
        lemma_requests_are_different(node, fewer, asked);
        let rest = ask_about_all(node, fewer, asked);
        let more = ask_about(node, peers.last(), asked[last]);
        let all = ask_about_all(node, peers, asked);
        assert(asked[last].no_duplicates());
        assert forall|a: int, b: int| 0 <= a < b < all.len() implies all[a] != all[b] by {
            if b < rest.len() {
                assert(all[a] == rest[a] && all[b] == rest[b]);
            } else if a >= rest.len() {
                let (c, d) = (a - rest.len(), b - rest.len());
                assert(all[a] == more[c] && all[b] == more[d]);
                assert(asked[last][c] != asked[last][d]);
            } else {
                assert(rest.contains(rest[a]));
                lemma_requests(node, fewer, asked, rest[a]);
                let (i, j) = choose|i: int, j: int|
                    0 <= i < fewer.len() && 0 <= j < asked[i].len() && rest[a] == node.send(
                        #[trigger] asked[i][j],
                        SwimMessageView::PingRequest(fewer[i]),
                    );
                assert(fewer[i] == peers[i]);
                assert(peers[i] != peers[last]);
                assert(all[b] == more[b - rest.len()]);
            }
        }
    }
}

/// No one is picked twice where no one is listed twice.
pub proof fn law_samples_are_fair(from: Seq<Peer>, picked: Seq<Peer>, amount: nat)
    requires
        from.no_duplicates(),
        sample_of(from, picked, amount),
    ensures
        picked.no_duplicates(),
        picked.len() <= amount,
        picked.len() < amount ==> picked.len() == from.len(),
        forall|peer: Peer| #[trigger] picked.contains(peer) ==> from.contains(peer),
        picked.len() == from.len() ==> forall|peer: Peer| #[trigger]
            from.contains(peer) ==> picked.contains(peer),
{
    let at = choose|at: Seq<int>| picked_at(from, picked, at);
    assert forall|a: int, b: int| 0 <= a < picked.len() && 0 <= b < picked.len() && a
        != b implies picked[a] != picked[b] by {
        assert(at[a] != at[b]);
        assert(from[at[a]] != from[at[b]]);
    }
    assert forall|peer: Peer| #[trigger] picked.contains(peer) implies from.contains(peer) by {
        let k = picked.index_of(peer);
        assert(0 <= at[k] < from.len() && picked[k] == from[at[k]]);
    }
    if picked.len() == from.len() {
        picked.unique_seq_to_set();
        from.unique_seq_to_set();
        vstd::seq_lib::seq_to_set_is_finite(from);
        vstd::seq_lib::seq_to_set_is_finite(picked);
        assert(picked.to_set().subset_of(from.to_set())) by {
            assert forall|peer: Peer| #[trigger] picked.to_set().contains(
                peer,
            ) implies from.to_set().contains(peer) by {
                assert(picked.contains(peer));
            }
        }
        vstd::set_lib::lemma_subset_equality(picked.to_set(), from.to_set());
        assert forall|peer: Peer| #[trigger] from.contains(peer) implies picked.contains(peer) by {
            assert(from.to_set().contains(peer));
        }
    }
}

/// The peers but for ourselves that are up, as far as we know.
proof fn lemma_helpers_are_those_up(node: Node, t: Table)
    requires
        t.wf(),
    ensures
        helpers(node, t).to_set() == t.peers.dom().filter(
            |other: Peer| other != node.self_addr && t.peers[other].state is Known,
        ),
        helpers(node, t).len() == t.peers.dom().filter(
            |other: Peer| other != node.self_addr && t.peers[other].state is Known,
        ).len(),
{
    lemma_helpers(node, t);
    let up = t.peers.dom().filter(
        |other: Peer| other != node.self_addr && t.peers[other].state is Known,
    );
    assert forall|other: Peer| #[trigger] helpers(node, t).to_set().contains(other)
        <==> up.contains(other) by {
        assert(helpers(node, t).contains(other) <==> t.peers.contains_key(other) && other
            != node.self_addr && t.peers[other].state is Known);
    }
    assert(helpers(node, t).to_set() =~= up);
    helpers(node, t).unique_seq_to_set();
}

/// About a peer that has not answered our ping in time, three of the others that are up are asked,
/// or all of them if they are fewer, each of them once; about any other peer no one is asked. Nothing
/// else is sent but announcements of failures, and nothing twice.
pub proof fn law_who_is_asked_about_silent_peers(
    node: Node,
    t: Table,
    now: Instant,
    asked: Seq<Seq<Peer>>,
    peer: Peer,
)
    requires
        t.wf(),
        are_samples(node, t, now, asked),
    ensures
        on_suspicion(node, t, now, asked).actions.no_duplicates(),
        forall|action: ActionView| #[trigger]
            on_suspicion(node, t, now, asked).actions.contains(action) ==> match action {
                ActionView::Broadcast(msg) => msg is Failed,
                ActionView::Send { identity, msg, .. } => identity == node.identity
                    && msg is PingRequest,
                _ => false,
            },
        exists|whom: Seq<Peer>|
            {
                let actions = on_suspicion(node, t, now, asked).actions;
                let up = t.peers.dom().filter(
                    |other: Peer| other != node.self_addr && t.peers[other].state is Known,
                );
                let is_silent = t.peers.contains_key(peer) && (
                t.peers[peer].state matches PeerState::WaitingForPing(sent) && now >= sent
                    + PING_TIMEOUT);
                &&& #[trigger] whom.no_duplicates()
                &&& whom.len() == if !is_silent {
                    0
                } else if up.len() < 3 {
                    up.len()
                } else {
                    3
                }
                &&& forall|helper: Peer| #[trigger]
                    whom.contains(helper) ==> helper != node.self_addr && helper != peer
                        && t.peers.contains_key(helper) && t.peers[helper].state is Known
                &&& forall|to: Peer| #[trigger]
                    whom.contains(to) <==> actions.contains(
                        ActionView::Send {
                            to,
                            identity: node.identity,
                            msg: SwimMessageView::PingRequest(peer),
                        },
                    )
            },
{
    let step = on_suspicion(node, t, now, asked);
    let actions = step.actions;
    let pred = is_asked_about(node, t, now);
    let asked_about = t.order.filter(pred);
    let given_up = t.order.filter(is_given_up(node, t, now));
    let requests = ask_about_all(node, asked_about, asked);
    let failures = announce_failed(given_up);
    let from = helpers(node, t);
    lemma_filter(t.order, pred);
    lemma_filter(t.order, is_given_up(node, t, now));
    lemma_helpers(node, t);
    lemma_helpers_are_those_up(node, t);
    assert forall|i: int| 0 <= i < asked_about.len() implies (
    #[trigger] asked[i]).no_duplicates() by {
        law_samples_are_fair(from, asked[i], NUM_INDIRECT_PING_PEERS as nat);
    }
    lemma_requests_are_different(node, asked_about, asked);
    assert forall|action: ActionView| #[trigger] requests.contains(action) implies (
    action matches ActionView::Send { identity, msg, .. } && identity == node.identity
        && msg is PingRequest) by {
        lemma_requests(node, asked_about, asked, action);
    }
    assert forall|a: int, b: int| 0 <= a < b < actions.len() implies actions[a] != actions[b] by {
        if b < requests.len() {
            assert(actions[a] == requests[a] && actions[b] == requests[b]);
        } else if a >= requests.len() {
            let (c, d) = (a - requests.len(), b - requests.len());
            assert(given_up[c] != given_up[d]);
            assert(actions[a] == failures[c] && actions[b] == failures[d]);
        } else {
            assert(requests.contains(requests[a]));
            assert(actions[b] == failures[b - requests.len()]);
        }
    }
    assert forall|action: ActionView| #[trigger] actions.contains(action) implies match action {
        ActionView::Broadcast(msg) => msg is Failed,
        ActionView::Send { identity, msg, .. } => identity == node.identity && msg is PingRequest,
        _ => false,
    } by {
        let k = actions.index_of(action);
        if k < requests.len() {
            assert(requests[k] == action);
            assert(requests.contains(action));
        } else {
            assert(failures[k - requests.len()] == action);
        }
    }
    assert(t.order.to_set().contains(peer) <==> t.order.contains(peer));
    assert(t.peers.dom().contains(peer) <==> t.order.to_set().contains(peer));
    let whom = if asked_about.contains(peer) {
        asked[asked_about.index_of(peer)]
    } else {
        Seq::empty()
    };
    assert forall|to: Peer| #[trigger] whom.contains(to) <==> actions.contains(
        ActionView::Send {
            to,
            identity: node.identity,
            msg: SwimMessageView::PingRequest(peer),
        },
    ) by {
        let request = node.send(to, SwimMessageView::PingRequest(peer));
        if whom.contains(to) {
            let i = asked_about.index_of(peer);
            let j = whom.index_of(to);
            lemma_requests_are_sent(node, asked_about, asked, i, j);
            assert(actions[requests.index_of(request)] == request);
        }
        if actions.contains(request) {
            let k = actions.index_of(request);
            if k >= requests.len() {
                assert(failures[k - requests.len()] == request);
            }
            assert(requests[k] == request);
            lemma_requests(node, asked_about, asked, request);
            let (i, j) = choose|i: int, j: int|
                0 <= i < asked_about.len() && 0 <= j < asked[i].len() && request == node.send(
                    #[trigger] asked[i][j],
                    SwimMessageView::PingRequest(asked_about[i]),
                );
            assert(asked_about[i] == peer);
            assert(asked_about.contains(peer));
            assert(asked_about.index_of(peer) == i);
            assert(whom[j] == to);
        }
    }
    if asked_about.contains(peer) {
        law_samples_are_fair(from, whom, NUM_INDIRECT_PING_PEERS as nat);
        assert(pred(peer));
        assert forall|helper: Peer| #[trigger] whom.contains(helper) implies helper
            != node.self_addr && helper != peer && t.peers.contains_key(helper)
            && t.peers[helper].state is Known by {
            assert(from.contains(helper));
        }
    } else {
        assert(!pred(peer) || !t.peers.contains_key(peer));
        assert(whom.no_duplicates());
    }
}

// Pinging.

/// The peer that is pinged is one that is up, not ourselves, and there are fewer than five such peers
/// from which we have not heard for longer.
pub proof fn law_whom_to_ping(node: Node, t: Table, peer: Peer)
    requires
        t.wf(),
    ensures
        may_be_pinged(node, t, peer) <==> {
            &&& t.peers.contains_key(peer)
            &&& peer != node.self_addr
            &&& t.peers[peer].state matches PeerState::Known(heard) && t.peers.dom().filter(
                |other: Peer|
                    other != node.self_addr && (
                    t.peers[other].state matches PeerState::Known(before) && before < heard),
            ).len() < 5
        },
        t.peers.contains_key(peer) && peer != node.self_addr ==> (
        t.peers[peer].state matches PeerState::Known(heard) ==> heard_no_later(node, t, peer)
            == t.peers.dom().filter(
            |other: Peer|
                other != node.self_addr && (
                t.peers[other].state matches PeerState::Known(at) && at <= heard),
        )),
{
    lemma_helpers(node, t);
    lemma_helpers_are_those_up(node, t);
    if let PeerState::Known(heard) = t.peers[peer].state {
        assert(heard_before(node, t, peer) =~= t.peers.dom().filter(
            |other: Peer|
                other != node.self_addr && (
                t.peers[other].state matches PeerState::Known(before) && before < heard),
        ));
        assert(heard_no_later(node, t, peer) =~= t.peers.dom().filter(
            |other: Peer|
                other != node.self_addr && (
                t.peers[other].state matches PeerState::Known(at) && at <= heard),
        ));
    }
}

/// In a round one peer is pinged, and we wait for its answer from then on; of all else nothing
/// changes. No one is pinged only if no one but ourselves is up.
pub proof fn law_a_ping_waits_for_its_answer(
    node: Node,
    t: Table,
    now: Instant,
    ping: Option<(Peer, Action)>,
    after: Table,
)
    requires
        t.wf(),
        is_ping(node, t, now, ping, after),
    ensures
        match ping {
            Some((target, action)) => {
                &&& t.peers.contains_key(target)
                &&& target != node.self_addr
                &&& t.peers[target].state is Known
                &&& action@ == (ActionView::Send {
                    to: target,
                    identity: node.identity,
                    msg: SwimMessageView::Ping,
                })
                &&& after.peers == t.peers.insert(
                    target,
                    PeerInfoView {
                        identity: t.peers[target].identity,
                        state: PeerState::WaitingForPing(now),
                        latency: t.peers[target].latency,
                    },
                )
            },
            None => {
                &&& after == t
                &&& forall|other: Peer| #[trigger]
                    t.peers.contains_key(other) && other != node.self_addr
                        ==> !(t.peers[other].state is Known)
            },
        },
{
    lemma_helpers(node, t);
    if let Some((target, _)) = ping {
        lemma_set_state(t, target, PeerState::WaitingForPing(now));
    } else {
        assert forall|other: Peer| #[trigger] t.peers.contains_key(other) && other
            != node.self_addr implies !(t.peers[other].state is Known) by {
            if t.peers[other].state is Known {
                assert(helpers(node, t).contains(other));
            }
        }
    }
}

// Rounds.

/// We announce ourselves if we never have, and after a while again if we know of no one else; that
/// is remembered, and nothing else changes.
pub proof fn law_when_to_announce(node: Node, t: Table, now: Instant)
    requires
        t.wf(),
    ensures
        node.join_is_due(t, now) <==> match node.last_broadcast_time {
            None => true,
            Some(at) => now >= at + REBROADCAST_INTERVAL && t.peers.dom().len() <= 1,
        },
        after_join(node, t, now).last_broadcast_time == if node.join_is_due(t, now) {
            Some(now)
        } else {
            node.last_broadcast_time
        },
        after_join(node, t, now).self_addr == node.self_addr,
        after_join(node, t, now).identity == node.identity,
        after_join(node, t, now).curious_peers == node.curious_peers,
        after_join(node, t, now).draws == node.draws,
{
    t.order.unique_seq_to_set();
}

/// At the start of a round we announce ourselves, if that is due, under our address and identity,
/// look after the peers that do not answer, ping one peer of those that are up then, and ping each
/// address that we were asked to ping, in the order of the requests.
pub proof fn law_a_round_does_its_parts(
    node: Node,
    t: Table,
    ping_requests: Seq<Peer>,
    now: Instant,
    asked: Seq<Seq<Peer>>,
    round: Round,
    node2: Node,
    t2: Table,
)
    requires
        t.wf(),
        is_round(node, t, ping_requests, now, asked, round, node2, t2),
    ensures
        round.join is Some <==> match node.last_broadcast_time {
            None => true,
            Some(at) => now >= at + REBROADCAST_INTERVAL && t.peers.dom().len() <= 1,
        },
        round.join matches Some(msg) ==> msg@ == (SwimBroadcastView::Join {
            addr: node.self_addr,
            identity: node.identity,
        }),
        node2.last_broadcast_time == if round.join is Some {
            Some(now)
        } else {
            node.last_broadcast_time
        },
        node2.self_addr == node.self_addr,
        node2.identity == node.identity,
        node2.draws == node.draws,
        ({
            let announced = Node { last_broadcast_time: node2.last_broadcast_time, ..node };
            let step = on_suspicion(announced, t, now, asked);
            &&& are_samples(announced, t, now, asked)
            &&& action_views(round.suspicion@) == step.actions
            &&& node2.curious_peers == step.node.curious_peers
            &&& is_ping(node2, step.table, now, round.ping, t2)
        }),
        round.requested@.len() == ping_requests.len(),
        forall|i: int|
            0 <= i < ping_requests.len() ==> (#[trigger] round.requested@[i])@ == (
            ActionView::Send {
                to: ping_requests[i],
                identity: node.identity,
                msg: SwimMessageView::Ping,
            }),
{
    law_when_to_announce(node, t, now);
    let announced = Node { last_broadcast_time: node2.last_broadcast_time, ..node };
    assert(announced == after_join(node, t, now));
    let views = action_views(round.requested@);
    assert(views.len() == ping_requests.len());
    assert forall|i: int| 0 <= i < ping_requests.len() implies (
    #[trigger] round.requested@[i])@ == (ActionView::Send {
        to: ping_requests[i],
        identity: node.identity,
        msg: SwimMessageView::Ping,
    }) by {
        assert(views[i] == round.requested@[i]@);
    }
}

} // verus!
