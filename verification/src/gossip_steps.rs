//! What each step of the simpler protocol does, peer by peer and message by message.
use crate::addr::Peer;
use crate::gossip::{
    announce_failed, ask_about, ask_about_all, hosts_text, is_judgement, ActionView, Member,
    PeerState, SwimMessageView, NUM_INDIRECT_PING_PEERS, PING_TIMEOUT, REBROADCAST_INTERVAL,
};
use crate::gossip_laws::{
    law_learning_is_a_union, law_suspicion, lemma_forget, lemma_forget_all, lemma_put,
    lemma_put_all, lemma_requests_are_sent,
};
use crate::listing::{comma_separated, lemma_text_order, text_order};
use crate::map::{lemma_filter, other_than};
use crate::steps::law_samples_are_fair;
use crate::suspicion::Judgement;
use crate::text::addr_text;
use crate::time::Instant;
use vstd::prelude::*;
use vstd::relations::sorted_by;

verus! {

// Looking after the peers that do not answer.

proof fn lemma_helpers(m: Member)
    requires
        m.wf(),
    ensures
        m.helpers().no_duplicates(),
        m.targets() == m.helpers(),
        forall|peer: Peer| #[trigger]
            m.helpers().contains(peer) <==> m.peers.contains_key(peer) && peer != m.self_addr
                && m.peers[peer] is Known,
        m.helpers().len() > 0 <==> exists|other: Peer|
            other != m.self_addr && #[trigger] m.peers.contains_key(other)
                && m.peers[other] is Known,
        m.helpers().len() == m.peers.dom().filter(
            |other: Peer| other != m.self_addr && m.peers[other] is Known,
        ).len(),
{
    lemma_filter(m.order, m.is_target());
    let from = m.helpers();
    assert forall|peer: Peer| #[trigger] from.contains(peer) <==> m.peers.contains_key(peer) && peer
        != m.self_addr && m.peers[peer] is Known by {
        assert(m.order.to_set().contains(peer) <==> m.order.contains(peer));
        assert(m.peers.dom().contains(peer) <==> m.order.to_set().contains(peer));
    }
    if from.len() > 0 {
        assert(from.contains(from[0]));
        assert(m.peers.contains_key(from[0]));
    }
    if exists|other: Peer|
        other != m.self_addr && #[trigger] m.peers.contains_key(other) && m.peers[other] is Known {
        let other = choose|other: Peer|
            other != m.self_addr && #[trigger] m.peers.contains_key(other)
                && m.peers[other] is Known;
        assert(from.contains(other));
    }
    let up = m.peers.dom().filter(
        |other: Peer| other != m.self_addr && m.peers[other] is Known,
    );
    assert forall|other: Peer| #[trigger] from.to_set().contains(other) <==> up.contains(other) by {
        assert(from.contains(other) <==> m.peers.contains_key(other) && other != m.self_addr
            && m.peers[other] is Known);
    }
    assert(from.to_set() =~= up);
    from.unique_seq_to_set();
}

proof fn lemma_requests(peers: Seq<Peer>, asked: Seq<Seq<Peer>>, action: ActionView)
    requires
        asked.len() >= peers.len(),
        ask_about_all(peers, asked).contains(action),
    ensures
        exists|i: int, j: int|
            0 <= i < peers.len() && 0 <= j < asked[i].len() && action == ActionView::Send(
                #[trigger] asked[i][j],
                SwimMessageView::PingRequest(peers[i]),
            ),
    decreases peers.len(),
{
    if peers.len() > 0 {
        let fewer = peers.drop_last();
        let rest = ask_about_all(fewer, asked);
        let last = peers.len() - 1;
        let requests = ask_about(peers.last(), asked[last]);
        let all = ask_about_all(peers, asked);
        let k = all.index_of(action);
        if k < rest.len() {
            assert(rest[k] == action);
            lemma_requests(fewer, asked, action);
            let (i, j) = choose|i: int, j: int|
                0 <= i < fewer.len() && 0 <= j < asked[i].len() && action == ActionView::Send(
                    #[trigger] asked[i][j],
                    SwimMessageView::PingRequest(fewer[i]),
                );
            assert(peers[i] == fewer[i]);
            assert(action == ActionView::Send(
                asked[i][j],
                SwimMessageView::PingRequest(peers[i]),
            ));
        } else {
            let j = k - rest.len();
            assert(requests[j] == action);
            assert(action == ActionView::Send(
                asked[last][j],
                SwimMessageView::PingRequest(peers[last]),
            ));
        }
    }
}

/// What becomes of a peer when a member looks after those that do not answer.
///
/// A peer that is up, or for whose answer we have not waited long enough, stays as it is. A peer
/// that has not answered our ping in time stays, too, if there is anyone else whom we can ask about
/// it; from then on we wait for the answers of those. If there is no one, or if they have not heard
/// of it in time, either, it is forgotten, and so is who was curious about it. Everyone is told that
/// it failed then, and only then.
pub proof fn law_what_becomes_of_silent_peers(
    m: Member,
    now: Instant,
    asked: Seq<Seq<Peer>>,
    peer: Peer,
)
    requires
        m.wf(),
        m.are_samples(now, asked),
    ensures
        ({
            let step = m.on_suspicion(now, asked);
            let after = step.member.peers;
            let told = step.actions.contains(ActionView::Broadcast(SwimMessageView::Failed(peer)));
            let anyone_to_ask = exists|other: Peer|
                other != m.self_addr && #[trigger] m.peers.contains_key(other)
                    && m.peers[other] is Known;
            let stays = after.contains_key(peer) && after[peer] == m.peers[peer] && !told;
            let is_gone = !after.contains_key(peer) && told;
            if !m.peers.contains_key(peer) {
                !after.contains_key(peer) && !told
            } else {
                match m.peers[peer] {
                    PeerState::Known => stays,
                    PeerState::WaitingForPing(sent) => if now < sent + PING_TIMEOUT {
                        stays
                    } else if anyone_to_ask {
                        &&& after.contains_key(peer)
                        &&& after[peer] == PeerState::WaitingForIndirectPing(now)
                        &&& !told
                    } else {
                        is_gone
                    },
                    PeerState::WaitingForIndirectPing(sent) => if now < sent + PING_TIMEOUT {
                        stays
                    } else {
                        is_gone
                    },
                }
            }
        }),
        ({
            let after = m.on_suspicion(now, asked).member;
            if m.peers.contains_key(peer) && !after.peers.contains_key(peer) {
                !after.curious_peers.contains_key(peer)
            } else {
                &&& after.curious_peers.contains_key(peer) == m.curious_peers.contains_key(peer)
                &&& m.curious_peers.contains_key(peer) ==> after.curious_peers[peer]
                    == m.curious_peers[peer]
            }
        }),
        m.on_suspicion(now, asked).member.wf(),
        m.on_suspicion(now, asked).member.self_addr == m.self_addr,
        m.on_suspicion(now, asked).member.last_broadcast_time == m.last_broadcast_time,
{
    let step = m.on_suspicion(now, asked);
    law_suspicion(m, now, asked);
    lemma_helpers(m);
    let after = step.member.peers;
    assert(after.contains_key(peer) <==> m.peers.contains_key(peer) && !m.is_given_up(now)(peer));
    let asked_about = m.order.filter(m.is_asked_about(now));
    let given_up = m.order.filter(m.is_given_up(now));
    lemma_filter(m.order, m.is_given_up(now));
    lemma_filter(m.order, m.is_asked_about(now));
    assert(given_up.to_set().contains(peer) <==> given_up.contains(peer));
    assert(m.order.to_set().contains(peer) <==> m.order.contains(peer));
    assert(m.peers.dom().contains(peer) <==> m.order.to_set().contains(peer));
    let requests = ask_about_all(asked_about, asked);
    let failures = announce_failed(given_up);
    let news = ActionView::Broadcast(SwimMessageView::Failed(peer));
    if step.actions.contains(news) {
        let k = step.actions.index_of(news);
        if k < requests.len() {
            assert(requests[k] == news);
            lemma_requests(asked_about, asked, news);
        } else {
            assert(failures[k - requests.len()] == news);
            assert(given_up[k - requests.len()] == peer);
            assert(given_up.contains(peer));
        }
    }
    if given_up.contains(peer) {
        let k = given_up.index_of(peer);
        assert(failures[k] == news);
        assert(step.actions[requests.len() + k] == news);
    }
    let state = PeerState::WaitingForIndirectPing(now);
    lemma_put_all(m, asked_about, state);
    lemma_put_all_keeps(m, asked_about, state);
    let waiting = m.put_all(asked_about, state);
    lemma_forget_all(waiting, given_up);
    lemma_forget_all_keeps(waiting, given_up);
}

proof fn lemma_put_all_keeps(m: Member, listed: Seq<Peer>, state: PeerState)
    ensures
        m.put_all(listed, state).curious_peers == m.curious_peers,
        m.put_all(listed, state).last_broadcast_time == m.last_broadcast_time,
    decreases listed.len(),
{
    if listed.len() > 0 {
        lemma_put_all_keeps(m, listed.drop_last(), state);
    }
}

proof fn lemma_forget_all_keeps(m: Member, listed: Seq<Peer>)
    ensures
        m.forget_all(listed).last_broadcast_time == m.last_broadcast_time,
    decreases listed.len(),
{
    if listed.len() > 0 {
        lemma_forget_all_keeps(m, listed.drop_last());
    }
}

proof fn lemma_learn_all_keeps(m: Member, listed: Seq<Peer>)
    ensures
        m.learn_all(listed).last_broadcast_time == m.last_broadcast_time,
        m.learn_all(listed).curious_peers == m.curious_peers,
    decreases listed.len(),
{
    if listed.len() > 0 {
        lemma_learn_all_keeps(m, listed.drop_last());
    }
}

/// The judgement on the peers says of each whom it lists what is to be done about it.
pub proof fn law_judgements_are_just(j: Judgement, m: Member, now: Instant, peer: Peer)
    requires
        m.wf(),
        is_judgement(j, m, now),
    ensures
        j.helpers@.no_duplicates(),
        j.asked_about@.no_duplicates(),
        j.given_up@.no_duplicates(),
        j.helpers@.contains(peer) <==> m.peers.contains_key(peer) && peer != m.self_addr
            && m.peers[peer] is Known,
        j.asked_about@.contains(peer) <==> {
            &&& m.peers.contains_key(peer)
            &&& m.peers[peer] matches PeerState::WaitingForPing(sent) && now >= sent + PING_TIMEOUT
            &&& j.helpers@.len() > 0
        },
        j.given_up@.contains(peer) <==> {
            &&& m.peers.contains_key(peer)
            &&& match m.peers[peer] {
                PeerState::Known => false,
                PeerState::WaitingForPing(sent) => now >= sent + PING_TIMEOUT && j.helpers@.len()
                    == 0,
                PeerState::WaitingForIndirectPing(sent) => now >= sent + PING_TIMEOUT,
            }
        },
{
    lemma_helpers(m);
    lemma_filter(m.order, m.is_asked_about(now));
    lemma_filter(m.order, m.is_given_up(now));
    assert(m.order.to_set().contains(peer) <==> m.order.contains(peer));
    assert(m.peers.dom().contains(peer) <==> m.order.to_set().contains(peer));
}

proof fn lemma_requests_are_different(peers: Seq<Peer>, asked: Seq<Seq<Peer>>)
    requires
        asked.len() >= peers.len(),
        peers.no_duplicates(),
        forall|i: int| 0 <= i < peers.len() ==> (#[trigger] asked[i]).no_duplicates(),
    ensures
        ask_about_all(peers, asked).no_duplicates(),
    decreases peers.len(),
{
    if peers.len() > 0 {
        let fewer = peers.drop_last();
        let last = peers.len() - 1;
        lemma_requests_are_different(fewer, asked);
        let rest = ask_about_all(fewer, asked);
        let more = ask_about(peers.last(), asked[last]);
        let all = ask_about_all(peers, asked);
        assert(asked[last].no_duplicates());
        assert forall|a: int, b: int| 0 <= a < b < all.len() implies all[a] != all[b] by {
            if b < rest.len() {
                assert(all[a] == rest[a] && all[b] == rest[b]);
            } else if a >= rest.len() {
                let (c, d) = (a - rest.len(), b - rest.len());
                assert(all[a] == more[c] && all[b] == more[d]);
                assert(asked[last][c] != asked[last][d]);
            } else {
                assert(rest.contains(rest[a]));
                lemma_requests(fewer, asked, rest[a]);
                let (i, j) = choose|i: int, j: int|
                    0 <= i < fewer.len() && 0 <= j < asked[i].len() && rest[a] == ActionView::Send(
                        #[trigger] asked[i][j],
                        SwimMessageView::PingRequest(fewer[i]),
                    );
                assert(fewer[i] == peers[i]);
                assert(peers[i] != peers[last]);
                assert(all[b] == more[b - rest.len()]);
            }
        }
    }
}

/// About a peer that has not answered our ping in time, three of the others that are up are asked,
/// or all of them if they are fewer, each of them once; about any other peer no one is asked. Nothing
/// else is sent but announcements of failures, and nothing twice.
pub proof fn law_who_is_asked_about_silent_peers(
    m: Member,
    now: Instant,
    asked: Seq<Seq<Peer>>,
    peer: Peer,
)
    requires
        m.wf(),
        m.are_samples(now, asked),
    ensures
        m.on_suspicion(now, asked).actions.no_duplicates(),
        forall|action: ActionView| #[trigger]
            m.on_suspicion(now, asked).actions.contains(action) ==> match action {
                ActionView::Broadcast(msg) => msg is Failed,
                ActionView::Send(_, msg) => msg is PingRequest,
            },
        exists|whom: Seq<Peer>|
            {
                let actions = m.on_suspicion(now, asked).actions;
                let up = m.peers.dom().filter(
                    |other: Peer| other != m.self_addr && m.peers[other] is Known,
                );
                let is_silent = m.peers.contains_key(peer) && (
                m.peers[peer] matches PeerState::WaitingForPing(sent) && now >= sent
                    + PING_TIMEOUT);
                &&& #[trigger] whom.no_duplicates()
                &&& whom.len() == if !is_silent {
                    0
                } else if up.len() < 3 {
                    up.len()
                } else {
                    3
                }
                &&& forall|helper: Peer| #[trigger]
                    whom.contains(helper) ==> helper != m.self_addr && helper != peer
                        && m.peers.contains_key(helper) && m.peers[helper] is Known
                &&& forall|to: Peer| #[trigger]
                    whom.contains(to) <==> actions.contains(
                        ActionView::Send(to, SwimMessageView::PingRequest(peer)),
                    )
            },
{
    let step = m.on_suspicion(now, asked);
    let actions = step.actions;
    let pred = m.is_asked_about(now);
    let asked_about = m.order.filter(pred);
    let given_up = m.order.filter(m.is_given_up(now));
    let requests = ask_about_all(asked_about, asked);
    let failures = announce_failed(given_up);
    let from = m.helpers();
    lemma_filter(m.order, pred);
    lemma_filter(m.order, m.is_given_up(now));
    lemma_helpers(m);
    assert forall|i: int| 0 <= i < asked_about.len() implies (
    #[trigger] asked[i]).no_duplicates() by {
        law_samples_are_fair(from, asked[i], NUM_INDIRECT_PING_PEERS as nat);
    }
    lemma_requests_are_different(asked_about, asked);
    assert forall|action: ActionView| #[trigger] requests.contains(action) implies (
    action matches ActionView::Send(_, msg) && msg is PingRequest) by {
        lemma_requests(asked_about, asked, action);
    }
    assert forall|a: int, b: int| 0 <= a < b < actions.len() implies actions[a] != actions[b] by {
        if b < requests.len() {
            assert(actions[a] == requests[a] && actions[b] == requests[b]);
        } else if a >= requests.len() {
            let (c, d) = (a - requests.len(), b - requests.len());
            assert(given_up[c] != given_up[d]);
            assert(actions[a] == failures[c] && actions[b] == failures[d]);
        } else {
            assert(requests.contains(requests[a]));
            assert(actions[b] == failures[b - requests.len()]);
        }
    }
    assert forall|action: ActionView| #[trigger] actions.contains(action) implies match action {
        ActionView::Broadcast(msg) => msg is Failed,
        ActionView::Send(_, msg) => msg is PingRequest,
    } by {
        let k = actions.index_of(action);
        if k < requests.len() {
            assert(requests[k] == action);
            assert(requests.contains(action));
        } else {
            assert(failures[k - requests.len()] == action);
        }
    }
    assert(m.order.to_set().contains(peer) <==> m.order.contains(peer));
    assert(m.peers.dom().contains(peer) <==> m.order.to_set().contains(peer));
    let whom = if asked_about.contains(peer) {
        asked[asked_about.index_of(peer)]
    } else {
        Seq::empty()
    };
    assert forall|to: Peer| #[trigger] whom.contains(to) <==> actions.contains(
        ActionView::Send(to, SwimMessageView::PingRequest(peer)),
    ) by {
        let request = ActionView::Send(to, SwimMessageView::PingRequest(peer));
        if whom.contains(to) {
            let i = asked_about.index_of(peer);
            let j = whom.index_of(to);
            lemma_requests_are_sent(asked_about, asked, i, j);
            assert(actions[requests.index_of(request)] == request);
        }
        if actions.contains(request) {
            let k = actions.index_of(request);
            if k >= requests.len() {
                assert(failures[k - requests.len()] == request);
            }
            assert(requests[k] == request);
            lemma_requests(asked_about, asked, request);
            let (i, j) = choose|i: int, j: int|
                0 <= i < asked_about.len() && 0 <= j < asked[i].len() && request
                    == ActionView::Send(
                    #[trigger] asked[i][j],
                    SwimMessageView::PingRequest(asked_about[i]),
                );
            assert(asked_about[i] == peer);
            assert(asked_about.contains(peer));
            assert(asked_about.index_of(peer) == i);
            assert(whom[j] == to);
        }
    }
    if asked_about.contains(peer) {
        law_samples_are_fair(from, whom, NUM_INDIRECT_PING_PEERS as nat);
        assert(pred(peer));
        assert forall|helper: Peer| #[trigger] whom.contains(helper) implies helper != m.self_addr
            && helper != peer && m.peers.contains_key(helper) && m.peers[helper] is Known by {
            assert(from.contains(helper));
        }
    } else {
        assert(!pred(peer) || !m.peers.contains_key(peer));
        assert(whom.no_duplicates());
    }
}

// Messages.

/// Whom a member knows once a message to it has come, and what it sends in answer.
///
/// Whoever pings it is up, and is told that we are; a peer of which an answer comes is up, and so are
/// those that a list names if they were not known. Nothing else changes. An answer is passed on to
/// each of those who want to hear of the peer, once and in their order.
pub proof fn law_what_a_message_does(m: Member, sender: Peer, msg: SwimMessageView, peer: Peer)
    requires
        m.wf(),
    ensures
        ({
            let step = m.on_message(sender, msg);
            let after = step.member;
            let is_heard = (msg is Ping && sender == peer) || msg == SwimMessageView::Ack(peer);
            let is_listed = msg matches SwimMessageView::KnownPeers(peers) && peers.contains(peer);
            &&& after.wf()
            &&& after.self_addr == m.self_addr
            &&& after.last_broadcast_time == m.last_broadcast_time
            &&& after.peers.contains_key(peer) <==> m.peers.contains_key(peer) || is_heard
                || is_listed
            &&& is_heard ==> after.peers[peer] is Known
            &&& m.peers.contains_key(peer) && !is_heard ==> after.peers[peer] == m.peers[peer]
            &&& !m.peers.contains_key(peer) && is_listed ==> after.peers[peer] is Known
            &&& match msg {
                SwimMessageView::Ping => step.actions == seq![
                    ActionView::Send(sender, SwimMessageView::Ack(m.self_addr)),
                ],
                SwimMessageView::PingRequest(target) => step.actions == seq![
                    ActionView::Send(target, SwimMessageView::Ping),
                ],
                SwimMessageView::Ack(of) => {
                    let curious = if m.curious_peers.contains_key(of) {
                        m.curious_peers[of]
                    } else {
                        Seq::empty()
                    };
                    &&& step.actions.len() == curious.len()
                    &&& forall|i: int|
                        0 <= i < curious.len() ==> #[trigger] step.actions[i] == ActionView::Send(
                            curious[i],
                            SwimMessageView::Ack(of),
                        )
                },
                _ => step.actions.len() == 0,
            }
        }),
{
    let after = m.on_message(sender, msg).member;
    match msg {
        SwimMessageView::Ack(of) => {
            lemma_put(m, of, PeerState::Known);
        },
        SwimMessageView::Ping => {
            lemma_put(m, sender, PeerState::Known);
        },
        SwimMessageView::KnownPeers(peers) => {
            law_learning_is_a_union(m, peers);
            lemma_learn_all_keeps(m, peers);
            assert(after.peers.dom().contains(peer) <==> m.peers.dom().contains(peer)
                || peers.to_set().contains(peer));
        },
        _ => {},
    }
}

/// Who wants to hear of a peer once a message has come. Whoever asks for a ping of it is listed from
/// then on, behind those who already were, and no one is listed twice. Once an answer of it has come,
/// no one is. Any other message changes nothing.
pub proof fn law_who_wants_to_hear_of_a_peer(
    m: Member,
    sender: Peer,
    msg: SwimMessageView,
    about: Peer,
)
    ensures
        ({
            let after = m.on_message(sender, msg).member.curious_peers;
            let before = if m.curious_peers.contains_key(about) {
                m.curious_peers[about]
            } else {
                Seq::empty()
            };
            if msg == SwimMessageView::PingRequest(about) {
                &&& after.contains_key(about)
                &&& before.contains(sender) ==> after[about] == before
                &&& !before.contains(sender) ==> after[about] == before.push(sender)
            } else if msg == SwimMessageView::Ack(about) {
                !after.contains_key(about)
            } else {
                &&& after.contains_key(about) == m.curious_peers.contains_key(about)
                &&& m.curious_peers.contains_key(about) ==> after[about] == m.curious_peers[about]
            }
        }),
{
    if let SwimMessageView::KnownPeers(peers) = msg {
        lemma_learn_all_keeps(m, peers);
    }
}

/// Whom a member knows once a message to everyone has come, and what it sends in answer. A peer that
/// failed is forgotten, and one that announces itself is up and told of everyone else that is known,
/// if there is anyone; unless it is ourselves. Nothing else changes.
pub proof fn law_what_a_broadcast_does(m: Member, msg: SwimMessageView, peer: Peer)
    requires
        m.wf(),
    ensures
        ({
            let step = m.on_broadcast(msg);
            let after = step.member;
            let has_failed = msg == SwimMessageView::Failed(peer) && peer != m.self_addr;
            let has_joined = msg == SwimMessageView::Join(peer) && peer != m.self_addr;
            &&& after.wf()
            &&& after.self_addr == m.self_addr
            &&& after.last_broadcast_time == m.last_broadcast_time
            &&& after.curious_peers == m.curious_peers
            &&& after.peers.contains_key(peer) <==> (m.peers.contains_key(peer) && !has_failed)
                || has_joined
            &&& has_joined ==> after.peers[peer] is Known
            &&& m.peers.contains_key(peer) && !has_failed && !has_joined ==> after.peers[peer]
                == m.peers[peer]
            &&& match msg {
                SwimMessageView::Join(newcomer) => if newcomer == m.self_addr {
                    step.actions.len() == 0
                } else {
                    &&& step.actions.len() <= 1
                    &&& step.actions.len() == 0 ==> forall|other: Peer| #[trigger]
                        m.peers.contains_key(other) ==> other == newcomer
                    &&& step.actions.len() == 1 ==> (step.actions[0] matches ActionView::Send(
                        to,
                        SwimMessageView::KnownPeers(others),
                    ) && to == newcomer && others.no_duplicates() && (others.contains(peer)
                        <==> m.peers.contains_key(peer) && peer != newcomer))
                },
                _ => step.actions.len() == 0,
            }
        }),
{
    let step = m.on_broadcast(msg);
    match msg {
        SwimMessageView::Failed(p) => {
            lemma_forget(m, p);
        },
        SwimMessageView::Join(newcomer) => {
            lemma_put(m, newcomer, PeerState::Known);
            let joined = m.put(newcomer, PeerState::Known);
            let others = joined.order.filter(other_than(newcomer));
            lemma_filter(joined.order, other_than(newcomer));
            assert forall|other: Peer| #[trigger] others.contains(other) <==> m.peers.contains_key(
                other,
            ) && other != newcomer by {
                assert(joined.order.to_set().contains(other) <==> joined.order.contains(other));
                assert(joined.peers.dom().contains(other) <==> m.peers.contains_key(other) || other
                    == newcomer);
            }
            if others.len() == 0 {
                assert forall|other: Peer| #[trigger] m.peers.contains_key(other) implies other
                    == newcomer by {
                    if other != newcomer {
                        assert(others.contains(other));
                    }
                }
            }
        },
        _ => {},
    }
}

// Rounds.

/// We announce ourselves if we never have, and after a while again if we know of no one else; that
/// is remembered, and nothing else changes.
pub proof fn law_when_to_announce(m: Member, now: Instant)
    requires
        m.wf(),
    ensures
        ({
            let is_due = match m.last_broadcast_time {
                None => true,
                Some(at) => now >= at + REBROADCAST_INTERVAL && m.peers.dom().len() == 1,
            };
            let step = m.on_tick(now);
            if is_due {
                &&& step.member == (Member { last_broadcast_time: Some(now), ..m })
                &&& step.actions == seq![
                    ActionView::Broadcast(SwimMessageView::Join(m.self_addr)),
                ]
            } else {
                &&& step.member == m
                &&& step.actions.len() == 0
            }
        }),
{
    m.order.unique_seq_to_set();
}

/// Whoever is pinged is up, and not ourselves; we wait for its answer from then on, and nothing else
/// changes. No one is pinged only if no one but ourselves is up.
pub proof fn law_a_ping_waits_for_its_answer(m: Member, target: Option<Peer>, now: Instant, peer: Peer)
    requires
        m.wf(),
        m.may_ping(target),
    ensures
        ({
            let step = m.on_ping(target, now);
            match target {
                Some(pinged) => {
                    &&& m.peers.contains_key(pinged)
                    &&& pinged != m.self_addr
                    &&& m.peers[pinged] is Known
                    &&& step.actions == seq![ActionView::Send(pinged, SwimMessageView::Ping)]
                    &&& step.member.peers.contains_key(peer) <==> m.peers.contains_key(peer)
                    &&& step.member.peers[pinged] == PeerState::WaitingForPing(now)
                    &&& m.peers.contains_key(peer) && peer != pinged ==> step.member.peers[peer]
                        == m.peers[peer]
                },
                None => {
                    &&& step.member == m
                    &&& step.actions.len() == 0
                    &&& m.peers.contains_key(peer) && peer != m.self_addr
                        ==> !(m.peers[peer] is Known)
                },
            }
        }),
        m.on_ping(target, now).member.self_addr == m.self_addr,
        m.on_ping(target, now).member.curious_peers == m.curious_peers,
        m.on_ping(target, now).member.last_broadcast_time == m.last_broadcast_time,
        m.on_ping(target, now).member.wf(),
{
    lemma_helpers(m);
    if let Some(pinged) = target {
        lemma_put(m, pinged, PeerState::WaitingForPing(now));
    } else if m.peers.contains_key(peer) && peer != m.self_addr && m.peers[peer] is Known {
        assert(m.helpers().contains(peer));
    }
}

/// Messages are answered one after the other, each by the member that the ones before it have left.
pub proof fn law_messages_are_answered_in_turn(
    m: Member,
    broadcasts: Seq<SwimMessageView>,
    broadcast: SwimMessageView,
    messages: Seq<(Peer, SwimMessageView)>,
    sender: Peer,
    message: SwimMessageView,
)
    ensures
        m.on_broadcasts(Seq::empty()).member == m,
        m.on_broadcasts(Seq::empty()).actions.len() == 0,
        ({
            let before = m.on_broadcasts(broadcasts);
            let step = before.member.on_broadcast(broadcast);
            let after = m.on_broadcasts(broadcasts.push(broadcast));
            after.member == step.member && after.actions == before.actions + step.actions
        }),
        m.on_messages(Seq::empty()).member == m,
        m.on_messages(Seq::empty()).actions.len() == 0,
        ({
            let before = m.on_messages(messages);
            let step = before.member.on_message(sender, message);
            let after = m.on_messages(messages.push((sender, message)));
            after.member == step.member && after.actions == before.actions + step.actions
        }),
{
    assert(broadcasts.push(broadcast).drop_last() =~= broadcasts);
    assert(messages.push((sender, message)).drop_last() =~= messages);
}

/// In a round we announce ourselves, answer to messages to everyone and then to those to us, look
/// after the peers that do not answer, and ping one of those that are up then. All that is sent is
/// sent in this order.
pub proof fn law_a_round_does_its_parts(
    m: Member,
    tick_start: Instant,
    now: Instant,
    broadcasts: Seq<SwimMessageView>,
    messages: Seq<(Peer, SwimMessageView)>,
    asked: Seq<Seq<Peer>>,
    target: Option<Peer>,
)
    requires
        m.may_choose(tick_start, now, broadcasts, messages, asked, target),
    ensures
        ({
            let round = m.round(tick_start, now, broadcasts, messages, asked, target);
            let one = m.on_tick(tick_start);
            let two = one.member.on_broadcasts(broadcasts);
            let three = two.member.on_messages(messages);
            let four = three.member.on_suspicion(now, asked);
            let five = four.member.on_ping(target, now);
            &&& three.member.are_samples(now, asked)
            &&& four.member.may_ping(target)
            &&& round.member == five.member
            &&& round.actions == one.actions + two.actions + three.actions + four.actions
                + five.actions
        }),
{
}

// The fingerprint.

/// The text of which the fingerprint is the hash names every host once, in the order of the texts,
/// with a comma between any two.
pub proof fn law_hosts_are_listed_in_order(order: Seq<Peer>, texts: Seq<Seq<char>>, text: Seq<char>)
    ensures
        exists|listed: Seq<Seq<char>>|
            {
                &&& hosts_text(order) == #[trigger] comma_separated(listed)
                &&& sorted_by(listed, text_order())
                &&& listed.to_multiset() == Seq::new(
                    order.len(),
                    |i: int| addr_text(order[i]),
                ).to_multiset()
            },
        comma_separated(Seq::empty()).len() == 0,
        comma_separated(seq![text]) == text,
        texts.len() > 0 ==> comma_separated(texts.push(text)) == comma_separated(texts) + seq![',']
            + text,
{
    lemma_text_order();
    let all = order.map_values(|peer: Peer| addr_text(peer));
    all.lemma_sort_by_ensures(text_order());
    let listed = all.sort_by(text_order());
    assert(all =~= Seq::new(order.len(), |i: int| addr_text(order[i])));
    assert(hosts_text(order) == comma_separated(listed));
    assert(texts.push(text).drop_last() =~= texts);
    if texts.len() > 0 {
        assert(comma_separated(texts.push(text)) =~= comma_separated(texts) + seq![','] + text);
    }
}

} // verus!
