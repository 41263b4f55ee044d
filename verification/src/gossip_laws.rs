//! What holds of the simpler protocol as a whole.
use crate::addr::Peer;
use crate::gossip::{
    ask_about, ask_about_all, hosts_text, pass_on, ActionView, Member, PeerState, SwimMessageView,
    NUM_INDIRECT_PING_PEERS, PING_TIMEOUT,
};
use crate::listing::{lemma_text_order, text_order};
use crate::map::{lemma_filter, lemma_without_keeps, other_than, with};
use crate::random::{picked_at, sample_of};
use crate::text::addr_text;
use crate::time::{elapsed, Instant};
use vstd::prelude::*;

verus! {

impl Member {
    /// The order lists each known peer, and each of them once.
    pub open spec fn wf(self) -> bool {
        &&& self.order.no_duplicates()
        &&& self.peers.dom() == self.order.to_set()
    }

    /// We know of ourselves, and that we are up.
    pub open spec fn knows_itself(self) -> bool {
        &&& self.peers.contains_key(self.self_addr)
        &&& self.peers[self.self_addr] is Known
    }
}

/// An entry keeps a member in order.
pub proof fn lemma_put(m: Member, peer: Peer, state: PeerState)
    requires
        m.wf(),
    ensures
        m.put(peer, state).wf(),
{
    let m2 = m.put(peer, state);
    if m.order.contains(peer) {
        assert(m.order.to_set().contains(peer));
        assert(m2.peers.dom() =~= m2.order.to_set());
    } else {
        m.order.lemma_push_to_set_commute(peer);
        assert(m2.order.no_duplicates());
        assert(m2.peers.dom() =~= m2.order.to_set());
    }
}

/// Forgetting keeps a member in order.
pub proof fn lemma_forget(m: Member, peer: Peer)
    requires
        m.wf(),
    ensures
        m.forget(peer).wf(),
{
    let m2 = m.forget(peer);
    lemma_without_keeps(m.order, peer);
    assert forall|p: Peer| #[trigger] m2.peers.dom().contains(p) <==> m2.order.to_set().contains(
        p,
    ) by {
        assert(m.peers.dom().contains(p) <==> m.order.to_set().contains(p));
    }
    assert(m2.peers.dom() =~= m2.order.to_set());
}

/// Being told of peers adds those that are new, and leaves those that are known as they are.
pub proof fn law_learning_is_a_union(m: Member, listed: Seq<Peer>)
    requires
        m.wf(),
    ensures
        m.learn_all(listed).wf(),
        m.learn_all(listed).self_addr == m.self_addr,
        m.learn_all(listed).peers.dom() == m.peers.dom().union(listed.to_set()),
        forall|peer: Peer| #[trigger]
            m.peers.contains_key(peer) ==> m.learn_all(listed).peers[peer] == m.peers[peer],
        forall|peer: Peer|
            !m.peers.contains_key(peer) && #[trigger] listed.contains(peer) ==> m.learn_all(
                listed,
            ).peers[peer] is Known,
    decreases listed.len(),
{
    let after = m.learn_all(listed);
    if listed.len() > 0 {
        let rest = listed.drop_last();
        let last = listed.last();
        law_learning_is_a_union(m, rest);
        let before = m.learn_all(rest);
        lemma_put(before, last, PeerState::Known);
        assert(listed =~= rest.push(last));
        rest.lemma_push_to_set_commute(last);
        assert(after.peers.dom() =~= m.peers.dom().union(listed.to_set()));
        assert forall|peer: Peer| !m.peers.contains_key(peer) && #[trigger] listed.contains(
            peer,
        ) implies after.peers[peer] is Known by {
            let k = listed.index_of(peer);
            if k < rest.len() {
                assert(rest[k] == peer);
            }
            if rest.contains(peer) {
                assert(rest.to_set().contains(peer));
                assert(before.peers.dom().contains(peer));
            } else {
                assert(!rest.to_set().contains(peer));
                assert(!before.peers.dom().contains(peer));
            }
        }
    } else {
        assert(m.peers.dom().union(listed.to_set()) =~= m.peers.dom());
    }
}

pub proof fn lemma_put_all(m: Member, listed: Seq<Peer>, state: PeerState)
    requires
        m.wf(),
    ensures
        m.put_all(listed, state).wf(),
        m.put_all(listed, state).self_addr == m.self_addr,
        m.put_all(listed, state).peers.dom() == m.peers.dom().union(listed.to_set()),
        forall|peer: Peer| #[trigger]
            m.put_all(listed, state).peers.contains_key(peer) ==> m.put_all(
                listed,
                state,
            ).peers[peer] == (if listed.contains(peer) {
                state
            } else {
                m.peers[peer]
            }),
    decreases listed.len(),
{
    let after = m.put_all(listed, state);
    if listed.len() > 0 {
        let rest = listed.drop_last();
        let last = listed.last();
        lemma_put_all(m, rest, state);
        lemma_put(m.put_all(rest, state), last, state);
        assert(listed =~= rest.push(last));
        rest.lemma_push_to_set_commute(last);
        assert(after.peers.dom() =~= m.peers.dom().union(listed.to_set()));
        assert forall|peer: Peer| #[trigger] after.peers.contains_key(peer) implies after.peers[peer]
            == (if listed.contains(peer) {
            state
        } else {
            m.peers[peer]
        }) by {
            assert(m.put_all(rest, state).peers.contains_key(peer) || peer == last);
            if listed.contains(peer) && peer != last {
                assert(rest[listed.index_of(peer)] == peer);
            }
            if rest.contains(peer) {
                assert(listed[rest.index_of(peer)] == peer);
            }
            assert(listed[listed.len() - 1] == last);
        }
    } else {
        assert(after.peers.dom() =~= m.peers.dom().union(listed.to_set()));
    }
}

pub proof fn lemma_forget_all(m: Member, listed: Seq<Peer>)
    requires
        m.wf(),
    ensures
        m.forget_all(listed).wf(),
        m.forget_all(listed).self_addr == m.self_addr,
        m.forget_all(listed).peers == m.peers.remove_keys(listed.to_set()),
        m.forget_all(listed).curious_peers == m.curious_peers.remove_keys(listed.to_set()),
    decreases listed.len(),
{
    if listed.len() > 0 {
        let rest = listed.drop_last();
        lemma_forget_all(m, rest);
        lemma_forget(m.forget_all(rest), listed.last());
        assert(listed =~= rest.push(listed.last()));
        rest.lemma_push_to_set_commute(listed.last());
        assert(m.forget_all(listed).peers =~= m.peers.remove_keys(listed.to_set()));
        assert(m.forget_all(listed).curious_peers =~= m.curious_peers.remove_keys(listed.to_set()));
    } else {
        assert(m.peers =~= m.peers.remove_keys(listed.to_set()));
        assert(m.curious_peers =~= m.curious_peers.remove_keys(listed.to_set()));
    }
}

/// What becomes of each peer when a member looks after those that do not answer: it stays as it is,
/// unless others are asked about it or it is given up.
pub proof fn law_suspicion(m: Member, now: Instant, asked: Seq<Seq<Peer>>)
    requires
        m.wf(),
    ensures
        m.on_suspicion(now, asked).member.wf(),
        m.on_suspicion(now, asked).member.self_addr == m.self_addr,
        forall|peer: Peer| #[trigger]
            m.on_suspicion(now, asked).member.peers.contains_key(peer) <==> m.peers.contains_key(
                peer,
            ) && !m.is_given_up(now)(peer),
        forall|peer: Peer| #[trigger]
            m.on_suspicion(now, asked).member.peers.contains_key(peer) ==> m.on_suspicion(
                now,
                asked,
            ).member.peers[peer] == (if m.is_asked_about(now)(peer) {
                PeerState::WaitingForIndirectPing(now)
            } else {
                m.peers[peer]
            }),
{
    let asked_about = m.order.filter(m.is_asked_about(now));
    let given_up = m.order.filter(m.is_given_up(now));
    let state = PeerState::WaitingForIndirectPing(now);
    lemma_filter(m.order, m.is_asked_about(now));
    lemma_filter(m.order, m.is_given_up(now));
    lemma_put_all(m, asked_about, state);
    let waiting = m.put_all(asked_about, state);
    lemma_forget_all(waiting, given_up);
    let after = m.on_suspicion(now, asked).member;
    assert forall|peer: Peer| #[trigger] after.peers.contains_key(peer) <==> m.peers.contains_key(
        peer,
    ) && !m.is_given_up(now)(peer) by {
        assert(asked_about.to_set().contains(peer) <==> asked_about.contains(peer));
        assert(given_up.to_set().contains(peer) <==> given_up.contains(peer));
        assert(m.order.to_set().contains(peer) <==> m.order.contains(peer));
        assert(waiting.peers.dom().contains(peer) <==> m.peers.dom().contains(peer));
    }
    assert forall|peer: Peer| #[trigger] after.peers.contains_key(peer) implies after.peers[peer]
        == (if m.is_asked_about(now)(peer) {
        state
    } else {
        m.peers[peer]
    }) by {
        assert(waiting.peers.contains_key(peer));
        assert(m.order.to_set().contains(peer));
        assert(asked_about.contains(peer) <==> m.is_asked_about(now)(peer));
    }
}

/// We never forget ourselves, nor suspect ourselves: whatever comes in and however time passes, our
/// own entry says that we are up.
pub proof fn law_self_is_kept(
    m: Member,
    broadcast: SwimMessageView,
    sender: Peer,
    msg: SwimMessageView,
    asked: Seq<Seq<Peer>>,
    target: Option<Peer>,
    now: Instant,
)
    requires
        m.wf(),
        m.knows_itself(),
    ensures
        m.on_tick(now).member.wf() && m.on_tick(now).member.knows_itself(),
        m.on_broadcast(broadcast).member.wf() && m.on_broadcast(broadcast).member.knows_itself(),
        m.on_message(sender, msg).member.wf() && m.on_message(sender, msg).member.knows_itself(),
        m.on_suspicion(now, asked).member.wf() && m.on_suspicion(now, asked).member.knows_itself(),
        m.may_ping(target) ==> m.on_ping(target, now).member.wf() && m.on_ping(
            target,
            now,
        ).member.knows_itself(),
{
    match broadcast {
        SwimMessageView::Failed(peer) => {
            lemma_forget(m, peer);
        },
        SwimMessageView::Join(peer) => {
            lemma_put(m, peer, PeerState::Known);
        },
        _ => {},
    }
    match msg {
        SwimMessageView::Ack(peer) => {
            lemma_put(m, peer, PeerState::Known);
        },
        SwimMessageView::KnownPeers(peers) => {
            law_learning_is_a_union(m, peers);
            assert(m.learn_all(peers).peers.dom().contains(m.self_addr));
        },
        SwimMessageView::Ping => {
            lemma_put(m, sender, PeerState::Known);
        },
        _ => {},
    }
    law_suspicion(m, now, asked);
    assert(!m.is_asked_about(now)(m.self_addr));
    assert(!m.is_given_up(now)(m.self_addr));
    assert(m.on_suspicion(now, asked).member.peers.contains_key(m.self_addr));
    if let Some(peer) = target {
        lemma_put(m, peer, PeerState::WaitingForPing(now));
        lemma_filter(m.order, m.is_target());
    }
}

pub proof fn lemma_requests_are_sent(peers: Seq<Peer>, asked: Seq<Seq<Peer>>, i: int, j: int)
    requires
        asked.len() >= peers.len(),
        0 <= i < peers.len(),
        0 <= j < asked[i].len(),
    ensures
        ask_about_all(peers, asked).contains(
            ActionView::Send(asked[i][j], SwimMessageView::PingRequest(peers[i])),
        ),
    decreases peers.len(),
{
    let last = peers.len() - 1;
    let rest = ask_about_all(peers.drop_last(), asked);
    let requests = ask_about(peers.last(), asked[last]);
    let all = ask_about_all(peers, asked);
    let request = ActionView::Send(asked[i][j], SwimMessageView::PingRequest(peers[i]));
    if i == last {
        assert(requests[j] == request);
        assert(all[rest.len() + j] == request);
    } else {
        lemma_requests_are_sent(peers.drop_last(), asked, i, j);
        assert(peers.drop_last()[i] == peers[i]);
        let k = rest.index_of(request);
        assert(all[k] == request);
    }
}

/// About a peer that has not answered our ping in time a few others are asked, or all if they are
/// not so many: peers that are up as far as we know, neither ourselves nor the peer itself. It is
/// not given up meanwhile.
pub proof fn law_suspects_are_asked_about(
    m: Member,
    now: Instant,
    asked: Seq<Seq<Peer>>,
    peer: Peer,
)
    requires
        m.wf(),
        m.are_samples(now, asked),
        m.peers.contains_key(peer),
        m.peers[peer] matches PeerState::WaitingForPing(sent) && elapsed(now, sent) >= PING_TIMEOUT,
        m.helpers().len() > 0,
    ensures
        m.on_suspicion(now, asked).member.peers.contains_key(peer),
        m.on_suspicion(now, asked).member.peers[peer] == PeerState::WaitingForIndirectPing(now),
        exists|i: int|
            {
                &&& 0 <= i < asked.len()
                &&& (#[trigger] asked[i]).len() == if m.helpers().len() < NUM_INDIRECT_PING_PEERS {
                    m.helpers().len()
                } else {
                    NUM_INDIRECT_PING_PEERS as nat
                }
                &&& asked[i].no_duplicates()
                &&& forall|j: int|
                    0 <= j < asked[i].len() ==> {
                        let helper = #[trigger] asked[i][j];
                        &&& m.peers.contains_key(helper)
                        &&& m.peers[helper] is Known
                        &&& helper != m.self_addr
                        &&& helper != peer
                        &&& m.on_suspicion(now, asked).actions.contains(
                            ActionView::Send(helper, SwimMessageView::PingRequest(peer)),
                        )
                    }
            },
{
    let asked_about = m.order.filter(m.is_asked_about(now));
    law_suspicion(m, now, asked);
    assert(m.is_suspected(now)(peer));
    assert(m.is_asked_about(now)(peer));
    assert(!m.is_given_up(now)(peer));
    assert(m.on_suspicion(now, asked).member.peers.contains_key(peer));
    lemma_filter(m.order, m.is_asked_about(now));
    lemma_filter(m.order, m.is_target());
    assert(m.order.to_set().contains(peer));
    assert(asked_about.contains(peer));
    let i = asked_about.index_of(peer);
    let from = m.helpers();
    let sample = asked[i];
    assert(sample_of(from, sample, NUM_INDIRECT_PING_PEERS as nat));
    let at = choose|at: Seq<int>| picked_at(from, sample, at);
    assert forall|a: int, b: int| 0 <= a < sample.len() && 0 <= b < sample.len() && a
        != b implies sample[a] != sample[b] by {
        assert(at[a] != at[b]);
        assert(from[at[a]] != from[at[b]]);
    }
    let requests = ask_about_all(asked_about, asked);
    let all = m.on_suspicion(now, asked).actions;
    assert forall|j: int| 0 <= j < sample.len() implies {
        let helper = #[trigger] sample[j];
        &&& m.peers.contains_key(helper)
        &&& m.peers[helper] is Known
        &&& helper != m.self_addr
        &&& helper != peer
        &&& all.contains(ActionView::Send(helper, SwimMessageView::PingRequest(peer)))
    } by {
        let helper = sample[j];
        assert(0 <= at[j] < from.len());
        assert(from.contains(helper));
        assert(m.order.to_set().contains(helper));
        lemma_requests_are_sent(asked_about, asked, i, j);
        let request = ActionView::Send(helper, SwimMessageView::PingRequest(peer));
        let k = requests.index_of(request);
        assert(all[k] == request);
    }
}

/// A peer that is silent for good is found out: once it has not answered our ping in time, and then
/// has not answered those whom we asked in time, it is gone.
pub proof fn law_silent_peers_are_found_out(
    m: Member,
    peer: Peer,
    first: Instant,
    asked: Seq<Seq<Peer>>,
    second: Instant,
    asked2: Seq<Seq<Peer>>,
)
    requires
        m.wf(),
        m.peers.contains_key(peer),
        m.peers[peer] matches PeerState::WaitingForPing(sent) && elapsed(first, sent)
            >= PING_TIMEOUT,
        elapsed(second, first) >= PING_TIMEOUT,
    ensures
        !m.on_suspicion(first, asked).member.on_suspicion(
            second,
            asked2,
        ).member.peers.contains_key(peer),
{
    let once = m.on_suspicion(first, asked).member;
    law_suspicion(m, first, asked);
    law_suspicion(once, second, asked2);
    if once.peers.contains_key(peer) {
        assert(m.is_suspected(first)(peer));
        assert(m.is_asked_about(first)(peer));
        assert(once.is_lost(second)(peer));
    }
}

/// A newcomer is told of everyone else that we know of, ourselves first of all.
pub proof fn law_newcomers_are_told(m: Member, peer: Peer)
    requires
        m.wf(),
        m.knows_itself(),
        peer != m.self_addr,
    ensures
        ({
            let others = m.put(peer, PeerState::Known).order.filter(other_than(peer));
            &&& m.on_broadcast(SwimMessageView::Join(peer)).actions == seq![
                ActionView::Send(peer, SwimMessageView::KnownPeers(others)),
            ]
            &&& others.contains(m.self_addr)
            &&& forall|other: Peer| #[trigger]
                others.contains(other) <==> m.peers.contains_key(other) && other != peer
        }),
{
    let joined = m.put(peer, PeerState::Known);
    lemma_put(m, peer, PeerState::Known);
    let others = joined.order.filter(other_than(peer));
    lemma_filter(joined.order, other_than(peer));
    assert forall|other: Peer| #[trigger] others.contains(other) <==> m.peers.contains_key(other)
        && other != peer by {
        assert(joined.order.to_set().contains(other) <==> joined.order.contains(other));
        assert(joined.peers.dom().contains(other) <==> m.peers.contains_key(other) || other
            == peer);
    }
    assert(others.contains(m.self_addr));
    assert(others.len() > 0) by {
        assert(0 <= others.index_of(m.self_addr) < others.len());
    }
}

/// Whoever asked us to ping a peer is told once that peer answers, and the matter is done with.
pub proof fn law_answers_are_passed_on(m: Member, asker: Peer, peer: Peer, sender: Peer)
    ensures
        ({
            let asked = m.on_message(asker, SwimMessageView::PingRequest(peer));
            let answered = asked.member.on_message(sender, SwimMessageView::Ack(peer));
            &&& asked.actions == seq![ActionView::Send(peer, SwimMessageView::Ping)]
            &&& answered.actions.contains(ActionView::Send(asker, SwimMessageView::Ack(peer)))
            &&& answered.member.curious_about(peer).len() == 0
            &&& answered.member.peers.contains_key(peer)
            &&& answered.member.peers[peer] is Known
        }),
{
    let asked = m.on_message(asker, SwimMessageView::PingRequest(peer));
    let answered = asked.member.on_message(sender, SwimMessageView::Ack(peer));
    let list = with(m.curious_about(peer), asker);
    if !m.curious_about(peer).contains(asker) {
        assert(list[m.curious_about(peer).len() as int] == asker);
    }
    assert(asked.member.curious_about(peer) == list);
    let k = list.index_of(asker);
    assert(pass_on(list, peer)[k] == ActionView::Send(asker, SwimMessageView::Ack(peer)));
}

proof fn lemma_same_texts(a: Seq<Peer>, b: Seq<Peer>)
    requires
        a.no_duplicates(),
        b.no_duplicates(),
        a.to_set() == b.to_set(),
    ensures
        a.map_values(|peer: Peer| addr_text(peer)).to_multiset() == b.map_values(
            |peer: Peer| addr_text(peer),
        ).to_multiset(),
    decreases a.len(),
{
    let text = |peer: Peer| addr_text(peer);
    if a.len() == 0 {
        if b.len() > 0 {
            assert(b.to_set().contains(b[0]));
            assert(a.contains(b[0]));
        }
        assert(a.map_values(text) =~= b.map_values(text));
    } else {
        let last = a.last();
        assert(a.to_set().contains(last));
        assert(b.contains(last));
        let i = b.index_of(last);
        let a2 = a.drop_last();
        let b2 = b.remove(i);
        b.remove_ensures(i);
        assert(a =~= a2.push(last));
        assert(b2.no_duplicates());
        assert forall|peer: Peer| #[trigger] a2.to_set().contains(peer) <==> b2.to_set().contains(
            peer,
        ) by {
            if a2.contains(peer) {
                let k = a2.index_of(peer);
                assert(a[k] == peer);
                assert(a.to_set().contains(peer));
                assert(b.contains(peer));
                let j = b.index_of(peer);
                let j2 = if j < i { j } else { j - 1 };
                assert(b2[j2] == peer);
            }
            if b2.contains(peer) {
                let j2 = b2.index_of(peer);
                let j = if j2 < i { j2 } else { j2 + 1 };
                assert(b[j] == peer);
                assert(b.to_set().contains(peer));
                assert(a.contains(peer));
                let k = a.index_of(peer);
                assert(a2[k] == peer);
            }
        }
        assert(a2.to_set() =~= b2.to_set());
        lemma_same_texts(a2, b2);
        assert(a.map_values(text) =~= a2.map_values(text).push(text(last)));
        vstd::seq_lib::to_multiset_build(a2.map_values(text), text(last));
        assert(b2.map_values(text).insert(i, text(last)) =~= b.map_values(text));
        vstd::seq_lib::to_multiset_insert(b2.map_values(text), i, text(last));
    }
}

/// The fingerprint does not depend on the order in which peers became known.
pub proof fn law_fingerprint_is_stable(a: Seq<Peer>, b: Seq<Peer>)
    requires
        a.no_duplicates(),
        b.no_duplicates(),
        a.to_set() == b.to_set(),
    ensures
        hosts_text(a) == hosts_text(b),
{
    let order = text_order();
    let x = a.map_values(|peer: Peer| addr_text(peer));
    let y = b.map_values(|peer: Peer| addr_text(peer));
    lemma_same_texts(a, b);
    lemma_text_order();
    x.lemma_sort_by_ensures(order);
    y.lemma_sort_by_ensures(order);
    vstd::seq_lib::lemma_sorted_unique(x.sort_by(order), y.sort_by(order), order);
}

} // verus!
