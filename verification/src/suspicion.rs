//! Finding out which peers are gone.
use crate::action::{action_views, actions_wf, push_action, Action, ActionView};
use crate::addr::Peer;
use crate::kaboodle::{
    KaboodleInner, Node, Step, NUM_CANDIDATE_TARGET_PEERS, NUM_INDIRECT_PING_PEERS, PING_TIMEOUT,
};
use crate::map::{lemma_filter, lemma_filter_step};
use crate::random::sample_of;
use crate::structs::{
    KnownPeers, PeerState, SwimBroadcast, SwimBroadcastView, SwimMessage, SwimMessageView,
};
use crate::table::{forget_peer, lemma_table, set_peer_state, table, Table};
use crate::time::{duration_since, elapsed, Instant};
use vstd::prelude::*;

verus! {

/// The peers that are up as far as we know, but for ourselves.
pub open spec fn is_responsive(node: Node, t: Table) -> spec_fn(Peer) -> bool {
    |peer: Peer| peer != node.self_addr && t.peers[peer].state is Known
}

/// The peers that have not answered our ping in time.
pub open spec fn is_suspected(t: Table, now: Instant) -> spec_fn(Peer) -> bool {
    |peer: Peer|
        match t.peers[peer].state {
            PeerState::WaitingForPing(sent) => elapsed(now, sent) >= PING_TIMEOUT,
            _ => false,
        }
}

/// The peers that have not answered the pings of those whom we asked for help, either.
pub open spec fn is_lost(t: Table, now: Instant) -> spec_fn(Peer) -> bool {
    |peer: Peer|
        match t.peers[peer].state {
            PeerState::WaitingForIndirectPing(sent) => elapsed(now, sent) >= PING_TIMEOUT,
            _ => false,
        }
}

/// The peers whom we can ask for help, in the order in which they became known.
pub open spec fn helpers(node: Node, t: Table) -> Seq<Peer> {
    t.order.filter(is_responsive(node, t))
}

/// The peers about which we ask others: those that are suspected, if there is anyone to ask.
pub open spec fn is_asked_about(node: Node, t: Table, now: Instant) -> spec_fn(Peer) -> bool {
    |peer: Peer| is_suspected(t, now)(peer) && helpers(node, t).len() > 0
}

/// The peers on which we give up: those that are lost, and those that are suspected if there is no
/// one to ask about them.
pub open spec fn is_given_up(node: Node, t: Table, now: Instant) -> spec_fn(Peer) -> bool {
    |peer: Peer|
        is_lost(t, now)(peer) || (is_suspected(t, now)(peer) && helpers(node, t).len() == 0)
}

/// What is to be done about the peers that do not answer.
#[derive(Debug)]
pub struct Judgement {
    /// The peers whom we can ask for help.
    pub helpers: Vec<Peer>,
    /// The peers about which we ask others.
    pub asked_about: Vec<Peer>,
    /// The peers on which we give up.
    pub given_up: Vec<Peer>,
}

/// The judgement on the peers of a table.
pub open spec fn is_judgement(j: Judgement, node: Node, t: Table, now: Instant) -> bool {
    &&& j.helpers@ == helpers(node, t)
    &&& j.asked_about@ == t.order.filter(is_asked_about(node, t, now))
    &&& j.given_up@ == t.order.filter(is_given_up(node, t, now))
}

/// The table once all `peers` are in the given state.
pub open spec fn set_states(t: Table, peers: Seq<Peer>, state: PeerState) -> Table
    decreases peers.len(),
{
    if peers.len() == 0 {
        t
    } else {
        set_states(t, peers.drop_last(), state).set_state(peers.last(), state)
    }
}

/// The table once all `peers` are forgotten.
pub open spec fn forget_all(t: Table, peers: Seq<Peer>) -> Table
    decreases peers.len(),
{
    if peers.len() == 0 {
        t
    } else {
        forget_all(t, peers.drop_last()).forget(peers.last())
    }
}

/// The requests to ping `peer`, one to each of those whom we ask.
pub open spec fn ask_about(node: Node, peer: Peer, asked: Seq<Peer>) -> Seq<ActionView> {
    asked.map_values(|helper: Peer| node.send(helper, SwimMessageView::PingRequest(peer)))
}

/// The requests to ping the peers, with `asked` saying whom we ask about each of them.
pub open spec fn ask_about_all(node: Node, peers: Seq<Peer>, asked: Seq<Seq<Peer>>) -> Seq<ActionView>
    decreases peers.len(),
{
    if peers.len() == 0 {
        Seq::empty()
    } else {
        ask_about_all(node, peers.drop_last(), asked) + ask_about(
            node,
            peers.last(),
            asked[peers.len() - 1],
        )
    }
}

/// The announcements that the peers are down.
pub open spec fn announce_failed(peers: Seq<Peer>) -> Seq<ActionView> {
    peers.map_values(|peer: Peer| ActionView::Broadcast(SwimBroadcastView::Failed(peer)))
}

/// What an instance does about the peers that do not answer, with `asked` saying whom it asks about
/// each of those about which it asks.
pub open spec fn on_suspicion(node: Node, t: Table, now: Instant, asked: Seq<Seq<Peer>>) -> Step {
    let asked_about = t.order.filter(is_asked_about(node, t, now));
    let given_up = t.order.filter(is_given_up(node, t, now));
    Step {
        node: Node { curious_peers: node.curious_peers.remove_keys(given_up.to_set()), ..node },
        table: forget_all(
            set_states(t, asked_about, PeerState::WaitingForIndirectPing(now)),
            given_up,
        ),
        actions: ask_about_all(node, asked_about, asked) + announce_failed(given_up),
    }
}

/// About each peer a few of the helpers are asked: as many as there are to be, or all if there are
/// not so many.
pub open spec fn are_samples(node: Node, t: Table, now: Instant, asked: Seq<Seq<Peer>>) -> bool {
    &&& asked.len() == t.order.filter(is_asked_about(node, t, now)).len()
    &&& forall|i: int|
        0 <= i < asked.len() ==> sample_of(
            helpers(node, t),
            #[trigger] asked[i],
            NUM_INDIRECT_PING_PEERS as nat,
        )
}

/// The lists that the vectors hold.
pub open spec fn vec_lists(lists: Seq<Vec<Peer>>) -> Seq<Seq<Peer>> {
    lists.map_values(|list: Vec<Peer>| list@)
}

impl KaboodleInner {
    /// The peers whom we can ask for help or ping, in the order in which they became known.
    fn responsive_peers(&self, known_peers: &KnownPeers) -> (r: Vec<Peer>)
        requires
            known_peers.wf(),
        ensures
            r@ == helpers(self@, table(*known_peers)),
    {
        let ghost t = table(*known_peers);
        let ghost pred = is_responsive(self@, t);
        let self_addr = self.self_addr();
        let entries = known_peers.iter();
        let mut r: Vec<Peer> = Vec::new();
        let mut i: usize = 0;
        proof {
            lemma_table(*known_peers);
            assert(t.order.take(0).filter(pred) =~= Seq::<Peer>::empty());
        }
        while i < entries.len()
            invariant
                i <= entries@.len(),
                entries@.len() == t.order.len(),
                forall|j: int|
                    0 <= j < entries@.len() ==> {
                        &&& (#[trigger] entries@[j]).0 == t.order[j]
                        &&& entries@[j].1@ == t.peers[t.order[j]]
                    },
                self_addr == self@.self_addr,
                pred == is_responsive(self@, t),
                r@ == t.order.take(i as int).filter(pred),
            decreases entries@.len() - i,
        {
            let entry = &entries[i];
            proof {
                lemma_filter_step(t.order, pred, i as int);
            }
            if entry.0 != self_addr {
                if let PeerState::Known(_) = entry.1.state {
                    r.push(entry.0);
                }
            }
            i += 1;
        }
        assert(t.order.take(i as int) =~= t.order);
        r
    }

    /// Finds the peers that do not answer.
    pub fn judge_peers(&self, known_peers: &KnownPeers, now: Instant) -> (r: Judgement)
        requires
            known_peers.wf(),
        ensures
            is_judgement(r, self@, table(*known_peers), now),
    {
        let ghost t = table(*known_peers);
        let ghost node = self@;
        let helpers = self.responsive_peers(known_peers);
        let ghost asked_pred = is_asked_about(node, t, now);
        let ghost given_up_pred = is_given_up(node, t, now);
        let mut asked_about: Vec<Peer> = Vec::new();
        let mut given_up: Vec<Peer> = Vec::new();
        let entries = known_peers.iter();
        let mut i: usize = 0;
        proof {
            lemma_table(*known_peers);
            assert(t.order.take(0).filter(asked_pred) =~= Seq::<Peer>::empty());
            assert(t.order.take(0).filter(given_up_pred) =~= Seq::<Peer>::empty());
        }
        while i < entries.len()
            invariant
                i <= entries@.len(),
                entries@.len() == t.order.len(),
                forall|j: int|
                    0 <= j < entries@.len() ==> {
                        &&& (#[trigger] entries@[j]).0 == t.order[j]
                        &&& entries@[j].1@ == t.peers[t.order[j]]
                    },
                helpers@ == crate::suspicion::helpers(node, t),
                asked_pred == is_asked_about(node, t, now),
                given_up_pred == is_given_up(node, t, now),
                asked_about@ == t.order.take(i as int).filter(asked_pred),
                given_up@ == t.order.take(i as int).filter(given_up_pred),
            decreases entries@.len() - i,
        {
            let entry = &entries[i];
            proof {
                lemma_filter_step(t.order, asked_pred, i as int);
                lemma_filter_step(t.order, given_up_pred, i as int);
            }
            match entry.1.state {
                PeerState::Known(_) => {},
                PeerState::WaitingForPing(sent) => {
                    if duration_since(now, sent) >= PING_TIMEOUT {
                        if helpers.len() == 0 {
                            given_up.push(entry.0);
                        } else {
                            asked_about.push(entry.0);
                        }
                    }
                },
                PeerState::WaitingForIndirectPing(sent) => {
                    if duration_since(now, sent) >= PING_TIMEOUT {
                        given_up.push(entry.0);
                    }
                },
            }
            i += 1;
        }
        assert(t.order.take(i as int) =~= t.order);
        Judgement { helpers, asked_about, given_up }
    }
}

impl KaboodleInner {
    /// Acts on a judgement, with `asked` saying whom to ask about each of the peers about which we
    /// ask: asks them, gives up on the lost peers and tells the mesh so.
    pub fn act_on_judgement(
        &mut self,
        known_peers: &mut KnownPeers,
        judgement: Judgement,
        asked: Vec<Vec<Peer>>,
        now: Instant,
    ) -> (r: Vec<Action>)
        requires
            old(self).wf(),
            old(known_peers).wf(),
            is_judgement(judgement, old(self)@, table(*old(known_peers)), now),
            asked@.len() == judgement.asked_about@.len(),
        ensures
            final(self).wf(),
            final(known_peers).wf(),
            actions_wf(r@),
            (Step {
                node: final(self)@,
                table: table(*final(known_peers)),
                actions: action_views(r@),
            }) == on_suspicion(
                old(self)@,
                table(*old(known_peers)),
                now,
                vec_lists(asked@),
            ),
    {
        let ghost node = self@;
        let ghost t = table(*known_peers);
        let ghost lists = vec_lists(asked@);
        let Judgement { helpers: _, asked_about, given_up } = judgement;
        let mut actions: Vec<Action> = Vec::new();
        let ghost state = PeerState::WaitingForIndirectPing(now);

        let mut i: usize = 0;
        assert(asked_about@.take(0) =~= Seq::<Peer>::empty());
        assert(action_views(actions@) =~= Seq::<ActionView>::empty());
        while i < asked_about.len()
            invariant
                i <= asked_about@.len(),
                asked@.len() == asked_about@.len(),
                *self == *old(self),
                node == self@,
                lists == vec_lists(asked@),
                actions_wf(actions@),
                action_views(actions@) == ask_about_all(node, asked_about@.take(i as int), lists),
            decreases asked_about@.len() - i,
        {
            let peer = asked_about[i];
            let helpers = &asked[i];
            let ghost before = action_views(actions@);
            let mut j: usize = 0;
            assert(before + ask_about(node, peer, helpers@.take(0)) =~= before);
            while j < helpers.len()
                invariant
                    j <= helpers@.len(),
                    node == self@,
                    actions_wf(actions@),
                    action_views(actions@) == before + ask_about(node, peer, helpers@.take(j as int)),
                decreases helpers@.len() - j,
            {
                let request = self.send_msg(helpers[j], SwimMessage::PingRequest(peer));
                push_action(&mut actions, request);
                assert(action_views(actions@) =~= before + ask_about(
                    node,
                    peer,
                    helpers@.take(j + 1),
                ));
                j += 1;
            }
            assert(helpers@.take(j as int) =~= helpers@);
            assert(asked_about@.take(i + 1).drop_last() =~= asked_about@.take(i as int));
            i += 1;
        }
        assert(asked_about@.take(i as int) =~= asked_about@);

        let mut i: usize = 0;
        assert(asked_about@.take(0) =~= Seq::<Peer>::empty());
        while i < asked_about.len()
            invariant
                i <= asked_about@.len(),
                known_peers.wf(),
                state == PeerState::WaitingForIndirectPing(now),
                table(*known_peers) == set_states(t, asked_about@.take(i as int), state),
            decreases asked_about@.len() - i,
        {
            set_peer_state(known_peers, &asked_about[i], PeerState::WaitingForIndirectPing(now));
            assert(asked_about@.take(i + 1).drop_last() =~= asked_about@.take(i as int));
            i += 1;
        }
        assert(asked_about@.take(i as int) =~= asked_about@);

        let ghost t2 = table(*known_peers);
        let ghost asked_actions = action_views(actions@);
        let mut i: usize = 0;
        proof {
            assert(given_up@.take(0) =~= Seq::<Peer>::empty());
            assert(asked_actions + announce_failed(given_up@.take(0)) =~= asked_actions);
            assert(node.curious_peers.remove_keys(given_up@.take(0).to_set())
                =~= node.curious_peers);
        }
        while i < given_up.len()
            invariant
                i <= given_up@.len(),
                self.wf(),
                known_peers.wf(),
                self@ == (Node {
                    curious_peers: node.curious_peers.remove_keys(
                        given_up@.take(i as int).to_set(),
                    ),
                    ..node
                }),
                table(*known_peers) == forget_all(t2, given_up@.take(i as int)),
                actions_wf(actions@),
                action_views(actions@) == asked_actions + announce_failed(given_up@.take(i as int)),
            decreases given_up@.len() - i,
        {
            let peer = given_up[i];
            let ghost before = self@.curious_peers;
            forget_peer(known_peers, &peer);
            self.forget_curious_peers(&peer);
            push_action(&mut actions, Action::Broadcast(SwimBroadcast::Failed(peer)));
            proof {
                let prefix = given_up@.take(i as int);
                let longer = given_up@.take(i + 1);
                assert(longer.drop_last() =~= prefix);
                assert(longer =~= prefix.push(peer));
                assert(action_views(actions@) =~= asked_actions + announce_failed(longer));
                prefix.lemma_push_to_set_commute(peer);
                assert(before.remove(peer) =~= node.curious_peers.remove_keys(longer.to_set()));
            }
            i += 1;
        }
        assert(given_up@.take(i as int) =~= given_up@);
        actions
    }

    /// Looks after the peers that do not answer. About a peer that has not answered our ping in
    /// time, a few others are asked to ping it for us. On a peer that has not answered them, either,
    /// we give up: it is forgotten, and the mesh is told that it failed.
    pub fn handle_suspected_peers(&mut self, known_peers: &mut KnownPeers, now: Instant) -> (r: Vec<
        Action,
    >)
        requires
            old(self).wf(),
            old(known_peers).wf(),
        ensures
            final(self).wf(),
            final(known_peers).wf(),
            actions_wf(r@),
            exists|asked: Seq<Seq<Peer>>|
                {
                    &&& #[trigger] are_samples(
                        old(self)@,
                        table(*old(known_peers)),
                        now,
                        asked,
                    )
                    &&& (Step {
                        node: final(self)@,
                        table: table(*final(known_peers)),
                        actions: action_views(r@),
                    }) == on_suspicion(old(self)@, table(*old(known_peers)), now, asked)
                },
    {
        let judgement = self.judge_peers(known_peers, now);
        let mut asked: Vec<Vec<Peer>> = Vec::new();
        while asked.len() < judgement.asked_about.len()
            invariant
                asked@.len() <= judgement.asked_about@.len(),
                self.wf(),
                self@ == old(self)@,
                forall|i: int|
                    0 <= i < asked@.len() ==> sample_of(
                        judgement.helpers@,
                        (#[trigger] asked@[i])@,
                        NUM_INDIRECT_PING_PEERS as nat,
                    ),
            decreases judgement.asked_about@.len() - asked@.len(),
        {
            let sample = self.choose_peers(&judgement.helpers, NUM_INDIRECT_PING_PEERS);
            asked.push(sample);
        }
        assert(are_samples(self@, table(*known_peers), now, vec_lists(asked@)));
        self.act_on_judgement(known_peers, judgement, asked, now)
    }
}

/// The peers from which we have heard less recently than from `peer`, among those that we may ping.
pub open spec fn heard_before(node: Node, t: Table, peer: Peer) -> Set<Peer> {
    t.order.filter(is_responsive(node, t)).to_set().filter(
        |other: Peer| t.peers[other].state.time() < t.peers[peer].state.time(),
    )
}

/// The peers from which we have not heard more recently than from `peer`, among those that we may
/// ping; if it is one of them, it counts.
pub open spec fn heard_no_later(node: Node, t: Table, peer: Peer) -> Set<Peer> {
    t.order.filter(is_responsive(node, t)).to_set().filter(
        |other: Peer| t.peers[other].state.time() <= t.peers[peer].state.time(),
    )
}

/// `peer` is one of those from which we have not heard for longest, among those that we may ping.
pub open spec fn may_be_pinged(node: Node, t: Table, peer: Peer) -> bool {
    &&& helpers(node, t).contains(peer)
    &&& heard_before(node, t, peer).len() < NUM_CANDIDATE_TARGET_PEERS
}

/// The times at which we last heard from the listed peers do not go down.
pub open spec fn by_time(listed: Seq<(Peer, Instant)>) -> bool {
    forall|i: int, j: int|
        0 <= i <= j < listed.len() ==> (#[trigger] listed[i]).1 <= (#[trigger] listed[j]).1
}

/// The peers of the list.
pub open spec fn listed_peers(listed: Seq<(Peer, Instant)>) -> Seq<Peer> {
    listed.map_values(|entry: (Peer, Instant)| entry.0)
}

impl KaboodleInner {
    /// The peers of which one is to be pinged next: those from which we have not heard for longest.
    /// Where several were heard at the same time, it is open which of them come in.
    pub fn ping_candidates(&self, known_peers: &KnownPeers) -> (r: Vec<Peer>)
        requires
            known_peers.wf(),
        ensures
            r@.len() == if helpers(self@, table(*known_peers)).len() <= NUM_CANDIDATE_TARGET_PEERS {
                helpers(self@, table(*known_peers)).len()
            } else {
                NUM_CANDIDATE_TARGET_PEERS as nat
            },
            r@.no_duplicates(),
            forall|peer: Peer| #[trigger]
                r@.contains(peer) ==> may_be_pinged(self@, table(*known_peers), peer),
            forall|peer: Peer| #[trigger]
                helpers(self@, table(*known_peers)).contains(peer) && heard_no_later(
                    self@,
                    table(*known_peers),
                    peer,
                ).len() <= NUM_CANDIDATE_TARGET_PEERS ==> r@.contains(peer),
    {
        let ghost t = table(*known_peers);
        let ghost node = self@;
        let peers = self.responsive_peers(known_peers);
        let mut listed: Vec<(Peer, Instant)> = Vec::new();
        let mut i: usize = 0;
        proof {
            lemma_table(*known_peers);
            lemma_helpers(node, t);
            assert(listed_peers(listed@).to_set() =~= peers@.take(0).to_set());
        }
        while i < peers.len()
            invariant
                i <= peers@.len(),
                known_peers.wf(),
                t == table(*known_peers),
                peers@.no_duplicates(),
                forall|k: int| 0 <= k < peers@.len() ==> t.peers.contains_key(#[trigger] peers@[k]),
                by_time(listed@),
                listed@.len() == i,
                listed_peers(listed@).to_set() == peers@.take(i as int).to_set(),
                listed_peers(listed@).no_duplicates(),
                forall|k: int|
                    0 <= k < listed@.len() ==> (#[trigger] listed@[k]).1
                        == t.peers[listed@[k].0].state.time(),
            decreases peers@.len() - i,
        {
            let peer = peers[i];
            proof {
                lemma_table(*known_peers);
                assert(t.peers.contains_key(peers@[i as int]));
            }
            let time: u128 = match known_peers.get(&peer) {
                Some(info) => match info.state {
                    PeerState::Known(at) => at,
                    PeerState::WaitingForPing(at) => at,
                    PeerState::WaitingForIndirectPing(at) => at,
                },
                None => 0,
            };
            let mut at: usize = 0;
            while at < listed.len() && listed[at].1 <= time
                invariant
                    at <= listed@.len(),
                    forall|k: int| 0 <= k < at ==> (#[trigger] listed@[k]).1 <= time,
                ensures
                    at <= listed@.len(),
                    forall|k: int| 0 <= k < at ==> (#[trigger] listed@[k]).1 <= time,
                    at < listed@.len() ==> listed@[at as int].1 > time,
                decreases listed@.len() - at,
            {
                at += 1;
            }
            let ghost before = listed@;
            listed.insert(at, (peer, time));
            proof {
                let prefix = peers@.take(i as int);
                assert(peers@.take(i + 1) =~= prefix.push(peer));
                assert(!prefix.contains(peer));
                assert(listed_peers(listed@) =~= listed_peers(before).insert(at as int, peer));
                lemma_insert_new(listed_peers(before), at as int, peer, prefix);
            }
            i += 1;
        }
        let mut r: Vec<Peer> = Vec::new();
        let mut i: usize = 0;
        while i < listed.len() && i < NUM_CANDIDATE_TARGET_PEERS
            invariant
                i <= listed@.len(),
                i <= NUM_CANDIDATE_TARGET_PEERS,
                r@ == listed_peers(listed@).take(i as int),
            decreases listed@.len() - i,
        {
            assert(listed_peers(listed@).take(i + 1) =~= listed_peers(listed@).take(i as int).push(
                listed@[i as int].0,
            ));
            r.push(listed[i].0);
            i += 1;
        }
        proof {
            assert(peers@.take(peers@.len() as int) =~= peers@);
            let all = listed_peers(listed@);
            assert forall|peer: Peer| #[trigger] r@.contains(peer) implies may_be_pinged(
                node,
                t,
                peer,
            ) by {
                let k = r@.index_of(peer);
                assert(all[k] == peer);
                assert(all.to_set().contains(peer));
                let older = heard_before(node, t, peer);
                assert(older.subset_of(all.take(k).to_set())) by {
                    assert forall|other: Peer| #[trigger] older.contains(other) implies all.take(
                        k,
                    ).to_set().contains(other) by {
                        assert(peers@.to_set().contains(other));
                        assert(all.to_set().contains(other));
                        let m = all.index_of(other);
                        assert(listed@[m].0 == other && listed@[k].0 == peer);
                        assert(listed@[m].1 < listed@[k].1);
                        assert(all.take(k)[m] == other);
                    }
                }
                vstd::seq_lib::seq_to_set_is_finite(all.take(k));
                all.take(k).lemma_cardinality_of_set();
                vstd::set_lib::lemma_len_subset(older, all.take(k).to_set());
            }
            assert forall|peer: Peer| #[trigger] helpers(node, t).contains(peer) && heard_no_later(
                node,
                t,
                peer,
            ).len() <= NUM_CANDIDATE_TARGET_PEERS implies r@.contains(peer) by {
                assert(peers@.to_set().contains(peer));
                assert(all.to_set().contains(peer));
                let k = all.index_of(peer);
                if k < i {
                    assert(r@[k] == peer);
                } else {
                    // All that come in were heard no later, and so was the peer itself.
                    let first = all.take(k + 1);
                    let no_later = heard_no_later(node, t, peer);
                    assert(first.to_set().subset_of(no_later)) by {
                        assert forall|other: Peer| #[trigger] first.to_set().contains(
                            other,
                        ) implies no_later.contains(other) by {
                            let m = first.index_of(other);
                            assert(all[m] == other);
                            assert(all.to_set().contains(other));
                            assert(peers@.to_set().contains(other));
                            assert(listed@[m].0 == other && listed@[k].0 == peer);
                            assert(listed@[m].1 <= listed@[k].1);
                        }
                    }
                    vstd::seq_lib::seq_to_set_is_finite(peers@);
                    first.unique_seq_to_set();
                    vstd::set_lib::lemma_len_subset(first.to_set(), no_later);
                }
            }
        }
        r
    }

    /// Pings the given peer, and waits for its answer from now on.
    pub fn ping_peer(&mut self, known_peers: &mut KnownPeers, target_peer: Peer, now: Instant) -> (r:
        Option<Action>)
        requires
            old(self).wf(),
            old(known_peers).wf(),
        ensures
            final(self).wf(),
            final(self)@ == old(self)@,
            final(known_peers).wf(),
            table(*final(known_peers)) == table(*old(known_peers)).set_state(
                target_peer,
                PeerState::WaitingForPing(now),
            ),
            r is Some == (table(*old(known_peers)).peers.contains_key(target_peer) && table(
                *old(known_peers),
            ).peers[target_peer].state != PeerState::WaitingForPing(now)),
            r matches Some(action) ==> action.wf() && action@ == old(self)@.send(
                target_peer,
                SwimMessageView::Ping,
            ),
    {
        let did_update = set_peer_state(known_peers, &target_peer, PeerState::WaitingForPing(now));
        if !did_update {
            return None;
        }
        Some(self.send_msg(target_peer, SwimMessage::Ping))
    }

    /// Pings one of the peers from which we have not heard for longest; which one is a matter of
    /// chance. There is no one to ping only if we know of no responsive peer.
    pub fn ping_random_peer(&mut self, known_peers: &mut KnownPeers, now: Instant) -> (r: Option<(
        Peer,
        Action,
    )>)
        requires
            old(self).wf(),
            old(known_peers).wf(),
        ensures
            final(self).wf(),
            final(self)@ == old(self)@,
            final(known_peers).wf(),
            match r {
                Some((target_peer, action)) => {
                    &&& may_be_pinged(old(self)@, table(*old(known_peers)), target_peer)
                    &&& table(*final(known_peers)) == table(*old(known_peers)).set_state(
                        target_peer,
                        PeerState::WaitingForPing(now),
                    )
                    &&& action.wf()
                    &&& action@ == old(self)@.send(target_peer, SwimMessageView::Ping)
                },
                None => {
                    &&& helpers(old(self)@, table(*old(known_peers))).len() == 0
                    &&& *final(known_peers) == *old(known_peers)
                },
            },
    {
        let candidates = self.ping_candidates(known_peers);
        match self.choose_peer(&candidates) {
            None => None,
            Some(target_peer) => {
                proof {
                    lemma_table(*known_peers);
                    lemma_helpers(self@, table(*known_peers));
                }
                match self.ping_peer(known_peers, target_peer, now) {
                    Some(action) => Some((target_peer, action)),
                    None => None,
                }
            },
        }
    }

    /// Gives up at once on a peer to which a ping could not even be sent.
    pub fn ping_failed(&mut self, known_peers: &mut KnownPeers, target_peer: &Peer)
        requires
            old(self).wf(),
            old(known_peers).wf(),
        ensures
            *final(self) == *old(self),
            final(known_peers).wf(),
            table(*final(known_peers)) == table(*old(known_peers)).forget(*target_peer),
    {
        forget_peer(known_peers, target_peer);
    }
}

/// The peers whom we can ask for help are known, and believed to be up.
pub proof fn lemma_helpers(node: Node, t: Table)
    requires
        t.wf(),
    ensures
        helpers(node, t).no_duplicates(),
        forall|peer: Peer| #[trigger]
            helpers(node, t).contains(peer) <==> t.peers.contains_key(peer) && peer
                != node.self_addr && t.peers[peer].state is Known,
        forall|i: int|
            0 <= i < helpers(node, t).len() ==> t.peers.contains_key(#[trigger] helpers(node, t)[i]),
{
    lemma_filter(t.order, is_responsive(node, t));
    assert forall|peer: Peer| #[trigger] helpers(node, t).contains(peer) <==> t.peers.contains_key(
        peer,
    ) && peer != node.self_addr && t.peers[peer].state is Known by {
        assert(t.order.contains(peer) <==> t.order.to_set().contains(peer));
    }
    assert forall|i: int| 0 <= i < helpers(node, t).len() implies t.peers.contains_key(
        #[trigger] helpers(node, t)[i],
    ) by {
        assert(helpers(node, t).contains(helpers(node, t)[i]));
    }
}

/// Inserting what is new keeps a list free of repetition.
proof fn lemma_insert_new(listed: Seq<Peer>, at: int, peer: Peer, prefix: Seq<Peer>)
    requires
        0 <= at <= listed.len(),
        listed.no_duplicates(),
        listed.to_set() == prefix.to_set(),
        !prefix.contains(peer),
    ensures
        listed.insert(at, peer).no_duplicates(),
        listed.insert(at, peer).to_set() == prefix.push(peer).to_set(),
{
    let longer = listed.insert(at, peer);
    assert(!listed.contains(peer)) by {
        if listed.contains(peer) {
            assert(listed.to_set().contains(peer));
        }
    }
    listed.insert_ensures(at, peer);
    assert forall|i: int, j: int| 0 <= i < longer.len() && 0 <= j < longer.len() && i
        != j implies longer[i] != longer[j] by {
        let i2 = if i < at { i } else { i - 1 };
        let j2 = if j < at { j } else { j - 1 };
        if i == at {
            assert(longer[j] == listed[j2]);
        } else if j == at {
            assert(longer[i] == listed[i2]);
        } else {
            assert(longer[i] == listed[i2] && longer[j] == listed[j2]);
        }
    }
    assert forall|x: Peer| #[trigger] longer.to_set().contains(x) <==> prefix.push(
        peer,
    ).to_set().contains(x) by {
        if longer.contains(x) {
            let k = longer.index_of(x);
            if k == at {
                assert(prefix.push(peer)[prefix.len() as int] == x);
            } else {
                let k2 = if k < at { k } else { k - 1 };
                assert(listed[k2] == x);
                assert(listed.to_set().contains(x));
                assert(prefix.push(peer)[prefix.index_of(x)] == x);
            }
        }
        if prefix.push(peer).contains(x) {
            let k = prefix.push(peer).index_of(x);
            if k == prefix.len() {
                assert(longer[at] == x);
            } else {
                assert(prefix[k] == x);
                assert(prefix.to_set().contains(x));
                assert(listed.contains(x));
                let m = listed.index_of(x);
                let m2 = if m < at { m } else { m + 1 };
                assert(longer[m2] == x);
            }
        }
    }
    assert(longer.to_set() =~= prefix.push(peer).to_set());
}

} // verus!
