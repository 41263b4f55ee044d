//! What tables and lists hold, and how each change of a table shows.
use crate::action::{action_views, Action};
use crate::addr::Peer;
use crate::client::{fresh_node, own_entry, Client};
use crate::events::{event_views, notification_views, Notification};
use crate::fingerprint::membership;
use crate::identity::bytes_of;
use crate::kaboodle::{
    lists, read_time, INCOMING_BUFFER_SIZE, MAX_PEER_SHARE_AGE, MIN_READ_TIME,
    NUM_CANDIDATE_TARGET_PEERS, NUM_INDIRECT_PING_PEERS, PING_TIMEOUT, PROTOCOL_PERIOD,
    REBROADCAST_INTERVAL,
};
use crate::laws::{lemma_forget, lemma_put, lemma_set_state};
use crate::map::{lemma_without_absent, lemma_without_present, with, without};
use crate::observable_hashmap::{tells_of_update, Event, ObservableHashMap};
use crate::structs::{identities, KnownPeers, PeerInfo, PeerInfoView, PeerState};
use crate::table::{lemma_table, peer_views, table, Table};
use crate::time::{elapsed, Duration, Instant, MILLISECOND};
use bytes::Bytes;
use vstd::prelude::*;

verus! {

// Lists and maps.

/// A key that is added comes last, unless it is there already; one that is taken out leaves the
/// others in their places.
pub proof fn law_order_of_keys<K>(keys: Seq<K>, key: K)
    requires
        keys.no_duplicates(),
    ensures
        keys.contains(key) ==> with(keys, key) == keys,
        !keys.contains(key) ==> with(keys, key) == keys.push(key),
        !keys.contains(key) ==> without(keys, key) == keys,
        forall|i: int|
            0 <= i < keys.len() && #[trigger] keys[i] == key ==> without(keys, key) == keys.take(i)
                + keys.skip(i + 1),
{
    if !keys.contains(key) {
        lemma_without_absent(keys, key);
    }
    assert forall|i: int| 0 <= i < keys.len() && #[trigger] keys[i] == key implies without(keys, key)
        == keys.take(i) + keys.skip(i + 1) by {
        lemma_without_present(keys, i);
        assert(keys.remove(i) =~= keys.take(i) + keys.skip(i + 1));
    }
}

/// The membership of a mesh is everyone who is known, in whatever state and under whatever identity.
pub proof fn law_membership_is_everyone(peers: Map<Peer, PeerInfoView>, peer: Peer)
    ensures
        membership(peers).dom() == peers.dom(),
        membership(peers).contains_key(peer) <==> peers.contains_key(peer),
        peers.contains_key(peer) ==> membership(peers)[peer] == peers[peer].identity,
{
    assert(membership(peers).dom() =~= peers.dom());
}

/// What is stated of maps and lists is stated of all that they hold.
pub proof fn law_nothing_is_left_out(
    named: Map<Peer, Bytes>,
    infos: Map<Peer, PeerInfo>,
    curious: Map<Peer, Vec<Peer>>,
    actions: Seq<Action>,
    events: Seq<Event<Peer, PeerInfo>>,
    notifications: Seq<Notification>,
    peer: Peer,
    i: int,
)
    ensures
        identities(named).dom() == named.dom(),
        named.contains_key(peer) ==> identities(named)[peer] == bytes_of(named[peer]),
        peer_views(infos).dom() == infos.dom(),
        infos.contains_key(peer) ==> {
            &&& peer_views(infos)[peer].identity == bytes_of(infos[peer].identity)
            &&& peer_views(infos)[peer].state == infos[peer].state
            &&& peer_views(infos)[peer].latency == infos[peer].latency
        },
        lists(curious).dom() == curious.dom(),
        curious.contains_key(peer) ==> lists(curious)[peer] == curious[peer]@,
        action_views(actions).len() == actions.len(),
        0 <= i < actions.len() ==> action_views(actions)[i] == actions[i]@,
        event_views(events).len() == events.len(),
        0 <= i < events.len() ==> match events[i] {
            Event::Added(p) => event_views(events)[i] == Event::<Peer, PeerInfoView>::Added(p),
            Event::Updated(p, prev, new) => event_views(events)[i] == Event::Updated(p, prev@, new@),
            Event::Removed(p) => event_views(events)[i] == Event::<Peer, PeerInfoView>::Removed(p),
        },
        notification_views(notifications).len() == notifications.len(),
        0 <= i < notifications.len() ==> notification_views(notifications)[i]
            == notifications[i]@,
{
    assert(identities(named).dom() =~= named.dom());
    assert(peer_views(infos).dom() =~= infos.dom());
    assert(lists(curious).dom() =~= curious.dom());
}

// The table of known peers.

/// What becomes known of a peer, and how that shows.
///
/// The peer is known as stated, and of no one else anything changes. A peer that was not known comes
/// last. If there are observers, one notice is queued behind the others, for all of them: that the
/// peer was added, or what was known of it before and is known now.
pub proof fn law_entries_show(t: Table, peer: Peer, info: PeerInfoView, other: Peer)
    requires
        t.wf(),
    ensures
        ({
            let after = t.put(peer, info);
            &&& after.wf()
            &&& after.peers.contains_key(other) <==> t.peers.contains_key(other) || other == peer
            &&& after.peers.contains_key(peer) && after.peers[peer] == info
            &&& t.peers.contains_key(other) && other != peer ==> after.peers[other]
                == t.peers[other]
            &&& after.order == if t.peers.contains_key(peer) {
                t.order
            } else {
                t.order.push(peer)
            }
            &&& after.observers == t.observers
            &&& after.observers_made == t.observers_made
            &&& t.observers.len() == 0 ==> after.notices == t.notices
            &&& t.observers.len() > 0 ==> {
                &&& after.notices.len() == t.notices.len() + 1
                &&& after.notices.drop_last() == t.notices
                &&& after.notices.last().observers == t.observers
                &&& !t.peers.contains_key(peer) ==> after.notices.last().event
                    == Event::<Peer, PeerInfoView>::Added(peer)
                &&& t.peers.contains_key(peer) ==> after.notices.last().event == Event::Updated(
                    peer,
                    t.peers[peer],
                    info,
                )
            }
        }),
{
    lemma_put(t, peer, info);
    let after = t.put(peer, info);
    assert(t.order.contains(peer) <==> t.order.to_set().contains(peer));
    assert(t.peers.dom().contains(peer) <==> t.order.to_set().contains(peer));
    if t.observers.len() > 0 {
        assert(after.notices.drop_last() =~= t.notices);
    }
}

/// How it shows that a peer is forgotten: it is not known, and of no one else anything changes. If it
/// was known, and there are observers, one notice is queued behind the others, for all of them.
pub proof fn law_removals_show(t: Table, peer: Peer, other: Peer)
    requires
        t.wf(),
    ensures
        ({
            let after = t.forget(peer);
            &&& after.wf()
            &&& after.peers.contains_key(other) <==> t.peers.contains_key(other) && other != peer
            &&& t.peers.contains_key(other) && other != peer ==> after.peers[other]
                == t.peers[other]
            &&& !t.peers.contains_key(peer) ==> after == t
            &&& forall|i: int|
                0 <= i < t.order.len() && #[trigger] t.order[i] == peer ==> after.order
                    == t.order.take(i) + t.order.skip(i + 1)
            &&& after.observers == t.observers
            &&& after.observers_made == t.observers_made
            &&& t.observers.len() == 0 ==> after.notices == t.notices
            &&& t.peers.contains_key(peer) && t.observers.len() > 0 ==> {
                &&& after.notices.len() == t.notices.len() + 1
                &&& after.notices.drop_last() == t.notices
                &&& after.notices.last().observers == t.observers
                &&& after.notices.last().event == Event::<Peer, PeerInfoView>::Removed(peer)
            }
        }),
{
    lemma_forget(t, peer);
    law_order_of_keys(t.order, peer);
    let after = t.forget(peer);
    assert(t.order.contains(peer) <==> t.order.to_set().contains(peer));
    assert(t.peers.dom().contains(peer) <==> t.order.to_set().contains(peer));
    assert forall|i: int| 0 <= i < t.order.len() && #[trigger] t.order[i] == peer implies after.order
        == t.order.take(i) + t.order.skip(i + 1) by {
        assert(t.order.contains(peer));
    }
    if t.peers.contains_key(peer) && t.observers.len() > 0 {
        assert(after.notices.drop_last() =~= t.notices);
    }
}

/// How it shows that a peer gets into a state: everything else that is known of it stays, and so does
/// everyone else. A peer that is not known does not become known, and if the peer was in that state
/// already, no one is told.
pub proof fn law_states_show(t: Table, peer: Peer, state: PeerState, other: Peer)
    requires
        t.wf(),
    ensures
        ({
            let after = t.set_state(peer, state);
            &&& after.wf()
            &&& after.peers.contains_key(other) <==> t.peers.contains_key(other)
            &&& t.peers.contains_key(other) && other != peer ==> after.peers[other]
                == t.peers[other]
            &&& t.peers.contains_key(peer) ==> {
                &&& after.peers[peer].state == state
                &&& after.peers[peer].identity == t.peers[peer].identity
                &&& after.peers[peer].latency == t.peers[peer].latency
            }
            &&& after.order == t.order
            &&& !t.peers.contains_key(peer) || t.peers[peer].state == state ==> after == t
            &&& t.peers.contains_key(peer) && t.peers[peer].state != state && t.observers.len() > 0
                ==> {
                &&& after.notices.len() == t.notices.len() + 1
                &&& after.notices.last().event == Event::Updated(
                    peer,
                    t.peers[peer],
                    after.peers[peer],
                )
            }
        }),
{
    lemma_set_state(t, peer, state);
    if t.peers.contains_key(peer) {
        law_entries_show(t, peer, PeerInfoView { state, ..t.peers[peer] }, other);
        assert(t.peers.dom().contains(peer));
    }
}

/// A table of known peers holds what the map behind it holds, in the same order.
pub proof fn law_tables_are_complete(known: KnownPeers, peer: Peer, i: int)
    requires
        known.wf(),
    ensures
        table(known).peers.contains_key(peer) <==> known@.contains_key(peer),
        known@.contains_key(peer) ==> {
            &&& table(known).peers[peer].identity == bytes_of(known@[peer].identity)
            &&& table(known).peers[peer].state == known@[peer].state
            &&& table(known).peers[peer].latency == known@[peer].latency
        },
        table(known).order == known.order(),
        table(known).observers == known.observers(),
        table(known).notices.len() == known.notices().len(),
        0 <= i < known.notices().len() ==> {
            &&& table(known).notices[i].observers == known.notices()[i].observers@
            &&& match known.notices()[i].event {
                Event::Added(p) => table(known).notices[i].event == Event::<
                    Peer,
                    PeerInfoView,
                >::Added(p),
                Event::Updated(p, prev, new) => table(known).notices[i].event == Event::Updated(
                    p,
                    prev@,
                    new@,
                ),
                Event::Removed(p) => table(known).notices[i].event == Event::<
                    Peer,
                    PeerInfoView,
                >::Removed(p),
            }
        },
{
    lemma_table(known);
}

/// A change is queued once, behind what is queued already, and for all who observe; nothing is queued
/// if no one does.
pub proof fn law_changes_are_queued<K, V: Clone>(
    before: ObservableHashMap<K, V>,
    after: ObservableHashMap<K, V>,
    event: Event<K, V>,
    key: K,
    prev: V,
    new: V,
)
    requires
        after.notified(before, event),
    ensures
        after.observers() == before.observers(),
        after.observers_made() == before.observers_made(),
        before.observers().len() == 0 ==> after.notices() == before.notices(),
        before.observers().len() > 0 ==> {
            &&& after.notices().len() == before.notices().len() + 1
            &&& forall|i: int|
                0 <= i < before.notices().len() ==> #[trigger] after.notices()[i]
                    == before.notices()[i]
            &&& after.notices().last().event == event
            &&& after.notices().last().observers@ == before.observers()
        },
        tells_of_update(event, key, prev, new) ==> (event matches Event::Updated(k, p, n) && k
            == key && cloned(prev, p) && cloned(new, n)),
{
    if before.observers().len() > 0 {
        assert forall|i: int| 0 <= i < before.notices().len() implies #[trigger] after.notices()[i]
            == before.notices()[i] by {
            assert(after.notices().drop_last()[i] == before.notices()[i]);
        }
    }
}

// Clients and time.

/// A client that comes up knows itself as one that is up, under its identity; the instance is at the
/// given address, has not announced itself, and has heard of no one who is curious.
pub proof fn law_fresh_instances(client: Client, self_addr: Peer, now: Instant)
    ensures
        own_entry(client, now).identity == client.identity,
        own_entry(client, now).state == PeerState::Known(now),
        own_entry(client, now).latency is None,
        fresh_node(client, self_addr).self_addr == self_addr,
        fresh_node(client, self_addr).identity == client.identity,
        fresh_node(client, self_addr).curious_peers == Map::<Peer, Seq<Peer>>::empty(),
        fresh_node(client, self_addr).last_broadcast_time is None,
        fresh_node(client, self_addr).draws.len() == 0,
{
}

/// A round reads incoming messages until a second is over, but for no less than ten milliseconds.
pub proof fn law_rounds_fill_their_period(time_since_tick_start: Duration)
    ensures
        time_since_tick_start <= 990 * MILLISECOND ==> time_since_tick_start + read_time(
            time_since_tick_start,
        ) == 1000 * MILLISECOND,
        time_since_tick_start > 990 * MILLISECOND ==> read_time(time_since_tick_start) == 10
            * MILLISECOND,
{
}

/// The time that has passed leads from one point to the other, if they lie in that order.
pub proof fn law_time_passes(now: Instant, earlier: Instant)
    ensures
        earlier <= now ==> earlier + elapsed(now, earlier) == now,
        earlier > now ==> elapsed(now, earlier) == 0,
{
}

/// The measures of the protocol: a round takes a second; an answer is waited for during two rounds;
/// what was heard within ten rounds is passed on, and after as many a lone instance announces itself
/// again. Three are asked for help, and one of the five heard from least recently is pinged.
pub proof fn law_measures()
    ensures
        PROTOCOL_PERIOD == 1000 * MILLISECOND,
        PING_TIMEOUT == 2 * PROTOCOL_PERIOD,
        MAX_PEER_SHARE_AGE == 10 * PROTOCOL_PERIOD,
        REBROADCAST_INTERVAL == MAX_PEER_SHARE_AGE,
        MIN_READ_TIME == 10 * MILLISECOND,
        MILLISECOND == 1_000_000,
        INCOMING_BUFFER_SIZE == 10 * 1024,
        NUM_INDIRECT_PING_PEERS == 3,
        NUM_CANDIDATE_TARGET_PEERS == 5,
{
}

} // verus!
