//! News of the mesh for those who listen: arrivals, departures and changes of the fingerprint.
use crate::addr::Peer;
use crate::fingerprint::generate_fingerprint;
use crate::identity::bytes_of;
use crate::kaboodle::fingerprint;
use crate::observable_hashmap::Event;
use crate::structs::{event_view, EventView, Fingerprint, KnownPeers, PeerInfo};
use crate::table::{lemma_table, table, Table};
use bytes::Bytes;
use vstd::prelude::*;

verus! {

/// Something that those who listen are told.
#[derive(Debug)]
pub enum Notification {
    /// A peer has joined the mesh.
    Discovered(Peer, Bytes),
    /// A peer has left the mesh.
    Departed(Peer),
    /// The fingerprint of the mesh has changed.
    FingerprintChanged(Fingerprint),
}

/// The mathematical content of a [`Notification`].
pub ghost enum NotificationView {
    Discovered(Peer, Seq<u8>),
    Departed(Peer),
    FingerprintChanged(Fingerprint),
}

impl View for Notification {
    type V = NotificationView;

    open spec fn view(&self) -> NotificationView {
        match *self {
            Notification::Discovered(peer, identity) => NotificationView::Discovered(
                peer,
                bytes_of(identity),
            ),
            Notification::Departed(peer) => NotificationView::Departed(peer),
            Notification::FingerprintChanged(fingerprint) => NotificationView::FingerprintChanged(
                fingerprint,
            ),
        }
    }
}

/// What there is to tell about a change, when the table by now is `t`: an arrival, unless the peer
/// has left again, or a departure, unless it is back.
pub open spec fn news_of(t: Table, event: EventView) -> Option<NotificationView> {
    match event {
        Event::Added(peer) => if t.peers.contains_key(peer) {
            Some(NotificationView::Discovered(peer, t.peers[peer].identity))
        } else {
            None
        },
        Event::Updated(_, _, _) => None,
        Event::Removed(peer) => if t.peers.contains_key(peer) {
            None
        } else {
            Some(NotificationView::Departed(peer))
        },
    }
}

/// What there is to tell about the changes, in their order.
pub open spec fn news_of_all(t: Table, events: Seq<EventView>) -> Seq<NotificationView>
    decreases events.len(),
{
    if events.len() == 0 {
        Seq::empty()
    } else {
        match news_of(t, events.last()) {
            Some(news) => news_of_all(t, events.drop_last()).push(news),
            None => news_of_all(t, events.drop_last()),
        }
    }
}

/// The fingerprint is told if anyone listens, if it is not the one that was told last, and if there
/// is a mesh at all: an empty table is that of a client that was stopped.
pub open spec fn is_new_fingerprint(t: Table, prev_fingerprint: Fingerprint, listeners: bool) -> bool {
    listeners && t.order.len() > 0 && fingerprint(t) != prev_fingerprint
}

/// What there is to tell after some changes.
pub open spec fn news(
    t: Table,
    events: Seq<EventView>,
    prev_fingerprint: Fingerprint,
    listeners: bool,
) -> Seq<NotificationView> {
    if is_new_fingerprint(t, prev_fingerprint, listeners) {
        news_of_all(t, events).push(NotificationView::FingerprintChanged(fingerprint(t)))
    } else {
        news_of_all(t, events)
    }
}

/// The content of the events.
pub open spec fn event_views(events: Seq<Event<Peer, PeerInfo>>) -> Seq<EventView> {
    events.map_values(|event: Event<Peer, PeerInfo>| event_view(event))
}

/// The content of the notifications.
pub open spec fn notification_views(notifications: Seq<Notification>) -> Seq<NotificationView> {
    notifications.map_values(|notification: Notification| notification@)
}

/// What there is to tell about a change.
pub fn notification_of(known_peers: &KnownPeers, event: &Event<Peer, PeerInfo>) -> (r: Option<
    Notification,
>)
    requires
        known_peers.wf(),
    ensures
        match r {
            Some(notification) => news_of(table(*known_peers), event_view(*event)) == Some(
                notification@,
            ),
            None => news_of(table(*known_peers), event_view(*event)) is None,
        },
{
    proof {
        lemma_table(*known_peers);
    }
    match event {
        Event::Added(addr) => match known_peers.get(addr) {
            Some(info) => Some(Notification::Discovered(*addr, info.identity.clone())),
            None => None,
        },
        Event::Updated(_, _, _) => None,
        Event::Removed(addr) => {
            if known_peers.contains_key(addr) {
                // They got added back right away, apparently.
                None
            } else {
                Some(Notification::Departed(*addr))
            }
        },
    }
}

/// Turns changes of the table into news. The fingerprint is told once, however many changes there
/// are; `prev_fingerprint` is the one that was told last, and `listeners` says whether anyone wants
/// to hear of it.
pub fn handle_known_peers_events(
    known_peers: &KnownPeers,
    events: &Vec<Event<Peer, PeerInfo>>,
    prev_fingerprint: &mut Fingerprint,
    listeners: bool,
) -> (r: Vec<Notification>)
    requires
        known_peers.wf(),
    ensures
        notification_views(r@) == news(
            table(*known_peers),
            event_views(events@),
            *old(prev_fingerprint),
            listeners,
        ),
        *final(prev_fingerprint) == if is_new_fingerprint(
            table(*known_peers),
            *old(prev_fingerprint),
            listeners,
        ) {
            fingerprint(table(*known_peers))
        } else {
            *old(prev_fingerprint)
        },
{
    let ghost t = table(*known_peers);
    let mut r: Vec<Notification> = Vec::new();
    let mut i: usize = 0;
    assert(event_views(events@).take(0) =~= Seq::<EventView>::empty());
    assert(notification_views(r@) =~= Seq::<NotificationView>::empty());
    while i < events.len()
        invariant
            i <= events@.len(),
            known_peers.wf(),
            t == table(*known_peers),
            notification_views(r@) == news_of_all(t, event_views(events@).take(i as int)),
        decreases events@.len() - i,
    {
        proof {
            let views = event_views(events@);
            assert(views.take(i + 1).drop_last() =~= views.take(i as int));
            assert(views.take(i + 1).last() == event_view(events@[i as int]));
        }
        let ghost before = r@;
        if let Some(notification) = notification_of(known_peers, &events[i]) {
            r.push(notification);
            assert(notification_views(r@) =~= notification_views(before).push(notification@));
        }
        i += 1;
    }
    assert(event_views(events@).take(i as int) =~= event_views(events@));
    if !listeners || known_peers.is_empty() {
        return r;
    }
    let fingerprint = generate_fingerprint(known_peers);
    if fingerprint != *prev_fingerprint {
        *prev_fingerprint = fingerprint;
        let ghost before = r@;
        r.push(Notification::FingerprintChanged(fingerprint));
        assert(notification_views(r@) =~= notification_views(before).push(
            NotificationView::FingerprintChanged(fingerprint),
        ));
    }
    r
}

/// The channels to which something could be sent.
pub open spec fn kept<C>(channels: Seq<C>, sent: Seq<bool>) -> Seq<C>
    decreases channels.len(),
{
    if channels.len() == 0 {
        Seq::empty()
    } else if sent[channels.len() - 1] {
        kept(channels.drop_last(), sent).push(channels.last())
    } else {
        kept(channels.drop_last(), sent)
    }
}

/// `sent` says to which of the channels `payload` could be sent.
pub open spec fn are_sent<T: Clone, C, F: Fn(&C, T) -> bool>(
    send: F,
    payload: T,
    channels: Seq<C>,
    sent: Seq<bool>,
) -> bool {
    &&& sent.len() == channels.len()
    &&& forall|i: int|
        0 <= i < channels.len() ==> is_sent(send, payload, #[trigger] channels[i], sent[i])
}

/// `sent` says whether a copy of `payload` could be sent to the channel.
pub open spec fn is_sent<T: Clone, C, F: Fn(&C, T) -> bool>(
    send: F,
    payload: T,
    channel: C,
    sent: bool,
) -> bool {
    exists|copy: T| #[trigger] call_ensures(send, (&channel, copy), sent) && cloned(payload, copy)
}

/// Sends `payload` to all of the channels, and drops those that are closed; all others stay.
pub fn broadcast_to_channels<T: Clone, C, F: Fn(&C, T) -> bool>(
    payload: &T,
    channels: &mut Vec<C>,
    send: &F,
)
    requires
        forall|channel: C, copy: T| #[trigger] call_requires(*send, (&channel, copy)),
    ensures
        exists|sent: Seq<bool>| #[trigger]
            are_sent(*send, *payload, old(channels)@, sent) && final(channels)@ == kept(
                old(channels)@,
                sent,
            ),
{
    let mut sent: Vec<bool> = Vec::new();
    let mut i: usize = 0;
    while i < channels.len()
        invariant
            i <= channels@.len(),
            *channels == *old(channels),
            sent@.len() == i,
            forall|channel: C, copy: T| #[trigger] call_requires(*send, (&channel, copy)),
            forall|j: int|
                0 <= j < i ==> is_sent(*send, *payload, #[trigger] channels@[j], sent@[j]),
        decreases channels@.len() - i,
    {
        let copy = payload.clone();
        let ghost given = copy;
        let ok = send(&channels[i], copy);
        assert(call_ensures(*send, (&channels@[i as int], given), ok));
        assert(is_sent(*send, *payload, channels@[i as int], ok));
        sent.push(ok);
        i += 1;
    }
    assert(are_sent(*send, *payload, channels@, sent@));
    keep_open(channels, &sent);
}

/// Drops the channels to which nothing could be sent; all others stay, in their order.
pub fn keep_open<C>(channels: &mut Vec<C>, sent: &Vec<bool>)
    requires
        sent@.len() == old(channels)@.len(),
    ensures
        final(channels)@ == kept(old(channels)@, sent@),
{
    // From the back, so that the places of those that are still to be looked at do not change.
    let ghost all = channels@;
    let mut i: usize = channels.len();
    proof {
        assert(kept(all.skip(i as int), sent@.skip(i as int)) =~= Seq::<C>::empty());
        assert(all.take(i as int) =~= all);
    }
    while i > 0
        invariant
            i <= all.len(),
            sent@.len() == all.len(),
            channels@ == all.take(i as int) + kept(all.skip(i as int), sent@.skip(i as int)),
        decreases i,
    {
        let ghost tail = kept(all.skip(i as int), sent@.skip(i as int));
        i -= 1;
        if !sent[i] {
            channels.remove(i);
        }
        proof {
            lemma_kept_first(all.skip(i as int), sent@.skip(i as int));
            assert(all.skip(i as int).skip(1) =~= all.skip(i + 1));
            assert(sent@.skip(i as int).skip(1) =~= sent@.skip(i + 1));
            if sent@[i as int] {
                assert(channels@ =~= all.take(i as int) + (seq![all[i as int]] + tail));
            } else {
                assert(channels@ =~= all.take(i as int) + tail);
            }
        }
    }
    proof {
        assert(all.skip(0) =~= all);
        assert(sent@.skip(0) =~= sent@);
        assert(channels@ =~= kept(all, sent@));
    }
}

/// The first channel is kept if something could be sent to it, and the others are looked at by
/// themselves.
proof fn lemma_kept_first<C>(channels: Seq<C>, sent: Seq<bool>)
    requires
        channels.len() > 0,
        sent.len() == channels.len(),
    ensures
        kept(channels, sent) == if sent[0] {
            seq![channels[0]] + kept(channels.skip(1), sent.skip(1))
        } else {
            kept(channels.skip(1), sent.skip(1))
        },
    decreases channels.len(),
{
    let rest = channels.drop_last();
    lemma_kept_prefix(rest, sent, sent.drop_last());
    if channels.len() == 1 {
        assert(rest =~= Seq::<C>::empty());
        assert(channels.skip(1) =~= Seq::<C>::empty());
        assert(kept(channels, sent) =~= if sent[0] {
            seq![channels[0]] + kept(channels.skip(1), sent.skip(1))
        } else {
            kept(channels.skip(1), sent.skip(1))
        });
    } else {
        lemma_kept_first(rest, sent.drop_last());
        let tail = channels.skip(1);
        assert(tail.drop_last() =~= rest.skip(1));
        lemma_kept_prefix(tail.drop_last(), sent.skip(1), sent.drop_last().skip(1));
        assert(tail.last() == channels.last());
        assert(kept(channels, sent) =~= if sent[0] {
            seq![channels[0]] + kept(tail, sent.skip(1))
        } else {
            kept(tail, sent.skip(1))
        });
    }
}

/// Which channels are kept does not depend on what is said of channels that are not there.
proof fn lemma_kept_prefix<C>(channels: Seq<C>, a: Seq<bool>, b: Seq<bool>)
    requires
        forall|i: int| 0 <= i < channels.len() ==> #[trigger] a[i] == b[i],
    ensures
        kept(channels, a) == kept(channels, b),
    decreases channels.len(),
{
    if channels.len() > 0 {
        lemma_kept_prefix(channels.drop_last(), a, b);
    }
}

/// Each channel is sent a copy of what is to be sent, and stays, in its place among the others, if
/// and only if that could be done.
pub proof fn law_channels_stay_while_open<T: Clone, C, F: Fn(&C, T) -> bool>(
    send: F,
    payload: T,
    channels: Seq<C>,
    sent: Seq<bool>,
    i: int,
    channel: C,
    ok: bool,
)
    requires
        are_sent(send, payload, channels, sent),
    ensures
        sent.len() == channels.len(),
        0 <= i < channels.len() ==> exists|copy: T| #[trigger]
            call_ensures(send, (&channels[i], copy), sent[i]) && cloned(payload, copy),
        kept(Seq::<C>::empty(), Seq::empty()).len() == 0,
        kept(channels.push(channel), sent.push(ok)) == if ok {
            kept(channels, sent).push(channel)
        } else {
            kept(channels, sent)
        },
{
    if 0 <= i < channels.len() {
        assert(is_sent(send, payload, channels[i], sent[i]));
    }
    let more = channels.push(channel);
    assert(more.drop_last() =~= channels);
    lemma_kept_prefix(channels, sent, sent.push(ok));
}

} // verus!
