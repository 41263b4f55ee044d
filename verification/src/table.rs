//! The table of known peers: its mathematical content, and the ways in which it changes.
use crate::addr::Peer;
use crate::map::{with, without};
use crate::observable_hashmap::{tells_of_update, Event, Notice};
use crate::structs::{event_view, notice_view, EventView, KnownPeers, NoticeView, PeerInfo, PeerInfoView, PeerState};
use crate::time::Instant;
use vstd::prelude::*;

verus! {

/// The mathematical content of a table of known peers.
#[verifier::ext_equal]
pub ghost struct Table {
    /// What is known of each peer.
    pub peers: Map<Peer, PeerInfoView>,
    /// The peers, in the order in which they became known.
    pub order: Seq<Peer>,
    /// Who is told of changes.
    pub observers: Seq<u64>,
    /// How many observers were ever added.
    pub observers_made: nat,
    /// The notices of changes that were not taken yet.
    pub notices: Seq<NoticeView>,
}

/// What is known of each peer.
pub open spec fn peer_views(peers: Map<Peer, PeerInfo>) -> Map<Peer, PeerInfoView> {
    peers.map_values(|info: PeerInfo| info@)
}

/// The content of the notices.
pub open spec fn notice_views(notices: Seq<Notice<Peer, PeerInfo>>) -> Seq<NoticeView> {
    notices.map_values(|notice: Notice<Peer, PeerInfo>| notice_view(notice))
}

/// The content of a table of known peers.
pub open spec fn table(known: KnownPeers) -> Table {
    Table {
        peers: peer_views(known@),
        order: known.order(),
        observers: known.observers(),
        observers_made: known.observers_made(),
        notices: notice_views(known.notices()),
    }
}

impl Table {
    /// The observers are told of `event`.
    pub open spec fn notify(self, event: EventView) -> Table {
        if self.observers.len() == 0 {
            self
        } else {
            Table {
                notices: self.notices.push(NoticeView { event, observers: self.observers }),
                ..self
            }
        }
    }

    /// `info` becomes what is known of `peer`.
    pub open spec fn put(self, peer: Peer, info: PeerInfoView) -> Table {
        let event = if self.peers.contains_key(peer) {
            Event::Updated(peer, self.peers[peer], info)
        } else {
            Event::Added(peer)
        };
        Table {
            peers: self.peers.insert(peer, info),
            order: with(self.order, peer),
            ..self
        }.notify(event)
    }

    /// `peer` is forgotten.
    pub open spec fn forget(self, peer: Peer) -> Table {
        if self.peers.contains_key(peer) {
            Table {
                peers: self.peers.remove(peer),
                order: without(self.order, peer),
                ..self
            }.notify(Event::Removed(peer))
        } else {
            self
        }
    }

    /// `peer`, if it is known, gets into the given state.
    pub open spec fn set_state(self, peer: Peer, state: PeerState) -> Table {
        if self.peers.contains_key(peer) && self.peers[peer].state != state {
            self.put(peer, PeerInfoView { state, ..self.peers[peer] })
        } else {
            self
        }
    }

    /// The order lists each known peer, and each of them once.
    pub open spec fn wf(self) -> bool {
        &&& self.order.no_duplicates()
        &&& self.peers.dom() == self.order.to_set()
        &&& self.peers.dom().finite()
    }

    /// No state carries a time after `now`.
    pub open spec fn times_at_most(self, now: Instant) -> bool {
        forall|peer: Peer| #[trigger]
            self.peers.contains_key(peer) ==> self.peers[peer].state.time() <= now
    }
}

/// The content of a table that is in order is so, too.
pub proof fn lemma_table(known: KnownPeers)
    requires
        known.wf(),
    ensures
        table(known).wf(),
        known@.dom() == table(known).peers.dom(),
        forall|peer: Peer| #[trigger] known@.contains_key(peer) <==> table(known).peers.contains_key(peer),
        forall|peer: Peer| #[trigger] known@.contains_key(peer) ==> known@[peer]@ == table(known).peers[peer],
        forall|peer: Peer| #[trigger]
            table(known).peers.contains_key(peer) <==> known.order().contains(peer),
{
    known.lemma_order();
    assert(known@.dom() =~= table(known).peers.dom());
}

proof fn lemma_notified(before: KnownPeers, after: KnownPeers, event: Event<Peer, PeerInfo>)
    requires
        after.notified(before, event),
    ensures
        table(before).notify(event_view(event)).notices == table(after).notices,
        table(before).observers == table(after).observers,
        table(before).observers_made == table(after).observers_made,
{
    if before.observers().len() > 0 {
        assert(after.notices() =~= before.notices().push(after.notices().last()));
        assert(notice_views(after.notices()) =~= notice_views(before.notices()).push(
            notice_view(after.notices().last()),
        ));
    }
}

/// Makes `info` what is known of `peer`; whether the peer is new.
pub fn put_peer(known: &mut KnownPeers, peer: Peer, info: PeerInfo) -> (r: bool)
    requires
        old(known).wf(),
    ensures
        final(known).wf(),
        table(*final(known)) == table(*old(known)).put(peer, info@),
        r == !table(*old(known)).peers.contains_key(peer),
{
    proof {
        lemma_table(*known);
    }
    let ghost info_view = info@;
    let ghost given = info;
    let prev = known.insert(peer, info);
    proof {
        assert(peer_views(known@) =~= peer_views(old(known)@).insert(peer, info_view));
        if prev is Some {
            let event = choose|event: Event<Peer, PeerInfo>| #[trigger]
                tells_of_update(event, peer, prev->0, given) && known.notified(*old(known), event);
            assert(event_view(event) == Event::Updated(peer, (prev->0)@, info_view));
            lemma_notified(*old(known), *known, event);
        } else {
            lemma_notified(*old(known), *known, Event::Added(peer));
        }
        assert(table(*known) =~= table(*old(known)).put(peer, info_view));
    }
    prev.is_none()
}

/// Forgets `peer`.
pub fn forget_peer(known: &mut KnownPeers, peer: &Peer)
    requires
        old(known).wf(),
    ensures
        final(known).wf(),
        table(*final(known)) == table(*old(known)).forget(*peer),
{
    proof {
        lemma_table(*known);
    }
    let prev = known.remove(peer);
    proof {
        assert(peer_views(known@) =~= peer_views(old(known)@).remove(*peer));
        if prev is Some {
            lemma_notified(*old(known), *known, Event::Removed(*peer));
        } else {
            assert(peer_views(known@) =~= peer_views(old(known)@));
            crate::map::lemma_without_absent(old(known).order(), *peer);
        }
        assert(table(*known) =~= table(*old(known)).forget(*peer));
    }
}

/// Puts `peer`, if it is known, into the given state; whether that changed anything.
pub fn set_peer_state(known: &mut KnownPeers, peer: &Peer, state: PeerState) -> (r: bool)
    requires
        old(known).wf(),
    ensures
        final(known).wf(),
        table(*final(known)) == table(*old(known)).set_state(*peer, state),
        r == (table(*old(known)).peers.contains_key(*peer) && table(*old(known)).peers[*peer].state
            != state),
{
    proof {
        lemma_table(*known);
    }
    let updater = |info: PeerInfo| -> (updated: PeerInfo)
        ensures
            updated@ == (PeerInfoView { state, ..info@ }),
        { PeerInfo { identity: info.identity, state, latency: info.latency } };
    let r = known.update(peer, updater);
    proof {
        if old(known)@.contains_key(*peer) {
            let prev = old(known)@[*peer];
            let (given, updated) = choose|given: PeerInfo, updated: PeerInfo|
                {
                    &&& cloned(prev, given)
                    &&& #[trigger] call_ensures(updater, (given,), updated)
                    &&& r == (updated@ != prev@)
                    &&& !r ==> *known == *old(known)
                    &&& r ==> {
                        &&& known@ == old(known)@.insert(*peer, updated)
                        &&& known.order() == old(known).order()
                        &&& exists|event: Event<Peer, PeerInfo>| #[trigger]
                            tells_of_update(event, *peer, prev, updated) && known.notified(
                                *old(known),
                                event,
                            )
                    }
                };
            assert(updated@ == PeerInfoView { state, ..prev@ });
            if r {
                let event = choose|event: Event<Peer, PeerInfo>| #[trigger]
                    tells_of_update(event, *peer, prev, updated) && known.notified(*old(known), event);
                assert(event_view(event) == Event::Updated(*peer, prev@, updated@));
                lemma_notified(*old(known), *known, event);
                assert(peer_views(known@) =~= peer_views(old(known)@).insert(*peer, updated@));
                assert(table(*known) =~= table(*old(known)).set_state(*peer, state));
            }
        }
    }
    r
}

} // verus!
