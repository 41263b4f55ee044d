//! Lists of peers that fit into the buffer of the receiver.
use crate::addr::Peer;
use crate::identity::bytes_of;
use crate::kaboodle::{KaboodleInner, INCOMING_BUFFER_SIZE};
use crate::map::{lemma_without_present, VecMap};
use crate::structs::{identities, SwimEnvelope, SwimMessage, SwimMessageView};
use bytes::Bytes;
use vstd::prelude::*;

verus! {

/// `bytes` is what `serialize` may make of a message with the given identity that lists the given
/// peers.
pub open spec fn encodes<F: Fn(&SwimEnvelope) -> Vec<u8>>(
    serialize: F,
    identity: Seq<u8>,
    members: Map<Peer, Seq<u8>>,
    bytes: Seq<u8>,
) -> bool {
    exists|env: SwimEnvelope, out: Vec<u8>|
        {
            &&& #[trigger] call_ensures(serialize, (&env,), out)
            &&& out@ == bytes
            &&& bytes_of(env.identity) == identity
            &&& env.msg@ == SwimMessageView::KnownPeers(members)
            &&& env.msg.wf()
        }
}

/// A list of peers that fits into the buffer of the receiver is found: first `tries[0]` lists all
/// `members`, and as long as the message is too long another one of them, `dropped[i]`, is left out.
pub open spec fn is_trimming<F: Fn(&SwimEnvelope) -> Vec<u8>>(
    serialize: F,
    identity: Seq<u8>,
    members: Map<Peer, Seq<u8>>,
    dropped: Seq<Peer>,
    tries: Seq<Seq<u8>>,
) -> bool {
    &&& tries.len() == dropped.len() + 1
    &&& dropped.no_duplicates()
    &&& forall|i: int| 0 <= i < dropped.len() ==> members.contains_key(#[trigger] dropped[i])
    &&& forall|i: int|
        0 <= i < tries.len() ==> encodes(
            serialize,
            identity,
            members.remove_keys(dropped.take(i).to_set()),
            #[trigger] tries[i],
        )
    &&& forall|i: int|
        0 <= i < dropped.len() ==> (#[trigger] tries[i]).len() >= INCOMING_BUFFER_SIZE
    &&& tries.last().len() < INCOMING_BUFFER_SIZE
}

/// `bytes` lists `members`, or as many of them as fit into the buffer of the receiver.
pub open spec fn is_fit<F: Fn(&SwimEnvelope) -> Vec<u8>>(
    serialize: F,
    identity: Seq<u8>,
    members: Map<Peer, Seq<u8>>,
    bytes: Seq<u8>,
) -> bool {
    exists|dropped: Seq<Peer>, tries: Seq<Seq<u8>>| #[trigger]
        is_trimming(serialize, identity, members, dropped, tries) && bytes == tries.last()
}

/// A message that lists no one fits into the buffer of the receiver.
pub open spec fn empty_list_fits<F: Fn(&SwimEnvelope) -> Vec<u8>>(
    serialize: F,
    identity: Seq<u8>,
) -> bool {
    forall|bytes: Seq<u8>| #[trigger]
        encodes(serialize, identity, Map::empty(), bytes) ==> bytes.len() < INCOMING_BUFFER_SIZE
}

impl KaboodleInner {
    /// The bytes of a message with our identity that lists the given peers.
    pub fn serialize_peers<F: Fn(&SwimEnvelope) -> Vec<u8>>(
        &self,
        other_peers: &VecMap<Peer, Bytes>,
        serialize: &F,
    ) -> (r: Vec<u8>)
        requires
            other_peers.wf(),
            forall|env: SwimEnvelope| #[trigger] call_requires(*serialize, (&env,)),
        ensures
            encodes(*serialize, self@.identity, identities(other_peers@), r@),
    {
        let listed = other_peers.clone();
        assert(identities(listed@) =~= identities(other_peers@));
        let env = SwimEnvelope { identity: self.identity(), msg: SwimMessage::KnownPeers(listed) };
        let r = serialize(&env);
        assert(call_ensures(*serialize, (&env,), r));
        r
    }

    /// The bytes of a message that lists the given peers. If it is too long for the buffer of the
    /// receiver, some of them, chosen at random, are left out; there are none only if not even a
    /// message that lists no one is short enough.
    pub fn fit_peers<F: Fn(&SwimEnvelope) -> Vec<u8>>(
        &mut self,
        peers: VecMap<Peer, Bytes>,
        serialize: &F,
    ) -> (r: Option<Vec<u8>>)
        requires
            old(self).wf(),
            peers.wf(),
            forall|env: SwimEnvelope| #[trigger] call_requires(*serialize, (&env,)),
        ensures
            final(self).wf(),
            final(self)@ == old(self)@,
            match r {
                Some(bytes) => is_fit(
                    *serialize,
                    old(self)@.identity,
                    identities(peers@),
                    bytes@,
                ),
                None => !empty_list_fits(*serialize, old(self)@.identity),
            },
    {
        let ghost node = self@;
        let ghost members = identities(peers@);
        let mut other_peers = peers;
        let mut bytes = self.serialize_peers(&other_peers, serialize);
        let ghost mut dropped: Seq<Peer> = Seq::empty();
        let ghost mut tries: Seq<Seq<u8>> = seq![bytes@];
        assert(members.remove_keys(dropped.to_set()) =~= members);
        assert(dropped.take(0) =~= dropped);
        while bytes.len() >= INCOMING_BUFFER_SIZE
            invariant
                self.wf(),
                self@ == node,
                node == old(self)@,
                other_peers.wf(),
                forall|env: SwimEnvelope| #[trigger] call_requires(*serialize, (&env,)),
                identities(other_peers@) == members.remove_keys(dropped.to_set()),
                tries.len() == dropped.len() + 1,
                tries.last() == bytes@,
                dropped.no_duplicates(),
                forall|i: int|
                    0 <= i < dropped.len() ==> members.contains_key(#[trigger] dropped[i]),
                forall|i: int|
                    0 <= i < tries.len() ==> encodes(
                        *serialize,
                        node.identity,
                        members.remove_keys(dropped.take(i).to_set()),
                        #[trigger] tries[i],
                    ),
                forall|i: int|
                    0 <= i < dropped.len() ==> (#[trigger] tries[i]).len() >= INCOMING_BUFFER_SIZE,
            decreases other_peers.order().len(),
        {
            // The message is too long; leave out one of the peers at random.
            proof {
                other_peers.lemma_order();
            }
            let ghost before = other_peers@;
            let keys = other_peers.keys();
            match self.choose_peer(&keys) {
                Some(peer_to_exclude) => {
                    proof {
                        assert(other_peers.order().contains(peer_to_exclude));
                        assert(identities(before).contains_key(peer_to_exclude));
                        let order = other_peers.order();
                        lemma_without_present(order, order.index_of(peer_to_exclude));
                    }
                    other_peers.remove(&peer_to_exclude);
                    let ghost longer = dropped.push(peer_to_exclude);
                    proof {
                        dropped.lemma_push_to_set_commute(peer_to_exclude);
                        if dropped.contains(peer_to_exclude) {
                            assert(dropped.to_set().contains(peer_to_exclude));
                        }
                        assert(identities(other_peers@) =~= identities(before).remove(
                            peer_to_exclude,
                        ));
                        assert(longer.to_set() =~= dropped.to_set().insert(peer_to_exclude));
                        assert(members.remove_keys(longer.to_set()) =~= members.remove_keys(
                            dropped.to_set(),
                        ).remove(peer_to_exclude));
                    }
                    bytes = self.serialize_peers(&other_peers, serialize);
                    proof {
                        assert forall|i: int| 0 <= i < tries.len() implies longer.take(i)
                            == #[trigger] dropped.take(i) by {
                            assert(longer.take(i) =~= dropped.take(i));
                        }
                        assert(longer.take(longer.len() as int) =~= longer);
                        let more = tries.push(bytes@);
                        assert forall|i: int| 0 <= i < more.len() implies encodes(
                            *serialize,
                            node.identity,
                            members.remove_keys(longer.take(i).to_set()),
                            #[trigger] more[i],
                        ) by {
                            if i < tries.len() {
                                assert(more[i] == tries[i]);
                                assert(longer.take(i) == dropped.take(i));
                            }
                        }
                        assert forall|i: int| 0 <= i < longer.len() implies (#[trigger] more[i]).len()
                            >= INCOMING_BUFFER_SIZE by {
                            assert(more[i] == tries[i]);
                        }
                        tries = more;
                        dropped = longer;
                    }
                },
                None => {
                    proof {
                        // Not even a message that lists no one is short enough.
                        assert(other_peers.order() =~= Seq::<Peer>::empty());
                        assert(identities(other_peers@) =~= Map::<Peer, Seq<u8>>::empty());
                        assert(encodes(
                            *serialize,
                            node.identity,
                            members.remove_keys(dropped.take(tries.len() - 1).to_set()),
                            tries[tries.len() - 1],
                        ));
                        assert(dropped.take(tries.len() - 1) =~= dropped);
                        assert(!empty_list_fits(*serialize, node.identity));
                    }
                    return None;
                },
            }
        }
        assert(is_trimming(*serialize, node.identity, members, dropped, tries));
        Some(bytes)
    }
}

} // verus!
