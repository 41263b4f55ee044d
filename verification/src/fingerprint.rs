//! The fingerprint of a mesh: a checksum by which peers find out whether they agree on its
//! membership.
use crate::addr::{sort_addrs, sorted, Peer};
use crate::crc::{crc32, crc32_hash};
use crate::structs::{Fingerprint, KnownPeers, PeerInfoView};
use crate::table::{lemma_table, table};
use crate::text::addr_text;
use vstd::prelude::*;
use vstd::utf8::encode_utf8;

verus! {

/// Who is in the mesh, and with which identity.
pub open spec fn membership(peers: Map<Peer, PeerInfoView>) -> Map<Peer, Seq<u8>> {
    peers.map_values(|info: PeerInfoView| info.identity)
}

/// The address of each listed peer in words, with its identity behind it.
pub open spec fn members_bytes(members: Map<Peer, Seq<u8>>, listed: Seq<Peer>) -> Seq<u8>
    decreases listed.len(),
{
    if listed.len() == 0 {
        Seq::empty()
    } else {
        members_bytes(members, listed.drop_last()) + encode_utf8(addr_text(listed.last()))
            + members[listed.last()]
    }
}

/// The bytes of which the fingerprint is the checksum: the members in the order of their addresses.
pub open spec fn membership_bytes(members: Map<Peer, Seq<u8>>) -> Seq<u8> {
    members_bytes(members, sorted(members.dom()))
}

/// The fingerprint of a mesh with these members.
pub open spec fn fingerprint_of(members: Map<Peer, Seq<u8>>) -> Fingerprint {
    crc32(membership_bytes(members))
}

/// The bytes of which the fingerprint is the checksum.
pub fn fingerprint_input(known_peers: &KnownPeers) -> (r: Vec<u8>)
    requires
        known_peers.wf(),
    ensures
        r@ == membership_bytes(membership(table(*known_peers).peers)),
{
    let ghost members = membership(table(*known_peers).peers);
    proof {
        lemma_table(*known_peers);
        assert(members.dom() =~= table(*known_peers).peers.dom());
    }
    let keys = known_peers.keys();
    let peers = sort_addrs(&keys);
    let mut r: Vec<u8> = Vec::new();
    let mut i: usize = 0;
    assert(peers@.take(0) =~= Seq::<Peer>::empty());
    while i < peers.len()
        invariant
            i <= peers@.len(),
            known_peers.wf(),
            members == membership(table(*known_peers).peers),
            peers@.to_set() == known_peers@.dom(),
            r@ == members_bytes(members, peers@.take(i as int)),
        decreases peers@.len() - i,
    {
        let peer = peers[i];
        proof {
            lemma_table(*known_peers);
            assert(peers@.contains(peer));
            assert(peers@.to_set().contains(peer));
            assert(peers@.take(i + 1).drop_last() =~= peers@.take(i as int));
        }
        let text = peer.to_string();
        r.extend_from_slice(text.as_str().as_bytes());
        if let Some(info) = known_peers.get(&peer) {
            r.extend_from_slice(&info.identity);
        }
        assert(r@ =~= members_bytes(members, peers@.take(i + 1)));
        i += 1;
    }
    assert(peers@.take(i as int) =~= peers@);
    r
}

/// The fingerprint of the mesh as it is known: a CRC-32 checksum of the addresses and identities of
/// its members. The members are put in order first, so that the fingerprint does not depend on the
/// order in which they became known.
pub fn generate_fingerprint(known_peers: &KnownPeers) -> (r: Fingerprint)
    requires
        known_peers.wf(),
    ensures
        r == fingerprint_of(membership(table(*known_peers).peers)),
{
    let bytes = fingerprint_input(known_peers);
    crc32_hash(bytes.as_slice())
}

} // verus!
