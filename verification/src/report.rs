//! What is known of the mesh, in words.
use crate::addr::Peer;
use crate::structs::Fingerprint;
use crate::text::{addr_text, digit, digit_str, number_text, push_number};
use crate::time::{Duration, MILLISECOND};
use vstd::prelude::*;

verus! {

/// A fingerprint in eight hexadecimal digits.
pub open spec fn fingerprint_text(fingerprint: Fingerprint) -> Seq<char> {
    seq![
        digit((fingerprint / 0x1000_0000) as nat),
        digit((fingerprint / 0x100_0000 % 16) as nat),
        digit((fingerprint / 0x10_0000 % 16) as nat),
        digit((fingerprint / 0x1_0000 % 16) as nat),
        digit((fingerprint / 0x1000 % 16) as nat),
        digit((fingerprint / 0x100 % 16) as nat),
        digit((fingerprint / 0x10 % 16) as nat),
        digit((fingerprint % 16) as nat),
    ]
}

/// A fingerprint in eight hexadecimal digits.
pub fn fingerprint_to_string(fingerprint: Fingerprint) -> (r: String)
    ensures
        r@ == fingerprint_text(fingerprint),
{
    let mut r: String = String::new();
    r.append(digit_str(fingerprint / 0x1000_0000));
    r.append(digit_str(fingerprint / 0x100_0000 % 16));
    r.append(digit_str(fingerprint / 0x10_0000 % 16));
    r.append(digit_str(fingerprint / 0x1_0000 % 16));
    r.append(digit_str(fingerprint / 0x1000 % 16));
    r.append(digit_str(fingerprint / 0x100 % 16));
    r.append(digit_str(fingerprint / 0x10 % 16));
    r.append(digit_str(fingerprint % 16));
    assert(r@ =~= fingerprint_text(fingerprint));
    r
}

/// An identity in brackets; nothing, if it cannot be shown.
pub open spec fn identity_label(identity: Option<Seq<char>>) -> Seq<char> {
    match identity {
        Some(identity) => " ("@ + identity + ")"@,
        None => Seq::empty(),
    }
}

/// An identity in brackets; nothing, if it cannot be shown.
pub fn identity_to_string(identity: Option<&str>) -> (r: String)
    ensures
        r@ == identity_label(
            match identity {
                Some(identity) => Some(identity@),
                None => None,
            },
        ),
{
    let mut r: String = String::new();
    if let Some(identity) = identity {
        r.append(" (");
        r.append(identity);
        r.append(")");
        assert(r@ =~= " ("@ + identity@ + ")"@);
    }
    r
}

/// A latency in whole milliseconds, of which the lower 32 bits are shown.
pub open spec fn latency_label(latency: Option<Duration>) -> Seq<char> {
    match latency {
        None => Seq::empty(),
        Some(latency) => if latency / MILLISECOND < 1 {
            " -- < 1ms"@
        } else {
            " -- "@ + number_text((latency / MILLISECOND % 0x1_0000_0000) as nat, 10) + "ms"@
        },
    }
}

/// A latency in whole milliseconds.
pub fn latency_to_string(latency: Option<Duration>) -> (r: String)
    ensures
        r@ == latency_label(latency),
{
    let mut r: String = String::new();
    if let Some(latency) = latency {
        let ms: u128 = latency / MILLISECOND;
        if ms < 1 {
            r.append(" -- < 1ms");
            assert(r@ =~= latency_label(Some(latency)));
        } else {
            let shown: u32 = (ms % 0x1_0000_0000) as u32;
            r.append(" -- ");
            push_number(&mut r, shown, 10);
            r.append("ms");
            assert(r@ =~= latency_label(Some(latency)));
        }
    }
    r
}

/// What is shown of a peer: its address, its identity, its latency, and whether it is us.
pub open spec fn peer_label(
    peer: Peer,
    identity: Option<Seq<char>>,
    latency: Option<Duration>,
    self_addr: Peer,
) -> Seq<char> {
    "+ "@ + addr_text(peer) + identity_label(identity) + latency_label(latency) + if peer
        == self_addr {
        " -- (this is us)"@
    } else {
        Seq::empty()
    }
}

/// What is shown of a peer: its address, its identity, its latency, and whether it is us.
pub fn peer_to_string(
    peer: Peer,
    identity: Option<&str>,
    latency: Option<Duration>,
    self_addr: Peer,
) -> (r: String)
    ensures
        r@ == peer_label(
            peer,
            match identity {
                Some(identity) => Some(identity@),
                None => None,
            },
            latency,
            self_addr,
        ),
{
    let mut r: String = "+ ".to_owned();
    r.append(peer.to_string().as_str());
    r.append(identity_to_string(identity).as_str());
    r.append(latency_to_string(latency).as_str());
    if peer == self_addr {
        r.append(" -- (this is us)");
    }
    assert(r@ =~= peer_label(
        peer,
        match identity {
            Some(identity) => Some(identity@),
            None => None,
        },
        latency,
        self_addr,
    ));
    r
}

} // verus!
