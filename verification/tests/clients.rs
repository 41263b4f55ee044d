use bytes::Bytes;
use kaboodle::addr::{IpAddr, Peer, SocketAddr};
use kaboodle::discovery::{Discovery, Outcome};
use kaboodle::errors::KaboodleError;
use kaboodle::events::{
    broadcast_to_channels, handle_known_peers_events, notification_of, Notification,
};
use kaboodle::fingerprint::generate_fingerprint;
use kaboodle::mdns::{advertise_service, get_service_instance_id};
use kaboodle::networking::Interface;
use kaboodle::observable_hashmap::{Event, ObservableHashMap};
use kaboodle::report::{
    fingerprint_to_string, identity_to_string, latency_to_string, peer_to_string,
};
use kaboodle::structs::{
    KnownPeers, PeerInfo, PeerState, ProbeResponse, SwimBroadcast,
};
use kaboodle::Kaboodle;
use rand::SeedableRng;
use rand_chacha::ChaChaRng;
use std::cell::Cell;

const S: u128 = 1_000_000_000;
const MS: u128 = 1_000_000;

fn peer(n: u32) -> Peer {
    SocketAddr::V4 { ip: 0x0a00_0000 + n, port: 7475 }
}

fn id(text: &str) -> Bytes {
    Bytes::copy_from_slice(text.as_bytes())
}

fn info(identity: &str) -> PeerInfo {
    PeerInfo { identity: id(identity), state: PeerState::Known(1), latency: None }
}

fn interfaces() -> Vec<Interface> {
    vec![
        Interface { name: "lo".to_string(), ip: IpAddr::V4(0x7f00_0001), index: Some(1) },
        Interface { name: "en0".to_string(), ip: IpAddr::V4(0x0a00_0001), index: Some(2) },
    ]
}

fn rng() -> ChaChaRng {
    ChaChaRng::seed_from_u64(3)
}

#[test]
fn a_client_starts_and_stops() {
    let mut known: KnownPeers = ObservableHashMap::new();
    let mut client = Kaboodle::new(7475, None, id("me"), &interfaces()).unwrap();
    assert!(!client.is_running());
    assert_eq!(client.interface().name, "en0");
    assert_eq!(client.broadcast_port(), 7475);
    let instance = client.start(&mut known, peer(1), Ok(()), rng(), 5 * S).unwrap().unwrap();
    assert_eq!(instance.self_addr(), peer(1));
    assert_eq!(instance.identity(), id("me"));
    assert_eq!(client.self_addr(), Some(peer(1)));
    assert!(known.contains_key(&peer(1)));
    assert!(client.start(&mut known, peer(2), Ok(()), rng(), 6 * S).unwrap().is_none());
    assert_eq!(known.keys(), vec![peer(1)]);
    known.insert(peer(3), info("three"));
    assert!(client.stop(&mut known, || true).is_ok());
    assert_eq!(known.keys(), vec![peer(3)]);
    assert_eq!(client.self_addr(), None);
    assert!(client.stop(&mut known, || panic!("nothing to cancel")).is_ok());
}

#[test]
fn a_client_that_cannot_be_stopped_says_so() {
    let mut known: KnownPeers = ObservableHashMap::new();
    let mut client = Kaboodle::new(7475, None, id("me"), &interfaces()).unwrap();
    client.start(&mut known, peer(1), Ok(()), rng(), 5 * S).unwrap();
    assert!(matches!(
        client.stop(&mut known, || false),
        Err(KaboodleError::StoppingFailed(_))
    ));
    assert!(!client.is_running());
}

#[test]
fn a_client_without_sockets_does_not_run() {
    let mut known: KnownPeers = ObservableHashMap::new();
    let mut client = Kaboodle::new(7475, None, id("me"), &interfaces()).unwrap();
    let failed = Err(KaboodleError::UnableToFindInterfaceNumber);
    assert!(matches!(
        client.start(&mut known, peer(1), failed, rng(), 5 * S),
        Err(KaboodleError::UnableToFindInterfaceNumber)
    ));
    assert!(!client.is_running());
    assert!(known.contains_key(&peer(1)));
}

#[test]
fn a_client_needs_an_interface() {
    assert!(matches!(
        Kaboodle::new(7475, None, id("me"), &vec![]),
        Err(KaboodleError::NoAvailableInterfaces)
    ));
    let preferred = interfaces().remove(0);
    let client = Kaboodle::new(7475, Some(preferred), id("me"), &vec![]).unwrap();
    assert_eq!(client.interface().name, "lo");
}

#[test]
fn identities_change_only_while_stopped() {
    let mut known: KnownPeers = ObservableHashMap::new();
    let mut client = Kaboodle::new(7475, None, id("me"), &interfaces()).unwrap();
    assert!(client.set_identity(id("you")).is_ok());
    assert_eq!(client.identity(), id("you"));
    client.start(&mut known, peer(1), Ok(()), rng(), 5 * S).unwrap();
    assert!(matches!(
        client.set_identity(id("us")),
        Err(KaboodleError::InvalidOperation(detail))
            if detail == "Cannot change identity while the mesh is running; call .stop first"
    ));
    assert_eq!(client.identity(), id("you"));
}

#[test]
fn only_a_running_client_pings() {
    let mut known: KnownPeers = ObservableHashMap::new();
    let mut client = Kaboodle::new(7475, None, id("me"), &interfaces()).unwrap();
    assert!(matches!(client.ping_addrs(vec![peer(4)]), Err(KaboodleError::NotRunning)));
    client.start(&mut known, peer(1), Ok(()), rng(), 5 * S).unwrap();
    assert_eq!(client.ping_addrs(vec![peer(4)]).unwrap(), vec![peer(4)]);
}

#[test]
fn a_client_tells_what_it_knows() {
    let mut known: KnownPeers = ObservableHashMap::new();
    let client = Kaboodle::new(7475, None, id("me"), &interfaces()).unwrap();
    known.insert(peer(1), info("alpha"));
    assert_eq!(client.fingerprint(&known), 0x3b91_6791);
    assert_eq!(client.peers(&known).get(&peer(1)), Some(&id("alpha")));
    assert!(client.peer_states(&known).get(&peer(1)) == Some(&info("alpha")));
}

#[test]
fn arrivals_and_departures_are_told() {
    let mut known: KnownPeers = ObservableHashMap::new();
    known.insert(peer(1), info("one"));
    assert!(matches!(
        notification_of(&known, &Event::Added(peer(1))),
        Some(Notification::Discovered(p, identity)) if p == peer(1) && identity == id("one")
    ));
    assert!(notification_of(&known, &Event::Added(peer(2))).is_none());
    assert!(notification_of(&known, &Event::Removed(peer(1))).is_none());
    assert!(matches!(
        notification_of(&known, &Event::Removed(peer(2))),
        Some(Notification::Departed(p)) if p == peer(2)
    ));
    assert!(
        notification_of(&known, &Event::Updated(peer(1), info("one"), info("uno"))).is_none()
    );
}

#[test]
fn the_fingerprint_is_told_once_for_many_changes() {
    let mut known: KnownPeers = ObservableHashMap::new();
    known.insert(peer(1), info("one"));
    let events = vec![Event::Added(peer(1)), Event::Removed(peer(2))];
    let mut prev = 0;
    let told = handle_known_peers_events(&known, &events, &mut prev, true);
    assert_eq!(told.len(), 3);
    let expected = generate_fingerprint(&known);
    assert!(matches!(told[2], Notification::FingerprintChanged(f) if f == expected));
    assert_eq!(prev, expected);
    let told = handle_known_peers_events(&known, &vec![], &mut prev, true);
    assert!(told.is_empty());
    let mut prev = 0;
    assert_eq!(handle_known_peers_events(&known, &events, &mut prev, false).len(), 2);
    assert_eq!(prev, 0);
    let empty: KnownPeers = ObservableHashMap::new();
    let mut prev = 9;
    assert!(handle_known_peers_events(&empty, &vec![], &mut prev, true).is_empty());
    assert_eq!(prev, 9);
}

#[test]
fn closed_channels_are_dropped() {
    let sent = Cell::new(0);
    let mut channels = vec![1, 2, 3, 4, 5];
    let send = |channel: &i32, payload: String| {
        assert_eq!(payload, "news");
        sent.set(sent.get() + 1);
        channel % 2 == 0
    };
    broadcast_to_channels(&"news".to_string(), &mut channels, &send);
    assert_eq!(sent.get(), 5);
    assert_eq!(channels, vec![2, 4]);
    broadcast_to_channels(&"news".to_string(), &mut channels, &send);
    assert_eq!(channels, vec![2, 4]);
}

#[test]
fn probes_are_sent_again_after_longer_and_longer_waits() {
    let mut search = Discovery::new(peer(1));
    assert_eq!(search.time_left(0), 0);
    let mut gaps: Vec<u128> = Vec::new();
    let mut now = 100 * S;
    for _ in 0..13 {
        assert!(matches!(
            search.maybe_probe(now),
            Some(SwimBroadcast::Probe(addr)) if addr == peer(1)
        ));
        let wait = search.time_left(now);
        gaps.push(wait / MS);
        assert!(search.maybe_probe(now + wait - 1).is_none());
        assert_eq!(search.time_left(now + wait - 1), 1);
        assert!(search.handle_outcome(Outcome::TimedOut).is_none());
        now += wait;
    }
    assert_eq!(
        gaps,
        vec![
            1000, 1250, 1562, 1952, 2440, 3050, 3812, 4765, 5956, 7445, 9306, 10000, 10000
        ]
    );
}

#[test]
fn the_first_answer_ends_the_search() {
    let mut search = Discovery::new(peer(1));
    assert!(search.maybe_probe(100 * S).is_some());
    assert!(search.handle_outcome(Outcome::ReadFailed).is_none());
    assert!(search.handle_outcome(Outcome::Unintelligible).is_none());
    assert_eq!(search.time_left(100 * S + 5), S - 5);
    assert!(search.maybe_probe(100 * S + 5).is_none());
    let response = ProbeResponse { identity: id("two") };
    assert_eq!(
        search.handle_outcome(Outcome::Received(peer(2), response)),
        Some((peer(2), id("two")))
    );
}

#[test]
fn both_listings_name_the_same_peers() {
    let mut known: KnownPeers = ObservableHashMap::new();
    let mut client = Kaboodle::new(7475, None, id("me"), &interfaces()).unwrap();
    client.start(&mut known, peer(1), Ok(()), rng(), 5 * S).unwrap();
    let mut silent = info("two");
    silent.state = PeerState::WaitingForPing(3);
    known.insert(peer(2), silent);
    let peers = client.peers(&known);
    let states = client.peer_states(&known);
    assert_eq!(peers.keys(), states.keys());
    for (p, info) in states.iter() {
        assert_eq!(peers.get(p), Some(&info.identity));
    }
    assert_eq!(peers.get(&peer(1)), Some(&id("me")));
}

#[test]
fn services_are_advertised_and_recognised() {
    let instance = 0x67e5_5044_10b1_426f_9247_bb68_0e5f_e0c8;
    let props = Some(vec![("k".to_string(), "v".to_string())]);
    let ad = advertise_service("mesh", 80, instance, props.clone(), &interfaces());
    assert_eq!(ad.service_domain, "_mesh._tcp.local.");
    assert_eq!(ad.service_hostname, "mesh.local.");
    assert_eq!(ad.instance_name, "67e55044-10b1-426f-9247-bb680e5fe0c8");
    assert_eq!(ad.addrs, vec![0x0a00_0001]);
    assert_eq!(ad.port, 80);
    assert_eq!(ad.props, props);
    let fullname = format!("{}.{}", ad.instance_name, ad.service_domain);
    assert_eq!(get_service_instance_id(&fullname), Ok(instance));
}

#[test]
fn other_names_are_not_recognised() {
    assert_eq!(get_service_instance_id("printer._ipp._tcp.local."), Err(()));
    assert_eq!(get_service_instance_id(""), Err(()));
    assert_eq!(get_service_instance_id(".67e55044-10b1-426f-9247-bb680e5fe0c8"), Err(()));
    assert_eq!(get_service_instance_id("67e5504410b1426f9247bb680e5fe0c8"), Ok(
        0x67e5_5044_10b1_426f_9247_bb68_0e5f_e0c8
    ));
}

#[test]
fn peers_in_words() {
    assert_eq!(fingerprint_to_string(0x0abc_0012), "0abc0012");
    assert_eq!(identity_to_string(Some("x")), " (x)");
    assert_eq!(identity_to_string(None), "");
    assert_eq!(latency_to_string(None), "");
    assert_eq!(latency_to_string(Some(MS - 1)), " -- < 1ms");
    assert_eq!(latency_to_string(Some(120 * MS + 7)), " -- 120ms");
    assert_eq!(latency_to_string(Some(0x1_0000_0005 * MS)), " -- 5ms");
    assert_eq!(
        peer_to_string(peer(1), Some("one"), Some(3 * MS), peer(1)),
        "+ 10.0.0.1:7475 (one) -- 3ms -- (this is us)"
    );
    assert_eq!(peer_to_string(peer(2), None, None, peer(1)), "+ 10.0.0.2:7475");
}
