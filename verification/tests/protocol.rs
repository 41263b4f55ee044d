use bytes::Bytes;
use kaboodle::action::Action;
use kaboodle::addr::{Peer, SocketAddr};
use kaboodle::broadcast::{
    confident_identities, percent_chance_of_response, responds_to_draw, Answer,
};
use kaboodle::fingerprint::{fingerprint_input, generate_fingerprint};
use kaboodle::kaboodle::{
    calculate_peer_latency, peer_identities, required_delay, sync_request, KaboodleInner,
};
use kaboodle::map::VecMap;
use kaboodle::observable_hashmap::{Event, ObservableHashMap};
use kaboodle::structs::{
    KnownPeers, PeerInfo, PeerState, SwimBroadcast, SwimEnvelope, SwimMessage,
};
use rand::SeedableRng;
use rand_chacha::ChaChaRng;

const S: u128 = 1_000_000_000;
const MS: u128 = 1_000_000;

fn peer(n: u32) -> Peer {
    SocketAddr::V4 { ip: 0x0a00_0000 + n, port: 7475 }
}

fn id(text: &str) -> Bytes {
    Bytes::copy_from_slice(text.as_bytes())
}

fn known(n: u32, at: u128) -> PeerInfo {
    PeerInfo { identity: id(&format!("p{n}")), state: PeerState::Known(at), latency: None }
}

fn start(now: u128) -> (KaboodleInner, KnownPeers) {
    let mut table: KnownPeers = ObservableHashMap::new();
    let rng = ChaChaRng::seed_from_u64(11);
    let node = KaboodleInner::start(&mut table, peer(1), id("me"), rng, now);
    (node, table)
}

fn mix(new_ms: u128, prev_ms: u128) -> u64 {
    ((new_ms as f64) * 0.8 + (prev_ms as f64) * (1.0 - 0.8)) as u64
}

fn envelope(identity: &str, msg: SwimMessage) -> SwimEnvelope {
    SwimEnvelope { identity: id(identity), msg }
}

fn state(table: &KnownPeers, p: Peer) -> PeerState {
    table.get(&p).unwrap().state
}

/// Sixteen bytes, and forty for each listed peer: its number, and what fills them up.
fn serialize(env: &SwimEnvelope) -> Vec<u8> {
    let mut bytes = vec![7; 16];
    match &env.msg {
        SwimMessage::KnownPeers(peers) => {
            for (p, _) in peers.iter() {
                match p {
                    SocketAddr::V4 { ip, .. } => bytes.extend((ip - 0x0a00_0000).to_be_bytes()),
                    SocketAddr::V6 { .. } => panic!("not one of our peers"),
                }
                bytes.extend(vec![7; 36]);
            }
        }
        _ => panic!("not a list of peers"),
    }
    bytes
}

/// The numbers of the listed peers.
fn listed(action: &Action) -> (Peer, Vec<u32>) {
    match action {
        Action::SendBytes { to, bytes } => {
            assert!(bytes.len() < 10240);
            let numbers = bytes[16..]
                .chunks(40)
                .map(|entry| u32::from_be_bytes([entry[0], entry[1], entry[2], entry[3]]))
                .collect();
            (*to, numbers)
        }
        _ => panic!("not a list of peers"),
    }
}

fn sent(action: &Action) -> (Peer, &SwimEnvelope) {
    match action {
        Action::Send { to, envelope } => (*to, envelope),
        _ => panic!("not a message to one peer"),
    }
}

#[test]
fn an_instance_knows_itself() {
    let (node, table) = start(50 * S);
    assert_eq!(node.self_addr(), peer(1));
    assert_eq!(node.identity(), id("me"));
    assert_eq!(table.len(), 1);
    assert_eq!(state(&table, peer(1)), PeerState::Known(50 * S));
}

#[test]
fn fingerprints_are_checksums() {
    let mut table: KnownPeers = ObservableHashMap::new();
    assert_eq!(generate_fingerprint(&table), 0);
    let a = SocketAddr::V4 { ip: 0x0a00_0001, port: 7475 };
    let b = SocketAddr::V4 { ip: 0x0a00_0002, port: 80 };
    let c = SocketAddr::V6 { ip: (0xfe80 << 112) + 1, port: 9000, flowinfo: 0, scope_id: 3 };
    let state = PeerState::Known(1);
    table.insert(c, PeerInfo { identity: id(""), state, latency: None });
    table.insert(b, PeerInfo { identity: id("beta"), state, latency: None });
    table.insert(a, PeerInfo { identity: id("alpha"), state, latency: None });
    assert_eq!(
        fingerprint_input(&table),
        b"10.0.0.1:7475alpha10.0.0.2:80beta[fe80::1%3]:9000".to_vec()
    );
    assert_eq!(generate_fingerprint(&table), 0x3b78_4821);
}

#[test]
fn fingerprints_do_not_depend_on_order_or_state() {
    let mut one: KnownPeers = ObservableHashMap::new();
    let mut other: KnownPeers = ObservableHashMap::new();
    one.insert(peer(1), known(1, 1));
    one.insert(peer(2), known(2, 2));
    other.insert(
        peer(2),
        PeerInfo { identity: id("p2"), state: PeerState::WaitingForPing(9), latency: Some(4) },
    );
    other.insert(peer(1), known(1, 7));
    assert_eq!(generate_fingerprint(&one), generate_fingerprint(&other));
    other.insert(
        peer(2),
        PeerInfo { identity: id("new"), state: PeerState::Known(9), latency: None },
    );
    assert!(fingerprint_input(&one) != fingerprint_input(&other));
    assert!(generate_fingerprint(&one) != generate_fingerprint(&other));
}

#[test]
fn small_changes_of_an_identity_show() {
    let mut table: KnownPeers = ObservableHashMap::new();
    let named = |identity: &[u8]| PeerInfo {
        identity: Bytes::copy_from_slice(identity),
        state: PeerState::Known(1),
        latency: None,
    };
    table.insert(peer(1), known(1, 1));
    table.insert(peer(2), named(b"identity"));
    table.insert(peer(3), known(3, 1));
    let before = generate_fingerprint(&table);
    for at in 0..8 {
        for mask in 1..=255 {
            let mut identity = b"identity".to_vec();
            identity[at] ^= mask;
            table.insert(peer(2), named(&identity));
            assert!(generate_fingerprint(&table) != before);
        }
    }
    table.insert(peer(2), named(b"idENTIty"));
    assert!(generate_fingerprint(&table) != before);
    table.insert(peer(2), named(b"identity"));
    assert_eq!(generate_fingerprint(&table), before);
}

#[test]
fn announcements_come_first_and_then_only_while_alone() {
    let (mut node, mut table) = start(50 * S);
    assert!(matches!(
        node.maybe_broadcast_join(&table, 50 * S),
        Some(SwimBroadcast::Join { addr, identity }) if addr == peer(1) && identity == id("me")
    ));
    assert!(node.maybe_broadcast_join(&table, 60 * S - 1).is_none());
    assert!(node.maybe_broadcast_join(&table, 60 * S).is_some());
    table.insert(peer(2), known(2, 60 * S));
    assert!(node.maybe_broadcast_join(&table, 90 * S).is_none());
    table.remove(&peer(2));
    assert!(node.maybe_broadcast_join(&table, 90 * S).is_some());
}

#[test]
fn the_rest_of_a_period_is_for_reading() {
    assert_eq!(required_delay(0), S);
    assert_eq!(required_delay(300 * MS), 700 * MS);
    assert_eq!(required_delay(990 * MS), 10 * MS);
    assert_eq!(required_delay(995 * MS), 10 * MS);
    assert_eq!(required_delay(5 * S), 10 * MS);
}

#[test]
fn latencies_are_smoothed() {
    let mut info = known(2, 5);
    assert_eq!(calculate_peer_latency(&info, 10 * S, mix), None);
    info.latency = Some(7);
    assert_eq!(calculate_peer_latency(&info, 10 * S, mix), Some(7));
    info.latency = None;
    info.state = PeerState::WaitingForPing(10 * S);
    assert_eq!(calculate_peer_latency(&info, 10 * S + 123, mix), Some(123));
    info.latency = Some(100 * MS + 999);
    assert_eq!(calculate_peer_latency(&info, 10 * S + 50 * MS, mix), Some(60 * MS));
    info.state = PeerState::WaitingForIndirectPing(10 * S);
    assert_eq!(calculate_peer_latency(&info, 10 * S + 200 * MS, mix), Some(180 * MS));
}

#[test]
fn pings_are_answered() {
    let (mut node, mut table) = start(50 * S);
    let actions = node.handle_incoming_message(
        &mut table,
        peer(2),
        envelope("two", SwimMessage::Ping),
        51 * S,
        mix,
        &serialize,
    );
    assert_eq!(state(&table, peer(2)), PeerState::Known(51 * S));
    assert_eq!(table.get(&peer(2)).unwrap().identity, id("two"));
    assert_eq!(actions.len(), 1);
    let (to, env) = sent(&actions[0]);
    assert_eq!(to, peer(2));
    assert_eq!(env.identity, id("me"));
    let expected = generate_fingerprint(&table);
    assert!(matches!(
        env.msg,
        SwimMessage::Ack { peer: p, mesh_fingerprint, num_peers: 2 }
            if p == peer(1) && mesh_fingerprint == expected
    ));
}

#[test]
fn a_suspect_that_answers_is_known_again() {
    let (mut node, mut table) = start(50 * S);
    table.insert(
        peer(2),
        PeerInfo { identity: id("p2"), state: PeerState::WaitingForPing(51 * S), latency: None },
    );
    let fingerprint = generate_fingerprint(&table);
    let ack = SwimMessage::Ack { peer: peer(2), mesh_fingerprint: fingerprint, num_peers: 2 };
    let actions =
        node.handle_incoming_message(&mut table, peer(2), envelope("p2", ack), 51 * S + 40, mix, &serialize);
    assert!(actions.is_empty());
    assert_eq!(state(&table, peer(2)), PeerState::Known(51 * S + 40));
    assert_eq!(table.get(&peer(2)).unwrap().latency, Some(40));
}

#[test]
fn whoever_asked_for_a_ping_is_told_of_the_answer() {
    let (mut node, mut table) = start(50 * S);
    for _ in 0..2 {
        let actions = node.handle_incoming_message(
            &mut table,
            peer(2),
            envelope("p2", SwimMessage::PingRequest(peer(3))),
            51 * S,
            mix,
        &serialize,
        );
        assert_eq!(actions.len(), 1);
        let (to, env) = sent(&actions[0]);
        assert_eq!(to, peer(3));
        assert!(matches!(env.msg, SwimMessage::Ping));
    }
    node.handle_incoming_message(
        &mut table,
        peer(4),
        envelope("p4", SwimMessage::PingRequest(peer(3))),
        51 * S,
        mix,
        &serialize,
    );
    assert!(!table.contains_key(&peer(3)));
    let ack = SwimMessage::Ack { peer: peer(3), mesh_fingerprint: 9, num_peers: 1 };
    let actions =
        node.handle_incoming_message(&mut table, peer(3), envelope("p3", ack), 52 * S, mix, &serialize);
    let told: Vec<Peer> = actions.iter().map(|a| sent(a).0).collect();
    assert_eq!(told, vec![peer(2), peer(4)]);
    for action in &actions {
        assert!(matches!(
            sent(action).1.msg,
            SwimMessage::Ack { peer: p, mesh_fingerprint: 9, num_peers: 1 } if p == peer(3)
        ));
    }
    let ack = SwimMessage::Ack { peer: peer(3), mesh_fingerprint: 9, num_peers: 1 };
    let again =
        node.handle_incoming_message(&mut table, peer(3), envelope("p3", ack), 52 * S, mix, &serialize);
    assert!(again.is_empty());
}

#[test]
fn who_may_know_better_is_asked() {
    assert!(sync_request(1, 5, 1, 9).is_none());
    assert!(sync_request(1, 6, 2, 5).is_none());
    assert!(matches!(
        sync_request(1, 5, 2, 5),
        Some(SwimMessage::KnownPeersRequest { mesh_fingerprint: 1, num_peers: 5 })
    ));
    let (mut node, mut table) = start(50 * S);
    let ack = SwimMessage::Ack { peer: peer(2), mesh_fingerprint: 1, num_peers: 8 };
    let actions =
        node.handle_incoming_message(&mut table, peer(2), envelope("p2", ack), 51 * S, mix, &serialize);
    assert_eq!(actions.len(), 1);
    let (to, env) = sent(&actions[0]);
    assert_eq!(to, peer(2));
    assert!(matches!(env.msg, SwimMessage::KnownPeersRequest { num_peers: 2, .. }));
}

#[test]
fn only_peers_heard_of_late_are_named() {
    let (mut node, mut table) = start(50 * S);
    table.insert(peer(2), known(2, 50 * S));
    table.insert(peer(3), known(3, 51 * S));
    table.insert(peer(4), known(4, 41 * S + 1));
    table.insert(peer(5), known(5, 41 * S));
    table.insert(
        peer(6),
        PeerInfo { identity: id("p6"), state: PeerState::WaitingForPing(51 * S), latency: None },
    );
    let fingerprint = generate_fingerprint(&table);
    let request = SwimMessage::KnownPeersRequest { mesh_fingerprint: fingerprint, num_peers: 6 };
    let actions =
        node.handle_incoming_message(&mut table, peer(2), envelope("p2", request), 51 * S, mix, &serialize);
    assert_eq!(actions.len(), 1);
    assert_eq!(listed(&actions[0]), (peer(2), vec![3, 4]));
}

#[test]
fn a_request_may_be_answered_with_another() {
    let (mut node, mut table) = start(50 * S);
    let request = SwimMessage::KnownPeersRequest { mesh_fingerprint: 3, num_peers: 9 };
    let actions =
        node.handle_incoming_message(&mut table, peer(2), envelope("p2", request), 51 * S, mix, &serialize);
    assert_eq!(actions.len(), 2);
    assert_eq!(listed(&actions[0]), (peer(2), vec![]));
    assert!(matches!(sent(&actions[1]).1.msg, SwimMessage::KnownPeersRequest { .. }));
}

#[test]
fn hearsay_is_learned_but_not_passed_on() {
    let (mut node, mut table) = start(50 * S);
    table.insert(peer(3), known(3, 50 * S));
    let mut peers: VecMap<Peer, Bytes> = VecMap::new();
    peers.insert(peer(3), id("someone else"));
    peers.insert(peer(4), id("four"));
    let actions = node.handle_incoming_message(
        &mut table,
        peer(2),
        envelope("p2", SwimMessage::KnownPeers(peers)),
        51 * S,
        mix,
        &serialize,
    );
    assert!(actions.is_empty());
    assert_eq!(table.keys(), vec![peer(1), peer(3), peer(2), peer(4)]);
    assert_eq!(table.get(&peer(3)).unwrap().identity, id("p3"));
    assert_eq!(table.get(&peer(4)).unwrap().identity, id("four"));
    assert_eq!(state(&table, peer(4)), PeerState::Known(41 * S));
    let fingerprint = generate_fingerprint(&table);
    let request = SwimMessage::KnownPeersRequest { mesh_fingerprint: fingerprint, num_peers: 4 };
    let actions =
        node.handle_incoming_message(&mut table, peer(9), envelope("p9", request), 51 * S, mix, &serialize);
    assert_eq!(listed(&actions[0]), (peer(9), vec![3, 2]));
}

#[test]
fn an_exchange_brings_agreement() {
    let (mut a, mut a_table) = start(50 * S);
    let mut b_table: KnownPeers = ObservableHashMap::new();
    let rng = ChaChaRng::seed_from_u64(12);
    let mut b = KaboodleInner::start(&mut b_table, peer(2), id("b"), rng, 50 * S);
    a_table.insert(peer(7), known(7, 50 * S));
    b_table.insert(peer(8), known(8, 50 * S));
    let read = |actions: &Vec<Action>| {
        let mut peers: VecMap<Peer, Bytes> = VecMap::new();
        for n in listed(&actions[0]).1 {
            peers.insert(peer(n), id(&format!("p{n}")));
        }
        SwimMessage::KnownPeers(peers)
    };
    let to_a = asks(&b_table);
    let from_a = a.handle_incoming_message(
        &mut a_table,
        peer(2),
        envelope("b", to_a),
        51 * S,
        mix,
        &serialize,
    );
    let to_b = asks(&a_table);
    let from_b = b.handle_incoming_message(
        &mut b_table,
        peer(1),
        envelope("me", to_b),
        51 * S,
        mix,
        &serialize,
    );
    assert_eq!(listed(&from_a[0]), (peer(2), vec![7]));
    assert_eq!(listed(&from_b[0]), (peer(1), vec![8]));
    let (for_a, for_b) = (read(&from_b), read(&from_a));
    b.handle_incoming_message(&mut b_table, peer(1), envelope("me", for_b), 52 * S, mix, &serialize);
    a.handle_incoming_message(&mut a_table, peer(2), envelope("b", for_a), 52 * S, mix, &serialize);
    assert_eq!(generate_fingerprint(&a_table), generate_fingerprint(&b_table));
    assert_eq!(a_table.len(), 4);
}

#[test]
fn suspects_are_asked_about_and_then_given_up() {
    let (mut node, mut table) = start(50 * S);
    for n in 2..8 {
        table.insert(peer(n), known(n, 50 * S));
    }
    assert!(node.ping_peer(&mut table, peer(2), 50 * S).is_some());
    assert!(node.ping_peer(&mut table, peer(2), 50 * S).is_none());
    assert!(node.ping_peer(&mut table, peer(77), 50 * S).is_none());
    assert!(node.handle_suspected_peers(&mut table, 52 * S - 1).is_empty());
    assert_eq!(state(&table, peer(2)), PeerState::WaitingForPing(50 * S));

    let actions = node.handle_suspected_peers(&mut table, 52 * S);
    assert_eq!(state(&table, peer(2)), PeerState::WaitingForIndirectPing(52 * S));
    assert_eq!(actions.len(), 3);
    let mut asked: Vec<Peer> = Vec::new();
    for action in &actions {
        let (to, env) = sent(action);
        assert!(matches!(env.msg, SwimMessage::PingRequest(p) if p == peer(2)));
        assert!(to != peer(1) && to != peer(2) && !asked.contains(&to));
        asked.push(to);
    }

    assert!(node.handle_suspected_peers(&mut table, 54 * S - 1).is_empty());
    let actions = node.handle_suspected_peers(&mut table, 54 * S);
    assert_eq!(actions.len(), 1);
    assert!(matches!(
        actions[0],
        Action::Broadcast(SwimBroadcast::Failed(p)) if p == peer(2)
    ));
    assert!(!table.contains_key(&peer(2)));
    assert_eq!(table.len(), 6);
}

#[test]
fn without_anyone_to_ask_suspects_are_given_up_at_once() {
    let (mut node, mut table) = start(50 * S);
    table.insert(peer(2), known(2, 50 * S));
    node.ping_peer(&mut table, peer(2), 50 * S);
    let actions = node.handle_suspected_peers(&mut table, 52 * S);
    assert!(matches!(
        actions[0],
        Action::Broadcast(SwimBroadcast::Failed(p)) if p == peer(2)
    ));
    assert_eq!(table.keys(), vec![peer(1)]);
}

#[test]
fn given_up_peers_are_no_longer_asked_for() {
    let (mut node, mut table) = start(50 * S);
    table.insert(peer(3), known(3, 50 * S));
    node.handle_incoming_message(
        &mut table,
        peer(2),
        envelope("p2", SwimMessage::PingRequest(peer(3))),
        50 * S,
        mix,
        &serialize,
    );
    table.insert(
        peer(3),
        PeerInfo {
            identity: id("p3"),
            state: PeerState::WaitingForIndirectPing(50 * S),
            latency: None,
        },
    );
    node.handle_suspected_peers(&mut table, 53 * S);
    let ack = SwimMessage::Ack { peer: peer(3), mesh_fingerprint: 0, num_peers: 0 };
    let actions =
        node.handle_incoming_message(&mut table, peer(3), envelope("p3", ack), 54 * S, mix, &serialize);
    assert!(actions.is_empty());
}

#[test]
fn a_judgement_can_be_acted_on() {
    let (mut node, mut table) = start(50 * S);
    table.insert(peer(2), known(2, 50 * S));
    table.insert(peer(3), known(3, 50 * S));
    node.ping_peer(&mut table, peer(3), 50 * S);
    let judgement = node.judge_peers(&table, 52 * S);
    assert_eq!(judgement.helpers, vec![peer(2)]);
    assert_eq!(judgement.asked_about, vec![peer(3)]);
    assert!(judgement.given_up.is_empty());
    let actions =
        node.act_on_judgement(&mut table, judgement, vec![vec![peer(2)]], 52 * S);
    assert_eq!(sent(&actions[0]).0, peer(2));
    assert_eq!(state(&table, peer(3)), PeerState::WaitingForIndirectPing(52 * S));
}

#[test]
fn one_of_the_five_longest_unheard_is_pinged() {
    let (mut node, mut table) = start(50 * S);
    assert!(node.ping_random_peer(&mut table, 50 * S).is_none());
    for n in 2..10 {
        table.insert(peer(n), known(n, (60 - n as u128) * S));
    }
    let mut candidates = node.ping_candidates(&table);
    candidates.sort_by_key(|p| p.to_string());
    assert_eq!(candidates, vec![peer(5), peer(6), peer(7), peer(8), peer(9)]);
    for _ in 0..20 {
        let (target, action) = node.ping_random_peer(&mut table, 61 * S).unwrap();
        assert!(candidates.contains(&target));
        assert_eq!(state(&table, target), PeerState::WaitingForPing(61 * S));
        assert!(matches!(sent(&action).1.msg, SwimMessage::Ping));
        assert_eq!(sent(&action).0, target);
        node.handle_incoming_message(
            &mut table,
            target,
            envelope("x", SwimMessage::KnownPeers(VecMap::new())),
            61 * S,
            mix,
        &serialize,
        );
        table.insert(target, known(9, 50 * S));
    }
}

#[test]
fn a_peer_that_cannot_be_reached_is_forgotten() {
    let (mut node, mut table) = start(50 * S);
    table.insert(peer(2), known(2, 50 * S));
    node.ping_peer(&mut table, peer(2), 51 * S);
    node.ping_failed(&mut table, &peer(2));
    assert_eq!(table.keys(), vec![peer(1)]);
}

#[test]
fn failures_are_believed_of_members_only() {
    let (node, mut table) = start(50 * S);
    table.insert(peer(2), known(2, 50 * S));
    table.insert(peer(3), known(3, 50 * S));
    let answer =
        node.note_broadcast(&mut table, peer(9), SwimBroadcast::Failed(peer(3)), 51 * S);
    assert!(matches!(answer, Answer::Nothing));
    assert!(table.contains_key(&peer(3)));
    node.note_broadcast(&mut table, peer(2), SwimBroadcast::Failed(peer(1)), 51 * S);
    assert!(table.contains_key(&peer(1)));
    node.note_broadcast(&mut table, peer(2), SwimBroadcast::Failed(peer(3)), 51 * S);
    assert_eq!(table.keys(), vec![peer(1), peer(2)]);
}

#[test]
fn newcomers_are_known_and_answered_once() {
    let (mut node, mut table) = start(50 * S);
    let join = || SwimBroadcast::Join { addr: peer(2), identity: id("two") };
    let answer = node.handle_incoming_broadcast(&mut table, peer(2), join(), 51 * S, &serialize);
    assert!(matches!(
        answer,
        Some(Action::SendBytes { to, bytes }) if to == peer(2) && bytes.len() == 96
    ));
    assert_eq!(state(&table, peer(2)), PeerState::Known(51 * S));
    let mut info = known(2, 51 * S);
    info.latency = Some(5);
    table.insert(peer(2), info);
    let answer = node.handle_incoming_broadcast(&mut table, peer(2), join(), 52 * S, &serialize);
    assert!(answer.is_none());
    assert_eq!(table.get(&peer(2)).unwrap().latency, Some(5));
    assert_eq!(table.get(&peer(2)).unwrap().identity, id("two"));
    let own = SwimBroadcast::Join { addr: peer(1), identity: id("fake") };
    assert!(node.handle_incoming_broadcast(&mut table, peer(1), own, 52 * S, &serialize).is_none());
    assert_eq!(table.get(&peer(1)).unwrap().identity, id("me"));
}

#[test]
fn probes_are_answered_with_the_identity() {
    let (mut node, mut table) = start(50 * S);
    let answer = node.handle_incoming_broadcast(
        &mut table,
        peer(2),
        SwimBroadcast::Probe(peer(4)),
        51 * S,
        &serialize,
    );
    assert!(matches!(
        answer,
        Some(Action::AnswerProbe { to, response }) if to == peer(4) && response.identity == id("me")
    ));
    assert_eq!(table.len(), 1);
    assert!(matches!(node.respond_to_probe(peer(5)), Action::AnswerProbe { .. }));
}

#[test]
fn the_chance_of_an_answer_falls() {
    let percents: Vec<u32> =
        [0, 1, 2, 3, 4, 5, 11, 12, 13, 5000].into_iter().map(percent_chance_of_response).collect();
    assert_eq!(percents, vec![100, 100, 100, 99, 96, 91, 19, 1, 1, 1]);
}

#[test]
fn in_a_large_mesh_few_answer() {
    let (mut node, mut table) = start(50 * S);
    for n in 2..60 {
        table.insert(peer(n), known(n, 50 * S));
    }
    let answers =
        (0..1000).filter(|_| node.should_respond_to_broadcast(&table)).count();
    assert!(answers < 100);
    let (mut alone, table) = start(50 * S);
    assert!((0..1000).all(|_| alone.should_respond_to_broadcast(&table)));
}

#[test]
fn lists_that_are_too_long_are_cut() {
    let (mut node, mut table) = start(50 * S);
    for n in 2..301 {
        table.insert(peer(n), known(n, 50 * S));
    }
    let action = node.send_known_peers_to_peer(&table, peer(500), &serialize).unwrap();
    match action {
        Action::SendBytes { to, bytes } => {
            assert_eq!(to, peer(500));
            assert_eq!(bytes.len(), 16 + 40 * 255);
        }
        _ => panic!("not a list of peers"),
    }
    let some = peer_identities(&table);
    assert_eq!(node.serialize_peers(&some, &serialize).len(), 16 + 40 * 300);
    let empty: KnownPeers = ObservableHashMap::new();
    assert!(node.send_known_peers_to_peer(&empty, peer(500), &serialize).is_none());
}

#[test]
fn a_round() {
    let (mut node, mut table) = start(50 * S);
    table.insert(peer(2), known(2, 50 * S));
    table.insert(peer(3), known(3, 50 * S));
    node.ping_peer(&mut table, peer(3), 50 * S);
    let requests = vec![peer(8), peer(9)];
    let round = node.tick(&mut table, &requests, 52 * S);
    assert!(round.join.is_some());
    assert_eq!(round.suspicion.len(), 1);
    assert_eq!(sent(&round.suspicion[0]).0, peer(2));
    let (target, ping) = round.ping.unwrap();
    assert_eq!(target, peer(2));
    assert!(matches!(sent(&ping).1.msg, SwimMessage::Ping));
    let pinged: Vec<Peer> = round.requested.iter().map(|a| sent(a).0).collect();
    assert_eq!(pinged, requests);
    assert_eq!(state(&table, peer(2)), PeerState::WaitingForPing(52 * S));
    assert_eq!(state(&table, peer(3)), PeerState::WaitingForIndirectPing(52 * S));
    let round = node.tick(&mut table, &vec![], 53 * S);
    assert!(round.join.is_none() && round.ping.is_none());
}

#[test]
fn an_instance_never_suspects_itself() {
    let (mut node, mut table) = start(50 * S);
    let actions = node.handle_suspected_peers(&mut table, 5000 * S);
    assert!(actions.is_empty());
    assert!(node.ping_random_peer(&mut table, 5000 * S).is_none());
    node.note_broadcast(&mut table, peer(1), SwimBroadcast::Failed(peer(1)), 5000 * S);
    node.handle_incoming_message(
        &mut table,
        peer(1),
        envelope("me", SwimMessage::Ping),
        5001 * S,
        mix,
        &serialize,
    );
    assert_eq!(table.keys(), vec![peer(1)]);
    assert_eq!(state(&table, peer(1)), PeerState::Known(5001 * S));
}

#[test]
fn observers_can_follow_the_membership() {
    let (mut node, mut table) = start(50 * S);
    let mut followed = table.keys();
    table.add_observer();
    node.handle_incoming_message(
        &mut table,
        peer(2),
        envelope("p2", SwimMessage::KnownPeers(VecMap::new())),
        51 * S,
        mix,
        &serialize,
    );
    let join = SwimBroadcast::Join { addr: peer(3), identity: id("p3") };
    node.handle_incoming_broadcast(&mut table, peer(3), join, 51 * S, &serialize);
    node.ping_peer(&mut table, peer(3), 51 * S);
    node.handle_suspected_peers(&mut table, 53 * S);
    node.note_broadcast(&mut table, peer(2), SwimBroadcast::Failed(peer(2)), 54 * S);
    node.handle_suspected_peers(&mut table, 56 * S);
    for notice in table.take_notices() {
        match notice.event {
            Event::Added(p) => followed.push(p),
            Event::Updated(..) => {}
            Event::Removed(p) => followed.retain(|q| *q != p),
        }
    }
    assert_eq!(followed, table.keys());
    assert_eq!(followed, vec![peer(1)]);
}

#[test]
fn no_time_lies_ahead() {
    let (mut node, mut table) = start(50 * S);
    let mut peers: VecMap<Peer, Bytes> = VecMap::new();
    peers.insert(peer(4), id("p4"));
    node.handle_incoming_message(
        &mut table,
        peer(2),
        envelope("p2", SwimMessage::KnownPeers(peers)),
        51 * S,
        mix,
        &serialize,
    );
    node.ping_random_peer(&mut table, 51 * S);
    for (_, info) in table.iter() {
        let at = match info.state {
            PeerState::Known(at) => at,
            PeerState::WaitingForPing(at) => at,
            PeerState::WaitingForIndirectPing(at) => at,
        };
        assert!(at <= 51 * S);
    }
}

#[test]
fn of_two_that_differ_one_asks() {
    for (ours, theirs) in [(3, 4), (4, 3), (4, 4)] {
        let we = sync_request(1, ours, 2, theirs).is_some();
        let they = sync_request(2, theirs, 1, ours).is_some();
        assert!(we || they);
        assert!(sync_request(1, ours, 1, theirs).is_none());
    }
}

#[test]
fn the_draw_decides_in_a_mesh_of_three_or_more() {
    for num_known in [0, 1, 2] {
        assert!(responds_to_draw(num_known, false));
        assert!(responds_to_draw(num_known, true));
    }
    for num_known in [3, 12, 5000] {
        assert!(!responds_to_draw(num_known, false));
        assert!(responds_to_draw(num_known, true));
    }
}

fn asks(table: &KnownPeers) -> SwimMessage {
    SwimMessage::KnownPeersRequest {
        mesh_fingerprint: generate_fingerprint(table),
        num_peers: table.len() as u32,
    }
}

fn suspect(n: u32, at: u128) -> PeerInfo {
    PeerInfo {
        identity: id(&format!("p{n}")),
        state: PeerState::WaitingForIndirectPing(at),
        latency: Some(4),
    }
}

#[test]
fn a_suspect_is_kept_when_someone_has_its_answer() {
    let (mut node, mut table) = start(50 * S);
    table.insert(peer(2), known(2, 50 * S));
    table.insert(peer(3), suspect(3, 50 * S));
    let ack = SwimMessage::Ack { peer: peer(3), mesh_fingerprint: 0, num_peers: 0 };
    node.handle_incoming_message(&mut table, peer(2), envelope("p2", ack), 51 * S, mix, &serialize);
    assert_eq!(state(&table, peer(3)), PeerState::Known(51 * S));
    assert_eq!(table.get(&peer(3)).unwrap().identity, id("p3"));
    assert_eq!(table.get(&peer(3)).unwrap().latency, Some(4));
    assert!(node.handle_suspected_peers(&mut table, 53 * S).is_empty());
    assert!(table.contains_key(&peer(3)));
    let ack = SwimMessage::Ack { peer: peer(9), mesh_fingerprint: 0, num_peers: 0 };
    node.handle_incoming_message(&mut table, peer(2), envelope("p2", ack), 51 * S, mix, &serialize);
    assert!(!table.contains_key(&peer(9)));
}

#[test]
fn the_latency_is_chosen_by_the_caller() {
    let (mut node, mut table) = start(50 * S);
    let actions = node.handle_message_with(
        &mut table,
        peer(2),
        envelope("two", SwimMessage::Ping),
        51 * S,
        Some(77),
        &serialize,
    );
    assert_eq!(actions.len(), 1);
    assert_eq!(table.get(&peer(2)).unwrap().latency, Some(77));
}

#[test]
fn requested_lists_are_cut_too() {
    let (mut node, mut table) = start(50 * S);
    for n in 2..301 {
        table.insert(peer(n), known(n, 50 * S));
    }
    let request = asks(&table);
    let actions = node.handle_incoming_message(
        &mut table,
        peer(2),
        envelope("p2", request),
        51 * S,
        mix,
        &serialize,
    );
    assert_eq!(actions.len(), 1);
    let (to, mut numbers) = listed(&actions[0]);
    assert_eq!(to, peer(2));
    assert_eq!(numbers.len(), 255);
    assert!(numbers.iter().all(|n| (3..301).contains(n)));
    numbers.sort();
    numbers.dedup();
    assert_eq!(numbers.len(), 255);
}

#[test]
fn nothing_is_sent_if_not_even_an_empty_list_fits() {
    let (mut node, mut table) = start(50 * S);
    let too_long = |_: &SwimEnvelope| vec![7; 10240];
    let request = SwimMessage::KnownPeersRequest { mesh_fingerprint: 3, num_peers: 9 };
    let actions = node.handle_incoming_message(
        &mut table,
        peer(2),
        envelope("p2", request),
        51 * S,
        mix,
        &too_long,
    );
    assert_eq!(actions.len(), 1);
    assert!(matches!(sent(&actions[0]).1.msg, SwimMessage::KnownPeersRequest { .. }));
    assert!(node.fit_peers(peer_identities(&table), &too_long).is_none());
    assert_eq!(node.fit_peers(peer_identities(&table), &serialize).unwrap().len(), 96);
}

#[test]
fn newcomers_are_not_told_of_suspects() {
    let (mut node, mut table) = start(50 * S);
    table.insert(peer(2), known(2, 20 * S));
    table.insert(peer(3), suspect(3, 50 * S));
    let action = node.send_known_peers_to_peer(&table, peer(9), &serialize).unwrap();
    assert_eq!(listed(&action), (peer(9), vec![1, 2]));
    assert_eq!(confident_identities(&table).keys(), vec![peer(1), peer(2)]);
    let mut suspects: KnownPeers = ObservableHashMap::new();
    suspects.insert(peer(3), suspect(3, 50 * S));
    assert!(node.send_known_peers_to_peer(&suspects, peer(9), &serialize).is_none());
}

#[test]
fn the_draw_decides_whether_an_answer_is_sent() {
    let (mut node, mut table) = start(50 * S);
    let newcomer = Answer::KnownPeers(peer(9));
    let probe = Answer::ProbeResponse(peer(9));
    for answer in [newcomer, probe] {
        assert!(node.answer_with(&table, answer, false, &serialize).is_some());
    }
    for n in 2..6 {
        table.insert(peer(n), known(n, 50 * S));
    }
    for answer in [newcomer, probe] {
        assert!(node.answer_with(&table, answer, false, &serialize).is_none());
    }
    let list = node.answer_with(&table, newcomer, true, &serialize).unwrap();
    assert_eq!(listed(&list), (peer(9), vec![1, 2, 3, 4, 5]));
    assert!(matches!(
        node.answer_with(&table, probe, true, &serialize),
        Some(Action::AnswerProbe { to, response }) if to == peer(9) && response.identity == id("me")
    ));
    assert!(node.answer_with(&table, Answer::Nothing, true, &serialize).is_none());
    assert!(node.respond_to_probe_with(&table, peer(9), false).is_none());
    assert!(node.respond_to_probe_with(&table, peer(9), true).is_some());
    assert!(node.send_known_peers_with(&table, peer(9), false, &serialize).is_none());
    assert!(node.send_known_peers_with(&table, peer(9), true, &serialize).is_some());
}

#[test]
fn hearsay_stays_hearsay_until_the_peer_is_heard() {
    let (mut node, mut table) = start(50 * S);
    let mut peers: VecMap<Peer, Bytes> = VecMap::new();
    peers.insert(peer(4), id("p4"));
    for at in [51 * S, 60 * S] {
        node.handle_incoming_message(
            &mut table,
            peer(2),
            envelope("p2", SwimMessage::KnownPeers(peers.clone())),
            at,
            mix,
            &serialize,
        );
    }
    node.ping_peer(&mut table, peer(4), 60 * S);
    node.handle_suspected_peers(&mut table, 62 * S);
    assert_eq!(state(&table, peer(4)), PeerState::WaitingForIndirectPing(62 * S));
    let join = SwimBroadcast::Join { addr: peer(5), identity: id("p5") };
    node.note_broadcast(&mut table, peer(5), join, 62 * S);
    let request = asks(&table);
    let actions = node.handle_incoming_message(
        &mut table,
        peer(2),
        envelope("p2", request),
        62 * S,
        mix,
        &serialize,
    );
    assert_eq!(listed(&actions[0]), (peer(2), vec![5]));
    let ack = SwimMessage::Ack {
        peer: peer(4),
        mesh_fingerprint: generate_fingerprint(&table),
        num_peers: 4,
    };
    node.handle_incoming_message(&mut table, peer(2), envelope("p2", ack), 63 * S, mix, &serialize);
    let request = asks(&table);
    let actions = node.handle_incoming_message(
        &mut table,
        peer(2),
        envelope("p2", request),
        63 * S,
        mix,
        &serialize,
    );
    assert_eq!(listed(&actions[0]), (peer(2), vec![4, 5]));
}

#[test]
fn the_own_entry_stays() {
    let (mut node, mut table) = start(50 * S);
    let mut peers: VecMap<Peer, Bytes> = VecMap::new();
    peers.insert(peer(1), id("someone else"));
    node.handle_incoming_message(
        &mut table,
        peer(2),
        envelope("p2", SwimMessage::KnownPeers(peers)),
        51 * S,
        mix,
        &serialize,
    );
    let join = SwimBroadcast::Join { addr: peer(1), identity: id("someone else") };
    node.note_broadcast(&mut table, peer(2), join, 51 * S);
    node.note_broadcast(&mut table, peer(2), SwimBroadcast::Failed(peer(1)), 51 * S);
    for at in 51..90 {
        node.tick(&mut table, &vec![], at * S);
    }
    assert_eq!(table.keys(), vec![peer(1)]);
    assert!(matches!(state(&table, peer(1)), PeerState::Known(_)));
    assert_eq!(table.get(&peer(1)).unwrap().identity, id("me"));
}
