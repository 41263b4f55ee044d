use kaboodle::addr::{Peer, SocketAddr};
use kaboodle::gossip::{required_delay, Action, Gossip, PeerState, SwimMessage};

const S: u128 = 1_000_000_000;
const MS: u128 = 1_000_000;

fn peer(n: u32) -> Peer {
    SocketAddr::V4 { ip: 0x0a00_0000 + n, port: 80 }
}

fn member() -> Gossip {
    Gossip::new(SocketAddr::V4 { ip: 0x0a00_0001, port: 7475 }, rand::thread_rng())
}

fn own() -> Peer {
    SocketAddr::V4 { ip: 0x0a00_0001, port: 7475 }
}

fn sends(actions: &Vec<Action>) -> Vec<Peer> {
    actions
        .iter()
        .map(|action| match action {
            Action::Send(to, _) => *to,
            Action::Broadcast(_) => panic!("not a message to one peer"),
        })
        .collect()
}

#[test]
fn hashes_of_the_hosts() {
    let mut m = member();
    assert_eq!(m.get_self_addr(), own());
    assert_eq!(m.fingerprint_text(), "10.0.0.1:7475");
    assert_eq!(
        m.get_fingerprint(),
        "11d747175601ddee639250b184aee396e69be1386a4fdbef8b86a6eb9dcc3823"
    );
    m.handle_message(peer(9), SwimMessage::KnownPeers(vec![peer(9), peer(10)]));
    assert_eq!(m.fingerprint_text(), "10.0.0.10:80,10.0.0.1:7475,10.0.0.9:80");
    assert_eq!(
        m.get_fingerprint(),
        "e61b3099592a688e7f913cf66e4f25985bd273497653409c01b6805834f0a59a"
    );
    let mut other = member();
    other.handle_message(peer(9), SwimMessage::KnownPeers(vec![peer(10), peer(9)]));
    assert_eq!(m.get_fingerprint(), other.get_fingerprint());
}

#[test]
fn members_announce_themselves_while_alone() {
    let mut m = member();
    assert!(matches!(
        m.maybe_broadcast_join(50 * S)[..],
        [Action::Broadcast(SwimMessage::Join(p))] if p == own()
    ));
    assert!(m.maybe_broadcast_join(60 * S - 1).is_empty());
    assert_eq!(m.maybe_broadcast_join(60 * S).len(), 1);
    m.handle_message(peer(2), SwimMessage::Ping);
    assert!(m.maybe_broadcast_join(90 * S).is_empty());
}

#[test]
fn newcomers_are_told_of_everyone_else() {
    let mut m = member();
    m.handle_message(peer(2), SwimMessage::Ping);
    let actions = m.handle_broadcast(SwimMessage::Join(peer(3)));
    assert_eq!(actions.len(), 1);
    assert!(matches!(
        &actions[0],
        Action::Send(to, SwimMessage::KnownPeers(peers))
            if *to == peer(3) && *peers == vec![own(), peer(2)]
    ));
    assert_eq!(m.get_peers().keys(), vec![own(), peer(2), peer(3)]);
    assert!(m.handle_broadcast(SwimMessage::Join(own())).is_empty());
    assert!(m.handle_broadcast(SwimMessage::Ping).is_empty());
}

#[test]
fn failures_of_others_are_believed() {
    let mut m = member();
    m.handle_message(peer(2), SwimMessage::Ping);
    m.handle_broadcast(SwimMessage::Failed(own()));
    m.handle_broadcast(SwimMessage::Failed(peer(2)));
    assert_eq!(m.get_peers().keys(), vec![own()]);
}

#[test]
fn answers_reach_whoever_asked() {
    let mut m = member();
    assert_eq!(sends(&m.handle_message(peer(2), SwimMessage::PingRequest(peer(3)))), vec![peer(3)]);
    m.handle_message(peer(2), SwimMessage::PingRequest(peer(3)));
    m.handle_message(peer(4), SwimMessage::PingRequest(peer(3)));
    assert!(m.get_peers().get(&peer(2)).is_none());
    let told = m.handle_message(peer(3), SwimMessage::Ack(peer(3)));
    assert_eq!(sends(&told), vec![peer(2), peer(4)]);
    assert_eq!(m.get_peers().get(&peer(3)), Some(&PeerState::Known));
    assert!(m.handle_message(peer(3), SwimMessage::Ack(peer(3))).is_empty());
    assert!(m.handle_message(peer(3), SwimMessage::Join(peer(8))).is_empty());
    assert_eq!(sends(&m.handle_message(peer(5), SwimMessage::Ping)), vec![peer(5)]);
}

#[test]
fn the_silent_are_found_out() {
    let mut m = member();
    m.handle_message(peer(2), SwimMessage::Ping);
    m.handle_message(peer(3), SwimMessage::Ping);
    m.ping_peer(Some(peer(2)), 50 * S);
    assert_eq!(m.get_peers().get(&peer(2)), Some(&PeerState::WaitingForPing(50 * S)));
    assert!(m.handle_suspected_peers(52 * S - 1).is_empty());
    let judgement = m.judge_peers(52 * S);
    assert_eq!(judgement.helpers, vec![peer(3)]);
    assert_eq!(judgement.asked_about, vec![peer(2)]);
    let asked = m.act_on_judgement(judgement, vec![vec![peer(3)]], 52 * S);
    assert!(matches!(
        asked[..],
        [Action::Send(p, SwimMessage::PingRequest(q))] if p == peer(3) && q == peer(2)
    ));
    assert_eq!(m.get_peers().get(&peer(2)), Some(&PeerState::WaitingForIndirectPing(52 * S)));
    let given_up = m.handle_suspected_peers(54 * S);
    assert!(matches!(
        given_up[..],
        [Action::Broadcast(SwimMessage::Failed(p))] if p == peer(2)
    ));
    assert_eq!(m.get_peers().keys(), vec![own(), peer(3)]);
}

#[test]
fn a_member_does_not_ask_itself() {
    let mut m = member();
    m.handle_message(peer(2), SwimMessage::Ping);
    m.ping_peer(Some(peer(2)), 50 * S);
    assert!(m.judge_peers(52 * S).helpers.is_empty());
    let given_up = m.handle_suspected_peers(52 * S);
    assert!(matches!(
        given_up[..],
        [Action::Broadcast(SwimMessage::Failed(p))] if p == peer(2)
    ));
    assert_eq!(m.get_peers().keys(), vec![own()]);
}

#[test]
fn every_suspect_is_asked_about_while_there_are_helpers() {
    let mut m = member();
    for n in 2..9 {
        m.handle_message(peer(n), SwimMessage::Ping);
    }
    m.ping_peer(Some(peer(2)), 50 * S);
    m.ping_peer(Some(peer(3)), 50 * S);
    let asked = m.handle_suspected_peers(52 * S);
    assert_eq!(asked.len(), 6);
    for action in asked {
        assert!(matches!(
            action,
            Action::Send(p, SwimMessage::PingRequest(q))
                if p != own() && p != peer(2) && p != peer(3) && (q == peer(2) || q == peer(3))
        ));
    }
}

#[test]
fn a_round_of_gossip() {
    let mut m = member();
    let actions = m.tick(
        50 * S,
        50 * S,
        vec![SwimMessage::Join(peer(2))],
        vec![(peer(2), SwimMessage::Ping)],
    );
    assert_eq!(actions.len(), 4);
    assert!(matches!(actions[0], Action::Broadcast(SwimMessage::Join(_))));
    assert!(matches!(actions[1], Action::Send(p, SwimMessage::KnownPeers(_)) if p == peer(2)));
    assert!(matches!(actions[2], Action::Send(p, SwimMessage::Ack(q)) if p == peer(2) && q == own()));
    assert!(matches!(actions[3], Action::Send(p, SwimMessage::Ping) if p == peer(2)));
    assert_eq!(m.get_peers().get(&peer(2)), Some(&PeerState::WaitingForPing(50 * S)));
    let later = m.tick(52 * S, 52 * S, vec![], vec![(peer(3), SwimMessage::Ping)]);
    assert_eq!(later.len(), 3);
    assert!(matches!(later[0], Action::Send(p, SwimMessage::Ack(_)) if p == peer(3)));
    assert!(matches!(
        later[1],
        Action::Send(p, SwimMessage::PingRequest(q)) if p == peer(3) && q == peer(2)
    ));
    assert!(matches!(later[2], Action::Send(p, SwimMessage::Ping) if p == peer(3)));
    assert!(m.ping_random_peer(52 * S).is_empty());
}

#[test]
fn what_is_left_of_a_period_is_slept() {
    assert_eq!(required_delay(0), Some(S));
    assert_eq!(required_delay(S - MS), Some(MS));
    assert_eq!(required_delay(S - MS + 1), None);
    assert_eq!(required_delay(S), None);
    assert_eq!(required_delay(S + 1), None);
    assert_eq!(required_delay(50 * S), None);
}

#[test]
fn names_of_states_of_gossip() {
    assert_eq!(PeerState::Known.to_string(), "Known");
    assert_eq!(PeerState::WaitingForPing(1).to_string(), "WaitingForPing");
    assert_eq!(PeerState::WaitingForIndirectPing(1).to_string(), "WaitingForIndirectPing");
}
