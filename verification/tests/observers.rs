use bytes::Bytes;
use kaboodle::addr::{Peer, SocketAddr};
use kaboodle::map::VecMap;
use kaboodle::observable_hashmap::{Event, ObservableHashMap};
use kaboodle::structs::{KnownPeers, PeerInfo, PeerState};
use kaboodle::table::{forget_peer, put_peer, set_peer_state};
use std::cell::RefCell;

fn names(map: &ObservableHashMap<u32, u64>) -> Vec<u32> {
    map.keys()
}

#[test]
fn keys_keep_the_order_of_arrival() {
    let mut map: VecMap<u32, u64> = VecMap::new();
    assert!(map.is_empty());
    assert_eq!(map.insert(5, 50), None);
    assert_eq!(map.insert(3, 30), None);
    assert_eq!(map.insert(9, 90), None);
    assert_eq!(map.insert(3, 31), Some(30));
    assert_eq!(map.keys(), vec![5, 3, 9]);
    assert_eq!(map.remove(&5), Some(50));
    assert_eq!(map.remove(&5), None);
    assert_eq!(map.keys(), vec![3, 9]);
    assert_eq!(map.get(&3), Some(&31));
    assert_eq!(map.get(&5), None);
    assert_eq!(map.len(), 2);
    assert_eq!(map.clone().iter(), &vec![(3, 31), (9, 90)]);
}

#[test]
fn changes_are_told() {
    let mut map: ObservableHashMap<u32, u64> = ObservableHashMap::new();
    map.insert(1, 10);
    assert!(map.take_notices().is_empty());
    let observer = map.add_observer();
    map.insert(2, 20);
    map.insert(2, 21);
    map.remove(&1);
    map.remove(&1);
    let notices = map.take_notices();
    assert_eq!(notices.len(), 3);
    assert!(matches!(notices[0].event, Event::Added(2)));
    assert!(matches!(notices[1].event, Event::Updated(2, 20, 21)));
    assert!(matches!(notices[2].event, Event::Removed(1)));
    assert_eq!(notices[0].observers, vec![observer]);
    assert!(map.take_notices().is_empty());
}

#[test]
fn updates_that_change_nothing_are_not_told() {
    let mut map: ObservableHashMap<u32, u64> = ObservableHashMap::new();
    map.add_observer();
    assert!(!map.update(&7, |v| v + 1));
    map.insert(7, 1);
    assert!(map.update(&7, |v| v + 1));
    assert!(!map.update(&7, |v| v));
    assert_eq!(map.get(&7), Some(&2));
    let notices = map.take_notices();
    assert_eq!(notices.len(), 2);
    assert!(matches!(notices[1].event, Event::Updated(7, 1, 2)));
}

#[test]
fn closed_observers_are_dropped_and_others_stay() {
    let mut map: ObservableHashMap<u32, u64> = ObservableHashMap::new();
    let a = map.add_observer();
    let b = map.add_observer();
    let c = map.add_observer();
    map.observer_closed(a);
    map.observer_closed(b);
    map.insert(1, 1);
    let notices = map.take_notices();
    assert_eq!(notices.len(), 1);
    assert_eq!(notices[0].observers, vec![c]);
    let d = map.add_observer();
    assert!(d != a && d != b && d != c);
}

#[test]
fn notices_are_delivered_once_and_in_order() {
    let mut map: ObservableHashMap<u32, u64> = ObservableHashMap::new();
    let a = map.add_observer();
    let b = map.add_observer();
    map.insert(1, 10);
    let c = map.add_observer();
    map.insert(2, 20);
    map.remove(&1);
    let told: RefCell<Vec<(u64, u32)>> = RefCell::new(Vec::new());
    let send = |observer: u64, event: &Event<u32, u64>| {
        let key = match event {
            Event::Added(k) => *k,
            Event::Updated(k, _, _) => *k,
            Event::Removed(k) => 100 + *k,
        };
        told.borrow_mut().push((observer, key));
        observer != b
    };
    map.deliver(&send);
    assert_eq!(told.take(), vec![
        (a, 1), (b, 1), (a, 2), (b, 2), (c, 2), (a, 101), (b, 101), (c, 101)
    ]);
    map.deliver(&send);
    assert!(told.take().is_empty());
    map.insert(3, 30);
    map.deliver(&send);
    assert_eq!(told.take(), vec![(a, 3), (c, 3)]);
}

#[test]
fn newcomers_are_told_of_nothing_from_before() {
    let mut map: ObservableHashMap<u32, u64> = ObservableHashMap::new();
    let a = map.add_observer();
    map.insert(1, 10);
    let b = map.add_observer();
    let notices = map.take_notices();
    assert_eq!(notices.len(), 1);
    assert_eq!(notices[0].observers, vec![a]);
    assert!(a != b);
}

#[test]
fn all_that_are_closed_are_dropped_at_once() {
    let mut map: ObservableHashMap<u32, u64> = ObservableHashMap::new();
    let ids: Vec<u64> = (0..5).map(|_| map.add_observer()).collect();
    map.insert(1, 10);
    let told: RefCell<Vec<u64>> = RefCell::new(Vec::new());
    let closed = vec![ids[0], ids[1], ids[3]];
    let send = |observer: u64, _: &Event<u32, u64>| {
        told.borrow_mut().push(observer);
        !closed.contains(&observer)
    };
    map.deliver(&send);
    assert_eq!(told.take(), ids);
    assert_eq!(map.get(&1), Some(&10));
    map.insert(2, 20);
    map.deliver(&send);
    assert_eq!(told.take(), vec![ids[2], ids[4]]);
}

#[test]
fn copies_have_no_observers() {
    let mut map: ObservableHashMap<u32, u64> = ObservableHashMap::default();
    map.add_observer();
    map.insert(4, 40);
    let mut copy = map.clone();
    copy.insert(5, 50);
    assert!(copy.take_notices().is_empty());
    assert_eq!(names(&map), vec![4]);
    assert_eq!(names(&copy), vec![4, 5]);
    let plain: VecMap<u32, u64> = copy.into();
    assert_eq!(plain.len(), 2);
    let again = ObservableHashMap::from(plain);
    assert!(again.contains_key(&5) && !again.is_empty());
    assert_eq!(again.len(), 2);
    assert_eq!(again.iter()[0], (4, 40));
}

fn info(identity: &'static str, state: PeerState) -> PeerInfo {
    PeerInfo { identity: Bytes::from_static(identity.as_bytes()), state, latency: None }
}

#[test]
fn peers_that_differ_in_anything_differ() {
    let a = info("a", PeerState::Known(1));
    assert!(a == a.clone());
    assert!(a != info("b", PeerState::Known(1)));
    assert!(a != info("a", PeerState::Known(2)));
    assert!(a != info("a", PeerState::WaitingForPing(1)));
    let mut slow = a.clone();
    slow.latency = Some(5);
    assert!(a != slow);
}

#[test]
fn a_table_of_peers() {
    let peer: Peer = SocketAddr::V4 { ip: 1, port: 1 };
    let mut known: KnownPeers = ObservableHashMap::new();
    known.add_observer();
    assert!(put_peer(&mut known, peer, info("a", PeerState::Known(1))));
    assert!(!put_peer(&mut known, peer, info("b", PeerState::Known(2))));
    assert!(set_peer_state(&mut known, &peer, PeerState::WaitingForPing(3)));
    assert!(!set_peer_state(&mut known, &peer, PeerState::WaitingForPing(3)));
    assert_eq!(known.get(&peer).unwrap().identity, Bytes::from_static(b"b"));
    forget_peer(&mut known, &peer);
    assert!(!set_peer_state(&mut known, &peer, PeerState::Known(4)));
    let notices = known.take_notices();
    assert_eq!(notices.len(), 4);
    assert!(matches!(notices[3].event, Event::Removed(p) if p == peer));
}

#[test]
fn names_of_states() {
    assert_eq!(PeerState::Known(1).to_string(), "Known");
    assert_eq!(PeerState::WaitingForPing(1).to_string(), "WaitingForPing");
    assert_eq!(PeerState::WaitingForIndirectPing(1).to_string(), "WaitingForIndirectPing");
}
