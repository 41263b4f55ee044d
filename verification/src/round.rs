//! One round of mesh maintenance.
use crate::action::{action_views, actions_wf, push_action, Action, ActionView};
use crate::addr::Peer;
use crate::kaboodle::{KaboodleInner, Node, Step};
use crate::structs::{KnownPeers, PeerState, SwimBroadcast, SwimBroadcastView, SwimMessageView};
use crate::suspicion::{are_samples, helpers, may_be_pinged, on_suspicion};
use crate::table::{table, Table};
use crate::time::Instant;
use vstd::prelude::*;

verus! {

/// What is to be sent at the start of a round, in this order.
#[derive(Debug)]
pub struct Round {
    /// The announcement of this instance, if it is due.
    pub join: Option<SwimBroadcast>,
    /// What is done about the peers that do not answer.
    pub suspicion: Vec<Action>,
    /// The peer that is pinged, and the ping.
    pub ping: Option<(Peer, Action)>,
    /// The pings that were asked for.
    pub requested: Vec<Action>,
}

/// The instance once it has announced itself, if that was due.
pub open spec fn after_join(node: Node, t: Table, now: Instant) -> Node {
    if node.join_is_due(t, now) {
        Node { last_broadcast_time: Some(now), ..node }
    } else {
        node
    }
}

/// The announcement of an instance.
pub open spec fn join_message(node: Node) -> SwimBroadcastView {
    SwimBroadcastView::Join { addr: node.self_addr, identity: node.identity }
}

/// The pings to the given addresses.
pub open spec fn pings(node: Node, targets: Seq<Peer>) -> Seq<ActionView> {
    targets.map_values(|target: Peer| node.send(target, SwimMessageView::Ping))
}

/// `ping` is the ping of a round, and `after` the table behind it.
pub open spec fn is_ping(
    node: Node,
    t: Table,
    now: Instant,
    ping: Option<(Peer, Action)>,
    after: Table,
) -> bool {
    match ping {
        Some((target, action)) => {
            &&& may_be_pinged(node, t, target)
            &&& action.wf()
            &&& action@ == node.send(target, SwimMessageView::Ping)
            &&& after == t.set_state(target, PeerState::WaitingForPing(now))
        },
        None => {
            &&& helpers(node, t).len() == 0
            &&& after == t
        },
    }
}

/// `round` is what an instance sends at the start of a round: it announces itself, if that is due,
/// looks after the peers that do not answer, with `asked` saying whom it asks about each of them,
/// pings one of the others, and pings whoever it was asked to ping. `node2` and `t2` are the instance
/// and the table behind it.
pub open spec fn is_round(
    node: Node,
    t: Table,
    ping_requests: Seq<Peer>,
    now: Instant,
    asked: Seq<Seq<Peer>>,
    round: Round,
    node2: Node,
    t2: Table,
) -> bool {
    let announced = after_join(node, t, now);
    let step = on_suspicion(announced, t, now, asked);
    &&& match round.join {
        Some(msg) => node.join_is_due(t, now) && msg@ == join_message(node),
        None => !node.join_is_due(t, now),
    }
    &&& are_samples(announced, t, now, asked)
    &&& actions_wf(round.suspicion@)
    &&& action_views(round.suspicion@) == step.actions
    &&& node2 == step.node
    &&& is_ping(step.node, step.table, now, round.ping, t2)
    &&& actions_wf(round.requested@)
    &&& action_views(round.requested@) == pings(step.node, ping_requests)
}

impl KaboodleInner {
    /// Pings addresses in the hope to find new peers there.
    pub fn handle_incoming_ping_requests(&self, ping_requests: &Vec<Peer>) -> (r: Vec<Action>)
        ensures
            actions_wf(r@),
            action_views(r@) == pings(self@, ping_requests@),
    {
        let mut r: Vec<Action> = Vec::new();
        let mut i: usize = 0;
        assert(action_views(r@) =~= pings(self@, ping_requests@.take(0)));
        while i < ping_requests.len()
            invariant
                i <= ping_requests@.len(),
                actions_wf(r@),
                action_views(r@) == pings(self@, ping_requests@.take(i as int)),
            decreases ping_requests@.len() - i,
        {
            let ping = self.handle_incoming_ping_request(ping_requests[i]);
            push_action(&mut r, ping);
            assert(action_views(r@) =~= pings(self@, ping_requests@.take(i + 1)));
            i += 1;
        }
        assert(ping_requests@.take(i as int) =~= ping_requests@);
        r
    }

    /// Starts the next round of mesh maintenance. What follows in a round is the reading of incoming
    /// messages.
    pub fn tick(&mut self, known_peers: &mut KnownPeers, ping_requests: &Vec<Peer>, now: Instant) -> (r:
        Round)
        requires
            old(self).wf(),
            old(known_peers).wf(),
        ensures
            final(self).wf(),
            final(known_peers).wf(),
            exists|asked: Seq<Seq<Peer>>| #[trigger]
                is_round(
                    old(self)@,
                    table(*old(known_peers)),
                    ping_requests@,
                    now,
                    asked,
                    r,
                    final(self)@,
                    table(*final(known_peers)),
                ),
    {
        let ghost t = table(*known_peers);
        let join = self.maybe_broadcast_join(known_peers, now);
        let ghost node = self@;
        assert(node == after_join(old(self)@, t, now));
        let suspicion = self.handle_suspected_peers(known_peers, now);
        let ghost step = Step {
            node: self@,
            table: table(*known_peers),
            actions: action_views(suspicion@),
        };
        let ghost asked = choose|asked: Seq<Seq<Peer>>|
            #[trigger] are_samples(node, t, now, asked) && step == on_suspicion(
                node,
                t,
                now,
                asked,
            );
        let ping = self.ping_random_peer(known_peers, now);
        let requested = self.handle_incoming_ping_requests(ping_requests);
        let r = Round { join, suspicion, ping, requested };
        assert(is_round(
            old(self)@,
            t,
            ping_requests@,
            now,
            asked,
            r,
            self@,
            table(*known_peers),
        ));
        r
    }
}

} // verus!
