//! What an instance asks its surroundings to do.
use crate::addr::Peer;
use crate::identity::bytes_of;
use crate::structs::{ProbeResponse, SwimBroadcast, SwimBroadcastView, SwimEnvelope, SwimMessageView};
use vstd::prelude::*;

verus! {

/// Something to be sent.
#[derive(Debug)]
pub enum Action {
    /// Send the message to the peer.
    Send { to: Peer, envelope: SwimEnvelope },
    /// Send the message to the entire mesh.
    Broadcast(SwimBroadcast),
    /// Send the answer to whoever sent the probe.
    AnswerProbe { to: Peer, response: ProbeResponse },
    /// Send the encoded message to the peer.
    SendBytes { to: Peer, bytes: Vec<u8> },
}

/// The mathematical content of an [`Action`].
pub ghost enum ActionView {
    Send { to: Peer, identity: Seq<u8>, msg: SwimMessageView },
    Broadcast(SwimBroadcastView),
    AnswerProbe { to: Peer, identity: Seq<u8> },
    SendBytes { to: Peer, bytes: Seq<u8> },
}

impl View for Action {
    type V = ActionView;

    open spec fn view(&self) -> ActionView {
        match *self {
            Action::Send { to, envelope } => ActionView::Send {
                to,
                identity: bytes_of(envelope.identity),
                msg: envelope.msg@,
            },
            Action::Broadcast(msg) => ActionView::Broadcast(msg@),
            Action::AnswerProbe { to, response } => ActionView::AnswerProbe {
                to,
                identity: bytes_of(response.identity),
            },
            Action::SendBytes { to, bytes } => ActionView::SendBytes { to, bytes: bytes@ },
        }
    }
}

impl Action {
    /// A list of peers that is sent names no peer twice.
    pub open spec fn wf(&self) -> bool {
        match *self {
            Action::Send { envelope, .. } => envelope.msg.wf(),
            _ => true,
        }
    }
}

/// The content of the actions.
pub open spec fn action_views(actions: Seq<Action>) -> Seq<ActionView> {
    actions.map_values(|action: Action| action@)
}

/// All actions are in order.
pub open spec fn actions_wf(actions: Seq<Action>) -> bool {
    forall|i: int| 0 <= i < actions.len() ==> (#[trigger] actions[i]).wf()
}

/// `actions`, then `action`.
pub fn push_action(actions: &mut Vec<Action>, action: Action)
    requires
        actions_wf(old(actions)@),
        action.wf(),
    ensures
        actions_wf(final(actions)@),
        action_views(final(actions)@) == action_views(old(actions)@).push(action@),
{
    actions.push(action);
    assert(action_views(actions@) =~= action_views(old(actions)@).push(action@));
}

} // verus!
