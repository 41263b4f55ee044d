//! Finding a member of a mesh without joining it.
use crate::addr::SocketAddr;
use crate::identity::bytes_of;
use crate::structs::{ProbeResponse, SwimBroadcast, SwimBroadcastView};
use crate::time::{duration_since, elapsed, Duration, Instant, MILLISECOND};
use bytes::Bytes;
use vstd::prelude::*;

verus! {

/// The size of the buffer for an answer. Longer messages are truncated.
pub const INCOMING_BUFFER_SIZE: usize = 1024;

/// How long to wait for an answer before the probe is sent for the second time.
pub const START_REBROADCAST_INTERVAL: Duration = 1_000_000_000;

/// How long to wait for an answer at most before the probe is sent again.
pub const MAX_REBROADCAST_INTERVAL: Duration = 10_000_000_000;

/// The next time to wait for an answer: a quarter longer, in whole milliseconds, up to a limit.
pub open spec fn next_interval(interval: Duration) -> Duration {
    let longer = ((interval / MILLISECOND) * 5 / 4) * MILLISECOND;
    if longer < MAX_REBROADCAST_INTERVAL {
        longer as u128
    } else {
        MAX_REBROADCAST_INTERVAL
    }
}

/// The time to wait for an answer after the first probe and so many more.
pub open spec fn interval_after(repeats: nat) -> Duration
    decreases repeats,
{
    if repeats == 0 {
        START_REBROADCAST_INTERVAL
    } else {
        next_interval(interval_after((repeats - 1) as nat))
    }
}

/// The mathematical content of a [`Discovery`].
pub ghost struct Search {
    /// The address to which members are to answer.
    pub addr: SocketAddr,
    /// When the probe was last sent.
    pub last_broadcast: Option<Instant>,
    /// The time to wait for an answer after that.
    pub interval: Duration,
}

impl Search {
    /// The time to wait stays within its limits.
    pub open spec fn wf(self) -> bool {
        START_REBROADCAST_INTERVAL <= self.interval <= MAX_REBROADCAST_INTERVAL
    }

    /// How long to wait before the probe is to be sent: not at all at first, and then until the time
    /// to wait is over.
    pub open spec fn time_left(self, now: Instant) -> Duration {
        match self.last_broadcast {
            None => 0,
            Some(at) => if elapsed(now, at) < self.interval {
                (self.interval - elapsed(now, at)) as u128
            } else {
                0
            },
        }
    }

    /// The search once the probe is sent. Each repeat is followed by a longer wait.
    pub open spec fn probed(self, now: Instant) -> Search {
        Search {
            last_broadcast: Some(now),
            interval: match self.last_broadcast {
                None => self.interval,
                Some(_) => next_interval(self.interval),
            },
            ..self
        }
    }
}

/// A search that begins.
pub open spec fn new_search(addr: SocketAddr) -> Search {
    Search { addr, last_broadcast: None, interval: START_REBROADCAST_INTERVAL }
}

/// The search for a member of a mesh.
#[derive(Debug)]
pub struct Discovery {
    self_addr: SocketAddr,
    last_broadcast_time: Option<Instant>,
    rebroadcast_interval: Duration,
}

impl View for Discovery {
    type V = Search;

    closed spec fn view(&self) -> Search {
        Search {
            addr: self.self_addr,
            last_broadcast: self.last_broadcast_time,
            interval: self.rebroadcast_interval,
        }
    }
}

/// What came of waiting for an answer.
#[derive(Debug)]
pub enum Outcome {
    /// No answer came in time.
    TimedOut,
    /// The socket could not be read.
    ReadFailed,
    /// Something came that could not be understood.
    Unintelligible,
    /// The answer came from the given address.
    Received(SocketAddr, ProbeResponse),
}

impl Discovery {
    /// Begins a search.
    pub fn new(self_addr: SocketAddr) -> (r: Discovery)
        ensures
            r@.wf(),
            r@ == new_search(self_addr),
    {
        Discovery {
            self_addr,
            last_broadcast_time: None,
            rebroadcast_interval: START_REBROADCAST_INTERVAL,
        }
    }

    /// How long to wait for an answer before the probe is to be sent.
    pub fn time_left(&self, now: Instant) -> (r: Duration)
        ensures
            r == self@.time_left(now),
    {
        match self.last_broadcast_time {
            None => 0,
            Some(at) => {
                let waited: u128 = duration_since(now, at);
                if waited < self.rebroadcast_interval {
                    self.rebroadcast_interval - waited
                } else {
                    0
                }
            },
        }
    }

    /// The probe, if it is to be sent now: at first, and then whenever the time to wait is over.
    pub fn maybe_probe(&mut self, now: Instant) -> (r: Option<SwimBroadcast>)
        requires
            old(self)@.wf(),
        ensures
            final(self)@.wf(),
            match r {
                Some(msg) => {
                    &&& old(self)@.time_left(now) == 0
                    &&& msg@ == SwimBroadcastView::Probe(old(self)@.addr)
                    &&& final(self)@ == old(self)@.probed(now)
                },
                None => {
                    &&& old(self)@.time_left(now) > 0
                    &&& final(self)@ == old(self)@
                },
            },
    {
        if self.time_left(now) > 0 {
            return None;
        }
        if self.last_broadcast_time.is_some() {
            let longer: u128 = ((self.rebroadcast_interval / MILLISECOND) * 5 / 4) * MILLISECOND;
            self.rebroadcast_interval = if longer < MAX_REBROADCAST_INTERVAL {
                longer
            } else {
                MAX_REBROADCAST_INTERVAL
            };
        }
        self.last_broadcast_time = Some(now);
        Some(SwimBroadcast::Probe(self.self_addr))
    }

    /// The member that answered and its identity, if one did. If none did, the search goes on.
    pub fn handle_outcome(&self, outcome: Outcome) -> (r: Option<(SocketAddr, Bytes)>)
        ensures
            match outcome {
                Outcome::Received(sender, response) => r matches Some((member, identity)) && member
                    == sender && bytes_of(identity) == bytes_of(response.identity),
                _ => r is None,
            },
    {
        match outcome {
            Outcome::TimedOut => None,
            Outcome::ReadFailed => None,
            Outcome::Unintelligible => None,
            Outcome::Received(sender, response) => Some((sender, response.identity)),
        }
    }
}

/// The search once probes were sent at the given times.
pub open spec fn search_after(addr: SocketAddr, times: Seq<Instant>) -> Search
    decreases times.len(),
{
    if times.len() == 0 {
        new_search(addr)
    } else {
        search_after(addr, times.drop_last()).probed(times.last())
    }
}

/// Each of the probes was sent when it was to be sent, and without delay: the first at any time, and
/// each other one at the first moment at which there was no time left to wait.
pub open spec fn on_time(addr: SocketAddr, times: Seq<Instant>) -> bool {
    forall|i: int|
        0 < i < times.len() ==> {
            let before = search_after(addr, times.take(i));
            &&& before.time_left(#[trigger] times[i]) == 0
            &&& forall|earlier: Instant|
                times[i - 1] <= earlier < times[i] ==> #[trigger] before.time_left(earlier) > 0
        }
}

/// The time to wait never gets shorter, and stays within its limits.
pub proof fn law_interval_grows(repeats: nat)
    ensures
        START_REBROADCAST_INTERVAL <= interval_after(repeats) <= MAX_REBROADCAST_INTERVAL,
        interval_after(repeats) <= interval_after(repeats + 1),
    decreases repeats,
{
    if repeats > 0 {
        law_interval_grows((repeats - 1) as nat);
    }
    reveal_with_fuel(interval_after, 2);
}

/// Once the probe was repeated eleven times, the time to wait is the longest.
pub proof fn law_interval_levels_off(repeats: nat)
    requires
        repeats >= 11,
    ensures
        interval_after(repeats) == MAX_REBROADCAST_INTERVAL,
    decreases repeats,
{
    if repeats > 11 {
        law_interval_levels_off((repeats - 1) as nat);
    } else {
        reveal_with_fuel(interval_after, 12);
    }
}

/// Whenever probes were sent, the time to wait after the last of them is that which their number
/// calls for.
pub proof fn law_search_follows_its_intervals(addr: SocketAddr, times: Seq<Instant>)
    ensures
        search_after(addr, times).addr == addr,
        search_after(addr, times).wf(),
        times.len() == 0 ==> search_after(addr, times) == new_search(addr),
        times.len() > 0 ==> {
            &&& search_after(addr, times).last_broadcast == Some(times.last())
            &&& search_after(addr, times).interval == interval_after((times.len() - 1) as nat)
        },
    decreases times.len(),
{
    if times.len() > 0 {
        law_search_follows_its_intervals(addr, times.drop_last());
        law_interval_grows((times.len() - 1) as nat);
    }
}

/// The first probe is sent at once. While no answer comes, the second follows after the first
/// interval, and each gap is the one that its number calls for, so that no gap is longer than the
/// longest interval.
pub proof fn law_gaps_between_probes(addr: SocketAddr, times: Seq<Instant>, i: int, now: Instant)
    requires
        forall|a: int, b: int| 0 <= a <= b < times.len() ==> times[a] <= times[b],
        on_time(addr, times),
        0 <= i < times.len() - 1,
    ensures
        new_search(addr).time_left(now) == 0,
        times[i + 1] - times[i] == interval_after(i as nat),
        times[i + 1] - times[i] <= MAX_REBROADCAST_INTERVAL,
        i == 0 ==> times[i + 1] - times[i] == START_REBROADCAST_INTERVAL,
{
    let before = search_after(addr, times.take(i + 1));
    law_search_follows_its_intervals(addr, times.take(i + 1));
    law_interval_grows(i as nat);
    assert(times.take(i + 1).last() == times[i]);
    assert(before.time_left(times[i + 1]) == 0);
    let gap = times[i + 1] - times[i];
    assert(gap >= before.interval);
    if gap > before.interval {
        let earlier: Instant = (times[i] + before.interval) as u128;
        assert(before.time_left(earlier) > 0);
    }
}

} // verus!
