//! The arrival reconciliation rule, the per-session watch state machine,
//! and the table of running watches.

use std::collections::HashMap;
use vstd::prelude::*;

use crate::feed::StaticFeed;
use crate::query::{is_forward, trip_list, LookupError};

verus! {

/// What one polling tick decides.
#[derive(Debug, PartialEq, Eq, Structural, Clone, Copy)]
pub enum Decision {
    /// No vehicle is close enough yet.
    KeepWaiting,
    /// Leave now: a live forecast says so.
    NotifyLive,
    /// Leave now: with no usable forecast, the timetable says so.
    NotifySchedule,
}

/// The walking time, in seconds.
pub open spec fn lead_seconds(leeway_minutes: u64) -> int {
    leeway_minutes * 60
}

/// Whether some forecast waiting time leaves time to walk to the stop.
pub open spec fn has_live(waits: Seq<i64>, leeway_minutes: u64) -> bool {
    exists|i: int| 0 <= i < waits.len() && #[trigger] waits[i] - lead_seconds(leeway_minutes) > 0
}

/// Whether some usable forecast waiting time is within a minute of the
/// moment to leave.
pub open spec fn live_fires(waits: Seq<i64>, leeway_minutes: u64) -> bool {
    exists|i: int|
        0 <= i < waits.len() && 0 < #[trigger] waits[i] - lead_seconds(leeway_minutes) < 60
}

/// Whether some timetable arrival falls less than a minute after
/// `now` plus the walking time.
pub open spec fn schedule_fires(timetable: Seq<i64>, leeway_minutes: u64, now: i64) -> bool {
    exists|i: int|
        0 <= i < timetable.len() && 0 < #[trigger] timetable[i] - (now + lead_seconds(
            leeway_minutes,
        )) < 60
}

/// The decision of one tick: live data, where some is usable, decides
/// alone; otherwise the timetable does.
pub open spec fn decide(waits: Seq<i64>, timetable: Seq<i64>, leeway_minutes: u64, now: i64) -> Decision {
    if has_live(waits, leeway_minutes) {
        if live_fires(waits, leeway_minutes) {
            Decision::NotifyLive
        } else {
            Decision::KeepWaiting
        }
    } else if schedule_fires(timetable, leeway_minutes, now) {
        Decision::NotifySchedule
    } else {
        Decision::KeepWaiting
    }
}

/// Decides one tick from the forecast waiting times (seconds) and the
/// timetable (timestamps), with a walking time of `leeway_minutes`.
pub fn reconcile(waits: &Vec<i64>, timetable: &Vec<i64>, leeway_minutes: u64, now: i64) -> (r: Decision)
    ensures
        r == decide(waits@, timetable@, leeway_minutes, now),
{
    let lead: i128 = leeway_minutes as i128 * 60;
    let mut live = false;
    let mut fire = false;
    let mut i: usize = 0;
    while i < waits.len()
        invariant
            i <= waits@.len(),
            lead == lead_seconds(leeway_minutes),
            live == exists|j: int| 0 <= j < i && #[trigger] waits@[j] - lead_seconds(leeway_minutes) > 0,
            fire == exists|j: int|
                0 <= j < i && 0 < #[trigger] waits@[j] - lead_seconds(leeway_minutes) < 60,
        decreases waits@.len() - i,
    {
        let left: i128 = waits[i] as i128 - lead;
        if left > 0 {
            live = true;
            if left < 60 {
                fire = true;
            }
        }
        i = i + 1;
    }
    if live {
        return if fire {
            Decision::NotifyLive
        } else {
            Decision::KeepWaiting
        };
    }
    let threshold: i128 = now as i128 + lead;
    let mut k: usize = 0;
    assert(!has_live(waits@, leeway_minutes));
    while k < timetable.len()
        invariant
            !has_live(waits@, leeway_minutes),
            k <= timetable@.len(),
            threshold == now + lead_seconds(leeway_minutes),
            forall|j: int| 0 <= j < k ==> !(0 < #[trigger] timetable@[j] - threshold < 60),
        decreases timetable@.len() - k,
    {
        let ahead: i128 = timetable[k] as i128 - threshold;
        if 0 < ahead && ahead < 60 {
            assert(0 < timetable@[k as int] - (now + lead_seconds(leeway_minutes)) < 60);
            return Decision::NotifySchedule;
        }
        k = k + 1;
    }
    Decision::KeepWaiting
}

/// Live data suppresses the timetable: where some forecast waiting time
/// leaves time to walk and none is within a minute of the moment to leave,
/// the tick keeps waiting, whatever the timetable holds.
pub proof fn lemma_live_precedence(waits: Seq<i64>, timetable: Seq<i64>, leeway_minutes: u64, now: i64)
    requires
        has_live(waits, leeway_minutes),
        forall|i: int|
            0 <= i < waits.len() && waits[i] - lead_seconds(leeway_minutes) > 0 ==> waits[i] - lead_seconds(
                leeway_minutes,
            ) >= 60,
    ensures
        decide(waits, timetable, leeway_minutes, now) == Decision::KeepWaiting,
{
}

/// The timetable fallback fires for an arrival 59 seconds past `now` plus
/// the walking time, and not for one 60 seconds past it, when no forecast
/// is usable.
pub proof fn lemma_fallback_boundary(leeway_minutes: u64, now: i64, t: i64)
    requires
        !has_live(seq![], leeway_minutes),
    ensures
        t == now + lead_seconds(leeway_minutes) + 59 ==> decide(seq![], seq![t], leeway_minutes, now)
            == Decision::NotifySchedule,
        t == now + lead_seconds(leeway_minutes) + 60 ==> decide(seq![], seq![t], leeway_minutes, now)
            == Decision::KeepWaiting,
{
    if t == now + lead_seconds(leeway_minutes) + 59 {
        assert(0 < seq![t][0] - (now + lead_seconds(leeway_minutes)) < 60);
    }
}

/// Where a watch stands.
#[derive(Debug, PartialEq, Eq, Structural, Clone, Copy)]
pub enum WatchPhase {
    Watching,
    Fired,
    Cancelled,
}

/// One watch: a route, stop and direction, a walking time, and the
/// timetable computed when the watch started.
#[derive(Debug)]
pub struct Watch {
    pub route_id: String,
    pub stop_id: String,
    pub direction: String,
    pub leeway_minutes: u64,
    pub timetable: Vec<i64>,
    pub phase: WatchPhase,
}

impl Watch {
    /// Starts a watch: computes the timetable of arrivals after `now` once.
    /// Fails where the route has no trips in that direction, or one of them
    /// has no stop times.
    pub fn start(
        feed: &StaticFeed,
        route_id: String,
        stop_id: String,
        direction: String,
        leeway_minutes: u64,
        now: i64,
    ) -> (r: Result<Watch, LookupError>)
        requires
            feed.wf(),
        ensures
            match trip_list(feed@, route_id@, is_forward(direction@)) {
                Some(trips) if trips.len() > 0 && crate::query::all_have_stops(
                    trips,
                    feed@.stop_times,
                ) => r matches Ok(w) && w.phase == WatchPhase::Watching
                    && w.route_id@ == route_id@ && w.stop_id@ == stop_id@ && w.direction@
                    == direction@ && w.leeway_minutes == leeway_minutes && crate::query::ascending(
                    w.timetable@,
                ) && w.timetable@.to_multiset() == crate::query::arrivals_of(
                    trips,
                    feed@.stop_times,
                    stop_id@,
                    now,
                ).to_multiset(),
                _ => r == Err::<Watch, LookupError>(LookupError::NotFound),
            },
    {
        match crate::query::arrival_timetable(feed, &route_id, direction.as_str(), &stop_id, now) {
            Ok(timetable) => Ok(
                Watch { route_id, stop_id, direction, leeway_minutes, timetable, phase: WatchPhase::Watching },
            ),
            Err(e) => Err(e),
        }
    }

    /// One polling tick. `waits` is the forecast's waiting times, or `None`
    /// where fetching it failed, which counts as no live data. A watch that
    /// fired or was cancelled stays so and decides nothing.
    pub fn poll(&mut self, waits: Option<&Vec<i64>>, now: i64) -> (r: Decision)
        ensures
            final(self).route_id == old(self).route_id,
            final(self).stop_id == old(self).stop_id,
            final(self).direction == old(self).direction,
            final(self).leeway_minutes == old(self).leeway_minutes,
            final(self).timetable == old(self).timetable,
            old(self).phase != WatchPhase::Watching ==> r == Decision::KeepWaiting
                && final(self).phase == old(self).phase,
            old(self).phase == WatchPhase::Watching ==> {
                &&& r == decide(
                    match waits {
                        Some(w) => w@,
                        None => seq![],
                    },
                    old(self).timetable@,
                    old(self).leeway_minutes,
                    now,
                )
                &&& final(self).phase == if r == Decision::KeepWaiting {
                    WatchPhase::Watching
                } else {
                    WatchPhase::Fired
                }
            },
    {
        if self.phase != WatchPhase::Watching {
            return Decision::KeepWaiting;
        }
        let none: Vec<i64> = Vec::new();
        let w = match waits {
            Some(w) => w,
            None => &none,
        };
        let d = reconcile(w, &self.timetable, self.leeway_minutes, now);
        if d != Decision::KeepWaiting {
            self.phase = WatchPhase::Fired;
        }
        d
    }

    /// Cancels a running watch; one that fired or was cancelled stays so.
    pub fn cancel(&mut self)
        ensures
            final(self).phase == if old(self).phase == WatchPhase::Watching {
                WatchPhase::Cancelled
            } else {
                old(self).phase
            },
            final(self).timetable == old(self).timetable,
    {
        if self.phase == WatchPhase::Watching {
            self.phase = WatchPhase::Cancelled;
        }
    }
}

/// The running watch of each session, by session id: at most one per
/// session. `H` is whatever cancels a running watch.
pub struct WatchRegistry<H> {
    pub tasks: HashMap<i64, H>,
}

impl<H> WatchRegistry<H> {
    pub open spec fn view(&self) -> Map<i64, H> {
        self.tasks@
    }

    /// An empty table.
    pub fn new() -> (r: WatchRegistry<H>)
        ensures
            r@ == Map::<i64, H>::empty(),
    {
        broadcast use vstd::std_specs::hash::group_hash_axioms;
        WatchRegistry { tasks: HashMap::new() }
    }

    /// Makes `handle` the session's watch, in one step, and hands back the
    /// watch it replaces, which the caller cancels before the new one polls.
    pub fn start(&mut self, session: i64, handle: H) -> (prev: Option<H>)
        ensures
            final(self)@ == old(self)@.insert(session, handle),
            prev == if old(self)@.contains_key(session) {
                Some(old(self)@[session])
            } else {
                None
            },
    {
        broadcast use vstd::std_specs::hash::group_hash_axioms;
        self.tasks.insert(session, handle)
    }

    /// Removes the session's watch and hands it back to be cancelled.
    pub fn cancel(&mut self, session: i64) -> (prev: Option<H>)
        ensures
            final(self)@ == old(self)@.remove(session),
            prev == if old(self)@.contains_key(session) {
                Some(old(self)@[session])
            } else {
                None
            },
    {
        broadcast use vstd::std_specs::hash::group_hash_axioms;
        self.tasks.remove(&session)
    }
}

/// Starting watch B for a session that has watch A hands A back to be
/// cancelled, and leaves B as the session's only watch.
pub proof fn lemma_start_replaces<H>(m: Map<i64, H>, session: i64, a: H, b: H)
    requires
        m.contains_key(session),
        m[session] == a,
    ensures
        m.insert(session, b)[session] == b,
        m.insert(session, b).dom() == m.dom(),
{
    assert(m.insert(session, b).dom() =~= m.dom());
}

} // verus!
