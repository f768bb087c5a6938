//! Queries on a snapshot: display names, route lookup, the stops of a
//! route, and the scheduled arrivals at a stop.

use vstd::prelude::*;
use vstd::relations::sorted_by;

use crate::feed::{FeedView, RouteInfo, StaticFeed};
use crate::table::{get, has_key, key_pos, keys_unique, lemma_get_at};
use crate::text::{
    chars_of, route_display, route_display_name, stop_display, stop_display_name, to_upper,
    upper_of,
};

verus! {

/// A key that the snapshot does not hold.
#[derive(Debug, PartialEq, Eq, Structural, Clone, Copy)]
pub enum LookupError {
    NotFound,
}

/// Whether a direction code names the forward direction: `"0"` does, any
/// other code names the backward one.
pub open spec fn is_forward(direction: Seq<char>) -> bool {
    direction == seq!['0']
}

/// The other direction code: `"1"` for `"0"`, `"0"` for any other.
pub open spec fn flipped(direction: Seq<char>) -> Seq<char> {
    if is_forward(direction) {
        seq!['1']
    } else {
        seq!['0']
    }
}

/// The trip ids of a route in one direction.
pub open spec fn trip_list(f: FeedView, route: Seq<char>, forward: bool) -> Option<Seq<Seq<char>>> {
    match get(f.trips, route) {
        Some(p) => Some(if forward { p.0 } else { p.1 }),
        None => None,
    }
}

/// The visits of the first trip in `trips` that has stop times.
pub open spec fn first_with_stops(
    trips: Seq<Seq<char>>,
    st: Seq<(Seq<char>, Seq<(i64, Seq<char>, u8)>)>,
) -> Option<Seq<(i64, Seq<char>, u8)>>
    decreases trips.len(),
{
    if trips.len() == 0 {
        None
    } else if has_key(st, trips[0]) {
        get(st, trips[0])
    } else {
        first_with_stops(trips.drop_first(), st)
    }
}

/// The stop ids of a list of visits, in order.
pub open spec fn stop_ids(visits: Seq<(i64, Seq<char>, u8)>) -> Seq<Seq<char>> {
    visits.map_values(|v: (i64, Seq<char>, u8)| v.1)
}

/// The stops of a route in one direction, as the first of its trips that
/// has stop times visits them.
pub open spec fn route_stops(f: FeedView, route: Seq<char>, forward: bool) -> Option<Seq<Seq<char>>> {
    match trip_list(f, route, forward) {
        Some(trips) => match first_with_stops(trips, f.stop_times) {
            Some(visits) => Some(stop_ids(visits)),
            None => None,
        },
        None => None,
    }
}

/// The timestamps of the visits to `stop` after `now`, in order.
pub open spec fn visits_after(visits: Seq<(i64, Seq<char>, u8)>, stop: Seq<char>, now: i64) -> Seq<i64>
    decreases visits.len(),
{
    if visits.len() == 0 {
        seq![]
    } else {
        let v = visits.last();
        let rest = visits_after(visits.drop_last(), stop, now);
        if v.1 == stop && v.0 > now {
            rest.push(v.0)
        } else {
            rest
        }
    }
}

/// The timestamps after `now` at which the trips in `trips` visit `stop`,
/// trip by trip; a trip without stop times adds none.
pub open spec fn arrivals_of(
    trips: Seq<Seq<char>>,
    st: Seq<(Seq<char>, Seq<(i64, Seq<char>, u8)>)>,
    stop: Seq<char>,
    now: i64,
) -> Seq<i64>
    decreases trips.len(),
{
    if trips.len() == 0 {
        seq![]
    } else {
        let rest = arrivals_of(trips.drop_last(), st, stop, now);
        match get(st, trips.last()) {
            Some(visits) => rest + visits_after(visits, stop, now),
            None => rest,
        }
    }
}

/// Whether the timestamps ascend, equal ones allowed.
pub open spec fn ascending(s: Seq<i64>) -> bool {
    sorted_by(s, |a: i64, b: i64| a <= b)
}

/// Relies on std's `slice::sort`: a stable sort into ascending order.
#[verifier::external_body]
fn sort_ascending(v: &mut Vec<i64>)
    ensures
        final(v)@.to_multiset() == old(v)@.to_multiset(),
        ascending(final(v)@),
{
    v.sort();
}

/// Whether a direction code is `"0"`.
pub fn direction_is_forward(direction: &str) -> (r: bool)
    ensures
        r == is_forward(direction@),
{
    let d = chars_of(direction);
    if d.len() == 1 && d[0] == '0' {
        assert(d@ =~= seq!['0']);
        true
    } else {
        false
    }
}

impl RouteInfo {
    /// A copy of the route.
    pub fn copy(&self) -> (r: RouteInfo)
        ensures
            r.id@ == self.id@,
            r.name@ == self.name@,
    {
        RouteInfo { id: self.id.clone(), name: self.name.clone() }
    }
}

/// The routes that carry one number, by vehicle class.
#[derive(Debug)]
pub struct RouteChoices {
    pub bus: Option<RouteInfo>,
    pub trolley: Option<RouteInfo>,
    pub tram: Option<RouteInfo>,
}

/// A route, as id and raw name, or none.
pub open spec fn info_view(r: Option<RouteInfo>) -> Option<(Seq<char>, Seq<char>)> {
    match r {
        Some(i) => Some((i.id@, i.name@)),
        None => None,
    }
}

/// Looks up a number in one routes table.
fn route_by_number(t: &Vec<(String, RouteInfo)>, number: &String) -> (r: Option<RouteInfo>)
    requires
        keys_unique(crate::feed::routes_table_view(t@)),
    ensures
        info_view(r) == get(crate::feed::routes_table_view(t@), number@),
{
    let ghost v = crate::feed::routes_table_view(t@);
    match crate::table::find_key(t, number) {
        Some(i) => {
            proof {
                assert(v[i as int].0 == number@);
                lemma_get_at(v, i as int);
            }
            Some(t[i].1.copy())
        },
        None => {
            assert(!has_key(v, number@));
            None
        },
    }
}

/// The display name of a route.
pub fn route_name(feed: &StaticFeed, route_id: &String) -> (r: Result<String, LookupError>)
    requires
        feed.wf(),
    ensures
        match get(feed@.routes.all, route_id@) {
            Some(raw) => r matches Ok(s) && s@ == route_display(raw),
            None => r == Err::<String, LookupError>(LookupError::NotFound),
        },
{
    let ghost v = feed@.routes.all;
    match crate::table::find_key(&feed.routes.all, route_id) {
        Some(i) => {
            proof {
                assert(v[i as int].0 == route_id@);
                lemma_get_at(v, i as int);
            }
            Ok(route_display_name(feed.routes.all[i].1.as_str()))
        },
        None => {
            assert(!has_key(v, route_id@));
            Err(LookupError::NotFound)
        },
    }
}

/// The display name of a stop.
pub fn stop_name(feed: &StaticFeed, stop_id: &String) -> (r: Result<String, LookupError>)
    requires
        feed.wf(),
    ensures
        match get(feed@.stops, stop_id@) {
            Some(raw) => r matches Ok(s) && s@ == stop_display(raw),
            None => r == Err::<String, LookupError>(LookupError::NotFound),
        },
{
    let ghost v = feed@.stops;
    match crate::table::find_key(&feed.stops, stop_id) {
        Some(i) => {
            proof {
                assert(v[i as int].0 == stop_id@);
                lemma_get_at(v, i as int);
            }
            Ok(stop_display_name(feed.stops[i].1.as_str()))
        },
        None => {
            assert(!has_key(v, stop_id@));
            Err(LookupError::NotFound)
        },
    }
}

/// The routes that carry a number, by vehicle class; the number is
/// upper-cased first.
pub fn lookup_routes_by_number(feed: &StaticFeed, number: &str) -> (r: RouteChoices)
    requires
        feed.wf(),
    ensures
        info_view(r.bus) == get(feed@.routes.bus, upper_of(number@)),
        info_view(r.trolley) == get(feed@.routes.trolley, upper_of(number@)),
        info_view(r.tram) == get(feed@.routes.tram, upper_of(number@)),
{
    let n = to_upper(number);
    RouteChoices {
        bus: route_by_number(&feed.routes.bus, &n),
        trolley: route_by_number(&feed.routes.trolley, &n),
        tram: route_by_number(&feed.routes.tram, &n),
    }
}

} // verus!

verus! {

/// The ids of a list of strings, as character sequences.
pub open spec fn strings_view(v: Seq<String>) -> Seq<Seq<char>> {
    v.map_values(|s: String| s@)
}

/// The visits of one trip, over character sequences.
pub open spec fn visits_view(v: Seq<crate::feed::TripStop>) -> Seq<(i64, Seq<char>, u8)> {
    v.map_values(|s: crate::feed::TripStop| crate::feed::trip_stop_view(s))
}

/// Every timestamp that `visits_after` keeps lies after `now`.
pub proof fn lemma_visits_after_future(visits: Seq<(i64, Seq<char>, u8)>, stop: Seq<char>, now: i64)
    ensures
        forall|i: int|
            0 <= i < visits_after(visits, stop, now).len() ==> #[trigger] visits_after(
                visits,
                stop,
                now,
            )[i] > now,
    decreases visits.len(),
{
    if visits.len() > 0 {
        lemma_visits_after_future(visits.drop_last(), stop, now);
        let rest = visits_after(visits.drop_last(), stop, now);
        let v = visits.last();
        if v.1 == stop && v.0 > now {
            assert forall|i: int| 0 <= i < rest.push(v.0).len() implies #[trigger] rest.push(
                v.0,
            )[i] > now by {
                if i < rest.len() {
                    assert(rest.push(v.0)[i] == rest[i]);
                }
            }
        }
    }
}

/// Every timestamp that `arrivals_of` collects lies after `now`.
pub proof fn lemma_arrivals_future(
    trips: Seq<Seq<char>>,
    st: Seq<(Seq<char>, Seq<(i64, Seq<char>, u8)>)>,
    stop: Seq<char>,
    now: i64,
)
    ensures
        forall|i: int|
            0 <= i < arrivals_of(trips, st, stop, now).len() ==> #[trigger] arrivals_of(
                trips,
                st,
                stop,
                now,
            )[i] > now,
    decreases trips.len(),
{
    if trips.len() > 0 {
        lemma_arrivals_future(trips.drop_last(), st, stop, now);
        let rest = arrivals_of(trips.drop_last(), st, stop, now);
        match get(st, trips.last()) {
            Some(visits) => {
                lemma_visits_after_future(visits, stop, now);
                let va = visits_after(visits, stop, now);
                assert forall|i: int| 0 <= i < (rest + va).len() implies #[trigger] (rest + va)[i]
                    > now by {
                    if i >= rest.len() {
                        assert((rest + va)[i] == va[i - rest.len()]);
                    }
                }
            },
            None => {},
        }
    }
}

/// The trip ids of a route in one direction.
fn trips_for<'a>(feed: &'a StaticFeed, route_id: &String, forward: bool) -> (r: Option<
    &'a Vec<String>,
>)
    requires
        feed.wf(),
    ensures
        match r {
            Some(l) => trip_list(feed@, route_id@, forward) == Some(strings_view(l@)),
            None => trip_list(feed@, route_id@, forward) is None,
        },
{
    let ghost v = feed@.trips;
    match crate::table::find_key(&feed.trips, route_id) {
        Some(i) => {
            proof {
                assert(v[i as int].0 == route_id@);
                lemma_get_at(v, i as int);
            }
            if forward {
                Some(&feed.trips[i].1.forward_trip)
            } else {
                Some(&feed.trips[i].1.backward_trip)
            }
        },
        None => {
            assert(!has_key(v, route_id@));
            None
        },
    }
}

/// The stops of a route in one direction (`"0"` forward, any other code
/// backward), in the order in which the first of its trips that has stop
/// times visits them.
pub fn stops_on_route(feed: &StaticFeed, route_id: &String, direction: &str) -> (r: Result<
    Vec<String>,
    LookupError,
>)
    requires
        feed.wf(),
    ensures
        match route_stops(feed@, route_id@, is_forward(direction@)) {
            Some(ids) => r matches Ok(v) && strings_view(v@) == ids,
            None => r == Err::<Vec<String>, LookupError>(LookupError::NotFound),
        },
{
    let forward = direction_is_forward(direction);
    let list = match trips_for(feed, route_id, forward) {
        Some(l) => l,
        None => {
            return Err(LookupError::NotFound);
        },
    };
    let ghost lv = strings_view(list@);
    let ghost st = feed@.stop_times;
    let n = list.len();
    let mut i: usize = 0;
    assert(lv.subrange(0, n as int) =~= lv);
    while i < n
        invariant
            n == list@.len(),
            i <= n,
            lv == strings_view(list@),
            st == feed@.stop_times,
            feed.wf(),
            trip_list(feed@, route_id@, forward) == Some(lv),
            forward == is_forward(direction@),
            first_with_stops(lv.subrange(i as int, n as int), st) == first_with_stops(lv, st),
        decreases n - i,
    {
        let ghost sub = lv.subrange(i as int, n as int);
        assert(sub.drop_first() =~= lv.subrange(i + 1, n as int));
        assert(sub[0] == list@[i as int]@);
        match crate::table::find_key(&feed.stop_times, &list[i]) {
            Some(j) => {
                proof {
                    assert(st[j as int].0 == sub[0]);
                    lemma_get_at(st, j as int);
                }
                let visits = &feed.stop_times[j].1;
                assert(st[j as int].1 =~= visits_view(visits@));
                let mut out: Vec<String> = Vec::new();
                let mut k: usize = 0;
                while k < visits.len()
                    invariant
                        k <= visits@.len(),
                        strings_view(out@) == stop_ids(visits_view(visits@).take(k as int)),
                    decreases visits@.len() - k,
                {
                    let ghost prev = out@;
                    out.push(visits[k].stop_id.clone());
                    assert(strings_view(out@) =~= strings_view(prev).push(
                        visits@[k as int].stop_id@,
                    ));
                    assert(stop_ids(visits_view(visits@).take(k + 1)) =~= stop_ids(
                        visits_view(visits@).take(k as int),
                    ).push(visits@[k as int].stop_id@));
                    k = k + 1;
                }
                assert(visits_view(visits@).take(k as int) =~= visits_view(visits@));
                return Ok(out);
            },
            None => {
                assert(!has_key(st, sub[0]));
            },
        }
        i = i + 1;
    }
    assert(lv.subrange(i as int, n as int) =~= seq![]);
    Err(LookupError::NotFound)
}

/// The stops of a route in the requested direction or, where that
/// direction has none, in the other one; with the direction code that
/// gave them. Some circular routes publish trips for one direction only.
pub fn stops_on_route_either_way(feed: &StaticFeed, route_id: &String, direction: &str) -> (r: Result<
    (String, Vec<String>),
    LookupError,
>)
    requires
        feed.wf(),
    ensures
        match route_stops(feed@, route_id@, is_forward(direction@)) {
            Some(ids) => r matches Ok((d, v)) && d@ == direction@ && strings_view(v@) == ids,
            None => match route_stops(feed@, route_id@, !is_forward(direction@)) {
                Some(ids) => r matches Ok((d, v)) && d@ == flipped(direction@) && strings_view(v@)
                    == ids,
                None => r == Err::<(String, Vec<String>), LookupError>(LookupError::NotFound),
            },
        },
{
    match stops_on_route(feed, route_id, direction) {
        Ok(v) => Ok((String::from_str(direction), v)),
        Err(_) => {
            proof {
                reveal_strlit("1");
                reveal_strlit("0");
            }
            let other = if direction_is_forward(direction) {
                let o = String::from_str("1");
                assert(o@ =~= seq!['1']);
                o
            } else {
                let o = String::from_str("0");
                assert(o@ =~= seq!['0']);
                o
            };
            assert(seq!['1'] != seq!['0']) by {
                assert(seq!['1'][0] != seq!['0'][0]);
            }
            assert(is_forward(other@) == !is_forward(direction@));
            assert(other@ == flipped(direction@));
            match stops_on_route(feed, route_id, other.as_str()) {
                Ok(v) => Ok((other, v)),
                Err(e) => Err(e),
            }
        },
    }
}

/// Whether every trip in `trips` has stop times.
pub open spec fn all_have_stops(
    trips: Seq<Seq<char>>,
    st: Seq<(Seq<char>, Seq<(i64, Seq<char>, u8)>)>,
) -> bool {
    forall|i: int| 0 <= i < trips.len() ==> has_key(st, #[trigger] trips[i])
}

/// Every scheduled arrival after `now` of a route in one direction
/// (`"0"` forward, any other code backward) at a stop, ascending, equal
/// times kept. Fails where the route has no trips in that direction, or
/// where one of its trips has no stop times.
pub fn arrival_timetable(
    feed: &StaticFeed,
    route_id: &String,
    direction: &str,
    stop_id: &String,
    now: i64,
) -> (r: Result<Vec<i64>, LookupError>)
    requires
        feed.wf(),
    ensures
        match trip_list(feed@, route_id@, is_forward(direction@)) {
            Some(trips) => if trips.len() > 0 && all_have_stops(trips, feed@.stop_times) {
                r matches Ok(v) && ascending(v@) && v@.to_multiset() == arrivals_of(
                    trips,
                    feed@.stop_times,
                    stop_id@,
                    now,
                ).to_multiset() && (forall|i: int| 0 <= i < v@.len() ==> v@[i] > now)
            } else {
                r == Err::<Vec<i64>, LookupError>(LookupError::NotFound)
            },
            None => r == Err::<Vec<i64>, LookupError>(LookupError::NotFound),
        },
{
    let forward = direction_is_forward(direction);
    let list = match trips_for(feed, route_id, forward) {
        Some(l) => l,
        None => {
            return Err(LookupError::NotFound);
        },
    };
    let n = list.len();
    if n == 0 {
        return Err(LookupError::NotFound);
    }
    let ghost lv = strings_view(list@);
    let ghost st = feed@.stop_times;
    let mut out: Vec<i64> = Vec::new();
    let mut i: usize = 0;
    assert(lv.take(0) =~= seq![]);
    while i < n
        invariant
            n == list@.len(),
            i <= n,
            lv == strings_view(list@),
            st == feed@.stop_times,
            feed.wf(),
            trip_list(feed@, route_id@, forward) == Some(lv),
            forward == is_forward(direction@),
            out@ == arrivals_of(lv.take(i as int), st, stop_id@, now),
            forall|j: int| 0 <= j < i ==> has_key(st, #[trigger] lv[j]),
        decreases n - i,
    {
        assert(lv.take(i + 1).drop_last() =~= lv.take(i as int));
        assert(lv.take(i + 1).last() == list@[i as int]@);
        match crate::table::find_key(&feed.stop_times, &list[i]) {
            Some(j) => {
                proof {
                    lemma_get_at(st, j as int);
                }
                let visits = &feed.stop_times[j].1;
                let ghost vv = visits_view(visits@);
                assert(st[j as int].1 =~= vv);
                let ghost base = out@;
                let mut k: usize = 0;
                assert(base + visits_after(vv.take(0), stop_id@, now) =~= base);
                while k < visits.len()
                    invariant
                        k <= visits@.len(),
                        vv == visits_view(visits@),
                        out@ == base + visits_after(vv.take(k as int), stop_id@, now),
                    decreases visits@.len() - k,
                {
                    assert(vv.take(k + 1).drop_last() =~= vv.take(k as int));
                    let v = &visits[k];
                    if v.stop_id == *stop_id && v.timestamp > now {
                        out.push(v.timestamp);
                    }
                    k = k + 1;
                    assert(out@ =~= base + visits_after(vv.take(k as int), stop_id@, now));
                }
                assert(vv.take(k as int) =~= vv);
            },
            None => {
                assert(!has_key(st, lv[i as int]));
                assert(!all_have_stops(lv, st));
                return Err(LookupError::NotFound);
            },
        }
        i = i + 1;
    }
    assert(lv.take(n as int) =~= lv);
    let ghost collected = out@;
    sort_ascending(&mut out);
    proof {
        lemma_arrivals_future(lv, st, stop_id@, now);
        broadcast use vstd::seq_lib::group_to_multiset_ensures;
        assert forall|i: int| 0 <= i < out@.len() implies out@[i] > now by {
            assert(out@.to_multiset().count(out@[i]) > 0);
            assert(collected.contains(out@[i]));
        }
    }
    Ok(out)
}

} // verus!
