//! The static feed: routes, stops, trips and stop times, as built from the
//! dataset tables.

use std::collections::HashMap;
use vstd::prelude::*;

use crate::parse::{
    commas, copy_range, decimal_at_most, decimal_value, lemma_seps_ordered, lines_of, parse_decimal, seps,
    separator_positions, split_lines, views_of,
};
use crate::table::{
    find_key, find_key_indexed, get, has_key, index_push, indexed, insert_first, key_pos,
    keys_unique, lemma_get_at, lemma_get_insert_first, lemma_indexed_same_keys,
    lemma_insert_first_unique, lemma_push_grouped_unique, push_grouped,
};
use crate::text::{chars_of, string_of};
use crate::vehicle::{vehicle_of_token, Vehicle};

verus! {

/// One numbered route variant.
#[derive(Debug)]
pub struct RouteInfo {
    pub id: String,
    pub name: String,
}

/// All known routes: by number for each vehicle class, and every route's
/// raw name by route id.
#[derive(Debug)]
pub struct RoutesFeed {
    pub tram: Vec<(String, RouteInfo)>,
    pub trolley: Vec<(String, RouteInfo)>,
    pub bus: Vec<(String, RouteInfo)>,
    pub all: Vec<(String, String)>,
}

/// The trips of one route, by direction.
#[derive(Debug)]
pub struct Trips {
    pub forward_trip: Vec<String>,
    pub backward_trip: Vec<String>,
}

/// One scheduled stop visit.
#[derive(Debug)]
pub struct TripStop {
    pub timestamp: i64,
    pub stop_id: String,
    pub stop_sequence: u8,
}

/// A full snapshot of the scheduled service.
#[derive(Debug)]
pub struct StaticFeed {
    pub routes: RoutesFeed,
    pub stops: Vec<(String, String)>,
    pub trips: Vec<(String, Trips)>,
    pub stop_times: Vec<(String, Vec<TripStop>)>,
}

} // verus!

verus! {

/// A route's id and raw name.
pub open spec fn route_info_view(r: RouteInfo) -> (Seq<char>, Seq<char>) {
    (r.id@, r.name@)
}

/// A table of routes by number, over character sequences.
pub open spec fn routes_table_view(t: Seq<(String, RouteInfo)>) -> Seq<
    (Seq<char>, (Seq<char>, Seq<char>)),
> {
    t.map_values(|e: (String, RouteInfo)| (e.0@, route_info_view(e.1)))
}

/// A table of names by id, over character sequences.
pub open spec fn names_view(t: Seq<(String, String)>) -> Seq<(Seq<char>, Seq<char>)> {
    t.map_values(|e: (String, String)| (e.0@, e.1@))
}

/// The model of the routes index.
pub struct RoutesView {
    pub tram: Seq<(Seq<char>, (Seq<char>, Seq<char>))>,
    pub trolley: Seq<(Seq<char>, (Seq<char>, Seq<char>))>,
    pub bus: Seq<(Seq<char>, (Seq<char>, Seq<char>))>,
    pub all: Seq<(Seq<char>, Seq<char>)>,
}

impl RoutesFeed {
    /// The index as tables over character sequences.
    pub open spec fn view(&self) -> RoutesView {
        RoutesView {
            tram: routes_table_view(self.tram@),
            trolley: routes_table_view(self.trolley@),
            bus: routes_table_view(self.bus@),
            all: names_view(self.all@),
        }
    }

    /// Every table of the index has unique keys.
    pub open spec fn wf(&self) -> bool {
        &&& keys_unique(self@.tram)
        &&& keys_unique(self@.trolley)
        &&& keys_unique(self@.bus)
        &&& keys_unique(self@.all)
    }
}

/// The data rows of a table's text: its lines after the header row.
pub open spec fn data_lines(text: Seq<char>) -> Seq<Seq<char>> {
    if lines_of(text).len() == 0 {
        seq![]
    } else {
        lines_of(text).drop_first()
    }
}

/// The fields of a routes row: id, number, name and mode token. The name
/// may hold commas: it runs from the third comma to the fifth comma from
/// the end, and the mode token stands between the fourth and third commas
/// from the end. A row with fewer than eight commas is malformed.
pub open spec fn route_row(l: Seq<char>) -> Option<(Seq<char>, Seq<char>, Seq<char>, Seq<char>)> {
    let c = commas(l);
    let m = c.len() as int;
    if m >= 8 {
        Some(
            (
                l.subrange(0, c[0]),
                l.subrange(c[1] + 1, c[2]),
                l.subrange(c[2] + 1, c[m - 5]),
                l.subrange(c[m - 4] + 1, c[m - 3]),
            ),
        )
    } else {
        None
    }
}

/// The routes index after one more row: the name goes under the id, and the
/// route under its number in the table of its vehicle class; a key already
/// present keeps its first value.
pub open spec fn add_route(m: RoutesView, row: Option<(Seq<char>, Seq<char>, Seq<char>, Seq<char>)>) -> RoutesView {
    match row {
        None => m,
        Some((id, number, name, token)) => {
            let all = insert_first(m.all, id, name);
            match vehicle_of_token(token) {
                Some(Vehicle::Bus) => RoutesView { bus: insert_first(m.bus, number, (id, name)), all, ..m },
                Some(Vehicle::Tram) => RoutesView { tram: insert_first(m.tram, number, (id, name)), all, ..m },
                Some(Vehicle::Trolley) => RoutesView { trolley: insert_first(m.trolley, number, (id, name)), all, ..m },
                None => RoutesView { all, ..m },
            }
        },
    }
}

/// The routes index built from rows, in order.
pub open spec fn routes_from(rows: Seq<Seq<char>>) -> RoutesView
    decreases rows.len(),
{
    if rows.len() == 0 {
        RoutesView { tram: seq![], trolley: seq![], bus: seq![], all: seq![] }
    } else {
        add_route(routes_from(rows.drop_last()), route_row(rows.last()))
    }
}

/// A string of the characters `l[from..to]`.
fn field(l: &Vec<char>, from: usize, to: usize) -> (r: String)
    requires
        from <= to <= l@.len(),
    ensures
        r@ == l@.subrange(from as int, to as int),
{
    string_of(&copy_range(l, from, to))
}

/// Adds `(k, v)` unless `k` is a key already.
fn insert_first_exec<V>(t: &mut Vec<(String, V)>, k: String, v: V) -> (added: bool)
    ensures
        added ==> final(t)@ == old(t)@.push((k, v)),
        !added ==> final(t)@ == old(t)@,
        added == forall|i: int| 0 <= i < old(t)@.len() ==> old(t)@[i].0@ != k@,
{
    match find_key(t, &k) {
        Some(_) => false,
        None => {
            t.push((k, v));
            true
        },
    }
}

/// Adds `(k, v)` unless `k` is a key already, keeping the index up to date.
fn insert_first_indexed<V>(t: &mut Vec<(String, V)>, ix: &mut HashMap<u64, Vec<usize>>, k: String, v: V) -> (added: bool)
    requires
        indexed(old(t)@, old(ix)@),
    ensures
        indexed(final(t)@, final(ix)@),
        added ==> final(t)@ == old(t)@.push((k, v)),
        !added ==> final(t)@ == old(t)@,
        added == forall|i: int| 0 <= i < old(t)@.len() ==> old(t)@[i].0@ != k@,
{
    match find_key_indexed(t, ix, &k) {
        Some(_) => false,
        None => {
            let pos = t.len();
            index_push::<V>(ix, &k, pos, Ghost(t@), Ghost((k, v)));
            t.push((k, v));
            true
        },
    }
}

/// Reads the fields of a routes row.
fn parse_route_row(l: &Vec<char>) -> (r: Option<(String, String, String, Vec<char>)>)
    ensures
        r matches Some((id, number, name, token)) ==> route_row(l@) == Some(
            (id@, number@, name@, token@),
        ),
        r is None ==> route_row(l@) is None,
{
    let c = separator_positions(l, ',');
    let m = c.len();
    if m < 8 {
        return None;
    }
    proof {
        lemma_seps_ordered(l@, ',');
    }
    let id = field(l, 0, c[0]);
    let number = field(l, c[1] + 1, c[2]);
    let name = field(l, c[2] + 1, c[m - 5]);
    let token = copy_range(l, c[m - 4] + 1, c[m - 3]);
    Some((id, number, name, token))
}

impl RoutesFeed {
    /// An empty index.
    pub fn new() -> (r: RoutesFeed)
        ensures
            r@ == (RoutesView { tram: seq![], trolley: seq![], bus: seq![], all: seq![] }),
            r.wf(),
    {
        let r = RoutesFeed { tram: Vec::new(), trolley: Vec::new(), bus: Vec::new(), all: Vec::new() };
        assert(r@.tram =~= seq![]);
        assert(r@.trolley =~= seq![]);
        assert(r@.bus =~= seq![]);
        assert(r@.all =~= seq![]);
        r
    }

    /// Adds one routes row.
    fn add_row(&mut self, l: &Vec<char>)
        requires
            old(self).wf(),
        ensures
            final(self).wf(),
            final(self)@ == add_route(old(self)@, route_row(l@)),
    {
        match parse_route_row(l) {
            None => {},
            Some((id, number, name, token)) => {
                let ghost m = self@;
                let ghost old_all = self.all@;
                let ghost old_bus = self.bus@;
                let ghost old_tram = self.tram@;
                let ghost old_trolley = self.trolley@;
                let info = RouteInfo { id: id.clone(), name: name.clone() };
                let added = insert_first_exec(&mut self.all, id, name);
                proof {
                    lemma_insert_first_unique(m.all, id@, name@);
                    if added {
                        assert(!has_key(m.all, id@));
                        assert(self@.all =~= m.all.push((id@, name@)));
                    } else {
                        let j = choose|j: int| 0 <= j < old_all.len() && old_all[j].0@ == id@;
                        assert(m.all[j].0 == id@);
                    }
                }
                match Vehicle::from_chars(&token) {
                    Ok(Vehicle::Bus) => {
                        let added = insert_first_exec(&mut self.bus, number, info);
                        proof {
                            lemma_insert_first_unique(m.bus, number@, route_info_view(info));
                            if added {
                                assert(self@.bus =~= m.bus.push((number@, route_info_view(info))));
                            } else {
                                let j = choose|j: int|
                                    0 <= j < old_bus.len() && old_bus[j].0@ == number@;
                                assert(m.bus[j].0 == number@);
                            }
                        }
                    },
                    Ok(Vehicle::Tram) => {
                        let added = insert_first_exec(&mut self.tram, number, info);
                        proof {
                            lemma_insert_first_unique(m.tram, number@, route_info_view(info));
                            if added {
                                assert(self@.tram =~= m.tram.push((number@, route_info_view(info))));
                            } else {
                                let j = choose|j: int|
                                    0 <= j < old_tram.len() && old_tram[j].0@ == number@;
                                assert(m.tram[j].0 == number@);
                            }
                        }
                    },
                    Ok(Vehicle::Trolley) => {
                        let added = insert_first_exec(&mut self.trolley, number, info);
                        proof {
                            lemma_insert_first_unique(m.trolley, number@, route_info_view(info));
                            if added {
                                assert(self@.trolley =~= m.trolley.push((number@, route_info_view(info))));
                            } else {
                                let j = choose|j: int|
                                    0 <= j < old_trolley.len() && old_trolley[j].0@ == number@;
                                assert(m.trolley[j].0 == number@);
                            }
                        }
                    },
                    Err(_) => {},
                }
            },
        }
    }

    /// Builds the routes index from the text of the routes table; the header
    /// row is skipped and malformed rows are left out.
    pub fn from_text(text: &str) -> (r: RoutesFeed)
        ensures
            r.wf(),
            r@ == routes_from(data_lines(text@)),
    {
        let lines = split_lines(&chars_of(text));
        let mut r = RoutesFeed::new();
        let n = lines.len();
        if n == 0 {
            return r;
        }
        let ghost rows = data_lines(text@);
        assert(rows =~= views_of(lines@).subrange(1, n as int));
        let mut i: usize = 1;
        assert(views_of(lines@).subrange(1, 1) =~= seq![]);
        while i < n
            invariant
                n == lines@.len(),
                1 <= i <= n,
                r.wf(),
                r@ == routes_from(views_of(lines@).subrange(1, i as int)),
            decreases n - i,
        {
            let ghost before = views_of(lines@).subrange(1, i as int);
            let ghost after = views_of(lines@).subrange(1, i + 1);
            assert(after.drop_last() =~= before);
            assert(after.last() == lines@[i as int]@);
            r.add_row(&lines[i]);
            i = i + 1;
        }
        r
    }
}

} // verus!

verus! {

/// The fields of a stops row: id and name. The name may hold commas: it runs
/// from the second comma to the fifth comma from the end. A row with fewer
/// than seven commas is malformed.
pub open spec fn stop_row(l: Seq<char>) -> Option<(Seq<char>, Seq<char>)> {
    let c = commas(l);
    let m = c.len() as int;
    if m >= 7 {
        Some((l.subrange(0, c[0]), l.subrange(c[1] + 1, c[m - 5])))
    } else {
        None
    }
}

/// The stops index after one more row; an id already present keeps its
/// first name.
pub open spec fn add_stop(t: Seq<(Seq<char>, Seq<char>)>, row: Option<(Seq<char>, Seq<char>)>) -> Seq<(Seq<char>, Seq<char>)> {
    match row {
        None => t,
        Some((id, name)) => insert_first(t, id, name),
    }
}

/// The stops index built from rows, in order.
pub open spec fn stops_from(rows: Seq<Seq<char>>) -> Seq<(Seq<char>, Seq<char>)>
    decreases rows.len(),
{
    if rows.len() == 0 {
        seq![]
    } else {
        add_stop(stops_from(rows.drop_last()), stop_row(rows.last()))
    }
}

/// The end of the field that starts after the `j`-th comma.
pub open spec fn field_end(l: Seq<char>, c: Seq<int>, j: int) -> int {
    if j + 1 < c.len() {
        c[j + 1]
    } else {
        l.len() as int
    }
}

/// The fields of a trips row: route id, trip id, and whether the direction
/// code is 0 (forward; any other number is backward). A row with fewer than
/// three commas, or whose direction is no number up to 255, is malformed.
pub open spec fn trip_row(l: Seq<char>) -> Option<(Seq<char>, Seq<char>, bool)> {
    let c = commas(l);
    if c.len() >= 3 {
        match decimal_at_most(l.subrange(c[2] + 1, field_end(l, c, 2)), 255) {
            Some(d) => Some((l.subrange(0, c[0]), l.subrange(c[1] + 1, c[2]), d == 0)),
            None => None,
        }
    } else {
        None
    }
}

/// A route's forward and backward trip ids.
pub open spec fn trips_view(t: Trips) -> (Seq<Seq<char>>, Seq<Seq<char>>) {
    (
        t.forward_trip@.map_values(|s: String| s@),
        t.backward_trip@.map_values(|s: String| s@),
    )
}

/// The trips table over character sequences.
pub open spec fn trips_table_view(t: Seq<(String, Trips)>) -> Seq<
    (Seq<char>, (Seq<Seq<char>>, Seq<Seq<char>>)),
> {
    t.map_values(|e: (String, Trips)| (e.0@, trips_view(e.1)))
}

/// A pair of trip lists with one more trip in the given direction.
pub open spec fn with_trip(
    p: (Seq<Seq<char>>, Seq<Seq<char>>),
    trip: Seq<char>,
    forward: bool,
) -> (Seq<Seq<char>>, Seq<Seq<char>>) {
    if forward {
        (p.0.push(trip), p.1)
    } else {
        (p.0, p.1.push(trip))
    }
}

/// The trips index after one more row: the trip joins its route's list for
/// its direction, in row order.
pub open spec fn add_trip(
    t: Seq<(Seq<char>, (Seq<Seq<char>>, Seq<Seq<char>>))>,
    row: Option<(Seq<char>, Seq<char>, bool)>,
) -> Seq<(Seq<char>, (Seq<Seq<char>>, Seq<Seq<char>>))> {
    match row {
        None => t,
        Some((route, trip, forward)) => if has_key(t, route) {
            t.update(key_pos(t, route), (route, with_trip(t[key_pos(t, route)].1, trip, forward)))
        } else {
            t.push((route, with_trip((seq![], seq![]), trip, forward)))
        },
    }
}

/// The trips index built from rows, in order.
pub open spec fn trips_from(rows: Seq<Seq<char>>) -> Seq<
    (Seq<char>, (Seq<Seq<char>>, Seq<Seq<char>>)),
>
    decreases rows.len(),
{
    if rows.len() == 0 {
        seq![]
    } else {
        add_trip(trips_from(rows.drop_last()), trip_row(rows.last()))
    }
}

/// The seconds after the start of the service day that a time of day
/// `H:MM:SS` names; hours from 24 to 47 fall on the next calendar day.
pub open spec fn clock_seconds(t: Seq<char>) -> Option<int> {
    let c = seps(t, ':');
    if c.len() == 2 {
        match (
            decimal_at_most(t.subrange(0, c[0]), 47),
            decimal_at_most(t.subrange(c[0] + 1, c[1]), 59),
            decimal_at_most(t.subrange(c[1] + 1, t.len() as int), 59),
        ) {
            (Some(h), Some(m), Some(s)) => Some((h * 3600 + m * 60 + s) as int),
            _ => None,
        }
    } else {
        None
    }
}

/// A stop visit as timestamp, stop id and sequence position.
pub open spec fn trip_stop_view(s: TripStop) -> (i64, Seq<char>, u8) {
    (s.timestamp, s.stop_id@, s.stop_sequence)
}

/// The stop-times table over character sequences.
pub open spec fn stop_times_view(t: Seq<(String, Vec<TripStop>)>) -> Seq<
    (Seq<char>, Seq<(i64, Seq<char>, u8)>),
> {
    t.map_values(|e: (String, Vec<TripStop>)| (e.0@, e.1@.map_values(|s: TripStop| trip_stop_view(s))))
}

/// The moment of a time of day `secs` seconds into the service day, where
/// the service day starts at `day_start` and the next calendar day at
/// `next_start`: from 24:00:00 on, the time falls on the next calendar day.
pub open spec fn visit_time(secs: int, day_start: int, next_start: int) -> int {
    if secs < 86400 {
        day_start + secs
    } else {
        next_start + (secs - 86400)
    }
}

/// The fields of a stop-times row on the service day that starts at
/// `day_start`, the next calendar day starting at `next_start`: trip id and
/// the visit. A row with fewer than four commas, a time that is no `H:MM:SS`
/// before 48:00:00, or a sequence position that is no number up to 255, is
/// malformed.
pub open spec fn stop_time_row(l: Seq<char>, day_start: int, next_start: int) -> Option<(Seq<char>, (i64, Seq<char>, u8))> {
    let c = commas(l);
    if c.len() >= 4 {
        match (
            clock_seconds(l.subrange(c[0] + 1, c[1])),
            decimal_at_most(l.subrange(c[3] + 1, field_end(l, c, 3)), 255),
        ) {
            (Some(secs), Some(q)) => Some(
                (l.subrange(0, c[0]), (visit_time(secs, day_start, next_start) as i64, l.subrange(c[2] + 1, c[3]), q as u8)),
            ),
            _ => None,
        }
    } else {
        None
    }
}

/// The stop-times index after one more row: the visit joins its trip's
/// list, in row order.
pub open spec fn add_stop_time(
    t: Seq<(Seq<char>, Seq<(i64, Seq<char>, u8)>)>,
    row: Option<(Seq<char>, (i64, Seq<char>, u8))>,
) -> Seq<(Seq<char>, Seq<(i64, Seq<char>, u8)>)> {
    match row {
        None => t,
        Some((trip, visit)) => push_grouped(t, trip, visit),
    }
}

/// The stop-times index built from rows, in order.
pub open spec fn stop_times_from(rows: Seq<Seq<char>>, day_start: int, next_start: int) -> Seq<
    (Seq<char>, Seq<(i64, Seq<char>, u8)>),
>
    decreases rows.len(),
{
    if rows.len() == 0 {
        seq![]
    } else {
        add_stop_time(
            stop_times_from(rows.drop_last(), day_start, next_start),
            stop_time_row(rows.last(), day_start, next_start),
        )
    }
}

/// Reads the fields of a stops row.
fn parse_stop_row(l: &Vec<char>) -> (r: Option<(String, String)>)
    ensures
        r matches Some((id, name)) ==> stop_row(l@) == Some((id@, name@)),
        r is None ==> stop_row(l@) is None,
{
    let c = separator_positions(l, ',');
    let m = c.len();
    if m < 7 {
        return None;
    }
    proof {
        lemma_seps_ordered(l@, ',');
    }
    Some((field(l, 0, c[0]), field(l, c[1] + 1, c[m - 5])))
}

/// Reads the fields of a trips row.
fn parse_trip_row(l: &Vec<char>) -> (r: Option<(String, String, bool)>)
    ensures
        r matches Some((route, trip, forward)) ==> trip_row(l@) == Some((route@, trip@, forward)),
        r is None ==> trip_row(l@) is None,
{
    let c = separator_positions(l, ',');
    let m = c.len();
    if m < 3 {
        return None;
    }
    proof {
        lemma_seps_ordered(l@, ',');
    }
    let end = if m > 3 { c[3] } else { l.len() };
    match parse_decimal(l, c[2] + 1, end, 255) {
        None => None,
        Some(d) => Some((field(l, 0, c[0]), field(l, c[1] + 1, c[2]), d == 0)),
    }
}

/// Reads a time of day `H:MM:SS` as seconds.
fn parse_clock(t: &Vec<char>) -> (r: Option<u32>)
    ensures
        r matches Some(v) ==> clock_seconds(t@) == Some(v as int),
        r is None ==> clock_seconds(t@) is None,
{
    let c = separator_positions(t, ':');
    if c.len() != 2 {
        return None;
    }
    proof {
        lemma_seps_ordered(t@, ':');
        assert(seps(t@, ':')[1] < t@.len());
    }
    let h = parse_decimal(t, 0, c[0], 47);
    let m = parse_decimal(t, c[0] + 1, c[1], 59);
    let n = t.len();
    let s = parse_decimal(t, c[1] + 1, n, 59);
    match (h, m, s) {
        (Some(h), Some(m), Some(s)) => Some(h * 3600 + m * 60 + s),
        _ => None,
    }
}

/// Reads the fields of a stop-times row.
fn parse_stop_time_row(l: &Vec<char>, day_start: i64, next_start: i64) -> (r: Option<
    (String, TripStop),
>)
    requires
        day_start <= i64::MAX - 200_000,
        next_start <= i64::MAX - 200_000,
    ensures
        r matches Some((trip, visit)) ==> stop_time_row(l@, day_start as int, next_start as int) == Some(
            (trip@, trip_stop_view(visit)),
        ),
        r is None ==> stop_time_row(l@, day_start as int, next_start as int) is None,
{
    let c = separator_positions(l, ',');
    let m = c.len();
    if m < 4 {
        return None;
    }
    proof {
        lemma_seps_ordered(l@, ',');
    }
    let time = copy_range(l, c[0] + 1, c[1]);
    let end = if m > 4 { c[4] } else { l.len() };
    match (parse_clock(&time), parse_decimal(l, c[3] + 1, end, 255)) {
        (Some(secs), Some(q)) => {
            let visit = TripStop {
                timestamp: if secs < 86400 {
                    day_start + secs as i64
                } else {
                    next_start + (secs - 86400) as i64
                },
                stop_id: field(l, c[2] + 1, c[3]),
                stop_sequence: q as u8,
            };
            Some((field(l, 0, c[0]), visit))
        },
        _ => None,
    }
}

} // verus!

verus! {

/// Builds the stops index from the text of the stops table; the header row
/// is skipped and malformed rows are left out.
pub fn stops_from_text(text: &str) -> (r: Vec<(String, String)>)
    ensures
        keys_unique(names_view(r@)),
        names_view(r@) == stops_from(data_lines(text@)),
{
    let lines = split_lines(&chars_of(text));
    let mut r: Vec<(String, String)> = Vec::new();
    let mut ix: HashMap<u64, Vec<usize>> = HashMap::new();
    assert(names_view(r@) =~= seq![]);
    let n = lines.len();
    if n == 0 {
        return r;
    }
    assert(data_lines(text@) =~= views_of(lines@).subrange(1, n as int));
    assert(views_of(lines@).subrange(1, 1) =~= seq![]);
    let mut i: usize = 1;
    while i < n
        invariant
            n == lines@.len(),
            1 <= i <= n,
            keys_unique(names_view(r@)),
            indexed(r@, ix@),
            names_view(r@) == stops_from(views_of(lines@).subrange(1, i as int)),
        decreases n - i,
    {
        let ghost before = views_of(lines@).subrange(1, i as int);
        let ghost after = views_of(lines@).subrange(1, i + 1);
        assert(after.drop_last() =~= before);
        assert(after.last() == lines@[i as int]@);
        match parse_stop_row(&lines[i]) {
            None => {},
            Some((id, name)) => {
                let ghost old_r = r@;
                let ghost m = names_view(r@);
                let added = insert_first_indexed(&mut r, &mut ix, id, name);
                proof {
                    lemma_insert_first_unique(m, id@, name@);
                    if added {
                        assert(names_view(r@) =~= m.push((id@, name@)));
                    } else {
                        let j = choose|j: int| 0 <= j < old_r.len() && old_r[j].0@ == id@;
                        assert(m[j].0 == id@);
                    }
                }
            },
        }
        i = i + 1;
    }
    r
}

/// Adds one trip to its route's list for its direction.
fn add_trip_exec(
    t: &mut Vec<(String, Trips)>,
    ix: &mut HashMap<u64, Vec<usize>>,
    route: String,
    trip: String,
    forward: bool,
)
    requires
        keys_unique(trips_table_view(old(t)@)),
        indexed(old(t)@, old(ix)@),
    ensures
        keys_unique(trips_table_view(final(t)@)),
        indexed(final(t)@, final(ix)@),
        trips_table_view(final(t)@) == add_trip(
            trips_table_view(old(t)@),
            Some((route@, trip@, forward)),
        ),
{
    let ghost v = trips_table_view(t@);
    let ghost old_t = t@;
    match find_key_indexed(t, ix, &route) {
        Some(i) => {
            proof {
                assert(v[i as int].0 == route@);
                lemma_get_at(v, i as int);
            }
            let (k, mut tr) = t.remove(i);
            let ghost old_tr = tr;
            if forward {
                tr.forward_trip.push(trip);
            } else {
                tr.backward_trip.push(trip);
            }
            assert(trips_view(tr) =~= with_trip(trips_view(old_tr), trip@, forward));
            t.insert(i, (k, tr));
            proof {
                assert forall|j: int| 0 <= j < old_t.len() implies old_t[j].0@ == t@[j].0@ by {
                    if j != i {
                        assert(t@[j] == old_t[j]);
                    }
                }
                lemma_indexed_same_keys(old_t, t@, ix@);
            }
            assert(trips_table_view(t@) =~= v.update(
                i as int,
                (route@, with_trip(v[i as int].1, trip@, forward)),
            ));
        },
        None => {
            let tr = if forward {
                Trips { forward_trip: vec![trip], backward_trip: Vec::new() }
            } else {
                Trips { forward_trip: Vec::new(), backward_trip: vec![trip] }
            };
            assert(trips_view(tr) =~= with_trip((seq![], seq![]), trip@, forward));
            let pos = t.len();
            index_push::<Trips>(ix, &route, pos, Ghost(t@), Ghost((route, tr)));
            t.push((route, tr));
            assert(!has_key(v, route@));
            assert(trips_table_view(t@) =~= v.push(
                (route@, with_trip((seq![], seq![]), trip@, forward)),
            ));
        },
    }
}

/// Builds the trips index from the text of the trips table; the header row
/// is skipped and malformed rows are left out.
pub fn trips_from_text(text: &str) -> (r: Vec<(String, Trips)>)
    ensures
        keys_unique(trips_table_view(r@)),
        trips_table_view(r@) == trips_from(data_lines(text@)),
{
    let lines = split_lines(&chars_of(text));
    let mut r: Vec<(String, Trips)> = Vec::new();
    let mut ix: HashMap<u64, Vec<usize>> = HashMap::new();
    assert(trips_table_view(r@) =~= seq![]);
    let n = lines.len();
    if n == 0 {
        return r;
    }
    assert(data_lines(text@) =~= views_of(lines@).subrange(1, n as int));
    assert(views_of(lines@).subrange(1, 1) =~= seq![]);
    let mut i: usize = 1;
    while i < n
        invariant
            n == lines@.len(),
            1 <= i <= n,
            keys_unique(trips_table_view(r@)),
            indexed(r@, ix@),
            trips_table_view(r@) == trips_from(views_of(lines@).subrange(1, i as int)),
        decreases n - i,
    {
        let ghost before = views_of(lines@).subrange(1, i as int);
        let ghost after = views_of(lines@).subrange(1, i + 1);
        assert(after.drop_last() =~= before);
        assert(after.last() == lines@[i as int]@);
        match parse_trip_row(&lines[i]) {
            None => {},
            Some((route, trip, forward)) => {
                add_trip_exec(&mut r, &mut ix, route, trip, forward);
            },
        }
        i = i + 1;
    }
    r
}

/// Appends one visit to its trip's list.
fn add_stop_time_exec(
    t: &mut Vec<(String, Vec<TripStop>)>,
    ix: &mut HashMap<u64, Vec<usize>>,
    trip: String,
    visit: TripStop,
)
    requires
        keys_unique(stop_times_view(old(t)@)),
        indexed(old(t)@, old(ix)@),
    ensures
        keys_unique(stop_times_view(final(t)@)),
        indexed(final(t)@, final(ix)@),
        stop_times_view(final(t)@) == push_grouped(
            stop_times_view(old(t)@),
            trip@,
            trip_stop_view(visit),
        ),
{
    let ghost v = stop_times_view(t@);
    let ghost x = trip_stop_view(visit);
    proof {
        lemma_push_grouped_unique(v, trip@, x);
    }
    let ghost old_t = t@;
    match find_key_indexed(t, ix, &trip) {
        Some(i) => {
            proof {
                assert(v[i as int].0 == trip@);
                lemma_get_at(v, i as int);
            }
            let (k, mut visits) = t.remove(i);
            let ghost old_visits = visits;
            visits.push(visit);
            assert(visits@.map_values(|s: TripStop| trip_stop_view(s)) =~= old_visits@.map_values(
                |s: TripStop| trip_stop_view(s),
            ).push(x));
            t.insert(i, (k, visits));
            proof {
                assert forall|j: int| 0 <= j < old_t.len() implies old_t[j].0@ == t@[j].0@ by {
                    if j != i {
                        assert(t@[j] == old_t[j]);
                    }
                }
                lemma_indexed_same_keys(old_t, t@, ix@);
            }
            assert(stop_times_view(t@) =~= v.update(i as int, (trip@, v[i as int].1.push(x))));
        },
        None => {
            let visits = vec![visit];
            assert(visits@.map_values(|s: TripStop| trip_stop_view(s)) =~= seq![x]);
            let pos = t.len();
            index_push::<Vec<TripStop>>(ix, &trip, pos, Ghost(t@), Ghost((trip, visits)));
            t.push((trip, visits));
            assert(!has_key(v, trip@));
            assert(stop_times_view(t@) =~= v.push((trip@, seq![x])));
        },
    }
}

/// Builds the stop-times index from the text of the stop-times table, for
/// the service day that starts at `day_start`, the next calendar day
/// starting at `next_start`; the header row is skipped and malformed rows
/// are left out.
pub fn stop_times_from_text(text: &str, day_start: i64, next_start: i64) -> (r: Vec<
    (String, Vec<TripStop>),
>)
    requires
        day_start <= i64::MAX - 200_000,
        next_start <= i64::MAX - 200_000,
    ensures
        keys_unique(stop_times_view(r@)),
        stop_times_view(r@) == stop_times_from(data_lines(text@), day_start as int, next_start as int),
{
    let lines = split_lines(&chars_of(text));
    let mut r: Vec<(String, Vec<TripStop>)> = Vec::new();
    let mut ix: HashMap<u64, Vec<usize>> = HashMap::new();
    assert(stop_times_view(r@) =~= seq![]);
    let n = lines.len();
    if n == 0 {
        return r;
    }
    assert(data_lines(text@) =~= views_of(lines@).subrange(1, n as int));
    assert(views_of(lines@).subrange(1, 1) =~= seq![]);
    let mut i: usize = 1;
    while i < n
        invariant
            n == lines@.len(),
            1 <= i <= n,
            day_start <= i64::MAX - 200_000,
            next_start <= i64::MAX - 200_000,
            keys_unique(stop_times_view(r@)),
            indexed(r@, ix@),
            stop_times_view(r@) == stop_times_from(
                views_of(lines@).subrange(1, i as int),
                day_start as int,
                next_start as int,
            ),
        decreases n - i,
    {
        let ghost before = views_of(lines@).subrange(1, i as int);
        let ghost after = views_of(lines@).subrange(1, i + 1);
        assert(after.drop_last() =~= before);
        assert(after.last() == lines@[i as int]@);
        match parse_stop_time_row(&lines[i], day_start, next_start) {
            None => {},
            Some((trip, visit)) => {
                add_stop_time_exec(&mut r, &mut ix, trip, visit);
            },
        }
        i = i + 1;
    }
    r
}

} // verus!

verus! {

/// The model of a full snapshot.
pub struct FeedView {
    pub routes: RoutesView,
    pub stops: Seq<(Seq<char>, Seq<char>)>,
    pub trips: Seq<(Seq<char>, (Seq<Seq<char>>, Seq<Seq<char>>))>,
    pub stop_times: Seq<(Seq<char>, Seq<(i64, Seq<char>, u8)>)>,
}

/// The snapshot built from the texts of the four tables, for the service
/// day that starts at `day_start`, the next calendar day starting at
/// `next_start`.
pub open spec fn feed_from(
    routes: Seq<char>,
    stops: Seq<char>,
    trips: Seq<char>,
    stop_times: Seq<char>,
    day_start: int,
    next_start: int,
) -> FeedView {
    FeedView {
        routes: routes_from(data_lines(routes)),
        stops: stops_from(data_lines(stops)),
        trips: trips_from(data_lines(trips)),
        stop_times: stop_times_from(data_lines(stop_times), day_start, next_start),
    }
}

/// Relies on chrono's `Local::now`, `NaiveDate::succ_opt`,
/// `NaiveDateTime::and_local_timezone` with `Local`, and
/// `MappedLocalTime::earliest`: the moments, in seconds since the epoch, at
/// which today's and tomorrow's local calendar dates begin; none where a
/// midnight does not exist in the local time zone. chrono's dates lie within
/// 262 145 years of 1970.
#[verifier::external_body]
fn local_midnights() -> (r: Option<(i64, i64)>)
    ensures
        r matches Some((a, b)) ==> -10_000_000_000_000 <= a <= 10_000_000_000_000
            && -10_000_000_000_000 <= b <= 10_000_000_000_000,
{
    let today = chrono::Local::now().date_naive();
    let start = today.and_time(chrono::NaiveTime::MIN).and_local_timezone(chrono::Local).earliest()?;
    let next = today.succ_opt()?.and_time(chrono::NaiveTime::MIN);
    let next = next.and_local_timezone(chrono::Local).earliest()?;
    Some((start.timestamp(), next.timestamp()))
}

/// A snapshot that could not be built.
#[derive(Debug, PartialEq, Eq, Structural, Clone, Copy)]
pub enum IngestError {
    /// The start of today or tomorrow has no moment in the local time zone.
    NoLocalMidnight,
}

impl StaticFeed {
    /// The snapshot as tables over character sequences.
    pub open spec fn view(&self) -> FeedView {
        FeedView {
            routes: self.routes@,
            stops: names_view(self.stops@),
            trips: trips_table_view(self.trips@),
            stop_times: stop_times_view(self.stop_times@),
        }
    }

    /// Every index of the snapshot has unique keys.
    pub open spec fn wf(&self) -> bool {
        &&& self.routes.wf()
        &&& keys_unique(self@.stops)
        &&& keys_unique(self@.trips)
        &&& keys_unique(self@.stop_times)
    }

    /// Builds a snapshot from the texts of the routes, stops, trips and
    /// stop-times tables, with stop times on the service day that starts at
    /// `day_start`, the next calendar day starting at `next_start`.
    pub fn from_tables(
        routes: &str,
        stops: &str,
        trips: &str,
        stop_times: &str,
        day_start: i64,
        next_start: i64,
    ) -> (r: StaticFeed)
        requires
            day_start <= i64::MAX - 200_000,
            next_start <= i64::MAX - 200_000,
        ensures
            r.wf(),
            r@ == feed_from(routes@, stops@, trips@, stop_times@, day_start as int, next_start as int),
    {
        StaticFeed {
            routes: RoutesFeed::from_text(routes),
            stops: stops_from_text(stops),
            trips: trips_from_text(trips),
            stop_times: stop_times_from_text(stop_times, day_start, next_start),
        }
    }

}

/// Builds a snapshot of today's schedule from the texts of the routes,
/// stops, trips and stop-times tables: stop times fall on the current local
/// calendar date, those from 24:00:00 on the next one. Fails where a local
/// midnight does not exist.
pub fn static_feed(routes: &str, stops: &str, trips: &str, stop_times: &str) -> (r: Result<
    StaticFeed,
    IngestError,
>)
    ensures
        r matches Ok(f) ==> f.wf() && exists|day_start: int, next_start: int|
            -10_000_000_000_000 <= day_start <= 10_000_000_000_000 && -10_000_000_000_000
                <= next_start <= 10_000_000_000_000 && f@ == feed_from(
                routes@,
                stops@,
                trips@,
                stop_times@,
                day_start,
                next_start,
            ),
{
    match local_midnights() {
        Some((day_start, next_start)) => Ok(
            StaticFeed::from_tables(routes, stops, trips, stop_times, day_start, next_start),
        ),
        None => Err(IngestError::NoLocalMidnight),
    }
}

} // verus!

verus! {

/// The routes table of one vehicle class.
pub open spec fn class_table(m: RoutesView, v: Vehicle) -> Seq<(Seq<char>, (Seq<char>, Seq<char>))> {
    match v {
        Vehicle::Bus => m.bus,
        Vehicle::Tram => m.tram,
        Vehicle::Trolley => m.trolley,
    }
}

/// A key stays a key when something is added.
proof fn lemma_insert_first_keeps<W>(t: Seq<(Seq<char>, W)>, k: Seq<char>, w: W, q: Seq<char>)
    requires
        has_key(t, q),
    ensures
        has_key(insert_first(t, k, w), q),
{
    let i = key_pos(t, q);
    if !has_key(t, k) {
        assert(t.push((k, w))[i] == t[i]);
    }
}

/// A routes row goes to the table of its own vehicle class and to no other;
/// its name goes under its id whatever its class.
pub proof fn lemma_add_route_class(
    m: RoutesView,
    id: Seq<char>,
    number: Seq<char>,
    name: Seq<char>,
    token: Seq<char>,
    v: Vehicle,
)
    ensures
        add_route(m, Some((id, number, name, token))).all == insert_first(m.all, id, name),
        class_table(add_route(m, Some((id, number, name, token))), v) == if vehicle_of_token(token)
            == Some(v) {
            insert_first(class_table(m, v), number, (id, name))
        } else {
            class_table(m, v)
        },
{
}

/// The tables of a routes index built from rows have unique keys.
pub proof fn lemma_routes_unique(rows: Seq<Seq<char>>)
    ensures
        keys_unique(routes_from(rows).all),
        forall|v: Vehicle| keys_unique(#[trigger] class_table(routes_from(rows), v)),
    decreases rows.len(),
{
    if rows.len() > 0 {
        let m = routes_from(rows.drop_last());
        lemma_routes_unique(rows.drop_last());
        match route_row(rows.last()) {
            None => {},
            Some((id, number, name, token)) => {
                lemma_insert_first_unique(m.all, id, name);
                assert forall|v: Vehicle| keys_unique(#[trigger] class_table(routes_from(rows), v)) by {
                    lemma_add_route_class(m, id, number, name, token, v);
                    lemma_insert_first_unique(class_table(m, v), number, (id, name));
                }
            },
        }
    }
}

/// Every well-formed routes row is indexed: its name under its id, and,
/// where its mode token names a vehicle class, a route under its number in
/// that class's table.
pub proof fn lemma_routes_indexed(rows: Seq<Seq<char>>, j: int)
    requires
        0 <= j < rows.len(),
        route_row(rows[j]) is Some,
    ensures
        has_key(routes_from(rows).all, route_row(rows[j])->Some_0.0),
        vehicle_of_token(route_row(rows[j])->Some_0.3) matches Some(v) ==> has_key(
            class_table(routes_from(rows), v),
            route_row(rows[j])->Some_0.1,
        ),
    decreases rows.len(),
{
    let (id, number, name, token) = route_row(rows[j])->Some_0;
    let m = routes_from(rows.drop_last());
    if j == rows.len() - 1 {
        lemma_add_route_class(m, id, number, name, token, Vehicle::Bus);
        if !has_key(m.all, id) {
            assert(m.all.push((id, name))[m.all.len() as int].0 == id);
        }
        match vehicle_of_token(token) {
            Some(v) => {
                lemma_add_route_class(m, id, number, name, token, v);
                let t = class_table(m, v);
                if !has_key(t, number) {
                    assert(t.push((number, (id, name)))[t.len() as int].0 == number);
                }
            },
            None => {},
        }
    } else {
        assert(rows.drop_last()[j] == rows[j]);
        lemma_routes_indexed(rows.drop_last(), j);
        match route_row(rows.last()) {
            None => {},
            Some((id2, number2, name2, token2)) => {
                lemma_add_route_class(m, id2, number2, name2, token2, Vehicle::Bus);
                lemma_insert_first_keeps(m.all, id2, name2, id);
                match vehicle_of_token(token) {
                    Some(v) => {
                        lemma_add_route_class(m, id2, number2, name2, token2, v);
                        if vehicle_of_token(token2) == Some(v) {
                            lemma_insert_first_keeps(class_table(m, v), number2, (id2, name2), number);
                        }
                    },
                    None => {},
                }
            },
        }
    }
}

/// Whether row `j` is a well-formed routes row of class `v` with number `n`.
pub open spec fn route_row_in(rows: Seq<Seq<char>>, j: int, v: Vehicle, n: Seq<char>) -> bool {
    &&& route_row(rows[j]) matches Some((id, number, name, token))
    &&& number == n
    &&& vehicle_of_token(token) == Some(v)
}

/// A number is a key of a class's table only where some row put it there.
proof fn lemma_route_key_source(rows: Seq<Seq<char>>, v: Vehicle, n: Seq<char>)
    requires
        has_key(class_table(routes_from(rows), v), n),
    ensures
        exists|j: int| 0 <= j < rows.len() && route_row_in(rows, j, v, n),
    decreases rows.len(),
{
    if rows.len() == 0 {
        return;
    }
    let m = routes_from(rows.drop_last());
    let last = rows.len() - 1;
    match route_row(rows.last()) {
        None => {
            lemma_route_key_source(rows.drop_last(), v, n);
            let j = choose|j: int| 0 <= j < rows.drop_last().len() && route_row_in(rows.drop_last(), j, v, n);
            assert(rows.drop_last()[j] == rows[j]);
            assert(route_row_in(rows, j, v, n));
        },
        Some((id, number, name, token)) => {
            lemma_add_route_class(m, id, number, name, token, v);
            if has_key(class_table(m, v), n) {
                lemma_route_key_source(rows.drop_last(), v, n);
                let j = choose|j: int| 0 <= j < rows.drop_last().len() && route_row_in(rows.drop_last(), j, v, n);
                assert(rows.drop_last()[j] == rows[j]);
                assert(route_row_in(rows, j, v, n));
            } else {
                assert(route_row_in(rows, last, v, n)) by {
                    let t = class_table(m, v);
                    if !(vehicle_of_token(token) == Some(v) && number == n) {
                        if vehicle_of_token(token) == Some(v) {
                            let p = key_pos(insert_first(t, number, (id, name)), n);
                            if p < t.len() {
                                assert(t.push((number, (id, name)))[p] == t[p]);
                            }
                        }
                    }
                }
            }
        },
    }
}

/// Every number in a class's table comes from a well-formed row of that
/// class with that number, and the route stored under it is that row's id
/// and name: no row reaches the table of another class.
pub proof fn lemma_route_value_source(rows: Seq<Seq<char>>, v: Vehicle, n: Seq<char>)
    requires
        has_key(class_table(routes_from(rows), v), n),
    ensures
        exists|j: int|
            0 <= j < rows.len() && route_row_in(rows, j, v, n) && get(
                class_table(routes_from(rows), v),
                n,
            ) == Some((route_row(rows[j])->Some_0.0, route_row(rows[j])->Some_0.2)),
    decreases rows.len(),
{
    if rows.len() == 0 {
        return;
    }
    let p = rows.drop_last();
    let m = routes_from(p);
    let t = class_table(m, v);
    lemma_routes_unique(p);
    let grown = match route_row(rows.last()) {
        Some((id, number, name, token)) => vehicle_of_token(token) == Some(v),
        None => false,
    };
    if !grown {
        match route_row(rows.last()) {
            Some((id, number, name, token)) => {
                lemma_add_route_class(m, id, number, name, token, v);
            },
            None => {},
        }
        lemma_route_value_source(p, v, n);
        let j = choose|j: int|
            0 <= j < p.len() && route_row_in(p, j, v, n) && get(class_table(m, v), n) == Some(
                (route_row(p[j])->Some_0.0, route_row(p[j])->Some_0.2),
            );
        assert(p[j] == rows[j]);
        assert(route_row_in(rows, j, v, n));
    } else {
        let (id, number, name, token) = route_row(rows.last())->Some_0;
        lemma_add_route_class(m, id, number, name, token, v);
        lemma_get_insert_first(t, number, (id, name), n);
        if has_key(t, n) {
            lemma_route_value_source(p, v, n);
            let j = choose|j: int|
                0 <= j < p.len() && route_row_in(p, j, v, n) && get(class_table(m, v), n) == Some(
                    (route_row(p[j])->Some_0.0, route_row(p[j])->Some_0.2),
                );
            assert(p[j] == rows[j]);
            assert(route_row_in(rows, j, v, n));
        } else {
            assert(route_row_in(rows, rows.len() - 1, v, n));
        }
    }
}

/// Every id in the table of names comes from a well-formed routes row with
/// that id, whatever its mode token, and the name stored under it is that
/// row's name.
pub proof fn lemma_name_source(rows: Seq<Seq<char>>, id: Seq<char>)
    requires
        has_key(routes_from(rows).all, id),
    ensures
        exists|j: int|
            0 <= j < rows.len() && route_row(rows[j]) is Some && route_row(rows[j])->Some_0.0 == id
                && get(routes_from(rows).all, id) == Some(route_row(rows[j])->Some_0.2),
    decreases rows.len(),
{
    if rows.len() == 0 {
        return;
    }
    let p = rows.drop_last();
    let m = routes_from(p);
    lemma_routes_unique(p);
    match route_row(rows.last()) {
        None => {
            lemma_name_source(p, id);
            let j = choose|j: int|
                0 <= j < p.len() && route_row(p[j]) is Some && route_row(p[j])->Some_0.0 == id
                    && get(m.all, id) == Some(route_row(p[j])->Some_0.2);
            assert(p[j] == rows[j]);
        },
        Some((id2, number, name, token)) => {
            lemma_add_route_class(m, id2, number, name, token, Vehicle::Bus);
            lemma_get_insert_first(m.all, id2, name, id);
            if has_key(m.all, id) {
                lemma_name_source(p, id);
                let j = choose|j: int|
                    0 <= j < p.len() && route_row(p[j]) is Some && route_row(p[j])->Some_0.0 == id
                        && get(m.all, id) == Some(route_row(p[j])->Some_0.2);
                assert(p[j] == rows[j]);
            } else {
                assert(route_row(rows[rows.len() - 1]) is Some);
            }
        },
    }
}

/// The first routes row of a class with a given number is the one the index
/// keeps for that number; later rows with the same number and class are
/// dropped.
pub proof fn lemma_first_route_wins(rows: Seq<Seq<char>>, j: int, v: Vehicle)
    requires
        0 <= j < rows.len(),
        route_row(rows[j]) matches Some((id, number, name, token)) && vehicle_of_token(token)
            == Some(v),
        forall|k: int| 0 <= k < j ==> !route_row_in(rows, k, v, route_row(rows[j])->Some_0.1),
    ensures
        get(class_table(routes_from(rows), v), route_row(rows[j])->Some_0.1) == Some(
            (route_row(rows[j])->Some_0.0, route_row(rows[j])->Some_0.2),
        ),
    decreases rows.len(),
{
    let (id, number, name, token) = route_row(rows[j])->Some_0;
    let m = routes_from(rows.drop_last());
    lemma_routes_unique(rows.drop_last());
    let t = class_table(m, v);
    if j == rows.len() - 1 {
        lemma_add_route_class(m, id, number, name, token, v);
        if has_key(t, number) {
            lemma_route_key_source(rows.drop_last(), v, number);
            let k = choose|k: int| 0 <= k < rows.drop_last().len() && route_row_in(rows.drop_last(), k, v, number);
            assert(rows.drop_last()[k] == rows[k]);
            assert(route_row_in(rows, k, v, number));
            assert(false);
        }
        lemma_get_insert_first(t, number, (id, name), number);
    } else {
        assert(rows.drop_last()[j] == rows[j]);
        assert forall|k: int| 0 <= k < j implies !route_row_in(rows.drop_last(), k, v, number) by {
            assert(rows.drop_last()[k] == rows[k]);
            assert(!route_row_in(rows, k, v, number));
        }
        lemma_first_route_wins(rows.drop_last(), j, v);
        match route_row(rows.last()) {
            None => {},
            Some((id2, number2, name2, token2)) => {
                lemma_add_route_class(m, id2, number2, name2, token2, v);
                if vehicle_of_token(token2) == Some(v) {
                    lemma_get_insert_first(t, number2, (id2, name2), number);
                }
            },
        }
    }
}

/// Hours from 24 on name a time on the next calendar day: a visit at
/// `h:mm:ss` with `24 <= h` lands at `(h - 24):mm:ss` on the day after the
/// service day.
pub proof fn lemma_rollover(l: Seq<char>, day_start: int, next_start: int, h: int, m: int, s: int)
    requires
        commas(l).len() >= 4,
        clock_seconds(l.subrange(commas(l)[0] + 1, commas(l)[1])) == Some(h * 3600 + m * 60 + s),
        stop_time_row(l, day_start, next_start) is Some,
        24 <= h,
        0 <= m,
        0 <= s,
        i64::MIN <= next_start + (h - 24) * 3600 + m * 60 + s <= i64::MAX,
    ensures
        stop_time_row(l, day_start, next_start)->Some_0.1.0 == next_start + (h - 24) * 3600 + m
            * 60 + s,
{
}

/// `25:10:00` is 25 hours and 10 minutes into the service day.
pub proof fn lemma_clock_25_10()
    ensures
        clock_seconds(seq!['2', '5', ':', '1', '0', ':', '0', '0']) == Some(86400 + 3600 + 600int),
{
    let t = seq!['2', '5', ':', '1', '0', ':', '0', '0'];
    reveal_with_fuel(seps, 9);
    assert(t.drop_last() =~= seq!['2', '5', ':', '1', '0', ':', '0']);
    assert(t.drop_last().drop_last() =~= seq!['2', '5', ':', '1', '0', ':']);
    assert(t.drop_last().drop_last().drop_last() =~= seq!['2', '5', ':', '1', '0']);
    assert(seq!['2', '5', ':', '1', '0'].drop_last() =~= seq!['2', '5', ':', '1']);
    assert(seq!['2', '5', ':', '1'].drop_last() =~= seq!['2', '5', ':']);
    assert(seq!['2', '5', ':'].drop_last() =~= seq!['2', '5']);
    assert(seq!['2', '5'].drop_last() =~= seq!['2']);
    assert(seq!['2'].drop_last() =~= Seq::<char>::empty());
    assert(seps(t, ':') =~= seq![2int, 5int]);
    let h = t.subrange(0, 2);
    let m = t.subrange(3, 5);
    let s = t.subrange(6, 8);
    assert(h =~= seq!['2', '5']);
    assert(m =~= seq!['1', '0']);
    assert(s =~= seq!['0', '0']);
    reveal_with_fuel(decimal_value, 3);
    assert(seq!['1', '0'].drop_last() =~= seq!['1']);
    assert(seq!['0', '0'].drop_last() =~= seq!['0']);
    assert(seq!['1'].drop_last() =~= Seq::<char>::empty());
    assert(seq!['0'].drop_last() =~= Seq::<char>::empty());
    assert(decimal_value(h) == 25);
    assert(decimal_value(m) == 10);
    assert(decimal_value(s) == 0);
}

/// A visit at `25:10:00` falls at 01:10:00 on the calendar day after the
/// service day.
pub proof fn lemma_visit_25_10(l: Seq<char>, day_start: int, next_start: int)
    requires
        commas(l).len() >= 4,
        l.subrange(commas(l)[0] + 1, commas(l)[1]) == seq!['2', '5', ':', '1', '0', ':', '0', '0'],
        stop_time_row(l, day_start, next_start) is Some,
        i64::MIN <= next_start + 4200 <= i64::MAX,
    ensures
        stop_time_row(l, day_start, next_start)->Some_0.1.0 == next_start + 3600 + 600,
{
    lemma_clock_25_10();
}

} // verus!
