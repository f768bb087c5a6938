use transit_watch::query::{
    arrival_timetable, lookup_routes_by_number, route_name, stop_name, stops_on_route,
    stops_on_route_either_way, LookupError,
};
use transit_watch::feed::static_feed;
use transit_watch::{StaticFeed, Vehicle};

const ROUTES: &str = "route_id,agency_id,route_short_name,route_long_name,route_type,transport_type,circular,urban,night\n\
1001,1,5,Метро \"Купчино\"-Звездная,3,bus,0,1,0\n\
1002,1,5,Дубль пять,3,bus,0,1,0\n\
1003,1,5,Трамвайная, с запятой,0,tram,0,1,0\n\
1004,1,7,Троллейбусная,3,trolley,0,1,0\n\
1005,1,9,Непонятная,3,ship,0,1,0\n\
broken,row\n";

const STOPS: &str = "stop_id,stop_code,stop_name,stop_lat,stop_lon,location_type,wheelchair_boarding,transport_type\n\
S1,11,невский проспект,59.9,30.3,0,0,bus\n\
S2,12,\"площадь, восстания\",59.9,30.3,0,0,bus\n\
S1,13,дубль,59.9,30.3,0,0,bus\n";

const TRIPS: &str = "route_id,service_id,trip_id,direction_id,shape_id\n\
1001,1,T1,0,sh\n\
1001,1,T2,1,sh\n\
1001,1,T3,0,sh\n\
1003,1,TX,1,sh\n\
1004,1,TB,x,sh\n";

const STOP_TIMES: &str = "trip_id,arrival_time,departure_time,stop_id,stop_sequence\n\
T1,08:00:00,08:00:00,S1,1\n\
T1,08:05:00,08:05:00,S2,2\n\
T2,09:00:00,09:00:00,S2,1\n\
T2,09:10:00,09:10:00,S1,2\n\
T3,07:00:00,07:00:00,S1,1\n\
T3,25:10:00,25:10:00,S2,2\n\
T3,bad,bad,S2,3\n";

const DAY: i64 = 1_700_006_400; // a midnight, in seconds since the epoch

fn feed() -> StaticFeed {
    StaticFeed::from_tables(ROUTES, STOPS, TRIPS, STOP_TIMES, DAY, DAY + 86400)
}

#[test]
fn vehicle_tokens_parse() {
    assert_eq!(Vehicle::parse("bus"), Ok(Vehicle::Bus));
    assert_eq!(Vehicle::parse("tram"), Ok(Vehicle::Tram));
    assert_eq!(Vehicle::parse("trolley"), Ok(Vehicle::Trolley));
    assert!(Vehicle::parse("Bus").is_err());
    assert!(Vehicle::parse("").is_err());
    assert_eq!("tram".parse::<Vehicle>(), Ok(Vehicle::Tram));
}

#[test]
fn vehicle_labels() {
    assert_eq!(Vehicle::Bus.label(), "Автобус 🚌");
    assert_eq!(Vehicle::Tram.label(), "Трамвай 🚋");
    assert_eq!(Vehicle::Trolley.label(), "Троллейбус 🚎");
}

#[test]
fn routes_go_to_their_class() {
    let f = feed();
    let bus: Vec<&str> = f.routes.bus.iter().map(|(k, _)| k.as_str()).collect();
    let tram: Vec<&str> = f.routes.tram.iter().map(|(k, _)| k.as_str()).collect();
    let trolley: Vec<&str> = f.routes.trolley.iter().map(|(k, _)| k.as_str()).collect();
    assert_eq!(bus, vec!["5"]);
    assert_eq!(tram, vec!["5"]);
    assert_eq!(trolley, vec!["7"]);
    let ids: Vec<&str> = f.routes.all.iter().map(|(k, _)| k.as_str()).collect();
    assert_eq!(ids, vec!["1001", "1002", "1003", "1004", "1005"]);
}

#[test]
fn duplicate_route_number_keeps_first() {
    let f = feed();
    assert_eq!(f.routes.bus.len(), 1);
    assert_eq!(f.routes.bus[0].1.id, "1001");
    assert_eq!(f.routes.bus[0].1.name, "Метро \"Купчино\"-Звездная");
}

#[test]
fn route_name_with_commas_is_kept_whole() {
    let f = feed();
    assert_eq!(f.routes.tram[0].1.id, "1003");
    assert_eq!(f.routes.tram[0].1.name, "Трамвайная, с запятой");
}

#[test]
fn duplicate_stop_keeps_first_and_names_may_hold_commas() {
    let f = feed();
    assert_eq!(f.stops.len(), 2);
    assert_eq!(f.stops[0], ("S1".to_string(), "невский проспект".to_string()));
    assert_eq!(f.stops[1], ("S2".to_string(), "\"площадь, восстания\"".to_string()));
}

#[test]
fn trips_split_by_direction_and_bad_codes_skipped() {
    let f = feed();
    assert_eq!(f.trips.len(), 2);
    assert_eq!(f.trips[0].0, "1001");
    assert_eq!(f.trips[0].1.forward_trip, vec!["T1".to_string(), "T3".to_string()]);
    assert_eq!(f.trips[0].1.backward_trip, vec!["T2".to_string()]);
    assert_eq!(f.trips[1].0, "1003");
    assert!(f.trips[1].1.forward_trip.is_empty());
}

#[test]
fn stop_times_timestamps_and_rollover() {
    let f = feed();
    let t1 = &f.stop_times[0];
    assert_eq!(t1.0, "T1");
    assert_eq!(t1.1[0].timestamp, DAY + 8 * 3600);
    assert_eq!(t1.1[1].timestamp, DAY + 8 * 3600 + 300);
    assert_eq!(t1.1[1].stop_id, "S2");
    assert_eq!(t1.1[1].stop_sequence, 2);
    let t3 = &f.stop_times[2];
    assert_eq!(t3.0, "T3");
    assert_eq!(t3.1.len(), 2);
    // 25:10:00 is 01:10:00 on the next calendar day
    assert_eq!(t3.1[1].timestamp, DAY + 86400 + 3600 + 600);
}

#[test]
fn empty_tables_give_empty_indices() {
    let f = StaticFeed::from_tables("", "", "", "", DAY, DAY + 86400);
    assert!(f.routes.all.is_empty());
    assert!(f.stops.is_empty());
    assert!(f.trips.is_empty());
    assert!(f.stop_times.is_empty());
    let h = StaticFeed::from_tables("header only\n", "h\r\n", "h", "h\n", DAY, DAY + 86400);
    assert!(h.routes.all.is_empty() && h.stops.is_empty());
}

#[test]
fn crlf_lines_are_read() {
    let f = StaticFeed::from_tables("h\r\n1,1,3,Имя,3,bus,0,1,0\r\n", "", "", "", DAY, DAY + 86400);
    assert_eq!(f.routes.bus[0].0, "3");
    assert_eq!(f.routes.bus[0].1.name, "Имя");
}

#[test]
fn display_names() {
    let f = feed();
    assert_eq!(route_name(&f, &"1001".to_string()), Ok("Метро Купчино-Звездная".to_string()));
    assert_eq!(stop_name(&f, &"S1".to_string()), Ok("Невский Проспект".to_string()));
    assert_eq!(route_name(&f, &"nope".to_string()), Err(LookupError::NotFound));
    assert_eq!(stop_name(&f, &"nope".to_string()), Err(LookupError::NotFound));
}

#[test]
fn lookup_by_number_upper_cases() {
    let f = StaticFeed::from_tables("h\n1,1,1КР,Кольцо,3,bus,0,1,0\n", "", "", "", DAY, DAY + 86400);
    let c = lookup_routes_by_number(&f, "1кр");
    assert_eq!(c.bus.map(|r| r.id), Some("1".to_string()));
    assert!(c.tram.is_none());
    assert!(c.trolley.is_none());
    let g = feed();
    let c = lookup_routes_by_number(&g, "5");
    assert_eq!(c.bus.map(|r| r.id), Some("1001".to_string()));
    assert_eq!(c.tram.map(|r| r.id), Some("1003".to_string()));
    assert!(c.trolley.is_none());
}

#[test]
fn stops_on_route_by_direction() {
    let f = feed();
    let r = "1001".to_string();
    assert_eq!(stops_on_route(&f, &r, "0"), Ok(vec!["S1".to_string(), "S2".to_string()]));
    assert_eq!(stops_on_route(&f, &r, "1"), Ok(vec!["S2".to_string(), "S1".to_string()]));
    assert_eq!(stops_on_route(&f, &"nope".to_string(), "0"), Err(LookupError::NotFound));
    // TX has no stop times
    assert_eq!(stops_on_route(&f, &"1003".to_string(), "1"), Err(LookupError::NotFound));
}

#[test]
fn stops_on_route_flips_direction() {
    let f = StaticFeed::from_tables(
        "h\n",
        "",
        "h\nR,1,A,1,s\nR,1,B,0,s\n",
        "h\nA,10:00:00,10:00:00,X,1\n",
        DAY,
        DAY + 86400,
    );
    let r = "R".to_string();
    assert_eq!(stops_on_route(&f, &r, "0"), Err(LookupError::NotFound));
    let (d, stops) = stops_on_route_either_way(&f, &r, "0").unwrap();
    assert_eq!(d, "1");
    assert_eq!(stops, vec!["X".to_string()]);
    let (d, _) = stops_on_route_either_way(&f, &r, "1").unwrap();
    assert_eq!(d, "1");
    let g = StaticFeed::from_tables("h\n", "", "h\nR,1,B,0,s\n", "h\nB,10:00:00,x,Y,1\n", DAY, DAY + 86400);
    let (d, stops) = stops_on_route_either_way(&g, &r, "2").unwrap();
    assert_eq!(d, "0");
    assert_eq!(stops, vec!["Y".to_string()]);
    assert!(stops_on_route_either_way(&f, &"Q".to_string(), "0").is_err());
}

#[test]
fn timetable_sorted_future_only() {
    let f = feed();
    let r = "1001".to_string();
    let s2 = "S2".to_string();
    // forward trips T1 (S2 at 08:05) and T3 (S2 at 25:10)
    let all = arrival_timetable(&f, &r, "0", &s2, 0).unwrap();
    assert_eq!(all, vec![DAY + 8 * 3600 + 300, DAY + 86400 + 4200]);
    let later = arrival_timetable(&f, &r, "0", &s2, DAY + 8 * 3600 + 300).unwrap();
    assert_eq!(later, vec![DAY + 86400 + 4200]);
    let s1 = "S1".to_string();
    let s1_times = arrival_timetable(&f, &r, "0", &s1, 0).unwrap();
    assert_eq!(s1_times, vec![DAY + 7 * 3600, DAY + 8 * 3600]);
    assert!(s1_times.windows(2).all(|w| w[0] <= w[1]));
}

#[test]
fn timetable_keeps_equal_times() {
    let f = StaticFeed::from_tables(
        "h\n",
        "",
        "h\nR,1,A,0,s\nR,1,B,0,s\n",
        "h\nA,10:00:00,x,X,1\nB,10:00:00,x,X,1\n",
        DAY,
        DAY + 86400,
    );
    let t = arrival_timetable(&f, &"R".to_string(), "0", &"X".to_string(), 0).unwrap();
    assert_eq!(t, vec![DAY + 36000, DAY + 36000]);
}

#[test]
fn timetable_not_found() {
    let f = feed();
    assert_eq!(
        arrival_timetable(&f, &"nope".to_string(), "0", &"S1".to_string(), 0),
        Err(LookupError::NotFound)
    );
    // route 1003 has no forward trips
    assert_eq!(
        arrival_timetable(&f, &"1003".to_string(), "0", &"S1".to_string(), 0),
        Err(LookupError::NotFound)
    );
}

#[test]
fn static_feed_uses_local_midnights() {
    let f = static_feed("h\n", "h\n", "h\n", "h\nT,00:00:00,x,S,1\nT,24:00:00,x,S,2\n").unwrap();
    let today = f.stop_times[0].1[0].timestamp;
    let tomorrow = f.stop_times[0].1[1].timestamp;
    let day = tomorrow - today;
    assert!(day == 86400 || day == 82800 || day == 90000);
}

#[test]
fn rollover_uses_next_day_start() {
    // the next calendar day may start other than 24 hours later
    let f = StaticFeed::from_tables("", "", "", "h\nT,25:10:00,x,S1,3\n", DAY, DAY + 90000);
    assert_eq!(f.stop_times[0].1[0].timestamp, DAY + 90000 + 3600 + 600);
    assert_eq!(f.stop_times[0].1[0].stop_sequence, 3);
}

#[test]
fn timetable_trip_without_stop_times() {
    let f = StaticFeed::from_tables(
        "h\n",
        "",
        "h\nR,1,A,0,s\nR,1,B,0,s\n",
        "h\nA,10:00:00,x,X,1\n",
        DAY,
        DAY + 86400,
    );
    assert_eq!(
        arrival_timetable(&f, &"R".to_string(), "0", &"X".to_string(), 0),
        Err(LookupError::NotFound)
    );
}

#[test]
fn interleaved_stop_times_group_by_trip() {
    let f = StaticFeed::from_tables(
        "",
        "h\nA,1,a,0,0,0,0,bus\nB,1,b,0,0,0,0,bus\nA,1,c,0,0,0,0,bus\n",
        "",
        "h\nT1,10:00:00,x,S1,1\nT2,11:00:00,x,S2,1\nT1,10:05:00,x,S3,2\nT3,12:00:00,x,S4,1\nT2,11:05:00,x,S5,2\n",
        DAY,
        DAY + 86400,
    );
    let trips: Vec<&str> = f.stop_times.iter().map(|(k, _)| k.as_str()).collect();
    assert_eq!(trips, vec!["T1", "T2", "T3"]);
    let t1: Vec<&str> = f.stop_times[0].1.iter().map(|s| s.stop_id.as_str()).collect();
    let t2: Vec<&str> = f.stop_times[1].1.iter().map(|s| s.stop_id.as_str()).collect();
    assert_eq!(t1, vec!["S1", "S3"]);
    assert_eq!(t2, vec!["S2", "S5"]);
    assert_eq!(f.stops.len(), 2);
    assert_eq!(f.stops[0].1, "a");
}
