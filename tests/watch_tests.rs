use transit_watch::forecast::{arrival_forecast, waits_for_route, ForecastEntity, ForecastError};
use transit_watch::query::LookupError;
use transit_watch::watch::{reconcile, Decision, Watch, WatchPhase, WatchRegistry};
use transit_watch::StaticFeed;

const T0: i64 = 1_700_035_200; // 08:00:00 on the service day below
const DAY: i64 = 1_700_006_400;

fn route5_feed() -> StaticFeed {
    StaticFeed::from_tables(
        "h\nR5,1,5,Пятый,3,bus,0,1,0\n",
        "h\n",
        "h\nR5,1,T1,0,s\n",
        "h\nT1,08:00:00,08:00:00,S1,1\nT1,08:05:00,08:05:00,S2,2\n",
        DAY,
        DAY + 86400,
    )
}

fn varint(mut v: u64, out: &mut Vec<u8>) {
    loop {
        let b = (v & 0x7f) as u8;
        v >>= 7;
        if v == 0 {
            out.push(b);
            break;
        }
        out.push(b | 0x80);
    }
}

fn field_bytes(tag: u8, body: &[u8], out: &mut Vec<u8>) {
    out.push(tag);
    varint(body.len() as u64, out);
    out.extend_from_slice(body);
}

/// A feed message with one entity whose stop-time updates carry the given
/// arrival times.
fn message(id: &str, times: &[i64]) -> Vec<u8> {
    let mut header = Vec::new();
    field_bytes(0x0a, b"2.0", &mut header);
    let mut trip_update = Vec::new();
    field_bytes(0x0a, &[], &mut trip_update);
    for t in times {
        let mut event = Vec::new();
        event.push(0x10);
        varint(*t as u64, &mut event);
        let mut update = Vec::new();
        field_bytes(0x12, &event, &mut update);
        field_bytes(0x12, &update, &mut trip_update);
    }
    let mut entity = Vec::new();
    field_bytes(0x0a, id.as_bytes(), &mut entity);
    field_bytes(0x1a, &trip_update, &mut entity);
    let mut msg = Vec::new();
    field_bytes(0x0a, &header, &mut msg);
    field_bytes(0x12, &entity, &mut msg);
    msg
}

#[test]
fn live_data_precedes_timetable() {
    // every live time leaves a minute or more: keep waiting, though the
    // timetable alone would fire
    let now = 1000;
    let d = reconcile(&vec![400, 500], &vec![now + 120 + 30], 2, now);
    assert_eq!(d, Decision::KeepWaiting);
}

#[test]
fn fallback_fires_at_59_not_60() {
    let now = 5000;
    assert_eq!(reconcile(&vec![], &vec![now + 120 + 59], 2, now), Decision::NotifySchedule);
    assert_eq!(reconcile(&vec![], &vec![now + 120 + 60], 2, now), Decision::KeepWaiting);
    // live times already inside the walking time do not count as live data
    assert_eq!(reconcile(&vec![100, 120], &vec![now + 120 + 59], 2, now), Decision::NotifySchedule);
}

#[test]
fn live_path_fires_at_179_seconds() {
    assert_eq!(reconcile(&vec![179], &vec![], 2, 0), Decision::NotifyLive);
    assert_eq!(reconcile(&vec![179], &vec![10_000], 2, 0), Decision::NotifyLive);
    assert_eq!(reconcile(&vec![180], &vec![], 2, 0), Decision::KeepWaiting);
}

#[test]
fn schedule_scenario_route_5() {
    let f = route5_feed();
    let s2 = T0 + 300;
    // 59 seconds past the walking time: the timetable fires
    let now = s2 - 179;
    let mut w = Watch::start(&f, "R5".to_string(), "S2".to_string(), "0".to_string(), 2, now).unwrap();
    assert_eq!(w.timetable, vec![s2]);
    assert_eq!(w.poll(Some(&vec![]), now), Decision::NotifySchedule);
    assert_eq!(w.phase, WatchPhase::Fired);
    // once past the moment to leave, the arrival no longer fires
    let now = s2 - 119;
    let mut w = Watch::start(&f, "R5".to_string(), "S2".to_string(), "0".to_string(), 2, now).unwrap();
    assert_eq!(w.poll(None, now), Decision::KeepWaiting);
    assert_eq!(w.phase, WatchPhase::Watching);
    // earlier, well before the window
    assert_eq!(w.poll(None, s2 - 400), Decision::KeepWaiting);
}

#[test]
fn live_scenario_route_5() {
    let f = route5_feed();
    let mut w = Watch::start(&f, "R5".to_string(), "S2".to_string(), "0".to_string(), 2, 0).unwrap();
    assert_eq!(w.poll(Some(&vec![179]), 0), Decision::NotifyLive);
    assert_eq!(w.phase, WatchPhase::Fired);
    // a fired watch decides nothing more
    assert_eq!(w.poll(Some(&vec![179]), 0), Decision::KeepWaiting);
}

#[test]
fn watch_start_unknown_route() {
    let f = route5_feed();
    let r = Watch::start(&f, "R9".to_string(), "S2".to_string(), "0".to_string(), 2, 0);
    assert!(matches!(r, Err(LookupError::NotFound)));
}

#[test]
fn cancelled_watch_never_fires() {
    let f = route5_feed();
    let mut w = Watch::start(&f, "R5".to_string(), "S2".to_string(), "0".to_string(), 2, 0).unwrap();
    w.cancel();
    assert_eq!(w.phase, WatchPhase::Cancelled);
    assert_eq!(w.poll(Some(&vec![179]), 0), Decision::KeepWaiting);
    assert_eq!(w.phase, WatchPhase::Cancelled);
}

#[test]
fn starting_a_watch_replaces_the_previous() {
    let mut reg: WatchRegistry<&str> = WatchRegistry::new();
    assert_eq!(reg.start(42, "A"), None);
    assert_eq!(reg.start(7, "C"), None);
    assert_eq!(reg.start(42, "B"), Some("A"));
    assert_eq!(reg.tasks.len(), 2);
    assert_eq!(reg.tasks.get(&42), Some(&"B"));
    assert_eq!(reg.cancel(42), Some("B"));
    assert_eq!(reg.cancel(42), None);
    assert_eq!(reg.tasks.get(&7), Some(&"C"));
}

#[test]
fn waits_for_route_filters_and_subtracts() {
    let ents = vec![
        ForecastEntity { id: "5".to_string(), arrivals: vec![Some(1100), None, Some(900), Some(1000)] },
        ForecastEntity { id: "6".to_string(), arrivals: vec![Some(2000)] },
        ForecastEntity { id: "5".to_string(), arrivals: vec![Some(1500)] },
    ];
    assert_eq!(waits_for_route(&ents, &"5".to_string(), 1000), vec![100, 500]);
    assert_eq!(waits_for_route(&ents, &"7".to_string(), 1000), Vec::<i64>::new());
}

#[test]
fn forecast_decodes_message() {
    let body = message("5", &[1179, 900, 1300]);
    assert_eq!(arrival_forecast(&body, &"5".to_string(), 1000), Ok(vec![179, 300]));
    assert_eq!(arrival_forecast(&body, &"6".to_string(), 1000), Ok(vec![]));
}

#[test]
fn forecast_rejects_garbage() {
    let body = vec![0x12, 0x05, 0x01];
    assert_eq!(arrival_forecast(&body, &"5".to_string(), 0), Err(ForecastError::Decode));
}
