//! The live forecast: decoding a GTFS-realtime feed message and reading the
//! waiting times of one route from it.

use prost::Message;
use vstd::prelude::*;

verus! {

/// prost's `DecodeError`, the error of `Message::decode`, carried as an
/// opaque value.
#[verifier::external_type_specification]
#[verifier::external_body]
pub struct ExDecodeError(prost::DecodeError);

/// One entity of a forecast message: its id (a route id) and the arrival
/// time, if any, of each of its stop-time updates.
#[derive(Debug)]
pub struct ForecastEntity {
    pub id: String,
    pub arrivals: Vec<Option<i64>>,
}

/// A forecast message that could not be decoded.
#[derive(Debug, PartialEq, Eq, Structural, Clone, Copy)]
pub enum ForecastError {
    Decode,
}

/// An entity as route id and arrival times.
pub open spec fn entity_view(e: ForecastEntity) -> (Seq<char>, Seq<Option<i64>>) {
    (e.id@, e.arrivals@)
}

/// The entities of a message, as route ids and arrival times.
pub open spec fn entities_view(v: Seq<ForecastEntity>) -> Seq<(Seq<char>, Seq<Option<i64>>)> {
    v.map_values(|e: ForecastEntity| entity_view(e))
}

/// The entities that decoding the bytes of a GTFS-realtime message gives.
pub uninterp spec fn decoded_entities(b: Seq<u8>) -> Seq<(Seq<char>, Seq<Option<i64>>)>;

/// Whether the bytes decode as a GTFS-realtime message.
pub uninterp spec fn decodes(b: Seq<u8>) -> bool;

/// Relies on prost's `Message::decode` for gtfs-rt's `FeedMessage`: whether
/// it succeeds, and the entities where it does, depend on the bytes alone. An entity without a trip
/// update has no arrival times.
#[verifier::external_body]
fn decode_message(b: &Vec<u8>) -> (r: Result<Vec<ForecastEntity>, prost::DecodeError>)
    ensures
        r is Ok <==> decodes(b@),
        r matches Ok(v) ==> entities_view(v@) == decoded_entities(b@),
{
    let m = gtfs_rt::FeedMessage::decode(b.as_slice())?;
    Ok(m.entity.into_iter().map(|e| ForecastEntity {
        id: e.id,
        arrivals: e.trip_update.map(|u| {
            u.stop_time_update.into_iter().map(|s| s.arrival.and_then(|a| a.time)).collect()
        }).unwrap_or_default(),
    }).collect())
}

/// The seconds from `now` until each arrival time that lies after it, in
/// order; an update without an arrival time, or one too far off for an
/// `i64`, adds none.
pub open spec fn waits_in(arrivals: Seq<Option<i64>>, now: i64) -> Seq<i64>
    decreases arrivals.len(),
{
    if arrivals.len() == 0 {
        seq![]
    } else {
        let rest = waits_in(arrivals.drop_last(), now);
        match arrivals.last() {
            Some(t) => if 0 < t - now <= i64::MAX {
                rest.push((t - now) as i64)
            } else {
                rest
            },
            None => rest,
        }
    }
}

/// The waiting times for `route` in a message's entities: those of every
/// entity whose id is the route id, entity by entity.
pub open spec fn waits_for(entities: Seq<(Seq<char>, Seq<Option<i64>>)>, route: Seq<char>, now: i64) -> Seq<i64>
    decreases entities.len(),
{
    if entities.len() == 0 {
        seq![]
    } else {
        let rest = waits_for(entities.drop_last(), route, now);
        let e = entities.last();
        if e.0 == route {
            rest + waits_in(e.1, now)
        } else {
            rest
        }
    }
}

/// The waiting times, in seconds from `now`, for a route in a message's
/// entities.
pub fn waits_for_route(entities: &Vec<ForecastEntity>, route_id: &String, now: i64) -> (r: Vec<i64>)
    ensures
        r@ == waits_for(entities_view(entities@), route_id@, now),
{
    let ghost ev = entities_view(entities@);
    let mut out: Vec<i64> = Vec::new();
    let mut i: usize = 0;
    assert(ev.take(0) =~= seq![]);
    while i < entities.len()
        invariant
            i <= entities@.len(),
            ev == entities_view(entities@),
            out@ == waits_for(ev.take(i as int), route_id@, now),
        decreases entities@.len() - i,
    {
        assert(ev.take(i + 1).drop_last() =~= ev.take(i as int));
        let e = &entities[i];
        if e.id == *route_id {
            let ghost base = out@;
            let ghost av = e.arrivals@;
            let mut k: usize = 0;
            assert(base + waits_in(av.take(0), now) =~= base);
            while k < e.arrivals.len()
                invariant
                    k <= av.len(),
                    av == e.arrivals@,
                    out@ == base + waits_in(av.take(k as int), now),
                decreases av.len() - k,
            {
                assert(av.take(k + 1).drop_last() =~= av.take(k as int));
                match e.arrivals[k] {
                    Some(t) => {
                        let d: i128 = t as i128 - now as i128;
                        if 0 < d && d <= i64::MAX as i128 {
                            out.push(d as i64);
                        }
                    },
                    None => {},
                }
                k = k + 1;
                assert(out@ =~= base + waits_in(av.take(k as int), now));
            }
            assert(av.take(k as int) =~= av);
        }
        i = i + 1;
    }
    assert(ev.take(i as int) =~= ev);
    out
}

/// The waiting times, in seconds from `now`, for a route in the bytes of a
/// forecast message; an error where the bytes do not decode. An empty list
/// means the message holds no live prediction for the route.
pub fn arrival_forecast(body: &Vec<u8>, route_id: &String, now: i64) -> (r: Result<Vec<i64>, ForecastError>)
    ensures
        r is Ok <==> decodes(body@),
        r matches Ok(v) ==> v@ == waits_for(decoded_entities(body@), route_id@, now),
{
    match decode_message(body) {
        Ok(entities) => Ok(waits_for_route(&entities, route_id, now)),
        Err(_) => Err(ForecastError::Decode),
    }
}

} // verus!
