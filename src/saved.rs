//! A saved watch request.

use vstd::prelude::*;

verus! {

/// What a rider saved under a name: the route, stop, direction code and
/// walking time in minutes of a watch to start.
#[derive(Debug)]
pub struct SavedRouteData {
    pub route_id: String,
    pub stop_id: String,
    pub direction: String,
    pub leeway: u64,
}

} // verus!
