//! Transit data engine and arrival-watch scheduler.

pub mod feed;
pub mod forecast;
pub mod parse;
pub mod query;
pub mod saved;
pub mod table;
pub mod text;
pub mod vehicle;
pub mod watch;

pub use feed::{RouteInfo, RoutesFeed, StaticFeed, TripStop, Trips};
pub use saved::SavedRouteData;
pub use vehicle::{ParseVehicleErr, Vehicle};
