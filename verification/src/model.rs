//! The records of the timetable.

use crate::day_services::DayServices;
use crate::number::{Real, ShortReal};
use crate::text_map::TextMap;
use std::collections::HashMap;
use vstd::hash_map::StringHashMap;
use vstd::prelude::*;

verus! {

/// A time that no service reaches: the arrival at a stop that was not reached.
pub const INF_TIME: i32 = 268435455;

/// A feed as the timetable records it.
#[derive(Clone, Debug)]
pub struct FeedRecord {
    pub feed_index: u16,
    pub id: String,
    pub static_gtfs_path: String,
    pub depends_on: Vec<String>,
}

/// A stop.
#[derive(Clone, Debug)]
pub struct StopRecord {
    pub global_id: u64,
    pub feed_index: u16,
    pub feed_id: String,
    pub local_id: String,
    pub id: String,
    pub code: Option<String>,
    pub name: String,
    pub latitude: Option<Real>,
    pub longitude: Option<Real>,
    pub search_blob: String,
}

/// A route.
#[derive(Clone, Debug)]
pub struct RouteRecord {
    pub global_id: u64,
    pub feed_index: u16,
    pub feed_id: String,
    pub local_id: String,
    pub id: String,
    pub short_name: Option<String>,
    pub long_name: Option<String>,
    pub route_type: String,
    pub color: Option<String>,
    pub text_color: Option<String>,
}

/// One call of a trip at a stop.
#[derive(Clone, Copy, Debug, PartialEq, Eq, Structural)]
pub struct TripStopRecord {
    pub stop_index: usize,
    pub arrival_secs: i32,
    pub departure_secs: i32,
    pub stop_sequence: u32,
    pub shape_dist_traveled: Option<ShortReal>,
}

/// A trip with its calls in travel order.
#[derive(Clone, Debug)]
pub struct TripRecord {
    pub global_id: u64,
    pub feed_index: u16,
    pub feed_id: String,
    pub local_id: String,
    pub id: String,
    pub route_index: usize,
    pub shape_id: Option<String>,
    pub shape_stop_point_indices: Option<Vec<u32>>,
    pub headsign: Option<String>,
    pub stop_times: Vec<TripStopRecord>,
}

/// The trips of one route that call at the same stops in the same order, with
/// the departures at each stop in ascending order.
#[derive(Clone, Debug)]
pub struct LineRecord {
    pub stop_indices: Vec<usize>,
    pub trip_indices: Vec<usize>,
    pub scheduled_departures_by_stop: Vec<Vec<i32>>,
    pub chronos_bucket_start_indices_by_stop: Vec<Vec<u32>>,
    pub binary_searchable_by_stop: Vec<bool>,
    pub trip_order_indirection_by_stop: Vec<Vec<u32>>,
}

/// A line that calls at a stop, and where in its sequence of stops.
#[derive(Clone, Copy, Debug, PartialEq, Eq, Structural)]
pub struct StopLineRef {
    pub line_index: usize,
    pub stop_pos: usize,
}

/// A point of a drawn line.
#[derive(Clone, Copy, Debug, PartialEq, Eq, Structural)]
pub struct PolylinePoint {
    pub lat: Real,
    pub lon: Real,
}

/// A walk from one stop to another.
#[derive(Clone, Debug)]
pub struct WalkTransfer {
    pub to_stop: usize,
    pub duration_secs: i32,
    pub distance_meters: Real,
    pub polyline: Vec<PolylinePoint>,
    pub segment_way_ids: Vec<Option<i64>>,
}

/// A point of the path that a trip follows.
#[derive(Clone, Copy, Debug, PartialEq, Eq, Structural)]
pub struct ShapePoint {
    pub lat: Real,
    pub lon: Real,
    pub dist_traveled: Option<ShortReal>,
}

/// `a + b`, held to the range of `i32`.
pub open spec fn saturated_sum(a: int, b: int) -> int {
    if a + b > i32::MAX {
        i32::MAX as int
    } else if a + b < i32::MIN {
        i32::MIN as int
    } else {
        a + b
    }
}

/// `a + b`, held to the range of `i32`.
pub fn saturating_sum(a: i32, b: i32) -> (sum: i32)
    ensures
        sum == saturated_sum(a as int, b as int),
{
    let wide: i64 = a as i64 + b as i64;
    if wide > i32::MAX as i64 {
        i32::MAX
    } else if wide < i32::MIN as i64 {
        i32::MIN
    } else {
        wide as i32
    }
}

/// `a - b`, held to the range of `i32`.
pub fn saturating_difference(a: i32, b: i32) -> (difference: i32)
    ensures
        difference == saturated_sum(a as int, -(b as int)),
{
    let wide: i64 = a as i64 - b as i64;
    if wide > i32::MAX as i64 {
        i32::MAX
    } else if wide < i32::MIN as i64 {
        i32::MIN
    } else {
        wide as i32
    }
}

/// A feed as it is configured.
#[derive(Clone, Debug)]
pub struct FeedConfig {
    pub feed_index: u16,
    pub id: String,
    pub static_gtfs_path: String,
    pub static_gtfs_source: String,
    pub static_gtfs_remote_url: Option<String>,
    pub static_gtfs_allow_invalid_tls: bool,
    pub trip_updates_url: Option<String>,
    pub vehicle_positions_url: Option<String>,
    pub depends_on: Vec<String>,
}

/// The walks between two groups of stops, as a matrix with a row for each stop
/// of the source group and a column for each target.
#[derive(Clone, Debug)]
pub struct TransferTile {
    pub target_hub: usize,
    pub target_stop_indices: Vec<usize>,
    pub transfer_slots: Vec<u16>,
    pub durations: Vec<i32>,
}

/// A group of stops that lie close together.
#[derive(Clone, Debug)]
pub struct TransferHub {
    pub stop_indices: Vec<usize>,
    pub outgoing_tiles: Vec<TransferTile>,
}

/// The walks between stops, group by group.
#[derive(Clone, Debug)]
pub struct TransferRelaxIndex {
    pub stop_to_hub: Vec<usize>,
    pub stop_to_hub_offset: Vec<usize>,
    pub hubs: Vec<TransferHub>,
}

/// The timetable in the form that queries read. Service dates are day numbers;
/// a stop whose place is known has a destination cell.
pub struct StaticData {
    pub feeds: Vec<FeedRecord>,
    pub stops: Vec<StopRecord>,
    pub active_stop_indices: Vec<usize>,
    pub stop_lookup: StringHashMap<usize>,
    pub stop_lookup_by_global_id: HashMap<u64, usize>,
    pub routes: Vec<RouteRecord>,
    pub active_route_indices: Vec<usize>,
    pub trips: Vec<TripRecord>,
    pub active_trip_indices: Vec<usize>,
    pub trip_lookup_by_feed: Vec<StringHashMap<usize>>,
    pub service_to_trip_indices: TextMap<Vec<usize>>,
    pub lines: Vec<LineRecord>,
    pub stop_to_lines: Vec<Vec<StopLineRef>>,
    pub transfers: Vec<Vec<WalkTransfer>>,
    pub transfer_index: TransferRelaxIndex,
    pub stop_cells: HashMap<u64, Vec<usize>>,
    pub stop_destination_cells: Vec<Option<u64>>,
    pub service_by_date: DayServices,
}

} // verus!
