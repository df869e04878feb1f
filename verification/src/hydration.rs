//! Legs with all that is shown of them, and the same without repetition.

use crate::cold_storage::{ColdRouteRecord, ColdTripRecord};
use crate::directions::WalkDirection;
use crate::itinerary::{occupancy_score_of, passive_occupancy_score, RideReport};
use crate::leg::CachedLeg;
use crate::model::{PolylinePoint, RouteRecord, StaticData};
use crate::number::Real;
use crate::realtime::{
    occupancy_status_name, occupancy_text, relationship_text, schedule_relationship_name, TripRealtimeMetrics,
};
use crate::stop_search::StopSearchResult;
use crate::text::{copy_text, same_text, text_view};
use crate::walk_geometry::WalkGeometry;
use std::collections::hash_map::DefaultHasher;
use std::hash::Hasher;
use vstd::bytes::{spec_u64_to_le_bytes, u64_to_le_bytes};
use vstd::prelude::*;
use vstd::std_specs::hash::DefaultHasherAdditionalSpecFns;
use vstd::string::*;

verus! {

/// The name under which a route is known: its short name, or else its long name,
/// or else its id.
pub open spec fn display_name(short_name: Option<Seq<char>>, long_name: Option<Seq<char>>, id: Seq<char>) -> Seq<char> {
    if short_name is Some && short_name->0.len() > 0 {
        short_name->0
    } else if long_name is Some && long_name->0.len() > 0 {
        long_name->0
    } else {
        id
    }
}

fn choose_name(short_name: &Option<String>, long_name: &Option<String>, id: &String) -> (name: String)
    ensures
        name@ == display_name(text_view(*short_name), text_view(*long_name), id@),
{
    match short_name {
        Some(name) => if !name.as_str().is_empty() {
            return name.clone();
        },
        None => {},
    }
    match long_name {
        Some(name) => if !name.as_str().is_empty() {
            return name.clone();
        },
        None => {},
    }
    id.clone()
}

/// The name under which a route is known.
pub fn route_display_name(route: &RouteRecord) -> (name: String)
    ensures
        name@ == display_name(text_view(route.short_name), text_view(route.long_name), route.id@),
{
    choose_name(&route.short_name, &route.long_name, &route.id)
}

/// The name under which a route is known, as it is kept.
pub fn route_display_name_cold(route: &ColdRouteRecord) -> (name: String)
    ensures
        name@ == display_name(text_view(route.short_name), text_view(route.long_name), route.id@),
{
    choose_name(&route.short_name, &route.long_name, &route.id)
}

/// Whether a leg is a walk or a ride.
#[derive(Clone, Copy, Debug, PartialEq, Eq, Structural)]
pub enum LegKind {
    Walk,
    Transit,
}

impl LegKind {
    /// The name of the kind.
    pub fn as_str(self) -> (name: &'static str)
        ensures
            name@ == match self {
                LegKind::Walk => "walk"@,
                LegKind::Transit => "transit"@,
            },
    {
        match self {
            LegKind::Walk => "walk",
            LegKind::Transit => "transit",
        }
    }
}

/// A leg with all that is shown of it.
#[derive(Clone, Debug)]
pub struct LegResponse {
    pub kind: LegKind,
    pub departure_secs: i32,
    pub arrival_secs: i32,
    pub duration_seconds: i32,
    pub from_stop: StopSearchResult,
    pub to_stop: StopSearchResult,
    pub trip_gid: Option<u64>,
    pub route_gid: Option<u64>,
    pub trip_id: Option<String>,
    pub route_id: Option<String>,
    pub route_label: Option<String>,
    pub route_type: Option<String>,
    pub route_color: Option<String>,
    pub route_text_color: Option<String>,
    pub headsign: Option<String>,
    pub walk_distance_meters: Option<Real>,
    pub delay_applied_seconds: Option<i32>,
    pub has_gtfs_rt: bool,
    pub has_trip_update: bool,
    pub has_vehicle_position: bool,
    pub schedule_relationship: Option<String>,
    pub occupancy_status: Option<String>,
    pub occupancy_percentage: Option<u32>,
    pub occupancy_score: Option<u16>,
    pub intermediate_stops: Vec<StopSearchResult>,
    pub polyline: Vec<PolylinePoint>,
    pub walk_directions: Vec<WalkDirection>,
}

/// Whether nothing is said of a ride.
pub open spec fn says_no_ride(leg: LegResponse) -> bool {
    &&& leg.kind == LegKind::Walk
    &&& leg.trip_gid is None && leg.route_gid is None && leg.trip_id is None && leg.route_id is None && leg.route_label is None && leg.route_type is None
    &&& leg.route_color is None && leg.route_text_color is None && leg.headsign is None && leg.delay_applied_seconds is None
    &&& !leg.has_gtfs_rt && !leg.has_trip_update && !leg.has_vehicle_position
    &&& leg.schedule_relationship is None && leg.occupancy_status is None && leg.occupancy_percentage is None && leg.occupancy_score is None
    &&& leg.intermediate_stops@.len() == 0
}

/// Shows walks one after the other as one, from the first to the last of them,
/// with their distance, joined line and directions.
pub fn hydrate_walk_run(
    first: &CachedLeg,
    last: &CachedLeg,
    distance_meters: Real,
    geometry: WalkGeometry,
    directions: Vec<WalkDirection>,
    from_stop: StopSearchResult,
    to_stop: StopSearchResult,
) -> (leg: LegResponse)
    requires
        !first.is_transit(),
        !last.is_transit(),
        i32::MIN <= last.arrival() - first.departure() <= i32::MAX,
    ensures
        says_no_ride(leg),
        leg.departure_secs == first.departure(),
        leg.arrival_secs == last.arrival(),
        leg.duration_seconds == last.arrival() - first.departure(),
        leg.from_stop == from_stop,
        leg.to_stop == to_stop,
        leg.walk_distance_meters == Some(distance_meters),
        leg.polyline == geometry.polyline,
        leg.walk_directions == directions,
{
    let departure: i32 = first.departure_secs();
    let arrival: i32 = last.arrival_secs();
    LegResponse {
        kind: LegKind::Walk,
        departure_secs: departure,
        arrival_secs: arrival,
        duration_seconds: arrival - departure,
        from_stop: from_stop,
        to_stop: to_stop,
        trip_gid: None,
        route_gid: None,
        trip_id: None,
        route_id: None,
        route_label: None,
        route_type: None,
        route_color: None,
        route_text_color: None,
        headsign: None,
        walk_distance_meters: Some(distance_meters),
        delay_applied_seconds: None,
        has_gtfs_rt: false,
        has_trip_update: false,
        has_vehicle_position: false,
        schedule_relationship: None,
        occupancy_status: None,
        occupancy_percentage: None,
        occupancy_score: None,
        intermediate_stops: Vec::new(),
        polyline: geometry.polyline,
        walk_directions: directions,
    }
}

/// The occupancy status that is shown of a ride: that of the stop, or else that
/// of the vehicle.
pub open spec fn shown_status(metrics: TripRealtimeMetrics) -> Option<i32> {
    if metrics.stop_departure_occupancy_status is Some { metrics.stop_departure_occupancy_status } else { metrics.vehicle_occupancy_status }
}

fn status_of(metrics: TripRealtimeMetrics) -> (status: Option<i32>)
    ensures
        status == shown_status(metrics),
{
    match metrics.stop_departure_occupancy_status {
        Some(status) => Some(status),
        None => metrics.vehicle_occupancy_status,
    }
}

/// The name of a schedule relationship, if it has one.
pub open spec fn relationship_shown(value: Option<i32>) -> Option<Seq<char>> {
    match value {
        Some(code) => relationship_text(code),
        None => None,
    }
}

/// The name of a schedule relationship.
pub fn schedule_relationship_string(value: Option<i32>) -> (name: Option<String>)
    ensures
        text_view(name) == relationship_shown(value),
{
    match value {
        Some(code) => match schedule_relationship_name(code) {
            Some(name) => Some(name.to_owned()),
            None => None,
        },
        None => None,
    }
}

/// The name of an occupancy status, if it has one.
pub open spec fn occupancy_shown(value: Option<i32>) -> Option<Seq<char>> {
    match value {
        Some(code) => occupancy_text(code),
        None => None,
    }
}

/// The name of an occupancy status.
pub fn occupancy_status_string(value: Option<i32>) -> (name: Option<String>)
    ensures
        text_view(name) == occupancy_shown(value),
{
    match value {
        Some(code) => match occupancy_status_name(code) {
            Some(name) => Some(name.to_owned()),
            None => None,
        },
        None => None,
    }
}

/// Whether a leg shows a ride: the trip and its route as they are kept, the delay
/// against the timetable, and what realtime feeds say.
pub open spec fn shows_ride(leg: LegResponse, data: StaticData, ride: CachedLeg, trip: ColdTripRecord, route: ColdRouteRecord, metrics: TripRealtimeMetrics) -> bool {
    match ride {
        CachedLeg::Walk { .. } => false,
        CachedLeg::Transit { trip_index, board_pos, departure_secs, arrival_secs, .. } => {
            let record = data.trips@[trip_index as int];
            &&& leg.kind == LegKind::Transit
            &&& leg.departure_secs == departure_secs
            &&& leg.arrival_secs == arrival_secs
            &&& leg.duration_seconds == arrival_secs - departure_secs
            &&& leg.trip_gid == Some(record.global_id)
            &&& leg.route_gid == Some(data.routes@[record.route_index as int].global_id)
            &&& text_view(leg.trip_id) == Some(trip.id@)
            &&& text_view(leg.route_id) == Some(route.id@)
            &&& text_view(leg.route_label) == Some(display_name(text_view(route.short_name), text_view(route.long_name), route.id@))
            &&& text_view(leg.route_type) == Some(route.route_type@)
            &&& text_view(leg.route_color) == text_view(route.color)
            &&& text_view(leg.route_text_color) == text_view(route.text_color)
            &&& text_view(leg.headsign) == text_view(trip.headsign)
            &&& leg.walk_distance_meters is None
            &&& leg.delay_applied_seconds == Some((departure_secs - record.stop_times@[board_pos as int].departure_secs) as i32)
            &&& leg.has_gtfs_rt == (metrics.has_trip_update || metrics.has_vehicle_position || metrics.is_canceled)
            &&& leg.has_trip_update == metrics.has_trip_update
            &&& leg.has_vehicle_position == metrics.has_vehicle_position
            &&& text_view(leg.schedule_relationship) == relationship_shown(metrics.schedule_relationship)
            &&& text_view(leg.occupancy_status) == occupancy_shown(shown_status(metrics))
            &&& leg.occupancy_percentage == metrics.vehicle_occupancy_percentage
            &&& leg.occupancy_score == occupancy_score_of(shown_status(metrics), metrics.vehicle_occupancy_percentage)
            &&& leg.walk_directions@.len() == 0
        },
    }
}

/// Whether a ride can be shown: it is on a trip of the timetable, and its delay
/// can be counted.
pub open spec fn ride_fits(data: StaticData, ride: CachedLeg) -> bool {
    match ride {
        CachedLeg::Walk { .. } => false,
        CachedLeg::Transit { trip_index, board_pos, departure_secs, arrival_secs, .. } => {
            &&& trip_index < data.trips@.len()
            &&& data.trips@[trip_index as int].route_index < data.routes@.len()
            &&& board_pos < data.trips@[trip_index as int].stop_times@.len()
            &&& i32::MIN <= arrival_secs - departure_secs <= i32::MAX
            &&& i32::MIN <= departure_secs - data.trips@[trip_index as int].stop_times@[board_pos as int].departure_secs <= i32::MAX
        },
    }
}

/// Shows a ride.
pub fn hydrate_leg(
    data: &StaticData,
    ride: &CachedLeg,
    trip: &ColdTripRecord,
    route: &ColdRouteRecord,
    metrics: TripRealtimeMetrics,
    from_stop: StopSearchResult,
    to_stop: StopSearchResult,
    intermediate_stops: Vec<StopSearchResult>,
    polyline: Vec<PolylinePoint>,
) -> (leg: LegResponse)
    requires
        ride_fits(*data, *ride),
    ensures
        shows_ride(leg, *data, *ride, *trip, *route, metrics),
        leg.from_stop == from_stop,
        leg.to_stop == to_stop,
        leg.intermediate_stops == intermediate_stops,
        leg.polyline == polyline,
{
    let (trip_index, board_pos, departure, arrival) = match *ride {
        CachedLeg::Transit { trip_index, board_pos, departure_secs, arrival_secs, .. } => (trip_index, board_pos, departure_secs, arrival_secs),
        CachedLeg::Walk { .. } => (0, 0, 0, 0),
    };
    let status: Option<i32> = status_of(metrics);
    let scheduled: i32 = data.trips[trip_index].stop_times[board_pos].departure_secs;
    LegResponse {
        kind: LegKind::Transit,
        departure_secs: departure,
        arrival_secs: arrival,
        duration_seconds: arrival - departure,
        from_stop: from_stop,
        to_stop: to_stop,
        trip_gid: Some(data.trips[trip_index].global_id),
        route_gid: Some(data.routes[data.trips[trip_index].route_index].global_id),
        trip_id: Some(trip.id.clone()),
        route_id: Some(route.id.clone()),
        route_label: Some(route_display_name_cold(route)),
        route_type: Some(route.route_type.clone()),
        route_color: copy_text(&route.color),
        route_text_color: copy_text(&route.text_color),
        headsign: copy_text(&trip.headsign),
        walk_distance_meters: None,
        delay_applied_seconds: Some(departure - scheduled),
        has_gtfs_rt: metrics.has_gtfs_rt(),
        has_trip_update: metrics.has_trip_update,
        has_vehicle_position: metrics.has_vehicle_position,
        schedule_relationship: schedule_relationship_string(metrics.schedule_relationship),
        occupancy_status: occupancy_status_string(status),
        occupancy_percentage: metrics.vehicle_occupancy_percentage,
        occupancy_score: passive_occupancy_score(status, metrics.vehicle_occupancy_percentage),
        intermediate_stops: intermediate_stops,
        polyline: polyline,
        walk_directions: Vec::new(),
    }
}

/// What is known of the rides among the first `n` legs.
pub open spec fn ride_reports(legs: Seq<LegResponse>, n: int) -> Seq<RideReport>
    decreases n,
{
    if n <= 0 {
        Seq::empty()
    } else {
        let leg = legs[n - 1];
        let before = ride_reports(legs, n - 1);
        if leg.kind == LegKind::Transit {
            before.push(
                RideReport {
                    has_gtfs_rt: leg.has_gtfs_rt,
                    occupancy_score: leg.occupancy_score,
                    is_canceled: text_view(leg.schedule_relationship) == Some("CANCELED"@),
                },
            )
        } else {
            before
        }
    }
}

/// What is known of the rides of a journey.
pub fn report_rides(legs: &Vec<LegResponse>) -> (rides: Vec<RideReport>)
    ensures
        rides@ == ride_reports(legs@, legs@.len() as int),
{
    let mut rides: Vec<RideReport> = Vec::new();
    let mut i: usize = 0;
    assert(rides@ =~= Seq::<RideReport>::empty());
    while i < legs.len()
        invariant
            i <= legs@.len(),
            rides@ == ride_reports(legs@, i as int),
        decreases legs.len() - i,
    {
        let leg: &LegResponse = &legs[i];
        if leg.kind == LegKind::Transit {
            let canceled: bool = match &leg.schedule_relationship {
                Some(name) => same_text(name.as_str(), "CANCELED"),
                None => false,
            };
            rides.push(RideReport { has_gtfs_rt: leg.has_gtfs_rt, occupancy_score: leg.occupancy_score, is_canceled: canceled });
        }
        i = i + 1;
    }
    rides
}

/// What is told of a stop, as plain values.
pub struct StopResultView {
    pub global_id: u64,
    pub feed_id: Seq<char>,
    pub local_id: Seq<char>,
    pub id: Seq<char>,
    pub code: Option<Seq<char>>,
    pub name: Seq<char>,
    pub latitude: Option<Real>,
    pub longitude: Option<Real>,
    pub is_virtual: bool,
}

impl StopSearchResult {
    /// What is told of the stop.
    pub open spec fn view(&self) -> StopResultView {
        StopResultView {
            global_id: self.global_id,
            feed_id: self.feed_id@,
            local_id: self.local_id@,
            id: self.id@,
            code: text_view(self.code),
            name: self.name@,
            latitude: self.latitude,
            longitude: self.longitude,
            is_virtual: self.is_virtual,
        }
    }

    /// The same once more.
    pub fn copy(&self) -> (copy: StopSearchResult)
        ensures
            copy@ == self@,
    {
        StopSearchResult {
            global_id: self.global_id,
            feed_id: self.feed_id.clone(),
            local_id: self.local_id.clone(),
            id: self.id.clone(),
            code: copy_text(&self.code),
            name: self.name.clone(),
            latitude: self.latitude,
            longitude: self.longitude,
            is_virtual: self.is_virtual,
        }
    }
}

/// A route that legs refer to.
#[derive(Clone, Debug)]
pub struct RouteHydration {
    pub global_id: u64,
    pub id: String,
    pub label: String,
    pub route_type: String,
    pub color: Option<String>,
    pub text_color: Option<String>,
}

/// A trip that legs refer to.
#[derive(Clone, Debug)]
pub struct TripHydration {
    pub global_id: u64,
    pub id: String,
    pub headsign: Option<String>,
}

/// What is said of a route.
pub struct RouteHydrationView {
    pub global_id: u64,
    pub id: Seq<char>,
    pub label: Seq<char>,
    pub route_type: Seq<char>,
    pub color: Option<Seq<char>>,
    pub text_color: Option<Seq<char>>,
}

/// What is said of a trip.
pub struct TripHydrationView {
    pub global_id: u64,
    pub id: Seq<char>,
    pub headsign: Option<Seq<char>>,
}

impl RouteHydration {
    /// What is said of the route.
    pub open spec fn view(&self) -> RouteHydrationView {
        RouteHydrationView {
            global_id: self.global_id,
            id: self.id@,
            label: self.label@,
            route_type: self.route_type@,
            color: text_view(self.color),
            text_color: text_view(self.text_color),
        }
    }
}

impl TripHydration {
    /// What is said of the trip.
    pub open spec fn view(&self) -> TripHydrationView {
        TripHydrationView { global_id: self.global_id, id: self.id@, headsign: text_view(self.headsign) }
    }
}

/// A leg that refers to its stops and its line by number.
#[derive(Clone, Debug)]
pub struct DeferredLegRef {
    pub leg: usize,
    pub from_stop_gid: u64,
    pub to_stop_gid: u64,
    pub intermediate_stop_gids: Vec<u64>,
    pub polyline_index: usize,
}

/// Everything that legs refer to, each once, and the legs.
pub struct DeferredHydrationResponse {
    pub stops: Vec<StopSearchResult>,
    pub routes: Vec<RouteHydration>,
    pub trips: Vec<TripHydration>,
    pub polylines: Vec<Vec<PolylinePoint>>,
    pub legs: Vec<DeferredLegRef>,
}

/// A leg that refers to its stops and its line by number, as plain values.
pub struct LegRefView {
    pub leg: int,
    pub from_stop_gid: u64,
    pub to_stop_gid: u64,
    pub intermediate_stop_gids: Seq<u64>,
    pub polyline_index: int,
}

/// Everything that legs refer to, as plain values.
pub struct HydrationView {
    pub stops: Seq<StopResultView>,
    pub routes: Seq<RouteHydrationView>,
    pub trips: Seq<TripHydrationView>,
    pub polylines: Seq<Seq<PolylinePoint>>,
    pub legs: Seq<LegRefView>,
}

/// Stops as plain values.
pub open spec fn results_view(stops: Seq<StopSearchResult>) -> Seq<StopResultView> {
    Seq::new(stops.len(), |i: int| stops[i]@)
}

impl DeferredHydrationResponse {
    /// The response as plain values.
    pub open spec fn view(&self) -> HydrationView {
        HydrationView {
            stops: results_view(self.stops@),
            routes: Seq::new(self.routes@.len(), |i: int| self.routes@[i]@),
            trips: Seq::new(self.trips@.len(), |i: int| self.trips@[i]@),
            polylines: Seq::new(self.polylines@.len(), |i: int| self.polylines@[i]@),
            legs: Seq::new(
                self.legs@.len(),
                |i: int|
                    LegRefView {
                        leg: self.legs@[i].leg as int,
                        from_stop_gid: self.legs@[i].from_stop_gid,
                        to_stop_gid: self.legs@[i].to_stop_gid,
                        intermediate_stop_gids: self.legs@[i].intermediate_stop_gids@,
                        polyline_index: self.legs@[i].polyline_index as int,
                    },
            ),
        }
    }
}

/// What is written to a hasher for the first `n` points of a line.
pub open spec fn point_writes(points: Seq<PolylinePoint>, n: int) -> Seq<Seq<u8>>
    decreases n,
{
    if n <= 0 {
        Seq::empty()
    } else {
        point_writes(points, n - 1).push(spec_u64_to_le_bytes(points[n - 1].lat.bits)).push(spec_u64_to_le_bytes(points[n - 1].lon.bits))
    }
}

/// The number by which lines are taken to be the same: a hash of their points.
pub open spec fn fingerprint(points: Seq<PolylinePoint>) -> u64 {
    DefaultHasher::spec_finish(point_writes(points, points.len() as int))
}

/// The number by which lines are taken to be the same.
pub fn polyline_fingerprint(polyline: &Vec<PolylinePoint>) -> (hash: u64)
    ensures
        hash == fingerprint(polyline@),
{
    let mut hasher: DefaultHasher = DefaultHasher::new();
    let mut i: usize = 0;
    assert(hasher@ =~= Seq::<Seq<u8>>::empty());
    while i < polyline.len()
        invariant
            i <= polyline@.len(),
            hasher@ == point_writes(polyline@, i as int),
        decreases polyline.len() - i,
    {
        let lat: Vec<u8> = u64_to_le_bytes(polyline[i].lat.bits);
        let lon: Vec<u8> = u64_to_le_bytes(polyline[i].lon.bits);
        hasher.write(lat.as_slice());
        hasher.write(lon.as_slice());
        i = i + 1;
    }
    hasher.finish()
}

/// A list with a stop, unless it has one with its number.
pub open spec fn with_stop_result(stops: Seq<StopResultView>, stop: StopResultView) -> Seq<StopResultView> {
    if exists|i: int| 0 <= i < stops.len() && (#[trigger] stops[i]).global_id == stop.global_id { stops } else { stops.push(stop) }
}

/// A list with the first `n` of other stops that it does not have.
pub open spec fn with_stop_results(stops: Seq<StopResultView>, more: Seq<StopResultView>, n: int) -> Seq<StopResultView>
    decreases n,
{
    if n <= 0 { stops } else { with_stop_result(with_stop_results(stops, more, n - 1), more[n - 1]) }
}

/// A list with the route of a leg, unless it has one with its number.
pub open spec fn with_route(routes: Seq<RouteHydrationView>, leg: LegResponse) -> Seq<RouteHydrationView> {
    if leg.route_gid is None || leg.route_id is None || leg.route_label is None || leg.route_type is None {
        routes
    } else if exists|i: int| 0 <= i < routes.len() && (#[trigger] routes[i]).global_id == leg.route_gid->0 {
        routes
    } else {
        routes.push(
            RouteHydrationView {
                global_id: leg.route_gid->0,
                id: leg.route_id->0@,
                label: leg.route_label->0@,
                route_type: leg.route_type->0@,
                color: text_view(leg.route_color),
                text_color: text_view(leg.route_text_color),
            },
        )
    }
}

/// A list with the trip of a leg, unless it has one with its number.
pub open spec fn with_trip(trips: Seq<TripHydrationView>, leg: LegResponse) -> Seq<TripHydrationView> {
    if leg.trip_gid is None || leg.trip_id is None {
        trips
    } else if exists|i: int| 0 <= i < trips.len() && (#[trigger] trips[i]).global_id == leg.trip_gid->0 {
        trips
    } else {
        trips.push(TripHydrationView { global_id: leg.trip_gid->0, id: leg.trip_id->0@, headsign: text_view(leg.headsign) })
    }
}

/// The place of a line among others: the first, from the `k`th on, that is taken
/// to be the same, or behind them all.
pub open spec fn line_place(polylines: Seq<Seq<PolylinePoint>>, line: Seq<PolylinePoint>, k: int) -> int
    decreases polylines.len() - k,
{
    if k < 0 || k >= polylines.len() {
        polylines.len() as int
    } else if fingerprint(polylines[k]) == fingerprint(line) {
        k
    } else {
        line_place(polylines, line, k + 1)
    }
}

/// The numbers of stops.
pub open spec fn gids_of(stops: Seq<StopSearchResult>) -> Seq<u64> {
    Seq::new(stops.len(), |i: int| stops[i].global_id)
}

/// Everything that the first `n` legs refer to, each once and in the order in
/// which it is first referred to.
pub open spec fn hydrated(legs: Seq<LegResponse>, n: int) -> HydrationView
    decreases n,
{
    if n <= 0 {
        HydrationView { stops: Seq::empty(), routes: Seq::empty(), trips: Seq::empty(), polylines: Seq::empty(), legs: Seq::empty() }
    } else {
        let before = hydrated(legs, n - 1);
        let leg = legs[n - 1];
        let ends = with_stop_result(with_stop_result(before.stops, leg.from_stop@), leg.to_stop@);
        let between = results_view(leg.intermediate_stops@);
        let place = line_place(before.polylines, leg.polyline@, 0);
        HydrationView {
            stops: with_stop_results(ends, between, between.len() as int),
            routes: with_route(before.routes, leg),
            trips: with_trip(before.trips, leg),
            polylines: if place < before.polylines.len() { before.polylines } else { before.polylines.push(leg.polyline@) },
            legs: before.legs.push(
                LegRefView {
                    leg: n - 1,
                    from_stop_gid: leg.from_stop.global_id,
                    to_stop_gid: leg.to_stop.global_id,
                    intermediate_stop_gids: gids_of(leg.intermediate_stops@),
                    polyline_index: place,
                },
            ),
        }
    }
}

impl DeferredHydrationResponse {
    fn add_stop(&mut self, stop: &StopSearchResult)
        ensures
            final(self)@ == (HydrationView { stops: with_stop_result(old(self)@.stops, stop@), ..old(self)@ }),
    {
        let mut i: usize = 0;
        let ghost before = *self;
        while i < self.stops.len()
            invariant
                i <= self.stops@.len(),
                *self == before,
                forall|k: int| 0 <= k < i ==> (#[trigger] self.stops@[k]).global_id != stop.global_id,
            decreases self.stops.len() - i,
        {
            if self.stops[i].global_id == stop.global_id {
                assert(self@.stops[i as int].global_id == stop@.global_id);
                return;
            }
            i = i + 1;
        }
        proof {
            assert forall|k: int| 0 <= k < self@.stops.len() implies (#[trigger] self@.stops[k]).global_id != stop@.global_id by {
                assert(self.stops@[k].global_id != stop.global_id);
            }
        }
        self.stops.push(stop.copy());
        assert(self@.stops =~= before@.stops.push(stop@));
        assert(self@.routes =~= before@.routes);
        assert(self@.trips =~= before@.trips);
        assert(self@.polylines =~= before@.polylines);
        assert(self@.legs =~= before@.legs);
    }

    fn add_route(&mut self, leg: &LegResponse)
        ensures
            final(self)@ == (HydrationView { routes: with_route(old(self)@.routes, *leg), ..old(self)@ }),
    {
        let ghost before = *self;
        match (leg.route_gid, &leg.route_id, &leg.route_label, &leg.route_type) {
            (Some(gid), Some(id), Some(label), Some(route_type)) => {
                let mut i: usize = 0;
                while i < self.routes.len()
                    invariant
                        i <= self.routes@.len(),
                        *self == before,
                        before == *old(self),
                        leg.route_gid == Some(gid),
                        leg.route_id is Some && leg.route_label is Some && leg.route_type is Some,
                        forall|k: int| 0 <= k < i ==> (#[trigger] self.routes@[k]).global_id != gid,
                    decreases self.routes.len() - i,
                {
                    if self.routes[i].global_id == gid {
                        assert(self@.routes[i as int].global_id == gid);
                        return;
                    }
                    i = i + 1;
                }
                proof {
                    assert forall|k: int| 0 <= k < self@.routes.len() implies (#[trigger] self@.routes[k]).global_id != gid by {
                        assert(self.routes@[k].global_id != gid);
                    }
                }
                self.routes.push(
                    RouteHydration {
                        global_id: gid,
                        id: id.clone(),
                        label: label.clone(),
                        route_type: route_type.clone(),
                        color: copy_text(&leg.route_color),
                        text_color: copy_text(&leg.route_text_color),
                    },
                );
                assert(self@.routes =~= with_route(before@.routes, *leg));
                assert(self@.stops =~= before@.stops);
                assert(self@.trips =~= before@.trips);
                assert(self@.polylines =~= before@.polylines);
                assert(self@.legs =~= before@.legs);
            },
            _ => {},
        }
    }

    fn add_trip(&mut self, leg: &LegResponse)
        ensures
            final(self)@ == (HydrationView { trips: with_trip(old(self)@.trips, *leg), ..old(self)@ }),
    {
        let ghost before = *self;
        match (leg.trip_gid, &leg.trip_id) {
            (Some(gid), Some(id)) => {
                let mut i: usize = 0;
                while i < self.trips.len()
                    invariant
                        i <= self.trips@.len(),
                        *self == before,
                        before == *old(self),
                        leg.trip_gid == Some(gid),
                        leg.trip_id is Some,
                        forall|k: int| 0 <= k < i ==> (#[trigger] self.trips@[k]).global_id != gid,
                    decreases self.trips.len() - i,
                {
                    if self.trips[i].global_id == gid {
                        assert(self@.trips[i as int].global_id == gid);
                        return;
                    }
                    i = i + 1;
                }
                proof {
                    assert forall|k: int| 0 <= k < self@.trips.len() implies (#[trigger] self@.trips[k]).global_id != gid by {
                        assert(self.trips@[k].global_id != gid);
                    }
                }
                self.trips.push(TripHydration { global_id: gid, id: id.clone(), headsign: copy_text(&leg.headsign) });
                assert(self@.trips =~= with_trip(before@.trips, *leg));
                assert(self@.stops =~= before@.stops);
                assert(self@.routes =~= before@.routes);
                assert(self@.polylines =~= before@.polylines);
                assert(self@.legs =~= before@.legs);
            },
            _ => {},
        }
    }

    fn add_line(&mut self, line: &Vec<PolylinePoint>) -> (place: usize)
        ensures
            place == line_place(old(self)@.polylines, line@, 0),
            final(self)@ == (HydrationView {
                polylines: if place < old(self)@.polylines.len() { old(self)@.polylines } else { old(self)@.polylines.push(line@) },
                ..old(self)@
            }),
    {
        let ghost before = *self;
        let hash: u64 = polyline_fingerprint(line);
        let mut k: usize = 0;
        while k < self.polylines.len()
            invariant
                k <= self.polylines@.len(),
                *self == before,
                before == *old(self),
                hash == fingerprint(line@),
                line_place(self@.polylines, line@, 0) == line_place(self@.polylines, line@, k as int),
            decreases self.polylines.len() - k,
        {
            assert(self@.polylines[k as int] == self.polylines@[k as int]@);
            if polyline_fingerprint(&self.polylines[k]) == hash {
                return k;
            }
            k = k + 1;
        }
        let mut copy: Vec<PolylinePoint> = Vec::new();
        let mut i: usize = 0;
        while i < line.len()
            invariant
                i <= line@.len(),
                copy@ =~= line@.take(i as int),
            decreases line.len() - i,
        {
            copy.push(line[i]);
            i = i + 1;
        }
        assert(copy@ =~= line@);
        self.polylines.push(copy);
        assert(self@.polylines =~= before@.polylines.push(line@));
        assert(self@.stops =~= before@.stops);
        assert(self@.routes =~= before@.routes);
        assert(self@.trips =~= before@.trips);
        assert(self@.legs =~= before@.legs);
        k
    }
}

fn list_gids(stops: &Vec<StopSearchResult>) -> (gids: Vec<u64>)
    ensures
        gids@ == gids_of(stops@),
{
    let mut gids: Vec<u64> = Vec::new();
    let mut i: usize = 0;
    while i < stops.len()
        invariant
            i <= stops@.len(),
            gids@ =~= gids_of(stops@).take(i as int),
        decreases stops.len() - i,
    {
        gids.push(stops[i].global_id);
        i = i + 1;
    }
    assert(gids@ =~= gids_of(stops@));
    gids
}

/// Lists everything that legs refer to once, with legs that refer to it.
pub fn build_deferred_hydration(legs: &Vec<LegResponse>) -> (response: DeferredHydrationResponse)
    ensures
        response@ == hydrated(legs@, legs@.len() as int),
{
    let mut response: DeferredHydrationResponse = DeferredHydrationResponse {
        stops: Vec::new(),
        routes: Vec::new(),
        trips: Vec::new(),
        polylines: Vec::new(),
        legs: Vec::new(),
    };
    proof {
        let empty = hydrated(legs@, 0);
        assert(response@.stops =~= empty.stops);
        assert(response@.routes =~= empty.routes);
        assert(response@.trips =~= empty.trips);
        assert(response@.polylines =~= empty.polylines);
        assert(response@.legs =~= empty.legs);
    }
    let mut n: usize = 0;
    while n < legs.len()
        invariant
            n <= legs@.len(),
            response@ == hydrated(legs@, n as int),
        decreases legs.len() - n,
    {
        let leg: &LegResponse = &legs[n];
        let ghost start = response@;
        response.add_stop(&leg.from_stop);
        response.add_stop(&leg.to_stop);
        let ghost ends = response@;
        let ghost between = results_view(leg.intermediate_stops@);
        let mut i: usize = 0;
        while i < leg.intermediate_stops.len()
            invariant
                i <= leg.intermediate_stops@.len(),
                between == results_view(leg.intermediate_stops@),
                response@ == (HydrationView { stops: with_stop_results(ends.stops, between, i as int), ..ends }),
            decreases leg.intermediate_stops.len() - i,
        {
            assert(between[i as int] == leg.intermediate_stops@[i as int]@);
            response.add_stop(&leg.intermediate_stops[i]);
            i = i + 1;
        }
        response.add_route(leg);
        response.add_trip(leg);
        let place: usize = response.add_line(&leg.polyline);
        let ghost before = response;
        response.legs.push(
            DeferredLegRef {
                leg: n,
                from_stop_gid: leg.from_stop.global_id,
                to_stop_gid: leg.to_stop.global_id,
                intermediate_stop_gids: list_gids(&leg.intermediate_stops),
                polyline_index: place,
            },
        );
        n = n + 1;
        proof {
            let expected = hydrated(legs@, n as int);
            assert(response@.legs =~= expected.legs);
            assert(response@.stops =~= before@.stops);
            assert(response@.routes =~= before@.routes);
            assert(response@.trips =~= before@.trips);
            assert(response@.polylines =~= before@.polylines);
        }
    }
    response
}

proof fn stop_is_listed(stops: Seq<StopResultView>, stop: StopResultView, gid: u64)
    ensures
        has_gid(with_stop_result(stops, stop), stop.global_id),
        has_gid(stops, gid) ==> has_gid(with_stop_result(stops, stop), gid),
{
    let longer = with_stop_result(stops, stop);
    if longer != stops {
        assert(longer[stops.len() as int].global_id == stop.global_id);
    }
    if has_gid(stops, gid) {
        let i = choose|i: int| 0 <= i < stops.len() && (#[trigger] stops[i]).global_id == gid;
        assert(longer[i].global_id == gid);
    }
}

/// Whether a stop with a number is listed.
pub open spec fn has_gid(stops: Seq<StopResultView>, gid: u64) -> bool {
    exists|i: int| 0 <= i < stops.len() && (#[trigger] stops[i]).global_id == gid
}

proof fn stops_are_listed(stops: Seq<StopResultView>, more: Seq<StopResultView>, n: int, gid: u64)
    ensures
        has_gid(stops, gid) ==> has_gid(with_stop_results(stops, more, n), gid),
        forall|k: int| 0 <= k < n ==> has_gid(with_stop_results(stops, more, n), (#[trigger] more[k]).global_id),
    decreases n,
{
    if n > 0 {
        stops_are_listed(stops, more, n - 1, gid);
        let before = with_stop_results(stops, more, n - 1);
        stop_is_listed(before, more[n - 1], gid);
        assert forall|k: int| 0 <= k < n implies has_gid(with_stop_results(stops, more, n), (#[trigger] more[k]).global_id) by {
            stop_is_listed(before, more[n - 1], more[k].global_id);
        }
    }
}

/// Every number by which a leg refers to a stop is that of a stop that is listed,
/// and every number by which it refers to a line is that of a line.
pub proof fn references_resolve(legs: Seq<LegResponse>, n: int, i: int)
    requires
        0 <= i < n <= legs.len(),
    ensures
        ({
            let all = hydrated(legs, n);
            &&& all.legs.len() == n
            &&& has_gid(all.stops, all.legs[i].from_stop_gid)
            &&& has_gid(all.stops, all.legs[i].to_stop_gid)
            &&& forall|k: int| 0 <= k < all.legs[i].intermediate_stop_gids.len() ==> has_gid(all.stops, #[trigger] all.legs[i].intermediate_stop_gids[k])
            &&& 0 <= all.legs[i].polyline_index < all.polylines.len()
        }),
    decreases n,
{
    let all = hydrated(legs, n);
    let before = hydrated(legs, n - 1);
    let leg = legs[n - 1];
    legs_are_counted(legs, n - 1);
    let first = with_stop_result(before.stops, leg.from_stop@);
    let ends = with_stop_result(first, leg.to_stop@);
    let between = results_view(leg.intermediate_stops@);
    line_place_is_within(before.polylines, leg.polyline@, 0);
    assert forall|gid: u64| has_gid(before.stops, gid) implies #[trigger] has_gid(all.stops, gid) by {
        stop_is_listed(before.stops, leg.from_stop@, gid);
        stop_is_listed(first, leg.to_stop@, gid);
        stops_are_listed(ends, between, between.len() as int, gid);
    }
    if i < n - 1 {
        references_resolve(legs, n - 1, i);
        assert(all.legs[i] == before.legs[i]);
        assert forall|k: int| 0 <= k < all.legs[i].intermediate_stop_gids.len() implies has_gid(all.stops, #[trigger] all.legs[i].intermediate_stop_gids[k]) by {
            assert(has_gid(before.stops, before.legs[i].intermediate_stop_gids[k]));
        }
    } else {
        stop_is_listed(before.stops, leg.from_stop@, leg.from_stop.global_id);
        stop_is_listed(first, leg.to_stop@, leg.from_stop.global_id);
        stop_is_listed(first, leg.to_stop@, leg.to_stop.global_id);
        stops_are_listed(ends, between, between.len() as int, leg.from_stop.global_id);
        stops_are_listed(ends, between, between.len() as int, leg.to_stop.global_id);
        assert forall|k: int| 0 <= k < all.legs[i].intermediate_stop_gids.len() implies has_gid(all.stops, #[trigger] all.legs[i].intermediate_stop_gids[k]) by {
            assert(between[k].global_id == leg.intermediate_stops@[k].global_id);
        }
    }
}

proof fn legs_are_counted(legs: Seq<LegResponse>, n: int)
    requires
        0 <= n,
    ensures
        hydrated(legs, n).legs.len() == n,
    decreases n,
{
    if n > 0 {
        legs_are_counted(legs, n - 1);
    }
}

proof fn line_place_is_within(polylines: Seq<Seq<PolylinePoint>>, line: Seq<PolylinePoint>, k: int)
    requires
        0 <= k,
    ensures
        0 <= line_place(polylines, line, k) <= polylines.len(),
    decreases polylines.len() - k,
{
    if k < polylines.len() {
        line_place_is_within(polylines, line, k + 1);
    }
}

} // verus!
