//! What the records of the timetable say, and copies of them.

use crate::model::{FeedRecord, RouteRecord, StopRecord, TripRecord, TripStopRecord};
use crate::number::Real;
use crate::text::{copy_text, same_optional_text, same_text, text_view};
use vstd::prelude::*;
use vstd::string::*;

verus! {

/// What a stop record says.
pub struct StopView {
    pub global_id: u64,
    pub feed_index: u16,
    pub feed_id: Seq<char>,
    pub local_id: Seq<char>,
    pub id: Seq<char>,
    pub code: Option<Seq<char>>,
    pub name: Seq<char>,
    pub latitude: Option<Real>,
    pub longitude: Option<Real>,
    pub search_blob: Seq<char>,
}

/// What a route record says.
pub struct RouteView {
    pub global_id: u64,
    pub feed_index: u16,
    pub feed_id: Seq<char>,
    pub local_id: Seq<char>,
    pub id: Seq<char>,
    pub short_name: Option<Seq<char>>,
    pub long_name: Option<Seq<char>>,
    pub route_type: Seq<char>,
    pub color: Option<Seq<char>>,
    pub text_color: Option<Seq<char>>,
}

/// What a trip record says.
pub struct TripView {
    pub global_id: u64,
    pub feed_index: u16,
    pub feed_id: Seq<char>,
    pub local_id: Seq<char>,
    pub id: Seq<char>,
    pub route_index: usize,
    pub shape_id: Option<Seq<char>>,
    pub shape_stop_point_indices: Option<Seq<u32>>,
    pub headsign: Option<Seq<char>>,
    pub stop_times: Seq<TripStopRecord>,
}

/// What a feed record says.
pub struct FeedView {
    pub feed_index: u16,
    pub id: Seq<char>,
    pub static_gtfs_path: Seq<char>,
    pub depends_on: Seq<Seq<char>>,
}

/// An optional list as a sequence.
pub open spec fn list_view(list: Option<Vec<u32>>) -> Option<Seq<u32>> {
    match list {
        Some(values) => Some(values@),
        None => None,
    }
}

impl StopRecord {
    /// What the record says.
    pub open spec fn view(&self) -> StopView {
        StopView {
            global_id: self.global_id,
            feed_index: self.feed_index,
            feed_id: self.feed_id@,
            local_id: self.local_id@,
            id: self.id@,
            code: text_view(self.code),
            name: self.name@,
            latitude: self.latitude,
            longitude: self.longitude,
            search_blob: self.search_blob@,
        }
    }
}

impl RouteRecord {
    /// What the record says.
    pub open spec fn view(&self) -> RouteView {
        RouteView {
            global_id: self.global_id,
            feed_index: self.feed_index,
            feed_id: self.feed_id@,
            local_id: self.local_id@,
            id: self.id@,
            short_name: text_view(self.short_name),
            long_name: text_view(self.long_name),
            route_type: self.route_type@,
            color: text_view(self.color),
            text_color: text_view(self.text_color),
        }
    }
}

impl TripRecord {
    /// What the record says.
    pub open spec fn view(&self) -> TripView {
        TripView {
            global_id: self.global_id,
            feed_index: self.feed_index,
            feed_id: self.feed_id@,
            local_id: self.local_id@,
            id: self.id@,
            route_index: self.route_index,
            shape_id: text_view(self.shape_id),
            shape_stop_point_indices: list_view(self.shape_stop_point_indices),
            headsign: text_view(self.headsign),
            stop_times: self.stop_times@,
        }
    }
}

impl FeedRecord {
    /// What the record says.
    pub open spec fn view(&self) -> FeedView {
        FeedView {
            feed_index: self.feed_index,
            id: self.id@,
            static_gtfs_path: self.static_gtfs_path@,
            depends_on: crate::text_order::texts_view(self.depends_on@),
        }
    }
}

/// What stop records say.
pub open spec fn stops_view(stops: Seq<StopRecord>) -> Seq<StopView> {
    Seq::new(stops.len(), |i: int| stops[i]@)
}

/// What route records say.
pub open spec fn routes_view(routes: Seq<RouteRecord>) -> Seq<RouteView> {
    Seq::new(routes.len(), |i: int| routes[i]@)
}

/// What trip records say.
pub open spec fn trips_view(trips: Seq<TripRecord>) -> Seq<TripView> {
    Seq::new(trips.len(), |i: int| trips[i]@)
}

/// What feed records say.
pub open spec fn feeds_view(feeds: Seq<FeedRecord>) -> Seq<FeedView> {
    Seq::new(feeds.len(), |i: int| feeds[i]@)
}

/// Texts, copied.
pub fn copy_texts(texts: &Vec<String>) -> (copy: Vec<String>)
    ensures
        crate::text_order::texts_view(copy@) == crate::text_order::texts_view(texts@),
{
    let mut copy: Vec<String> = Vec::new();
    let mut i: usize = 0;
    while i < texts.len()
        invariant
            i <= texts.len(),
            copy@.len() == i,
            forall|k: int| 0 <= k < i ==> (#[trigger] copy@[k])@ == texts@[k]@,
        decreases texts.len() - i,
    {
        copy.push(texts[i].clone());
        i = i + 1;
    }
    assert(crate::text_order::texts_view(copy@) =~= crate::text_order::texts_view(texts@));
    copy
}

/// A list, copied.
pub fn copy_list(list: &Option<Vec<u32>>) -> (copy: Option<Vec<u32>>)
    ensures
        list_view(copy) == list_view(*list),
{
    match list {
        None => None,
        Some(values) => {
            let mut copied: Vec<u32> = Vec::new();
            let mut i: usize = 0;
            while i < values.len()
                invariant
                    i <= values.len(),
                    copied@ == values@.take(i as int),
                decreases values.len() - i,
            {
                copied.push(values[i]);
                i = i + 1;
                assert(copied@ =~= values@.take(i as int));
            }
            assert(values@.take(i as int) =~= values@);
            Some(copied)
        },
    }
}

/// The calls of a trip, copied.
pub fn copy_calls(calls: &Vec<TripStopRecord>) -> (copy: Vec<TripStopRecord>)
    ensures
        copy@ == calls@,
{
    let mut copy: Vec<TripStopRecord> = Vec::new();
    let mut i: usize = 0;
    while i < calls.len()
        invariant
            i <= calls.len(),
            copy@ == calls@.take(i as int),
        decreases calls.len() - i,
    {
        copy.push(calls[i]);
        i = i + 1;
        assert(copy@ =~= calls@.take(i as int));
    }
    assert(calls@.take(i as int) =~= calls@);
    copy
}

/// A stop record, copied.
pub fn copy_stop(stop: &StopRecord) -> (copy: StopRecord)
    ensures
        copy@ == stop@,
{
    StopRecord {
        global_id: stop.global_id,
        feed_index: stop.feed_index,
        feed_id: stop.feed_id.clone(),
        local_id: stop.local_id.clone(),
        id: stop.id.clone(),
        code: copy_text(&stop.code),
        name: stop.name.clone(),
        latitude: stop.latitude,
        longitude: stop.longitude,
        search_blob: stop.search_blob.clone(),
    }
}

/// A route record, copied.
pub fn copy_route(route: &RouteRecord) -> (copy: RouteRecord)
    ensures
        copy@ == route@,
{
    RouteRecord {
        global_id: route.global_id,
        feed_index: route.feed_index,
        feed_id: route.feed_id.clone(),
        local_id: route.local_id.clone(),
        id: route.id.clone(),
        short_name: copy_text(&route.short_name),
        long_name: copy_text(&route.long_name),
        route_type: route.route_type.clone(),
        color: copy_text(&route.color),
        text_color: copy_text(&route.text_color),
    }
}

/// A trip record, copied.
pub fn copy_trip(trip: &TripRecord) -> (copy: TripRecord)
    ensures
        copy@ == trip@,
{
    TripRecord {
        global_id: trip.global_id,
        feed_index: trip.feed_index,
        feed_id: trip.feed_id.clone(),
        local_id: trip.local_id.clone(),
        id: trip.id.clone(),
        route_index: trip.route_index,
        shape_id: copy_text(&trip.shape_id),
        shape_stop_point_indices: copy_list(&trip.shape_stop_point_indices),
        headsign: copy_text(&trip.headsign),
        stop_times: copy_calls(&trip.stop_times),
    }
}

/// Whether two optional places are the same number.
pub open spec fn same_place(a: Option<Real>, b: Option<Real>) -> bool {
    match (a, b) {
        (Some(x), Some(y)) => !x.is_nan_spec() && !y.is_nan_spec() && x.rank() == y.rank(),
        (None, None) => true,
        _ => false,
    }
}

fn places_equal(a: Option<Real>, b: Option<Real>) -> (same: bool)
    ensures
        same == same_place(a, b),
{
    match (a, b) {
        (Some(x), Some(y)) => x.equals(y),
        (None, None) => true,
        _ => false,
    }
}

/// Whether two stop records describe the same stop.
pub open spec fn stops_equivalent(a: StopView, b: StopView) -> bool {
    a.id == b.id && a.code == b.code && a.name == b.name && same_place(a.latitude, b.latitude) && same_place(a.longitude, b.longitude)
}

/// Whether two stop records describe the same stop.
pub fn stop_records_equivalent(left: &StopRecord, right: &StopRecord) -> (same: bool)
    ensures
        same == stops_equivalent(left@, right@),
{
    same_text(left.id.as_str(), right.id.as_str()) && same_optional_text(&left.code, &right.code) && same_text(left.name.as_str(), right.name.as_str())
        && places_equal(left.latitude, right.latitude) && places_equal(left.longitude, right.longitude)
}

/// Whether two route records describe the same route.
pub open spec fn routes_equivalent(a: RouteView, b: RouteView) -> bool {
    a.id == b.id && a.short_name == b.short_name && a.long_name == b.long_name && a.route_type == b.route_type && a.color == b.color
        && a.text_color == b.text_color
}

/// Whether two route records describe the same route.
pub fn route_records_equivalent(left: &RouteRecord, right: &RouteRecord) -> (same: bool)
    ensures
        same == routes_equivalent(left@, right@),
{
    same_text(left.id.as_str(), right.id.as_str()) && same_optional_text(&left.short_name, &right.short_name)
        && same_optional_text(&left.long_name, &right.long_name) && same_text(left.route_type.as_str(), right.route_type.as_str())
        && same_optional_text(&left.color, &right.color) && same_optional_text(&left.text_color, &right.text_color)
}

/// Whether two calls are at the same time at the same stop.
pub open spec fn calls_equivalent(a: TripStopRecord, a_stops: Seq<StopView>, b: TripStopRecord, b_stops: Seq<StopView>) -> bool {
    a.arrival_secs == b.arrival_secs && a.departure_secs == b.departure_secs && a.stop_sequence == b.stop_sequence
        && a_stops[a.stop_index as int].id == b_stops[b.stop_index as int].id
}

/// Whether two trip records describe the same trip.
pub open spec fn trips_equivalent(
    a: TripView,
    a_routes: Seq<RouteView>,
    a_stops: Seq<StopView>,
    b: TripView,
    b_routes: Seq<RouteView>,
    b_stops: Seq<StopView>,
) -> bool {
    &&& routes_equivalent(a_routes[a.route_index as int], b_routes[b.route_index as int])
    &&& a.shape_id == b.shape_id
    &&& a.shape_stop_point_indices == b.shape_stop_point_indices
    &&& a.headsign == b.headsign
    &&& a.stop_times.len() == b.stop_times.len()
    &&& forall|i: int| 0 <= i < a.stop_times.len() ==> calls_equivalent(#[trigger] a.stop_times[i], a_stops, b.stop_times[i], b_stops)
}

/// Whether a trip refers to routes and stops that are there.
pub open spec fn trip_refers(trip: TripView, routes: int, stops: int) -> bool {
    trip.route_index < routes && forall|i: int| 0 <= i < trip.stop_times.len() ==> (#[trigger] trip.stop_times[i]).stop_index < stops
}

fn lists_equal(a: &Option<Vec<u32>>, b: &Option<Vec<u32>>) -> (same: bool)
    ensures
        same == (list_view(*a) == list_view(*b)),
{
    match (a, b) {
        (None, None) => true,
        (Some(x), Some(y)) => {
            if x.len() != y.len() {
                return false;
            }
            let mut i: usize = 0;
            while i < x.len()
                invariant
                    i <= x.len(),
                    list_view(*a) == Some(x@),
                    list_view(*b) == Some(y@),
                    x@.len() == y@.len(),
                    forall|k: int| 0 <= k < i ==> x@[k] == y@[k],
                decreases x.len() - i,
            {
                if x[i] != y[i] {
                    assert(x@[i as int] != y@[i as int]);
                    return false;
                }
                i = i + 1;
            }
            assert(x@ =~= y@);
            true
        },
        _ => false,
    }
}

/// Whether two trip records describe the same trip.
pub fn trip_records_equivalent(
    left: &TripRecord,
    left_routes: &Vec<RouteRecord>,
    left_stops: &Vec<StopRecord>,
    right: &TripRecord,
    right_routes: &Vec<RouteRecord>,
    right_stops: &Vec<StopRecord>,
) -> (same: bool)
    requires
        trip_refers(left@, left_routes@.len() as int, left_stops@.len() as int),
        trip_refers(right@, right_routes@.len() as int, right_stops@.len() as int),
    ensures
        same == trips_equivalent(left@, routes_view(left_routes@), stops_view(left_stops@), right@, routes_view(right_routes@), stops_view(right_stops@)),
{
    if !route_records_equivalent(&left_routes[left.route_index], &right_routes[right.route_index]) {
        return false;
    }
    if !same_optional_text(&left.shape_id, &right.shape_id) || !lists_equal(&left.shape_stop_point_indices, &right.shape_stop_point_indices)
        || !same_optional_text(&left.headsign, &right.headsign) {
        return false;
    }
    if left.stop_times.len() != right.stop_times.len() {
        return false;
    }
    let ghost a_stops = stops_view(left_stops@);
    let ghost b_stops = stops_view(right_stops@);
    let mut i: usize = 0;
    while i < left.stop_times.len()
        invariant
            i <= left.stop_times.len(),
            left.stop_times@.len() == right.stop_times@.len(),
            trip_refers(left@, left_routes@.len() as int, left_stops@.len() as int),
            trip_refers(right@, right_routes@.len() as int, right_stops@.len() as int),
            a_stops == stops_view(left_stops@),
            b_stops == stops_view(right_stops@),
            forall|k: int| 0 <= k < i ==> calls_equivalent(#[trigger] left.stop_times@[k], a_stops, right.stop_times@[k], b_stops),
        decreases left.stop_times.len() - i,
    {
        let a: TripStopRecord = left.stop_times[i];
        let b: TripStopRecord = right.stop_times[i];
        assert(left@.stop_times[i as int].stop_index < left_stops@.len());
        assert(right@.stop_times[i as int].stop_index < right_stops@.len());
        assert(a_stops[a.stop_index as int].id == left_stops@[a.stop_index as int].id@);
        assert(b_stops[b.stop_index as int].id == right_stops@[b.stop_index as int].id@);
        if !(a.arrival_secs == b.arrival_secs && a.departure_secs == b.departure_secs && a.stop_sequence == b.stop_sequence && same_text(
            left_stops[a.stop_index].id.as_str(),
            right_stops[b.stop_index].id.as_str(),
        )) {
            assert(!calls_equivalent(left@.stop_times[i as int], a_stops, right@.stop_times[i as int], b_stops));
            return false;
        }
        i = i + 1;
    }
    true
}

/// A trip record describes the same trip as itself, and so does a copy that
/// refers to the same tables.
pub proof fn trip_equivalence_is_reflexive(trip: TripView, routes: Seq<RouteView>, stops: Seq<StopView>)
    ensures
        trips_equivalent(trip, routes, stops, trip, routes, stops),
{
}

} // verus!
