//! Building the timetable from the feeds.

use crate::day_services::{services_on, DayServices};
use crate::ids::{namespaced, namespaced_id, pack_global_id, packed_id, EntityKind, IdError, ENTITY_ORDINAL_MASK};
use crate::lines::{lines_at, lines_of, rebuild_lines_and_stop_to_lines, trip_in_bounds};
use crate::model::{
    FeedConfig, FeedRecord, LineRecord, RouteRecord, ShapePoint, StopLineRef, StopRecord, TripRecord, TripStopRecord,
};
use crate::number::{Real, ShortReal};
use crate::records::{
    copy_list, copy_texts, feeds_view, list_view, routes_view, stops_view, trips_view, FeedView, RouteView, StopView, TripView,
};
use crate::text::{copy_text, lowercase, lowercase_text, push_char, text_view, trim_text, trimmed};
use crate::text_map::TextMap;
use crate::text_order::{is_text_order, text_order, text_order_of, texts_view};
use std::collections::HashMap;
use vstd::hash_map::StringHashMap;
use vstd::prelude::*;
use vstd::string::*;

verus! {

/// A stop as a feed gives it.
#[derive(Clone, Debug)]
pub struct GtfsStop {
    pub id: String,
    pub code: Option<String>,
    pub name: Option<String>,
    pub latitude: Option<Real>,
    pub longitude: Option<Real>,
}

/// A route as a feed gives it. Colours are red, green and blue.
#[derive(Clone, Debug)]
pub struct GtfsRoute {
    pub id: String,
    pub short_name: Option<String>,
    pub long_name: Option<String>,
    pub route_type: String,
    pub color: Option<(u8, u8, u8)>,
    pub text_color: Option<(u8, u8, u8)>,
}

/// A call of a trip as a feed gives it.
#[derive(Clone, Debug)]
pub struct GtfsStopTime {
    pub stop_id: String,
    pub arrival_time: Option<u32>,
    pub departure_time: Option<u32>,
    pub stop_sequence: u32,
    pub shape_dist_traveled: Option<ShortReal>,
}

/// A trip as a feed gives it, with the points of its path that are nearest to its
/// stops.
#[derive(Clone, Debug)]
pub struct GtfsTrip {
    pub id: String,
    pub route_id: String,
    pub service_id: String,
    pub shape_id: Option<String>,
    pub headsign: Option<String>,
    pub stop_times: Vec<GtfsStopTime>,
    pub projected_stop_points: Option<Vec<u32>>,
}

/// A path as a feed gives it.
#[derive(Clone, Debug)]
pub struct GtfsShape {
    pub id: String,
    pub points: Vec<ShapePoint>,
}

/// The days of the week on which a service runs between two days.
#[derive(Clone, Debug)]
pub struct CalendarRule {
    pub service_id: String,
    pub start_day: i32,
    pub end_day: i32,
    pub monday: bool,
    pub tuesday: bool,
    pub wednesday: bool,
    pub thursday: bool,
    pub friday: bool,
    pub saturday: bool,
    pub sunday: bool,
}

/// A day on which a service runs, or does not, against its rule.
#[derive(Clone, Debug)]
pub struct CalendarException {
    pub service_id: String,
    pub day: i32,
    pub added: bool,
}

/// A feed.
#[derive(Clone, Debug)]
pub struct GtfsFeed {
    pub stops: Vec<GtfsStop>,
    pub routes: Vec<GtfsRoute>,
    pub shapes: Vec<GtfsShape>,
    pub trips: Vec<GtfsTrip>,
    pub calendar: Vec<CalendarRule>,
    pub exceptions: Vec<CalendarException>,
}

/// Why no timetable could be built.
#[derive(Clone, Debug)]
pub enum CoreError {
    /// There are more entities than can be numbered.
    Id(IdError),
    /// A trip is on a route that the feed does not have.
    MissingRoute { route_id: String, trip_id: String },
    /// A trip calls at a stop that the feed does not have.
    MissingStop { stop_id: String, trip_id: String, feed_id: String },
    /// A call of a trip has no time.
    MissingTimes { trip_id: String },
}

/// What an error says.
pub enum CoreErrorView {
    Id(IdError),
    MissingRoute { route_id: Seq<char>, trip_id: Seq<char> },
    MissingStop { stop_id: Seq<char>, trip_id: Seq<char>, feed_id: Seq<char> },
    MissingTimes { trip_id: Seq<char> },
}

impl CoreError {
    /// What the error says.
    pub open spec fn view(&self) -> CoreErrorView {
        match *self {
            CoreError::Id(error) => CoreErrorView::Id(error),
            CoreError::MissingRoute { route_id, trip_id } => CoreErrorView::MissingRoute { route_id: route_id@, trip_id: trip_id@ },
            CoreError::MissingStop { stop_id, trip_id, feed_id } => CoreErrorView::MissingStop { stop_id: stop_id@, trip_id: trip_id@, feed_id: feed_id@ },
            CoreError::MissingTimes { trip_id } => CoreErrorView::MissingTimes { trip_id: trip_id@ },
        }
    }
}

/// A timetable before walks are added: what was built from the feeds.
pub struct StaticCore {
    pub feeds: Vec<FeedRecord>,
    pub stops: Vec<StopRecord>,
    pub active_stop_indices: Vec<usize>,
    pub stop_lookup: StringHashMap<usize>,
    pub stop_lookup_by_global_id: HashMap<u64, usize>,
    pub routes: Vec<RouteRecord>,
    pub active_route_indices: Vec<usize>,
    pub trips: Vec<TripRecord>,
    pub active_trip_indices: Vec<usize>,
    pub trip_lookup_by_feed: Vec<StringHashMap<usize>>,
    pub service_to_trip_indices: TextMap<Vec<usize>>,
    pub lines: Vec<LineRecord>,
    pub stop_to_lines: Vec<Vec<StopLineRef>>,
    pub service_by_date: DayServices,
    pub shapes: TextMap<Vec<ShapePoint>>,
}

/// What the feeds have given so far.
pub struct CoreView {
    pub feeds: Seq<FeedView>,
    pub stops: Seq<StopView>,
    pub routes: Seq<RouteView>,
    pub trips: Seq<TripView>,
    pub stop_ids: Map<Seq<char>, usize>,
    pub stop_numbers: Map<u64, usize>,
    pub feed_trips: Seq<Map<Seq<char>, usize>>,
    pub services: Map<Seq<char>, Seq<usize>>,
    pub calendar: Map<i32, Set<Seq<char>>>,
    pub shapes: Map<Seq<char>, Seq<ShapePoint>>,
}

/// The lookups of each feed as maps.
pub open spec fn lookups_view(lookups: Seq<StringHashMap<usize>>) -> Seq<Map<Seq<char>, usize>> {
    Seq::new(lookups.len(), |i: int| lookups[i]@)
}

/// The lists of points as sequences.
pub open spec fn shapes_view(shapes: Map<Seq<char>, Vec<ShapePoint>>) -> Map<Seq<char>, Seq<ShapePoint>> {
    Map::new(|id: Seq<char>| shapes.dom().contains(id), |id: Seq<char>| shapes[id]@)
}

struct CoreBuilder {
    feeds: Vec<FeedRecord>,
    stops: Vec<StopRecord>,
    routes: Vec<RouteRecord>,
    trips: Vec<TripRecord>,
    stop_ids: StringHashMap<usize>,
    stop_numbers: HashMap<u64, usize>,
    feed_trips: Vec<StringHashMap<usize>>,
    services: TextMap<Vec<usize>>,
    calendar: DayServices,
    shapes: TextMap<Vec<ShapePoint>>,
}

impl CoreBuilder {
    spec fn view(&self) -> CoreView {
        CoreView {
            feeds: feeds_view(self.feeds@),
            stops: stops_view(self.stops@),
            routes: routes_view(self.routes@),
            trips: trips_view(self.trips@),
            stop_ids: self.stop_ids@,
            stop_numbers: self.stop_numbers@,
            feed_trips: lookups_view(self.feed_trips@),
            services: self.services.lists(),
            calendar: self.calendar@,
            shapes: shapes_view(self.shapes@),
        }
    }

    spec fn wf(&self) -> bool {
        self.services.wf() && self.calendar.wf() && self.shapes.wf()
    }
}

/// The name of a stop: as given, without white space around it; its id where it
/// has none.
pub open spec fn stop_name(stop: GtfsStop) -> Seq<char> {
    match stop.name {
        Some(name) => if trim_text(name@).len() > 0 { trim_text(name@) } else { stop.id@ },
        None => stop.id@,
    }
}

/// A text that may be missing, as a text.
pub open spec fn text_or_empty(text: Option<String>) -> Seq<char> {
    match text {
        Some(value) => value@,
        None => Seq::empty(),
    }
}

/// The record of the `k`th stop of a feed.
pub open spec fn stop_record(feed: FeedConfig, stop: GtfsStop, k: int) -> StopView {
    let id = namespaced(feed.id@, stop.id@);
    let name = stop_name(stop);
    StopView {
        global_id: packed_id(feed.feed_index, EntityKind::Stop, k) as u64,
        feed_index: feed.feed_index,
        feed_id: feed.id@,
        local_id: stop.id@,
        id: id,
        code: text_view(stop.code),
        name: name,
        latitude: stop.latitude,
        longitude: stop.longitude,
        search_blob: lowercase_text(id + seq![' '] + stop.id@ + seq![' '] + text_or_empty(stop.code) + seq![' '] + feed.id@ + seq![' '] + name),
    }
}

/// What the stops of a feed give, and where each of them is.
pub struct StopsAdded {
    pub core: CoreView,
    pub local: Map<Seq<char>, usize>,
}

/// The timetable with the first `n` of the stops of a feed, in order of their
/// ids.
pub open spec fn with_stops(core: CoreView, feed: FeedConfig, stops: Seq<GtfsStop>, order: Seq<usize>, n: int) -> Result<StopsAdded, CoreErrorView>
    decreases n,
{
    if n <= 0 {
        Ok(StopsAdded { core: core, local: Map::empty() })
    } else {
        match with_stops(core, feed, stops, order, n - 1) {
            Err(error) => Err(error),
            Ok(before) => if n - 1 > ENTITY_ORDINAL_MASK {
                Err(CoreErrorView::Id(IdError::OrdinalTooLarge((n - 1) as u64)))
            } else {
                let stop = stops[order[n - 1] as int];
                let record = stop_record(feed, stop, n - 1);
                let index = before.core.stops.len() as usize;
                Ok(
                    StopsAdded {
                        core: CoreView {
                            stops: before.core.stops.push(record),
                            stop_ids: before.core.stop_ids.insert(record.id, index),
                            stop_numbers: before.core.stop_numbers.insert(record.global_id, index),
                            ..before.core
                        },
                        local: before.local.insert(stop.id@, index),
                    },
                )
            },
        }
    }
}

/// The upper-case hexadecimal digit of a number below sixteen.
pub open spec fn upper_digit(digit: int) -> char {
    if digit == 10 { 'A' } else if digit == 11 { 'B' } else if digit == 12 { 'C' } else if digit == 13 { 'D' } else if digit == 14 { 'E' } else if digit == 15 { 'F' }
    else { crate::text::digit_char(digit) }
}

/// A colour as `#RRGGBB`.
pub open spec fn color_text(color: (u8, u8, u8)) -> Seq<char> {
    seq!['#', upper_digit(color.0 as int / 16), upper_digit(color.0 as int % 16), upper_digit(color.1 as int / 16), upper_digit(color.1 as int % 16), upper_digit(color.2 as int / 16), upper_digit(color.2 as int % 16)]
}

/// A colour that may be missing.
pub open spec fn optional_color(color: Option<(u8, u8, u8)>) -> Option<Seq<char>> {
    match color {
        Some(value) => Some(color_text(value)),
        None => None,
    }
}

/// The record of the `k`th route of a feed.
pub open spec fn route_record(feed: FeedConfig, route: GtfsRoute, k: int) -> RouteView {
    RouteView {
        global_id: packed_id(feed.feed_index, EntityKind::Route, k) as u64,
        feed_index: feed.feed_index,
        feed_id: feed.id@,
        local_id: route.id@,
        id: namespaced(feed.id@, route.id@),
        short_name: text_view(route.short_name),
        long_name: text_view(route.long_name),
        route_type: route.route_type@,
        color: optional_color(route.color),
        text_color: optional_color(route.text_color),
    }
}

/// The timetable with the first `n` of the routes of a feed, in order of their
/// ids.
pub open spec fn with_routes(core: CoreView, feed: FeedConfig, routes: Seq<GtfsRoute>, order: Seq<usize>, n: int) -> Result<StopsAdded, CoreErrorView>
    decreases n,
{
    if n <= 0 {
        Ok(StopsAdded { core: core, local: Map::empty() })
    } else {
        match with_routes(core, feed, routes, order, n - 1) {
            Err(error) => Err(error),
            Ok(before) => if n - 1 > ENTITY_ORDINAL_MASK {
                Err(CoreErrorView::Id(IdError::OrdinalTooLarge((n - 1) as u64)))
            } else {
                let route = routes[order[n - 1] as int];
                let index = before.core.routes.len() as usize;
                Ok(
                    StopsAdded {
                        core: CoreView { routes: before.core.routes.push(route_record(feed, route, n - 1)), ..before.core },
                        local: before.local.insert(route.id@, index),
                    },
                )
            },
        }
    }
}

/// The timetable with the first `n` of the paths of a feed.
pub open spec fn with_shapes(shapes: Map<Seq<char>, Seq<ShapePoint>>, feed_id: Seq<char>, given: Seq<GtfsShape>, n: int) -> Map<Seq<char>, Seq<ShapePoint>>
    decreases n,
{
    if n <= 0 {
        shapes
    } else {
        with_shapes(shapes, feed_id, given, n - 1).insert(namespaced(feed_id, given[n - 1].id@), given[n - 1].points@)
    }
}

/// The time of a call: that given, or else the other of the two.
pub open spec fn call_time(first: Option<u32>, second: Option<u32>) -> Option<i32> {
    match first {
        Some(value) => Some(value as i32),
        None => match second {
            Some(value) => Some(value as i32),
            None => None,
        },
    }
}

/// The first `n` calls of a trip.
pub open spec fn trip_calls(feed_id: Seq<char>, trip: GtfsTrip, local: Map<Seq<char>, usize>, n: int) -> Result<Seq<TripStopRecord>, CoreErrorView>
    decreases n,
{
    if n <= 0 {
        Ok(Seq::empty())
    } else {
        match trip_calls(feed_id, trip, local, n - 1) {
            Err(error) => Err(error),
            Ok(before) => {
                let call = trip.stop_times@[n - 1];
                let arrival = call_time(call.arrival_time, call.departure_time);
                let departure = call_time(call.departure_time, call.arrival_time);
                if !local.dom().contains(call.stop_id@) {
                    Err(CoreErrorView::MissingStop { stop_id: call.stop_id@, trip_id: trip.id@, feed_id: feed_id })
                } else if arrival is None || departure is None {
                    Err(CoreErrorView::MissingTimes { trip_id: trip.id@ })
                } else {
                    Ok(
                        before.push(
                            TripStopRecord {
                                stop_index: local[call.stop_id@],
                                arrival_secs: arrival->0,
                                departure_secs: departure->0,
                                stop_sequence: call.stop_sequence,
                                shape_dist_traveled: call.shape_dist_traveled,
                            },
                        ),
                    )
                }
            },
        }
    }
}

/// Whether some distance along a path is not given, so that the stops have to be
/// projected onto it.
pub open spec fn lacks_distances(calls: Seq<TripStopRecord>, points: Seq<ShapePoint>) -> bool {
    ||| exists|i: int| 0 <= i < calls.len() && (#[trigger] calls[i]).shape_dist_traveled is None
    ||| exists|i: int| 0 <= i < points.len() && (#[trigger] points[i]).dist_traveled is None
}

/// The name of a path within its feed.
pub open spec fn shape_name(feed_id: Seq<char>, shape_id: Option<String>) -> Option<Seq<char>> {
    match shape_id {
        Some(id) => Some(namespaced(feed_id, id@)),
        None => None,
    }
}

/// The points of the path nearest to the stops of a trip, where they are needed.
pub open spec fn projected_points(shapes: Map<Seq<char>, Seq<ShapePoint>>, shape: Option<Seq<char>>, calls: Seq<TripStopRecord>, given: Option<Vec<u32>>) -> Option<Seq<u32>> {
    match shape {
        Some(id) => if shapes.dom().contains(id) && lacks_distances(calls, shapes[id]) { list_view(given) } else { None },
        None => None,
    }
}

/// The record of the `k`th trip of a feed.
pub open spec fn trip_record(feed: FeedConfig, trip: GtfsTrip, k: int, route_index: usize, shapes: Map<Seq<char>, Seq<ShapePoint>>, calls: Seq<TripStopRecord>) -> TripView {
    let shape = shape_name(feed.id@, trip.shape_id);
    TripView {
        global_id: packed_id(feed.feed_index, EntityKind::Trip, k) as u64,
        feed_index: feed.feed_index,
        feed_id: feed.id@,
        local_id: trip.id@,
        id: namespaced(feed.id@, trip.id@),
        route_index: route_index,
        shape_id: shape,
        shape_stop_point_indices: projected_points(shapes, shape, calls, trip.projected_stop_points),
        headsign: text_view(trip.headsign),
        stop_times: calls,
    }
}

/// A list with one more number under a text.
pub open spec fn with_listed(lists: Map<Seq<char>, Seq<usize>>, key: Seq<char>, item: usize) -> Map<Seq<char>, Seq<usize>> {
    lists.insert(key, (if lists.dom().contains(key) { lists[key] } else { Seq::empty() }).push(item))
}

/// The timetable with the first `n` of the trips of a feed, in order of their
/// ids. A trip with fewer than two calls is left out, though it is counted.
pub open spec fn with_trips(
    core: CoreView,
    feed: FeedConfig,
    trips: Seq<GtfsTrip>,
    order: Seq<usize>,
    stops: Map<Seq<char>, usize>,
    routes: Map<Seq<char>, usize>,
    n: int,
) -> Result<CoreView, CoreErrorView>
    decreases n,
{
    if n <= 0 {
        Ok(core)
    } else {
        match with_trips(core, feed, trips, order, stops, routes, n - 1) {
            Err(error) => Err(error),
            Ok(before) => {
                let trip = trips[order[n - 1] as int];
                if !routes.dom().contains(trip.route_id@) {
                    Err(CoreErrorView::MissingRoute { route_id: trip.route_id@, trip_id: trip.id@ })
                } else {
                    match trip_calls(feed.id@, trip, stops, trip.stop_times@.len() as int) {
                        Err(error) => Err(error),
                        Ok(calls) => if calls.len() < 2 {
                            Ok(before)
                        } else if n - 1 > ENTITY_ORDINAL_MASK {
                            Err(CoreErrorView::Id(IdError::OrdinalTooLarge((n - 1) as u64)))
                        } else {
                            let index = before.trips.len() as usize;
                            let lookup = before.feed_trips[feed.feed_index as int];
                            Ok(
                                CoreView {
                                    trips: before.trips.push(trip_record(feed, trip, n - 1, routes[trip.route_id@], before.shapes, calls)),
                                    feed_trips: before.feed_trips.update(feed.feed_index as int, lookup.insert(trip.id@, index)),
                                    services: with_listed(before.services, namespaced(feed.id@, trip.service_id@), index),
                                    ..before
                                },
                            )
                        },
                    }
                }
            },
        }
    }
}

/// Whether a service runs on a day by its rule. Days are counted from a Monday.
pub open spec fn runs_on_weekday(rule: CalendarRule, day: int) -> bool {
    let weekday = (day - 1) % 7;
    if weekday == 0 { rule.monday } else if weekday == 1 { rule.tuesday } else if weekday == 2 { rule.wednesday } else if weekday == 3 { rule.thursday }
    else if weekday == 4 { rule.friday } else if weekday == 5 { rule.saturday } else { rule.sunday }
}

/// The calendar with a service on the days of its rule, up to but not including
/// a day.
pub open spec fn with_rule(calendar: Map<i32, Set<Seq<char>>>, service: Seq<char>, rule: CalendarRule, before_day: int) -> Map<i32, Set<Seq<char>>>
    decreases before_day - rule.start_day,
{
    if before_day <= rule.start_day {
        calendar
    } else {
        let earlier = with_rule(calendar, service, rule, before_day - 1);
        let day = (before_day - 1) as i32;
        if runs_on_weekday(rule, before_day - 1) { earlier.insert(day, services_on(earlier, day).insert(service)) } else { earlier }
    }
}

/// The calendar with the first `n` rules of a feed.
pub open spec fn with_rules(calendar: Map<i32, Set<Seq<char>>>, feed_id: Seq<char>, rules: Seq<CalendarRule>, n: int) -> Map<i32, Set<Seq<char>>>
    decreases n,
{
    if n <= 0 {
        calendar
    } else {
        let rule = rules[n - 1];
        with_rule(with_rules(calendar, feed_id, rules, n - 1), namespaced(feed_id, rule.service_id@), rule, rule.end_day + 1)
    }
}

/// The calendar with the first `n` exceptions of a feed.
pub open spec fn with_exceptions(calendar: Map<i32, Set<Seq<char>>>, feed_id: Seq<char>, exceptions: Seq<CalendarException>, n: int) -> Map<i32, Set<Seq<char>>>
    decreases n,
{
    if n <= 0 {
        calendar
    } else {
        let before = with_exceptions(calendar, feed_id, exceptions, n - 1);
        let exception = exceptions[n - 1];
        let service = namespaced(feed_id, exception.service_id@);
        if exception.added {
            before.insert(exception.day, services_on(before, exception.day).insert(service))
        } else if before.dom().contains(exception.day) {
            before.insert(exception.day, before[exception.day].remove(service))
        } else {
            before
        }
    }
}

/// The calendar with the services of a feed.
pub open spec fn with_calendar(calendar: Map<i32, Set<Seq<char>>>, feed_id: Seq<char>, gtfs: GtfsFeed) -> Map<i32, Set<Seq<char>>> {
    with_exceptions(with_rules(calendar, feed_id, gtfs.calendar@, gtfs.calendar@.len() as int), feed_id, gtfs.exceptions@, gtfs.exceptions@.len() as int)
}

/// The ids of stops.
pub open spec fn stop_ids(stops: Seq<GtfsStop>) -> Seq<Seq<char>> {
    Seq::new(stops.len(), |i: int| stops[i].id@)
}

/// The ids of routes.
pub open spec fn route_ids(routes: Seq<GtfsRoute>) -> Seq<Seq<char>> {
    Seq::new(routes.len(), |i: int| routes[i].id@)
}

/// The ids of trips.
pub open spec fn trip_ids(trips: Seq<GtfsTrip>) -> Seq<Seq<char>> {
    Seq::new(trips.len(), |i: int| trips[i].id@)
}

/// The timetable with one more feed.
pub open spec fn with_feed(core: CoreView, feed: FeedConfig, gtfs: GtfsFeed) -> Result<CoreView, CoreErrorView> {
    let named = CoreView {
        feeds: core.feeds.push(FeedView { feed_index: feed.feed_index, id: feed.id@, static_gtfs_path: feed.static_gtfs_path@, depends_on: texts_view(feed.depends_on@) }),
        ..core
    };
    match with_stops(named, feed, gtfs.stops@, text_order_of(stop_ids(gtfs.stops@)), gtfs.stops@.len() as int) {
        Err(error) => Err(error),
        Ok(stopped) => match with_routes(stopped.core, feed, gtfs.routes@, text_order_of(route_ids(gtfs.routes@)), gtfs.routes@.len() as int) {
            Err(error) => Err(error),
            Ok(routed) => {
                let shaped = CoreView { shapes: with_shapes(routed.core.shapes, feed.id@, gtfs.shapes@, gtfs.shapes@.len() as int), ..routed.core };
                match with_trips(shaped, feed, gtfs.trips@, text_order_of(trip_ids(gtfs.trips@)), stopped.local, routed.local, gtfs.trips@.len() as int) {
                    Err(error) => Err(error),
                    Ok(tripped) => Ok(CoreView { calendar: with_calendar(tripped.calendar, feed.id@, gtfs), ..tripped }),
                }
            },
        },
    }
}

/// An empty timetable for so many feeds.
pub open spec fn empty_core(feeds: int) -> CoreView {
    CoreView {
        feeds: Seq::empty(),
        stops: Seq::empty(),
        routes: Seq::empty(),
        trips: Seq::empty(),
        stop_ids: Map::empty(),
        stop_numbers: Map::empty(),
        feed_trips: Seq::new(feeds as nat, |i: int| Map::empty()),
        services: Map::empty(),
        calendar: Map::empty(),
        shapes: Map::empty(),
    }
}

/// The timetable of the first `n` feeds.
pub open spec fn core_of(feeds: Seq<FeedConfig>, parsed: Seq<GtfsFeed>, n: int) -> Result<CoreView, CoreErrorView>
    decreases n,
{
    if n <= 0 {
        Ok(empty_core(feeds.len() as int))
    } else {
        match core_of(feeds, parsed, n - 1) {
            Err(error) => Err(error),
            Ok(before) => with_feed(before, feeds[n - 1], parsed[n - 1]),
        }
    }
}

fn upper_digit_of(digit: u8) -> (c: char)
    requires
        digit < 16,
    ensures
        c == upper_digit(digit as int),
{
    if digit == 10 { 'A' } else if digit == 11 { 'B' } else if digit == 12 { 'C' } else if digit == 13 { 'D' } else if digit == 14 { 'E' } else if digit == 15 { 'F' }
    else { crate::text::digit_of(digit as u64) }
}

fn format_color(color: Option<(u8, u8, u8)>) -> (text: Option<String>)
    ensures
        text_view(text) == optional_color(color),
{
    match color {
        None => None,
        Some((red, green, blue)) => {
            let mut text: String = String::new();
            push_char(&mut text, '#');
            push_char(&mut text, upper_digit_of(red / 16));
            push_char(&mut text, upper_digit_of(red % 16));
            push_char(&mut text, upper_digit_of(green / 16));
            push_char(&mut text, upper_digit_of(green % 16));
            push_char(&mut text, upper_digit_of(blue / 16));
            push_char(&mut text, upper_digit_of(blue % 16));
            assert(text@ =~= color_text((red, green, blue)));
            Some(text)
        },
    }
}

fn name_stop(stop: &GtfsStop) -> (name: String)
    ensures
        name@ == stop_name(*stop),
{
    match &stop.name {
        Some(name) => {
            let short: String = trimmed(name.as_str());
            if short.as_str().is_empty() { stop.id.clone() } else { short }
        },
        None => stop.id.clone(),
    }
}

fn build_search_blob(id: &String, stop: &GtfsStop, feed_id: &String, name: &String) -> (blob: String)
    ensures
        blob@ == lowercase_text(id@ + seq![' '] + stop.id@ + seq![' '] + text_or_empty(stop.code) + seq![' '] + feed_id@ + seq![' '] + name@),
{
    let mut blob: String = id.clone();
    push_char(&mut blob, ' ');
    blob.append(stop.id.as_str());
    push_char(&mut blob, ' ');
    match &stop.code {
        Some(code) => {
            blob.append(code.as_str());
        },
        None => {},
    }
    push_char(&mut blob, ' ');
    blob.append(feed_id.as_str());
    push_char(&mut blob, ' ');
    blob.append(name.as_str());
    assert(blob@ =~= id@ + seq![' '] + stop.id@ + seq![' '] + text_or_empty(stop.code) + seq![' '] + feed_id@ + seq![' '] + name@);
    lowercase(blob.as_str())
}

impl CoreBuilder {
    fn add_stop(&mut self, feed: &FeedConfig, stop: &GtfsStop, k: usize, local: &mut StringHashMap<usize>)
        requires
            old(self).wf(),
            k <= ENTITY_ORDINAL_MASK,
        ensures
            final(self).wf(),
            ({
                let record = stop_record(*feed, *stop, k as int);
                let index = old(self)@.stops.len() as usize;
                &&& final(self)@ == (CoreView {
                    stops: old(self)@.stops.push(record),
                    stop_ids: old(self)@.stop_ids.insert(record.id, index),
                    stop_numbers: old(self)@.stop_numbers.insert(record.global_id, index),
                    ..old(self)@
                })
                &&& final(local)@ == old(local)@.insert(stop.id@, index)
            }),
    {
        let ghost before = self@;
        let name: String = name_stop(stop);
        let global_id: u64 = match pack_global_id(feed.feed_index, EntityKind::Stop, k as u64) {
            Ok(id) => id,
            Err(_) => 0,
        };
        let id: String = namespaced_id(feed.id.as_str(), stop.id.as_str());
        let blob: String = build_search_blob(&id, stop, &feed.id, &name);
        let index: usize = self.stops.len();
        self.stop_ids.insert(id.clone(), index);
        self.stop_numbers.insert(global_id, index);
        local.insert(stop.id.clone(), index);
        let ghost stops_before = self.stops@;
        self.stops.push(
            StopRecord {
                global_id: global_id,
                feed_index: feed.feed_index,
                feed_id: feed.id.clone(),
                local_id: stop.id.clone(),
                id: id,
                code: copy_text(&stop.code),
                name: name,
                latitude: stop.latitude,
                longitude: stop.longitude,
                search_blob: blob,
            },
        );
        proof {
            let record = stop_record(*feed, *stop, k as int);
            assert(self.stops@[index as int]@ == record);
            assert(stops_view(self.stops@) =~= stops_view(stops_before).push(record));
        }
    }

    fn add_stops(&mut self, feed: &FeedConfig, stops: &Vec<GtfsStop>) -> (result: Result<StringHashMap<usize>, CoreError>)
        requires
            old(self).wf(),
        ensures
            final(self).wf(),
            ({
                let added = with_stops(old(self)@, *feed, stops@, text_order_of(stop_ids(stops@)), stops@.len() as int);
                match result {
                    Ok(local) => added is Ok && added->Ok_0.core == final(self)@ && added->Ok_0.local == local@,
                    Err(error) => added == Err::<StopsAdded, CoreErrorView>(error@),
                }
            }),
    {
        let ghost start = self@;
        let mut ids: Vec<String> = Vec::new();
        let mut i: usize = 0;
        while i < stops.len()
            invariant
                i <= stops.len(),
                ids@.len() == i,
                forall|k: int| 0 <= k < i ==> (#[trigger] ids@[k])@ == stops@[k].id@,
            decreases stops.len() - i,
        {
            ids.push(stops[i].id.clone());
            i = i + 1;
        }
        assert(texts_view(ids@) =~= stop_ids(stops@));
        let order: Vec<usize> = text_order(&ids);
        let mut local: StringHashMap<usize> = StringHashMap::new();
        let mut k: usize = 0;
        while k < order.len()
            invariant
                k <= order.len(),
                is_text_order(stop_ids(stops@), order@),
                order@ == text_order_of(stop_ids(stops@)),
                start == old(self)@,
                self.wf(),
                ({
                    let added = with_stops(start, *feed, stops@, order@, k as int);
                    added is Ok && added->Ok_0.core == self@ && added->Ok_0.local == local@
                }),
            decreases order.len() - k,
        {
            assert(order@[k as int] < stop_ids(stops@).len());
            if k as u64 > ENTITY_ORDINAL_MASK {
                proof {
                    stops_keep_error(start, *feed, stops@, order@, k + 1, order@.len() as int, CoreErrorView::Id(IdError::OrdinalTooLarge(k as u64)));
                }
                return Err(CoreError::Id(IdError::OrdinalTooLarge(k as u64)));
            }
            self.add_stop(feed, &stops[order[k]], k, &mut local);
            k = k + 1;
        }
        Ok(local)
    }

    fn add_routes(&mut self, feed: &FeedConfig, routes: &Vec<GtfsRoute>) -> (result: Result<StringHashMap<usize>, CoreError>)
        requires
            old(self).wf(),
        ensures
            final(self).wf(),
            ({
                let added = with_routes(old(self)@, *feed, routes@, text_order_of(route_ids(routes@)), routes@.len() as int);
                match result {
                    Ok(local) => added is Ok && added->Ok_0.core == final(self)@ && added->Ok_0.local == local@,
                    Err(error) => added == Err::<StopsAdded, CoreErrorView>(error@),
                }
            }),
    {
        let ghost start = self@;
        let mut ids: Vec<String> = Vec::new();
        let mut i: usize = 0;
        while i < routes.len()
            invariant
                i <= routes.len(),
                ids@.len() == i,
                forall|k: int| 0 <= k < i ==> (#[trigger] ids@[k])@ == routes@[k].id@,
            decreases routes.len() - i,
        {
            ids.push(routes[i].id.clone());
            i = i + 1;
        }
        assert(texts_view(ids@) =~= route_ids(routes@));
        let order: Vec<usize> = text_order(&ids);
        let mut local: StringHashMap<usize> = StringHashMap::new();
        let mut k: usize = 0;
        while k < order.len()
            invariant
                k <= order.len(),
                is_text_order(route_ids(routes@), order@),
                order@ == text_order_of(route_ids(routes@)),
                start == old(self)@,
                self.wf(),
                ({
                    let added = with_routes(start, *feed, routes@, order@, k as int);
                    added is Ok && added->Ok_0.core == self@ && added->Ok_0.local == local@
                }),
            decreases order.len() - k,
        {
            assert(order@[k as int] < route_ids(routes@).len());
            let global_id: u64 = match pack_global_id(feed.feed_index, EntityKind::Route, k as u64) {
                Ok(id) => id,
                Err(error) => {
                    proof {
                        routes_keep_error(start, *feed, routes@, order@, k + 1, order@.len() as int, CoreErrorView::Id(error));
                    }
                    return Err(CoreError::Id(error));
                },
            };
            let route: &GtfsRoute = &routes[order[k]];
            let index: usize = self.routes.len();
            local.insert(route.id.clone(), index);
            let ghost before = self@;
            let ghost routes_before = self.routes@;
            self.routes.push(
                RouteRecord {
                    global_id: global_id,
                    feed_index: feed.feed_index,
                    feed_id: feed.id.clone(),
                    local_id: route.id.clone(),
                    id: namespaced_id(feed.id.as_str(), route.id.as_str()),
                    short_name: copy_text(&route.short_name),
                    long_name: copy_text(&route.long_name),
                    route_type: route.route_type.clone(),
                    color: format_color(route.color),
                    text_color: format_color(route.text_color),
                },
            );
            proof {
                let record = route_record(*feed, *route, k as int);
                assert(self.routes@[index as int]@ == record);
                assert(routes_view(self.routes@) =~= routes_view(routes_before).push(record));
            }
            k = k + 1;
        }
        Ok(local)
    }

    fn add_shapes(&mut self, feed_id: &String, given: &Vec<GtfsShape>)
        requires
            old(self).wf(),
        ensures
            final(self).wf(),
            final(self)@ == (CoreView { shapes: with_shapes(old(self)@.shapes, feed_id@, given@, given@.len() as int), ..old(self)@ }),
    {
        let ghost start = self@;
        let mut i: usize = 0;
        while i < given.len()
            invariant
                i <= given.len(),
                self.wf(),
                self@ == (CoreView { shapes: with_shapes(start.shapes, feed_id@, given@, i as int), ..start }),
            decreases given.len() - i,
        {
            let mut points: Vec<ShapePoint> = Vec::new();
            let mut j: usize = 0;
            while j < given[i].points.len()
                invariant
                    i < given.len(),
                    j <= given@[i as int].points@.len(),
                    points@ == given@[i as int].points@.take(j as int),
                decreases given@[i as int].points@.len() - j,
            {
                points.push(given[i].points[j]);
                j = j + 1;
                assert(points@ =~= given@[i as int].points@.take(j as int));
            }
            assert(points@ =~= given@[i as int].points@);
            let ghost before = self.shapes@;
            let id: String = namespaced_id(feed_id.as_str(), given[i].id.as_str());
            self.shapes.insert(id, points);
            assert(shapes_view(self.shapes@) =~= shapes_view(before).insert(namespaced(feed_id@, given@[i as int].id@), given@[i as int].points@));
            i = i + 1;
        }
    }
}

proof fn stops_keep_error(core: CoreView, feed: FeedConfig, stops: Seq<GtfsStop>, order: Seq<usize>, n: int, m: int, error: CoreErrorView)
    requires
        n <= m,
        with_stops(core, feed, stops, order, n) == Err::<StopsAdded, CoreErrorView>(error),
    ensures
        with_stops(core, feed, stops, order, m) == Err::<StopsAdded, CoreErrorView>(error),
    decreases m - n,
{
    if n < m {
        stops_keep_error(core, feed, stops, order, n, m - 1, error);
    }
}

proof fn routes_keep_error(core: CoreView, feed: FeedConfig, routes: Seq<GtfsRoute>, order: Seq<usize>, n: int, m: int, error: CoreErrorView)
    requires
        n <= m,
        with_routes(core, feed, routes, order, n) == Err::<StopsAdded, CoreErrorView>(error),
    ensures
        with_routes(core, feed, routes, order, m) == Err::<StopsAdded, CoreErrorView>(error),
    decreases m - n,
{
    if n < m {
        routes_keep_error(core, feed, routes, order, n, m - 1, error);
    }
}

/// Whether the times of a trip leave room for delays.
pub open spec fn trip_times_valid(trip: GtfsTrip) -> bool {
    forall|i: int| 0 <= i < trip.stop_times@.len() ==> {
        let call = #[trigger] trip.stop_times@[i];
        &&& call.arrival_time is Some ==> call.arrival_time->0 <= i32::MAX - crate::realtime::MAX_REASONABLE_DELAY_SECS
        &&& call.departure_time is Some ==> call.departure_time->0 <= i32::MAX - crate::realtime::MAX_REASONABLE_DELAY_SECS
    }
}

fn pick_time(first: Option<u32>, second: Option<u32>) -> (time: Option<i32>)
    requires
        first is Some ==> first->0 <= i32::MAX,
        second is Some ==> second->0 <= i32::MAX,
    ensures
        time == call_time(first, second),
{
    match first {
        Some(value) => Some(value as i32),
        None => match second {
            Some(value) => Some(value as i32),
            None => None,
        },
    }
}

fn build_calls(feed_id: &String, trip: &GtfsTrip, local: &StringHashMap<usize>) -> (result: Result<Vec<TripStopRecord>, CoreError>)
    requires
        trip_times_valid(*trip),
    ensures
        match result {
            Ok(calls) => trip_calls(feed_id@, *trip, local@, trip.stop_times@.len() as int) == Ok::<Seq<TripStopRecord>, CoreErrorView>(calls@),
            Err(error) => trip_calls(feed_id@, *trip, local@, trip.stop_times@.len() as int) == Err::<Seq<TripStopRecord>, CoreErrorView>(error@),
        },
{
    let mut calls: Vec<TripStopRecord> = Vec::new();
    let mut i: usize = 0;
    assert(calls@ =~= Seq::<TripStopRecord>::empty());
    while i < trip.stop_times.len()
        invariant
            i <= trip.stop_times.len(),
            trip_times_valid(*trip),
            trip_calls(feed_id@, *trip, local@, i as int) == Ok::<Seq<TripStopRecord>, CoreErrorView>(calls@),
        decreases trip.stop_times.len() - i,
    {
        let call: &GtfsStopTime = &trip.stop_times[i];
        let ghost n = trip.stop_times@.len() as int;
        let stop_index: usize = match local.get(call.stop_id.as_str()) {
            Some(index) => *index,
            None => {
                let error: CoreError = CoreError::MissingStop { stop_id: call.stop_id.clone(), trip_id: trip.id.clone(), feed_id: feed_id.clone() };
                proof {
                    calls_keep_error(feed_id@, *trip, local@, i + 1, n, error@);
                }
                return Err(error);
            },
        };
        assert(trip.stop_times@[i as int] == *call);
        let arrival: Option<i32> = pick_time(call.arrival_time, call.departure_time);
        let departure: Option<i32> = pick_time(call.departure_time, call.arrival_time);
        match (arrival, departure) {
            (Some(arrival_secs), Some(departure_secs)) => {
                calls.push(
                    TripStopRecord {
                        stop_index: stop_index,
                        arrival_secs: arrival_secs,
                        departure_secs: departure_secs,
                        stop_sequence: call.stop_sequence,
                        shape_dist_traveled: call.shape_dist_traveled,
                    },
                );
            },
            _ => {
                let error: CoreError = CoreError::MissingTimes { trip_id: trip.id.clone() };
                proof {
                    calls_keep_error(feed_id@, *trip, local@, i + 1, n, error@);
                }
                return Err(error);
            },
        }
        i = i + 1;
    }
    Ok(calls)
}

proof fn calls_keep_error(feed_id: Seq<char>, trip: GtfsTrip, local: Map<Seq<char>, usize>, n: int, m: int, error: CoreErrorView)
    requires
        n <= m,
        trip_calls(feed_id, trip, local, n) == Err::<Seq<TripStopRecord>, CoreErrorView>(error),
    ensures
        trip_calls(feed_id, trip, local, m) == Err::<Seq<TripStopRecord>, CoreErrorView>(error),
    decreases m - n,
{
    if n < m {
        calls_keep_error(feed_id, trip, local, n, m - 1, error);
    }
}

proof fn trips_keep_error(
    core: CoreView,
    feed: FeedConfig,
    trips: Seq<GtfsTrip>,
    order: Seq<usize>,
    stops: Map<Seq<char>, usize>,
    routes: Map<Seq<char>, usize>,
    n: int,
    m: int,
    error: CoreErrorView,
)
    requires
        n <= m,
        with_trips(core, feed, trips, order, stops, routes, n) == Err::<CoreView, CoreErrorView>(error),
    ensures
        with_trips(core, feed, trips, order, stops, routes, m) == Err::<CoreView, CoreErrorView>(error),
    decreases m - n,
{
    if n < m {
        trips_keep_error(core, feed, trips, order, stops, routes, n, m - 1, error);
    }
}

fn needs_projection(calls: &Vec<TripStopRecord>, points: &Vec<ShapePoint>) -> (needed: bool)
    ensures
        needed == lacks_distances(calls@, points@),
{
    let mut i: usize = 0;
    while i < calls.len()
        invariant
            i <= calls.len(),
            forall|k: int| 0 <= k < i ==> (#[trigger] calls@[k]).shape_dist_traveled is Some,
        decreases calls.len() - i,
    {
        if calls[i].shape_dist_traveled.is_none() {
            assert(calls@[i as int].shape_dist_traveled is None);
            return true;
        }
        i = i + 1;
    }
    let mut j: usize = 0;
    while j < points.len()
        invariant
            j <= points.len(),
            forall|k: int| 0 <= k < j ==> (#[trigger] points@[k]).dist_traveled is Some,
        decreases points.len() - j,
    {
        if points[j].dist_traveled.is_none() {
            assert(points@[j as int].dist_traveled is None);
            return true;
        }
        j = j + 1;
    }
    false
}

impl CoreBuilder {
    fn place_on_shape(&self, shape: &Option<String>, calls: &Vec<TripStopRecord>, given: &Option<Vec<u32>>) -> (points: Option<Vec<u32>>)
        requires
            self.wf(),
        ensures
            list_view(points) == projected_points(self@.shapes, text_view(*shape), calls@, *given),
    {
        match shape {
            None => None,
            Some(id) => match self.shapes.get(id.as_str()) {
                None => None,
                Some(found) => if needs_projection(calls, found) { copy_list(given) } else { None },
            },
        }
    }

    fn add_trip(&mut self, feed: &FeedConfig, trip: &GtfsTrip, k: usize, route_index: usize, calls: Vec<TripStopRecord>)
        requires
            old(self).wf(),
            k <= ENTITY_ORDINAL_MASK,
            feed.feed_index < old(self).feed_trips@.len(),
        ensures
            final(self).wf(),
            final(self).feed_trips@.len() == old(self).feed_trips@.len(),
            ({
                let index = old(self)@.trips.len() as usize;
                let lookup = old(self)@.feed_trips[feed.feed_index as int];
                final(self)@ == (CoreView {
                    trips: old(self)@.trips.push(trip_record(*feed, *trip, k as int, route_index, old(self)@.shapes, calls@)),
                    feed_trips: old(self)@.feed_trips.update(feed.feed_index as int, lookup.insert(trip.id@, index)),
                    services: with_listed(old(self)@.services, namespaced(feed.id@, trip.service_id@), index),
                    ..old(self)@
                })
            }),
    {
        let shape: Option<String> = match &trip.shape_id {
            Some(id) => Some(namespaced_id(feed.id.as_str(), id.as_str())),
            None => None,
        };
        let points: Option<Vec<u32>> = self.place_on_shape(&shape, &calls, &trip.projected_stop_points);
        let global_id: u64 = match pack_global_id(feed.feed_index, EntityKind::Trip, k as u64) {
            Ok(id) => id,
            Err(_) => 0,
        };
        let index: usize = self.trips.len();
        let service: String = namespaced_id(feed.id.as_str(), trip.service_id.as_str());
        let ghost before = *self;
        let ghost calls_view = calls@;
        self.trips.push(
            TripRecord {
                global_id: global_id,
                feed_index: feed.feed_index,
                feed_id: feed.id.clone(),
                local_id: trip.id.clone(),
                id: namespaced_id(feed.id.as_str(), trip.id.as_str()),
                route_index: route_index,
                shape_id: shape,
                shape_stop_point_indices: points,
                headsign: copy_text(&trip.headsign),
                stop_times: calls,
            },
        );
        self.feed_trips[feed.feed_index as usize].insert(trip.id.clone(), index);
        self.services.push_to(service, index);
        proof {
            let record = trip_record(*feed, *trip, k as int, route_index, before@.shapes, calls_view);
            assert(self.trips@[index as int]@ == record);
            assert(trips_view(self.trips@) =~= trips_view(before.trips@).push(record));
            let f = feed.feed_index as int;
            assert(lookups_view(self.feed_trips@) =~= lookups_view(before.feed_trips@).update(f, lookups_view(before.feed_trips@)[f].insert(trip.id@, index)));
        }
    }

    fn add_trips(&mut self, feed: &FeedConfig, trips: &Vec<GtfsTrip>, stops: &StringHashMap<usize>, routes: &StringHashMap<usize>) -> (result: Result<(), CoreError>)
        requires
            old(self).wf(),
            feed.feed_index < old(self).feed_trips@.len(),
            forall|i: int| 0 <= i < trips@.len() ==> trip_times_valid(#[trigger] trips@[i]),
        ensures
            final(self).wf(),
            is_text_order(trip_ids(trips@), text_order_of(trip_ids(trips@))),
            final(self).feed_trips@.len() == old(self).feed_trips@.len(),
            ({
                let added = with_trips(old(self)@, *feed, trips@, text_order_of(trip_ids(trips@)), stops@, routes@, trips@.len() as int);
                match result {
                    Ok(_) => added == Ok::<CoreView, CoreErrorView>(final(self)@),
                    Err(error) => added == Err::<CoreView, CoreErrorView>(error@),
                }
            }),
    {
        let ghost start = self@;
        let mut ids: Vec<String> = Vec::new();
        let mut i: usize = 0;
        while i < trips.len()
            invariant
                i <= trips.len(),
                ids@.len() == i,
                forall|k: int| 0 <= k < i ==> (#[trigger] ids@[k])@ == trips@[k].id@,
            decreases trips.len() - i,
        {
            ids.push(trips[i].id.clone());
            i = i + 1;
        }
        assert(texts_view(ids@) =~= trip_ids(trips@));
        let order: Vec<usize> = text_order(&ids);
        let mut k: usize = 0;
        while k < order.len()
            invariant
                k <= order.len(),
                is_text_order(trip_ids(trips@), order@),
                order@ == text_order_of(trip_ids(trips@)),
                start == old(self)@,
                self.wf(),
                self.feed_trips@.len() == old(self).feed_trips@.len(),
                feed.feed_index < self.feed_trips@.len(),
                forall|t: int| 0 <= t < trips@.len() ==> trip_times_valid(#[trigger] trips@[t]),
                with_trips(start, *feed, trips@, order@, stops@, routes@, k as int) == Ok::<CoreView, CoreErrorView>(self@),
            decreases order.len() - k,
        {
            assert(order@[k as int] < trip_ids(trips@).len());
            let trip: &GtfsTrip = &trips[order[k]];
            let ghost n = order@.len() as int;
            assert(trip_times_valid(trips@[order@[k as int] as int]));
            let route_index: usize = match routes.get(trip.route_id.as_str()) {
                Some(index) => *index,
                None => {
                    let error: CoreError = CoreError::MissingRoute { route_id: trip.route_id.clone(), trip_id: trip.id.clone() };
                    proof {
                        trips_keep_error(start, *feed, trips@, order@, stops@, routes@, k + 1, n, error@);
                    }
                    return Err(error);
                },
            };
            let calls: Vec<TripStopRecord> = match build_calls(&feed.id, trip, stops) {
                Ok(calls) => calls,
                Err(error) => {
                    proof {
                        trips_keep_error(start, *feed, trips@, order@, stops@, routes@, k + 1, n, error@);
                    }
                    return Err(error);
                },
            };
            if calls.len() >= 2 {
                if k as u64 > ENTITY_ORDINAL_MASK {
                    let error: CoreError = CoreError::Id(IdError::OrdinalTooLarge(k as u64));
                    proof {
                        trips_keep_error(start, *feed, trips@, order@, stops@, routes@, k + 1, n, error@);
                    }
                    return Err(error);
                }
                self.add_trip(feed, trip, k, route_index, calls);
            }
            k = k + 1;
        }
        Ok(())
    }
}

fn runs_on(rule: &CalendarRule, day: i32) -> (runs: bool)
    ensures
        runs == runs_on_weekday(*rule, day as int),
{
    let ahead: i64 = (day as i64 - 1) % 7;
    let weekday: i64 = if ahead < 0 { ahead + 7 } else { ahead };
    assert(weekday == (day - 1) % 7);
    if weekday == 0 { rule.monday } else if weekday == 1 { rule.tuesday } else if weekday == 2 { rule.wednesday } else if weekday == 3 { rule.thursday }
    else if weekday == 4 { rule.friday } else if weekday == 5 { rule.saturday } else { rule.sunday }
}

/// Whether the calendar of a feed ends before the last day that can be counted.
pub open spec fn calendar_valid(rules: Seq<CalendarRule>) -> bool {
    forall|i: int| 0 <= i < rules.len() ==> (#[trigger] rules[i]).end_day < i32::MAX
}

/// Adds the services of a feed to the calendar: on the weekdays of their rules,
/// and then by their exceptions.
pub fn merge_service_calendar(calendar: &mut DayServices, feed_id: &String, gtfs: &GtfsFeed)
    requires
        old(calendar).wf(),
        calendar_valid(gtfs.calendar@),
    ensures
        final(calendar).wf(),
        final(calendar)@ == with_calendar(old(calendar)@, feed_id@, *gtfs),
{
    let ghost start = calendar@;
    let mut i: usize = 0;
    while i < gtfs.calendar.len()
        invariant
            i <= gtfs.calendar.len(),
            calendar_valid(gtfs.calendar@),
            calendar.wf(),
            calendar@ == with_rules(start, feed_id@, gtfs.calendar@, i as int),
        decreases gtfs.calendar.len() - i,
    {
        let rule: &CalendarRule = &gtfs.calendar[i];
        let ghost before = calendar@;
        let ghost service = namespaced(feed_id@, rule.service_id@);
        assert(gtfs.calendar@[i as int].end_day < i32::MAX);
        let mut day: i32 = rule.start_day;
        while day <= rule.end_day
            invariant
                rule.end_day < i32::MAX,
                rule.start_day <= day,
                day <= rule.end_day + 1 || day == rule.start_day,
                service == namespaced(feed_id@, rule.service_id@),
                calendar.wf(),
                calendar@ == with_rule(before, service, *rule, day as int),
            decreases rule.end_day + 1 - day,
        {
            if runs_on(rule, day) {
                calendar.add_service(day, namespaced_id(feed_id.as_str(), rule.service_id.as_str()));
            }
            day = day + 1;
        }
        proof {
            if rule.end_day + 1 < rule.start_day {
                assert(with_rule(before, service, *rule, rule.end_day + 1) == before);
                assert(with_rule(before, service, *rule, day as int) == before);
            }
        }
        i = i + 1;
    }
    let ghost ruled = calendar@;
    let mut j: usize = 0;
    while j < gtfs.exceptions.len()
        invariant
            j <= gtfs.exceptions.len(),
            calendar.wf(),
            calendar@ == with_exceptions(ruled, feed_id@, gtfs.exceptions@, j as int),
        decreases gtfs.exceptions.len() - j,
    {
        let exception: &CalendarException = &gtfs.exceptions[j];
        let service: String = namespaced_id(feed_id.as_str(), exception.service_id.as_str());
        if exception.added {
            calendar.add_service(exception.day, service);
        } else {
            calendar.remove_service(exception.day, service.as_str());
        }
        j = j + 1;
    }
}

/// Whether a feed can be read: its times leave room for delays and its calendar
/// ends before the last day that can be counted.
pub open spec fn feed_valid(gtfs: GtfsFeed) -> bool {
    calendar_valid(gtfs.calendar@) && forall|i: int| 0 <= i < gtfs.trips@.len() ==> trip_times_valid(#[trigger] gtfs.trips@[i])
}

impl CoreBuilder {
    fn add_feed(&mut self, feed: &FeedConfig, gtfs: &GtfsFeed) -> (result: Result<(), CoreError>)
        requires
            old(self).wf(),
            feed.feed_index < old(self).feed_trips@.len(),
            feed_valid(*gtfs),
            core_sound(old(self)@),
            old(self).trips@.len() + gtfs.trips@.len() <= u32::MAX,
        ensures
            final(self).wf(),
            match result {
                Ok(_) => {
                    &&& with_feed(old(self)@, *feed, *gtfs) == Ok::<CoreView, CoreErrorView>(final(self)@)
                    &&& final(self).feed_trips@.len() == old(self).feed_trips@.len()
                    &&& core_sound(final(self)@)
                    &&& final(self).trips@.len() <= old(self).trips@.len() + gtfs.trips@.len()
                },
                Err(error) => with_feed(old(self)@, *feed, *gtfs) == Err::<CoreView, CoreErrorView>(error@),
            },
    {
        let ghost before = *self;
        self.feeds.push(
            FeedRecord {
                feed_index: feed.feed_index,
                id: feed.id.clone(),
                static_gtfs_path: feed.static_gtfs_path.clone(),
                depends_on: copy_texts(&feed.depends_on),
            },
        );
        proof {
            let record = FeedView {
                feed_index: feed.feed_index,
                id: feed.id@,
                static_gtfs_path: feed.static_gtfs_path@,
                depends_on: texts_view(feed.depends_on@),
            };
            assert(self.feeds@[before.feeds@.len() as int]@ == record);
            assert(feeds_view(self.feeds@) =~= feeds_view(before.feeds@).push(record));
        }
        let ghost named = self@;
        let stops: StringHashMap<usize> = match self.add_stops(feed, &gtfs.stops) {
            Ok(local) => local,
            Err(error) => {
                return Err(error);
            },
        };
        proof {
            let order = text_order_of(stop_ids(gtfs.stops@));
            stops_counted(named, *feed, gtfs.stops@, order, gtfs.stops@.len() as int);
            assert(self@.stops.len() == self.stops.len());
            stops_stay_sound(named, *feed, gtfs.stops@, order, gtfs.stops@.len() as int);
        }
        let ghost stopped = self@;
        let routes: StringHashMap<usize> = match self.add_routes(feed, &gtfs.routes) {
            Ok(local) => local,
            Err(error) => {
                return Err(error);
            },
        };
        proof {
            let order = text_order_of(route_ids(gtfs.routes@));
            routes_counted(stopped, *feed, gtfs.routes@, order, gtfs.routes@.len() as int);
            assert(self@.routes.len() == self.routes.len());
            routes_stay_sound(stopped, *feed, gtfs.routes@, order, gtfs.routes@.len() as int);
            assert(lookups_view(self.feed_trips@).len() == self.feed_trips@.len());
            assert(lookups_view(before.feed_trips@).len() == before.feed_trips@.len());
        }
        self.add_shapes(&feed.id, &gtfs.shapes);
        let ghost shaped = self@;
        proof {
            assert(lookups_view(self.feed_trips@).len() == self.feed_trips@.len());
        }
        match self.add_trips(feed, &gtfs.trips, &stops, &routes) {
            Ok(_) => {},
            Err(error) => {
                return Err(error);
            },
        }
        proof {
            let order = text_order_of(trip_ids(gtfs.trips@));
            assert(shaped.trips == before@.trips);
            assert(before@.trips.len() == before.trips.len());
            trips_stay_sound(shaped, *feed, gtfs.trips@, order, stops@, routes@, gtfs.trips@.len() as int);
            assert(self@.trips.len() == self.trips.len());
        }
        merge_service_calendar(&mut self.calendar, &feed.id, gtfs);
        Ok(())
    }
}

proof fn stops_counted(core: CoreView, feed: FeedConfig, stops: Seq<GtfsStop>, order: Seq<usize>, n: int)
    ensures
        n >= 0 && with_stops(core, feed, stops, order, n) is Ok ==> with_stops(core, feed, stops, order, n)->Ok_0.core.stops.len() == core.stops.len() + n,
    decreases n,
{
    if n > 0 {
        stops_counted(core, feed, stops, order, n - 1);
    }
}

proof fn routes_counted(core: CoreView, feed: FeedConfig, routes: Seq<GtfsRoute>, order: Seq<usize>, n: int)
    ensures
        n >= 0 && with_routes(core, feed, routes, order, n) is Ok ==> with_routes(core, feed, routes, order, n)->Ok_0.core.routes.len() == core.routes.len() + n,
    decreases n,
{
    if n > 0 {
        routes_counted(core, feed, routes, order, n - 1);
    }
}

/// How many trips the first `n` feeds give.
pub open spec fn trips_given(parsed: Seq<GtfsFeed>, n: int) -> int
    decreases n,
{
    if n <= 0 {
        0
    } else {
        trips_given(parsed, n - 1) + parsed[n - 1].trips@.len()
    }
}

/// Whether a trip calls at least twice, at known stops and at times that leave
/// room for delays.
pub open spec fn calls_sound(calls: Seq<TripStopRecord>, stop_count: int) -> bool {
    &&& calls.len() >= 2
    &&& calls_bounded(calls, stop_count)
}

/// Whether calls are at known stops and at times that leave room for delays.
pub open spec fn calls_bounded(calls: Seq<TripStopRecord>, stop_count: int) -> bool {
    forall|p: int| 0 <= p < calls.len() ==> {
        let call = #[trigger] calls[p];
        &&& call.stop_index < stop_count
        &&& 0 <= call.arrival_secs <= i32::MAX - crate::realtime::MAX_REASONABLE_DELAY_SECS
        &&& 0 <= call.departure_secs <= i32::MAX - crate::realtime::MAX_REASONABLE_DELAY_SECS
    }
}

/// Whether the parts of a timetable fit together: every trip is on a known route
/// and calls at least twice at known stops, and every lookup leads to something.
pub open spec fn core_sound(core: CoreView) -> bool {
    &&& core.stops.len() <= usize::MAX && core.routes.len() <= usize::MAX && core.trips.len() <= usize::MAX
    &&& forall|t: int| 0 <= t < core.trips.len() ==> {
        &&& calls_sound((#[trigger] core.trips[t]).stop_times, core.stops.len() as int)
        &&& core.trips[t].route_index < core.routes.len()
    }
    &&& forall|id: Seq<char>| #[trigger] core.stop_ids.dom().contains(id) ==> core.stop_ids[id] < core.stops.len() && core.stops[core.stop_ids[id] as int].id == id
    &&& forall|f: int, id: Seq<char>| 0 <= f < core.feed_trips.len() && #[trigger] core.feed_trips[f].dom().contains(id) ==> core.feed_trips[f][id] < core.trips.len()
    &&& forall|service: Seq<char>, i: int| core.services.dom().contains(service) && 0 <= i < core.services[service].len() ==> #[trigger] core.services[service][i] < core.trips.len()
}

proof fn stops_stay_sound(core: CoreView, feed: FeedConfig, stops: Seq<GtfsStop>, order: Seq<usize>, n: int)
    requires
        core_sound(core),
        core.stops.len() + n <= usize::MAX,
        0 <= n,
    ensures
        match with_stops(core, feed, stops, order, n) {
            Ok(added) => {
                &&& core_sound(added.core)
                &&& added.core.stops.len() == core.stops.len() + n
                &&& added.core == (CoreView { stops: added.core.stops, stop_ids: added.core.stop_ids, stop_numbers: added.core.stop_numbers, ..core })
                &&& forall|id: Seq<char>| #[trigger] added.local.dom().contains(id) ==> added.local[id] < added.core.stops.len()
            },
            Err(_) => true,
        },
    decreases n,
{
    if n > 0 {
        stops_stay_sound(core, feed, stops, order, n - 1);
    }
}

proof fn routes_stay_sound(core: CoreView, feed: FeedConfig, routes: Seq<GtfsRoute>, order: Seq<usize>, n: int)
    requires
        core_sound(core),
        core.routes.len() + n <= usize::MAX,
        0 <= n,
    ensures
        match with_routes(core, feed, routes, order, n) {
            Ok(added) => {
                &&& core_sound(added.core)
                &&& added.core.routes.len() == core.routes.len() + n
                &&& added.core == (CoreView { routes: added.core.routes, ..core })
                &&& forall|id: Seq<char>| #[trigger] added.local.dom().contains(id) ==> added.local[id] < added.core.routes.len()
            },
            Err(_) => true,
        },
    decreases n,
{
    if n > 0 {
        routes_stay_sound(core, feed, routes, order, n - 1);
    }
}

proof fn calls_are_bounded(feed_id: Seq<char>, trip: GtfsTrip, local: Map<Seq<char>, usize>, n: int, stop_count: int)
    requires
        trip_times_valid(trip),
        0 <= n <= trip.stop_times@.len(),
        forall|id: Seq<char>| #[trigger] local.dom().contains(id) ==> local[id] < stop_count,
    ensures
        match trip_calls(feed_id, trip, local, n) {
            Ok(calls) => calls_bounded(calls, stop_count),
            Err(_) => true,
        },
    decreases n,
{
    if n > 0 {
        calls_are_bounded(feed_id, trip, local, n - 1, stop_count);
        assert(trip.stop_times@[n - 1] == trip.stop_times@[n - 1]);
    }
}

proof fn trips_stay_sound(
    core: CoreView,
    feed: FeedConfig,
    trips: Seq<GtfsTrip>,
    order: Seq<usize>,
    stops: Map<Seq<char>, usize>,
    routes: Map<Seq<char>, usize>,
    n: int,
)
    requires
        core_sound(core),
        core.trips.len() + n <= usize::MAX,
        feed.feed_index < core.feed_trips.len(),
        0 <= n <= order.len(),
        forall|i: int| 0 <= i < order.len() ==> (#[trigger] order[i]) < trips.len(),
        forall|i: int| 0 <= i < trips.len() ==> trip_times_valid(#[trigger] trips[i]),
        forall|id: Seq<char>| #[trigger] stops.dom().contains(id) ==> stops[id] < core.stops.len(),
        forall|id: Seq<char>| #[trigger] routes.dom().contains(id) ==> routes[id] < core.routes.len(),
    ensures
        match with_trips(core, feed, trips, order, stops, routes, n) {
            Ok(added) => {
                &&& core_sound(added)
                &&& core.trips.len() <= added.trips.len() <= core.trips.len() + n
                &&& added.feed_trips.len() == core.feed_trips.len()
                &&& added == (CoreView { trips: added.trips, feed_trips: added.feed_trips, services: added.services, ..core })
            },
            Err(_) => true,
        },
    decreases n,
{
    if n > 0 {
        trips_stay_sound(core, feed, trips, order, stops, routes, n - 1);
        let trip = trips[order[n - 1] as int];
        assert(trip_times_valid(trip));
        calls_are_bounded(feed.id@, trip, stops, trip.stop_times@.len() as int, core.stops.len() as int);
        if with_trips(core, feed, trips, order, stops, routes, n) is Ok {
            let before = with_trips(core, feed, trips, order, stops, routes, n - 1)->Ok_0;
            let added = with_trips(core, feed, trips, order, stops, routes, n)->Ok_0;
            if added != before {
                let service = namespaced(feed.id@, trip.service_id@);
                let index = before.trips.len() as usize;
                assert(added.services == with_listed(before.services, service, index));
                assert forall|name: Seq<char>, i: int| added.services.dom().contains(name) && 0 <= i < added.services[name].len() implies #[trigger] added.services[name][i] < added.trips.len() by {
                    if name == service {
                        if i < added.services[name].len() - 1 {
                            assert(added.services[name][i] == before.services[name][i]);
                        }
                    } else {
                        assert(added.services[name][i] == before.services[name][i]);
                    }
                }
                assert forall|f: int, id: Seq<char>| 0 <= f < added.feed_trips.len() && #[trigger] added.feed_trips[f].dom().contains(id) implies added.feed_trips[f][id] < added.trips.len() by {
                    if f == feed.feed_index && id == trip.id@ {
                    } else {
                        assert(before.feed_trips[f].dom().contains(id));
                    }
                }
            }
        }
    }
}

/// The numbers of all items of a list, in order.
pub open spec fn all_indices(count: int) -> Seq<usize> {
    Seq::new(count as nat, |i: int| i as usize)
}

fn index_all(count: usize) -> (indices: Vec<usize>)
    ensures
        indices@ == all_indices(count as int),
{
    let mut indices: Vec<usize> = Vec::new();
    let mut i: usize = 0;
    while i < count
        invariant
            i <= count,
            indices@ == all_indices(i as int),
        decreases count - i,
    {
        indices.push(i);
        i = i + 1;
        assert(indices@ =~= all_indices(i as int));
    }
    assert(indices@ =~= all_indices(count as int));
    indices
}

impl StaticCore {
    /// What the feeds have given.
    pub open spec fn view(&self) -> CoreView {
        CoreView {
            feeds: feeds_view(self.feeds@),
            stops: stops_view(self.stops@),
            routes: routes_view(self.routes@),
            trips: trips_view(self.trips@),
            stop_ids: self.stop_lookup@,
            stop_numbers: self.stop_lookup_by_global_id@,
            feed_trips: lookups_view(self.trip_lookup_by_feed@),
            services: self.service_to_trip_indices.lists(),
            calendar: self.service_by_date@,
            shapes: shapes_view(self.shapes@),
        }
    }

    /// Whether the lists by text and by day are in order.
    pub open spec fn wf(&self) -> bool {
        self.service_to_trip_indices.wf() && self.service_by_date.wf() && self.shapes.wf()
    }

    /// Whether the lines are those of the trips in service.
    pub open spec fn has_lines(&self) -> bool {
        &&& lines_of(self.lines@, self.trips@, self.active_trip_indices@)
        &&& self.stop_to_lines@.len() == self.stops@.len()
        &&& forall|s: int| 0 <= s < self.stops@.len() ==> (#[trigger] self.stop_to_lines@[s])@ == lines_at(self.lines@, s, self.lines@.len() as int)
    }
}

proof fn core_keeps_error(feeds: Seq<FeedConfig>, parsed: Seq<GtfsFeed>, n: int, m: int, error: CoreErrorView)
    requires
        n <= m,
        core_of(feeds, parsed, n) == Err::<CoreView, CoreErrorView>(error),
    ensures
        core_of(feeds, parsed, m) == Err::<CoreView, CoreErrorView>(error),
    decreases m - n,
{
    if n < m {
        core_keeps_error(feeds, parsed, n, m - 1, error);
    }
}

proof fn fewer_trips_given(parsed: Seq<GtfsFeed>, n: int, m: int)
    requires
        n <= m,
    ensures
        trips_given(parsed, n) <= trips_given(parsed, m),
    decreases m - n,
{
    if n < m {
        fewer_trips_given(parsed, n, m - 1);
    }
}

/// Builds the timetable of the feeds: their stops, routes and trips in order of
/// their ids, the calendar, and the lines. The first entity that cannot be read
/// is the error.
pub fn build_static_core(feeds: &Vec<FeedConfig>, parsed: &Vec<GtfsFeed>) -> (result: Result<StaticCore, CoreError>)
    requires
        feeds@.len() == parsed@.len(),
        forall|i: int| 0 <= i < feeds@.len() ==> (#[trigger] feeds@[i]).feed_index < feeds@.len(),
        forall|i: int| 0 <= i < parsed@.len() ==> feed_valid(#[trigger] parsed@[i]),
        trips_given(parsed@, parsed@.len() as int) <= u32::MAX,
    ensures
        match result {
            Ok(core) => {
                &&& core_of(feeds@, parsed@, feeds@.len() as int) == Ok::<CoreView, CoreErrorView>(core@)
                &&& core.wf()
                &&& core_sound(core@)
                &&& core.active_stop_indices@ == all_indices(core.stops@.len() as int)
                &&& core.active_route_indices@ == all_indices(core.routes@.len() as int)
                &&& core.active_trip_indices@ == all_indices(core.trips@.len() as int)
                &&& core.has_lines()
            },
            Err(error) => core_of(feeds@, parsed@, feeds@.len() as int) == Err::<CoreView, CoreErrorView>(error@),
        },
{
    let mut feed_trips: Vec<StringHashMap<usize>> = Vec::new();
    let mut f: usize = 0;
    while f < feeds.len()
        invariant
            f <= feeds.len(),
            feed_trips@.len() == f,
            forall|k: int| 0 <= k < f ==> (#[trigger] feed_trips@[k])@ == Map::<Seq<char>, usize>::empty(),
        decreases feeds.len() - f,
    {
        feed_trips.push(StringHashMap::new());
        f = f + 1;
    }
    let mut builder: CoreBuilder = CoreBuilder {
        feeds: Vec::new(),
        stops: Vec::new(),
        routes: Vec::new(),
        trips: Vec::new(),
        stop_ids: StringHashMap::new(),
        stop_numbers: HashMap::new(),
        feed_trips: feed_trips,
        services: TextMap::new(),
        calendar: DayServices::new(),
        shapes: TextMap::new(),
    };
    proof {
        let empty = empty_core(feeds@.len() as int);
        assert(builder@.feeds =~= empty.feeds);
        assert(builder@.stops =~= empty.stops);
        assert(builder@.routes =~= empty.routes);
        assert(builder@.trips =~= empty.trips);
        assert(builder@.stop_ids =~= empty.stop_ids);
        assert(builder@.stop_numbers =~= empty.stop_numbers);
        assert(builder@.feed_trips =~= empty.feed_trips);
        assert(builder@.services =~= empty.services);
        assert(builder@.calendar =~= empty.calendar);
        assert(builder@.shapes =~= empty.shapes);
    }
    let mut i: usize = 0;
    while i < feeds.len()
        invariant
            i <= feeds.len(),
            feeds@.len() == parsed@.len(),
            forall|k: int| 0 <= k < feeds@.len() ==> (#[trigger] feeds@[k]).feed_index < feeds@.len(),
            forall|k: int| 0 <= k < parsed@.len() ==> feed_valid(#[trigger] parsed@[k]),
            trips_given(parsed@, parsed@.len() as int) <= u32::MAX,
            builder.wf(),
            builder.feed_trips@.len() == feeds@.len(),
            core_sound(builder@),
            builder.trips@.len() <= trips_given(parsed@, i as int),
            core_of(feeds@, parsed@, i as int) == Ok::<CoreView, CoreErrorView>(builder@),
        decreases feeds.len() - i,
    {
        proof {
            fewer_trips_given(parsed@, i + 1, parsed@.len() as int);
            assert(feeds@[i as int].feed_index < feeds@.len());
            assert(feed_valid(parsed@[i as int]));
        }
        match builder.add_feed(&feeds[i], &parsed[i]) {
            Ok(_) => {},
            Err(error) => {
                proof {
                    core_keeps_error(feeds@, parsed@, i + 1, feeds@.len() as int, error@);
                }
                return Err(error);
            },
        }
        i = i + 1;
    }
    let active_stop_indices: Vec<usize> = index_all(builder.stops.len());
    let active_route_indices: Vec<usize> = index_all(builder.routes.len());
    let active_trip_indices: Vec<usize> = index_all(builder.trips.len());
    proof {
        let stop_count = builder.stops@.len() as int;
        assert forall|k: int| 0 <= k < active_trip_indices@.len() implies (#[trigger] active_trip_indices@[k]) < builder.trips@.len() && trip_in_bounds(builder.trips@[active_trip_indices@[k] as int], stop_count) by {
            let trip = builder.trips@[k];
            assert(builder@.trips[k] == trip@);
            assert(calls_sound(trip.stop_times@, stop_count));
        }
    }
    let (lines, stop_to_lines) = rebuild_lines_and_stop_to_lines(&builder.trips, &active_trip_indices, builder.stops.len());
    Ok(
        StaticCore {
            feeds: builder.feeds,
            stops: builder.stops,
            active_stop_indices: active_stop_indices,
            stop_lookup: builder.stop_ids,
            stop_lookup_by_global_id: builder.stop_numbers,
            routes: builder.routes,
            active_route_indices: active_route_indices,
            trips: builder.trips,
            active_trip_indices: active_trip_indices,
            trip_lookup_by_feed: builder.feed_trips,
            service_to_trip_indices: builder.services,
            lines: lines,
            stop_to_lines: stop_to_lines,
            service_by_date: builder.calendar,
            shapes: builder.shapes,
        },
    )
}

} // verus!
