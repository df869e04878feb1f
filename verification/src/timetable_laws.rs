//! What a timetable built from feeds has: the stops and trips that the feeds give, with
//! their calls at the times given.

use crate::ids::namespaced;
use crate::lines::{called_stops, group_with, line_groups, lines_of, LineGroup};
use crate::model::{FeedConfig, LineRecord, TripRecord, TripStopRecord};
use crate::order::{arranged, is_stable_order, stable_order_covers, OrderKey};
use crate::records::{FeedView, TripView};
use crate::static_core::{
    route_ids, stop_ids, trip_calls, trip_ids, with_feed, with_listed, with_routes, with_shapes, with_stops, with_trips, CoreView, GtfsFeed, GtfsRoute, GtfsStop, GtfsStopTime,
    GtfsTrip,
};
use crate::temporal::{first_departure_keys, trips_by_first_departure};
use crate::text::{text_view, trim_text};
use crate::text_order::{text_order_covers, text_order_exists, text_order_of, texts_view};
use vstd::prelude::*;

verus! {

/// Whether a call is as it was given: at the stop, and at the times; where one of the two
/// times is missing, the other stands for both.
pub open spec fn call_is_as_given(core: CoreView, feed_id: Seq<char>, given: GtfsStopTime, call: TripStopRecord) -> bool {
    &&& call.stop_index < core.stops.len()
    &&& core.stops[call.stop_index as int].id == feed_id + seq![':'] + given.stop_id@
    &&& given.arrival_time is Some ==> call.arrival_secs == given.arrival_time->0
    &&& given.departure_time is Some ==> call.departure_secs == given.departure_time->0
    &&& given.arrival_time is None ==> call.arrival_secs == call.departure_secs
    &&& given.departure_time is None ==> call.departure_secs == call.arrival_secs
    &&& call.stop_sequence == given.stop_sequence
}

/// Whether a trip is as it was given: by its id, on its route, with its calls in order.
pub open spec fn trip_is_as_given(core: CoreView, feed_id: Seq<char>, given: GtfsTrip, trip: TripView) -> bool {
    &&& trip.id == feed_id + seq![':'] + given.id@
    &&& trip.local_id == given.id@
    &&& trip.route_index < core.routes.len()
    &&& core.routes[trip.route_index as int].id == feed_id + seq![':'] + given.route_id@
    &&& trip.stop_times.len() == given.stop_times@.len()
    &&& forall|c: int| 0 <= c < trip.stop_times.len() ==> call_is_as_given(core, feed_id, given.stop_times@[c], #[trigger] trip.stop_times[c])
}

/// Whether a place of a timetable has a trip as it was given, which its service lists.
pub open spec fn has_trip_at(core: CoreView, feed_id: Seq<char>, given: GtfsTrip, t: int) -> bool {
    let service = feed_id + seq![':'] + given.service_id@;
    &&& 0 <= t < core.trips.len()
    &&& trip_is_as_given(core, feed_id, given, core.trips[t])
    &&& core.services.dom().contains(service)
    &&& core.services[service].contains(t as usize)
}

spec fn found_under(local: Map<Seq<char>, usize>, ids: Seq<Seq<char>>, feed_id: Seq<char>) -> bool {
    forall|id: Seq<char>| #[trigger] local.dom().contains(id) ==> local[id] < ids.len() && ids[local[id] as int] == namespaced(feed_id, id)
}

spec fn ids_of_stops(core: CoreView) -> Seq<Seq<char>> {
    Seq::new(core.stops.len(), |i: int| core.stops[i].id)
}

spec fn ids_of_routes(core: CoreView) -> Seq<Seq<char>> {
    Seq::new(core.routes.len(), |i: int| core.routes[i].id)
}

proof fn stops_are_found(core: CoreView, feed: FeedConfig, stops: Seq<GtfsStop>, order: Seq<usize>, n: int)
    requires
        0 <= n,
        core.stops.len() + n <= usize::MAX,
        with_stops(core, feed, stops, order, n) is Ok,
    ensures
        ({
            let after = with_stops(core, feed, stops, order, n)->Ok_0;
            &&& found_under(after.local, ids_of_stops(after.core), feed.id@)
            &&& after.core.stops.len() == core.stops.len() + n
            &&& after.core.routes == core.routes && after.core.trips == core.trips && after.core.services == core.services
            &&& forall|k: int| 0 <= k < n ==> after.local.dom().contains(stops[#[trigger] order[k] as int].id@)
        }),
    decreases n,
{
    if n > 0 {
        stops_are_found(core, feed, stops, order, n - 1);
        let before = with_stops(core, feed, stops, order, n - 1)->Ok_0;
        let after = with_stops(core, feed, stops, order, n)->Ok_0;
        assert forall|id: Seq<char>| #[trigger] after.local.dom().contains(id) implies after.local[id] < ids_of_stops(after.core).len() && ids_of_stops(after.core)[after.local[id] as int]
            == namespaced(feed.id@, id) by {
            if id != stops[order[n - 1] as int].id@ {
                assert(before.local.dom().contains(id));
                assert(ids_of_stops(before.core)[before.local[id] as int] == namespaced(feed.id@, id));
            }
        }
    }
}

proof fn routes_are_found(core: CoreView, feed: FeedConfig, routes: Seq<GtfsRoute>, order: Seq<usize>, n: int)
    requires
        0 <= n,
        core.routes.len() + n <= usize::MAX,
        with_routes(core, feed, routes, order, n) is Ok,
    ensures
        ({
            let after = with_routes(core, feed, routes, order, n)->Ok_0;
            &&& found_under(after.local, ids_of_routes(after.core), feed.id@)
            &&& after.core.routes.len() == core.routes.len() + n
            &&& after.core.stops == core.stops && after.core.trips == core.trips && after.core.services == core.services
        }),
    decreases n,
{
    if n > 0 {
        routes_are_found(core, feed, routes, order, n - 1);
        let before = with_routes(core, feed, routes, order, n - 1)->Ok_0;
        let after = with_routes(core, feed, routes, order, n)->Ok_0;
        assert forall|id: Seq<char>| #[trigger] after.local.dom().contains(id) implies after.local[id] < ids_of_routes(after.core).len() && ids_of_routes(after.core)[after.local[id] as int]
            == namespaced(feed.id@, id) by {
            if id != routes[order[n - 1] as int].id@ {
                assert(before.local.dom().contains(id));
                assert(ids_of_routes(before.core)[before.local[id] as int] == namespaced(feed.id@, id));
            }
        }
    }
}

/// Whether the times of a trip can be told in seconds.
pub open spec fn times_fit(given: GtfsTrip) -> bool {
    forall|c: int| 0 <= c < given.stop_times@.len() ==> {
        &&& (#[trigger] given.stop_times@[c]).arrival_time is Some ==> given.stop_times@[c].arrival_time->0 <= i32::MAX
        &&& given.stop_times@[c].departure_time is Some ==> given.stop_times@[c].departure_time->0 <= i32::MAX
    }
}

proof fn calls_are_as_given(core: CoreView, feed_id: Seq<char>, given: GtfsTrip, local: Map<Seq<char>, usize>, n: int)
    requires
        0 <= n <= given.stop_times@.len(),
        found_under(local, ids_of_stops(core), feed_id),
        times_fit(given),
        trip_calls(feed_id, given, local, n) is Ok,
    ensures
        ({
            let calls = trip_calls(feed_id, given, local, n)->Ok_0;
            calls.len() == n && forall|c: int| 0 <= c < n ==> call_is_as_given(core, feed_id, given.stop_times@[c], #[trigger] calls[c])
        }),
    decreases n,
{
    if n > 0 {
        calls_are_as_given(core, feed_id, given, local, n - 1);
        let before = trip_calls(feed_id, given, local, n - 1)->Ok_0;
        let calls = trip_calls(feed_id, given, local, n)->Ok_0;
        let call = given.stop_times@[n - 1];
        assert(local.dom().contains(call.stop_id@));
        assert(ids_of_stops(core)[local[call.stop_id@] as int] == namespaced(feed_id, call.stop_id@));
        assert forall|c: int| 0 <= c < n implies call_is_as_given(core, feed_id, given.stop_times@[c], #[trigger] calls[c]) by {
            if c < n - 1 {
                assert(calls[c] == before[c]);
            }
        }
    }
}

proof fn listing_keeps(lists: Map<Seq<char>, Seq<usize>>, key: Seq<char>, item: usize, service: Seq<char>, t: usize)
    ensures
        lists.dom().contains(service) && lists[service].contains(t) ==> with_listed(lists, key, item).dom().contains(service) && with_listed(lists, key, item)[service].contains(t),
        with_listed(lists, key, item).dom().contains(key) && with_listed(lists, key, item)[key].contains(item),
{
    let after = with_listed(lists, key, item);
    assert(after[key].last() == item);
    if lists.dom().contains(service) && lists[service].contains(t) && service == key {
        let at = lists[service].index_of(t);
        assert(after[service][at] == t);
    }
}

proof fn trips_are_as_given(core: CoreView, feed: FeedConfig, trips: Seq<GtfsTrip>, order: Seq<usize>, stops: Map<Seq<char>, usize>, routes: Map<Seq<char>, usize>, n: int, k: int)
    requires
        0 <= k < n,
        core.trips.len() + n <= usize::MAX,
        found_under(stops, ids_of_stops(core), feed.id@),
        found_under(routes, ids_of_routes(core), feed.id@),
        times_fit(trips[order[k] as int]),
        trips[order[k] as int].stop_times@.len() >= 2,
        with_trips(core, feed, trips, order, stops, routes, n) is Ok,
    ensures
        exists|t: int| #[trigger] has_trip_at(with_trips(core, feed, trips, order, stops, routes, n)->Ok_0, feed.id@, trips[order[k] as int], t),
    decreases n,
{
    let before = with_trips(core, feed, trips, order, stops, routes, n - 1)->Ok_0;
    let after = with_trips(core, feed, trips, order, stops, routes, n)->Ok_0;
    trips_keep_the_rest(core, feed, trips, order, stops, routes, n - 1);
    let given = trips[order[n - 1] as int];
    let calls = trip_calls(feed.id@, given, stops, given.stop_times@.len() as int)->Ok_0;
    if k == n - 1 {
        calls_are_as_given(core, feed.id@, given, stops, given.stop_times@.len() as int);
        let t = before.trips.len() as int;
        assert(routes.dom().contains(given.route_id@));
        assert(ids_of_routes(core)[routes[given.route_id@] as int] == namespaced(feed.id@, given.route_id@));
        listing_keeps(before.services, namespaced(feed.id@, given.service_id@), t as usize, namespaced(feed.id@, given.service_id@), t as usize);
        assert(after.trips[t].stop_times == calls);
        assert forall|c: int| 0 <= c < calls.len() implies call_is_as_given(after, feed.id@, given.stop_times@[c], #[trigger] calls[c]) by {
            assert(call_is_as_given(core, feed.id@, given.stop_times@[c], calls[c]));
        }
        assert(has_trip_at(after, feed.id@, given, t));
    } else {
        trips_are_as_given(core, feed, trips, order, stops, routes, n - 1, k);
        let own = trips[order[k] as int];
        let t = choose|t: int| #[trigger] has_trip_at(before, feed.id@, own, t);
        listing_keeps(before.services, namespaced(feed.id@, given.service_id@), before.trips.len() as usize, namespaced(feed.id@, own.service_id@), t as usize);
        assert(after.trips[t] == before.trips[t]);
        assert forall|c: int| 0 <= c < after.trips[t].stop_times.len() implies call_is_as_given(after, feed.id@, own.stop_times@[c], #[trigger] after.trips[t].stop_times[c]) by {
            assert(call_is_as_given(before, feed.id@, own.stop_times@[c], before.trips[t].stop_times[c]));
        }
        assert(has_trip_at(after, feed.id@, own, t));
    }
}

proof fn trips_keep_the_rest(core: CoreView, feed: FeedConfig, trips: Seq<GtfsTrip>, order: Seq<usize>, stops: Map<Seq<char>, usize>, routes: Map<Seq<char>, usize>, n: int)
    requires
        0 <= n,
        with_trips(core, feed, trips, order, stops, routes, n) is Ok,
    ensures
        ({
            let after = with_trips(core, feed, trips, order, stops, routes, n)->Ok_0;
            after.stops == core.stops && after.routes == core.routes && core.trips.len() <= after.trips.len() <= core.trips.len() + n
        }),
    decreases n,
{
    if n > 0 {
        trips_keep_the_rest(core, feed, trips, order, stops, routes, n - 1);
    }
}

/// A timetable has every trip with two calls or more that a feed gives: under the id that
/// the feed gives it, on its route, and with its calls in order, at the stops and times
/// that are given; and the service of the trip lists it.
pub proof fn timetables_have_the_trips_of_their_feeds(core: CoreView, feed: FeedConfig, gtfs: GtfsFeed, g: int)
    requires
        with_feed(core, feed, gtfs) is Ok,
        0 <= g < gtfs.trips@.len(),
        gtfs.trips@[g].stop_times@.len() >= 2,
        times_fit(gtfs.trips@[g]),
        core.stops.len() + gtfs.stops@.len() <= usize::MAX,
        core.routes.len() + gtfs.routes@.len() <= usize::MAX,
        core.trips.len() + gtfs.trips@.len() <= usize::MAX,
    ensures
        exists|t: int| #[trigger] has_trip_at(with_feed(core, feed, gtfs)->Ok_0, feed.id@, gtfs.trips@[g], t),
{
    let begun = CoreView {
        feeds: core.feeds.push(
            FeedView { feed_index: feed.feed_index, id: feed.id@, static_gtfs_path: feed.static_gtfs_path@, depends_on: texts_view(feed.depends_on@) },
        ),
        ..core
    };
    let stop_order = text_order_of(stop_ids(gtfs.stops@));
    let stopped = with_stops(begun, feed, gtfs.stops@, stop_order, gtfs.stops@.len() as int)->Ok_0;
    stops_are_found(begun, feed, gtfs.stops@, stop_order, gtfs.stops@.len() as int);
    let route_order = text_order_of(route_ids(gtfs.routes@));
    let routed = with_routes(stopped.core, feed, gtfs.routes@, route_order, gtfs.routes@.len() as int)->Ok_0;
    routes_are_found(stopped.core, feed, gtfs.routes@, route_order, gtfs.routes@.len() as int);
    let shaped = CoreView { shapes: with_shapes(routed.core.shapes, feed.id@, gtfs.shapes@, gtfs.shapes@.len() as int), ..routed.core };
    assert(ids_of_stops(shaped) =~= ids_of_stops(stopped.core));
    assert(ids_of_routes(shaped) =~= ids_of_routes(routed.core));
    let ids = trip_ids(gtfs.trips@);
    let order = text_order_of(ids);
    text_order_exists(ids);
    text_order_covers(ids, order);
    assert(order.contains(g as usize));
    let k = order.index_of(g as usize);
    assert(order[k] == g);
    trips_are_as_given(shaped, feed, gtfs.trips@, order, stopped.local, routed.local, gtfs.trips@.len() as int, k);
    let tripped = with_trips(shaped, feed, gtfs.trips@, order, stopped.local, routed.local, gtfs.trips@.len() as int)->Ok_0;
    let t = choose|t: int| #[trigger] has_trip_at(tripped, feed.id@, gtfs.trips@[g], t);
    let after = with_feed(core, feed, gtfs)->Ok_0;
    assert(after == (CoreView { calendar: after.calendar, ..tripped }));
    assert forall|c: int| 0 <= c < after.trips[t].stop_times.len() implies call_is_as_given(after, feed.id@, gtfs.trips@[g].stop_times@[c], #[trigger] after.trips[t].stop_times[c]) by {
        assert(call_is_as_given(tripped, feed.id@, gtfs.trips@[g].stop_times@[c], tripped.trips[t].stop_times[c]));
    }
    assert(has_trip_at(after, feed.id@, gtfs.trips@[g], t));
}

/// Whether a timetable has a stop as it was given at a place: by its ids, its code, its
/// name without white space around it, and its coordinates.
pub open spec fn has_stop_at(core: CoreView, feed_id: Seq<char>, given: GtfsStop, s: int) -> bool {
    &&& 0 <= s < core.stops.len()
    &&& core.stops[s].id == feed_id + seq![':'] + given.id@
    &&& core.stops[s].local_id == given.id@
    &&& core.stops[s].feed_id == feed_id
    &&& core.stops[s].code == text_view(given.code)
    &&& core.stops[s].latitude == given.latitude
    &&& core.stops[s].longitude == given.longitude
    &&& given.name is Some && trim_text(given.name->0@).len() > 0 ==> core.stops[s].name == trim_text(given.name->0@)
    &&& given.name is None ==> core.stops[s].name == given.id@
}

proof fn stops_are_as_given(core: CoreView, feed: FeedConfig, stops: Seq<GtfsStop>, order: Seq<usize>, n: int, k: int)
    requires
        0 <= k < n,
        with_stops(core, feed, stops, order, n) is Ok,
    ensures
        has_stop_at(with_stops(core, feed, stops, order, n)->Ok_0.core, feed.id@, stops[order[k] as int], core.stops.len() + k),
        with_stops(core, feed, stops, order, n)->Ok_0.core.stops.len() == core.stops.len() + n,
    decreases n,
{
    if k < n - 1 {
        stops_are_as_given(core, feed, stops, order, n - 1, k);
    } else if n > 1 {
        stops_are_as_given(core, feed, stops, order, n - 1, 0);
    }
}

/// A timetable has every stop that a feed gives.
pub proof fn timetables_have_the_stops_of_their_feeds(core: CoreView, feed: FeedConfig, gtfs: GtfsFeed, g: int)
    requires
        with_feed(core, feed, gtfs) is Ok,
        0 <= g < gtfs.stops@.len() <= usize::MAX,
        core.stops.len() + gtfs.stops@.len() <= usize::MAX,
        core.routes.len() + gtfs.routes@.len() <= usize::MAX,
    ensures
        exists|s: int| #[trigger] has_stop_at(with_feed(core, feed, gtfs)->Ok_0, feed.id@, gtfs.stops@[g], s),
{
    let begun = CoreView {
        feeds: core.feeds.push(
            FeedView { feed_index: feed.feed_index, id: feed.id@, static_gtfs_path: feed.static_gtfs_path@, depends_on: texts_view(feed.depends_on@) },
        ),
        ..core
    };
    let ids = stop_ids(gtfs.stops@);
    let order = text_order_of(ids);
    text_order_exists(ids);
    text_order_covers(ids, order);
    assert(order.contains(g as usize));
    let k = order.index_of(g as usize);
    assert(order[k] == g);
    let stopped = with_stops(begun, feed, gtfs.stops@, order, gtfs.stops@.len() as int)->Ok_0;
    stops_are_as_given(begun, feed, gtfs.stops@, order, gtfs.stops@.len() as int, k);
    stops_are_found(begun, feed, gtfs.stops@, order, gtfs.stops@.len() as int);
    let route_order = text_order_of(route_ids(gtfs.routes@));
    routes_are_found(stopped.core, feed, gtfs.routes@, route_order, gtfs.routes@.len() as int);
    let routed = with_routes(stopped.core, feed, gtfs.routes@, route_order, gtfs.routes@.len() as int)->Ok_0;
    let shaped = CoreView { shapes: with_shapes(routed.core.shapes, feed.id@, gtfs.shapes@, gtfs.shapes@.len() as int), ..routed.core };
    trips_keep_the_rest(shaped, feed, gtfs.trips@, text_order_of(trip_ids(gtfs.trips@)), stopped.local, routed.local, gtfs.trips@.len() as int);
    assert(has_stop_at(with_feed(core, feed, gtfs)->Ok_0, feed.id@, gtfs.stops@[g], begun.stops.len() + k));
}

proof fn group_is_found(groups: Seq<LineGroup>, route: usize, stops: Seq<usize>, i: int)
    requires
        0 <= i,
    ensures
        match group_with(groups, route, stops, i) {
            Some(at) => i <= at < groups.len() && groups[at].route_index == route && groups[at].stops == stops,
            None => true,
        },
    decreases groups.len() - i,
{
    if i < groups.len() && !(groups[i].route_index == route && groups[i].stops == stops) {
        group_is_found(groups, route, stops, i + 1);
    }
}

/// Whether a group has a trip, and goes its way: on its route, at its stops.
pub open spec fn group_has(trips: Seq<TripRecord>, group: LineGroup, trip: usize) -> bool {
    group.trips.contains(trip) && group.route_index == trips[trip as int].route_index && group.stops == called_stops(trips[trip as int])
}

proof fn trips_are_grouped(trips: Seq<TripRecord>, listed: Seq<usize>, n: int)
    requires
        0 <= n <= listed.len(),
    ensures
        ({
            let groups = line_groups(trips, listed, n);
            &&& forall|k: int| 0 <= k < n ==> exists|g: int| 0 <= g < groups.len() && group_has(trips, #[trigger] groups[g], #[trigger] listed[k])
            &&& forall|g: int, i: int| 0 <= g < groups.len() && 0 <= i < groups[g].trips.len() ==> group_has(trips, groups[g], #[trigger] groups[g].trips[i])
        }),
    decreases n,
{
    if n > 0 {
        trips_are_grouped(trips, listed, n - 1);
        let before = line_groups(trips, listed, n - 1);
        let groups = line_groups(trips, listed, n);
        let trip = listed[n - 1];
        let route = trips[trip as int].route_index;
        let stops = called_stops(trips[trip as int]);
        group_is_found(before, route, stops, 0);
        let at = match group_with(before, route, stops, 0) {
            Some(i) => i,
            None => before.len() as int,
        };
        assert(groups[at].trips.last() == trip);
        assert(group_has(trips, groups[at], trip));
        assert forall|g: int| 0 <= g < before.len() implies (#[trigger] groups[g]).route_index == before[g].route_index && groups[g].stops == before[g].stops && (forall|t: usize|
            before[g].trips.contains(t) ==> #[trigger] groups[g].trips.contains(t)) by {
            assert forall|t: usize| before[g].trips.contains(t) implies #[trigger] groups[g].trips.contains(t) by {
                let i = before[g].trips.index_of(t);
                assert(groups[g].trips[i] == t);
            }
        }
        assert forall|k: int| 0 <= k < n implies exists|g: int| 0 <= g < groups.len() && group_has(trips, #[trigger] groups[g], #[trigger] listed[k]) by {
            if k < n - 1 {
                let g = choose|g: int| 0 <= g < before.len() && group_has(trips, #[trigger] before[g], listed[k]);
                assert(groups[g].trips.contains(listed[k]));
                assert(group_has(trips, groups[g], listed[k]));
            } else {
                assert(group_has(trips, groups[at], listed[k]));
            }
        }
        assert forall|g: int, i: int| 0 <= g < groups.len() && 0 <= i < groups[g].trips.len() implies group_has(trips, groups[g], #[trigger] groups[g].trips[i]) by {
            let t = groups[g].trips[i];
            if g < before.len() && i < before[g].trips.len() {
                assert(before[g].trips[i] == t);
                assert(group_has(trips, before[g], before[g].trips[i]));
                assert(groups[g].trips.contains(t));
            } else {
                assert(t == trip && g == at);
            }
        }
    }
}

/// Whether a trip is the `i`th of a line, which calls where the trip does.
pub open spec fn is_on_line(lines: Seq<LineRecord>, trips: Seq<TripRecord>, l: int, i: int, trip: usize) -> bool {
    &&& 0 <= l < lines.len()
    &&& 0 <= i < lines[l].trip_indices@.len()
    &&& lines[l].trip_indices@[i] == trip
    &&& lines[l].stop_indices@.len() == trips[trip as int].stop_times@.len()
    &&& forall|p: int| 0 <= p < lines[l].stop_indices@.len() ==> (#[trigger] lines[l].stop_indices@[p]) == trips[trip as int].stop_times@[p].stop_index
}

/// Every trip that is listed is on a line that calls where the trip does, so that it can be
/// ridden; and the trips of a line are on the same route and call at the same stops.
pub proof fn every_trip_is_on_a_line(lines: Seq<LineRecord>, trips: Seq<TripRecord>, listed: Seq<usize>, k: int)
    requires
        lines_of(lines, trips, listed),
        0 <= k < listed.len(),
        forall|l: int| 0 <= l < lines.len() ==> (#[trigger] lines[l]).trip_indices@.len() <= usize::MAX,
    ensures
        exists|l: int, i: int| #[trigger] is_on_line(lines, trips, l, i, listed[k]),
        forall|l: int, i: int, j: int|
            0 <= l < lines.len() && 0 <= i < lines[l].trip_indices@.len() && 0 <= j < lines[l].trip_indices@.len() ==> trips[#[trigger] lines[l].trip_indices@[i] as int].route_index
                == trips[#[trigger] lines[l].trip_indices@[j] as int].route_index && called_stops(trips[lines[l].trip_indices@[i] as int]) == called_stops(
                trips[lines[l].trip_indices@[j] as int],
            ),
{
    let groups = line_groups(trips, listed, listed.len() as int);
    trips_are_grouped(trips, listed, listed.len() as int);
    let g = choose|g: int| 0 <= g < groups.len() && group_has(trips, #[trigger] groups[g], listed[k]);
    let line = lines[g];
    assert(trips_by_first_departure(trips, groups[g].trips, line.trip_indices@));
    let order = choose|order: Seq<usize>|
        #[trigger] is_stable_order(first_departure_keys(trips, groups[g].trips), order) && line.trip_indices@ == arranged(groups[g].trips, order);
    let keys = first_departure_keys(trips, groups[g].trips);
    assert(groups[g].trips.contains(listed[k]));
    let at = groups[g].trips.index_of(listed[k]);
    place_is_kept(keys, order, at);
    let i = choose|i: int| 0 <= i < order.len() && #[trigger] order[i] as int == at;
    assert(line.trip_indices@[i] == listed[k]);
    assert(is_on_line(lines, trips, g, i, listed[k]));
    assert forall|l: int, i: int, j: int|
        0 <= l < lines.len() && 0 <= i < lines[l].trip_indices@.len() && 0 <= j < lines[l].trip_indices@.len() implies trips[#[trigger] lines[l].trip_indices@[i] as int].route_index
        == trips[#[trigger] lines[l].trip_indices@[j] as int].route_index && called_stops(trips[lines[l].trip_indices@[i] as int]) == called_stops(
        trips[lines[l].trip_indices@[j] as int],
    ) by {
        let group = groups[l];
        assert(trips_by_first_departure(trips, group.trips, lines[l].trip_indices@));
        let sorted = choose|sorted: Seq<usize>|
            #[trigger] is_stable_order(first_departure_keys(trips, group.trips), sorted) && lines[l].trip_indices@ == arranged(group.trips, sorted);
        assert(sorted[i] < first_departure_keys(trips, group.trips).len());
        assert(sorted[j] < first_departure_keys(trips, group.trips).len());
        assert(lines[l].trip_indices@[i] == group.trips[sorted[i] as int]);
        assert(lines[l].trip_indices@[j] == group.trips[sorted[j] as int]);
        assert(group_has(trips, groups[l], groups[l].trips[sorted[i] as int]));
        assert(group_has(trips, groups[l], groups[l].trips[sorted[j] as int]));
    }
}

proof fn place_is_kept(keys: Seq<OrderKey>, order: Seq<usize>, at: int)
    requires
        is_stable_order(keys, order),
        0 <= at < keys.len(),
        at <= usize::MAX,
    ensures
        exists|i: int| 0 <= i < order.len() && #[trigger] order[i] as int == at,
{
    stable_order_covers(keys, order);
    assert(order.len() == keys.len());
    assert(order.contains(at as usize));
    let i = order.index_of(at as usize);
    assert(order[i] as int == at);
}

} // verus!
