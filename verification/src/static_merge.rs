//! Taking over a new timetable without moving what the old one has: records that
//! are still the same keep their places, and all others are put at the end.

use crate::ids::{allocate_unique_global_id, free_id, is_free_id, EntityKind, IdError};
use crate::lines::{rebuild_lines_and_stop_to_lines, trip_in_bounds};
use crate::model::{RouteRecord, StaticData, StopRecord, TripRecord, TripStopRecord};
use crate::records::{
    copy_route, copy_stop, copy_trip, route_records_equivalent, routes_equivalent, routes_view, stop_records_equivalent, stops_equivalent, stops_view,
    trip_records_equivalent, trip_refers, trips_equivalent, trips_view, RouteView, StopView, TripView,
};
use crate::static_changes::{
    find_routes_by_id, find_stops_by_id, find_trips_by_id, ids_of_routes, ids_of_stops, ids_of_trips, listed_ids_are_listed, listed_within,
    routes_by_id, stops_by_id, tables_of, tables_of_core, trips_by_id, Tables,
};
use crate::static_core::{lookups_view, CoreView, StaticCore};
use crate::text_map::TextMap;
use std::collections::{HashMap, HashSet};
use vstd::hash_map::StringHashMap;
use vstd::prelude::*;
use vstd::utf8::encode_utf8;

verus! {

/// Why a timetable could not be taken over.
#[derive(Clone, Debug)]
pub enum MergeError {
    /// A record could not be given a number.
    Id(IdError),
    /// A trip is on a route that is not in service.
    MissingRoute { trip_id: String },
    /// A trip calls at a stop that is not in service.
    MissingStop { trip_id: String },
}

/// What an error says.
pub enum MergeErrorView {
    Id(IdError),
    MissingRoute { trip_id: Seq<char> },
    MissingStop { trip_id: Seq<char> },
}

impl MergeError {
    /// What the error says.
    pub open spec fn view(&self) -> MergeErrorView {
        match *self {
            MergeError::Id(error) => MergeErrorView::Id(error),
            MergeError::MissingRoute { trip_id } => MergeErrorView::MissingRoute { trip_id: trip_id@ },
            MergeError::MissingStop { trip_id } => MergeErrorView::MissingStop { trip_id: trip_id@ },
        }
    }
}

/// The numbers of stops.
pub open spec fn stop_numbers(stops: Seq<StopView>) -> Set<u64> {
    Seq::new(stops.len(), |i: int| stops[i].global_id).to_set()
}

/// The numbers of routes.
pub open spec fn route_numbers(routes: Seq<RouteView>) -> Set<u64> {
    Seq::new(routes.len(), |i: int| routes[i].global_id).to_set()
}

/// The numbers of trips.
pub open spec fn trip_numbers(trips: Seq<TripView>) -> Set<u64> {
    Seq::new(trips.len(), |i: int| trips[i].global_id).to_set()
}

/// The stops of both timetables, and where each stop in service is.
pub struct MergedStops {
    pub records: Seq<StopView>,
    pub places: Seq<usize>,
    pub taken: Set<u64>,
}

/// The routes of both timetables, and where each route in service is.
pub struct MergedRoutes {
    pub records: Seq<RouteView>,
    pub places: Seq<usize>,
    pub taken: Set<u64>,
}

/// The trips of both timetables, and where each trip in service is.
pub struct MergedTrips {
    pub records: Seq<TripView>,
    pub places: Seq<usize>,
    pub taken: Set<u64>,
}

/// The first `n` of the new stops in service taken over.
pub open spec fn merged_stops(previous: Tables, next: Tables, n: int) -> Result<MergedStops, MergeErrorView>
    decreases n,
{
    if n <= 0 {
        Ok(MergedStops { records: previous.stops, places: Seq::empty(), taken: stop_numbers(previous.stops) })
    } else {
        match merged_stops(previous, next, n - 1) {
            Err(error) => Err(error),
            Ok(before) => {
                let stop = next.stops[next.active_stops[n - 1] as int];
                let known = stops_by_id(previous.stops, previous.active_stops);
                if known.dom().contains(stop.id) && stops_equivalent(previous.stops[known[stop.id] as int], stop) {
                    Ok(MergedStops { places: before.places.push(known[stop.id]), ..before })
                } else {
                    match free_id(stop.global_id, stop.feed_index, EntityKind::Stop, encode_utf8(stop.local_id), before.taken) {
                        None => Err(MergeErrorView::Id(IdError::Exhausted)),
                        Some(id) => Ok(
                            MergedStops {
                                records: before.records.push(StopView { global_id: id, ..stop }),
                                places: before.places.push(before.records.len() as usize),
                                taken: before.taken.insert(id),
                            },
                        ),
                    }
                }
            },
        }
    }
}

/// The first `n` of the new routes in service taken over.
pub open spec fn merged_routes(previous: Tables, next: Tables, n: int) -> Result<MergedRoutes, MergeErrorView>
    decreases n,
{
    if n <= 0 {
        Ok(MergedRoutes { records: previous.routes, places: Seq::empty(), taken: route_numbers(previous.routes) })
    } else {
        match merged_routes(previous, next, n - 1) {
            Err(error) => Err(error),
            Ok(before) => {
                let route = next.routes[next.active_routes[n - 1] as int];
                let known = routes_by_id(previous.routes, previous.active_routes);
                if known.dom().contains(route.id) && routes_equivalent(previous.routes[known[route.id] as int], route) {
                    Ok(MergedRoutes { places: before.places.push(known[route.id]), ..before })
                } else {
                    match free_id(route.global_id, route.feed_index, EntityKind::Route, encode_utf8(route.local_id), before.taken) {
                        None => Err(MergeErrorView::Id(IdError::Exhausted)),
                        Some(id) => Ok(
                            MergedRoutes {
                                records: before.records.push(RouteView { global_id: id, ..route }),
                                places: before.places.push(before.records.len() as usize),
                                taken: before.taken.insert(id),
                            },
                        ),
                    }
                }
            },
        }
    }
}

/// Where the first `n` of the records listed have gone.
pub open spec fn remapped(listed: Seq<usize>, places: Seq<usize>, n: int) -> Map<usize, usize>
    decreases n,
{
    if n <= 0 {
        Map::empty()
    } else {
        remapped(listed, places, n - 1).insert(listed[n - 1], places[n - 1])
    }
}

/// The first `n` calls of a trip at the new places of the stops.
pub open spec fn moved_calls(calls: Seq<TripStopRecord>, stops: Map<usize, usize>, n: int) -> Option<Seq<TripStopRecord>>
    decreases n,
{
    if n <= 0 {
        Some(Seq::empty())
    } else {
        match moved_calls(calls, stops, n - 1) {
            None => None,
            Some(before) => if stops.dom().contains(calls[n - 1].stop_index) {
                Some(before.push(TripStopRecord { stop_index: stops[calls[n - 1].stop_index], ..calls[n - 1] }))
            } else {
                None
            },
        }
    }
}

/// A trip with a number of its own, at the new places of its route and stops.
pub open spec fn moved_trip(trip: TripView, stops: Map<usize, usize>, routes: Map<usize, usize>, taken: Set<u64>) -> Result<TripView, MergeErrorView> {
    match free_id(trip.global_id, trip.feed_index, EntityKind::Trip, encode_utf8(trip.local_id), taken) {
        None => Err(MergeErrorView::Id(IdError::Exhausted)),
        Some(id) => if !routes.dom().contains(trip.route_index) {
            Err(MergeErrorView::MissingRoute { trip_id: trip.id })
        } else {
            match moved_calls(trip.stop_times, stops, trip.stop_times.len() as int) {
                None => Err(MergeErrorView::MissingStop { trip_id: trip.id }),
                Some(calls) => Ok(TripView { global_id: id, route_index: routes[trip.route_index], stop_times: calls, ..trip }),
            }
        },
    }
}

/// Whether a new trip is the one of the same id that is in service already.
pub open spec fn trip_is_kept(previous: Tables, next: Tables, trip: TripView) -> bool {
    let known = trips_by_id(previous.trips, previous.active_trips);
    known.dom().contains(trip.id) && trips_equivalent(previous.trips[known[trip.id] as int], previous.routes, previous.stops, trip, next.routes, next.stops)
}

/// The first `n` of the new trips in service taken over.
pub open spec fn merged_trips(previous: Tables, next: Tables, stops: Map<usize, usize>, routes: Map<usize, usize>, n: int) -> Result<MergedTrips, MergeErrorView>
    decreases n,
{
    if n <= 0 {
        Ok(MergedTrips { records: previous.trips, places: Seq::empty(), taken: trip_numbers(previous.trips) })
    } else {
        match merged_trips(previous, next, stops, routes, n - 1) {
            Err(error) => Err(error),
            Ok(before) => {
                let trip = next.trips[next.active_trips[n - 1] as int];
                if trip_is_kept(previous, next, trip) {
                    Ok(MergedTrips { places: before.places.push(trips_by_id(previous.trips, previous.active_trips)[trip.id]), ..before })
                } else {
                    match moved_trip(trip, stops, routes, before.taken) {
                        Err(error) => Err(error),
                        Ok(moved) => Ok(
                            MergedTrips {
                                records: before.records.push(moved),
                                places: before.places.push(before.records.len() as usize),
                                taken: before.taken.insert(moved.global_id),
                            },
                        ),
                    }
                }
            },
        }
    }
}

/// Both timetables together.
pub struct MergedTables {
    pub stops: MergedStops,
    pub routes: MergedRoutes,
    pub trips: MergedTrips,
}

/// A timetable taken over.
pub open spec fn merged_tables(previous: Tables, next: Tables) -> Result<MergedTables, MergeErrorView> {
    match merged_stops(previous, next, next.active_stops.len() as int) {
        Err(error) => Err(error),
        Ok(stops) => match merged_routes(previous, next, next.active_routes.len() as int) {
            Err(error) => Err(error),
            Ok(routes) => match merged_trips(
                previous,
                next,
                remapped(next.active_stops, stops.places, next.active_stops.len() as int),
                remapped(next.active_routes, routes.places, next.active_routes.len() as int),
                next.active_trips.len() as int,
            ) {
                Err(error) => Err(error),
                Ok(trips) => Ok(MergedTables { stops: stops, routes: routes, trips: trips }),
            },
        },
    }
}

/// The first `n` of the stops listed by id.
pub open spec fn stop_places(stops: Seq<StopView>, places: Seq<usize>, n: int) -> Map<Seq<char>, usize> {
    crate::static_changes::listed_by_id(ids_of_stops(stops), places, n)
}

/// The first `n` of the stops listed by number.
pub open spec fn number_places(stops: Seq<StopView>, places: Seq<usize>, n: int) -> Map<u64, usize>
    decreases n,
{
    if n <= 0 {
        Map::empty()
    } else {
        number_places(stops, places, n - 1).insert(stops[places[n - 1] as int].global_id, places[n - 1])
    }
}

/// The first `n` of the trips listed, by feed and local id.
pub open spec fn trip_places(trips: Seq<TripView>, places: Seq<usize>, feeds: int, n: int) -> Seq<Map<Seq<char>, usize>>
    decreases n,
{
    if n <= 0 {
        Seq::new(feeds as nat, |i: int| Map::empty())
    } else {
        let before = trip_places(trips, places, feeds, n - 1);
        let trip = trips[places[n - 1] as int];
        before.update(trip.feed_index as int, before[trip.feed_index as int].insert(trip.local_id, places[n - 1]))
    }
}

/// The first `n` numbers of a list at their new places; those that have none are
/// left out.
pub open spec fn moved_list(list: Seq<usize>, places: Map<usize, usize>, n: int) -> Seq<usize>
    decreases n,
{
    if n <= 0 {
        Seq::empty()
    } else {
        let before = moved_list(list, places, n - 1);
        if places.dom().contains(list[n - 1]) { before.push(places[list[n - 1]]) } else { before }
    }
}

/// The lists of trips by service at the new places of the trips, without empty
/// lists.
pub open spec fn moved_services(services: Map<Seq<char>, Seq<usize>>, places: Map<usize, usize>) -> Map<Seq<char>, Seq<usize>> {
    Map::new(
        |service: Seq<char>| services.dom().contains(service) && moved_list(services[service], places, services[service].len() as int).len() > 0,
        |service: Seq<char>| moved_list(services[service], places, services[service].len() as int),
    )
}

/// What a timetable says that was taken over.
pub open spec fn merged_core(merged: MergedTables, next: CoreView, next_tables: Tables) -> CoreView {
    CoreView {
        feeds: next.feeds,
        stops: merged.stops.records,
        routes: merged.routes.records,
        trips: merged.trips.records,
        stop_ids: stop_places(merged.stops.records, merged.stops.places, merged.stops.places.len() as int),
        stop_numbers: number_places(merged.stops.records, merged.stops.places, merged.stops.places.len() as int),
        feed_trips: trip_places(merged.trips.records, merged.trips.places, next.feeds.len() as int, merged.trips.places.len() as int),
        services: moved_services(next.services, remapped(next_tables.active_trips, merged.trips.places, next_tables.active_trips.len() as int)),
        calendar: next.calendar,
        shapes: next.shapes,
    }
}

proof fn numbers_after_push<A>(records: Seq<A>, number: spec_fn(A) -> u64, record: A)
    ensures
        Seq::new(records.push(record).len(), |i: int| number(records.push(record)[i])).to_set() == Seq::new(records.len(), |i: int| number(records[i])).to_set().insert(number(record)),
{
    let longer = Seq::new(records.push(record).len(), |i: int| number(records.push(record)[i]));
    let shorter = Seq::new(records.len(), |i: int| number(records[i]));
    assert(longer =~= shorter.push(number(record)));
    assert forall|id: u64| longer.to_set().contains(id) <==> shorter.to_set().insert(number(record)).contains(id) by {
        if longer.contains(id) {
            let at = choose|at: int| 0 <= at < longer.len() && longer[at] == id;
            if at < shorter.len() {
                assert(shorter[at] == id);
                assert(shorter.contains(id));
            }
        }
        if shorter.contains(id) {
            let at = choose|at: int| 0 <= at < shorter.len() && shorter[at] == id;
            assert(longer[at] == id);
        }
        assert(longer[shorter.len() as int] == number(record));
    }
    assert(longer.to_set() =~= shorter.to_set().insert(number(record)));
}

proof fn stops_keep_error(previous: Tables, next: Tables, n: int, m: int)
    requires
        n <= m,
        merged_stops(previous, next, n) is Err,
    ensures
        merged_stops(previous, next, m) == merged_stops(previous, next, n),
    decreases m - n,
{
    if n < m {
        stops_keep_error(previous, next, n, m - 1);
    }
}

proof fn routes_keep_error(previous: Tables, next: Tables, n: int, m: int)
    requires
        n <= m,
        merged_routes(previous, next, n) is Err,
    ensures
        merged_routes(previous, next, m) == merged_routes(previous, next, n),
    decreases m - n,
{
    if n < m {
        routes_keep_error(previous, next, n, m - 1);
    }
}

proof fn trips_keep_error(previous: Tables, next: Tables, stops: Map<usize, usize>, routes: Map<usize, usize>, n: int, m: int)
    requires
        n <= m,
        merged_trips(previous, next, stops, routes, n) is Err,
    ensures
        merged_trips(previous, next, stops, routes, m) == merged_trips(previous, next, stops, routes, n),
    decreases m - n,
{
    if n < m {
        trips_keep_error(previous, next, stops, routes, n, m - 1);
    }
}

fn merge_stops(previous_data: &StaticData, next_core: &StaticCore) -> (result: Result<(Vec<StopRecord>, Vec<usize>), MergeError>)
    requires
        tables_of(*previous_data).wf(),
        tables_of_core(*next_core).wf(),
    ensures
        ({
            let merged = merged_stops(tables_of(*previous_data), tables_of_core(*next_core), next_core.active_stop_indices@.len() as int);
            match result {
                Ok((records, places)) => merged is Ok && merged->Ok_0.records == stops_view(records@) && merged->Ok_0.places == places@,
                Err(error) => merged == Err::<MergedStops, MergeErrorView>(error@),
            }
        }),
{
    let ghost previous = tables_of(*previous_data);
    let ghost next = tables_of_core(*next_core);
    let known: TextMap<usize> = find_stops_by_id(&previous_data.stops, &previous_data.active_stop_indices);
    let mut stops: Vec<StopRecord> = Vec::new();
    let mut taken: HashSet<u64> = HashSet::new();
    let mut i: usize = 0;
    proof {
        assert(taken@ =~= stop_numbers(stops_view(stops@)));
    }
    while i < previous_data.stops.len()
        invariant
            i <= previous_data.stops.len(),
            stops_view(stops@) == stops_view(previous_data.stops@).take(i as int),
            taken@ == stop_numbers(stops_view(stops@)),
        decreases previous_data.stops.len() - i,
    {
        let stop: StopRecord = copy_stop(&previous_data.stops[i]);
        taken.insert(stop.global_id);
        let ghost before = stops@;
        let ghost record = stop@;
        stops.push(stop);
        i = i + 1;
        proof {
            assert(stops_view(stops@) =~= stops_view(before).push(record));
            assert(stops_view(stops@) =~= stops_view(previous_data.stops@).take(i as int));
            numbers_after_push(stops_view(before), |s: StopView| s.global_id, record);
            assert(Seq::new(stops_view(before).len(), |k: int| (|s: StopView| s.global_id)(stops_view(before)[k])) =~= Seq::new(stops_view(before).len(), |k: int| stops_view(before)[k].global_id));
            let longer = stops_view(before).push(record);
            assert(Seq::new(longer.len(), |k: int| (|s: StopView| s.global_id)(longer[k])) =~= Seq::new(longer.len(), |k: int| longer[k].global_id));
        }
    }
    proof {
        assert(stops_view(previous_data.stops@).take(i as int) =~= previous.stops);
        listed_ids_are_listed(ids_of_stops(previous.stops), previous.active_stops, previous.active_stops.len() as int);
    }
    let mut places: Vec<usize> = Vec::new();
    assert(places@ =~= Seq::<usize>::empty());
    let mut k: usize = 0;
    while k < next_core.active_stop_indices.len()
        invariant
            k <= next_core.active_stop_indices.len(),
            previous == tables_of(*previous_data),
            next == tables_of_core(*next_core),
            previous.wf(),
            next.wf(),
            known.wf(),
            known@ == stops_by_id(previous.stops, previous.active_stops),
            forall|id: Seq<char>| #[trigger] known@.dom().contains(id) ==> exists|a: int| 0 <= a < previous.active_stops.len() && #[trigger] previous.active_stops[a] == known@[id],
            merged_stops(previous, next, k as int) == Ok::<MergedStops, MergeErrorView>(MergedStops { records: stops_view(stops@), places: places@, taken: taken@ }),
        decreases next_core.active_stop_indices.len() - k,
    {
        assert(next.active_stops[k as int] < next.stops.len());
        let stop: &StopRecord = &next_core.stops[next_core.active_stop_indices[k]];
        let kept: Option<usize> = match known.get(stop.id.as_str()) {
            Some(place) => if stop_records_equivalent(&previous_data.stops[*place], stop) { Some(*place) } else { None },
            None => None,
        };
        match kept {
            Some(place) => {
                places.push(place);
            },
            None => {
                let id: u64 = match allocate_unique_global_id(stop.global_id, stop.feed_index, EntityKind::Stop, stop.local_id.as_str(), &mut taken) {
                    Ok(id) => id,
                    Err(error) => {
                        proof {
                            stops_keep_error(previous, next, k + 1, next.active_stops.len() as int);
                        }
                        return Err(MergeError::Id(error));
                    },
                };
                let place: usize = stops.len();
                let mut record: StopRecord = copy_stop(stop);
                record.global_id = id;
                let ghost before = stops@;
                stops.push(record);
                places.push(place);
                assert(stops_view(stops@) =~= stops_view(before).push(StopView { global_id: id, ..stop@ }));
            },
        }
        k = k + 1;
    }
    Ok((stops, places))
}

fn merge_routes(previous_data: &StaticData, next_core: &StaticCore) -> (result: Result<(Vec<RouteRecord>, Vec<usize>), MergeError>)
    requires
        tables_of(*previous_data).wf(),
        tables_of_core(*next_core).wf(),
    ensures
        ({
            let merged = merged_routes(tables_of(*previous_data), tables_of_core(*next_core), next_core.active_route_indices@.len() as int);
            match result {
                Ok((records, places)) => merged is Ok && merged->Ok_0.records == routes_view(records@) && merged->Ok_0.places == places@,
                Err(error) => merged == Err::<MergedRoutes, MergeErrorView>(error@),
            }
        }),
{
    let ghost previous = tables_of(*previous_data);
    let ghost next = tables_of_core(*next_core);
    let known: TextMap<usize> = find_routes_by_id(&previous_data.routes, &previous_data.active_route_indices);
    let mut routes: Vec<RouteRecord> = Vec::new();
    let mut taken: HashSet<u64> = HashSet::new();
    let mut i: usize = 0;
    proof {
        assert(taken@ =~= route_numbers(routes_view(routes@)));
    }
    while i < previous_data.routes.len()
        invariant
            i <= previous_data.routes.len(),
            routes_view(routes@) == routes_view(previous_data.routes@).take(i as int),
            taken@ == route_numbers(routes_view(routes@)),
        decreases previous_data.routes.len() - i,
    {
        let route: RouteRecord = copy_route(&previous_data.routes[i]);
        taken.insert(route.global_id);
        let ghost before = routes@;
        let ghost record = route@;
        routes.push(route);
        i = i + 1;
        proof {
            assert(routes_view(routes@) =~= routes_view(before).push(record));
            assert(routes_view(routes@) =~= routes_view(previous_data.routes@).take(i as int));
            numbers_after_push(routes_view(before), |s: RouteView| s.global_id, record);
            assert(Seq::new(routes_view(before).len(), |k: int| (|s: RouteView| s.global_id)(routes_view(before)[k])) =~= Seq::new(routes_view(before).len(), |k: int| routes_view(before)[k].global_id));
            let longer = routes_view(before).push(record);
            assert(Seq::new(longer.len(), |k: int| (|s: RouteView| s.global_id)(longer[k])) =~= Seq::new(longer.len(), |k: int| longer[k].global_id));
        }
    }
    proof {
        assert(routes_view(previous_data.routes@).take(i as int) =~= previous.routes);
        listed_ids_are_listed(ids_of_routes(previous.routes), previous.active_routes, previous.active_routes.len() as int);
    }
    let mut places: Vec<usize> = Vec::new();
    assert(places@ =~= Seq::<usize>::empty());
    let mut k: usize = 0;
    while k < next_core.active_route_indices.len()
        invariant
            k <= next_core.active_route_indices.len(),
            previous == tables_of(*previous_data),
            next == tables_of_core(*next_core),
            previous.wf(),
            next.wf(),
            known.wf(),
            known@ == routes_by_id(previous.routes, previous.active_routes),
            forall|id: Seq<char>| #[trigger] known@.dom().contains(id) ==> exists|a: int| 0 <= a < previous.active_routes.len() && #[trigger] previous.active_routes[a] == known@[id],
            merged_routes(previous, next, k as int) == Ok::<MergedRoutes, MergeErrorView>(MergedRoutes { records: routes_view(routes@), places: places@, taken: taken@ }),
        decreases next_core.active_route_indices.len() - k,
    {
        assert(next.active_routes[k as int] < next.routes.len());
        let route: &RouteRecord = &next_core.routes[next_core.active_route_indices[k]];
        let kept: Option<usize> = match known.get(route.id.as_str()) {
            Some(place) => if route_records_equivalent(&previous_data.routes[*place], route) { Some(*place) } else { None },
            None => None,
        };
        match kept {
            Some(place) => {
                places.push(place);
            },
            None => {
                let id: u64 = match allocate_unique_global_id(route.global_id, route.feed_index, EntityKind::Route, route.local_id.as_str(), &mut taken) {
                    Ok(id) => id,
                    Err(error) => {
                        proof {
                            routes_keep_error(previous, next, k + 1, next.active_routes.len() as int);
                        }
                        return Err(MergeError::Id(error));
                    },
                };
                let place: usize = routes.len();
                let mut record: RouteRecord = copy_route(route);
                record.global_id = id;
                let ghost before = routes@;
                routes.push(record);
                places.push(place);
                assert(routes_view(routes@) =~= routes_view(before).push(RouteView { global_id: id, ..route@ }));
            },
        }
        k = k + 1;
    }
    Ok((routes, places))
}

fn remap(listed: &Vec<usize>, places: &Vec<usize>) -> (map: HashMap<usize, usize>)
    requires
        listed@.len() == places@.len(),
    ensures
        map@ == remapped(listed@, places@, listed@.len() as int),
{
    let mut map: HashMap<usize, usize> = HashMap::new();
    assert(map@ =~= Map::<usize, usize>::empty());
    let mut i: usize = 0;
    while i < listed.len()
        invariant
            i <= listed.len(),
            listed@.len() == places@.len(),
            map@ == remapped(listed@, places@, i as int),
        decreases listed.len() - i,
    {
        map.insert(listed[i], places[i]);
        i = i + 1;
    }
    map
}

proof fn calls_keep_missing(calls: Seq<TripStopRecord>, stops: Map<usize, usize>, n: int, m: int)
    requires
        n <= m,
        moved_calls(calls, stops, n) is None,
    ensures
        moved_calls(calls, stops, m) is None,
    decreases m - n,
{
    if n < m {
        calls_keep_missing(calls, stops, n, m - 1);
    }
}

fn move_calls(calls: &Vec<TripStopRecord>, stops: &HashMap<usize, usize>) -> (moved: Option<Vec<TripStopRecord>>)
    ensures
        match moved {
            Some(list) => moved_calls(calls@, stops@, calls@.len() as int) == Some(list@),
            None => moved_calls(calls@, stops@, calls@.len() as int) is None,
        },
{
    let mut moved: Vec<TripStopRecord> = Vec::new();
    assert(moved@ =~= Seq::<TripStopRecord>::empty());
    let mut i: usize = 0;
    while i < calls.len()
        invariant
            i <= calls.len(),
            moved_calls(calls@, stops@, i as int) == Some(moved@),
        decreases calls.len() - i,
    {
        let call: TripStopRecord = calls[i];
        match stops.get(&call.stop_index) {
            Some(place) => {
                moved.push(
                    TripStopRecord {
                        stop_index: *place,
                        arrival_secs: call.arrival_secs,
                        departure_secs: call.departure_secs,
                        stop_sequence: call.stop_sequence,
                        shape_dist_traveled: call.shape_dist_traveled,
                    },
                );
            },
            None => {
                proof {
                    calls_keep_missing(calls@, stops@, i + 1, calls@.len() as int);
                }
                return None;
            },
        }
        i = i + 1;
    }
    Some(moved)
}

fn append_trip_record(
    trips: &mut Vec<TripRecord>,
    next_trip: &TripRecord,
    stop_index_remap: &HashMap<usize, usize>,
    route_index_remap: &HashMap<usize, usize>,
    global_ids: &mut HashSet<u64>,
) -> (result: Result<usize, MergeError>)
    ensures
        match result {
            Ok(place) => {
                let moved = moved_trip(next_trip@, stop_index_remap@, route_index_remap@, old(global_ids)@);
                &&& moved is Ok
                &&& place == old(trips)@.len()
                &&& trips_view(final(trips)@) == trips_view(old(trips)@).push(moved->Ok_0)
                &&& final(global_ids)@ == old(global_ids)@.insert(moved->Ok_0.global_id)
            },
            Err(error) => moved_trip(next_trip@, stop_index_remap@, route_index_remap@, old(global_ids)@) == Err::<TripView, MergeErrorView>(error@),
        },
{
    let id: u64 = match allocate_unique_global_id(next_trip.global_id, next_trip.feed_index, EntityKind::Trip, next_trip.local_id.as_str(), global_ids) {
        Ok(id) => id,
        Err(error) => {
            return Err(MergeError::Id(error));
        },
    };
    let route_index: usize = match route_index_remap.get(&next_trip.route_index) {
        Some(place) => *place,
        None => {
            return Err(MergeError::MissingRoute { trip_id: next_trip.id.clone() });
        },
    };
    let calls: Vec<TripStopRecord> = match move_calls(&next_trip.stop_times, stop_index_remap) {
        Some(calls) => calls,
        None => {
            return Err(MergeError::MissingStop { trip_id: next_trip.id.clone() });
        },
    };
    let mut record: TripRecord = copy_trip(next_trip);
    record.global_id = id;
    record.route_index = route_index;
    record.stop_times = calls;
    let place: usize = trips.len();
    let ghost before = trips@;
    let ghost said = record@;
    trips.push(record);
    proof {
        assert(trips_view(trips@) =~= trips_view(before).push(said));
    }
    Ok(place)
}

fn merge_trips(previous_data: &StaticData, next_core: &StaticCore, stops: &HashMap<usize, usize>, routes: &HashMap<usize, usize>) -> (result: Result<
    (Vec<TripRecord>, Vec<usize>),
    MergeError,
>)
    requires
        tables_of(*previous_data).wf(),
        tables_of_core(*next_core).wf(),
    ensures
        ({
            let merged = merged_trips(tables_of(*previous_data), tables_of_core(*next_core), stops@, routes@, next_core.active_trip_indices@.len() as int);
            match result {
                Ok((records, places)) => merged is Ok && merged->Ok_0.records == trips_view(records@) && merged->Ok_0.places == places@,
                Err(error) => merged == Err::<MergedTrips, MergeErrorView>(error@),
            }
        }),
{
    let ghost previous = tables_of(*previous_data);
    let ghost next = tables_of_core(*next_core);
    let known: TextMap<usize> = find_trips_by_id(&previous_data.trips, &previous_data.active_trip_indices);
    let mut trips: Vec<TripRecord> = Vec::new();
    let mut taken: HashSet<u64> = HashSet::new();
    let mut i: usize = 0;
    proof {
        assert(taken@ =~= trip_numbers(trips_view(trips@)));
    }
    while i < previous_data.trips.len()
        invariant
            i <= previous_data.trips.len(),
            trips_view(trips@) == trips_view(previous_data.trips@).take(i as int),
            taken@ == trip_numbers(trips_view(trips@)),
        decreases previous_data.trips.len() - i,
    {
        let trip: TripRecord = copy_trip(&previous_data.trips[i]);
        taken.insert(trip.global_id);
        let ghost before = trips@;
        let ghost record = trip@;
        trips.push(trip);
        i = i + 1;
        proof {
            assert(trips_view(trips@) =~= trips_view(before).push(record));
            assert(trips_view(trips@) =~= trips_view(previous_data.trips@).take(i as int));
            numbers_after_push(trips_view(before), |s: TripView| s.global_id, record);
            assert(Seq::new(trips_view(before).len(), |k: int| (|s: TripView| s.global_id)(trips_view(before)[k])) =~= Seq::new(trips_view(before).len(), |k: int| trips_view(before)[k].global_id));
            let longer = trips_view(before).push(record);
            assert(Seq::new(longer.len(), |k: int| (|s: TripView| s.global_id)(longer[k])) =~= Seq::new(longer.len(), |k: int| longer[k].global_id));
        }
    }
    proof {
        assert(trips_view(previous_data.trips@).take(i as int) =~= previous.trips);
        listed_ids_are_listed(ids_of_trips(previous.trips), previous.active_trips, previous.active_trips.len() as int);
    }
    let mut places: Vec<usize> = Vec::new();
    assert(places@ =~= Seq::<usize>::empty());
    let mut k: usize = 0;
    while k < next_core.active_trip_indices.len()
        invariant
            k <= next_core.active_trip_indices.len(),
            previous == tables_of(*previous_data),
            next == tables_of_core(*next_core),
            previous.wf(),
            next.wf(),
            known.wf(),
            known@ == trips_by_id(previous.trips, previous.active_trips),
            forall|id: Seq<char>| #[trigger] known@.dom().contains(id) ==> exists|a: int| 0 <= a < previous.active_trips.len() && #[trigger] previous.active_trips[a] == known@[id],
            merged_trips(previous, next, stops@, routes@, k as int) == Ok::<MergedTrips, MergeErrorView>(
                MergedTrips { records: trips_view(trips@), places: places@, taken: taken@ },
            ),
        decreases next_core.active_trip_indices.len() - k,
    {
        assert(next.active_trips[k as int] < next.trips.len());
        let trip: &TripRecord = &next_core.trips[next_core.active_trip_indices[k]];
        assert(trip@ == next.trips[next.active_trips[k as int] as int]);
        let kept: Option<usize> = match known.get(trip.id.as_str()) {
            Some(place) => if trip_records_equivalent(
                &previous_data.trips[*place],
                &previous_data.routes,
                &previous_data.stops,
                trip,
                &next_core.routes,
                &next_core.stops,
            ) {
                Some(*place)
            } else {
                None
            },
            None => None,
        };
        match kept {
            Some(place) => {
                places.push(place);
            },
            None => {
                let place: usize = match append_trip_record(&mut trips, trip, stops, routes, &mut taken) {
                    Ok(place) => place,
                    Err(error) => {
                        proof {
                            trips_keep_error(previous, next, stops@, routes@, k + 1, next.active_trips.len() as int);
                        }
                        return Err(error);
                    },
                };
                places.push(place);
            },
        }
        k = k + 1;
    }
    Ok((trips, places))
}

/// What the old timetable has stays where it is, and each place that is given is
/// one of a record.
pub proof fn merged_stops_are_appended(previous: Tables, next: Tables, n: int)
    requires
        previous.wf(),
        0 <= n,
        merged_stops(previous, next, n) is Ok,
        merged_stops(previous, next, n)->Ok_0.records.len() <= usize::MAX,
    ensures
        ({
            let merged = merged_stops(previous, next, n)->Ok_0;
            &&& previous.stops.len() <= merged.records.len()
            &&& merged.records.take(previous.stops.len() as int) == previous.stops
            &&& merged.places.len() == n
            &&& listed_within(merged.places, merged.records.len() as int)
            &&& merged.taken == stop_numbers(merged.records)
        }),
    decreases n,
{
    let merged = merged_stops(previous, next, n)->Ok_0;
    if n > 0 {
        let before = merged_stops(previous, next, n - 1)->Ok_0;
        assert(before.records.len() <= merged.records.len());
        merged_stops_are_appended(previous, next, n - 1);
        listed_ids_are_listed(ids_of_stops(previous.stops), previous.active_stops, previous.active_stops.len() as int);
        let stop = next.stops[next.active_stops[n - 1] as int];
        let known = stops_by_id(previous.stops, previous.active_stops);
        if known.dom().contains(stop.id) && stops_equivalent(previous.stops[known[stop.id] as int], stop) {
            let a = choose|a: int| 0 <= a < previous.active_stops.len() && #[trigger] previous.active_stops[a] == known[stop.id];
        } else {
            let record = merged.records.last();
            assert(merged.records =~= before.records.push(record));
            assert(merged.records.take(previous.stops.len() as int) =~= before.records.take(previous.stops.len() as int));
            numbers_after_push(before.records, |s: StopView| s.global_id, record);
            assert(Seq::new(before.records.len(), |k: int| (|s: StopView| s.global_id)(before.records[k])) =~= Seq::new(before.records.len(), |k: int| before.records[k].global_id));
            assert(Seq::new(merged.records.len(), |k: int| (|s: StopView| s.global_id)(merged.records[k])) =~= Seq::new(merged.records.len(), |k: int| merged.records[k].global_id));
        }
    } else {
        assert(merged.records.take(previous.stops.len() as int) =~= previous.stops);
    }
}

/// What the old timetable has stays where it is, and each place that is given is
/// one of a record.
pub proof fn merged_routes_are_appended(previous: Tables, next: Tables, n: int)
    requires
        previous.wf(),
        0 <= n,
        merged_routes(previous, next, n) is Ok,
        merged_routes(previous, next, n)->Ok_0.records.len() <= usize::MAX,
    ensures
        ({
            let merged = merged_routes(previous, next, n)->Ok_0;
            &&& previous.routes.len() <= merged.records.len()
            &&& merged.records.take(previous.routes.len() as int) == previous.routes
            &&& merged.places.len() == n
            &&& listed_within(merged.places, merged.records.len() as int)
        }),
    decreases n,
{
    let merged = merged_routes(previous, next, n)->Ok_0;
    if n > 0 {
        let before = merged_routes(previous, next, n - 1)->Ok_0;
        assert(before.records.len() <= merged.records.len());
        merged_routes_are_appended(previous, next, n - 1);
        listed_ids_are_listed(ids_of_routes(previous.routes), previous.active_routes, previous.active_routes.len() as int);
        let route = next.routes[next.active_routes[n - 1] as int];
        let known = routes_by_id(previous.routes, previous.active_routes);
        if known.dom().contains(route.id) && routes_equivalent(previous.routes[known[route.id] as int], route) {
            let a = choose|a: int| 0 <= a < previous.active_routes.len() && #[trigger] previous.active_routes[a] == known[route.id];
        } else {
            assert(merged.records.take(previous.routes.len() as int) =~= before.records.take(previous.routes.len() as int));
        }
    } else {
        assert(merged.records.take(previous.routes.len() as int) =~= previous.routes);
    }
}

/// Whether places lead to records.
pub open spec fn leads_within(places: Map<usize, usize>, count: int) -> bool {
    forall|from: usize| #[trigger] places.dom().contains(from) ==> places[from] < count
}

/// Where records have gone are places of records.
pub proof fn remapped_within(listed: Seq<usize>, places: Seq<usize>, n: int, count: int)
    requires
        0 <= n <= places.len(),
        listed_within(places, count),
    ensures
        leads_within(remapped(listed, places, n), count),
    decreases n,
{
    if n > 0 {
        remapped_within(listed, places, n - 1, count);
        assert(places[n - 1] < count);
    }
}

proof fn moved_calls_within(calls: Seq<TripStopRecord>, stops: Map<usize, usize>, n: int, count: int)
    requires
        0 <= n <= calls.len(),
        leads_within(stops, count),
        moved_calls(calls, stops, n) is Some,
    ensures
        ({
            let moved = moved_calls(calls, stops, n)->0;
            &&& moved.len() == n
            &&& forall|i: int| 0 <= i < n ==> (#[trigger] moved[i]) == (TripStopRecord { stop_index: moved[i].stop_index, ..calls[i] }) && moved[i].stop_index < count
        }),
    decreases n,
{
    if n > 0 {
        moved_calls_within(calls, stops, n - 1, count);
    }
}

/// Whether the trips in service call somewhere and at times that leave room for
/// a bucket.
pub open spec fn active_trips_timed(tables: Tables) -> bool {
    forall|i: int| 0 <= i < tables.active_trips.len() ==> trip_timed(tables.trips[#[trigger] tables.active_trips[i] as int])
}

/// Whether a trip calls somewhere and at times that leave room for a bucket.
pub open spec fn trip_timed(trip: TripView) -> bool {
    trip.stop_times.len() >= 1 && forall|p: int| 0 <= p < trip.stop_times.len() ==> (#[trigger] trip.stop_times[p]).departure_secs <= crate::temporal::LATEST_DEPARTURE_SECS
}

/// What the old timetable has stays where it is, and each place that is given is
/// one of a trip that is timed and refers to stops and routes that are there.
pub proof fn merged_trips_are_appended(previous: Tables, next: Tables, stops: Map<usize, usize>, routes: Map<usize, usize>, stop_count: int, route_count: int, n: int)
    requires
        previous.wf(),
        next.wf(),
        active_trips_timed(previous),
        active_trips_timed(next),
        leads_within(stops, stop_count),
        leads_within(routes, route_count),
        previous.stops.len() <= stop_count,
        previous.routes.len() <= route_count,
        0 <= n <= next.active_trips.len(),
        merged_trips(previous, next, stops, routes, n) is Ok,
        merged_trips(previous, next, stops, routes, n)->Ok_0.records.len() <= usize::MAX,
    ensures
        ({
            let merged = merged_trips(previous, next, stops, routes, n)->Ok_0;
            &&& previous.trips.len() <= merged.records.len()
            &&& merged.records.take(previous.trips.len() as int) == previous.trips
            &&& merged.places.len() == n
            &&& listed_within(merged.places, merged.records.len() as int)
            &&& forall|i: int| 0 <= i < n ==> trip_timed(merged.records[#[trigger] merged.places[i] as int])
            &&& forall|i: int| 0 <= i < n ==> trip_refers(merged.records[#[trigger] merged.places[i] as int], route_count, stop_count)
            &&& forall|i: int| 0 <= i < n ==> {
                let trip = next.trips[next.active_trips[i] as int];
                merged.records[#[trigger] merged.places[i] as int].feed_index == if trip_is_kept(previous, next, trip) {
                    previous.trips[trips_by_id(previous.trips, previous.active_trips)[trip.id] as int].feed_index
                } else {
                    trip.feed_index
                }
            }
        }),
    decreases n,
{
    let merged = merged_trips(previous, next, stops, routes, n)->Ok_0;
    if n > 0 {
        let before = merged_trips(previous, next, stops, routes, n - 1)->Ok_0;
        assert(before.records.len() <= merged.records.len());
        merged_trips_are_appended(previous, next, stops, routes, stop_count, route_count, n - 1);
        listed_ids_are_listed(ids_of_trips(previous.trips), previous.active_trips, previous.active_trips.len() as int);
        let trip = next.trips[next.active_trips[n - 1] as int];
        let known = trips_by_id(previous.trips, previous.active_trips);
        let place = merged.places[n - 1];
        if trip_is_kept(previous, next, trip) {
            let a = choose|a: int| 0 <= a < previous.active_trips.len() && #[trigger] previous.active_trips[a] == known[trip.id];
            let kept = previous.trips[previous.active_trips[a] as int];
            assert(trip_timed(kept));
            assert(trip_refers(kept, previous.routes.len() as int, previous.stops.len() as int));
            assert(merged.records.take(previous.trips.len() as int)[place as int] == kept);
            assert(merged.records[place as int] == kept);
        } else {
            let moved = merged.records.last();
            assert(merged.records =~= before.records.push(moved));
            assert(merged.records.take(previous.trips.len() as int) =~= before.records.take(previous.trips.len() as int));
            moved_calls_within(trip.stop_times, stops, trip.stop_times.len() as int, stop_count);
            assert(trip_timed(trip));
            assert(trip_refers(moved, route_count, stop_count));
            assert forall|p: int| 0 <= p < moved.stop_times.len() implies (#[trigger] moved.stop_times[p]).departure_secs <= crate::temporal::LATEST_DEPARTURE_SECS by {
                assert(moved.stop_times[p].departure_secs == trip.stop_times[p].departure_secs);
            }
            assert(trip_timed(moved));
        }
        assert forall|i: int| 0 <= i < n implies merged.records[#[trigger] merged.places[i] as int] == (if i < n - 1 { before.records[before.places[i] as int] } else { merged.records[place as int] }) by {
            if i < n - 1 {
                assert(merged.places[i] == before.places[i]);
                assert(before.places[i] < before.records.len());
            }
        }
    } else {
        assert(merged.records.take(previous.trips.len() as int) =~= previous.trips);
    }
}

fn index_trips(trips: &Vec<TripRecord>, places: &Vec<usize>, feeds: usize) -> (lookups: Vec<StringHashMap<usize>>)
    requires
        listed_within(places@, trips@.len() as int),
        forall|i: int| 0 <= i < places@.len() ==> trips@[#[trigger] places@[i] as int].feed_index < feeds,
    ensures
        lookups_view(lookups@) == trip_places(trips_view(trips@), places@, feeds as int, places@.len() as int),
        lookups@.len() == feeds,
{
    let mut lookups: Vec<StringHashMap<usize>> = Vec::new();
    let mut f: usize = 0;
    while f < feeds
        invariant
            f <= feeds,
            lookups@.len() == f,
            forall|k: int| 0 <= k < f ==> (#[trigger] lookups@[k])@ == Map::<Seq<char>, usize>::empty(),
        decreases feeds - f,
    {
        lookups.push(StringHashMap::new());
        f = f + 1;
    }
    assert(lookups_view(lookups@) =~= trip_places(trips_view(trips@), places@, feeds as int, 0));
    let mut i: usize = 0;
    while i < places.len()
        invariant
            i <= places.len(),
            listed_within(places@, trips@.len() as int),
            forall|k: int| 0 <= k < places@.len() ==> trips@[#[trigger] places@[k] as int].feed_index < feeds,
            lookups@.len() == feeds,
            lookups_view(lookups@) == trip_places(trips_view(trips@), places@, feeds as int, i as int),
        decreases places.len() - i,
    {
        assert(places@[i as int] < trips@.len());
        let trip: &TripRecord = &trips[places[i]];
        let ghost before = lookups@;
        let feed: usize = trip.feed_index as usize;
        lookups[feed].insert(trip.local_id.clone(), places[i]);
        proof {
            assert(trips_view(trips@)[places@[i as int] as int] == trip@);
            assert(lookups_view(lookups@) =~= lookups_view(before).update(feed as int, lookups_view(before)[feed as int].insert(trip.local_id@, places@[i as int])));
        }
        i = i + 1;
    }
    lookups
}

fn move_list(list: &Vec<usize>, places: &HashMap<usize, usize>) -> (moved: Vec<usize>)
    ensures
        moved@ == moved_list(list@, places@, list@.len() as int),
{
    let mut moved: Vec<usize> = Vec::new();
    assert(moved@ =~= Seq::<usize>::empty());
    let mut i: usize = 0;
    while i < list.len()
        invariant
            i <= list.len(),
            moved@ == moved_list(list@, places@, i as int),
        decreases list.len() - i,
    {
        let from: usize = list[i];
        match places.get(&from) {
            Some(place) => {
                moved.push(*place);
            },
            None => {},
        }
        i = i + 1;
    }
    moved
}

fn move_services(services: &TextMap<Vec<usize>>, places: &HashMap<usize, usize>) -> (moved: TextMap<Vec<usize>>)
    requires
        services.wf(),
    ensures
        moved.wf(),
        moved.lists() == moved_services(services.lists(), places@),
{
    let mut moved: TextMap<Vec<usize>> = TextMap::new();
    let mut i: usize = 0;
    proof {
        services.slots_match();
    }
    while i < services.len()
        invariant
            i <= services.slots().len(),
            services.wf(),
            services.slots().no_duplicates(),
            forall|key: Seq<char>| services@.dom().contains(key) <==> #[trigger] services.slots().contains(key),
            moved.wf(),
            forall|key: Seq<char>| #[trigger] moved@.dom().contains(key) <==> moved_services(services.lists(), places@).dom().contains(key) && services.slots().take(i as int).contains(key),
            forall|key: Seq<char>| #[trigger] moved@.dom().contains(key) ==> moved@[key]@ == moved_services(services.lists(), places@)[key],
        decreases services.slots().len() - i,
    {
        let ghost key = services.slots()[i as int];
        let ghost longer = services.slots().take(i + 1);
        let ghost shorter = services.slots().take(i as int);
        let list: Vec<usize> = move_list(services.value_at(i), places);
        assert(services.slots().contains(key));
        assert(services.lists().dom().contains(key));
        assert(services.lists()[key] == services@[key]@);
        if list.len() > 0 {
            moved.insert(services.key_at(i).clone(), list);
        }
        proof {
            assert forall|other: Seq<char>| #[trigger] longer.contains(other) <==> shorter.contains(other) || other == key by {
                if longer.contains(other) {
                    let at = choose|at: int| 0 <= at < longer.len() && longer[at] == other;
                    if at < i {
                        assert(shorter[at] == other);
                    }
                }
                if shorter.contains(other) {
                    let at = choose|at: int| 0 <= at < shorter.len() && shorter[at] == other;
                    assert(longer[at] == other);
                }
                assert(longer[i as int] == key);
            }
        }
        i = i + 1;
    }
    proof {
        assert(services.slots().take(i as int) =~= services.slots());
        assert forall|key: Seq<char>| moved.lists().dom().contains(key) <==> moved_services(services.lists(), places@).dom().contains(key) by {
            assert(moved.lists().dom().contains(key) <==> moved@.dom().contains(key));
            if moved_services(services.lists(), places@).dom().contains(key) {
                assert(services@.dom().contains(key));
                assert(services.slots().contains(key));
            }
        }
        assert(moved.lists() =~= moved_services(services.lists(), places@));
    }
    moved
}

/// Takes a new timetable over into an old one. Records that are the same in both
/// keep their places; all others get new places at the end and, where theirs are
/// taken, new numbers. What is no longer in service stays where it was.
pub fn merge_append_only_core(previous: &StaticData, next: StaticCore) -> (result: Result<StaticCore, MergeError>)
    requires
        tables_of(*previous).wf(),
        tables_of_core(next).wf(),
        next.wf(),
        active_trips_timed(tables_of(*previous)),
        active_trips_timed(tables_of_core(next)),
        next.active_trip_indices@.len() <= u32::MAX,
        forall|i: int| 0 <= i < next.active_trip_indices@.len() ==> {
            let trip = tables_of_core(next).trips[#[trigger] next.active_trip_indices@[i] as int];
            if trip_is_kept(tables_of(*previous), tables_of_core(next), trip) {
                tables_of(*previous).trips[trips_by_id(tables_of(*previous).trips, previous.active_trip_indices@)[trip.id] as int].feed_index < next.feeds@.len()
            } else {
                trip.feed_index < next.feeds@.len()
            }
        },
    ensures
        ({
            let merged = merged_tables(tables_of(*previous), tables_of_core(next));
            match result {
                Ok(core) => {
                    &&& merged is Ok
                    &&& core@ == merged_core(merged->Ok_0, next@, tables_of_core(next))
                    &&& core.wf()
                    &&& core.active_stop_indices@ == merged->Ok_0.stops.places
                    &&& core.active_route_indices@ == merged->Ok_0.routes.places
                    &&& core.active_trip_indices@ == merged->Ok_0.trips.places
                    &&& core.has_lines()
                    &&& tables_of_core(core).wf()
                    &&& active_trips_timed(tables_of_core(core))
                },
                Err(error) => merged == Err::<MergedTables, MergeErrorView>(error@),
            }
        }),
{
    let ghost old_tables = tables_of(*previous);
    let ghost new_tables = tables_of_core(next);
    let (stops, active_stop_indices) = match merge_stops(previous, &next) {
        Ok(merged) => merged,
        Err(error) => {
            return Err(error);
        },
    };
    let (routes, active_route_indices) = match merge_routes(previous, &next) {
        Ok(merged) => merged,
        Err(error) => {
            return Err(error);
        },
    };
    proof {
        assert(stops_view(stops@).len() == stops.len());
        assert(routes_view(routes@).len() == routes.len());
        merged_stops_are_appended(old_tables, new_tables, new_tables.active_stops.len() as int);
        merged_routes_are_appended(old_tables, new_tables, new_tables.active_routes.len() as int);
    }
    let moved_stops: HashMap<usize, usize> = remap(&next.active_stop_indices, &active_stop_indices);
    let moved_routes: HashMap<usize, usize> = remap(&next.active_route_indices, &active_route_indices);
    let (trips, active_trip_indices) = match merge_trips(previous, &next, &moved_stops, &moved_routes) {
        Ok(merged) => merged,
        Err(error) => {
            return Err(error);
        },
    };
    proof {
        assert(trips_view(trips@).len() == trips.len());
        remapped_within(new_tables.active_stops, active_stop_indices@, new_tables.active_stops.len() as int, stops@.len() as int);
        remapped_within(new_tables.active_routes, active_route_indices@, new_tables.active_routes.len() as int, routes@.len() as int);
        merged_trips_are_appended(old_tables, new_tables, moved_stops@, moved_routes@, stops@.len() as int, routes@.len() as int, new_tables.active_trips.len() as int);
        assert forall|i: int| 0 <= i < active_trip_indices@.len() implies trips@[#[trigger] active_trip_indices@[i] as int].feed_index < next.feeds@.len() && trip_in_bounds(
            trips@[active_trip_indices@[i] as int],
            stops@.len() as int,
        ) by {
            let place = active_trip_indices@[i] as int;
            assert(next.active_trip_indices@[i] < next.trips@.len());
            assert(trips_view(trips@)[place] == trips@[place]@);
            assert(trip_timed(trips_view(trips@)[place]));
            assert(trip_refers(trips_view(trips@)[place], routes@.len() as int, stops@.len() as int));
            assert forall|p: int| 0 <= p < trips@[place].stop_times@.len() implies (#[trigger] trips@[place].stop_times@[p]).departure_secs <= crate::temporal::LATEST_DEPARTURE_SECS
                && trips@[place].stop_times@[p].stop_index < stops@.len() by {
                assert(trips_view(trips@)[place].stop_times[p] == trips@[place].stop_times@[p]);
            }
        }
    }
    let moved_trips: HashMap<usize, usize> = remap(&next.active_trip_indices, &active_trip_indices);
    let mut stop_lookup: StringHashMap<usize> = StringHashMap::new();
    let mut stop_lookup_by_global_id: HashMap<u64, usize> = HashMap::new();
    let mut i: usize = 0;
    proof {
        assert(stop_lookup@ =~= Map::<Seq<char>, usize>::empty());
        assert(stop_lookup_by_global_id@ =~= Map::<u64, usize>::empty());
    }
    while i < active_stop_indices.len()
        invariant
            i <= active_stop_indices.len(),
            listed_within(active_stop_indices@, stops@.len() as int),
            stop_lookup@ == stop_places(stops_view(stops@), active_stop_indices@, i as int),
            stop_lookup_by_global_id@ == number_places(stops_view(stops@), active_stop_indices@, i as int),
        decreases active_stop_indices.len() - i,
    {
        let place: usize = active_stop_indices[i];
        assert(active_stop_indices@[i as int] < stops@.len());
        stop_lookup.insert(stops[place].id.clone(), place);
        stop_lookup_by_global_id.insert(stops[place].global_id, place);
        i = i + 1;
    }
    let trip_lookup_by_feed: Vec<StringHashMap<usize>> = index_trips(&trips, &active_trip_indices, next.feeds.len());
    let service_to_trip_indices: TextMap<Vec<usize>> = move_services(&next.service_to_trip_indices, &moved_trips);
    let (lines, stop_to_lines) = rebuild_lines_and_stop_to_lines(&trips, &active_trip_indices, stops.len());
    let core: StaticCore = StaticCore {
        feeds: next.feeds,
        stops: stops,
        active_stop_indices: active_stop_indices,
        stop_lookup: stop_lookup,
        stop_lookup_by_global_id: stop_lookup_by_global_id,
        routes: routes,
        active_route_indices: active_route_indices,
        trips: trips,
        active_trip_indices: active_trip_indices,
        trip_lookup_by_feed: trip_lookup_by_feed,
        service_to_trip_indices: service_to_trip_indices,
        lines: lines,
        stop_to_lines: stop_to_lines,
        service_by_date: next.service_by_date,
        shapes: next.shapes,
    };
    Ok(core)
}

/// The numbers of stops stay unique: if no two old stops have the same number,
/// no two do after a timetable was taken over.
pub proof fn merged_stop_numbers_stay_unique(previous: Tables, next: Tables, n: int)
    requires
        previous.wf(),
        0 <= n,
        forall|i: int, j: int| 0 <= i < j < previous.stops.len() ==> previous.stops[i].global_id != previous.stops[j].global_id,
        merged_stops(previous, next, n) is Ok,
        merged_stops(previous, next, n)->Ok_0.records.len() <= usize::MAX,
    ensures
        ({
            let records = merged_stops(previous, next, n)->Ok_0.records;
            forall|i: int, j: int| 0 <= i < j < records.len() ==> records[i].global_id != records[j].global_id
        }),
    decreases n,
{
    if n > 0 {
        let merged = merged_stops(previous, next, n)->Ok_0;
        let before = merged_stops(previous, next, n - 1)->Ok_0;
        merged_stop_numbers_stay_unique(previous, next, n - 1);
        merged_stops_are_appended(previous, next, n - 1);
        if merged.records != before.records {
            let stop = next.stops[next.active_stops[n - 1] as int];
            let id = merged.records.last().global_id;
            assert(is_free_id(stop.global_id, stop.feed_index, EntityKind::Stop, encode_utf8(stop.local_id), before.taken, id));
            let numbers = Seq::new(before.records.len(), |i: int| before.records[i].global_id);
            assert forall|i: int| 0 <= i < before.records.len() implies before.records[i].global_id != id by {
                assert(numbers[i] == before.records[i].global_id);
                assert(numbers.to_set().contains(numbers[i]));
            }
        }
    }
}

/// Whether calls are at times that leave room for delays.
pub open spec fn leaves_room(calls: Seq<TripStopRecord>) -> bool {
    forall|p: int| 0 <= p < calls.len() ==> {
        let call = #[trigger] calls[p];
        &&& i32::MIN + crate::realtime::MAX_REASONABLE_DELAY_SECS <= call.arrival_secs <= i32::MAX - crate::realtime::MAX_REASONABLE_DELAY_SECS
        &&& i32::MIN + crate::realtime::MAX_REASONABLE_DELAY_SECS <= call.departure_secs <= i32::MAX - crate::realtime::MAX_REASONABLE_DELAY_SECS
    }
}

/// Whether a trip can be searched: it refers to routes and stops that are there,
/// and its times leave room for delays.
pub open spec fn trip_is_usable(trip: TripView, routes: int, stops: int) -> bool {
    trip_refers(trip, routes, stops) && leaves_room(trip.stop_times)
}

/// The trips that are put behind those of the old timetable can be searched if
/// they could be in the new one.
pub proof fn appended_trips_are_usable(previous: Tables, next: Tables, stops: Map<usize, usize>, routes: Map<usize, usize>, stop_count: int, route_count: int, n: int)
    requires
        next.wf(),
        leads_within(stops, stop_count),
        leads_within(routes, route_count),
        forall|i: int| 0 <= i < next.active_trips.len() ==> leaves_room(next.trips[#[trigger] next.active_trips[i] as int].stop_times),
        0 <= n <= next.active_trips.len(),
        merged_trips(previous, next, stops, routes, n) is Ok,
    ensures
        previous.trips.len() <= merged_trips(previous, next, stops, routes, n)->Ok_0.records.len(),
        forall|r: int| previous.trips.len() <= r < merged_trips(previous, next, stops, routes, n)->Ok_0.records.len() ==> trip_is_usable(
            #[trigger] merged_trips(previous, next, stops, routes, n)->Ok_0.records[r],
            route_count,
            stop_count,
        ),
    decreases n,
{
    if n > 0 {
        appended_trips_are_usable(previous, next, stops, routes, stop_count, route_count, n - 1);
        let before = merged_trips(previous, next, stops, routes, n - 1)->Ok_0;
        let merged = merged_trips(previous, next, stops, routes, n)->Ok_0;
        let trip = next.trips[next.active_trips[n - 1] as int];
        if !trip_is_kept(previous, next, trip) {
            let moved = merged.records.last();
            assert(merged.records =~= before.records.push(moved));
            moved_calls_within(trip.stop_times, stops, trip.stop_times.len() as int, stop_count);
            assert(leaves_room(trip.stop_times));
            assert forall|p: int| 0 <= p < moved.stop_times.len() implies ({
                let call = #[trigger] moved.stop_times[p];
                &&& i32::MIN + crate::realtime::MAX_REASONABLE_DELAY_SECS <= call.arrival_secs <= i32::MAX - crate::realtime::MAX_REASONABLE_DELAY_SECS
                &&& i32::MIN + crate::realtime::MAX_REASONABLE_DELAY_SECS <= call.departure_secs <= i32::MAX - crate::realtime::MAX_REASONABLE_DELAY_SECS
            }) by {
                assert(moved.stop_times[p].arrival_secs == trip.stop_times[p].arrival_secs);
                assert(moved.stop_times[p].departure_secs == trip.stop_times[p].departure_secs);
            }
            assert(trip_is_usable(moved, route_count, stop_count));
            assert forall|r: int| previous.trips.len() <= r < merged.records.len() implies trip_is_usable(#[trigger] merged.records[r], route_count, stop_count) by {
                if r < before.records.len() {
                    assert(merged.records[r] == before.records[r]);
                }
            }
        }
    }
}

/// A list at its new places holds only places of records.
pub proof fn moved_lists_are_within(list: Seq<usize>, places: Map<usize, usize>, n: int, count: int)
    requires
        0 <= n <= list.len(),
        leads_within(places, count),
    ensures
        listed_within(moved_list(list, places, n), count),
    decreases n,
{
    if n > 0 {
        moved_lists_are_within(list, places, n - 1, count);
    }
}

} // verus!
