//! Running a query from its plan to the journeys it offers.

use crate::candidates::{candidates_view, journeys_of_rounds, offered, QueryItineraryCandidate};
use crate::change_laws::{insert_counts, points_count};
use crate::insertions::{
    anchors_ready, build_profile_insertions, cacheable_raw_legs, insert_valid, insert_view, inserts_view, remembers_from, spatial_points, static_legs, static_legs_join,
};
use crate::journey::{label_count, PathError};
use crate::leg::{legs_arrive, legs_lead, legs_valid, rest_leads, ride_count, CachedLeg, ParentStep, ParentView};
use crate::lookahead::{match_valid, query_walks_valid, round_view, LocalSubqueryCache, LookaheadTally, QueryVirtualWalk, Reach};
use crate::day_services::{text_set, texts_distinct};
use crate::keyed_store::StoreKey;
use crate::model::{LineRecord, StaticData, TripRecord, INF_TIME};
use crate::order::{stable_order_exists, stable_order_of};
use crate::profile_cache::{
    exact_come_from, exact_point, match_keys, matches_view, profile_key, profiles, remembers_more, spatial_come_from, spatial_point, surface_entry,
    surface_profiles, was_held, with_exact_points, with_spatial_points, wrapped, CacheCounters, CacheView, PreparedSpatialLookup, ProfileCache,
    ProfileInsertionPoint, SpatialProfileInsertionPoint,
};
use crate::profile_lookahead::{cache_fits, suffix_fits, surface_valid, Look, LookaheadGoal};
use crate::query_rounds::{
    after_finishing, after_query_rounds, empty_totals, no_tally, no_totals, QueryPerformanceCounters, QueryRun, QueryState, RoundRecord,
};
use crate::realtime::{trip_calls_valid, trip_is_updated, trip_key, waiting_delay, RealtimeStore, RealtimeView};
use crate::relax::{walk_index_valid, walks_valid};
use crate::search::{improvement_keeps_labels, labels_valid, parent_valid, line_valid, with_improvement, SearchContext, SearchState, SearchView};
use crate::subquery::{
    after_first_walks, initial_labels, labels_ready, search_ready, start_labels, start_labels_fit, stop_lines_valid, LocalSearch,
};
use vstd::prelude::*;
use vstd::string::*;

verus! {

/// Where a query starts and ends. Places that are not stops have numbers beyond
/// those of the stops, and walks to and from stops.
pub struct QueryPlan {
    pub from_index: usize,
    pub to_index: usize,
    pub exact_destination_stop: Option<usize>,
    pub destination_cells: Vec<u64>,
    pub destination_cell_for_insert: Option<u64>,
    pub source_access_edges: Vec<QueryVirtualWalk>,
    pub destination_egress_edges: Vec<QueryVirtualWalk>,
    pub virtual_stop_count: usize,
}

/// The most changes that a query may ask for.
pub const MAX_TRANSFERS: usize = 8;

/// The most journeys that a query may ask for.
pub const MAX_QUERY_ITINERARY_COUNT: usize = 6;

/// The number of journeys that a query offers where it does not say.
pub const DEFAULT_QUERY_ITINERARY_COUNT: usize = 5;

/// Why a query gives no journey.
#[derive(Clone, Copy, Debug, PartialEq, Eq, Structural)]
pub enum QueryError {
    /// The calendar does not cover the day.
    NoServices,
    /// The calendar has no services on the day.
    EmptyCalendar,
    /// The destination was not reached.
    NoItinerary,
    /// A journey could not be read back.
    Path(PathError),
    /// Nothing could be offered.
    NoCandidates,
}

/// What a query gives.
pub struct QueryOutcome {
    pub candidates: Vec<QueryItineraryCandidate>,
    pub profile_insertions: Vec<ProfileInsertionPoint>,
    pub spatial_insertions: Vec<SpatialProfileInsertionPoint>,
    pub counters: QueryPerformanceCounters,
    pub rounds: Vec<RoundRecord>,
    pub active_services: usize,
    pub shadow_delta_count: usize,
    pub canceled_trip_count: usize,
}

/// Number of stops and places of a query.
pub open spec fn place_count(data: StaticData, plan: QueryPlan) -> int {
    data.stops@.len() + plan.virtual_stop_count
}

/// Whether a plan fits the timetable.
pub open spec fn plan_valid(data: StaticData, plan: QueryPlan) -> bool {
    let places = place_count(data, plan);
    &&& places <= usize::MAX
    &&& plan.from_index < places
    &&& plan.to_index < places
    &&& plan.exact_destination_stop is Some ==> plan.exact_destination_stop->0 == plan.to_index && plan.to_index < data.stops@.len()
    &&& plan.to_index < data.stops@.len() || plan.to_index != plan.from_index
    &&& plan.source_access_edges@.len() == 0 ==> plan.from_index < data.stops@.len()
    &&& query_walks_valid(plan.source_access_edges@, places)
    &&& query_walks_valid(plan.destination_egress_edges@, places)
    &&& forall|i: int| 0 <= i < plan.source_access_edges@.len() ==> (#[trigger] plan.source_access_edges@[i]).to_stop < data.stops@.len()
        && plan.source_access_edges@[i].from_stop == plan.from_index
    &&& forall|i: int| 0 <= i < plan.destination_egress_edges@.len() ==> (#[trigger] plan.destination_egress_edges@[i]).from_stop < data.stops@.len()
        && plan.destination_egress_edges@[i].to_stop == plan.to_index
}

/// Whether a trip belongs to one of the services.
pub open spec fn trip_in_services(service_trips: Map<Seq<char>, Vec<usize>>, services: Set<Seq<char>>, trip: int) -> bool {
    exists|service: Seq<char>| #[trigger] services.contains(service) && trip_in_service(service_trips, service, trip)
}

/// Whether a trip belongs to a service.
pub open spec fn trip_in_service(service_trips: Map<Seq<char>, Vec<usize>>, service: Seq<char>, trip: int) -> bool {
    service_trips.dom().contains(service) && service_trips[service]@.contains(trip as usize)
}

/// Whether a trip runs: one of the services has it and it is not canceled.
pub open spec fn trip_runs(data: StaticData, realtime: RealtimeView, services: Set<Seq<char>>, trip: int) -> bool {
    trip_in_services(data.service_to_trip_indices@, services, trip) && !realtime.canceled.dom().contains(trip_key(trip))
}

/// Whether the services list trips of the timetable.
pub open spec fn services_valid(data: StaticData) -> bool {
    &&& data.service_to_trip_indices.wf()
    &&& data.service_by_date.wf()
    &&& forall|service: Seq<char>, i: int| #[trigger] data.service_to_trip_indices@.dom().contains(service) && 0 <= i < data.service_to_trip_indices@[service]@.len() ==> (
    #[trigger] data.service_to_trip_indices@[service]@[i]) < data.trips@.len()
}

fn mark_service(data: &StaticData, service: &String, listed: &mut Vec<bool>)
    requires
        services_valid(*data),
        old(listed)@.len() == data.trips@.len(),
    ensures
        final(listed)@.len() == data.trips@.len(),
        forall|k: int| 0 <= k < data.trips@.len() ==> #[trigger] final(listed)@[k] == (old(listed)@[k] || trip_in_service(data.service_to_trip_indices@, service@, k)),
{
    let ghost service_trips = data.service_to_trip_indices@;
    let count: usize = data.trips.len();
    let ghost before = listed@;
    match data.service_to_trip_indices.get(service.as_str()) {
        None => {},
        Some(trips) => {
            let mut i: usize = 0;
            while i < trips.len()
                invariant
                    i <= trips.len(),
                    service_trips == data.service_to_trip_indices@,
                    service_trips.dom().contains(service@),
                    *trips == service_trips[service@],
                    services_valid(*data),
                    count == data.trips@.len(),
                    listed@.len() == count,
                    before.len() == count,
                    forall|k: int| 0 <= k < count ==> #[trigger] listed@[k] == (before[k] || trips@.take(i as int).contains(k as usize)),
                decreases trips.len() - i,
            {
                let trip: usize = trips[i];
                assert(service_trips[service@]@[i as int] < data.trips@.len());
                let ghost shorter = listed@;
                listed.set(trip, true);
                assert forall|k: int| 0 <= k < count implies #[trigger] listed@[k] == (before[k] || trips@.take(i + 1).contains(k as usize)) by {
                    let a = trips@.take(i as int);
                    let b = trips@.take(i + 1);
                    assert(b[i as int] == trip);
                    if a.contains(k as usize) {
                        let at = choose|at: int| 0 <= at < a.len() && a[at] == k as usize;
                        assert(b[at] == k as usize);
                    }
                    if b.contains(k as usize) && k != trip {
                        let at = choose|at: int| 0 <= at < b.len() && b[at] == k as usize;
                        assert(a[at] == k as usize);
                    }
                    assert(shorter[k] == (before[k] || a.contains(k as usize)));
                }
                i = i + 1;
            }
            assert(trips@.take(i as int) =~= trips@);
        },
    }
}

/// For each trip, whether it runs.
pub fn build_trip_availability(data: &StaticData, realtime: &RealtimeStore, active_services: &Vec<String>) -> (available: Vec<bool>)
    requires
        realtime.wf(),
        services_valid(*data),
    ensures
        available@.len() == data.trips@.len(),
        forall|t: int| 0 <= t < available@.len() ==> #[trigger] available@[t] == trip_runs(*data, realtime@, text_set(active_services@), t),
{
    let count: usize = data.trips.len();
    let mut listed: Vec<bool> = Vec::new();
    let mut t: usize = 0;
    while t < count
        invariant
            t <= count,
            listed@.len() == t,
            forall|k: int| 0 <= k < t ==> #[trigger] listed@[k] == false,
        decreases count - t,
    {
        listed.push(false);
        t = t + 1;
    }
    let ghost service_trips = data.service_to_trip_indices@;
    let mut s: usize = 0;
    while s < active_services.len()
        invariant
            s <= active_services.len(),
            service_trips == data.service_to_trip_indices@,
            services_valid(*data),
            count == data.trips@.len(),
            listed@.len() == count,
            forall|k: int| 0 <= k < count ==> #[trigger] listed@[k] == trip_in_services(service_trips, text_set(active_services@.take(s as int)), k),
        decreases active_services.len() - s,
    {
        let ghost before = listed@;
        mark_service(data, &active_services[s], &mut listed);
        assert forall|k: int| 0 <= k < count implies #[trigger] listed@[k] == trip_in_services(service_trips, text_set(active_services@.take(s + 1)), k) by {
            let a = active_services@.take(s as int);
            let b = active_services@.take(s + 1);
            let service = active_services@[s as int]@;
            assert(b[s as int]@ == service);
            assert(text_set(b).contains(service));
            assert(before[k] == trip_in_services(service_trips, text_set(a), k));
            if trip_in_services(service_trips, text_set(a), k) {
                let x = choose|x: Seq<char>| #[trigger] text_set(a).contains(x) && trip_in_service(service_trips, x, k);
                let at = choose|at: int| 0 <= at < a.len() && (#[trigger] a[at])@ == x;
                assert(b[at]@ == x);
                assert(text_set(b).contains(x));
            }
            if trip_in_services(service_trips, text_set(b), k) {
                let x = choose|x: Seq<char>| #[trigger] text_set(b).contains(x) && trip_in_service(service_trips, x, k);
                let at = choose|at: int| 0 <= at < b.len() && (#[trigger] b[at])@ == x;
                if at < s {
                    assert(a[at]@ == x);
                    assert(text_set(a).contains(x));
                }
            }
        }
        s = s + 1;
    }
    assert(active_services@.take(s as int) =~= active_services@);
    let canceled: Vec<bool> = realtime.canceled_trip_mask(count);
    let mut available: Vec<bool> = Vec::new();
    let mut k: usize = 0;
    while k < count
        invariant
            k <= count,
            listed@.len() == count,
            canceled@.len() == count,
            available@.len() == k,
            forall|j: int| 0 <= j < k ==> #[trigger] available@[j] == (listed@[j] && !canceled@[j]),
        decreases count - k,
    {
        available.push(listed[k] && !canceled[k]);
        k = k + 1;
    }
    available
}

/// The greatest of the delays of the first `n` trips; at least zero.
pub open spec fn greatest_delay(delays: Seq<i32>, trips: Seq<usize>, n: int) -> i32
    decreases n,
{
    if n <= 0 {
        0
    } else {
        let before = greatest_delay(delays, trips, n - 1);
        if delays[trips[n - 1] as int] > before { delays[trips[n - 1] as int] } else { before }
    }
}

/// For each line, the greatest delay of its trips.
pub fn line_delay_bounds(data: &StaticData, trip_delays: &Vec<i32>) -> (bounds: Vec<i32>)
    requires
        trip_delays@.len() == data.trips@.len(),
        forall|l: int| 0 <= l < data.lines@.len() ==> line_valid(#[trigger] data.lines@[l], data.trips@, data.stops@.len() as int),
    ensures
        bounds@.len() == data.lines@.len(),
        forall|l: int| 0 <= l < bounds@.len() ==> {
            let trips = data.lines@[l].trip_indices@;
            #[trigger] bounds@[l] == greatest_delay(trip_delays@, trips, trips.len() as int) && bounds@[l] >= 0
        },
{
    let mut bounds: Vec<i32> = Vec::new();
    let mut l: usize = 0;
    while l < data.lines.len()
        invariant
            l <= data.lines.len(),
            trip_delays@.len() == data.trips@.len(),
            forall|k: int| 0 <= k < data.lines@.len() ==> line_valid(#[trigger] data.lines@[k], data.trips@, data.stops@.len() as int),
            bounds@.len() == l,
            forall|k: int| 0 <= k < l ==> {
                let trips = data.lines@[k].trip_indices@;
                #[trigger] bounds@[k] == greatest_delay(trip_delays@, trips, trips.len() as int) && bounds@[k] >= 0
            },
        decreases data.lines.len() - l,
    {
        let line: &LineRecord = &data.lines[l];
        assert(line_valid(data.lines@[l as int], data.trips@, data.stops@.len() as int));
        let mut greatest: i32 = 0;
        let mut i: usize = 0;
        while i < line.trip_indices.len()
            invariant
                i <= line.trip_indices.len(),
                line_valid(*line, data.trips@, data.stops@.len() as int),
                trip_delays@.len() == data.trips@.len(),
                greatest >= 0,
                greatest == greatest_delay(trip_delays@, line.trip_indices@, i as int),
            decreases line.trip_indices.len() - i,
        {
            assert(line.trip_indices@[i as int] < data.trips@.len());
            let delay: i32 = trip_delays[line.trip_indices[i]];
            if delay > greatest {
                greatest = delay;
            }
            i = i + 1;
        }
        bounds.push(greatest);
        l = l + 1;
    }
    bounds
}

/// The labels after the first `n` walks from the place where a query starts.
pub open spec fn after_access(search: LocalSearch, edges: Seq<QueryVirtualWalk>, departure: int, destination: int, n: int) -> LocalSearch
    decreases n,
{
    if n <= 0 {
        search
    } else {
        let before = after_access(search, edges, departure, destination, n - 1);
        let edge = edges[n - 1];
        let candidate = departure + edge.duration_secs;
        LocalSearch {
            view: with_improvement(
                before.view,
                0,
                edge.to_stop as int,
                candidate as i32,
                ParentView::Walk { from_stop: edge.from_stop, duration_secs: edge.duration_secs, distance_meters: edge.distance_meters },
            ),
            reached: if candidate < before.view.best[edge.to_stop as int] && edge.to_stop == destination { Some(0) } else { before.reached },
            ..before
        }
    }
}

/// The labels after walking on from the first `n` of the stops listed.
pub open spec fn after_seeds(search: LocalSearch, data: StaticData, seeds: Seq<usize>, destination: int, n: int) -> LocalSearch
    decreases n,
{
    if n <= 0 {
        search
    } else {
        let before = after_seeds(search, data, seeds, destination, n - 1);
        let stop = seeds[n - 1];
        let arrival = before.view.arrivals[0][stop as int];
        if arrival >= INF_TIME || arrival >= before.view.best[destination] {
            before
        } else {
            let walks = data.transfers@[stop as int]@;
            after_first_walks(before, walks, stop, arrival as int, destination, walks.len() as int)
        }
    }
}

/// The labels of a query before its first round: the origin, and the stops that
/// can be walked to. From a place that is not a stop, walks lead to stops and on
/// from these.
pub open spec fn walked_start(data: StaticData, plan: QueryPlan, departure: i32, rounds: int) -> LocalSearch {
    let origin_is_stop = plan.from_index < data.stops@.len();
    let labels = start_labels(place_count(data, plan), rounds + 1, plan.from_index as int, departure, origin_is_stop);
    let start = LocalSearch { view: labels, marked: Seq::empty(), reached: if plan.from_index == plan.to_index { Some(0) } else { None } };
    if plan.source_access_edges@.len() == 0 {
        let walks = data.transfers@[plan.from_index as int]@;
        after_first_walks(start, walks, plan.from_index, departure as int, plan.to_index as int, walks.len() as int)
    } else {
        let edges = plan.source_access_edges@;
        let seeded = after_access(start, edges, departure as int, plan.to_index as int, edges.len() as int);
        after_seeds(seeded, data, seeded.view.improved, plan.to_index as int, seeded.view.improved.len() as int)
    }
}

/// A query before its first round: after the walks, and with the ways to finish
/// from the stops they reach.
pub open spec fn query_start(ctx: SearchContext, memory: CacheView, goal: LookaheadGoal, plan: QueryPlan, departure: i32) -> QueryRun {
    let walked = walked_start(*ctx.data, plan, departure, goal.max_rounds as int);
    let marked = walked.view.improved;
    let begun = Look {
        reach: Reach { view: SearchView { improved: Seq::empty(), ..walked.view }, round: walked.reached },
        tally: no_tally(),
        counters: memory.counters,
    };
    let looked = after_finishing(begun, ctx, memory, goal, 0, marked);
    QueryRun { reach: looked.reach, marked: marked, tally: looked.tally, counters: looked.counters, totals: no_totals(), trace: Seq::empty() }
}

/// A query after its last round.
pub open spec fn query_done(ctx: SearchContext, memory: CacheView, goal: LookaheadGoal, plan: QueryPlan, departure: i32) -> QueryRun {
    after_query_rounds(query_start(ctx, memory, goal, plan, departure), ctx, memory, goal, 1)
}

/// The work of a query with what is known only at its end.
pub open spec fn final_totals(run: QueryRun, surface: PreparedSpatialLookup) -> QueryPerformanceCounters {
    QueryPerformanceCounters {
        flat_spatial_mask_populated_sources: surface.populated_sources,
        flat_spatial_mask_materialized_matches: surface.materialized_matches,
        profile_lookups: run.tally.profile_lookups,
        profile_hits: run.tally.profile_hits,
        profile_bound_improvements: run.tally.profile_bound_improvements,
        destination_bound_prunes: run.tally.destination_bound_prunes,
        ..run.totals
    }
}

/// Whether the legs of a point are valid, lead from its stop to a destination, end when
/// it says, and have so many rides.
pub open spec fn suffix_valid(point: ProfileInsertionPoint, trips: Seq<TripRecord>, stops: int, destination: int) -> bool {
    &&& legs_valid(point.suffix_legs@, trips, stops)
    &&& legs_lead(point.suffix_legs@, point.source_stop as int, destination, stops)
    &&& legs_arrive(point.suffix_legs@, point.arrival_secs as int)
    &&& point.transit_legs == ride_count(point.suffix_legs@)
}

/// Whether the legs of a point are valid, lead from its stop to another of the
/// timetable, end when it says, and have so many rides.
pub open spec fn insert_fits(point: SpatialProfileInsertionPoint, trips: Seq<TripRecord>, stops: int) -> bool {
    insert_valid(point, trips, stops) && point.transit_legs == ride_count(point.trunk_legs@)
}

impl<'a> SearchContext<'a> {
    fn walk_access(&self, plan: &QueryPlan, departure_secs: i32, labels: &mut SearchState, Ghost(start): Ghost<LocalSearch>) -> (reached: bool)
        requires
            search_ready(*self),
            plan_valid(*self.data, *plan),
            labels_ready(old(labels)@, *self, place_count(*self.data, *plan), old(labels)@.arrivals.len() as int),
            0 < old(labels)@.arrivals.len(),
            departure_secs <= INF_TIME,
            start.view == old(labels)@,
            old(labels)@.origin == plan.from_index,
        ensures
            labels_ready(final(labels)@, *self, place_count(*self.data, *plan), old(labels)@.arrivals.len() as int),
            final(labels)@.origin == old(labels)@.origin,
            ({
                let edges = plan.source_access_edges@;
                let after = after_access(start, edges, departure_secs as int, plan.to_index as int, edges.len() as int);
                after.view == final(labels)@ && after.reached == (if reached { Some(0) } else { start.reached })
            }),
            (forall|i: int| 0 <= i < old(labels)@.improved.len() ==> (#[trigger] old(labels)@.improved[i]) < self.data.stops@.len()) ==> (forall|i: int|
                0 <= i < final(labels)@.improved.len() ==> (#[trigger] final(labels)@.improved[i]) < self.data.stops@.len()),
    {
        let ghost stops = place_count(*self.data, *plan);
        let ghost rounds = labels@.arrivals.len() as int;
        let edges: &Vec<QueryVirtualWalk> = &plan.source_access_edges;
        let mut reached: bool = false;
        let mut i: usize = 0;
        while i < edges.len()
            invariant
                i <= edges.len(),
                *edges == plan.source_access_edges,
                search_ready(*self),
                plan_valid(*self.data, *plan),
                stops == place_count(*self.data, *plan),
                labels_ready(labels@, *self, stops, rounds),
                labels@.origin == old(labels)@.origin,
                labels@.origin == plan.from_index,
                0 < rounds,
                departure_secs <= INF_TIME,
                ({
                    let after = after_access(start, edges@, departure_secs as int, plan.to_index as int, i as int);
                    after.view == labels@ && after.reached == (if reached { Some(0) } else { start.reached })
                }),
                (forall|k: int| 0 <= k < old(labels)@.improved.len() ==> (#[trigger] old(labels)@.improved[k]) < self.data.stops@.len()) ==> (forall|k: int|
                    0 <= k < labels@.improved.len() ==> (#[trigger] labels@.improved[k]) < self.data.stops@.len()),
            decreases edges.len() - i,
        {
            let edge: &QueryVirtualWalk = &edges[i];
            assert(plan.source_access_edges@[i as int].to_stop < self.data.stops@.len());
            assert(plan.source_access_edges@[i as int].from_stop < stops);
            let candidate: i32 = departure_secs + edge.duration_secs;
            let ghost before = labels@;
            proof {
                reveal(parent_valid);
                improvement_keeps_labels(
                    labels@,
                    *self.data,
                    0,
                    edge.to_stop as int,
                    candidate,
                    ParentView::Walk { from_stop: edge.from_stop, duration_secs: edge.duration_secs, distance_meters: edge.distance_meters },
                );
            }
            let improved: bool = labels.record_stop_improvement(
                0,
                edge.to_stop,
                candidate,
                ParentStep::Walk { from_stop: edge.from_stop, duration_secs: edge.duration_secs, distance_meters: edge.distance_meters },
            );
            if improved && edge.to_stop == plan.to_index {
                reached = true;
            }
            proof {
                if forall|k: int| 0 <= k < before.improved.len() ==> (#[trigger] before.improved[k]) < self.data.stops@.len() {
                    assert forall|k: int| 0 <= k < labels@.improved.len() implies (#[trigger] labels@.improved[k]) < self.data.stops@.len() by {
                        if k < before.improved.len() {
                            assert(labels@.improved[k] == before.improved[k]);
                        }
                    }
                }
            }
            i = i + 1;
        }
        reached
    }

    fn walk_seeds(&self, plan: &QueryPlan, seeds: &Vec<usize>, labels: &mut SearchState, Ghost(start): Ghost<LocalSearch>) -> (reached: bool)
        requires
            search_ready(*self),
            plan_valid(*self.data, *plan),
            labels_ready(old(labels)@, *self, place_count(*self.data, *plan), old(labels)@.arrivals.len() as int),
            0 < old(labels)@.arrivals.len(),
            forall|i: int| 0 <= i < seeds@.len() ==> (#[trigger] seeds@[i]) < self.data.stops@.len(),
            start.view == old(labels)@,
        ensures
            labels_ready(final(labels)@, *self, place_count(*self.data, *plan), old(labels)@.arrivals.len() as int),
            final(labels)@.origin == old(labels)@.origin,
            ({
                let after = after_seeds(start, *self.data, seeds@, plan.to_index as int, seeds@.len() as int);
                after.view == final(labels)@ && after.reached == (if reached { Some(0) } else { start.reached })
            }),
    {
        let ghost stops = place_count(*self.data, *plan);
        let ghost rounds = labels@.arrivals.len() as int;
        let mut reached: bool = false;
        let mut i: usize = 0;
        while i < seeds.len()
            invariant
                i <= seeds.len(),
                search_ready(*self),
                plan_valid(*self.data, *plan),
                stops == place_count(*self.data, *plan),
                labels_ready(labels@, *self, stops, rounds),
                labels@.origin == old(labels)@.origin,
                0 < rounds,
                forall|k: int| 0 <= k < seeds@.len() ==> (#[trigger] seeds@[k]) < self.data.stops@.len(),
                ({
                    let after = after_seeds(start, *self.data, seeds@, plan.to_index as int, i as int);
                    after.view == labels@ && after.reached == (if reached { Some(0) } else { start.reached })
                }),
            decreases seeds.len() - i,
        {
            let stop: usize = seeds[i];
            assert(seeds@[i as int] < self.data.stops@.len());
            assert(labels@.arrivals[0].len() == stops);
            let ghost before = after_seeds(start, *self.data, seeds@, plan.to_index as int, i as int);
            let ghost walks = self.data.transfers@[stop as int]@;
            let arrival: i32 = labels.arrivals[0][stop];
            if !(arrival >= INF_TIME || arrival >= labels.best[plan.to_index]) {
                let walked: bool = self.walk_from(stop, arrival, plan.to_index, labels);
                proof {
                    let after = after_first_walks(
                        LocalSearch { view: before.view, marked: before.marked, reached: before.reached },
                        walks,
                        stop,
                        arrival as int,
                        plan.to_index as int,
                        walks.len() as int,
                    );
                    assert(after.view == labels@);
                    assert(before == (LocalSearch { view: before.view, marked: before.marked, reached: before.reached }));
                }
                if walked {
                    reached = true;
                }
            }
            i = i + 1;
        }
        reached
    }

    fn start_query(
        &self,
        goal: &LookaheadGoal,
        plan: &QueryPlan,
        departure_secs: i32,
        memory: &mut ProfileCache,
        local_cache: &mut LocalSubqueryCache,
    ) -> (state: QueryState)
        requires
            search_ready(*self),
            plan_valid(*self.data, *plan),
            goal.max_rounds < usize::MAX,
            goal.fits(*self, place_count(*self.data, *plan), goal.max_rounds + 1),
            goal.destination_stop == plan.to_index,
            goal.destination_egress_edges == plan.destination_egress_edges,
            departure_secs <= INF_TIME,
            old(memory).wf(),
            cache_fits(old(memory)@, self.data.trips@, self.data.stops@.len() as int),
            old(local_cache).correct(*self),
        ensures
            state.fits(*self, place_count(*self.data, *plan), goal.max_rounds + 1),
            state.labels@.origin == plan.from_index,
            final(memory).wf(),
            final(local_cache).correct(*self),
            final(memory)@ == (CacheView { counters: final(memory)@.counters, ..old(memory)@ }),
            final(memory).spatial_listed() == old(memory).spatial_listed(),
            state.run(final(memory)@.counters) == query_start(*self, old(memory)@, *goal, *plan, departure_secs),
    {
        let ghost places = place_count(*self.data, *plan);
        let ghost rounds = goal.max_rounds + 1;
        let stop_count: usize = self.data.stops.len() + plan.virtual_stop_count;
        let origin_is_stop: bool = plan.from_index < self.data.stops.len();
        let mut labels: SearchState = initial_labels(stop_count, goal.max_rounds + 1, plan.from_index, departure_secs, origin_is_stop);
        proof {
            start_labels_fit(places, rounds, plan.from_index as int, departure_secs, origin_is_stop);
        }
        let ghost start = LocalSearch { view: labels@, marked: Seq::empty(), reached: if plan.from_index == plan.to_index { Some(0) } else { None } };
        let walked: bool;
        if plan.source_access_edges.len() == 0 {
            walked = self.walk_from(plan.from_index, departure_secs, plan.to_index, &mut labels);
            proof {
                let walks = self.data.transfers@[plan.from_index as int]@;
                let after = after_first_walks(
                    LocalSearch { view: start.view, marked: start.marked, reached: start.reached },
                    walks,
                    plan.from_index,
                    departure_secs as int,
                    plan.to_index as int,
                    walks.len() as int,
                );
                assert(start == (LocalSearch { view: start.view, marked: start.marked, reached: start.reached }));
                assert(after.view == labels@);
            }
        } else {
            let first: bool = self.walk_access(plan, departure_secs, &mut labels, Ghost(start));
            let ghost edges = plan.source_access_edges@;
            let ghost seeded = after_access(start, edges, departure_secs as int, plan.to_index as int, edges.len() as int);
            let seeds: Vec<usize> = crate::query_rounds::copy_indices(&labels.improved);
            let second: bool = self.walk_seeds(plan, &seeds, &mut labels, Ghost(seeded));
            walked = first || second;
        }
        let ghost goal_walk = walked_start(*self.data, *plan, departure_secs, goal.max_rounds as int);
        let same_place: bool = plan.from_index == plan.to_index;
        let mut destination_round: Option<usize> = if walked || same_place { Some(0) } else { None };
        proof {
            assert(goal_walk.view == labels@);
            assert(goal_walk.reached == round_view(destination_round));
        }
        let ghost walked_view = labels@;
        let mut marked: Vec<usize> = Vec::new();
        std::mem::swap(&mut marked, &mut labels.improved);
        proof {
            assert(labels@.improved =~= Seq::<usize>::empty());
            assert(labels@ == (SearchView { improved: Seq::empty(), ..walked_view }));
            assert(walked_view.wf(places, rounds));
            assert(labels@.wf(places, rounds));
            assert(labels_valid(walked_view, *self.data));
            assert(labels_valid(labels@, *self.data));
            assert forall|i: int| 0 <= i < marked@.len() implies crate::search::on_the_way(labels@, *self.data, #[trigger] marked@[i] as int) by {
                assert(crate::search::on_the_way(walked_view, *self.data, walked_view.improved[i] as int));
            }
            assert(marked@.skip(0) =~= marked@);
        }
        let mut tally: LookaheadTally = LookaheadTally {
            profile_lookups: 0,
            profile_hits: 0,
            profile_bound_improvements: 0,
            destination_bound_prunes: 0,
            flat_spatial_mask_checks: 0,
            flat_spatial_mask_hits: 0,
        };
        self.finish_from(goal, 0, &marked, 0, &mut labels, &mut destination_round, &mut tally, memory, local_cache);
        let trace: Vec<RoundRecord> = Vec::new();
        assert(trace@ =~= Seq::<RoundRecord>::empty());
        QueryState {
            labels: labels,
            destination_round: destination_round,
            marked: marked,
            tally: tally,
            totals: empty_totals(),
            trace: trace,
        }
    }

    /// Whether what a query remembers of its first journey is right.
    pub open spec fn remembers(self, plan: QueryPlan, first: Seq<CachedLeg>, outcome: QueryOutcome) -> bool {
        let legs = static_legs(first, self.data.stops@.len() as int, first.len() as int);
        &&& plan.exact_destination_stop is None ==> outcome.profile_insertions@.len() == 0
        &&& plan.exact_destination_stop is Some ==> outcome.profile_insertions@.len() == legs.len() && forall|i: int|
            0 <= i < legs.len() ==> remembers_from(#[trigger] outcome.profile_insertions@[i], legs, i)
        &&& inserts_view(outcome.spatial_insertions@) == (match plan.destination_cell_for_insert {
            None => Seq::empty(),
            Some(cell) => spatial_points(self, legs, cell, legs.len() as int),
        })
    }

    /// Whether what is to be remembered fits the timetable.
    pub open spec fn insertions_fit(self, plan: QueryPlan, outcome: QueryOutcome) -> bool {
        &&& forall|i: int| 0 <= i < outcome.profile_insertions@.len() ==> suffix_valid(
            #[trigger] outcome.profile_insertions@[i],
            self.data.trips@,
            self.data.stops@.len() as int,
            plan.to_index as int,
        )
        &&& forall|i: int| 0 <= i < outcome.spatial_insertions@.len() ==> insert_fits(
            #[trigger] outcome.spatial_insertions@[i],
            self.data.trips@,
            self.data.stops@.len() as int,
        )
    }

    /// Whether a result is what a query that has run its rounds gives: the
    /// journeys offered, what to remember of the first of them, and the work; or
    /// why there is none.
    #[verifier::opaque]
    pub open spec fn concludes(self, goal: LookaheadGoal, plan: QueryPlan, limit: usize, services: int, done: QueryRun, result: Result<QueryOutcome, QueryError>) -> bool {
        &&& labels_ready(done.reach.view, self, place_count(*self.data, plan), goal.max_rounds + 1)
        &&& done.reach.view.origin == plan.from_index
        &&& done.reach.round is None ==> result == Err::<QueryOutcome, QueryError>(QueryError::NoItinerary)
        &&& done.reach.round is Some ==> match journeys_of_rounds(
            done.reach.view,
            self,
            plan.from_index as int,
            plan.to_index as int,
            goal.max_rounds + 1,
        ) {
            Err(error) => result == Err::<QueryOutcome, QueryError>(QueryError::Path(error)),
            Ok(found) => {
                let journeys = offered(found, limit);
                if journeys.len() == 0 {
                    result == Err::<QueryOutcome, QueryError>(QueryError::NoCandidates)
                } else {
                    &&& result is Ok
                    &&& candidates_view(result->Ok_0.candidates@) == journeys
                    &&& result->Ok_0.counters == final_totals(done, *goal.surface)
                    &&& result->Ok_0.rounds@ == done.trace
                    &&& self.remembers(plan, journeys[0].raw_legs, result->Ok_0)
                }
            },
        }
        &&& result is Ok ==> {
            &&& self.insertions_fit(plan, result->Ok_0)
            &&& forall|i: int| 0 <= i < result->Ok_0.candidates@.len() ==> legs_valid(
                (#[trigger] result->Ok_0.candidates@[i]).raw_legs@,
                self.data.trips@,
                place_count(*self.data, plan),
            ) && legs_lead(result->Ok_0.candidates@[i].raw_legs@, plan.from_index as int, plan.to_index as int, self.data.stops@.len() as int)
                && (result->Ok_0.candidates@[i].raw_legs@.len() > 0 ==> legs_arrive(
                result->Ok_0.candidates@[i].raw_legs@,
                result->Ok_0.candidates@[i].arrival_secs as int,
            ))
            &&& result->Ok_0.active_services == services
            &&& result->Ok_0.shadow_delta_count == self.realtime@.deltas.dom().len()
            &&& result->Ok_0.canceled_trip_count == self.realtime@.canceled.dom().len()
        }
    }

    /// Whether a result is the answer to a plan: what the query gives after its
    /// last round. Of the memory only the counts of its use change.
    pub open spec fn answers(
        self,
        goal: LookaheadGoal,
        plan: QueryPlan,
        departure: i32,
        limit: usize,
        services: int,
        memory: CacheView,
        memory_after: CacheView,
        result: Result<QueryOutcome, QueryError>,
    ) -> bool {
        let done = query_done(self, memory, goal, plan, departure);
        &&& memory_after == (CacheView { counters: done.counters, ..memory })
        &&& self.concludes(goal, plan, limit, services, done, result)
    }

    fn conclude(&self, goal: &LookaheadGoal, plan: &QueryPlan, itinerary_limit: usize, active_services: usize, state: QueryState, Ghost(done): Ghost<QueryRun>) -> (result: Result<QueryOutcome, QueryError>)
        requires
            search_ready(*self),
            anchors_ready(*self),
            plan_valid(*self.data, *plan),
            goal.max_rounds < usize::MAX,
            (goal.max_rounds + 1) * place_count(*self.data, *plan) <= usize::MAX,
            state.fits(*self, place_count(*self.data, *plan), goal.max_rounds + 1),
            state.labels@.origin == plan.from_index,
            state.run(done.counters) == done,
        ensures
            self.concludes(*goal, *plan, itinerary_limit, active_services as int, done, result),
    {
        proof {
            reveal(SearchContext::concludes);
        }
        let ghost places = place_count(*self.data, *plan);
        if state.destination_round.is_none() {
            return Err(QueryError::NoItinerary);
        }
        proof {
            assert(label_count(state.labels@) == (goal.max_rounds + 1) * places);
        }
        let candidates: Vec<QueryItineraryCandidate> = match self.collect_query_itinerary_candidates(
            plan.from_index,
            plan.to_index,
            itinerary_limit,
            &state.labels,
        ) {
            Err(error) => {
                return Err(QueryError::Path(error));
            },
            Ok(candidates) => candidates,
        };
        assert(candidates_view(candidates@).len() == candidates@.len());
        if candidates.len() == 0 {
            return Err(QueryError::NoCandidates);
        }
        assert(candidates_view(candidates@)[0].raw_legs == candidates@[0].raw_legs@);
        assert(legs_valid(candidates@[0].raw_legs@, self.data.trips@, places));
        proof {
            let first = candidates@[0].raw_legs@;
            static_legs_join(first, plan.from_index as int, plan.to_index as int, self.data.stops@.len() as int, first.len() as int);
        }
        let legs: Vec<CachedLeg> = cacheable_raw_legs(&candidates[0].raw_legs, self.data.stops.len(), Ghost(self.data.trips@), Ghost(places));
        let profile_insertions: Vec<ProfileInsertionPoint> = if plan.exact_destination_stop.is_some() {
            build_profile_insertions(&legs)
        } else {
            Vec::new()
        };
        let spatial_insertions: Vec<SpatialProfileInsertionPoint> = self.build_spatial_profile_insertions(plan.destination_cell_for_insert, &legs);
        proof {
            assert forall|i: int| 0 <= i < profile_insertions@.len() implies suffix_valid(
                #[trigger] profile_insertions@[i],
                self.data.trips@,
                self.data.stops@.len() as int,
                plan.to_index as int,
            ) by {
                assert(remembers_from(profile_insertions@[i], legs@, i));
                let rest = legs@.skip(i);
                assert forall|k: int| 0 <= k < rest.len() implies crate::leg::leg_valid(#[trigger] rest[k], self.data.trips@, self.data.stops@.len() as int) by {
                    assert(crate::leg::leg_valid(legs@[i + k], self.data.trips@, self.data.stops@.len() as int));
                }
                let first = candidates@[0].raw_legs@;
                assert(legs@.last() == first.last());
                assert(legs_lead(legs@, legs@[0].source() as int, plan.to_index as int, self.data.stops@.len() as int));
                rest_leads(legs@, legs@[0].source() as int, plan.to_index as int, i, self.data.stops@.len() as int);
            }
            match plan.destination_cell_for_insert {
                Some(cell) => points_count(*self, legs@, cell, legs@.len() as int),
                None => {},
            }
            assert forall|i: int| 0 <= i < spatial_insertions@.len() implies insert_fits(
                #[trigger] spatial_insertions@[i],
                self.data.trips@,
                self.data.stops@.len() as int,
            ) by {
                assert(inserts_view(spatial_insertions@)[i] == insert_view(spatial_insertions@[i]));
                if plan.destination_cell_for_insert is None {
                    assert(inserts_view(spatial_insertions@).len() == spatial_insertions@.len());
                }
                assert(insert_counts(spatial_points(*self, legs@, plan.destination_cell_for_insert->0, legs@.len() as int)[i]));
            }
        }
        let mut counters: QueryPerformanceCounters = state.totals;
        counters.flat_spatial_mask_populated_sources = goal.surface.populated_sources;
        counters.flat_spatial_mask_materialized_matches = goal.surface.materialized_matches;
        counters.profile_lookups = state.tally.profile_lookups;
        counters.profile_hits = state.tally.profile_hits;
        counters.profile_bound_improvements = state.tally.profile_bound_improvements;
        counters.destination_bound_prunes = state.tally.destination_bound_prunes;
        let outcome: QueryOutcome = QueryOutcome {
            candidates: candidates,
            profile_insertions: profile_insertions,
            spatial_insertions: spatial_insertions,
            counters: counters,
            rounds: state.trace,
            active_services: active_services,
            shadow_delta_count: self.realtime.shadow_delta_count(),
            canceled_trip_count: self.realtime.canceled_trip_count(),
        };
        Ok(outcome)
    }

    /// Searches for the journeys of a plan.
    pub fn search_plan(&self, goal: &LookaheadGoal, plan: &QueryPlan, departure_secs: i32, itinerary_limit: usize, active_services: usize, memory: &mut ProfileCache) -> (result: Result<QueryOutcome, QueryError>)
        requires
            search_ready(*self),
            anchors_ready(*self),
            plan_valid(*self.data, *plan),
            goal.max_rounds < usize::MAX,
            goal.fits(*self, place_count(*self.data, *plan), goal.max_rounds + 1),
            (goal.max_rounds + 1) * place_count(*self.data, *plan) <= usize::MAX,
            goal.destination_stop == plan.to_index,
            goal.destination_egress_edges == plan.destination_egress_edges,
            departure_secs <= INF_TIME,
            old(memory).wf(),
            cache_fits(old(memory)@, self.data.trips@, self.data.stops@.len() as int),
        ensures
            final(memory).wf(),
            self.answers(*goal, *plan, departure_secs, itinerary_limit, active_services as int, old(memory)@, final(memory)@, result),
            final(memory)@ == (CacheView { counters: final(memory)@.counters, ..old(memory)@ }),
            final(memory).spatial_listed() == old(memory).spatial_listed(),
    {
        let ghost places = place_count(*self.data, *plan);
        let ghost content = memory@;
        let ghost done = query_done(*self, content, *goal, *plan, departure_secs);
        let mut local_cache: LocalSubqueryCache = LocalSubqueryCache::new();
        let mut state: QueryState = self.start_query(goal, plan, departure_secs, memory, &mut local_cache);
        let ghost begun = state.run(memory@.counters);
        let ghost held = memory@;
        proof {
            assert(memory@.exact == content.exact && memory@.spatial == content.spatial);
            assert(cache_fits(memory@, self.data.trips@, self.data.stops@.len() as int));
            crate::query_rounds::rounds_ignore_counters(begun, *self, held, content, *goal, 1);
        }
        self.run_query_rounds(goal, &mut state, memory, &mut local_cache, Ghost(places));
        assert(state.run(memory@.counters) == done);
        self.conclude(goal, plan, itinerary_limit, active_services, state, Ghost(done))
    }
}

proof fn surface_profiles_valid(view: CacheView, listed: Seq<StoreKey>, service_date: i32, cells: Seq<u64>, source: int, n: int, trips: Seq<TripRecord>, stops: int)
    requires
        cache_fits(view, trips, stops),
        0 <= n <= listed.len(),
        forall|k: int| 0 <= k < listed.len() ==> view.spatial.dom().contains(#[trigger] listed[k]),
    ensures
        forall|i: int| 0 <= i < surface_profiles(view, listed, service_date, cells, source, n).len() ==> match_valid(
            #[trigger] surface_profiles(view, listed, service_date, cells, source, n)[i],
            trips,
            stops,
            source,
        ),
    decreases n,
{
    if n > 0 {
        surface_profiles_valid(view, listed, service_date, cells, source, n - 1, trips, stops);
        let before = surface_profiles(view, listed, service_date, cells, source, n - 1);
        let after = surface_profiles(view, listed, service_date, cells, source, n);
        let key = listed[n - 1];
        assert(view.spatial.dom().contains(key));
        assert forall|i: int| 0 <= i < after.len() implies match_valid(#[trigger] after[i], trips, stops, source) by {
            if i < before.len() {
                assert(after[i] == before[i]);
            } else {
                let points = view.spatial[key];
                assert(after[i] == profiles(points)[i - before.len()]);
                assert(match_valid(view.spatial[key][i - before.len()].profile, trips, stops, key.2 as int));
            }
        }
    }
}

proof fn surface_fits(memory: ProfileCache, surface: PreparedSpatialLookup, service_date: i32, cells: Seq<u64>, stop_count: int, trips: Seq<TripRecord>, stops: int)
    requires
        memory.wf(),
        cache_fits(memory@, trips, stops),
        surface.enabled_source_stops@.len() == stop_count,
        surface.matches_by_source_stop@.len() == stop_count,
        forall|s: int| 0 <= s < stop_count ==> #[trigger] surface_entry(
            surface,
            s,
            surface_profiles(memory@, memory.spatial_listed(), service_date, cells, s, memory.spatial_listed().len() as int),
        ),
        forall|s: int| 0 <= s < stop_count ==> surface_profiles(memory@, memory.spatial_listed(), service_date, cells, s, memory.spatial_listed().len() as int).len() <= usize::MAX,
    ensures
        surface_valid(surface, trips, stops),
{
    let listed = memory.spatial_listed();
    assert forall|k: int| 0 <= k < listed.len() implies memory@.spatial.dom().contains(#[trigger] listed[k]) by {
        memory.summaries_are_bounds(listed[k]);
        assert(listed.contains(listed[k]));
    }
    assert forall|s: int, i: int| 0 <= s < surface.matches_by_source_stop@.len() && 0 <= i < surface.matches_by_source_stop@[s]@.len() implies match_valid(
        (#[trigger] surface.matches_by_source_stop@[s]@[i])@,
        trips,
        stops,
        s,
    ) by {
        let all = surface_profiles(memory@, listed, service_date, cells, s, listed.len() as int);
        assert(surface_entry(surface, s, all));
        surface_profiles_valid(memory@, listed, service_date, cells, s, listed.len() as int, trips, stops);
        let row = matches_view(surface.matches_by_source_stop@[s]@);
        assert(row.len() == surface.matches_by_source_stop@[s]@.len());
        assert(row[i] == surface.matches_by_source_stop@[s]@[i]@);
        assert(all.len() > 0);
        let keys = match_keys(all);
        stable_order_exists(keys);
        let order = stable_order_of(keys);
        assert(row[i] == all[order[i] as int]);
        assert(order[i] < keys.len());
    }
}

/// What a query is run with: the trips that run, those that reports speak of, and
/// the delays that each line may have.
pub open spec fn day_context(ctx: SearchContext, data: StaticData, realtime: RealtimeView, services: Set<Seq<char>>) -> bool {
    &&& *ctx.data == data
    &&& ctx.realtime@ == realtime
    &&& ctx.realtime.wf()
    &&& ctx.trip_is_available@.len() == data.trips@.len()
    &&& ctx.trip_has_realtime_update@.len() == data.trips@.len()
    &&& ctx.line_max_positive_delay_secs@.len() == data.lines@.len()
    &&& forall|t: int| 0 <= t < data.trips@.len() ==> #[trigger] ctx.trip_is_available@[t] == trip_runs(data, realtime, services, t)
    &&& forall|t: int| 0 <= t < data.trips@.len() ==> #[trigger] ctx.trip_has_realtime_update@[t] == trip_is_updated(realtime, t)
    &&& forall|l: int| 0 <= l < data.lines@.len() ==> #[trigger] is_delay_bound(ctx.line_max_positive_delay_secs@[l], data.lines@[l].trip_indices@, realtime)
}

/// Whether a number is the greatest delay that makes a traveller wait anywhere
/// on the trips, or zero.
pub open spec fn is_delay_bound(bound: i32, trips: Seq<usize>, realtime: RealtimeView) -> bool {
    &&& bound >= 0
    &&& forall|i: int, key: StoreKey| 0 <= i < trips.len() && #[trigger] realtime.deltas.dom().contains(key) && key.1 == #[trigger] trips[i] ==> waiting_delay(realtime.deltas[key]) <= bound
    &&& bound > 0 ==> exists|i: int, key: StoreKey| 0 <= i < trips.len() && #[trigger] realtime.deltas.dom().contains(key) && key.1 == #[trigger] trips[i] && waiting_delay(realtime.deltas[key]) == bound
}

/// Whether a goal is that of a plan on a day, with what the memory holds of the
/// surroundings of its destination.
pub open spec fn plan_goal(goal: LookaheadGoal, data: StaticData, plan: QueryPlan, service_date: i32, max_rounds: int, memory: ProfileCache) -> bool {
    let cells = plan.destination_cells@;
    let surface = *goal.surface;
    let listed = memory.spatial_listed();
    &&& goal.service_date == service_date
    &&& goal.destination_stop == plan.to_index
    &&& goal.exact_destination_stop == plan.exact_destination_stop
    &&& *goal.destination_egress_edges == plan.destination_egress_edges
    &&& goal.max_rounds == max_rounds
    &&& surface.enabled_source_stops@.len() == surface.matches_by_source_stop@.len()
    &&& cells.len() == 0 || data.stops@.len() == 0 ==> surface.enabled_source_stops@.len() == 0
    &&& cells.len() > 0 && data.stops@.len() > 0 ==> {
        &&& surface.enabled_source_stops@.len() == data.stops@.len()
        &&& forall|s: int| 0 <= s < data.stops@.len() ==> #[trigger] surface_entry(
            surface,
            s,
            surface_profiles(memory@, listed, service_date, cells, s, listed.len() as int),
        )
    }
}

/// The goal of a plan fits the timetable and the labels.
pub proof fn plan_goal_fits(ctx: SearchContext, goal: LookaheadGoal, data: StaticData, plan: QueryPlan, service_date: i32, max_rounds: int, memory: ProfileCache)
    requires
        plan_goal(goal, data, plan, service_date, max_rounds, memory),
        *ctx.data == data,
        plan_valid(data, plan),
        memory.wf(),
        cache_fits(memory@, data.trips@, data.stops@.len() as int),
        max_rounds < usize::MAX,
        (max_rounds + 1) * data.stops@.len() <= usize::MAX,
    ensures
        goal.fits(ctx, place_count(data, plan), max_rounds + 1),
{
    if plan.destination_cells@.len() > 0 && data.stops@.len() > 0 {
        let listed = memory.spatial_listed();
        assert forall|s: int| 0 <= s < data.stops@.len() implies surface_profiles(memory@, listed, service_date, plan.destination_cells@, s, listed.len() as int).len() <= usize::MAX by {
            assert(surface_entry(*goal.surface, s, surface_profiles(memory@, listed, service_date, plan.destination_cells@, s, listed.len() as int)));
        }
        surface_fits(memory, *goal.surface, service_date, plan.destination_cells@, data.stops@.len() as int, data.trips@, data.stops@.len() as int);
    }
}

/// The number of changes that a query allows.
pub open spec fn allowed_transfers(asked: Option<usize>, default: usize) -> usize {
    let wanted = match asked {
        Some(value) => value,
        None => default,
    };
    if wanted > MAX_TRANSFERS { MAX_TRANSFERS } else { wanted }
}

/// The number of journeys that a query offers at most.
pub open spec fn itinerary_limit(asked: Option<usize>, transfers: usize) -> int {
    let wanted = match asked {
        Some(value) => value as int,
        None => DEFAULT_QUERY_ITINERARY_COUNT as int,
    };
    let held = if wanted < 1 { 1 } else if wanted > MAX_QUERY_ITINERARY_COUNT { MAX_QUERY_ITINERARY_COUNT as int } else { wanted };
    if held < transfers + 2 { held } else { transfers + 2 }
}

/// Whether the timetable is in order for queries.
pub open spec fn data_ready(data: StaticData) -> bool {
    &&& forall|t: int| 0 <= t < data.trips@.len() ==> trip_calls_valid(#[trigger] data.trips@[t], data.stops@.len() as int)
    &&& forall|t: int| 0 <= t < data.trips@.len() ==> (#[trigger] data.trips@[t]).route_index < data.routes@.len()
    &&& forall|l: int| 0 <= l < data.lines@.len() ==> line_valid(#[trigger] data.lines@[l], data.trips@, data.stops@.len() as int)
    &&& stop_lines_valid(data)
    &&& services_valid(data)
    &&& data.transfers@.len() == data.stops@.len()
    &&& walks_valid(data.transfers@, data.stops@.len() as int)
    &&& walk_index_valid(data.transfer_index, data.transfers@, data.stops@.len() as int)
    &&& data.stop_destination_cells@.len() == data.stops@.len()
}

/// For each line, the greatest delay that makes a traveller wait.
pub fn day_delay_bounds(data: &StaticData, realtime: &RealtimeStore) -> (line_delays: Vec<i32>)
    requires
        realtime.wf(),
        forall|l: int| 0 <= l < data.lines@.len() ==> line_valid(#[trigger] data.lines@[l], data.trips@, data.stops@.len() as int),
    ensures
        line_delays@.len() == data.lines@.len(),
        forall|l: int| 0 <= l < data.lines@.len() ==> #[trigger] is_delay_bound(line_delays@[l], data.lines@[l].trip_indices@, realtime@),
{
    let trip_delays: Vec<i32> = realtime.trip_max_positive_departure_delay_secs(data.trips.len());
    let line_delays: Vec<i32> = line_delay_bounds(data, &trip_delays);
    proof {
        assert forall|l: int| 0 <= l < data.lines@.len() implies #[trigger] is_delay_bound(line_delays@[l], data.lines@[l].trip_indices@, realtime@) by {
            let trips = data.lines@[l].trip_indices@;
            assert(line_valid(data.lines@[l], data.trips@, data.stops@.len() as int));
            greatest_delay_bounds(trip_delays@, trips, trips.len() as int);
            assert(line_delays@[l] == greatest_delay(trip_delays@, trips, trips.len() as int));
            assert forall|i: int, key: StoreKey| 0 <= i < trips.len() && #[trigger] realtime@.deltas.dom().contains(key) && key.1 == #[trigger] trips[i] implies waiting_delay(realtime@.deltas[key]) <= line_delays@[l] by {
                assert(trips[i] < data.trips@.len());
                assert(trip_delays@[trips[i] as int] <= line_delays@[l]);
            }
            if line_delays@[l] > 0 {
                let i = choose|i: int| 0 <= i < trips.len() && trip_delays@[#[trigger] trips[i] as int] == line_delays@[l];
                assert(trips[i] < data.trips@.len());
                assert(trip_delays@[trips[i] as int] > 0);
                let key = choose|key: StoreKey| #[trigger] realtime@.deltas.dom().contains(key) && key.1 == trips[i] && waiting_delay(realtime@.deltas[key]) == trip_delays@[trips[i] as int];
                assert(realtime@.deltas.dom().contains(key) && key.1 == trips[i]);
            }
        }
    }
    line_delays
}

/// Answers a query on a day, from a time on.
pub fn run_query(
    data: &StaticData,
    realtime: &RealtimeStore,
    memory: &mut ProfileCache,
    plan: &QueryPlan,
    service_date: i32,
    departure_secs: i32,
    max_transfers: Option<usize>,
    default_max_transfers: usize,
    num_itineraries: Option<usize>,
) -> (result: Result<QueryOutcome, QueryError>)
    requires
        realtime.wf(),
        data_ready(*data),
        plan_valid(*data, *plan),
        10 * place_count(*data, *plan) <= usize::MAX,
        departure_secs <= INF_TIME,
        old(memory).wf(),
        cache_fits(old(memory)@, data.trips@, data.stops@.len() as int),
    ensures
        final(memory).wf(),
        cache_fits(final(memory)@, data.trips@, data.stops@.len() as int),
        !data.service_by_date@.dom().contains(service_date) ==> result == Err::<QueryOutcome, QueryError>(QueryError::NoServices) && final(memory)@ == old(memory)@,
        data.service_by_date@.dom().contains(service_date) && data.service_by_date@[service_date] == Set::<Seq<char>>::empty() ==> result == Err::<QueryOutcome, QueryError>(
            QueryError::EmptyCalendar,
        ) && final(memory)@ == old(memory)@,
        data.service_by_date@.dom().contains(service_date) && data.service_by_date@[service_date] != Set::<Seq<char>>::empty() ==> ({
            let services = data.service_by_date@[service_date];
            let transfers = allowed_transfers(max_transfers, default_max_transfers);
            exists|ctx: SearchContext, goal: LookaheadGoal| {
                &&& #[trigger] day_context(ctx, *data, realtime@, services)
                &&& #[trigger] plan_goal(goal, *data, *plan, service_date, transfers + 1, *old(memory))
                &&& ctx.answers(
                    goal,
                    *plan,
                    departure_secs,
                    itinerary_limit(num_itineraries, transfers) as usize,
                    services.len() as int,
                    old(memory)@,
                    final(memory)@,
                    result,
                )
            }
        }),
{
    let services: &Vec<String> = match data.service_by_date.get(service_date) {
        None => {
            return Err(QueryError::NoServices);
        },
        Some(services) => services,
    };
    proof {
        text_set_size(services@);
    }
    if services.len() == 0 {
        return Err(QueryError::EmptyCalendar);
    }
    assert(text_set(services@).contains(services@[0]@));
    let wanted_transfers: usize = match max_transfers {
        Some(value) => value,
        None => default_max_transfers,
    };
    let transfers: usize = if wanted_transfers > MAX_TRANSFERS { MAX_TRANSFERS } else { wanted_transfers };
    let wanted: usize = match num_itineraries {
        Some(value) => value,
        None => DEFAULT_QUERY_ITINERARY_COUNT,
    };
    let held: usize = if wanted < 1 { 1 } else if wanted > MAX_QUERY_ITINERARY_COUNT { MAX_QUERY_ITINERARY_COUNT } else { wanted };
    let limit: usize = if held < transfers + 2 { held } else { transfers + 2 };
    let trip_count: usize = data.trips.len();
    let available: Vec<bool> = build_trip_availability(data, realtime, services);
    let updated: Vec<bool> = realtime.updated_trip_mask(trip_count);
    let line_delays: Vec<i32> = day_delay_bounds(data, realtime);
    let surface: PreparedSpatialLookup = memory.materialize_spatial_query_surface(service_date, &plan.destination_cells, data.stops.len());
    let ctx: SearchContext = SearchContext {
        data: data,
        realtime: realtime,
        trip_is_available: &available,
        trip_has_realtime_update: &updated,
        line_max_positive_delay_secs: &line_delays,
    };
    let goal: LookaheadGoal = LookaheadGoal {
        service_date: service_date,
        destination_stop: plan.to_index,
        exact_destination_stop: plan.exact_destination_stop,
        surface: &surface,
        destination_egress_edges: &plan.destination_egress_edges,
        max_rounds: transfers + 1,
    };
    let ghost places = place_count(*data, *plan);
    let ghost content = *memory;
    proof {
        assert(day_context(ctx, *data, realtime@, text_set(services@)));
        day_context_ready(ctx, *data, realtime@, text_set(services@));
        assert(plan_goal(goal, *data, *plan, service_date, transfers + 1, *old(memory)));
        assert((goal.max_rounds + 1) * places <= 10 * places) by (nonlinear_arith)
            requires
                goal.max_rounds + 1 <= 10,
                0 <= places,
        ;
        assert((goal.max_rounds + 1) * data.stops@.len() <= (goal.max_rounds + 1) * places) by (nonlinear_arith)
            requires
                data.stops@.len() <= places,
        ;
        plan_goal_fits(ctx, goal, *data, *plan, service_date, transfers + 1, *memory);
    }
    let result: Result<QueryOutcome, QueryError> = ctx.search_plan(&goal, plan, departure_secs, limit, services.len(), memory);
    proof {
        assert(memory@.exact == content@.exact && memory@.spatial == content@.spatial);
        assert(cache_fits(memory@, data.trips@, data.stops@.len() as int));
        assert(day_context(ctx, *data, realtime@, text_set(services@)));
        assert(plan_goal(goal, *data, *plan, service_date, transfers + 1, *old(memory)));
        assert(transfers == allowed_transfers(max_transfers, default_max_transfers));
        assert(limit == itinerary_limit(num_itineraries, transfers) as usize);
        assert(ctx.answers(
            goal,
            *plan,
            departure_secs,
            itinerary_limit(num_itineraries, transfers) as usize,
            text_set(services@).len() as int,
            old(memory)@,
            memory@,
            result,
        ));
    }
    result
}

proof fn text_set_size(texts: Seq<String>)
    requires
        texts_distinct(texts),
    ensures
        text_set(texts).finite(),
        text_set(texts).len() == texts.len(),
        texts.len() == 0 ==> text_set(texts) == Set::<Seq<char>>::empty(),
{
    let views = Seq::new(texts.len(), |i: int| texts[i]@);
    assert(views.no_duplicates()) by {
        assert forall|i: int, j: int| 0 <= i < views.len() && 0 <= j < views.len() && i != j implies views[i] != views[j] by {
            if i < j {
                assert(texts[i]@ != texts[j]@);
            } else {
                assert(texts[j]@ != texts[i]@);
            }
        }
    }
    views.unique_seq_to_set();
    assert(text_set(texts) =~= views.to_set()) by {
        assert forall|t: Seq<char>| text_set(texts).contains(t) <==> views.to_set().contains(t) by {
            if text_set(texts).contains(t) {
                let i = choose|i: int| 0 <= i < texts.len() && (#[trigger] texts[i])@ == t;
                assert(views[i] == t);
            }
            if views.to_set().contains(t) {
                let i = choose|i: int| 0 <= i < views.len() && views[i] == t;
                assert(texts[i]@ == t);
            }
        }
    }
    if texts.len() == 0 {
        assert(text_set(texts) =~= Set::<Seq<char>>::empty());
    }
}

/// A query on a day can be run.
pub proof fn day_context_ready(ctx: SearchContext, data: StaticData, realtime: RealtimeView, services: Set<Seq<char>>)
    requires
        day_context(ctx, data, realtime, services),
        data_ready(data),
    ensures
        search_ready(ctx),
        anchors_ready(ctx),
{
    assert forall|l: int| 0 <= l < ctx.line_max_positive_delay_secs@.len() implies (#[trigger] ctx.line_max_positive_delay_secs@[l]) >= 0 by {
        assert(is_delay_bound(ctx.line_max_positive_delay_secs@[l], data.lines@[l].trip_indices@, realtime));
    }
}

proof fn greatest_delay_bounds(delays: Seq<i32>, trips: Seq<usize>, n: int)
    requires
        0 <= n <= trips.len(),
    ensures
        greatest_delay(delays, trips, n) >= 0,
        forall|i: int| 0 <= i < n ==> delays[#[trigger] trips[i] as int] <= greatest_delay(delays, trips, n),
        greatest_delay(delays, trips, n) > 0 ==> exists|i: int| 0 <= i < n && delays[#[trigger] trips[i] as int] == greatest_delay(delays, trips, n),
    decreases n,
{
    if n > 0 {
        greatest_delay_bounds(delays, trips, n - 1);
        let before = greatest_delay(delays, trips, n - 1);
        let after = greatest_delay(delays, trips, n);
        if after > 0 {
            if delays[trips[n - 1] as int] > before {
                assert(delays[trips[n - 1] as int] == after);
            } else {
                let i = choose|i: int| 0 <= i < n - 1 && delays[#[trigger] trips[i] as int] == before;
                assert(delays[trips[i] as int] == after);
            }
        }
    }
}

/// The journeys that a query offers are journeys: they lead from where the query
/// begins to where it ends without a gap, their last leg ends when they arrive, and
/// their rides are on calls of trips of the timetable, from one to another that is
/// no earlier.
pub proof fn offered_journeys_have_no_gap(
    ctx: SearchContext,
    goal: LookaheadGoal,
    plan: QueryPlan,
    departure: i32,
    limit: usize,
    services: int,
    memory: CacheView,
    memory_after: CacheView,
    outcome: QueryOutcome,
    i: int,
)
    requires
        ctx.answers(goal, plan, departure, limit, services, memory, memory_after, Ok(outcome)),
        0 <= i < outcome.candidates@.len(),
    ensures
        legs_valid(outcome.candidates@[i].raw_legs@, ctx.data.trips@, place_count(*ctx.data, plan)),
        legs_lead(outcome.candidates@[i].raw_legs@, plan.from_index as int, plan.to_index as int, ctx.data.stops@.len() as int),
        outcome.candidates@[i].raw_legs@.len() > 0 ==> legs_arrive(outcome.candidates@[i].raw_legs@, outcome.candidates@[i].arrival_secs as int),
        ctx.insertions_fit(plan, outcome),
{
    reveal(SearchContext::concludes);
}

/// A memory with the journeys to a stop, if there is one to remember them under.
pub open spec fn exact_remembered(memory: CacheView, destination: Option<usize>, service_date: i32, points: Seq<ProfileInsertionPoint>) -> CacheView {
    match destination {
        Some(stop) => {
            let (more, inserted) = with_exact_points(memory, service_date, stop, points, points.len() as int);
            CacheView { counters: CacheCounters { inserted_points: wrapped(memory.counters.inserted_points, inserted), ..memory.counters }, ..more }
        },
        None => memory,
    }
}

/// A memory with the journeys to a cell, if there is one to remember them under.
pub open spec fn spatial_remembered(memory: CacheView, cell: Option<u64>, service_date: i32, points: Seq<SpatialProfileInsertionPoint>) -> CacheView {
    match cell {
        Some(cell) => {
            let (more, inserted) = with_spatial_points(memory.spatial, service_date, cell, points, points.len() as int);
            CacheView {
                spatial: more,
                counters: CacheCounters { inserted_spatial_points: wrapped(memory.counters.inserted_spatial_points, inserted), ..memory.counters },
                ..memory
            }
        },
        None => memory,
    }
}

/// Remembers the journeys that a query found worth remembering.
pub fn remember_journeys(
    memory: &mut ProfileCache,
    data: &StaticData,
    plan: &QueryPlan,
    service_date: i32,
    profile_insertions: Vec<ProfileInsertionPoint>,
    spatial_insertions: Vec<SpatialProfileInsertionPoint>,
)
    requires
        old(memory).wf(),
        cache_fits(old(memory)@, data.trips@, data.stops@.len() as int),
        forall|i: int| 0 <= i < profile_insertions@.len() ==> suffix_valid(#[trigger] profile_insertions@[i], data.trips@, data.stops@.len() as int, plan.to_index as int),
        forall|i: int| 0 <= i < spatial_insertions@.len() ==> insert_fits(#[trigger] spatial_insertions@[i], data.trips@, data.stops@.len() as int),
        plan.exact_destination_stop is Some ==> plan.exact_destination_stop->0 == plan.to_index,
    ensures
        final(memory).wf(),
        cache_fits(final(memory)@, data.trips@, data.stops@.len() as int),
        final(memory)@ == spatial_remembered(
            exact_remembered(old(memory)@, plan.exact_destination_stop, service_date, profile_insertions@),
            plan.destination_cell_for_insert,
            service_date,
            spatial_insertions@,
        ),
        match plan.exact_destination_stop {
            Some(destination) => {
                let insertion = (service_date, destination, profile_insertions@);
                &&& exact_come_from(old(memory)@.exact, final(memory)@.exact, service_date, destination, profile_insertions@, profile_insertions@.len() as int)
                &&& remembers_more(old(memory)@.exact, final(memory)@.exact, insertion, profile_insertions@.len() as int)
            },
            None => final(memory)@.exact == old(memory)@.exact,
        },
        match plan.destination_cell_for_insert {
            Some(cell) => spatial_come_from(old(memory)@.spatial, final(memory)@.spatial, service_date, cell, spatial_insertions@, spatial_insertions@.len() as int),
            None => final(memory)@.spatial == old(memory)@.spatial,
        },
{
    let ghost start = memory@;
    let ghost stops = data.stops@.len() as int;
    let ghost exacts = profile_insertions@;
    let ghost spatials = spatial_insertions@;
    match plan.exact_destination_stop {
        Some(destination) => {
            memory.insert_batch(service_date, destination, profile_insertions);
            proof {
                with_exact_points_frame(start, service_date, destination, exacts, exacts.len() as int);
                assert forall|key: StoreKey, i: int| memory@.exact.dom().contains(key) && 0 <= i < memory@.exact[key].len() implies suffix_fits(
                    (#[trigger] memory@.exact[key][i]).profile,
                    data.trips@,
                    stops,
                    key.2 as int,
                    key.1 as int,
                ) by {
                    let point = memory@.exact[key][i];
                    if was_held(start.exact, key, point) {
                        let j = start.exact[key].index_of(point);
                        assert(start.exact[key][j] == point);
                    } else {
                        let j = choose|j: int|
                            0 <= j < exacts.len() && key == profile_key(service_date, destination as int, (#[trigger] exacts[j]).source_stop as int) && point == exact_point(
                                destination,
                                exacts[j],
                            );
                        assert(suffix_valid(exacts[j], data.trips@, stops, plan.to_index as int));
                    }
                }
            }
        },
        None => {},
    }
    let ghost middle = memory@;
    match plan.destination_cell_for_insert {
        Some(cell) => {
            memory.insert_spatial_batch(service_date, cell, spatial_insertions);
            proof {
                assert forall|key: StoreKey, i: int| memory@.spatial.dom().contains(key) && 0 <= i < memory@.spatial[key].len() implies match_valid(
                    (#[trigger] memory@.spatial[key][i]).profile,
                    data.trips@,
                    stops,
                    key.2 as int,
                ) by {
                    let point = memory@.spatial[key][i];
                    if was_held(middle.spatial, key, point) {
                        let j = middle.spatial[key].index_of(point);
                        assert(middle.spatial[key][j] == point);
                    } else {
                        let j = choose|j: int|
                            0 <= j < spatials.len() && key == profile_key(service_date, cell as int, (#[trigger] spatials[j]).source_stop as int) && point == spatial_point(spatials[j]);
                        assert(insert_fits(spatials[j], data.trips@, stops));
                    }
                }
            }
        },
        None => {},
    }
}

proof fn with_exact_points_frame(view: CacheView, service_date: i32, destination: usize, points: Seq<ProfileInsertionPoint>, n: int)
    ensures
        with_exact_points(view, service_date, destination, points, n).0.spatial == view.spatial,
    decreases n,
{
    if n > 0 {
        with_exact_points_frame(view, service_date, destination, points, n - 1);
    }
}

} // verus!
