use alpha_raptor::assembly::{
    affected_stops, assemble_static_data, changed_stops, merge_walks, rebuilds_differentially, shortest_walks, stops_to_walk, update_strategy,
};
use alpha_raptor::cold_storage::{cold_route, cold_trip};
use alpha_raptor::hydration::{build_deferred_hydration, hydrate_leg, report_rides, LegKind};
use alpha_raptor::itinerary::{hydrate_query_itinerary_candidates, leg_runs};
use alpha_raptor::leg::CachedLeg;
use alpha_raptor::lookahead::QueryVirtualWalk;
use alpha_raptor::model::{FeedConfig, StaticData, WalkTransfer};
use alpha_raptor::number::Real;
use alpha_raptor::profile_cache::ProfileCache;
use alpha_raptor::query::{remember_journeys, run_query, QueryError, QueryOutcome};
use alpha_raptor::query_input::{resolve_query_plan, PreparedEnd};
use alpha_raptor::realtime::{RealtimeStore, StopTimeUpdate, TripUpdate, TripUpdateFeed, VehicleFeed, VehicleReport};
use alpha_raptor::realtime_refresh::FetchedFeed;
use alpha_raptor::static_changes::summarize_static_divergence;
use alpha_raptor::static_core::{
    build_static_core, CalendarException, CalendarRule, CoreError, GtfsFeed, GtfsRoute, GtfsStop, GtfsStopTime, GtfsTrip, StaticCore,
};
use alpha_raptor::static_merge::merge_append_only_core;
use alpha_raptor::stop_search::{
    delay_sample_limit, resolve_stop_query, search_stops, stop_result, stop_search_limit, virtual_stop_global_id, virtual_stop_result,
};

const DAY: i32 = 739_712;

fn number(value: f64) -> Real {
    Real { bits: value.to_bits() }
}

fn feed() -> FeedConfig {
    FeedConfig {
        feed_index: 0,
        id: "roma".to_owned(),
        static_gtfs_path: "roma.zip".to_owned(),
        static_gtfs_source: "roma.zip".to_owned(),
        static_gtfs_remote_url: None,
        static_gtfs_allow_invalid_tls: false,
        trip_updates_url: Some("https://example.com/trips.pb".to_owned()),
        vehicle_positions_url: Some("https://example.com/vehicles.pb".to_owned()),
        depends_on: Vec::new(),
    }
}

fn stop(id: &str, name: &str) -> GtfsStop {
    GtfsStop { id: id.to_owned(), code: None, name: Some(name.to_owned()), latitude: None, longitude: None }
}

fn call(stop_id: &str, time: u32, stop_sequence: u32) -> GtfsStopTime {
    GtfsStopTime { stop_id: stop_id.to_owned(), arrival_time: Some(time), departure_time: Some(time), stop_sequence, shape_dist_traveled: None }
}

fn trip(id: &str, route: &str, calls: Vec<GtfsStopTime>) -> GtfsTrip {
    GtfsTrip {
        id: id.to_owned(),
        route_id: route.to_owned(),
        service_id: "daily".to_owned(),
        shape_id: None,
        headsign: Some("Centro".to_owned()),
        stop_times: calls,
        projected_stop_points: None,
    }
}

fn route(id: &str, name: &str) -> GtfsRoute {
    GtfsRoute { id: id.to_owned(), short_name: Some(name.to_owned()), long_name: None, route_type: "Bus".to_owned(), color: Some((255, 0, 16)), text_color: None }
}

fn gtfs() -> GtfsFeed {
    GtfsFeed {
        stops: vec![stop("a", "Alfa"), stop("b", "Bravo"), stop("c", "Città"), stop("d", "Delta")],
        routes: vec![route("r1", "64"), route("r2", "H")],
        shapes: Vec::new(),
        trips: vec![
            trip("t1", "r1", vec![call("a", 28_800, 1), call("b", 29_400, 2)]),
            trip("t2", "r1", vec![call("a", 30_600, 1), call("b", 31_200, 2)]),
            trip("t3", "r2", vec![call("c", 29_700, 1), call("d", 30_000, 2)]),
            trip("t4", "r2", vec![call("c", 31_500, 1), call("d", 31_800, 2)]),
        ],
        calendar: vec![CalendarRule {
            service_id: "daily".to_owned(),
            start_day: DAY,
            end_day: DAY + 1,
            monday: true,
            tuesday: true,
            wednesday: true,
            thursday: true,
            friday: true,
            saturday: true,
            sunday: true,
        }],
        exceptions: vec![
            CalendarException { service_id: "daily".to_owned(), day: DAY + 1, added: false },
            CalendarException { service_id: "daily".to_owned(), day: DAY + 5, added: true },
        ],
    }
}

fn timetable(parsed: GtfsFeed) -> StaticCore {
    build_static_core(&vec![feed()], &vec![parsed]).unwrap()
}

fn walk(to_stop: usize) -> WalkTransfer {
    WalkTransfer { to_stop, duration_secs: 120, distance_meters: number(160.0), polyline: Vec::new(), segment_way_ids: Vec::new() }
}

fn assembled(core: StaticCore) -> StaticData {
    let count = core.stops.len();
    let mut transfers = vec![Vec::new(); count];
    transfers[1].push(walk(2));
    transfers[2].push(walk(1));
    let hub_keys = (0..count).map(|index| (0, 0, 0, index)).collect();
    assemble_static_data(core, transfers, &hub_keys, vec![None; count])
}

fn data() -> StaticData {
    assembled(timetable(gtfs()))
}

fn query(data: &StaticData, realtime: &RealtimeStore, memory: &mut ProfileCache, departure: i32, day: i32) -> Result<QueryOutcome, QueryError> {
    let plan = resolve_query_plan(data, PreparedEnd::Stop(0), PreparedEnd::Stop(3));
    run_query(data, realtime, memory, &plan, day, departure, Some(3), 4, None)
}

fn updated(stop_sequence: u32, delay: i32) -> TripUpdateFeed {
    TripUpdateFeed {
        timestamp: Some(99),
        updates: vec![TripUpdate {
            trip_id: Some("t1".to_owned()),
            schedule_relationship: None,
            delay: None,
            stop_time_updates: vec![StopTimeUpdate {
                stop_sequence: Some(stop_sequence),
                stop_id: None,
                arrival_delay: Some(delay),
                departure_delay: Some(delay),
                schedule_relationship: None,
                departure_occupancy_status: Some(2),
            }],
        }],
    }
}

fn vehicle() -> VehicleReport {
    VehicleReport {
        entity_id: "v1".to_owned(),
        trip_id: Some("t1".to_owned()),
        schedule_relationship: None,
        vehicle_id: Some("bus 7".to_owned()),
        vehicle_label: None,
        latitude: Some(number(41.0)),
        longitude: Some(number(12.0)),
        bearing: None,
        speed: None,
        current_stop_sequence: Some(1),
        stop_id: Some("a".to_owned()),
        current_status: Some(2),
        timestamp: Some(98),
        occupancy_status: Some(5),
        occupancy_percentage: None,
        carriages: Vec::new(),
    }
}

#[test]
fn timetables_are_built_in_order_of_ids() {
    let data = data();
    assert_eq!(data.stops.iter().map(|stop| stop.id.as_str()).collect::<Vec<_>>(), vec!["roma:a", "roma:b", "roma:c", "roma:d"]);
    assert_eq!(data.lines.len(), 2);
    assert_eq!(data.lines[0].stop_indices, vec![0, 1]);
    assert_eq!(data.lines[0].trip_indices, vec![0, 1]);
    assert_eq!(data.routes[0].color, Some("#FF0010".to_owned()));
    assert_eq!(data.stops[2].search_blob.contains("città"), true);
}

#[test]
fn a_journey_leads_over_a_change_without_a_gap() {
    let data = data();
    let mut memory = ProfileCache::new();
    let outcome = query(&data, &RealtimeStore::new(), &mut memory, 28_700, DAY).unwrap();
    let best = &outcome.candidates[0];
    assert_eq!(best.arrival_secs, 30_000);
    assert_eq!(best.transit_legs, 2);
    assert_eq!(best.raw_legs.len(), 3);
    assert!(matches!(best.raw_legs[0], CachedLeg::Transit { trip_index: 0, board_stop: 0, alight_stop: 1, departure_secs: 28_800, arrival_secs: 29_400, .. }));
    assert!(matches!(best.raw_legs[1], CachedLeg::Walk { from_stop: 1, to_stop: 2, duration_secs: 120, .. }));
    assert!(matches!(best.raw_legs[2], CachedLeg::Transit { trip_index: 2, board_stop: 2, alight_stop: 3, arrival_secs: 30_000, .. }));
    assert_eq!(outcome.profile_insertions.len(), 3);
    assert_eq!(outcome.active_services, 1);
}

#[test]
fn what_is_remembered_is_found_again() {
    let data = data();
    let realtime = RealtimeStore::new();
    let mut memory = ProfileCache::new();
    let plan = resolve_query_plan(&data, PreparedEnd::Stop(0), PreparedEnd::Stop(3));
    let first = query(&data, &realtime, &mut memory, 28_700, DAY).unwrap();
    remember_journeys(&mut memory, &data, &plan, DAY, first.profile_insertions, first.spatial_insertions);
    assert_eq!(memory.snapshot().inserted_points, 3);
    let second = query(&data, &realtime, &mut memory, 28_700, DAY).unwrap();
    assert_eq!(second.candidates[0].arrival_secs, 30_000);
    assert_eq!(second.candidates[0].raw_legs.len(), 3);
    assert!(second.counters.profile_hits > 0);
    memory.invalidate_trips(&vec![0]);
    assert!(memory.lookup(DAY, 3, 0, 28_700, 3).is_none());
    assert!(memory.lookup(DAY, 3, 2, 29_600, 3).is_some());
}

#[test]
fn each_leg_begins_when_the_one_before_has_ended() {
    let data = data();
    let mut late = RealtimeStore::new();
    let fetched = FetchedFeed {
        trip_updates: Ok(updated(1, 300)),
        vehicle_positions: Ok(VehicleFeed { timestamp: Some(98), vehicles: vec![vehicle()] }),
    };
    late.refresh(&data, &vec![feed()], &vec![fetched], "now");
    let mut memory = ProfileCache::new();
    for departure in [0, 28_000, 28_700, 28_800] {
        for realtime in [&RealtimeStore::new(), &late] {
            let outcome = query(&data, realtime, &mut memory, departure, DAY).unwrap();
            for candidate in &outcome.candidates {
                let mut ready = departure;
                for leg in &candidate.raw_legs {
                    assert!(ready <= leg.departure_secs());
                    ready = leg.arrival_secs();
                }
                assert_eq!(ready, candidate.arrival_secs);
            }
            for point in &outcome.profile_insertions {
                assert_eq!(point.latest_ready_secs, point.suffix_legs[0].departure_secs());
                assert_eq!(point.arrival_secs, point.suffix_legs[point.suffix_legs.len() - 1].arrival_secs());
            }
        }
    }
}

fn earliest_arrival(data: &StaticData, departure: i32) -> Option<i32> {
    let mut times = vec![i32::MAX; data.stops.len()];
    times[0] = departure;
    for _ in 0..5 {
        let mut next = times.clone();
        for trip in &data.trips {
            for p in 0..trip.stop_times.len() {
                let boarding = &trip.stop_times[p];
                if times[boarding.stop_index] <= boarding.departure_secs {
                    for alighting in &trip.stop_times[p + 1..] {
                        next[alighting.stop_index] = next[alighting.stop_index].min(alighting.arrival_secs);
                    }
                }
            }
        }
        for stop in 0..next.len() {
            for walk in &data.transfers[stop] {
                if next[stop] < i32::MAX {
                    next[walk.to_stop] = next[walk.to_stop].min(next[stop] + walk.duration_secs);
                }
            }
        }
        times = next;
    }
    if times[3] < i32::MAX { Some(times[3]) } else { None }
}

#[test]
fn no_ride_and_no_walk_is_missed() {
    let data = data();
    let mut found = 0;
    for departure in (0..36_000).step_by(150) {
        let outcome = query(&data, &RealtimeStore::new(), &mut ProfileCache::new(), departure, DAY);
        let arrival = outcome.ok().map(|outcome| outcome.candidates[0].arrival_secs);
        assert_eq!(arrival, earliest_arrival(&data, departure));
        if arrival.is_some() {
            found += 1;
        }
    }
    assert!(found > 0);
}

#[test]
fn no_journey_changes_more_often_than_allowed() {
    let data = data();
    let plan = resolve_query_plan(&data, PreparedEnd::Stop(0), PreparedEnd::Stop(3));
    let mut memory = ProfileCache::new();
    for _ in 0..2 {
        for allowed in [1, 2, 5, 40] {
            let outcome = run_query(&data, &RealtimeStore::new(), &mut memory, &plan, DAY, 28_000, Some(allowed), 4, Some(6)).unwrap();
            for candidate in &outcome.candidates {
                let rides = candidate.raw_legs.iter().filter(|leg| leg.trip_index().is_some()).count();
                assert_eq!(candidate.transit_legs, rides);
                assert!(rides <= allowed.min(8) + 1);
            }
            remember_journeys(&mut memory, &data, &plan, DAY, outcome.profile_insertions, outcome.spatial_insertions);
        }
        let none = run_query(&data, &RealtimeStore::new(), &mut memory, &plan, DAY, 28_000, Some(0), 4, None);
        assert!(matches!(none, Err(QueryError::NoItinerary)));
    }
}

#[test]
fn later_departures_take_later_trips() {
    let data = data();
    let outcome = query(&data, &RealtimeStore::new(), &mut ProfileCache::new(), 28_801, DAY).unwrap();
    assert_eq!(outcome.candidates[0].arrival_secs, 31_800);
}

#[test]
fn days_without_services_are_refused() {
    let data = data();
    let realtime = RealtimeStore::new();
    assert_eq!(query(&data, &realtime, &mut ProfileCache::new(), 28_700, DAY + 2).err(), Some(QueryError::NoServices));
    assert_eq!(query(&data, &realtime, &mut ProfileCache::new(), 28_700, DAY + 1).err(), Some(QueryError::EmptyCalendar));
    assert!(query(&data, &realtime, &mut ProfileCache::new(), 28_700, DAY + 5).is_ok());
    assert_eq!(query(&data, &realtime, &mut ProfileCache::new(), 40_000, DAY).err(), Some(QueryError::NoItinerary));
}

#[test]
fn places_are_reached_on_foot() {
    let data = data();
    let access = |from_stop: usize, to_stop: usize| QueryVirtualWalk {
        from_stop,
        to_stop,
        duration_secs: 60,
        distance_meters: number(80.0),
        polyline: Vec::new(),
        segment_way_ids: Vec::new(),
    };
    let plan = resolve_query_plan(
        &data,
        PreparedEnd::Place { cell: None, walks: vec![access(4, 0)] },
        PreparedEnd::Place { cell: None, walks: vec![access(3, 5)] },
    );
    let mut memory = ProfileCache::new();
    let outcome = run_query(&data, &RealtimeStore::new(), &mut memory, &plan, DAY, 28_700, None, 4, Some(1)).unwrap();
    assert_eq!(outcome.candidates.len(), 1);
    let legs = &outcome.candidates[0].raw_legs;
    assert_eq!(outcome.candidates[0].arrival_secs, 30_060);
    assert_eq!(legs[0].source_stop(), 4);
    assert!(matches!(legs[legs.len() - 1], CachedLeg::Walk { from_stop: 3, to_stop: 5, .. }));
    assert!(outcome.profile_insertions.is_empty());
}

#[test]
fn delays_and_cancellations_change_journeys() {
    let data = data();
    let mut realtime = RealtimeStore::new();
    let fetched = FetchedFeed {
        trip_updates: Ok(updated(1, 300)),
        vehicle_positions: Ok(VehicleFeed { timestamp: Some(98), vehicles: vec![vehicle()] }),
    };
    let result = realtime.refresh(&data, &vec![feed()], &vec![fetched], "now");
    assert_eq!(result.changed_trip_indices, vec![0]);
    assert_eq!(result.terminal_error, None);
    assert_eq!(result.state.vehicles.len(), 1);
    assert_eq!(result.state.trip_entities, 1);
    assert_eq!(realtime.actual_departure(&data.trips, 0, 0), 29_100);
    assert_eq!(realtime.actual_arrival(&data.trips, 0, 1), 29_700);
    let missed = query(&data, &realtime, &mut ProfileCache::new(), 28_900, DAY).unwrap();
    assert_eq!(missed.candidates[0].arrival_secs, 31_800);
    assert_eq!(missed.shadow_delta_count, 2);
    let metrics = realtime.trip_realtime_metrics(0, 0);
    assert!(metrics.has_gtfs_rt());
    assert_eq!(metrics.stop_departure_occupancy_status, Some(2));
    assert!(!realtime.trip_realtime_metrics(1, 0).has_gtfs_rt());
    let samples = realtime.delay_samples(&data, 5);
    assert_eq!(samples.len(), 2);
    assert_eq!(samples[0].route_label, "64");

    let canceled = TripUpdateFeed {
        timestamp: None,
        updates: vec![TripUpdate { trip_id: Some("t1".to_owned()), schedule_relationship: Some(3), delay: None, stop_time_updates: Vec::new() }],
    };
    let fetched = FetchedFeed { trip_updates: Ok(canceled), vehicle_positions: Err("timeout".to_owned()) };
    let result = realtime.refresh(&data, &vec![feed()], &vec![fetched], "later");
    assert_eq!(result.state.last_error, Some("feed roma vehicle positions refresh failed: timeout".to_owned()));
    assert_eq!(realtime.canceled_trip_count(), 1);
    assert_eq!(realtime.shadow_delta_count(), 0);
    let other = query(&data, &realtime, &mut ProfileCache::new(), 28_700, DAY).unwrap();
    assert_eq!(other.candidates[0].arrival_secs, 31_800);
    assert_eq!(other.canceled_trip_count, 1);
}

#[test]
fn feeds_that_point_nowhere_are_refused() {
    let mut bad = gtfs();
    bad.trips[0].route_id = "none".to_owned();
    match build_static_core(&vec![feed()], &vec![bad]) {
        Err(CoreError::MissingRoute { route_id, .. }) => assert_eq!(route_id, "none"),
        _ => panic!("the route is missing"),
    }
    let mut bad = gtfs();
    bad.trips[1].stop_times[1].stop_id = "x".to_owned();
    assert!(matches!(build_static_core(&vec![feed()], &vec![bad]), Err(CoreError::MissingStop { .. })));
    let mut bad = gtfs();
    bad.trips[0].stop_times[0].arrival_time = None;
    bad.trips[0].stop_times[0].departure_time = None;
    assert!(matches!(build_static_core(&vec![feed()], &vec![bad]), Err(CoreError::MissingTimes { .. })));
}

#[test]
fn new_trips_are_appended() {
    let before = data();
    let mut more = gtfs();
    more.stops.push(stop("e", "Echo"));
    more.trips.push(trip("t5", "r2", vec![call("d", 32_000, 1), call("e", 32_300, 2)]));
    let next = timetable(more);
    let summary = summarize_static_divergence(&before, &next);
    assert!(!rebuilds_differentially(false, &summary));
    let merged = merge_append_only_core(&before, next).unwrap();
    assert_eq!(merged.stops.len(), 5);
    assert_eq!(merged.trips.len(), 5);
    assert_eq!(merged.stops[0].global_id, before.stops[0].global_id);
    let after = assembled(merged);
    let plan = resolve_query_plan(&after, PreparedEnd::Stop(2), PreparedEnd::Stop(4));
    let outcome = run_query(&after, &RealtimeStore::new(), &mut ProfileCache::new(), &plan, DAY, 31_400, Some(2), 4, None).unwrap();
    assert_eq!(outcome.candidates[0].arrival_secs, 32_300);
}

#[test]
fn stops_are_found_by_what_is_typed() {
    let data = data();
    assert_eq!(search_stops(&data, "CITTÀ", 5), vec![2]);
    assert_eq!(search_stops(&data, "roma:b", 5), vec![1]);
    assert_eq!(search_stops(&data, "roma", 2).len(), 2);
    assert!(search_stops(&data, "nowhere", 5).is_empty());
    assert_eq!(resolve_stop_query(&data, Some("roma:d"), None), Some(3));
    assert_eq!(resolve_stop_query(&data, Some("d"), None), Some(3));
    assert_eq!(resolve_stop_query(&data, None, Some(data.stops[1].global_id)), Some(1));
    assert_eq!(resolve_stop_query(&data, Some("z"), None), None);
    assert_eq!(stop_search_limit(None), 12);
    assert_eq!(stop_search_limit(Some(0)), 1);
    assert_eq!(stop_search_limit(Some(80)), 50);
    assert_eq!(delay_sample_limit(Some(900)), 200);
    let place = virtual_stop_result("Origine GPS", number(41.5), number(12.25), "41.500000,12.250000", "41.50000, 12.25000");
    assert_eq!(place.id, "virtual:41.500000,12.250000");
    assert_eq!(place.name, "Origine GPS (41.50000, 12.25000)");
    assert_eq!(place.global_id >> 48, 0xFFFF);
    assert_ne!(place.global_id, virtual_stop_global_id("Destinazione GPS", number(41.5), number(12.25)));
}

#[test]
fn journeys_are_told_of_in_order_of_worth() {
    let data = data();
    let outcome = query(&data, &RealtimeStore::new(), &mut ProfileCache::new(), 28_700, DAY).unwrap();
    let rides = vec![Vec::new(); outcome.candidates.len()];
    let told = hydrate_query_itinerary_candidates(&outcome.candidates, &rides, 28_700);
    assert_eq!(told.len(), outcome.candidates.len());
    assert_eq!(told[0].duration_seconds, 1_300);
    assert_eq!(told[0].transfers, 1);
    assert!(told[0].is_recommended);
    assert_eq!(leg_runs(&outcome.candidates[0].raw_legs).len(), 3);
}

#[test]
fn walks_are_kept_where_nothing_changed() {
    let previous = vec![vec![walk(1)], vec![walk(0)]];
    let merged = merge_walks(previous, 3, vec![(1, vec![walk(2)])]);
    assert_eq!(merged.iter().map(|row| row.iter().map(|walk| walk.to_stop).collect::<Vec<_>>()).collect::<Vec<_>>(), vec![vec![1], vec![2], vec![]]);
    let mut far = walk(4);
    far.duration_secs = 900;
    assert_eq!(shortest_walks(&vec![far, walk(1), walk(2)], 2), vec![1, 2]);
    assert_eq!(affected_stops(&vec![3], &vec![1, 3]), vec![1, 3]);
    assert_eq!(stops_to_walk(&vec![3], &vec![vec![5, 1], Vec::new(), vec![3, 0]]), vec![0, 1, 3, 5]);
    let before = timetable(gtfs());
    assert_eq!(changed_stops(&before.stops, &before.active_stop_indices, &vec!["roma:c".to_owned(), "roma:a".to_owned()]), vec![0, 2]);
    assert!(changed_stops(&before.stops, &vec![1, 3], &vec!["roma:c".to_owned()]).is_empty());
    assert_eq!(update_strategy(true, true, true).as_str(), "cache-hit");
    assert_eq!(update_strategy(false, false, true).as_str(), "cold-start-full-build");
    assert_eq!(update_strategy(false, true, true).as_str(), "differential-injection-append-only");
    assert_eq!(update_strategy(false, true, false).as_str(), "full-rebuild");
}

#[test]
fn legs_are_told_of_by_reference() {
    let data = data();
    let bravo = stop_result(&data.stops[1]);
    assert_eq!(bravo.name, "Bravo");
    assert!(!bravo.is_virtual);
    let outcome = query(&data, &RealtimeStore::new(), &mut ProfileCache::new(), 28_700, DAY).unwrap();
    let leg = hydrate_leg(
        &data,
        &outcome.candidates[0].raw_legs[0],
        &cold_trip(&data.trips[0]),
        &cold_route(&data.routes[0]),
        RealtimeStore::new().trip_realtime_metrics(0, 0),
        stop_result(&data.stops[0]),
        bravo,
        Vec::new(),
        Vec::new(),
    );
    assert_eq!(leg.kind, LegKind::Transit);
    assert_eq!(leg.route_label, Some("64".to_owned()));
    assert_eq!(leg.headsign, Some("Centro".to_owned()));
    assert_eq!(leg.duration_seconds, 600);
    assert!(!leg.has_gtfs_rt);
    let legs = vec![leg];
    assert_eq!(report_rides(&legs).len(), 1);
    let deferred = build_deferred_hydration(&legs);
    assert_eq!(deferred.stops.iter().map(|stop| stop.name.as_str()).collect::<Vec<_>>(), vec!["Alfa", "Bravo"]);
    assert_eq!(deferred.routes.len(), 1);
    assert_eq!(deferred.trips.len(), 1);
    assert_eq!(deferred.legs.len(), 1);
}
