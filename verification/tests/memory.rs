use chrono::{Datelike, NaiveDate};

use alpha_raptor::leg::CachedLeg;
use alpha_raptor::number::Real;
use alpha_raptor::profile_cache::{ProfileCache, ProfileInsertionPoint, ProfileLookupDecision, SpatialProfileInsertionPoint};

#[test]
fn prefers_best_feasible_profile_point() {
    let mut cache = ProfileCache::new();
    let service_date = NaiveDate::from_ymd_opt(2026, 4, 5).expect("valid test date").num_days_from_ce();

    cache.insert_batch(
        service_date,
        42,
        vec![
            ProfileInsertionPoint {
                source_stop: 7,
                latest_ready_secs: 8 * 3600,
                arrival_secs: 9 * 3600,
                transit_legs: 1,
                trip_indices: vec![11],
                suffix_legs: vec![CachedLeg::Transit {
                    trip_index: 11,
                    board_stop: 7,
                    board_pos: 0,
                    alight_stop: 42,
                    alight_pos: 1,
                    departure_secs: 8 * 3600,
                    arrival_secs: 9 * 3600,
                }],
            },
            ProfileInsertionPoint {
                source_stop: 7,
                latest_ready_secs: 7 * 3600 + 30 * 60,
                arrival_secs: 8 * 3600 + 20 * 60,
                transit_legs: 1,
                trip_indices: vec![12],
                suffix_legs: vec![CachedLeg::Transit {
                    trip_index: 12,
                    board_stop: 7,
                    board_pos: 0,
                    alight_stop: 42,
                    alight_pos: 1,
                    departure_secs: 7 * 3600 + 30 * 60,
                    arrival_secs: 8 * 3600 + 20 * 60,
                }],
            },
        ],
    );

    let earlier = cache
        .lookup(service_date, 42, 7, 7 * 3600, 1)
        .expect("earlier ready time should hit");
    assert_eq!(earlier.arrival_secs, 8 * 3600 + 20 * 60);
    assert_eq!(earlier.absolute_min_duration_secs, 50 * 60);
    assert_eq!(earlier.absolute_min_transfers, 1);

    let later = cache
        .lookup(service_date, 42, 7, 7 * 3600 + 45 * 60, 1)
        .expect("later ready time should still hit");
    assert_eq!(later.arrival_secs, 9 * 3600);
    assert_eq!(later.absolute_min_duration_secs, 60 * 60);
    assert_eq!(later.absolute_min_transfers, 1);

    assert!(matches!(
        cache.lookup_bounded(service_date, 42, 7, 7 * 3600, 1, 7 * 3600 + 40 * 60),
        ProfileLookupDecision::SummaryPruned
    ));
}

#[test]
fn materialized_spatial_surface_preserves_bounds_and_readiness() {
    let mut cache = ProfileCache::new();
    let service_date = NaiveDate::from_ymd_opt(2026, 4, 5).expect("valid test date").num_days_from_ce();

    cache.insert_spatial_batch(
        service_date,
        99,
        vec![SpatialProfileInsertionPoint {
            source_stop: 7,
            latest_ready_secs: 8 * 3600,
            boundary_arrival_secs: 8 * 3600 + 20 * 60,
            transit_legs: 1,
            boundary_stop: 11,
            trip_indices: vec![12],
            trunk_legs: vec![CachedLeg::Transit {
                trip_index: 12,
                board_stop: 7,
                board_pos: 0,
                alight_stop: 11,
                alight_pos: 1,
                departure_secs: 8 * 3600,
                arrival_secs: 8 * 3600 + 20 * 60,
            }],
        }],
    );

    let prepared = cache.materialize_spatial_query_surface(service_date, &vec![99], 16);
    assert!(prepared.enabled_source_stops[7]);
    assert_eq!(prepared.absolute_min_duration_by_source_stop[7], 20 * 60);
    assert_eq!(prepared.absolute_min_transfers_by_source_stop[7], 1);

    let point = &prepared.matches_by_source_stop[7][0];
    assert_eq!(point.latest_ready_secs, 8 * 3600);
    assert_eq!(point.absolute_min_duration_secs, 20 * 60);
    assert_eq!(point.absolute_min_transfers, 1);
}

#[test]
fn invalidates_points_that_touch_changed_trips() {
    let mut cache = ProfileCache::new();
    let service_date = NaiveDate::from_ymd_opt(2026, 4, 5).expect("valid test date").num_days_from_ce();

    cache.insert_batch(
        service_date,
        42,
        vec![
            ProfileInsertionPoint {
                source_stop: 7,
                latest_ready_secs: 8 * 3600,
                arrival_secs: 9 * 3600,
                transit_legs: 1,
                trip_indices: vec![11],
                suffix_legs: vec![CachedLeg::Transit {
                    trip_index: 11,
                    board_stop: 7,
                    board_pos: 0,
                    alight_stop: 42,
                    alight_pos: 1,
                    departure_secs: 8 * 3600,
                    arrival_secs: 9 * 3600,
                }],
            },
            ProfileInsertionPoint {
                source_stop: 8,
                latest_ready_secs: 8 * 3600,
                arrival_secs: 8 * 3600 + 15 * 60,
                transit_legs: 0,
                trip_indices: vec![],
                suffix_legs: vec![CachedLeg::Walk {
                    from_stop: 8,
                    to_stop: 42,
                    departure_secs: 8 * 3600,
                    arrival_secs: 8 * 3600 + 15 * 60,
                    duration_secs: 15 * 60,
                    distance_meters: Real { bits: 1200.0f64.to_bits() },
                }],
            },
        ],
    );

    let summary = cache.invalidate_trips(&vec![11]);
    assert_eq!(summary.invalidated_points, 1);

    assert!(cache.lookup(service_date, 42, 7, 7 * 3600, 1).is_none());
    assert!(cache.lookup(service_date, 42, 8, 7 * 3600, 0).is_some());
}

#[test]
fn spatial_profiles_hit_for_same_cell() {
    let mut cache = ProfileCache::new();
    let service_date = NaiveDate::from_ymd_opt(2026, 4, 5).expect("valid test date").num_days_from_ce();

    cache.insert_spatial_batch(
        service_date,
        9001,
        vec![SpatialProfileInsertionPoint {
            source_stop: 7,
            latest_ready_secs: 8 * 3600,
            boundary_arrival_secs: 8 * 3600 + 20 * 60,
            transit_legs: 1,
            boundary_stop: 42,
            trip_indices: vec![11],
            trunk_legs: vec![CachedLeg::Transit {
                trip_index: 11,
                board_stop: 7,
                board_pos: 0,
                alight_stop: 42,
                alight_pos: 1,
                departure_secs: 8 * 3600,
                arrival_secs: 8 * 3600 + 20 * 60,
            }],
        }],
    );

    let matches = cache.lookup_spatial_cells(service_date, &vec![9001], 7, 7 * 3600 + 30 * 60, 1);
    assert_eq!(matches.len(), 1);
    assert_eq!(matches[0].boundary_stop, 42);
}

#[test]
fn spatial_profiles_hit_across_neighbor_cells() {
    let mut cache = ProfileCache::new();
    let service_date = NaiveDate::from_ymd_opt(2026, 4, 5).expect("valid test date").num_days_from_ce();

    cache.insert_spatial_batch(
        service_date,
        9001,
        vec![SpatialProfileInsertionPoint {
            source_stop: 7,
            latest_ready_secs: 8 * 3600,
            boundary_arrival_secs: 8 * 3600 + 20 * 60,
            transit_legs: 1,
            boundary_stop: 42,
            trip_indices: vec![11],
            trunk_legs: vec![CachedLeg::Transit {
                trip_index: 11,
                board_stop: 7,
                board_pos: 0,
                alight_stop: 42,
                alight_pos: 1,
                departure_secs: 8 * 3600,
                arrival_secs: 8 * 3600 + 20 * 60,
            }],
        }],
    );

    let matches = cache.lookup_spatial_cells(
        service_date,
        &vec![9000, 9001, 9002],
        7,
        7 * 3600 + 30 * 60,
        1,
    );
    assert_eq!(matches.len(), 1);
    assert_eq!(matches[0].boundary_stop, 42);
}
