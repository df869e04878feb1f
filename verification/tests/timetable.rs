use std::collections::HashMap;

use alpha_raptor::directions::{build_road_directions, build_walk_directions, LineMeasures, Turn};
use alpha_raptor::model::{LineRecord, PolylinePoint, ShapePoint, StopRecord, TripRecord, TripStopRecord, WalkTransfer};
use alpha_raptor::number::{Real, ShortReal};
use alpha_raptor::search::svrt_chunk_has_catchup_candidate_scalar;
use alpha_raptor::shape::{build_shape_stop_point_indices, intermediate_trip_stop_times, shape_polyline_segment};
use alpha_raptor::sources::{remote_static_gtfs_version_changed, RemoteStaticGtfsVersionMetadata};
use alpha_raptor::temporal::{build_chronos_bucket_start_indices, finalize_line_temporal_indices, CHRONOS_BUCKET_SECS};
use alpha_raptor::transfer_index::{build_transfer_relax_index, HubKey};
use alpha_raptor::walk_geometry::{stitch_walk_geometries, walk_joints, WalkGeometry};

fn number(value: f64) -> Real {
    Real { bits: value.to_bits() }
}

fn short(value: f32) -> ShortReal {
    ShortReal { bits: value.to_bits() }
}

fn value(number: Real) -> f64 {
    f64::from_bits(number.bits)
}

fn haversine_meters(lat_a: f64, lon_a: f64, lat_b: f64, lon_b: f64) -> f64 {
    let delta_lat = (lat_b - lat_a).to_radians();
    let delta_lon = (lon_b - lon_a).to_radians();
    let a = (delta_lat / 2.0).sin().powi(2) + lat_a.to_radians().cos() * lat_b.to_radians().cos() * (delta_lon / 2.0).sin().powi(2);
    6_371_000.0 * 2.0 * a.sqrt().atan2((1.0 - a).sqrt())
}

fn distance(a: &PolylinePoint, b: &PolylinePoint) -> f64 {
    haversine_meters(value(a.lat), value(a.lon), value(b.lat), value(b.lon))
}

fn hub_keys(stops: &[StopRecord], hub_cell_meters: f64) -> Vec<HubKey> {
    stops
        .iter()
        .enumerate()
        .map(|(index, stop)| match (stop.latitude, stop.longitude) {
            (Some(lat), Some(lon)) => {
                let lat = value(lat);
                let scale = lat.to_radians().cos().abs().max(0.25);
                (
                    stop.feed_index,
                    ((lat * 111_320.0) / hub_cell_meters).floor() as i32,
                    ((value(lon) * 111_320.0 * scale) / hub_cell_meters).floor() as i32,
                    usize::MAX,
                )
            }
            _ => (stop.feed_index, 0, 0, index),
        })
        .collect()
}

fn stop_distances(shape: &[ShapePoint], stops: &[StopRecord], calls: &[TripStopRecord]) -> Vec<Option<Vec<Real>>> {
    calls
        .iter()
        .map(|call| {
            let stop = stops.get(call.stop_index)?;
            let (lat, lon) = (value(stop.latitude?), value(stop.longitude?));
            Some(shape.iter().map(|point| number(haversine_meters(lat, lon, value(point.lat), value(point.lon)))).collect())
        })
        .collect()
}

fn touching(geometries: &Vec<WalkGeometry>) -> Vec<bool> {
    walk_joints(geometries)
        .iter()
        .map(|joint| match joint {
            Some((end, start)) => (value(end.lat) - value(start.lat)).abs() <= 1e-7 && (value(end.lon) - value(start.lon)).abs() <= 1e-7,
            None => false,
        })
        .collect()
}

fn turn_at(from: &PolylinePoint, pivot: &PolylinePoint, to: &PolylinePoint) -> Turn {
    let scale = value(pivot.lat).to_radians().cos();
    let v1 = ((value(pivot.lon) - value(from.lon)) * scale, value(pivot.lat) - value(from.lat));
    let v2 = ((value(to.lon) - value(pivot.lon)) * scale, value(to.lat) - value(pivot.lat));
    if v1.0.abs() + v1.1.abs() <= f64::EPSILON || v2.0.abs() + v2.1.abs() <= f64::EPSILON {
        return Turn::Straight;
    }
    let cross = v1.0 * v2.1 - v1.1 * v2.0;
    let dot = v1.0 * v2.0 + v1.1 * v2.1;
    if cross.abs().atan2(dot).to_degrees() < 20.0 {
        Turn::Straight
    } else if cross > 0.0 {
        Turn::Left
    } else {
        Turn::Right
    }
}

fn measures(polyline: &[PolylinePoint]) -> LineMeasures {
    let mut lengths = vec![0.0f64];
    for pair in polyline.windows(2) {
        lengths.push(lengths[lengths.len() - 1] + distance(&pair[0], &pair[1]));
    }
    let count = polyline.len();
    LineMeasures {
        turns: (0..count)
            .map(|i| if i > 0 && i + 1 < count { turn_at(&polyline[i - 1], &polyline[i], &polyline[i + 1]) } else { Turn::Straight })
            .collect(),
        distances: lengths.iter().map(|length| number(*length)).collect(),
        close_from: (0..count).map(|p| (0..p).find(|q| lengths[p] - lengths[*q] < 15.0).unwrap_or(p)).collect(),
    }
}

#[test]
fn chronos_bucket_indices_are_dense_across_schedule_gaps() {
    let departures = vec![10 * 3600 + 5 * 60, 10 * 3600 + 45 * 60];
    let indices = build_chronos_bucket_start_indices(&departures);

    let gap_bucket = ((10 * 3600) + (15 * 60)) / CHRONOS_BUCKET_SECS;
    assert_eq!(indices[gap_bucket as usize], 1);
}

#[test]
fn finalize_line_temporal_indices_tracks_searchability_per_stop() {
    let trips = vec![
        TripRecord {
            global_id: 1,
            feed_index: 0,
            feed_id: "feed".to_owned(),
            local_id: "t1".to_owned(),
            id: "feed:t1".to_owned(),
            route_index: 0,
            shape_id: None,
            shape_stop_point_indices: None,
            headsign: None,
            stop_times: vec![
                TripStopRecord {
                    stop_index: 0,
                    arrival_secs: 8 * 3600,
                    departure_secs: 8 * 3600,
                    stop_sequence: 1,
                    shape_dist_traveled: None,
                },
                TripStopRecord {
                    stop_index: 1,
                    arrival_secs: 8 * 3600 + 10 * 60,
                    departure_secs: 8 * 3600 + 10 * 60,
                    stop_sequence: 2,
                    shape_dist_traveled: None,
                },
            ],
        },
        TripRecord {
            global_id: 2,
            feed_index: 0,
            feed_id: "feed".to_owned(),
            local_id: "t2".to_owned(),
            id: "feed:t2".to_owned(),
            route_index: 0,
            shape_id: None,
            shape_stop_point_indices: None,
            headsign: None,
            stop_times: vec![
                TripStopRecord {
                    stop_index: 0,
                    arrival_secs: 8 * 3600 + 5 * 60,
                    departure_secs: 8 * 3600 + 5 * 60,
                    stop_sequence: 1,
                    shape_dist_traveled: None,
                },
                TripStopRecord {
                    stop_index: 1,
                    arrival_secs: 8 * 3600 + 9 * 60,
                    departure_secs: 8 * 3600 + 9 * 60,
                    stop_sequence: 2,
                    shape_dist_traveled: None,
                },
            ],
        },
    ];

    let mut lines = vec![LineRecord {
        stop_indices: vec![0, 1],
        trip_indices: vec![0, 1],
        scheduled_departures_by_stop: Vec::new(),
        chronos_bucket_start_indices_by_stop: Vec::new(),
        binary_searchable_by_stop: Vec::new(),
        trip_order_indirection_by_stop: Vec::new(),
    }];

    finalize_line_temporal_indices(&mut lines, &trips);

    assert_eq!(lines[0].binary_searchable_by_stop, vec![true, false]);
    assert!(!lines[0].chronos_bucket_start_indices_by_stop[0].is_empty());
    assert!(!lines[0].chronos_bucket_start_indices_by_stop[1].is_empty());
    assert_eq!(
        lines[0].trip_order_indirection_by_stop[0],
        Vec::<u32>::new()
    );
    assert_eq!(lines[0].trip_order_indirection_by_stop[1], vec![1u32, 0]);
}

#[test]
fn remote_static_gtfs_version_prefers_etag_when_present() {
    let cached = RemoteStaticGtfsVersionMetadata {
        url: "https://example.com/feed.zip".to_owned(),
        last_modified: Some("Sun, 06 Apr 2026 09:00:00 GMT".to_owned()),
        etag: Some("etag-v1".to_owned()),
    };
    let remote = RemoteStaticGtfsVersionMetadata {
        url: "https://example.com/feed.zip".to_owned(),
        last_modified: Some("Sun, 06 Apr 2026 10:00:00 GMT".to_owned()),
        etag: Some("etag-v1".to_owned()),
    };

    assert!(!remote_static_gtfs_version_changed(Some(&cached), &remote));
}

#[test]
fn remote_static_gtfs_version_falls_back_to_last_modified() {
    let cached = RemoteStaticGtfsVersionMetadata {
        url: "https://example.com/feed.zip".to_owned(),
        last_modified: Some("Sun, 06 Apr 2026 09:00:00 GMT".to_owned()),
        etag: None,
    };
    let remote = RemoteStaticGtfsVersionMetadata {
        url: "https://example.com/feed.zip".to_owned(),
        last_modified: Some("Sun, 06 Apr 2026 10:00:00 GMT".to_owned()),
        etag: None,
    };

    assert!(remote_static_gtfs_version_changed(Some(&cached), &remote));
}

#[test]
fn transfer_relax_index_tiles_edges_by_hub_pair() {
    let stops = vec![
        StopRecord {
            global_id: 1,
            feed_index: 0,
            feed_id: "feed".to_owned(),
            local_id: "a".to_owned(),
            id: "feed:a".to_owned(),
            code: None,
            name: "A".to_owned(),
            latitude: Some(number(41.9000)),
            longitude: Some(number(12.5000)),
            search_blob: String::new(),
        },
        StopRecord {
            global_id: 2,
            feed_index: 0,
            feed_id: "feed".to_owned(),
            local_id: "b".to_owned(),
            id: "feed:b".to_owned(),
            code: None,
            name: "B".to_owned(),
            latitude: Some(number(41.9001)),
            longitude: Some(number(12.5001)),
            search_blob: String::new(),
        },
        StopRecord {
            global_id: 3,
            feed_index: 0,
            feed_id: "feed".to_owned(),
            local_id: "c".to_owned(),
            id: "feed:c".to_owned(),
            code: None,
            name: "C".to_owned(),
            latitude: Some(number(41.9020)),
            longitude: Some(number(12.5020)),
            search_blob: String::new(),
        },
        StopRecord {
            global_id: 4,
            feed_index: 0,
            feed_id: "feed".to_owned(),
            local_id: "d".to_owned(),
            id: "feed:d".to_owned(),
            code: None,
            name: "D".to_owned(),
            latitude: Some(number(41.9021)),
            longitude: Some(number(12.5021)),
            search_blob: String::new(),
        },
    ];
    let transfers = vec![
        vec![WalkTransfer {
            to_stop: 2,
            duration_secs: 90,
            distance_meters: number(120.0),
            polyline: Vec::new(),
            segment_way_ids: Vec::new(),
        }],
        vec![WalkTransfer {
            to_stop: 3,
            duration_secs: 60,
            distance_meters: number(80.0),
            polyline: Vec::new(),
            segment_way_ids: Vec::new(),
        }],
        Vec::new(),
        Vec::new(),
    ];

    let index = build_transfer_relax_index(&hub_keys(&stops, 180.0), &transfers);

    assert_eq!(index.hubs.len(), 2);
    assert_eq!(index.stop_to_hub[0], index.stop_to_hub[1]);
    assert_eq!(index.stop_to_hub[2], index.stop_to_hub[3]);

    let source_hub = index.stop_to_hub[0];
    let tile = &index.hubs[source_hub].outgoing_tiles[0];
    assert_eq!(tile.target_stop_indices, vec![2, 3]);
    assert_eq!(tile.transfer_slots.len(), 4);
    assert_eq!(tile.transfer_slots[0], 0);
    assert_eq!(tile.transfer_slots[3], 0);
}

#[test]
fn svrt_scalar_mask_detects_when_catchup_is_possible() {
    let stop_indices = vec![1usize, 3, 5, 7];
    let mut best_before_round = vec![i32::MAX; 8];
    best_before_round[1] = 320;
    best_before_round[3] = 410;
    best_before_round[5] = 600;
    best_before_round[7] = 720;

    assert!(svrt_chunk_has_catchup_candidate_scalar(
        &stop_indices,
        &best_before_round,
        &[300, 420, 590, 700],
    ));
    assert!(!svrt_chunk_has_catchup_candidate_scalar(
        &stop_indices,
        &best_before_round,
        &[300, 400, 590, 700],
    ));
}

#[test]
fn shape_polyline_segment_prefers_shape_distances_when_present() {
    let stops = vec![test_stop(0, "a", 41.0, 12.0), test_stop(1, "b", 41.0, 12.2)];
    let trip = TripRecord {
        global_id: 1,
        feed_index: 0,
        feed_id: "feed".to_owned(),
        local_id: "trip-1".to_owned(),
        id: "feed:trip-1".to_owned(),
        route_index: 0,
        shape_id: Some("feed:shape-1".to_owned()),
        shape_stop_point_indices: None,
        headsign: None,
        stop_times: vec![
            TripStopRecord {
                stop_index: 0,
                arrival_secs: 0,
                departure_secs: 0,
                stop_sequence: 1,
                shape_dist_traveled: Some(short(10.0)),
            },
            TripStopRecord {
                stop_index: 1,
                arrival_secs: 60,
                departure_secs: 60,
                stop_sequence: 2,
                shape_dist_traveled: Some(short(20.0)),
            },
        ],
    };
    let shape = vec![
        ShapePoint {
            lat: number(40.0),
            lon: number(10.0),
            dist_traveled: Some(short(0.0)),
        },
        ShapePoint {
            lat: number(40.1),
            lon: number(10.1),
            dist_traveled: Some(short(10.0)),
        },
        ShapePoint {
            lat: number(40.2),
            lon: number(10.2),
            dist_traveled: Some(short(20.0)),
        },
        ShapePoint {
            lat: number(40.3),
            lon: number(10.3),
            dist_traveled: Some(short(30.0)),
        },
    ];

    let polyline = shape_polyline_segment(&shape, &stops, &trip, 0, 1).expect("shape polyline");

    assert_eq!(polyline.len(), 2);
    assert_eq!(value(polyline[0].lat), 40.1);
    assert_eq!(value(polyline[1].lat), 40.2);
}

#[test]
fn build_shape_stop_point_indices_projects_stops_in_order() {
    let stops = vec![
        test_stop(0, "a", 41.0000, 12.0000),
        test_stop(1, "b", 41.0000, 12.0101),
        test_stop(2, "c", 41.0101, 12.0201),
    ];
    let stop_times = vec![
        TripStopRecord {
            stop_index: 0,
            arrival_secs: 0,
            departure_secs: 0,
            stop_sequence: 1,
            shape_dist_traveled: None,
        },
        TripStopRecord {
            stop_index: 1,
            arrival_secs: 60,
            departure_secs: 60,
            stop_sequence: 2,
            shape_dist_traveled: None,
        },
        TripStopRecord {
            stop_index: 2,
            arrival_secs: 120,
            departure_secs: 120,
            stop_sequence: 3,
            shape_dist_traveled: None,
        },
    ];
    let shape = vec![
        ShapePoint {
            lat: number(41.0000),
            lon: number(12.0000),
            dist_traveled: None,
        },
        ShapePoint {
            lat: number(41.0000),
            lon: number(12.0050),
            dist_traveled: None,
        },
        ShapePoint {
            lat: number(41.0000),
            lon: number(12.0100),
            dist_traveled: None,
        },
        ShapePoint {
            lat: number(41.0050),
            lon: number(12.0150),
            dist_traveled: None,
        },
        ShapePoint {
            lat: number(41.0100),
            lon: number(12.0200),
            dist_traveled: None,
        },
    ];

    let indices =
        build_shape_stop_point_indices(shape.len(), &stop_distances(&shape, &stops, &stop_times)).expect("shape indices");

    assert_eq!(indices, vec![0, 2, 4]);
}

#[test]
fn shape_polyline_segment_projects_stops_when_shape_distances_are_missing() {
    let stops = vec![
        test_stop(0, "a", 41.0000, 12.0000),
        test_stop(1, "b", 41.0000, 12.0101),
        test_stop(2, "c", 41.0101, 12.0201),
    ];
    let trip = TripRecord {
        global_id: 1,
        feed_index: 0,
        feed_id: "feed".to_owned(),
        local_id: "trip-2".to_owned(),
        id: "feed:trip-2".to_owned(),
        route_index: 0,
        shape_id: Some("feed:shape-2".to_owned()),
        shape_stop_point_indices: Some(vec![0, 2, 4]),
        headsign: None,
        stop_times: vec![
            TripStopRecord {
                stop_index: 0,
                arrival_secs: 0,
                departure_secs: 0,
                stop_sequence: 1,
                shape_dist_traveled: None,
            },
            TripStopRecord {
                stop_index: 1,
                arrival_secs: 60,
                departure_secs: 60,
                stop_sequence: 2,
                shape_dist_traveled: None,
            },
            TripStopRecord {
                stop_index: 2,
                arrival_secs: 120,
                departure_secs: 120,
                stop_sequence: 3,
                shape_dist_traveled: None,
            },
        ],
    };
    let shape = vec![
        ShapePoint {
            lat: number(41.0000),
            lon: number(12.0000),
            dist_traveled: None,
        },
        ShapePoint {
            lat: number(41.0000),
            lon: number(12.0050),
            dist_traveled: None,
        },
        ShapePoint {
            lat: number(41.0000),
            lon: number(12.0100),
            dist_traveled: None,
        },
        ShapePoint {
            lat: number(41.0050),
            lon: number(12.0150),
            dist_traveled: None,
        },
        ShapePoint {
            lat: number(41.0100),
            lon: number(12.0200),
            dist_traveled: None,
        },
    ];

    let polyline = shape_polyline_segment(&shape, &stops, &trip, 0, 2).expect("shape polyline");

    assert!(polyline.len() >= 5);
    assert_eq!(value(polyline.first().unwrap().lat), 41.0000);
    assert!(polyline.iter().any(|point| value(point.lon) == 12.0050));
    assert!(polyline.iter().any(|point| value(point.lon) == 12.0150));
    assert_eq!(value(polyline.last().unwrap().lat), 41.0101);
}

#[test]
fn intermediate_trip_stop_times_return_only_stops_between_board_and_alight() {
    let trip = TripRecord {
        global_id: 1,
        feed_index: 0,
        feed_id: "feed".to_owned(),
        local_id: "trip-3".to_owned(),
        id: "feed:trip-3".to_owned(),
        route_index: 0,
        shape_id: None,
        shape_stop_point_indices: None,
        headsign: None,
        stop_times: vec![
            TripStopRecord {
                stop_index: 10,
                arrival_secs: 0,
                departure_secs: 0,
                stop_sequence: 1,
                shape_dist_traveled: None,
            },
            TripStopRecord {
                stop_index: 11,
                arrival_secs: 60,
                departure_secs: 60,
                stop_sequence: 2,
                shape_dist_traveled: None,
            },
            TripStopRecord {
                stop_index: 12,
                arrival_secs: 120,
                departure_secs: 120,
                stop_sequence: 3,
                shape_dist_traveled: None,
            },
            TripStopRecord {
                stop_index: 13,
                arrival_secs: 180,
                departure_secs: 180,
                stop_sequence: 4,
                shape_dist_traveled: None,
            },
        ],
    };

    let intermediate = intermediate_trip_stop_times(&trip, 0, 3)
        .iter()
        .map(|stop_time| stop_time.stop_index)
        .collect::<Vec<_>>();

    assert_eq!(intermediate, vec![11, 12]);
    assert!(intermediate_trip_stop_times(&trip, 1, 2).is_empty());
}

#[test]
fn stitch_walk_geometries_removes_intermediate_stop_spike() {
    let geometries = vec![
        WalkGeometry {
            polyline: vec![
                test_point(41.9000, 12.5000),
                test_point(41.9000, 12.5005),
                test_point(41.9000, 12.5010),
            ],
            segment_way_ids: vec![Some(10), None],
        },
        WalkGeometry {
            polyline: vec![
                test_point(41.9000, 12.5010),
                test_point(41.9000, 12.5005),
                test_point(41.9005, 12.5005),
            ],
            segment_way_ids: vec![None, Some(20)],
        },
    ];
    let stitched = stitch_walk_geometries(&geometries, &touching(&geometries));

    assert_eq!(stitched.polyline.len(), 3);
    assert_eq!(value(stitched.polyline[0].lon), 12.5000);
    assert_eq!(value(stitched.polyline[1].lon), 12.5005);
    assert_eq!(value(stitched.polyline[2].lat), 41.9005);
    assert_eq!(stitched.segment_way_ids, vec![Some(10), Some(20)]);
}

#[test]
fn build_walk_directions_emits_left_turn_for_named_road_change() {
    let mut way_names = HashMap::new();
    way_names.insert(10, "Via Lambrate".to_owned());
    way_names.insert(20, "Via D'Annunzio".to_owned());

    let geometry = WalkGeometry {
            polyline: vec![
                test_point(41.9000, 12.5000),
                test_point(41.9000, 12.5010),
                test_point(41.9010, 12.5010),
            ],
            segment_way_ids: vec![Some(10), Some(20)],
        };
    let directions = build_walk_directions(&geometry, &way_names, "Destinazione", &measures(&geometry.polyline));

    assert_eq!(directions.len(), 3);
    assert_eq!(directions[1].maneuver.as_str(), "turn-left");
    assert!(directions[1].instruction.contains("Via D'Annunzio"));
}

#[test]
fn build_walk_directions_ignores_same_name_way_splits() {
    let mut way_names = HashMap::new();
    way_names.insert(10, "Via Lambrate".to_owned());
    way_names.insert(11, "Via Lambrate".to_owned());

    let geometry = WalkGeometry {
            polyline: vec![
                test_point(41.9000, 12.5000),
                test_point(41.9000, 12.5010),
                test_point(41.9010, 12.5010),
            ],
            segment_way_ids: vec![Some(10), Some(11)],
        };
    let directions = build_walk_directions(&geometry, &way_names, "Destinazione", &measures(&geometry.polyline));

    assert_eq!(directions.len(), 2);
    assert_eq!(directions[0].maneuver.as_str(), "depart");
    assert_eq!(directions[1].maneuver.as_str(), "arrive");
}

#[test]
fn build_walk_directions_suppresses_tight_unnamed_micro_turns() {
    let geometry = WalkGeometry {
            polyline: vec![
                test_point(41.9395, 12.5283),
                test_point(41.9391, 12.5281),
                test_point(41.93887, 12.52788),
                test_point(41.93885, 12.52791),
                test_point(41.93884, 12.52792),
                test_point(41.93900, 12.52805),
            ],
            segment_way_ids: vec![Some(10), Some(11), Some(12), Some(13), Some(14)],
        };
    let directions = build_walk_directions(&geometry, &HashMap::new(), "Destinazione", &measures(&geometry.polyline));

    assert_eq!(directions.len(), 3);
    assert_eq!(directions[0].maneuver.as_str(), "depart");
    assert_eq!(directions[1].maneuver.as_str(), "turn-left");
    assert_eq!(directions[2].maneuver.as_str(), "arrive");
}

#[test]
fn build_road_directions_uses_driving_departure_copy() {
    let mut way_names = HashMap::new();
    way_names.insert(10, "Tangenziale Est".to_owned());

    let geometry = WalkGeometry {
            polyline: vec![
                test_point(41.9000, 12.5000),
                test_point(41.9000, 12.5010),
            ],
            segment_way_ids: vec![Some(10)],
        };
    let directions = build_road_directions(&geometry, &way_names, "", &measures(&geometry.polyline));

    assert_eq!(directions[0].maneuver.as_str(), "depart");
    assert!(directions[0].instruction.contains("Parti in auto"));
}

fn test_stop(global_id: u64, local_id: &str, latitude: f64, longitude: f64) -> StopRecord {
    StopRecord {
        global_id,
        feed_index: 0,
        feed_id: "feed".to_owned(),
        local_id: local_id.to_owned(),
        id: format!("feed:{local_id}"),
        code: None,
        name: local_id.to_owned(),
        latitude: Some(number(latitude)),
        longitude: Some(number(longitude)),
        search_blob: String::new(),
    }
}

fn test_point(lat: f64, lon: f64) -> PolylinePoint {
    PolylinePoint { lat: number(lat), lon: number(lon) }
}
