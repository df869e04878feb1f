use alpha_raptor::cold_storage::{
    build_store, byte_range, cold_route, cold_stop, cold_store_paths, cold_trip, is_current, ByteRange, ColdError, ColdRouteRecord, ColdStopRecord, ColdStore,
    ColdTripRecord, HydraIndexHeader, Stored,
};
use alpha_raptor::model::{RouteRecord, ShapePoint, StopRecord, TripRecord, TripStopRecord};
use alpha_raptor::number::{Real, ShortReal};

fn number(value: f64) -> Real {
    Real { bits: value.to_bits() }
}

fn short(value: f32) -> ShortReal {
    ShortReal { bits: value.to_bits() }
}

// Records are written as bincode writes the fields that the assertions read.
fn stop_bytes(record: &ColdStopRecord) -> Vec<u8> {
    bincode::serialize(&(record.global_id, record.id.clone(), record.name.clone())).unwrap()
}

fn route_bytes(record: &ColdRouteRecord) -> Vec<u8> {
    bincode::serialize(&(record.global_id, record.id.clone(), record.route_type.clone())).unwrap()
}

fn trip_bytes(record: &ColdTripRecord) -> Vec<u8> {
    bincode::serialize(&(record.global_id, record.id.clone(), record.headsign.clone())).unwrap()
}

fn shape_bytes(points: &[ShapePoint]) -> Vec<u8> {
    bincode::serialize(&points.iter().map(|point| (point.lat.bits, point.lon.bits)).collect::<Vec<_>>()).unwrap()
}

fn read<'a, T>(stored: Result<Stored<T>, ColdError>, data: &'a [u8]) -> &'a [u8] {
    match stored {
        Ok(Stored::Payload(range)) => &data[range.start..range.end],
        _ => panic!("nothing in the payloads"),
    }
}

#[test]
fn hydra_slab_round_trips_direct_and_shape_records() {
    let paths = cold_store_paths("/tmp/alpha-raptor-hydra-slab", "alpha-raptor.static.v3", 42);
    assert_eq!(paths.data_path, "/tmp/alpha-raptor-hydra-slab/alpha-raptor.static.v3.000000000000002a.hydra.data.bin");
    assert_eq!(paths.index_path, "/tmp/alpha-raptor-hydra-slab/alpha-raptor.static.v3.000000000000002a.hydra.index.bin");

    let stops = vec![
        StopRecord {
            global_id: 11,
            feed_index: 0,
            feed_id: "roma".to_owned(),
            local_id: "s0".to_owned(),
            id: "roma:s0".to_owned(),
            code: Some("001".to_owned()),
            name: "Alpha".to_owned(),
            latitude: Some(number(41.0)),
            longitude: Some(number(12.0)),
            search_blob: "roma:s0 001 alpha".to_owned(),
        },
        StopRecord {
            global_id: 12,
            feed_index: 0,
            feed_id: "roma".to_owned(),
            local_id: "s1".to_owned(),
            id: "roma:s1".to_owned(),
            code: Some("002".to_owned()),
            name: "Beta".to_owned(),
            latitude: Some(number(41.1)),
            longitude: Some(number(12.1)),
            search_blob: "roma:s1 002 beta".to_owned(),
        },
    ];

    let routes = vec![RouteRecord {
        global_id: 21,
        feed_index: 0,
        feed_id: "roma".to_owned(),
        local_id: "r0".to_owned(),
        id: "roma:r0".to_owned(),
        short_name: Some("M1".to_owned()),
        long_name: Some("Metro 1".to_owned()),
        route_type: "Subway".to_owned(),
        color: Some("#FF0000".to_owned()),
        text_color: Some("#FFFFFF".to_owned()),
    }];

    let trips = vec![TripRecord {
        global_id: 31,
        feed_index: 0,
        feed_id: "roma".to_owned(),
        local_id: "t0".to_owned(),
        id: "roma:t0".to_owned(),
        route_index: 0,
        shape_id: Some("roma:shape-0".to_owned()),
        shape_stop_point_indices: None,
        headsign: Some("Laurentina".to_owned()),
        stop_times: vec![
            TripStopRecord { stop_index: 0, arrival_secs: 0, departure_secs: 0, stop_sequence: 1, shape_dist_traveled: Some(short(0.0)) },
            TripStopRecord { stop_index: 1, arrival_secs: 120, departure_secs: 120, stop_sequence: 2, shape_dist_traveled: Some(short(100.0)) },
        ],
    }];

    let shape = vec![
        ShapePoint { lat: number(41.0), lon: number(12.0), dist_traveled: Some(short(0.0)) },
        ShapePoint { lat: number(41.1), lon: number(12.1), dist_traveled: Some(short(100.0)) },
    ];

    let built = build_store(
        42,
        &stops.iter().map(|stop| stop_bytes(&cold_stop(stop))).collect(),
        &routes.iter().map(|route| route_bytes(&cold_route(route))).collect(),
        &trips.iter().map(|trip| trip_bytes(&cold_trip(trip))).collect(),
        &vec!["roma:shape-0".to_owned()],
        &vec![shape_bytes(&shape)],
    )
    .unwrap();
    assert!(is_current(&built.index, 42));
    assert!(!is_current(&built.index, 43));
    let data = built.data;
    let mut store = ColdStore::open(built.index, data.len()).unwrap();

    let stop: (u64, String, String) = bincode::deserialize(read(store.stop(0), &data)).unwrap();
    assert_eq!(stop.2, "Alpha");
    let route: (u64, String, String) = bincode::deserialize(read(store.route(0), &data)).unwrap();
    assert_eq!(route.2, "Subway");
    let trip: (u64, String, Option<String>) = bincode::deserialize(read(store.trip(0), &data)).unwrap();
    assert_eq!(trip.1, "roma:t0");
    assert_eq!(trip.2, Some("Laurentina".to_owned()));
    let points: Vec<(u64, u64)> = bincode::deserialize(read(store.shape_points("roma:shape-0").map(|found| found.unwrap()), &data)).unwrap();
    assert_eq!(points.len(), 2);
    assert!(store.shape_points("roma:missing").unwrap().is_none());

    store.overlay_stop(
        0,
        ColdStopRecord {
            global_id: 11,
            feed_id: "roma".to_owned(),
            local_id: "s0".to_owned(),
            id: "roma:s0".to_owned(),
            code: Some("001".to_owned()),
            name: "Alpha overlay".to_owned(),
            latitude: Some(number(41.0)),
            longitude: Some(number(12.0)),
        },
    );
    match store.stop(0) {
        Ok(Stored::Overlay(record)) => assert_eq!(record.name, "Alpha overlay"),
        _ => panic!("the overlay is not seen"),
    }
    store.clear_overlays();
    assert!(matches!(store.stop(0), Ok(Stored::Payload(_))));
    assert_eq!(store.stop(2).err(), Some(ColdError::SlotOutOfRange));
}

#[test]
fn headers_tell_what_is_wrong_with_them() {
    let built = build_store(7, &vec![vec![1, 2]], &vec![], &vec![], &vec!["b".to_owned(), "a".to_owned()], &vec![vec![9], vec![8, 8]]).unwrap();
    assert_eq!(built.data, vec![1, 2, 8, 8, 9]);
    let header = HydraIndexHeader::decode(&built.index).unwrap();
    assert_eq!(HydraIndexHeader::decode(&header.encode()), Ok(header));
    assert_eq!(header.validate(built.index.len()), Ok(()));
    assert_eq!(header.validate(90), Err(ColdError::BeyondIndex));
    assert_eq!(HydraIndexHeader::decode(&[0; 10]), Err(ColdError::ShortIndex));
    assert_eq!(HydraIndexHeader::decode(&[0; 100]), Err(ColdError::BadMagic));
    let mut broken = built.index.clone();
    for byte in &mut broken[100..108] {
        *byte = 255;
    }
    assert_eq!(ColdStore::open(broken, 5).err(), Some(ColdError::BadDirectory));
    let store = ColdStore::open(built.index, 5).unwrap();
    match store.shape_points("a") {
        Ok(Some(Stored::Payload(range))) => assert_eq!((range.start, range.end), (2, 4)),
        _ => panic!("the shape is not found"),
    }
    let cut = ColdStore::open(store_bytes(7), 1).unwrap();
    assert_eq!(cut.stop(0).err(), Some(ColdError::BeyondEnd));
}

fn store_bytes(token: u64) -> Vec<u8> {
    build_store(token, &vec![vec![1, 2]], &vec![], &vec![], &vec![], &vec![]).unwrap().index
}

#[test]
fn ranges_stay_within_the_bytes() {
    assert!(matches!(byte_range(2, 3, 5), Ok(ByteRange { start: 2, end: 5 })));
    assert_eq!(byte_range(2, 4, 5).err(), Some(ColdError::BeyondEnd));
    assert_eq!(byte_range(u64::MAX, 1, 5).err(), Some(ColdError::RangeOverflow));
}
