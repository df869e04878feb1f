use std::io::Write;

use alpha_raptor::clock::{format_clock, format_service_time, parse_clock_time, parse_service_date};
use alpha_raptor::config::{
    choose_settings, config_source, is_yes, legacy_manifest, ConfigError, ConfigSource, EngineConfig, LegacyEnvironment, OsmDiffConfig, RawEngineManifest, RawFeedConfig, RawSettings,
};
use alpha_raptor::control::{choose_internal_token, internal_token_for_url, matches_internal_token, should_attach_internal_token, TokenError};
use alpha_raptor::descriptor::{descriptor_feeds, DescriptorError, RoutingDescriptor, RoutingRealtimeFeedDescriptor, RoutingStaticFeedDescriptor};
use alpha_raptor::feed_graph::{validate_feed_dependencies, validate_feed_id, FeedError};
use alpha_raptor::ids::{hash_local_ordinal, namespaced_id, pack_global_id, EntityKind, IdError, ENTITY_ORDINAL_MASK};
use alpha_raptor::itinerary::{build_itinerary_badges, build_itinerary_label, passive_occupancy_score};
use alpha_raptor::live::{
    detect_boarding_and_stops, diff_itineraries, has_boarded, next_transit_leg, stop_update, Detection, LiveLeg, SeenVehicle, Subscriptions,
};
use alpha_raptor::model::PolylinePoint;
use alpha_raptor::number::Real;
use alpha_raptor::progress::{progress_bar, progress_bar_u64, progress_percent, progress_percent_u64};
use alpha_raptor::query_input::{validate_query_latitude, validate_query_longitude};
use alpha_raptor::sources::{
    directory_of_file, is_remote_source, prepare_source, remote_osm_pbf_file_name, remote_static_gtfs_file_name, resolve_path_from, Artifact, RemoteStaticGtfsVersionMetadata, RemoteSync,
    StaticGtfsRefreshMode, SyncAction, SyncEvent,
};
use alpha_raptor::street_diff::{
    maybe_decompress_osc, normalize_diff_base_url, parse_remote_state_file, plan_poll, progress_after_mismatch, progress_after_poll, resolved_diff_base_url,
    sequence_diff_url, OscElement, OscEvent, OscReader, OverlayProgress, PollPlan, RemoteStateFile, StreetOverlayDraft,
};
use alpha_raptor::street_tags::{
    is_driveable_tags, is_walkable_tags, read_osm_speed, way_direction, way_name, StreetMode, Tags, TravelDirection,
};
use alpha_raptor::trace::{connector_strategy, RaptorRoundTimingBreakdownUs};

fn number(value: f64) -> Real {
    Real { bits: value.to_bits() }
}

fn text(value: &str) -> Option<String> {
    Some(value.to_owned())
}

#[test]
fn progress_is_shown_as_a_bar_and_in_percent() {
    assert_eq!(progress_bar(0, 5), "[------------------]");
    assert_eq!(progress_bar(1, 5), "[####--------------]");
    assert_eq!(progress_bar(5, 5), "[##################]");
    assert_eq!(progress_bar_u64(9, 0), "[##################]");
    assert_eq!(progress_percent(1, 3), 33);
    assert_eq!(progress_percent(2, 3), 67);
    assert_eq!(progress_percent_u64(u64::MAX - 1, u64::MAX), 100);
    assert_eq!(progress_percent_u64(0, 0), 0);
}

#[test]
fn progress_is_that_of_floating_point() {
    let percent = |completed: u64, total: u64| ((completed.min(total.max(1)) as f64 / total.max(1) as f64) * 100.0).round() as u8;
    let filled = |completed: u64, total: u64| ((completed.min(total.max(1)) as f64 / total.max(1) as f64) * 18.0).round() as usize;
    let mut state: u64 = 88_172_645_463_325_252;
    for round in 0..4000u64 {
        state ^= state << 13;
        state ^= state >> 7;
        state ^= state << 17;
        let total = if round % 2 == 0 { state % 400 } else { state };
        let completed = if round % 3 == 0 { state / 2 } else { state.rotate_left(17) % (total.max(1) + (total < u64::MAX) as u64) };
        assert_eq!(progress_percent_u64(completed, total), percent(completed, total), "{completed} of {total}");
        assert_eq!(progress_bar_u64(completed, total).matches('#').count(), filled(completed, total), "{completed} of {total}");
    }
    assert_eq!(progress_percent_u64(57, 200), percent(57, 200));
}

#[test]
fn times_and_dates_are_read_and_written() {
    assert_eq!(parse_clock_time("09:05"), Some(32_700));
    assert_eq!(parse_clock_time("09:05:07"), Some(32_707));
    assert_eq!(parse_clock_time("25:00"), None);
    let day = parse_service_date("2026-04-19").unwrap();
    assert_eq!(parse_service_date("2026-04-20"), Some(day + 1));
    assert_eq!(parse_service_date("19/04/2026"), None);
    assert_eq!(format_service_time(day, 32_700), text("2026-04-19 09:05:00"));
    assert_eq!(format_service_time(day, 90_061), text("2026-04-20 01:01:01"));
    assert_eq!(format_service_time(day, -1), text("2026-04-18 23:59:59"));
    assert_eq!(format_service_time(i32::MAX, 0), None);
    assert_eq!(format_clock(3_661), "01:01:01");
}

fn feed(id: &str, depends_on: &[&str]) -> RawFeedConfig {
    RawFeedConfig {
        id: id.to_owned(),
        static_gtfs: format!("data/{id}.zip"),
        static_gtfs_allow_invalid_tls: false,
        trip_updates_url: None,
        vehicle_positions_url: None,
        depends_on: depends_on.iter().map(|name| name.to_string()).collect(),
    }
}

fn no_settings() -> RawSettings {
    RawSettings {
        walk_radius_meters: None,
        walk_speed_mps: None,
        max_transfer_candidates: None,
        refresh_interval_secs: None,
        static_reload_interval_secs: None,
        static_diff_tolerance: None,
        default_max_transfers: None,
        dvni_knn_candidates: None,
        dvni_max_walk_radius_meters: None,
        hpf_max_distance_meters: None,
        hpf_snap_tolerance_meters: None,
        hpf_snap_quadratic_kappa_meters: None,
        hpf_search_window: None,
        hpf_defer_rebuild_on_bootstrap: None,
    }
}

fn manifest(feeds: Vec<RawFeedConfig>) -> RawEngineManifest {
    RawEngineManifest { osm_pbf: None, osm_pbf_allow_invalid_tls: None, settings: no_settings(), osm_diff: None, feeds }
}

fn configure(feeds: Vec<RawFeedConfig>) -> Result<EngineConfig, ConfigError> {
    EngineConfig::from_manifest("/work", "/work/alpha-raptor.toml", "/work/conf/alpha-raptor.toml", &manifest(feeds))
}

#[test]
fn manifests_are_checked() {
    let config = configure(vec![feed("roma", &[]), feed("cotral", &["roma"])]).unwrap();
    assert_eq!(config.feeds.len(), 2);
    assert_eq!(config.feeds[1].feed_index, 1);
    assert_eq!(config.static_sources_display().contains("data/cotral.zip"), true);
    assert_eq!(config.feeds[1].static_gtfs_path, "/work/conf/data/cotral.zip");
    assert_eq!(config.feeds[1].static_gtfs_source, "data/cotral.zip");
    assert!(!config.feeds[1].static_gtfs_allow_invalid_tls);
    assert_eq!(config.osm.source, "/work/data/osm/lazio-latest.osm.pbf");
    assert!(!config.osm.allow_invalid_tls);
    let mut own = manifest(vec![RawFeedConfig { static_gtfs_allow_invalid_tls: true, ..feed("roma", &[]) }]);
    own.osm_pbf = text("https://maps.example/centro.osm.pbf");
    own.osm_pbf_allow_invalid_tls = Some(true);
    let config = EngineConfig::from_manifest("/work", "own.toml", "own.toml", &own).unwrap();
    assert_eq!(config.osm.local_path, "/work/.alpha-raptor/osm/centro.osm.pbf");
    assert_eq!(config.osm.remote_url.as_deref(), Some("https://maps.example/centro.osm.pbf"));
    assert!(config.osm.allow_invalid_tls && config.feeds[0].static_gtfs_allow_invalid_tls);
    assert_eq!(config.feeds[0].static_gtfs_path, "data/roma.zip");
    assert!(matches!(configure(Vec::new()), Err(ConfigError::NoFeeds)));
    assert!(matches!(configure(vec![feed("a", &[]), feed("a", &[])]), Err(ConfigError::DuplicateFeed { .. })));
    assert!(matches!(configure(vec![feed("a:b", &[])]), Err(ConfigError::Feed(FeedError::ReservedCharacter { .. }))));
    assert!(matches!(configure(vec![feed("a", &["b"])]), Err(ConfigError::Feed(FeedError::UnknownDependency { .. }))));
    assert!(matches!(configure(vec![feed("a", &["b"]), feed("b", &["a"])]), Err(ConfigError::Feed(FeedError::Cycle { .. }))));
    assert!(matches!(validate_feed_id(" "), Err(FeedError::EmptyId)));
    assert!(validate_feed_dependencies(&config.feeds).is_ok());
}

#[test]
fn settings_have_defaults_and_ranges() {
    let settings = choose_settings(no_settings());
    assert_eq!(settings.walk_radius_meters, number(450.0));
    assert_eq!(settings.walk_speed_mps, number(1.35));
    assert_eq!(settings.max_transfer_candidates, 12);
    assert_eq!(settings.refresh_interval_secs, 45);
    assert_eq!(settings.static_reload_interval_secs, 600);
    assert_eq!(settings.static_diff_tolerance, number(0.05));
    assert_eq!(settings.default_max_transfers, 4);
    assert_eq!(settings.dvni_knn_candidates, 5);
    assert_eq!(settings.dvni_max_walk_radius_meters, number(1500.0));
    assert_eq!(settings.hpf_max_distance_meters, number(4000.0));
    assert_eq!(settings.hpf_snap_tolerance_meters, number(140.0));
    assert_eq!(settings.hpf_snap_quadratic_kappa_meters, number(40.0));
    assert_eq!(settings.hpf_search_window, 512);
    let mut raw = no_settings();
    raw.dvni_knn_candidates = Some(40);
    raw.dvni_max_walk_radius_meters = Some(number(1.0));
    raw.hpf_max_distance_meters = Some(number(90_000.0));
    raw.hpf_search_window = Some(1);
    let clamped = choose_settings(raw);
    assert_eq!(clamped.dvni_knn_candidates, 16);
    assert_eq!(clamped.dvni_max_walk_radius_meters, number(50.0));
    assert_eq!(clamped.hpf_max_distance_meters, number(20_000.0));
    assert_eq!(clamped.hpf_search_window, 64);
}

#[test]
fn the_environment_stands_in_for_a_manifest() {
    let env = LegacyEnvironment {
        default_feed_id: text("milano"),
        static_gtfs: text("https://example.com/milano.zip"),
        static_gtfs_allow_invalid_tls: text("Yes"),
        osm_pbf: None,
        osm_pbf_allow_invalid_tls: None,
        trip_updates_url: None,
        vehicle_positions_url: None,
        walk_radius_meters: None,
        walk_speed_mps: None,
        max_walk_neighbors: text("7"),
        rt_refresh_secs: text("30"),
        static_poll_secs: text("soon"),
        static_diff_tolerance: None,
        max_transfers: text("2"),
        dvni_knn: None,
        dvni_max_walk_radius_meters: None,
        hpf_max_distance_meters: None,
        hpf_snap_tolerance_meters: None,
        hpf_snap_quadratic_kappa_meters: None,
        hpf_search_window: None,
        hpf_defer_rebuild_on_bootstrap: None,
        osm_diff_state_url: text("https://download.geofabrik.de/europe/italy-updates/state.txt"),
        osm_diff_base_url: None,
        osm_diff_poll_secs: None,
        osm_diff_allow_invalid_tls: None,
    };
    let manifest = legacy_manifest(&env);
    assert_eq!(manifest.feeds[0].id, "milano");
    assert!(manifest.feeds[0].static_gtfs_allow_invalid_tls);
    let config = EngineConfig::from_legacy_env("/work", &env).unwrap();
    assert_eq!(config.feeds.len(), 1);
    assert!(config.feeds[0].static_gtfs_allow_invalid_tls);
    assert!(!config.osm.allow_invalid_tls);
    assert_eq!(config.feeds[0].static_gtfs_path, "/work/.alpha-raptor/static-feeds/milano.static.gtfs.zip");
    assert_eq!(config.feeds[0].static_gtfs_remote_url.as_deref(), Some("https://example.com/milano.zip"));
    assert_eq!(config.osm.local_path, "/work/data/osm/lazio-latest.osm.pbf");
    assert_eq!(config.osm.remote_url, None);
    let elsewhere = EngineConfig::from_legacy_env("http://work", &env).unwrap();
    assert_eq!(elsewhere.osm.source, "http://work/data/osm/lazio-latest.osm.pbf");
    assert_eq!(elsewhere.osm.remote_url, None);
    let given = EngineConfig::from_legacy_env("/work", &LegacyEnvironment { osm_pbf: text("maps/milano.osm.pbf"), ..env.clone() }).unwrap();
    assert_eq!(given.osm.local_path, "/work/maps/milano.osm.pbf");
    assert!(!config.osm_diff.as_ref().unwrap().allow_invalid_tls);
    assert_eq!(config.settings.max_transfer_candidates, 7);
    assert_eq!(config.settings.refresh_interval_secs, 30);
    assert_eq!(config.settings.static_reload_interval_secs, 600);
    assert_eq!(config.settings.default_max_transfers, 2);
    assert_eq!(config.osm_diff.unwrap().poll_interval_secs, 1800);
    for yes in ["1", "true", "YES", "on"] {
        assert!(is_yes(yes));
    }
    assert!(!is_yes("0"));
}

#[test]
fn sources_are_told_apart() {
    assert!(is_remote_source("https://example.com/feed.zip"));
    assert!(is_remote_source("http://example.com/feed.zip"));
    assert!(!is_remote_source("data/feed.zip"));
    assert_eq!(remote_static_gtfs_file_name("roma"), "roma.static.gtfs.zip");
    assert_eq!(remote_osm_pbf_file_name("https://example.com/a.osm.pbf"), remote_osm_pbf_file_name("https://example.com/a.osm.pbf"));
    assert_ne!(remote_osm_pbf_file_name("https://example.com/a.osm.pbf"), remote_osm_pbf_file_name("https://example.com/b.osm.pbf"));
}

fn version(etag: &str) -> RemoteStaticGtfsVersionMetadata {
    RemoteStaticGtfsVersionMetadata { url: "https://example.com/feed.zip".to_owned(), last_modified: None, etag: text(etag) }
}

#[test]
fn remote_files_are_fetched_when_they_change() {
    let url = "https://example.com/feed.zip";
    let mut start = RemoteSync::new(url, StaticGtfsRefreshMode::Bootstrap, Artifact::Timetable, Some(version("v1")));
    assert!(matches!(start.step(SyncEvent::Begun { cache_exists: true }), SyncAction::Probe));
    assert!(matches!(start.step(SyncEvent::Probed(Some(version("v2")))), SyncAction::KeepCached));

    let mut same = RemoteSync::new(url, StaticGtfsRefreshMode::Poll, Artifact::Timetable, Some(version("v1")));
    assert!(matches!(same.step(SyncEvent::Begun { cache_exists: true }), SyncAction::Probe));
    assert!(matches!(same.step(SyncEvent::Probed(Some(version("v1")))), SyncAction::KeepCached));

    let mut changed = RemoteSync::new(url, StaticGtfsRefreshMode::Poll, Artifact::Timetable, Some(version("v1")));
    assert!(matches!(changed.step(SyncEvent::Begun { cache_exists: true }), SyncAction::Probe));
    assert!(matches!(changed.step(SyncEvent::Probed(Some(version("v2")))), SyncAction::Download));
    assert!(matches!(changed.step(SyncEvent::Answered { version: Some(version("v2")), cache_exists: true }), SyncAction::Receive));
    match changed.step(SyncEvent::Received { complete: true, same_as_cached: false, cache_exists: true }) {
        SyncAction::Replace(stored) => assert_eq!(stored.etag, text("v2")),
        _ => panic!("the file is new"),
    }

    let mut missing = RemoteSync::new(url, StaticGtfsRefreshMode::Bootstrap, Artifact::Timetable, None);
    assert!(matches!(missing.step(SyncEvent::Begun { cache_exists: false }), SyncAction::Download));
    assert!(matches!(missing.step(SyncEvent::Answered { version: None, cache_exists: false }), SyncAction::Fail));
}

#[test]
fn tokens_go_to_where_the_descriptor_came_from() {
    let descriptor = text("https://control.example.com/v1/routing");
    assert_eq!(should_attach_internal_token(&descriptor, "https://control.example.com/other"), Ok(true));
    assert_eq!(should_attach_internal_token(&descriptor, "https://control.example.com:8443/other"), Ok(false));
    assert_eq!(should_attach_internal_token(&descriptor, "https://example.com/feed.zip"), Ok(false));
    assert_eq!(should_attach_internal_token(&None, "https://example.com/feed.zip"), Ok(false));
    assert_eq!(should_attach_internal_token(&text("nonsense"), "https://example.com/"), Err(TokenError::InvalidDescriptorUrl));
    assert_eq!(should_attach_internal_token(&descriptor, "nonsense"), Err(TokenError::InvalidUrl));
    assert_eq!(internal_token_for_url(&descriptor, text("word"), "https://control.example.com/x"), Ok(text("word")));
    assert_eq!(internal_token_for_url(&descriptor, None, "https://control.example.com/x"), Err(TokenError::MissingToken));
    assert_eq!(choose_internal_token(&text("  "), &text(" file \n")), text("file"));
    assert!(matches_internal_token(Some("word"), &text("word")));
    assert!(!matches_internal_token(Some("other"), &text("word")));
    assert!(!matches_internal_token(None, &text("word")));
}

#[test]
fn descriptors_list_feeds() {
    let descriptor = RoutingDescriptor {
        static_feeds: vec![RoutingStaticFeedDescriptor { id: None, namespace: text("roma"), feed_id: None, url: "https://example.com/roma.zip".to_owned() }],
        realtime_feeds: vec![RoutingRealtimeFeedDescriptor {
            namespace: text("roma"),
            feed_id: None,
            trip_updates_url: text("https://example.com/trips.pb"),
            vehicle_positions_url: None,
        }],
    };
    let feeds = descriptor_feeds(&descriptor, &Vec::new()).unwrap();
    assert_eq!(feeds[0].id, "roma");
    assert_eq!(feeds[0].trip_updates_url, text("https://example.com/trips.pb"));
    let none = RoutingDescriptor { static_feeds: Vec::new(), realtime_feeds: Vec::new() };
    assert_eq!(descriptor_feeds(&none, &Vec::new()).err(), Some(DescriptorError::NoFeeds));
    let nameless = RoutingDescriptor {
        static_feeds: vec![RoutingStaticFeedDescriptor { id: None, namespace: None, feed_id: text(" "), url: String::new() }],
        realtime_feeds: Vec::new(),
    };
    assert_eq!(descriptor_feeds(&nameless, &Vec::new()).err(), Some(DescriptorError::MissingKey));
}

#[test]
fn numbers_are_packed() {
    let id = pack_global_id(3, EntityKind::Stop, 5).unwrap();
    assert_eq!(id & ENTITY_ORDINAL_MASK, 5);
    assert_ne!(id, pack_global_id(3, EntityKind::Trip, 5).unwrap());
    assert_eq!(pack_global_id(3, EntityKind::Stop, u64::MAX).err(), Some(IdError::OrdinalTooLarge(u64::MAX)));
    assert_ne!(hash_local_ordinal("70378", 0), hash_local_ordinal("70378", 1));
    assert_eq!(namespaced_id("roma", "70378"), "roma:70378");
}

fn leg(trip: &str, to: &str, arrival: &str) -> LiveLeg {
    LiveLeg {
        is_transit: true,
        trip_id: text(trip),
        route_label: text("64"),
        headsign: text("Termini"),
        to_stop_id: to.to_owned(),
        to_stop_name: to.to_uppercase(),
        intermediate_stop_count: 3,
        departure_time: "2026-04-19 09:00:00".to_owned(),
        arrival_time: arrival.to_owned(),
        has_realtime_update: false,
    }
}

#[test]
fn travellers_are_told_what_has_changed() {
    let old = vec![leg("t1", "a", "09:10"), leg("t2", "b", "09:30")];
    assert!(diff_itineraries(&old, &old).is_empty());
    let new = vec![leg("t1", "c", "09:15"), leg("t3", "b", "09:40")];
    let events = diff_itineraries(&old, &new);
    assert_eq!(events.iter().map(|event| event.kind.as_str()).collect::<Vec<_>>(), vec!["EARLY_ALIGHT", "DELAY_WARNING", "TRIP_CANCELED", "ROUTE_ALTERNATIVE"]);
    assert_eq!(events[0].message, "Attenzione: scendi a C anziché a A per non perdere le coincidenze.");
    assert_eq!(events[0].stops_remaining, Some(3));
    assert_eq!(events[1].message, "Il bus 64 arriverà a C alle 09:15 anziché alle 09:10.");
    assert_eq!(events[2].leg_index, Some(1));
    assert_eq!(events[3].message, "Prendi il 64 in direzione Termini.");
}

#[test]
fn boarding_is_detected() {
    let mut walk = leg("", "a", "08:59");
    walk.is_transit = false;
    let legs = vec![walk, leg("t1", "a", "09:10")];
    assert_eq!(next_transit_leg(&legs, 0), Some(1));
    assert_eq!(next_transit_leg(&legs, 2), None);
    let near = vec![SeenVehicle { trip_id: text("roma:t1"), distance: Some(number(79.5)) }];
    let far = vec![SeenVehicle { trip_id: text("t1"), distance: Some(number(80.0)) }];
    assert!(has_boarded(&legs[1], None, &near, 0));
    assert!(!has_boarded(&legs[1], None, &far, 0));
    let nine: i64 = 1_776_589_200_000;
    assert_eq!(detect_boarding_and_stops(&legs, 0, &far, nine - 1, &Vec::new()), Detection::Nothing);
    assert_eq!(detect_boarding_and_stops(&legs, 0, &far, nine, &Vec::new()), Detection::Boarded { leg_index: 1 });
    let mut reported = legs.clone();
    reported[1].has_realtime_update = true;
    let distances = vec![number(300.0), number(20.0), number(500.0)];
    assert_eq!(detect_boarding_and_stops(&reported, 1, &far, nine, &distances), Detection::AtStop { nearest: 1, stops_remaining: 1 });
    assert_eq!(stop_update(&Vec::new()), None);
}

#[test]
fn listeners_come_and_go() {
    let mut subscriptions = Subscriptions::new();
    subscriptions.subscribe(&vec![4, 9], 1);
    subscriptions.subscribe(&vec![9], 2);
    assert_eq!(subscriptions.listeners(9), vec![1, 2]);
    subscriptions.unsubscribe(&vec![4, 9], 1);
    assert_eq!(subscriptions.listeners(9), vec![2]);
    assert!(subscriptions.listeners(4).is_empty());
    assert!(subscriptions.listeners(77).is_empty());
}

#[test]
fn tags_tell_who_may_use_a_way() {
    let tags = |pairs: &[(&str, &str)]| {
        let mut tags = Tags::new();
        for (key, value) in pairs {
            tags.insert(key.to_string(), value.to_string());
        }
        tags
    };
    assert!(is_walkable_tags(&tags(&[("highway", "footway")])));
    assert!(!is_walkable_tags(&tags(&[("highway", "motorway")])));
    assert!(!is_walkable_tags(&tags(&[("building", "yes")])));
    assert!(is_driveable_tags(&tags(&[("highway", "residential")])));
    assert!(!is_driveable_tags(&tags(&[("highway", "footway")])));
    assert_eq!(way_direction(StreetMode::Drive, &tags(&[("highway", "residential"), ("oneway", "yes")])), TravelDirection::ForwardOnly);
    assert_eq!(way_direction(StreetMode::Drive, &tags(&[("highway", "residential"), ("oneway", "-1")])), TravelDirection::ReverseOnly);
    assert_eq!(way_direction(StreetMode::Walk, &tags(&[("highway", "residential"), ("oneway", "yes")])), TravelDirection::Both);
    assert_eq!(way_name(&tags(&[("name", "Via Appia")])), text("Via Appia"));
    let speed = read_osm_speed("30 MPH;50").unwrap();
    assert_eq!((speed.number.as_str(), speed.in_mph), ("30", true));
    assert!(read_osm_speed("IT:urban").is_none());
    assert_eq!(StreetMode::parse(None), Ok(StreetMode::Drive));
    assert_eq!(StreetMode::parse(Some(" Foot ")), Ok(StreetMode::Walk));
    assert!(StreetMode::parse(Some("boat")).is_err());
    assert_eq!(StreetMode::Walk.as_str(), "walk");
}

#[test]
fn changes_of_the_map_are_found() {
    let config = OsmDiffConfig {
        state_url: "https://download.geofabrik.de/europe/italy/centro-updates/state.txt".to_owned(),
        diff_base_url: None,
        poll_interval_secs: 1800,
        allow_invalid_tls: false,
    };
    assert_eq!(resolved_diff_base_url(&config), "https://download.geofabrik.de/europe/italy/centro-updates/");
    assert_eq!(normalize_diff_base_url(" https://example.com//updates/state.txt"), "https://example.com/updates/");
    assert_eq!(sequence_diff_url("https://example.com/updates", 4_567_890), "https://example.com/updates/004/567/890.osc.gz");
    let state = parse_remote_state_file("#comment\nsequenceNumber=4123\ntimestamp=2026-04-18T20\\:21\\:00Z\n").unwrap();
    assert_eq!(state.sequence_number, 4123);
    assert_eq!(state.timestamp, text("2026-04-18T20:21:00Z"));
    assert!(parse_remote_state_file("timestamp=never").is_none());
    assert!(matches!(plan_poll(Some(10), None, 12), PollPlan::Apply { first: 11, last: 12 }));
    assert!(matches!(plan_poll(None, Some(12), 12), PollPlan::UpToDate { applied: 12 }));
    assert!(matches!(plan_poll(None, None, 12), PollPlan::UpToDate { applied: 12 }));
}

#[test]
fn progress_of_changes_is_noted() {
    let none = OverlayProgress { applied_sequence: None, applied_timestamp: None, last_poll_timestamp: None, last_error: None };
    let remote = RemoteStateFile { sequence_number: 12, timestamp: text("today") };
    let (first, keep) = progress_after_poll(&none, plan_poll(None, None, 12), &remote, "now");
    assert_eq!((first.applied_sequence, first.applied_timestamp.clone(), keep), (Some(12), text("today"), true));
    let later = RemoteStateFile { sequence_number: 14, timestamp: text("tomorrow") };
    let (second, keep) = progress_after_poll(&first, plan_poll(first.applied_sequence, None, 14), &later, "then");
    assert_eq!((second.applied_sequence, second.applied_timestamp.clone(), keep), (Some(14), text("tomorrow"), true));
    let (third, keep) = progress_after_poll(&second, plan_poll(second.applied_sequence, None, 14), &remote, "again");
    assert_eq!((third.applied_timestamp.clone(), third.last_poll_timestamp.clone(), keep), (text("tomorrow"), text("again"), false));
    let elsewhere = progress_after_mismatch(&third, "https://a", "https://b/state.txt", "last");
    assert_eq!(elsewhere.last_error, text("street diff base URL mismatch: PBF header expects https://a, config points to https://b/state.txt"));
    assert_eq!(elsewhere.applied_sequence, Some(14));
}

#[test]
fn packed_changes_are_unpacked() {
    let mut packer = flate2::write::GzEncoder::new(Vec::new(), flate2::Compression::default());
    packer.write_all(b"<osmChange/>").unwrap();
    let packed = packer.finish().unwrap();
    assert_eq!(maybe_decompress_osc(&packed), Some(b"<osmChange/>".to_vec()));
    assert_eq!(maybe_decompress_osc(b"<osmChange/>"), Some(b"<osmChange/>".to_vec()));
    assert_eq!(maybe_decompress_osc(&packed[..6]), None);
}

fn element(name: &str) -> OscElement {
    OscElement { name: name.to_owned(), id: None, reference: None, key: None, value: None, place: None }
}

#[test]
fn changed_ways_are_read_and_laid_over_the_map() {
    let mut reader = OscReader::new();
    let node = |id: i64, lon: f64| OscElement { id: Some(id), place: Some(PolylinePoint { lat: number(41.0), lon: number(lon) }), ..element("node") };
    let reference = |id: i64| OscElement { reference: Some(id), ..element("nd") };
    assert!(reader.read(OscEvent::Start(element("modify"))));
    assert!(reader.read(OscEvent::Empty(node(1, 12.0))));
    assert!(reader.read(OscEvent::Empty(node(2, 12.1))));
    assert!(reader.read(OscEvent::Start(OscElement { id: Some(77), ..element("way") })));
    assert!(reader.read(OscEvent::Empty(reference(1))));
    assert!(reader.read(OscEvent::Empty(reference(2))));
    assert!(reader.read(OscEvent::Empty(OscElement { key: text("highway"), value: text("residential"), ..element("tag") })));
    assert!(reader.read(OscEvent::End("way".to_owned())));
    assert!(reader.read(OscEvent::End("modify".to_owned())));
    let ways = reader.finish();
    assert_eq!(ways.len(), 1);
    assert_eq!(ways[0].node_refs, vec![1, 2]);
    assert_eq!(ways[0].coordinates.len(), 2);
    let mut draft = StreetOverlayDraft::new();
    draft.apply_osc_diff(StreetMode::Drive, ways);
    assert_eq!(draft.blocked.len(), 1);
    assert_eq!(draft.overrides.len(), 1);
}

#[test]
fn journeys_have_labels_and_scores() {
    assert!(!build_itinerary_label(0, true, false, false, false, false).is_empty());
    assert_ne!(build_itinerary_label(0, true, false, false, false, false), build_itinerary_label(1, false, true, false, false, false));
    assert!(build_itinerary_badges(0, true, true, false, false, false, false).len() >= 2);
    assert!(passive_occupancy_score(None, Some(80)) > passive_occupancy_score(None, Some(20)));
    assert_eq!(passive_occupancy_score(None, None), None);
}

#[test]
fn coordinates_stay_on_the_globe() {
    assert!(validate_query_latitude(Some(number(90.0))).is_ok());
    assert!(validate_query_latitude(Some(number(90.5))).is_err());
    assert!(validate_query_latitude(Some(number(f64::NAN))).is_err());
    assert!(validate_query_latitude(None).is_err());
    assert!(validate_query_longitude(Some(number(-180.0))).is_ok());
    assert!(validate_query_longitude(Some(number(181.0))).is_err());
}

#[test]
fn times_of_rounds_add_up() {
    let mut total = RaptorRoundTimingBreakdownUs::zero();
    let mut one = RaptorRoundTimingBreakdownUs::zero();
    one.round_total_us = 5;
    one.transfer_relax_us = 2;
    total.accumulate(&one);
    total.accumulate(&one);
    assert_eq!((total.round_total_us, total.transfer_relax_us, total.queue_build_us), (10, 4, 0));
    assert_eq!(connector_strategy(true, false, true), "hpf-local-forest");
    assert_eq!(connector_strategy(false, false, true), "discrete-stop-query");
}

#[test]
fn sources_are_found_where_they_are_kept() {
    let local = prepare_source("data/feed.zip", "/srv/alpha", "/srv/alpha/.cache", "feed.zip", true);
    assert_eq!((local.local_path.as_str(), local.remote_url, local.allow_invalid_tls), ("/srv/alpha/data/feed.zip", None, true));
    let rooted = prepare_source("/data/feed.zip", "/srv/alpha", "/srv/cache", "feed.zip", false);
    assert_eq!(rooted.local_path, "/data/feed.zip");
    let remote = prepare_source("https://feeds.example/rome.zip", "/srv/alpha", "/srv/cache/", "rome.zip", false);
    assert_eq!(remote.local_path, "/srv/cache/rome.zip");
    assert_eq!(remote.remote_url.as_deref(), Some("https://feeds.example/rome.zip"));
    assert_eq!(resolve_path_from("", "here"), "here");
    assert_eq!(directory_of_file("/srv/alpha/own.toml"), "/srv/alpha/");
    assert_eq!(directory_of_file("own.toml"), "");
}

#[test]
fn configurations_are_read_from_the_first_that_is_there() {
    let path = |source: ConfigSource| match source {
        ConfigSource::Manifest(path) => Some(path),
        ConfigSource::Environment => None,
    };
    assert_eq!(path(config_source("/srv", Some("own.toml".to_owned()), true)), Some("/srv/own.toml".to_owned()));
    assert_eq!(path(config_source("/srv", Some("/etc/own.toml".to_owned()), false)), Some("/etc/own.toml".to_owned()));
    assert_eq!(path(config_source("/srv", None, true)), Some("/srv/alpha-raptor.toml".to_owned()));
    assert_eq!(path(config_source("/srv", None, false)), None);
}
