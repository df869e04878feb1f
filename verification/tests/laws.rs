use std::collections::{HashMap, HashSet};

use alpha_raptor::bloom::TripBloomFilter;
use alpha_raptor::cost_heap::{CostHeap, HeapState};
use alpha_raptor::day_services::DayServices;
use alpha_raptor::hpf::{arrange_forest, build_pedestrian_graph, snap_stop_to_graph, ReachedNode, WalkableWay, NO_PARENT};
use alpha_raptor::hpf_forest::{ForestSearch, ForestStep};
use alpha_raptor::ids::{allocate_unique_global_id, pack_global_id, EntityKind};
use alpha_raptor::keyed_store::KeyedStore;
use alpha_raptor::model::PolylinePoint;
use alpha_raptor::number::{Real, ShortReal};
use alpha_raptor::order::{sorted_unique, stable_order};
use alpha_raptor::profile_cache::{ProfileCache, ProfileInsertionPoint, ProfileLookupDecision};
use alpha_raptor::progress::progress_percent_u64;
use alpha_raptor::realtime::{average_carriage_occupancy_percentage, merge_schedule_relationship, sanitize_delay, worst_carriage_occupancy_status, CarriageDetails};
use alpha_raptor::shape::nearest_shape_point_index;
use alpha_raptor::street_diff::{OscAction, OscWayChange, StreetOverlayDraft};
use alpha_raptor::street_graph::{build_graph_cache, GraphError, Measure, OsmWay};
use alpha_raptor::street_overlay::{build_overlay_graph, SnapResult};
use alpha_raptor::street_search::shortest_street_way;
use alpha_raptor::street_tags::{StreetMode, Tags};
use alpha_raptor::temporal::{build_chronos_bucket_start_indices, LATEST_DEPARTURE_SECS};
use alpha_raptor::text_order::{comes_before, text_order};

fn number(value: f64) -> Real {
    Real { bits: value.to_bits() }
}

fn point(lat: f64, lon: f64) -> PolylinePoint {
    PolylinePoint { lat: number(lat), lon: number(lon) }
}

#[test]
fn numbers_compare_as_floats_do() {
    let values = [f64::NEG_INFINITY, -2.5, -0.0, 0.0, 1e-300, 1.0, f64::MAX, f64::INFINITY, f64::NAN];
    for a in values {
        assert_eq!(number(a).is_nan(), a.is_nan());
        assert_eq!(number(a).is_finite(), a.is_finite());
        for b in values {
            assert_eq!(number(a).less_than(number(b)), a < b);
            assert_eq!(number(a).equals(number(b)), a == b);
            assert_eq!(number(a).total_order_rank() < number(b).total_order_rank(), a.total_cmp(&b).is_lt());
        }
    }
    let short = |value: f32| ShortReal { bits: value.to_bits() };
    assert!(short(1.0).is_less(short(1.5)));
    assert!(!short(f32::NAN).is_at_least(short(0.0)));
    assert!(short(0.0).is_at_least(short(-0.0)));
}

#[test]
fn filters_never_deny_what_was_put_in() {
    let mut filter = TripBloomFilter::empty();
    assert!(!filter.might_contain_trip(11));
    for trip in [0, 11, 900, 123_456] {
        filter.insert_trip(trip);
    }
    for trip in [0, 11, 900, 123_456] {
        assert!(filter.might_contain_trip(trip));
    }
    assert!(filter.might_intersect_any(&vec![77, 900]));
    assert!(!filter.might_intersect_any(&vec![]));
}

#[test]
fn orders_keep_equals_in_place() {
    assert_eq!(stable_order(&vec![(2, 0, 0), (1, 5, 0), (2, 0, 0), (1, 4, 9)]), vec![3, 1, 0, 2]);
    assert_eq!(sorted_unique(&vec![5, 1, 5, 3]), vec![1, 3, 5]);
    assert_eq!(text_order(&vec!["b".to_owned(), "a".to_owned(), "ab".to_owned(), "a".to_owned()]), vec![1, 3, 2, 0]);
    assert!(comes_before("09:10", "09:15"));
    assert!(!comes_before("a", "a"));
}

#[test]
fn taken_numbers_are_not_given_again() {
    let mut taken = HashSet::new();
    let proposed = pack_global_id(1, EntityKind::Stop, 7).unwrap();
    let first = allocate_unique_global_id(proposed, 1, EntityKind::Stop, "seven", &mut taken).unwrap();
    assert_eq!(first, proposed);
    let second = allocate_unique_global_id(proposed, 1, EntityKind::Stop, "seven", &mut taken).unwrap();
    assert_ne!(first, second);
    assert_eq!(taken.len(), 2);
}

#[test]
fn stores_hold_each_key_once() {
    let mut store = KeyedStore::new();
    store.insert((1, 2, 3), "a");
    store.insert((1, 2, 4), "b");
    store.insert((1, 2, 3), "c");
    assert_eq!(store.len(), 2);
    assert_eq!(store.get((1, 2, 3)), Some(&"c"));
    assert_eq!(store.remove((1, 2, 3)), Some("c"));
    assert_eq!(store.get((1, 2, 3)), None);
    assert_eq!(store.get((1, 2, 4)), Some(&"b"));
    store.clear();
    assert_eq!(store.len(), 0);
}

#[test]
fn heaps_give_the_least_first() {
    let mut heap = CostHeap::new();
    for (cost, node_index) in [(5, 0), (1, 3), (4, 2), (1, 1)] {
        heap.push(HeapState { cost, node_index });
    }
    let mut costs = Vec::new();
    while !heap.is_empty() {
        assert_eq!(heap.least_cost(), heap.least_cost());
        costs.push(heap.pop().cost);
    }
    assert_eq!(costs, vec![1, 1, 4, 5]);
}

#[test]
fn calendars_know_their_days() {
    let mut calendar = DayServices::new();
    assert_eq!(calendar.day_range(), None);
    calendar.add_service(10, "weekday".to_owned());
    calendar.add_service(12, "weekday".to_owned());
    calendar.add_service(12, "weekday".to_owned());
    assert_eq!(calendar.day_range(), Some((10, 12)));
    assert_eq!(calendar.get(12).map(Vec::len), Some(1));
    calendar.remove_service(12, "weekday");
    assert_eq!(calendar.get(12).map(Vec::len), Some(0));
    assert!(calendar.get(11).is_none());
}

#[test]
fn reports_are_taken_with_care() {
    assert_eq!(sanitize_delay(Some(300)), Some(300));
    assert_eq!(sanitize_delay(Some(21_601)), None);
    assert_eq!(sanitize_delay(Some(-21_600)), Some(-21_600));
    let mut relationship = Some(3);
    merge_schedule_relationship(&mut relationship, Some(0));
    assert_eq!(relationship, Some(3));
    let carriages = vec![
        CarriageDetails { occupancy_status: Some(1), occupancy_percentage: Some(20) },
        CarriageDetails { occupancy_status: Some(5), occupancy_percentage: Some(91) },
        CarriageDetails { occupancy_status: None, occupancy_percentage: None },
    ];
    assert_eq!(worst_carriage_occupancy_status(&carriages), Some(5));
    assert_eq!(average_carriage_occupancy_percentage(&carriages), Some(55));
    assert_eq!(average_carriage_occupancy_percentage(&vec![]), None);
}

#[test]
fn buckets_skip_no_departure() {
    let starts = build_chronos_bucket_start_indices(&vec![0, 0, 2_000, 90_000]);
    assert_eq!(starts[0], 0);
    assert!(starts.windows(2).all(|pair| pair[0] <= pair[1]));
    assert!(build_chronos_bucket_start_indices(&vec![]).is_empty());
}

#[test]
fn nearest_points_are_looked_for_ahead() {
    let distances = vec![number(1.0), number(9.0), number(3.0), number(3.0)];
    assert_eq!(nearest_shape_point_index(&distances, 0), Some(0));
    assert_eq!(nearest_shape_point_index(&distances, 1), Some(2));
    assert_eq!(nearest_shape_point_index(&distances, 4), None);
}

#[test]
fn the_latest_departures_have_buckets() {
    let starts = build_chronos_bucket_start_indices(&vec![-5, 0, LATEST_DEPARTURE_SECS]);
    assert_eq!(starts.len(), 2_386_093);
    assert_eq!(starts[0], 1);
    assert_eq!(starts[1], 2);
    assert_eq!(starts[starts.len() - 1], 3);
}

#[test]
fn progress_never_falls_and_is_near_the_share() {
    for total in [1u64, 3, 7, 99, 100, 101, 1_000_003, u64::MAX - 1, u64::MAX] {
        let mut before = 0;
        for step in 0..=400u128 {
            let completed = ((total as u128) * step / 400) as u64;
            let percent = progress_percent_u64(completed, total);
            assert!(before <= percent);
            assert!((f64::from(percent) - 100.0 * completed as f64 / total as f64).abs() <= 0.51);
            before = percent;
        }
        assert_eq!(before, 100);
        assert_eq!(progress_percent_u64(0, total), 0);
    }
    assert_eq!(progress_percent_u64(0, 0), 0);
    assert_eq!(progress_percent_u64(5, 0), 100);
}

fn remembered(latest_ready_secs: i32, arrival_secs: i32, transit_legs: usize) -> ProfileInsertionPoint {
    ProfileInsertionPoint { source_stop: 4, latest_ready_secs, arrival_secs, transit_legs, trip_indices: vec![transit_legs], suffix_legs: Vec::new() }
}

#[test]
fn lookups_give_the_best_of_all_that_was_remembered() {
    let points = [(100, 900, 2), (200, 950, 1), (200, 940, 3), (300, 990, 1), (150, 900, 1), (50, 400, 1), (300, 980, 2), (120, 900, 2)];
    let mut cache = ProfileCache::new();
    for (n, point) in points.iter().enumerate() {
        cache.insert_batch(7, 9, vec![remembered(point.0, point.1, point.2)]);
        for ready in [0, 50, 51, 120, 150, 151, 200, 250, 300, 301] {
            for rides in 0..4 {
                let begun = points[..=n].iter().filter(|point| ready <= point.0 && point.2 <= rides);
                let best = begun.map(|point| (point.1, point.2)).min();
                let found = cache.lookup(7, 9, 4, ready, rides).map(|found| (found.arrival_secs, found.transit_legs));
                assert_eq!(found, best);
            }
        }
    }
    assert!(cache.lookup(7, 9, 5, 0, 3).is_none());
    assert!(cache.lookup(8, 9, 4, 0, 3).is_none());
}

#[test]
fn forgotten_journeys_leave_no_bounds() {
    let mut cache = ProfileCache::new();
    cache.insert_batch(7, 9, vec![remembered(100, 160, 1), remembered(100, 200, 3)]);
    assert!(matches!(cache.lookup_bounded(7, 9, 4, 90, 3, 150), ProfileLookupDecision::SummaryPruned));
    cache.invalidate_trips(&vec![1]);
    assert!(matches!(cache.lookup_bounded(7, 9, 4, 90, 2, 999), ProfileLookupDecision::SummaryPruned));
    assert!(matches!(cache.lookup_bounded(7, 9, 4, 90, 3, 999), ProfileLookupDecision::Match(_)));
    cache.invalidate_trips(&vec![3]);
    assert!(matches!(cache.lookup_bounded(7, 9, 4, 90, 3, 999), ProfileLookupDecision::Miss));
}

#[test]
fn heaps_keep_equal_entries_apart() {
    let mut heap = CostHeap::new();
    for _ in 0..3 {
        heap.push(HeapState { node_index: 2, cost: 7 });
    }
    for _ in 0..3 {
        assert_eq!(heap.pop(), HeapState { node_index: 2, cost: 7 });
    }
    assert!(heap.is_empty());
}

#[test]
fn forests_lead_to_the_nearest_stop() {
    let places = HashMap::from([(1, point(0.0, 0.0)), (2, point(0.0, 1.0)), (3, point(0.0, 2.0)), (4, point(0.0, 3.0))]);
    let ways = vec![WalkableWay { nodes: vec![1, 2, 3, 4], lengths: vec![Some(number(10.0)), Some(number(10.0)), Some(number(10.0))] }];
    let (coordinates, edges) = build_pedestrian_graph(&places, &ways);
    assert_eq!(coordinates.len(), 4);
    let snap = |node_index: usize, distance: f64| SnapResult { node_index, distance_meters: number(distance) };
    let anchors = vec![
        snap_stop_to_graph(&vec![snap(1, 9.0), snap(0, 2.0)], number(80.0)),
        snap_stop_to_graph(&vec![snap(3, 1.0)], number(80.0)),
        snap_stop_to_graph(&vec![snap(2, 81.0)], number(80.0)),
    ];
    assert_eq!(anchors[0], Some(snap(0, 2.0)));
    assert_eq!(anchors[2], None);
    let mut search = ForestSearch::new(4, &anchors, number(100.0));
    loop {
        match search.next() {
            ForestStep::Done => break,
            ForestStep::Stale => {}
            ForestStep::Expand { node, distance } => {
                let candidates = edges[node].iter().map(|edge| number(f64::from_bits(distance.bits) + f64::from_bits(edge.distance_meters.bits))).collect();
                search.expand(node, &edges[node], &candidates);
            }
        }
    }
    let (distances, roots, parents) = search.finish();
    assert_eq!(distances, vec![number(2.0), number(12.0), number(11.0), number(1.0)]);
    assert_eq!(roots, vec![0, 0, 1, 1]);
    assert_eq!(parents, vec![None, Some(0), Some(3), None]);
    let reached = (0..4)
        .map(|node| ReachedNode {
            morton: 40 - node as u64,
            distance_meters: distances[node],
            cost_meters: ShortReal { bits: (f64::from_bits(distances[node].bits) as f32).to_bits() },
            root_stop_index: roots[node],
            parent: parents[node],
        })
        .collect();
    let forest = arrange_forest(&reached, number(11.5));
    assert_eq!(forest.iter().map(|node| node.morton).collect::<Vec<_>>(), vec![37, 38, 40]);
    assert_eq!(forest.iter().map(|node| node.parent_index).collect::<Vec<_>>(), vec![NO_PARENT, 0, NO_PARENT]);
}

fn street(id: i64, nodes: Vec<i64>, pairs: &[(&str, &str)]) -> OsmWay {
    let mut tags = Tags::new();
    for (key, value) in pairs {
        tags.insert(key.to_string(), value.to_string());
    }
    let measures = nodes.windows(2).map(|_| Some(Measure { duration_secs: 10, distance_meters: ShortReal { bits: 100f32.to_bits() } })).collect();
    OsmWay { id, nodes, tags, measures }
}

#[test]
fn networks_take_changes_over_them() {
    let places = HashMap::from([(1, point(0.0, 0.0)), (2, point(0.0, 1.0)), (3, point(0.0, 2.0))]);
    let ways = vec![street(50, vec![1, 2, 3], &[("highway", "residential"), ("name", "Via Lunga"), ("oneway", "yes")])];
    let graph = build_graph_cache(StreetMode::Drive, &places, &ways).unwrap_or_else(|_| panic!("the streets make a network"));
    assert_eq!(graph.network.node_count, 3);
    assert_eq!(graph.way_names.get(&50), Some(&"Via Lunga".to_owned()));
    assert_eq!(build_graph_cache(StreetMode::Drive, &HashMap::new(), &Vec::new()).err(), Some(GraphError::Empty));

    let mut draft = StreetOverlayDraft::new();
    let mut tags = Tags::new();
    tags.insert("highway".to_owned(), "residential".to_owned());
    let change = OscWayChange { action: OscAction::Modify, way_id: 50, node_refs: vec![1, 9, 3], coordinates: vec![point(0.0, 0.0), point(0.5, 1.0), point(0.0, 2.0)], tags };
    draft.apply_osc_diff(StreetMode::Drive, vec![change]);
    let measures = vec![vec![Some(Measure { duration_secs: 7, distance_meters: ShortReal { bits: 0 } }); 2]];
    let overlay = build_overlay_graph(&graph.node_lookup, graph.network.node_count, StreetMode::Drive, &draft, &measures);
    assert_eq!(overlay.coordinates.len(), 1);
    let (from, to) = (graph.node_lookup[&1], graph.node_lookup[&3]);
    let way = shortest_street_way(&graph.network, &overlay.edges, from, to).unwrap();
    assert_eq!(way.cost_secs, 14);
    assert!(way.explored_forward_nodes + way.explored_backward_nodes >= 3);
    assert!(way.explored_forward_nodes <= 4 && way.explored_backward_nodes <= 4);
    let here = shortest_street_way(&graph.network, &overlay.edges, from, from).unwrap();
    assert_eq!((here.cost_secs, here.explored_forward_nodes, here.explored_backward_nodes), (0, 1, 1));
    assert_eq!(shortest_street_way(&graph.network, &overlay.edges, to, from).unwrap().cost_secs, 14);
}
