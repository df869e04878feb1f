use std::collections::{HashMap, HashSet};

use alpha_raptor::model::PolylinePoint;
use alpha_raptor::number::{Real, ShortReal};
use alpha_raptor::street_graph::flatten_edges;
use alpha_raptor::street_overlay::{coordinate_for_node, finish_street_geometry, push_geometry_point, route_duration, SnapError, SnapResult};
use alpha_raptor::street_route::{find_street_route, RouteError};
use alpha_raptor::street_search::{shortest_street_way, StreetEdge, StreetNetwork, StreetOverlayEdges};
use alpha_raptor::street_tags::StreetMode;
use alpha_raptor::walk_geometry::WalkGeometry;

fn number(value: f64) -> Real {
    Real { bits: value.to_bits() }
}

fn value(number: Real) -> f64 {
    f64::from_bits(number.bits)
}

fn haversine_meters(lat_a: f64, lon_a: f64, lat_b: f64, lon_b: f64) -> f64 {
    let delta_lat = (lat_b - lat_a).to_radians();
    let delta_lon = (lon_b - lon_a).to_radians();
    let a = (delta_lat / 2.0).sin().powi(2) + lat_a.to_radians().cos() * lat_b.to_radians().cos() * (delta_lon / 2.0).sin().powi(2);
    6_371_000.0 * 2.0 * a.sqrt().atan2((1.0 - a).sqrt())
}

fn edge(to: u32, distance_meters: f32, way_id: i64) -> StreetEdge {
    StreetEdge { to, duration_secs: 12, distance_meters: ShortReal { bits: distance_meters.to_bits() }, way_id }
}

fn no_overlay() -> StreetOverlayEdges {
    StreetOverlayEdges { blocked_way_ids: HashSet::new(), added_node_count: 0, forward_adjacency: HashMap::new(), reverse_adjacency: HashMap::new() }
}

fn network(forward: Vec<Vec<StreetEdge>>, reverse: Vec<Vec<StreetEdge>>) -> StreetNetwork {
    let (node_offsets, forward_edges) = flatten_edges(&forward).unwrap();
    let (reverse_node_offsets, reverse_edges) = flatten_edges(&reverse).unwrap();
    StreetNetwork { node_count: forward.len(), node_offsets, forward_edges, reverse_node_offsets, reverse_edges }
}

struct TestGraph {
    coordinates: Vec<(f64, f64)>,
    network: StreetNetwork,
}

struct Route {
    distance_meters: f64,
    duration_seconds: u32,
    geometry: WalkGeometry,
}

fn test_drive_graph() -> TestGraph {
    TestGraph {
        coordinates: vec![(41.9000, 12.5000), (41.9000, 12.5010), (41.9005, 12.5020), (41.9010, 12.5030)],
        network: network(
            vec![vec![edge(1, 80.0, 10)], vec![edge(2, 85.0, 20)], vec![edge(3, 90.0, 30)], vec![]],
            vec![vec![], vec![edge(0, 80.0, 10)], vec![edge(1, 85.0, 20)], vec![edge(2, 90.0, 30)]],
        ),
    }
}

impl TestGraph {
    fn near(&self, place: (f64, f64)) -> Vec<SnapResult> {
        self.coordinates
            .iter()
            .enumerate()
            .map(|(node_index, node)| SnapResult { node_index, distance_meters: number(haversine_meters(place.0, place.1, node.0, node.1)) })
            .collect()
    }

    fn route(&self, from: (f64, f64), to: (f64, f64)) -> Result<Route, String> {
        let mode = StreetMode::Drive;
        let found = find_street_route(&self.network, &no_overlay(), mode.max_snap_distance_meters(), &self.near(from), &self.near(to))
            .map_err(|error| error.message(mode))?;
        let places: Vec<PolylinePoint> = self.coordinates.iter().map(|node| PolylinePoint { lat: number(node.0), lon: number(node.1) }).collect();
        let mut line = WalkGeometry { polyline: Vec::new(), segment_way_ids: Vec::new() };
        let mut add = |line: &mut WalkGeometry, point: PolylinePoint, way: Option<i64>| {
            let apart = match line.polyline.last() {
                Some(last) => (value(last.lat) - value(point.lat)).abs() > 1e-7 || (value(last.lon) - value(point.lon)).abs() > 1e-7,
                None => true,
            };
            push_geometry_point(line, point, way, apart);
        };
        let first = PolylinePoint { lat: number(from.0), lon: number(from.1) };
        let last = PolylinePoint { lat: number(to.0), lon: number(to.1) };
        add(&mut line, first, None);
        add(&mut line, coordinate_for_node(&places, &Vec::new(), found.source.node_index).unwrap(), None);
        let mut distance = value(found.source.distance_meters) + value(found.target.distance_meters);
        let connector = if distance <= f64::EPSILON { 0 } else { (distance / value(mode.connector_speed_mps())).ceil() as u32 };
        for hop in &found.way.hops {
            add(&mut line, coordinate_for_node(&places, &Vec::new(), hop.edge.to as usize).unwrap(), Some(hop.edge.way_id));
            distance += f32::from_bits(hop.edge.distance_meters.bits) as f64;
        }
        add(&mut line, last, None);
        Ok(Route {
            distance_meters: distance,
            duration_seconds: route_duration(found.way.cost_secs, connector),
            geometry: finish_street_geometry(line, first, last),
        })
    }
}

#[test]
fn drive_route_returns_ordered_way_ids() {
    let graph = test_drive_graph();
    let route = graph.route((41.9000, 12.5000), (41.9010, 12.5030)).unwrap();

    assert!(route.distance_meters > 0.0);
    assert_eq!(route.geometry.segment_way_ids, vec![Some(10), Some(20), Some(30)]);
    assert_eq!(value(route.geometry.polyline.first().unwrap().lon), 12.5000);
    assert_eq!(value(route.geometry.polyline.last().unwrap().lon), 12.5030);
    assert_eq!(route.duration_seconds, 36);
}

#[test]
fn drive_route_reports_missing_reverse_path_on_one_way_chain() {
    let graph = test_drive_graph();
    let error = graph.route((41.9010, 12.5030), (41.9000, 12.5000)).err().unwrap();

    assert!(error.to_string().contains("no drive route found"));
}

#[test]
fn the_shorter_of_two_ways_is_taken() {
    let slow = |to: u32, secs: u32, way_id: i64| StreetEdge { to, duration_secs: secs, distance_meters: ShortReal { bits: 0 }, way_id };
    let streets = network(
        vec![vec![slow(1, 10, 1), slow(2, 3, 2)], vec![], vec![slow(1, 4, 3)]],
        vec![vec![], vec![slow(0, 10, 1), slow(2, 4, 3)], vec![slow(0, 3, 2)]],
    );
    let way = shortest_street_way(&streets, &no_overlay(), 0, 1).unwrap();
    assert_eq!(way.cost_secs, 7);
    assert_eq!(way.hops.iter().map(|hop| hop.edge.way_id).collect::<Vec<_>>(), vec![2, 3]);

    let mut closed = no_overlay();
    closed.blocked_way_ids.insert(3);
    let detour = shortest_street_way(&streets, &closed, 0, 1).unwrap();
    assert_eq!(detour.cost_secs, 10);

    assert_eq!(shortest_street_way(&streets, &no_overlay(), 2, 2).unwrap().hops.len(), 0);
    assert!(shortest_street_way(&streets, &no_overlay(), 1, 0).is_none());
}

#[test]
fn places_off_the_network_are_refused() {
    let graph = test_drive_graph();
    assert_eq!(graph.route((10.0, 10.0), (41.9, 12.5)).err().unwrap(), "no drive street node found within 2000 meters of the requested coordinate");
    let none = find_street_route(&graph.network, &no_overlay(), number(1.0), &Vec::new(), &Vec::new());
    assert_eq!(none.err(), Some(RouteError::Snap(SnapError::EmptyGraph)));
    assert_eq!(RouteError::Snap(SnapError::EmptyGraph).message(StreetMode::Walk), "walk street graph is empty");
    assert_eq!(RouteError::Snap(SnapError::TooFar).message(StreetMode::Walk), "no walk street node found within 500 meters of the requested coordinate");
}
