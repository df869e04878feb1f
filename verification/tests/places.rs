use alpha_raptor::geo::{
    decode_morton_code, destination_cell, destination_cell_neighborhood, destination_cell_window, encode_destination_cell, moore_neighborhood, morton_code,
    DESTINATION_CELL_SHIFT_BITS,
};
use alpha_raptor::hpf::{chain_to_stop, code_place, rank_connectors, BestConnectors, ConnectorCandidate, ConnectorScan, HpfNode, TimedConnector};
use alpha_raptor::number::{Real, ShortReal};

fn quantized(value: f64, minimum: f64, maximum: f64) -> u32 {
    let share = ((value.clamp(minimum, maximum) - minimum) / (maximum - minimum)).clamp(0.0, 1.0);
    (share * u32::MAX as f64).round() as u32
}

fn lat(value: f64) -> u32 {
    quantized(value, -90.0, 90.0)
}

fn lon(value: f64) -> u32 {
    quantized(value, -180.0, 180.0)
}

fn place_of(code: u64) -> (f64, f64) {
    let (lat, lon) = decode_morton_code(code);
    (-90.0 + lat as f64 / u32::MAX as f64 * 180.0, -180.0 + lon as f64 / u32::MAX as f64 * 360.0)
}

#[test]
fn morton_code_is_stable_for_identical_points() {
    let code = morton_code(lat(41.9028), lon(12.4964));
    assert_eq!(code, morton_code(lat(41.9028), lon(12.4964)));
}

#[test]
fn nearby_points_share_the_same_destination_cell() {
    let left = destination_cell(Some(lat(41.902800)), Some(lon(12.496400)));
    let right = destination_cell(Some(lat(41.902820)), Some(lon(12.496420)));
    assert_eq!(left, right);
}

#[test]
fn distant_points_split_into_different_cells() {
    let north = destination_cell(Some(lat(41.9650)), Some(lon(12.4550)));
    let south = destination_cell(Some(lat(41.8000)), Some(lon(12.5000)));
    assert_ne!(north, south);
}

#[test]
fn shift_constant_matches_two_kilometer_scale() {
    assert_eq!(DESTINATION_CELL_SHIFT_BITS, 36);
}

#[test]
fn moore_neighborhood_includes_adjacent_cells() {
    let center = encode_destination_cell(100, 200);
    let east = encode_destination_cell(101, 200);
    let north_west = encode_destination_cell(99, 201);
    let neighborhood = destination_cell_neighborhood(Some(lat(41.9028)), Some(lon(12.4964)));
    assert!(!neighborhood.is_empty());

    let synthetic_neighborhood = moore_neighborhood(center);
    assert!(synthetic_neighborhood.contains(&center));
    assert!(synthetic_neighborhood.contains(&east));
    assert!(synthetic_neighborhood.contains(&north_west));
}

#[test]
fn codes_hold_both_coordinates() {
    assert_eq!(morton_code(0, 1), 1);
    assert_eq!(morton_code(1, 0), 2);
    assert_eq!(morton_code(3, 0), 10);
    assert_eq!(decode_morton_code(morton_code(123_456_789, 987_654_321)), (123_456_789, 987_654_321));
    assert_eq!(destination_cell(None, Some(5)), None);
    assert_eq!(destination_cell(Some(0x8000_0000), Some(0)), Some(1 << 27));
}

#[test]
fn windows_stop_at_the_edge() {
    let corner = encode_destination_cell(0, 0);
    assert_eq!(destination_cell_window(corner, 0), vec![corner]);
    let mut near = moore_neighborhood(corner);
    near.sort();
    assert_eq!(near, vec![0, 1, 2, 3]);
    assert_eq!(destination_cell_window(encode_destination_cell(10, 10), 2).len(), 25);
    assert!(destination_cell_neighborhood(None, None).is_empty());
}

fn haversine_meters(lat_a: f64, lon_a: f64, lat_b: f64, lon_b: f64) -> f64 {
    let delta_lat = (lat_b - lat_a).to_radians();
    let delta_lon = (lon_b - lon_a).to_radians();
    let a = (delta_lat / 2.0).sin().powi(2) + lat_a.to_radians().cos() * lat_b.to_radians().cos() * (delta_lon / 2.0).sin().powi(2);
    6_371_000.0 * 2.0 * a.sqrt().atan2((1.0 - a).sqrt())
}

struct Found {
    distance_meters: f64,
    used_asymptotic_penalty: bool,
    polyline: Vec<(f64, f64)>,
}

struct Forest {
    nodes: Vec<HpfNode>,
    walk_speed_mps: f64,
    snap_tolerance_meters: f64,
    snap_quadratic_kappa_meters: f64,
    search_window: usize,
}

impl Forest {
    fn query_connectors(&self, latitude: f64, longitude: f64, limit: usize, stops: &[(f64, f64)]) -> Vec<Found> {
        let center = code_place(&self.nodes, morton_code(lat(latitude), lon(longitude)));
        let mut scan = ConnectorScan::new(self.nodes.len(), center, self.search_window, limit);
        let mut best = BestConnectors::new();
        loop {
            let step = scan.widen();
            for index in (step.left_from..step.left_to).chain(step.right_from..step.right_to) {
                let node = &self.nodes[index];
                if node.root_stop_index as usize >= stops.len() {
                    continue;
                }
                let (node_lat, node_lon) = place_of(node.morton);
                let snap = haversine_meters(latitude, longitude, node_lat, node_lon);
                let cost = snap.mul_add(snap / self.snap_quadratic_kappa_meters, snap);
                best.offer(ConnectorCandidate {
                    node_index: index,
                    stop_index: node.root_stop_index as usize,
                    distance_meters: Real { bits: (f32::from_bits(node.cost_meters.bits) as f64 + cost).to_bits() },
                    used_asymptotic_penalty: snap > self.snap_tolerance_meters,
                });
            }
            if scan.is_done(best.len(), limit) {
                break;
            }
        }
        let ways = best
            .candidates()
            .iter()
            .map(|candidate| TimedConnector {
                candidate: *candidate,
                duration_secs: (f64::from_bits(candidate.distance_meters.bits) / self.walk_speed_mps).ceil() as i32,
            })
            .collect::<Vec<_>>();
        rank_connectors(&ways, limit)
            .iter()
            .map(|way| {
                let mut polyline = vec![(latitude, longitude)];
                for index in chain_to_stop(&self.nodes, way.candidate.node_index).unwrap() {
                    polyline.push(place_of(self.nodes[index].morton));
                }
                polyline.push(stops[way.candidate.stop_index]);
                Found {
                    distance_meters: f64::from_bits(way.candidate.distance_meters.bits),
                    used_asymptotic_penalty: way.candidate.used_asymptotic_penalty,
                    polyline,
                }
            })
            .collect()
    }
}

fn node(latitude: f64, longitude: f64, root_stop_index: u32, cost_meters: f32) -> HpfNode {
    HpfNode {
        morton: morton_code(lat(latitude), lon(longitude)),
        parent_index: u32::MAX,
        root_stop_index,
        cost_meters: ShortReal { bits: cost_meters.to_bits() },
    }
}

#[test]
fn query_connectors_prefers_lowest_total_cost_per_stop() {
    let forest = Forest {
        nodes: vec![node(41.9000, 12.5000, 0, 100.0), node(41.9002, 12.5002, 1, 80.0)],
        walk_speed_mps: 1.35,
        snap_tolerance_meters: 50.0,
        snap_quadratic_kappa_meters: 40.0,
        search_window: 256,
    };
    let stops = vec![(41.9000, 12.5000), (41.9002, 12.5002)];

    let results = forest.query_connectors(41.90015, 12.50015, 2, &stops);
    assert_eq!(results.len(), 2);
    assert!(results[0].distance_meters <= results[1].distance_meters);
    assert_eq!(results[0].polyline.first().unwrap().0, 41.90015);
}

#[test]
fn query_connectors_prefers_network_coverage_over_long_asymptotic_snap() {
    let forest = Forest {
        nodes: vec![node(41.9000, 12.5000, 0, 17.79), node(41.9000, 12.5038, 0, 527.93)],
        walk_speed_mps: 1.35,
        snap_tolerance_meters: 140.0,
        snap_quadratic_kappa_meters: 40.0,
        search_window: 256,
    };
    let stops = vec![(41.9000, 12.5000)];

    let results = forest.query_connectors(41.9000, 12.5039, 1, &stops);
    assert_eq!(results.len(), 1);
    assert!(!results[0].used_asymptotic_penalty);
    assert!(results[0].distance_meters > 500.0);
    assert!(results[0].distance_meters < 600.0);
    assert!(results[0].polyline.iter().any(|point| (point.0 - 41.9000).abs() < 0.0001 && (point.1 - 12.5038).abs() < 0.0001));
}

#[test]
fn chains_end_at_a_stop_or_nowhere() {
    let mut nodes = vec![node(1.0, 1.0, 0, 0.0), node(2.0, 2.0, 0, 5.0), node(3.0, 3.0, 0, 9.0)];
    nodes[1].parent_index = 0;
    nodes[2].parent_index = 1;
    assert_eq!(chain_to_stop(&nodes, 2), Some(vec![2, 1, 0]));
    nodes[0].parent_index = 2;
    assert_eq!(chain_to_stop(&nodes, 2), None);
}

#[test]
fn shorter_ways_take_the_place_of_longer_ones() {
    let way = |distance: f64| ConnectorCandidate {
        node_index: 0,
        stop_index: 4,
        distance_meters: Real { bits: distance.to_bits() },
        used_asymptotic_penalty: false,
    };
    let mut best = BestConnectors::new();
    best.offer(way(12.0));
    best.offer(way(9.0));
    best.offer(way(10.0));
    assert_eq!(best.len(), 1);
    assert_eq!(best.candidates()[0], way(9.0));
}
