//! What a street network leads along: the ways of the map, in the directions in which
//! their tags say that they are travelled.

use crate::model::PolylinePoint;
use crate::street_graph::{
    after_stretch, after_way, graph_of, is_network_of, network_row, place_bounds, place_of, places_after_push, stretch, stretch_count, with_node, with_stretch, GraphView, Measure, OsmWay,
    StreetGraph,
};
use crate::street_diff::{after_changes, way_key, way_keys_differ, DraftView, OscAction, OverrideView, WayChangeView};
use crate::street_overlay::{
    after_overlay_stretch, list_at, overlay_index, placed_stretches, with_overlay_node, with_overlay_stretch, OverlayView,
};
use crate::street_search::{added_edges, adjacent, open_edges, StreetEdge, StreetView};
use crate::street_tags::{direction_of, in_network, road_speed, tag, undriveable_road, unwalkable_road, StreetMode, TravelDirection};
use vstd::prelude::*;
use vstd::string::*;

verus! {

/// Whether a way is a roundabout.
pub open spec fn is_roundabout(way: OsmWay) -> bool {
    tag(way.tags@, "junction"@) == Some("roundabout"@)
}

/// Whether a way says that it is travelled only in the direction in which it is drawn.
pub open spec fn is_oneway(way: OsmWay) -> bool {
    let oneway = tag(way.tags@, "oneway"@);
    oneway == Some("yes"@) || oneway == Some("true"@) || oneway == Some("1"@)
}

/// Whether a way says that it is travelled only against the direction in which it is
/// drawn.
pub open spec fn is_reversed_oneway(way: OsmWay) -> bool {
    tag(way.tags@, "oneway"@) == Some("-1"@)
}

/// Whether a way goes on from one node to another, in the direction in which it is drawn:
/// the stretch between them is measured, and both have places.
pub open spec fn draws(way: OsmWay, places: Map<i64, PolylinePoint>, k: int, a: i64, b: i64, measure: Measure) -> bool {
    &&& 0 <= k
    &&& k + 1 < way.nodes@.len()
    &&& way.nodes@[k] == a
    &&& way.nodes@[k + 1] == b
    &&& a != b
    &&& places.dom().contains(a)
    &&& places.dom().contains(b)
    &&& way.measures@[k] == Some(measure)
}

/// Whether a way is drawn from one node straight to another.
pub open spec fn is_drawn(way: OsmWay, places: Map<i64, PolylinePoint>, a: i64, b: i64, measure: Measure) -> bool {
    exists|k: int| #[trigger] draws(way, places, k, a, b, measure)
}

/// Whether a network has a stretch of a way from one node to another.
pub open spec fn leads_along(built: StreetGraph, a: i64, b: i64, way_id: i64, measure: Measure) -> bool {
    exists|node: int, i: int| #[trigger] is_stretch_of(built, node, i, a, b, way_id, measure)
}

/// Whether the `i`th stretch out of a node is one of a way from one node to another.
pub open spec fn is_stretch_of(built: StreetGraph, node: int, i: int, a: i64, b: i64, way_id: i64, measure: Measure) -> bool {
    let row = network_row(built.network, false, node);
    &&& 0 <= node < built.node_osm_ids@.len()
    &&& 0 <= i < row.len()
    &&& row[i].to < built.node_osm_ids@.len()
    &&& built.node_osm_ids@[node] == a
    &&& built.node_osm_ids@[row[i].to as int] == b
    &&& row[i].way_id == way_id
    &&& row[i].duration_secs == measure.duration_secs
    &&& row[i].distance_meters == measure.distance_meters
}

spec fn is_edge(graph: GraphView, node: int, i: int, a: i64, b: i64, way_id: i64, measure: Measure) -> bool {
    &&& 0 <= node < graph.ids.len()
    &&& 0 <= i < graph.forward[node].len()
    &&& graph.forward[node][i].to < graph.ids.len()
    &&& graph.ids[node] == a
    &&& graph.ids[graph.forward[node][i].to as int] == b
    &&& graph.forward[node][i].way_id == way_id
    &&& graph.forward[node][i].duration_secs == measure.duration_secs
    &&& graph.forward[node][i].distance_meters == measure.distance_meters
}

spec fn has_edge(graph: GraphView, a: i64, b: i64, way_id: i64, measure: Measure) -> bool {
    exists|node: int, i: int| #[trigger] is_edge(graph, node, i, a, b, way_id, measure)
}

spec fn edges_within(graph: GraphView) -> bool {
    &&& graph.forward.len() == graph.ids.len()
    &&& graph.reverse.len() == graph.ids.len()
    &&& forall|node: int, i: int| 0 <= node < graph.ids.len() && 0 <= i < graph.forward[node].len() ==> (#[trigger] graph.forward[node][i]).to < graph.ids.len()
}

/// Whether a way is travelled in the direction in which it is drawn.
pub open spec fn travelled_as_drawn(mode: StreetMode, way: OsmWay) -> bool {
    mode == StreetMode::Walk || is_roundabout(way) || !is_reversed_oneway(way)
}

/// Whether a way is travelled against the direction in which it is drawn.
pub open spec fn travelled_back(mode: StreetMode, way: OsmWay) -> bool {
    mode == StreetMode::Walk || (!is_roundabout(way) && !is_oneway(way))
}

/// Whether a way leads from one node straight to another.
pub open spec fn way_leads(mode: StreetMode, way: OsmWay, places: Map<i64, PolylinePoint>, a: i64, b: i64, measure: Measure) -> bool {
    ||| travelled_as_drawn(mode, way) && is_drawn(way, places, a, b, measure)
    ||| travelled_back(mode, way) && is_drawn(way, places, b, a, measure)
}

proof fn node_keeps_edges(graph: GraphView, id: i64, place: PolylinePoint, a: i64, b: i64, way_id: i64, measure: Measure)
    requires
        edges_within(graph),
    ensures
        edges_within(with_node(graph, id, place)),
        has_edge(with_node(graph, id, place), a, b, way_id, measure) == has_edge(graph, a, b, way_id, measure),
{
    let after = with_node(graph, id, place);
    if after.ids != graph.ids {
        assert forall|node: int, i: int| 0 <= node < after.ids.len() && 0 <= i < after.forward[node].len() implies (#[trigger] after.forward[node][i]).to < after.ids.len() by {
            assert(node < graph.ids.len());
            assert(graph.forward[node][i].to < graph.ids.len());
        }
    }
    if has_edge(after, a, b, way_id, measure) {
        let (node, i) = choose|node: int, i: int| #[trigger] is_edge(after, node, i, a, b, way_id, measure);
        if after.ids != graph.ids {
            assert(node < graph.ids.len());
            assert(graph.forward[node][i].to < graph.ids.len());
        }
        assert(is_edge(graph, node, i, a, b, way_id, measure));
    }
    if has_edge(graph, a, b, way_id, measure) {
        let (node, i) = choose|node: int, i: int| #[trigger] is_edge(graph, node, i, a, b, way_id, measure);
        assert(is_edge(after, node, i, a, b, way_id, measure));
    }
}

proof fn stretch_adds_an_edge(graph: GraphView, from: int, to: int, measure: Measure, way_id: i64, a: i64, b: i64, other: i64, other_measure: Measure)
    requires
        edges_within(graph),
        0 <= from < graph.ids.len(),
        0 <= to < graph.ids.len(),
        from <= u32::MAX,
        to <= u32::MAX,
    ensures
        edges_within(with_stretch(graph, from, to, measure, way_id)),
        with_stretch(graph, from, to, measure, way_id).ids == graph.ids,
        has_edge(with_stretch(graph, from, to, measure, way_id), a, b, other, other_measure) == (has_edge(graph, a, b, other, other_measure) || (graph.ids[from] == a
            && graph.ids[to] == b && other == way_id && other_measure == measure)),
{
    let after = with_stretch(graph, from, to, measure, way_id);
    let last = graph.forward[from].len() as int;
    assert forall|node: int, i: int| 0 <= node < after.ids.len() && 0 <= i < after.forward[node].len() implies (#[trigger] after.forward[node][i]).to < after.ids.len() by {
        if !(node == from && i == last) {
            assert(graph.forward[node][i].to < graph.ids.len());
        }
    }
    if has_edge(after, a, b, other, other_measure) {
        let (node, i) = choose|node: int, i: int| #[trigger] is_edge(after, node, i, a, b, other, other_measure);
        if !(node == from && i == last) {
            assert(is_edge(graph, node, i, a, b, other, other_measure));
        }
    }
    if has_edge(graph, a, b, other, other_measure) {
        let (node, i) = choose|node: int, i: int| #[trigger] is_edge(graph, node, i, a, b, other, other_measure);
        assert(is_edge(after, node, i, a, b, other, other_measure));
    }
    if graph.ids[from] == a && graph.ids[to] == b && other == way_id && other_measure == measure {
        assert(is_edge(after, from, last, a, b, other, other_measure));
    }
}

proof fn tags_tell_direction(mode: StreetMode, way: OsmWay)
    ensures
        travelled_as_drawn(mode, way) == (direction_of(mode, way.tags@) != TravelDirection::ReverseOnly),
        travelled_back(mode, way) == (direction_of(mode, way.tags@) != TravelDirection::ForwardOnly),
{
    reveal_strlit("yes");
    reveal_strlit("true");
    reveal_strlit("1");
    reveal_strlit("-1");
    assert("-1"@.len() == 2 && "1"@.len() == 1 && "yes"@.len() == 3 && "true"@.len() == 4);
}

proof fn stretch_is_led_along(graph: GraphView, places: Map<i64, PolylinePoint>, mode: StreetMode, way: OsmWay, k: int, a: i64, b: i64, way_id: i64, measure: Measure)
    requires
        edges_within(graph),
        0 <= k < stretch_count(way),
        after_stretch(graph, places, mode, way, k) is Ok,
    ensures
        edges_within(after_stretch(graph, places, mode, way, k)->Ok_0),
        has_edge(after_stretch(graph, places, mode, way, k)->Ok_0, a, b, way_id, measure) == (has_edge(graph, a, b, way_id, measure) || (way.id == way_id && (
        travelled_as_drawn(mode, way) && draws(way, places, k, a, b, measure) || travelled_back(mode, way) && draws(way, places, k, b, a, measure)))),
{
    let first = way.nodes@[k];
    let second = way.nodes@[k + 1];
    tags_tell_direction(mode, way);
    if places.dom().contains(first) && places.dom().contains(second) {
        let one = with_node(graph, first, places[first]);
        let noded = with_node(one, second, places[second]);
        node_keeps_edges(graph, first, places[first], a, b, way_id, measure);
        node_keeps_edges(one, second, places[second], a, b, way_id, measure);
        place_bounds(graph.ids, first);
        if place_of(graph.ids, first) == graph.ids.len() {
            places_after_push(graph.ids, first);
        }
        place_bounds(one.ids, first);
        place_bounds(one.ids, second);
        if place_of(one.ids, second) == one.ids.len() {
            places_after_push(one.ids, second);
        }
        place_bounds(noded.ids, first);
        place_bounds(noded.ids, second);
        let from = place_of(noded.ids, first);
        let to = place_of(noded.ids, second);
        assert(from < noded.ids.len() && to < noded.ids.len());
        if from != to && way.measures@[k] is Some && from <= u32::MAX && to <= u32::MAX {
            let own = way.measures@[k]->0;
            assert(first != second);
            stretch_adds_an_edge(noded, from, to, own, way.id, a, b, way_id, measure);
            stretch_adds_an_edge(noded, to, from, own, way.id, a, b, way_id, measure);
            let forward = with_stretch(noded, from, to, own, way.id);
            stretch_adds_an_edge(forward, to, from, own, way.id, a, b, way_id, measure);
        }
    }
}

proof fn way_is_led_along(graph: GraphView, places: Map<i64, PolylinePoint>, mode: StreetMode, way: OsmWay, n: int, a: i64, b: i64, way_id: i64, measure: Measure)
    requires
        edges_within(graph),
        0 <= n <= stretch_count(way),
        after_way(graph, places, mode, way, n) is Ok,
    ensures
        edges_within(after_way(graph, places, mode, way, n)->Ok_0),
        has_edge(after_way(graph, places, mode, way, n)->Ok_0, a, b, way_id, measure) == (has_edge(graph, a, b, way_id, measure) || (way.id == way_id && ((
        travelled_as_drawn(mode, way) && exists|k: int| k < n && #[trigger] draws(way, places, k, a, b, measure)) || (travelled_back(mode, way) && exists|k: int|
            k < n && #[trigger] draws(way, places, k, b, a, measure))))),
    decreases n,
{
    if n > 0 {
        way_is_led_along(graph, places, mode, way, n - 1, a, b, way_id, measure);
        let before = after_way(graph, places, mode, way, n - 1)->Ok_0;
        stretch_is_led_along(before, places, mode, way, n - 1, a, b, way_id, measure);
    }
}

proof fn ways_are_led_along(places: Map<i64, PolylinePoint>, mode: StreetMode, ways: Seq<OsmWay>, n: int, a: i64, b: i64, way_id: i64, measure: Measure)
    requires
        0 <= n <= ways.len(),
        graph_of(places, mode, ways, n) is Ok,
    ensures
        edges_within(graph_of(places, mode, ways, n)->Ok_0),
        has_edge(graph_of(places, mode, ways, n)->Ok_0, a, b, way_id, measure) == (exists|w: int|
            0 <= w < n && (#[trigger] ways[w]).id == way_id && way_leads(mode, ways[w], places, a, b, measure)),
    decreases n,
{
    if n > 0 {
        ways_are_led_along(places, mode, ways, n - 1, a, b, way_id, measure);
        let before = graph_of(places, mode, ways, n - 1)->Ok_0;
        let way = ways[n - 1];
        way_is_led_along(before, places, mode, way, stretch_count(way), a, b, way_id, measure);
        assert(is_drawn(way, places, a, b, measure) == exists|k: int| k < stretch_count(way) && #[trigger] draws(way, places, k, a, b, measure)) by {
            if is_drawn(way, places, a, b, measure) {
                let k = choose|k: int| #[trigger] draws(way, places, k, a, b, measure);
                assert(k < stretch_count(way) && draws(way, places, k, a, b, measure));
            }
        }
        assert(is_drawn(way, places, b, a, measure) == exists|k: int| k < stretch_count(way) && #[trigger] draws(way, places, k, b, a, measure)) by {
            if is_drawn(way, places, b, a, measure) {
                let k = choose|k: int| #[trigger] draws(way, places, k, b, a, measure);
                assert(k < stretch_count(way) && draws(way, places, k, b, a, measure));
            }
        }
        if exists|w: int| 0 <= w < n - 1 && (#[trigger] ways[w]).id == way_id && way_leads(mode, ways[w], places, a, b, measure) {
            let w = choose|w: int| 0 <= w < n - 1 && (#[trigger] ways[w]).id == way_id && way_leads(mode, ways[w], places, a, b, measure);
            assert(0 <= w < n && ways[w].id == way_id);
        }
    } else {
        let empty = graph_of(places, mode, ways, n)->Ok_0;
        if has_edge(empty, a, b, way_id, measure) {
            let (node, i) = choose|node: int, i: int| #[trigger] is_edge(empty, node, i, a, b, way_id, measure);
        }
    }
}

/// A network leads from one node straight to another along a way if and only if the way
/// does: on foot in both directions; by car in the direction in which it is drawn where
/// it is a roundabout or says that it is one-way, in the other where it says that it is
/// one-way against it, and else in both.
pub proof fn networks_lead_along_their_ways(
    built: StreetGraph,
    places: Map<i64, PolylinePoint>,
    mode: StreetMode,
    ways: Seq<OsmWay>,
    a: i64,
    b: i64,
    way_id: i64,
    measure: Measure,
)
    requires
        graph_of(places, mode, ways, ways.len() as int) is Ok,
        is_network_of(built, graph_of(places, mode, ways, ways.len() as int)->Ok_0),
    ensures
        leads_along(built, a, b, way_id, measure) == (exists|w: int|
            0 <= w < ways.len() && (#[trigger] ways[w]).id == way_id && way_leads(mode, ways[w], places, a, b, measure)),
{
    let graph = graph_of(places, mode, ways, ways.len() as int)->Ok_0;
    ways_are_led_along(places, mode, ways, ways.len() as int, a, b, way_id, measure);
    if leads_along(built, a, b, way_id, measure) {
        let (node, i) = choose|node: int, i: int| #[trigger] is_stretch_of(built, node, i, a, b, way_id, measure);
        assert(network_row(built.network, false, node) == graph.forward[node]);
        assert(is_edge(graph, node, i, a, b, way_id, measure));
    }
    if has_edge(graph, a, b, way_id, measure) {
        let (node, i) = choose|node: int, i: int| #[trigger] is_edge(graph, node, i, a, b, way_id, measure);
        assert(network_row(built.network, false, node) == graph.forward[node]);
        assert(is_stretch_of(built, node, i, a, b, way_id, measure));
    }
}

/// Whether no other way has the id of a way.
pub open spec fn id_is_its_own(ways: Seq<OsmWay>, w: int) -> bool {
    forall|v: int| 0 <= v < ways.len() && (#[trigger] ways[v]).id == ways[w].id ==> v == w
}

/// A roundabout is driven in the direction in which it is drawn, whatever else its tags
/// say: the network leads along it from each node to the next, and never back.
pub proof fn roundabouts_are_driven_as_drawn(built: StreetGraph, places: Map<i64, PolylinePoint>, ways: Seq<OsmWay>, w: int, a: i64, b: i64, measure: Measure)
    requires
        graph_of(places, StreetMode::Drive, ways, ways.len() as int) is Ok,
        is_network_of(built, graph_of(places, StreetMode::Drive, ways, ways.len() as int)->Ok_0),
        0 <= w < ways.len(),
        id_is_its_own(ways, w),
        tag(ways[w].tags@, "junction"@) == Some("roundabout"@),
    ensures
        leads_along(built, a, b, ways[w].id, measure) == is_drawn(ways[w], places, a, b, measure),
{
    networks_lead_along_their_ways(built, places, StreetMode::Drive, ways, a, b, ways[w].id, measure);
}

/// A one-way road that is no roundabout is driven in the direction that it says.
pub proof fn oneway_roads_are_driven_one_way(built: StreetGraph, places: Map<i64, PolylinePoint>, ways: Seq<OsmWay>, w: int, a: i64, b: i64, measure: Measure)
    requires
        graph_of(places, StreetMode::Drive, ways, ways.len() as int) is Ok,
        is_network_of(built, graph_of(places, StreetMode::Drive, ways, ways.len() as int)->Ok_0),
        0 <= w < ways.len(),
        id_is_its_own(ways, w),
        tag(ways[w].tags@, "junction"@) != Some("roundabout"@),
    ensures
        tag(ways[w].tags@, "oneway"@) == Some("yes"@) || tag(ways[w].tags@, "oneway"@) == Some("true"@) || tag(ways[w].tags@, "oneway"@) == Some("1"@) ==> leads_along(
            built,
            a,
            b,
            ways[w].id,
            measure,
        ) == is_drawn(ways[w], places, a, b, measure),
        tag(ways[w].tags@, "oneway"@) == Some("-1"@) ==> leads_along(built, a, b, ways[w].id, measure) == is_drawn(ways[w], places, b, a, measure),
        tag(ways[w].tags@, "oneway"@) is None || tag(ways[w].tags@, "oneway"@) == Some("no"@) ==> leads_along(built, a, b, ways[w].id, measure) == (is_drawn(
            ways[w],
            places,
            a,
            b,
            measure,
        ) || is_drawn(ways[w], places, b, a, measure)),
{
    networks_lead_along_their_ways(built, places, StreetMode::Drive, ways, a, b, ways[w].id, measure);
    reveal_strlit("yes");
    reveal_strlit("true");
    reveal_strlit("1");
    reveal_strlit("-1");
    reveal_strlit("no");
    assert("-1"@.len() == 2 && "1"@.len() == 1 && "yes"@.len() == 3 && "true"@.len() == 4 && "no"@.len() == 2);
    assert("-1"@[0] == '-' && "no"@[0] == 'n');
}

/// On foot every way is walked in both directions, one-way or not.
pub proof fn ways_are_walked_in_both_directions(built: StreetGraph, places: Map<i64, PolylinePoint>, ways: Seq<OsmWay>, w: int, a: i64, b: i64, measure: Measure)
    requires
        graph_of(places, StreetMode::Walk, ways, ways.len() as int) is Ok,
        is_network_of(built, graph_of(places, StreetMode::Walk, ways, ways.len() as int)->Ok_0),
        0 <= w < ways.len(),
        id_is_its_own(ways, w),
    ensures
        leads_along(built, a, b, ways[w].id, measure) == (is_drawn(ways[w], places, a, b, measure) || is_drawn(ways[w], places, b, a, measure)),
{
    networks_lead_along_their_ways(built, places, StreetMode::Walk, ways, a, b, ways[w].id, measure);
}

/// A way that is closed to all, or an area, is in no network; a way is not walked where
/// pedestrians are kept off it, and not driven where motor vehicles are.
pub proof fn closed_ways_are_in_no_network(mode: StreetMode, tags: Map<Seq<char>, String>)
    ensures
        tag(tags, "access"@) == Some("no"@) || tag(tags, "access"@) == Some("private"@) || tag(tags, "area"@) == Some("yes"@) ==> !in_network(mode, tags),
        tag(tags, "foot"@) == Some("no"@) || tag(tags, "foot"@) == Some("private"@) || tag(tags, "foot"@) == Some("use_sidepath"@) || tag(tags, "pedestrian"@) == Some("no"@)
            ==> !in_network(StreetMode::Walk, tags),
        tag(tags, "motor_vehicle"@) == Some("no"@) || tag(tags, "motor_vehicle"@) == Some("private"@) || tag(tags, "motorcar"@) == Some("no"@) || tag(tags, "motorcar"@) == Some(
            "private"@,
        ) ==> !in_network(StreetMode::Drive, tags),
{
}

/// Whether nothing keeps travellers off a way.
pub open spec fn is_open_to_all(tags: Map<Seq<char>, String>) -> bool {
    &&& tag(tags, "access"@) is None
    &&& tag(tags, "area"@) is None
    &&& tag(tags, "foot"@) is None
    &&& tag(tags, "pedestrian"@) is None
    &&& tag(tags, "motor_vehicle"@) is None
    &&& tag(tags, "motorcar"@) is None
}

/// An ordinary street is walked and driven; a motorway is driven and not walked; a footway,
/// a path or steps are walked and not driven; what is not yet built is neither; and a way
/// that is no road is never driven, and walked only where it is a platform.
pub proof fn roads_are_travelled_by_their_kind(tags: Map<Seq<char>, String>)
    requires
        is_open_to_all(tags),
    ensures
        ({
            let kind = tag(tags, "highway"@);
            let walked = in_network(StreetMode::Walk, tags);
            let driven = in_network(StreetMode::Drive, tags);
            &&& kind == Some("residential"@) || kind == Some("primary"@) || kind == Some("secondary"@) || kind == Some("tertiary"@) || kind == Some("service"@) || kind == Some(
                "living_street"@,
            ) || kind == Some("unclassified"@) || kind == Some("track"@) ==> walked && driven
            &&& kind == Some("motorway"@) || kind == Some("motorway_link"@) || kind == Some("trunk"@) || kind == Some("trunk_link"@) ==> driven && !walked
            &&& kind == Some("footway"@) || kind == Some("path"@) || kind == Some("cycleway"@) || kind == Some("steps"@) || kind == Some("bridleway"@) || kind == Some("corridor"@)
                || kind == Some("pedestrian"@) || kind == Some("platform"@) ==> walked && !driven
            &&& kind == Some("construction"@) || kind == Some("proposed"@) || kind == Some("raceway"@) || kind == Some("bus_guideway"@) ==> !walked && !driven
            &&& kind is None ==> !driven && (walked <==> tag(tags, "railway"@) == Some("platform"@) || tag(tags, "public_transport"@) == Some("platform"@))
        }),
{
    kinds_differ();
}

proof fn kinds_differ()
    ensures
        !unwalkable_road("residential"@) && !unwalkable_road("primary"@) && !unwalkable_road("secondary"@) && !unwalkable_road("tertiary"@) && !unwalkable_road("service"@)
            && !unwalkable_road("living_street"@) && !unwalkable_road("unclassified"@) && !unwalkable_road("track"@),
        !undriveable_road("residential"@) && !undriveable_road("primary"@) && !undriveable_road("secondary"@) && !undriveable_road("tertiary"@) && !undriveable_road("service"@)
            && !undriveable_road("living_street"@) && !undriveable_road("unclassified"@) && !undriveable_road("track"@),
        !undriveable_road("motorway"@) && !undriveable_road("motorway_link"@) && !undriveable_road("trunk"@) && !undriveable_road("trunk_link"@),
        !unwalkable_road("footway"@) && !unwalkable_road("path"@) && !unwalkable_road("cycleway"@) && !unwalkable_road("steps"@) && !unwalkable_road("bridleway"@)
            && !unwalkable_road("corridor"@) && !unwalkable_road("pedestrian"@) && !unwalkable_road("platform"@),
{
    first_letters();
}

proof fn first_letters()
    ensures
        "residential"@[0] == 'r' && "residential"@[1] == 'e' && "primary"@[0] == 'p' && "primary"@[1] == 'r' && "primary"@[2] == 'i' && "secondary"@[0] == 's' && "secondary"@[1] == 'e'
            && "tertiary"@[0] == 't' && "tertiary"@[1] == 'e' && "service"@[0] == 's' && "service"@[1] == 'e' && "living_street"@[0] == 'l' && "unclassified"@[0] == 'u',
        "track"@[0] == 't' && "track"@[1] == 'r' && "track"@[2] == 'a' && "motorway"@[0] == 'm' && "motorway_link"@[0] == 'm' && "trunk"@[0] == 't' && "trunk"@[1] == 'r'
            && "trunk"@[2] == 'u' && "trunk_link"@[0] == 't' && "trunk_link"@[1] == 'r' && "trunk_link"@[2] == 'u',
        "footway"@[0] == 'f' && "path"@[0] == 'p' && "path"@[1] == 'a' && "cycleway"@[0] == 'c' && "cycleway"@[1] == 'y' && "steps"@[0] == 's' && "steps"@[1] == 't'
            && "bridleway"@[0] == 'b' && "bridleway"@[1] == 'r' && "corridor"@[0] == 'c' && "corridor"@[1] == 'o' && "corridor"@[2] == 'r',
        "pedestrian"@[0] == 'p' && "pedestrian"@[1] == 'e' && "platform"@[0] == 'p' && "platform"@[1] == 'l',
        "construction"@[0] == 'c' && "construction"@[1] == 'o' && "construction"@[2] == 'n' && "proposed"@[0] == 'p' && "proposed"@[1] == 'r' && "proposed"@[2] == 'o'
            && "raceway"@[0] == 'r' && "raceway"@[1] == 'a' && "bus_guideway"@[0] == 'b' && "bus_guideway"@[1] == 'u',
{
    reveal_strlit("residential");
    reveal_strlit("primary");
    reveal_strlit("secondary");
    reveal_strlit("tertiary");
    reveal_strlit("service");
    reveal_strlit("living_street");
    reveal_strlit("unclassified");
    reveal_strlit("track");
    reveal_strlit("motorway");
    reveal_strlit("motorway_link");
    reveal_strlit("trunk");
    reveal_strlit("trunk_link");
    reveal_strlit("footway");
    reveal_strlit("path");
    reveal_strlit("cycleway");
    reveal_strlit("steps");
    reveal_strlit("bridleway");
    reveal_strlit("corridor");
    reveal_strlit("pedestrian");
    reveal_strlit("platform");
    reveal_strlit("construction");
    reveal_strlit("proposed");
    reveal_strlit("raceway");
    reveal_strlit("bus_guideway");
}

proof fn open_edges_are_open(edges: Seq<StreetEdge>, blocked: Set<i64>, n: int)
    requires
        0 <= n <= edges.len(),
    ensures
        forall|edge: StreetEdge| #[trigger] open_edges(edges, blocked, n).contains(edge) <==> edges.take(n).contains(edge) && !blocked.contains(edge.way_id),
    decreases n,
{
    if n > 0 {
        open_edges_are_open(edges, blocked, n - 1);
        let before = open_edges(edges, blocked, n - 1);
        let after = open_edges(edges, blocked, n);
        let last = edges[n - 1];
        assert(edges.take(n)[n - 1] == last);
        assert forall|edge: StreetEdge| #[trigger] after.contains(edge) <==> edges.take(n).contains(edge) && !blocked.contains(edge.way_id) by {
            if after.contains(edge) {
                let i = after.index_of(edge);
                if i < before.len() {
                    assert(before[i] == edge);
                    assert(before.contains(edge));
                    let k = edges.take(n - 1).index_of(edge);
                    assert(edges.take(n)[k] == edge);
                }
            }
            if edges.take(n).contains(edge) && !blocked.contains(edge.way_id) {
                let k = edges.take(n).index_of(edge);
                if k < n - 1 {
                    assert(edges.take(n - 1)[k] == edge);
                    assert(before.contains(edge));
                    let i = before.index_of(edge);
                    assert(after[i] == edge);
                } else {
                    assert(after.last() == edge);
                }
            }
        }
    }
}

/// From a node a route goes on along the stretches of the network that are not on closed
/// ways, along those that changes have added, and along no others.
pub proof fn routes_keep_off_closed_ways(streets: StreetView, node: usize, edge: StreetEdge)
    requires
        node < streets.network.node_count,
    ensures
        adjacent(streets, false, node).contains(edge) <==> {
            ||| network_row(streets.network, false, node as int).contains(edge) && !streets.overlay.blocked_way_ids@.contains(edge.way_id)
            ||| streets.overlay.forward_adjacency@.dom().contains(node) && streets.overlay.forward_adjacency@[node]@.contains(edge)
        },
{
    let row = network_row(streets.network, false, node as int);
    let blocked = streets.overlay.blocked_way_ids@;
    open_edges_are_open(row, blocked, row.len() as int);
    assert(row.take(row.len() as int) =~= row);
    let open = open_edges(row, blocked, row.len() as int);
    let added = added_edges(streets.overlay.forward_adjacency@, node);
    let all = adjacent(streets, false, node);
    assert(all =~= open + added);
    if all.contains(edge) {
        let i = all.index_of(edge);
        if i < open.len() {
            assert(open[i] == edge);
            assert(open.contains(edge));
        } else {
            assert(added[i - open.len()] == edge);
        }
    }
    if open.contains(edge) {
        let i = open.index_of(edge);
        assert(all[i] == edge);
    }
    if added.contains(edge) {
        let i = added.index_of(edge);
        assert(all[open.len() + i] == edge);
    }
}

/// Of a way that has changed the last change counts: where the way was deleted, is no part
/// of the network any more, or has fewer than two nodes that are known, nothing takes its
/// place; else the way as it was changed does. A way that has not changed stays as it is.
pub proof fn last_changes_count(draft: DraftView, mode: StreetMode, changes: Seq<WayChangeView>, n: int, i: int)
    requires
        0 <= i < n <= changes.len(),
        forall|k: int| i < k < n ==> (#[trigger] changes[k]).way_id != changes[i].way_id,
    ensures
        ({
            let after = after_changes(draft, mode, changes, n);
            let change = changes[i];
            let key = way_key(change.way_id);
            let counts = change.action != OscAction::Delete && in_network(mode, change.tags) && change.coordinates.len() >= 2 && change.node_refs.len() >= 2;
            &&& after.blocked.dom().contains(key) && after.blocked[key] == change.way_id
            &&& after.overrides.dom().contains(key) <==> counts
            &&& counts ==> after.overrides[key].way_id == change.way_id && after.overrides[key].node_refs == change.node_refs && after.overrides[key].coordinates == change.coordinates
                && after.overrides[key].tags == change.tags
        }),
    decreases n,
{
    if i < n - 1 {
        last_changes_count(draft, mode, changes, n - 1, i);
        if way_key(changes[n - 1].way_id) == way_key(changes[i].way_id) {
            way_keys_differ(changes[n - 1].way_id, changes[i].way_id);
        }
    }
}

/// Whether what is laid over a network has a stretch of a way from one node to another.
pub open spec fn overlay_leads(laid: OverlayView, x: int, y: int, way_id: i64, measure: Measure) -> bool {
    list_at(laid.forward, x as usize).contains(stretch(y, measure, way_id))
}

/// Whether a way is drawn from one numbered node straight to another.
pub open spec fn overlay_draws(network: Map<i64, usize>, node_count: int, ids: Seq<i64>, way: OverrideView, measures: Seq<Option<Measure>>, k: int, x: int, y: int, measure: Measure) -> bool {
    &&& 0 <= k < placed_stretches(way)
    &&& overlay_index(network, node_count, ids, way.node_refs[k]) == x
    &&& overlay_index(network, node_count, ids, way.node_refs[k + 1]) == y
    &&& x != y
    &&& measures[k] == Some(measure)
}

/// Whether a way that takes the place of another is travelled as it is drawn.
pub open spec fn overlay_as_drawn(mode: StreetMode, way: OverrideView) -> bool {
    mode == StreetMode::Walk || tag(way.tags, "junction"@) == Some("roundabout"@) || tag(way.tags, "oneway"@) != Some("-1"@)
}

/// Whether a way that takes the place of another is travelled against how it is drawn.
pub open spec fn overlay_back(mode: StreetMode, way: OverrideView) -> bool {
    let oneway = tag(way.tags, "oneway"@);
    mode == StreetMode::Walk || (tag(way.tags, "junction"@) != Some("roundabout"@) && oneway != Some("yes"@) && oneway != Some("true"@) && oneway != Some("1"@))
}

proof fn overlay_direction(mode: StreetMode, way: OverrideView)
    ensures
        overlay_as_drawn(mode, way) == (direction_of(mode, way.tags) != TravelDirection::ReverseOnly),
        overlay_back(mode, way) == (direction_of(mode, way.tags) != TravelDirection::ForwardOnly),
{
    reveal_strlit("yes");
    reveal_strlit("true");
    reveal_strlit("1");
    reveal_strlit("-1");
    assert("-1"@.len() == 2 && "1"@.len() == 1 && "yes"@.len() == 3 && "true"@.len() == 4);
}

/// Laying a way over a network adds its stretches in the directions in which its tags say
/// that it is travelled, and no others.
pub proof fn laid_ways_lead_as_their_tags_say(
    overlay: OverlayView,
    network: Map<i64, usize>,
    node_count: int,
    mode: StreetMode,
    way: OverrideView,
    measures: Seq<Option<Measure>>,
    k: int,
    x: int,
    y: int,
    way_id: i64,
    measure: Measure,
)
    requires
        0 <= k < placed_stretches(way),
        0 <= x <= u32::MAX,
        0 <= y <= u32::MAX,
        0 <= node_count,
        node_count + overlay.ids.len() + 2 <= u32::MAX,
        forall|id: i64| #[trigger] network.dom().contains(id) ==> network[id] < node_count,
    ensures
        ({
            let after = after_overlay_stretch(overlay, network, node_count, mode, way, measures, k);
            overlay_leads(after, x, y, way_id, measure) == (overlay_leads(overlay, x, y, way_id, measure) || (way_id == way.way_id && (overlay_as_drawn(mode, way) && overlay_draws(
                network,
                node_count,
                after.ids,
                way,
                measures,
                k,
                x,
                y,
                measure,
            ) || overlay_back(mode, way) && overlay_draws(network, node_count, after.ids, way, measures, k, y, x, measure))))
        }),
{
    overlay_direction(mode, way);
    let a = way.node_refs[k];
    let b = way.node_refs[k + 1];
    let one = with_overlay_node(overlay, network, a, way.coordinates[k]);
    let noded = with_overlay_node(one, network, b, way.coordinates[k + 1]);
    place_bounds(overlay.ids, a);
    place_bounds(one.ids, b);
    place_bounds(noded.ids, a);
    place_bounds(noded.ids, b);
    let from = overlay_index(network, node_count, noded.ids, a);
    let to = overlay_index(network, node_count, noded.ids, b);
    assert(0 <= from <= u32::MAX && 0 <= to <= u32::MAX);
    if from != to && measures[k] is Some {
        let own = measures[k]->0;
        overlay_stretch_leads(noded, from, to, own, way.way_id, x, y, way_id, measure);
        overlay_stretch_leads(noded, to, from, own, way.way_id, x, y, way_id, measure);
        overlay_stretch_leads(with_overlay_stretch(noded, from, to, own, way.way_id), to, from, own, way.way_id, x, y, way_id, measure);
    }
}

proof fn overlay_stretch_leads(overlay: OverlayView, from: int, to: int, own: Measure, own_id: i64, x: int, y: int, way_id: i64, measure: Measure)
    requires
        0 <= from <= u32::MAX,
        0 <= to <= u32::MAX,
        0 <= x <= u32::MAX,
        0 <= y <= u32::MAX,
    ensures
        overlay_leads(with_overlay_stretch(overlay, from, to, own, own_id), x, y, way_id, measure) == (overlay_leads(overlay, x, y, way_id, measure) || (from == x && to == y && own_id
            == way_id && own == measure)),
        with_overlay_stretch(overlay, from, to, own, own_id).ids == overlay.ids,
{
    let after = with_overlay_stretch(overlay, from, to, own, own_id);
    let edge = stretch(y, measure, way_id);
    let before_list = list_at(overlay.forward, x as usize);
    let list = list_at(after.forward, x as usize);
    if from == x {
        assert(list == before_list.push(stretch(to, own, own_id)));
        if list.contains(edge) {
            let i = list.index_of(edge);
            if i < before_list.len() {
                assert(before_list[i] == edge);
            } else {
                assert(stretch(to, own, own_id) == edge);
                assert(own == measure);
            }
        }
        if before_list.contains(edge) {
            let i = before_list.index_of(edge);
            assert(list[i] == edge);
        }
        if to == y && own_id == way_id && own == measure {
            assert(list.last() == edge);
        }
    } else {
        assert(from as usize != x as usize);
        assert(list =~= before_list);
    }
}

/// The greater a road, the faster it is driven where nothing is said of its speed, and
/// every road is driven faster than it is walked. (The bits of two positive numbers are
/// ordered as the numbers are.)
pub proof fn greater_roads_are_faster()
    ensures
        road_speed(Some("motorway"@)) > road_speed(Some("trunk"@)) > road_speed(Some("primary"@)) > road_speed(Some("secondary"@)) > road_speed(Some("tertiary"@)) > road_speed(
            Some("residential"@),
        ) > road_speed(Some("service"@)) > road_speed(Some("track"@)),
        forall|kind: Option<Seq<char>>| #[trigger] road_speed(kind) > 4608758678669597082u64,
{
    first_letters();
    longer_names();
}

proof fn longer_names()
    ensures
        "motorway"@.len() == 8 && "motorway_link"@.len() == 13 && "trunk"@.len() == 5 && "trunk_link"@.len() == 10 && "primary"@.len() == 7 && "primary_link"@.len() == 12,
        "secondary"@.len() == 9 && "secondary_link"@.len() == 14 && "tertiary"@.len() == 8 && "tertiary_link"@.len() == 13 && "residential"@.len() == 11,
        "living_street"@.len() == 13 && "service"@.len() == 7 && "track"@.len() == 5,
{
    reveal_strlit("motorway");
    reveal_strlit("motorway_link");
    reveal_strlit("trunk");
    reveal_strlit("trunk_link");
    reveal_strlit("primary");
    reveal_strlit("primary_link");
    reveal_strlit("secondary");
    reveal_strlit("secondary_link");
    reveal_strlit("tertiary");
    reveal_strlit("tertiary_link");
    reveal_strlit("residential");
    reveal_strlit("living_street");
    reveal_strlit("service");
    reveal_strlit("track");
}

} // verus!
