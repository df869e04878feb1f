//! Ways that took the places of others, laid over a network; and the lines of
//! routes through both.

use crate::keyed_store::{KeyedStore, StoreKey};
use crate::model::PolylinePoint;
use crate::number::Real;
use crate::street_diff::{OverrideView, StreetOverlayDraft, StreetOverlayWay};
use crate::street_graph::{network_consistent, network_row, place_of, stretch, Measure};
use crate::street_search::{
    added_edges, adjacent, has_counterpart, open_edges, streets_consistent, turned, StreetEdge, StreetNetwork, StreetOverlayEdges, StreetView,
};
use crate::street_tags::{direction_of, way_direction, StreetMode, TravelDirection};
use crate::walk_geometry::{WalkGeometry, WalkView};
use std::collections::{HashMap, HashSet};
use vstd::prelude::*;

verus! {

/// What is laid over a network: the ids and places of nodes that it does not
/// have, and the stretches out of and into nodes.
pub struct OverlayView {
    pub ids: Seq<i64>,
    pub places: Seq<PolylinePoint>,
    pub forward: Map<usize, Seq<StreetEdge>>,
    pub reverse: Map<usize, Seq<StreetEdge>>,
}

/// The number of a node: that in the network, or one behind those.
pub open spec fn overlay_index(network: Map<i64, usize>, node_count: int, ids: Seq<i64>, id: i64) -> int {
    if network.dom().contains(id) { network[id] as int } else { node_count + place_of(ids, id) }
}

/// What is laid over a network with a node, if neither has it yet.
pub open spec fn with_overlay_node(overlay: OverlayView, network: Map<i64, usize>, id: i64, place: PolylinePoint) -> OverlayView {
    if network.dom().contains(id) || place_of(overlay.ids, id) < overlay.ids.len() {
        overlay
    } else {
        OverlayView { ids: overlay.ids.push(id), places: overlay.places.push(place), ..overlay }
    }
}

/// Lists with one more stretch at a node.
pub open spec fn with_edge(edges: Map<usize, Seq<StreetEdge>>, node: int, edge: StreetEdge) -> Map<usize, Seq<StreetEdge>> {
    let at = node as usize;
    edges.insert(at, (if edges.dom().contains(at) { edges[at] } else { Seq::empty() }).push(edge))
}

/// What is laid over a network with a stretch. One between nodes that cannot be
/// numbered is left out.
pub open spec fn with_overlay_stretch(overlay: OverlayView, from: int, to: int, measure: Measure, way_id: i64) -> OverlayView {
    if from > u32::MAX || to > u32::MAX {
        overlay
    } else {
        OverlayView {
            forward: with_edge(overlay.forward, from, stretch(to, measure, way_id)),
            reverse: with_edge(overlay.reverse, to, stretch(from, measure, way_id)),
            ..overlay
        }
    }
}

/// What is laid over a network with a stretch in the directions in which it is
/// travelled.
pub open spec fn with_overlay_stretches(overlay: OverlayView, direction: TravelDirection, from: int, to: int, measure: Measure, way_id: i64) -> OverlayView {
    match direction {
        TravelDirection::Both => with_overlay_stretch(with_overlay_stretch(overlay, from, to, measure, way_id), to, from, measure, way_id),
        TravelDirection::ForwardOnly => with_overlay_stretch(overlay, from, to, measure, way_id),
        TravelDirection::ReverseOnly => with_overlay_stretch(overlay, to, from, measure, way_id),
    }
}

/// What is laid over a network after the stretch behind the `k`th node of a way.
pub open spec fn after_overlay_stretch(
    overlay: OverlayView,
    network: Map<i64, usize>,
    node_count: int,
    mode: StreetMode,
    way: OverrideView,
    measures: Seq<Option<Measure>>,
    k: int,
) -> OverlayView {
    let a = way.node_refs[k];
    let b = way.node_refs[k + 1];
    let noded = with_overlay_node(with_overlay_node(overlay, network, a, way.coordinates[k]), network, b, way.coordinates[k + 1]);
    let from = overlay_index(network, node_count, noded.ids, a);
    let to = overlay_index(network, node_count, noded.ids, b);
    if from == to || measures[k] is None {
        noded
    } else {
        with_overlay_stretches(noded, direction_of(mode, way.tags), from, to, measures[k]->0, way.way_id)
    }
}

/// What is laid over a network after the first `n` stretches of a way.
pub open spec fn after_overlay_way(
    overlay: OverlayView,
    network: Map<i64, usize>,
    node_count: int,
    mode: StreetMode,
    way: OverrideView,
    measures: Seq<Option<Measure>>,
    n: int,
) -> OverlayView
    decreases n,
{
    if n <= 0 {
        overlay
    } else {
        after_overlay_stretch(after_overlay_way(overlay, network, node_count, mode, way, measures, n - 1), network, node_count, mode, way, measures, n - 1)
    }
}

/// How many stretches a way has of which both nodes have a place.
pub open spec fn placed_stretches(way: OverrideView) -> int {
    let nodes = if way.node_refs.len() <= way.coordinates.len() { way.node_refs.len() as int } else { way.coordinates.len() as int };
    if nodes > 0 { nodes - 1 } else { 0 }
}

/// What is laid over a network by the first `n` ways.
pub open spec fn overlay_of(
    network: Map<i64, usize>,
    node_count: int,
    mode: StreetMode,
    ways: Seq<OverrideView>,
    measures: Seq<Seq<Option<Measure>>>,
    n: int,
) -> OverlayView
    decreases n,
{
    if n <= 0 {
        OverlayView { ids: Seq::empty(), places: Seq::empty(), forward: Map::empty(), reverse: Map::empty() }
    } else {
        let before = overlay_of(network, node_count, mode, ways, measures, n - 1);
        after_overlay_way(before, network, node_count, mode, ways[n - 1], measures[n - 1], placed_stretches(ways[n - 1]))
    }
}

/// The stretches laid over a network, out of nodes or into them.
pub open spec fn overlay_lists(overlay: OverlayView, reverse: bool) -> Map<usize, Seq<StreetEdge>> {
    if reverse { overlay.reverse } else { overlay.forward }
}

/// The stretches at a node.
pub open spec fn list_at(edges: Map<usize, Seq<StreetEdge>>, node: usize) -> Seq<StreetEdge> {
    if edges.dom().contains(node) { edges[node] } else { Seq::empty() }
}

/// Whether the stretches into nodes are those out of nodes, and all lead to nodes.
pub open spec fn overlay_consistent(overlay: OverlayView, node_count: int) -> bool {
    &&& overlay.places.len() == overlay.ids.len()
    &&& forall|reverse: bool, node: usize, i: int| 0 <= i < list_at(overlay_lists(overlay, reverse), node).len() ==> #[trigger] is_mirrored(overlay, node_count, reverse, node, i)
}

/// Whether a stretch leads between nodes and has its counterpart.
pub open spec fn is_mirrored(overlay: OverlayView, node_count: int, reverse: bool, node: usize, i: int) -> bool {
    let edge = list_at(overlay_lists(overlay, reverse), node)[i];
    &&& node < node_count + overlay.ids.len()
    &&& edge.to < node_count + overlay.ids.len()
    &&& list_at(overlay_lists(overlay, !reverse), edge.to as usize).contains(turned(edge, node))
}

proof fn overlay_stretch_keeps_consistency(overlay: OverlayView, node_count: int, from: int, to: int, measure: Measure, way_id: i64)
    requires
        overlay_consistent(overlay, node_count),
        0 <= from < node_count + overlay.ids.len(),
        0 <= to < node_count + overlay.ids.len(),
        node_count + overlay.ids.len() <= usize::MAX,
    ensures
        overlay_consistent(with_overlay_stretch(overlay, from, to, measure, way_id), node_count),
        with_overlay_stretch(overlay, from, to, measure, way_id).ids == overlay.ids,
{
    let after = with_overlay_stretch(overlay, from, to, measure, way_id);
    if from <= u32::MAX && to <= u32::MAX {
        let out = stretch(to, measure, way_id);
        let back = stretch(from, measure, way_id);
        assert forall|reverse: bool, node: usize, i: int| 0 <= i < list_at(overlay_lists(after, reverse), node).len() implies #[trigger] is_mirrored(after, node_count, reverse, node, i) by {
            let edge = list_at(overlay_lists(after, reverse), node)[i];
            let own = if reverse { to } else { from };
            let other = if reverse { from } else { to };
            let old_list = list_at(overlay_lists(overlay, reverse), node);
            if node == own && i == old_list.len() {
                let partner = if reverse { out } else { back };
                assert(edge == if reverse { back } else { out });
                assert(edge.to == other);
                assert(turned(edge, node) == partner);
                let list = list_at(overlay_lists(after, !reverse), other as usize);
                assert(list[list_at(overlay_lists(overlay, !reverse), other as usize).len() as int] == partner);
            } else {
                assert(old_list[i] == edge);
                assert(is_mirrored(overlay, node_count, reverse, node, i));
                let list = list_at(overlay_lists(overlay, !reverse), edge.to as usize);
                assert(list.contains(turned(edge, node)));
                let at = choose|at: int| 0 <= at < list.len() && list[at] == turned(edge, node);
                assert(list_at(overlay_lists(after, !reverse), edge.to as usize)[at] == turned(edge, node));
            }
        }
    }
}

struct OverlayDraft {
    ids: Vec<i64>,
    places: Vec<PolylinePoint>,
    lookup: HashMap<i64, usize>,
    forward: HashMap<usize, Vec<StreetEdge>>,
    reverse: HashMap<usize, Vec<StreetEdge>>,
}

/// Lists by node as sequences.
pub open spec fn edge_lists(edges: Map<usize, Vec<StreetEdge>>) -> Map<usize, Seq<StreetEdge>> {
    Map::new(|node: usize| edges.dom().contains(node), |node: usize| edges[node]@)
}

fn push_edge(edges: &mut HashMap<usize, Vec<StreetEdge>>, node: usize, edge: StreetEdge)
    ensures
        edge_lists(final(edges)@) == with_edge(edge_lists(old(edges)@), node as int, edge),
{
    let ghost before = edges@;
    let mut list: Vec<StreetEdge> = match edges.remove(&node) {
        Some(list) => list,
        None => Vec::new(),
    };
    let ghost kept = list@;
    assert(kept == if before.dom().contains(node) { edge_lists(before)[node] } else { Seq::empty() });
    list.push(edge);
    edges.insert(node, list);
    assert(edge_lists(edges@) =~= edge_lists(before).insert(node, kept.push(edge)));
}

impl OverlayDraft {
    spec fn view(&self) -> OverlayView {
        OverlayView { ids: self.ids@, places: self.places@, forward: edge_lists(self.forward@), reverse: edge_lists(self.reverse@) }
    }

    spec fn wf(&self, node_count: int) -> bool {
        &&& overlay_consistent(self@, node_count)
        &&& forall|id: i64| #[trigger] self.lookup@.dom().contains(id) ==> self.lookup@[id] == place_of(self.ids@, id) && self.lookup@[id] < self.ids@.len()
        &&& forall|k: int| 0 <= k < self.ids@.len() ==> self.lookup@.dom().contains(#[trigger] self.ids@[k])
    }

    fn node_index(&mut self, network: &HashMap<i64, usize>, node_count: usize, id: i64, place: PolylinePoint) -> (index: usize)
        requires
            old(self).wf(node_count as int),
            node_count + old(self).ids@.len() < usize::MAX,
            forall|other: i64| #[trigger] network@.dom().contains(other) ==> network@[other] < node_count,
        ensures
            final(self).wf(node_count as int),
            final(self)@ == with_overlay_node(old(self)@, network@, id, place),
            index == overlay_index(network@, node_count as int, final(self)@.ids, id),
            index < node_count + final(self)@.ids.len(),
            final(self).ids@.len() <= old(self).ids@.len() + 1,
            forall|other: i64| place_of(old(self)@.ids, other) < old(self)@.ids.len() ==> #[trigger] place_of(final(self)@.ids, other) == place_of(old(self)@.ids, other),
    {
        match network.get(&id) {
            Some(index) => {
                return *index;
            },
            None => {},
        }
        match self.lookup.get(&id) {
            Some(index) => {
                return node_count + *index;
            },
            None => {},
        }
        let ghost before = *self;
        proof {
            crate::street_graph::place_bounds(self.ids@, id);
            if place_of(self.ids@, id) < self.ids@.len() {
                assert(self.lookup@.dom().contains(self.ids@[place_of(self.ids@, id)]));
            }
        }
        let index: usize = self.ids.len();
        self.ids.push(id);
        self.places.push(place);
        self.lookup.insert(id, index);
        proof {
            crate::street_graph::places_after_push(before.ids@, id);
            assert forall|other: i64| #[trigger] self.lookup@.dom().contains(other) implies self.lookup@[other] == place_of(self.ids@, other) && self.lookup@[other] < self.ids@.len() by {
                if other != id {
                    assert(before.lookup@.dom().contains(other));
                    assert(place_of(before.ids@.push(id), other) == place_of(before.ids@, other));
                }
            }
            assert forall|k: int| 0 <= k < self.ids@.len() implies self.lookup@.dom().contains(#[trigger] self.ids@[k]) by {
                if k < index {
                    assert(before.lookup@.dom().contains(before.ids@[k]));
                }
            }
            assert(self@.forward == before@.forward && self@.reverse == before@.reverse);
            assert forall|reverse: bool, node: usize, i: int| 0 <= i < list_at(overlay_lists(self@, reverse), node).len() implies #[trigger] is_mirrored(
                self@,
                node_count as int,
                reverse,
                node,
                i,
            ) by {
                assert(overlay_lists(self@, reverse) == overlay_lists(before@, reverse));
                assert(overlay_lists(self@, !reverse) == overlay_lists(before@, !reverse));
                assert(is_mirrored(before@, node_count as int, reverse, node, i));
            }
        }
        node_count + index
    }

    fn push_overlay_directed_edge(&mut self, from: usize, to: usize, measure: Measure, way_id: i64, Ghost(node_count): Ghost<int>)
        requires
            old(self).wf(node_count),
            from < node_count + old(self).ids@.len(),
            to < node_count + old(self).ids@.len(),
            node_count + old(self).ids@.len() <= usize::MAX,
        ensures
            final(self).wf(node_count),
            final(self)@ == with_overlay_stretch(old(self)@, from as int, to as int, measure, way_id),
            final(self).ids@ == old(self).ids@,
    {
        proof {
            overlay_stretch_keeps_consistency(self@, node_count, from as int, to as int, measure, way_id);
        }
        if from > 0xFFFF_FFFF || to > 0xFFFF_FFFF {
            return;
        }
        push_edge(
            &mut self.forward,
            from,
            StreetEdge { to: to as u32, duration_secs: measure.duration_secs, distance_meters: measure.distance_meters, way_id: way_id },
        );
        push_edge(
            &mut self.reverse,
            to,
            StreetEdge { to: from as u32, duration_secs: measure.duration_secs, distance_meters: measure.distance_meters, way_id: way_id },
        );
    }

    fn add_stretch(
        &mut self,
        network: &HashMap<i64, usize>,
        node_count: usize,
        direction: TravelDirection,
        way: &StreetOverlayWay,
        measures: &Vec<Option<Measure>>,
        k: usize,
        Ghost(mode): Ghost<StreetMode>,
    )
        requires
            old(self).wf(node_count as int),
            node_count + old(self).ids@.len() + 2 < usize::MAX,
            forall|other: i64| #[trigger] network@.dom().contains(other) ==> network@[other] < node_count,
            k + 1 < way.node_refs.len(),
            k + 1 < way.coordinates.len(),
            k < measures@.len(),
            direction == direction_of(mode, way.tags@),
        ensures
            final(self).wf(node_count as int),
            final(self)@ == after_overlay_stretch(old(self)@, network@, node_count as int, mode, way@, measures@, k as int),
            final(self).ids@.len() <= old(self).ids@.len() + 2,
    {
        let from: usize = self.node_index(network, node_count, way.node_refs[k], way.coordinates[k]);
        let ghost first = self@;
        let to: usize = self.node_index(network, node_count, way.node_refs[k + 1], way.coordinates[k + 1]);
        assert(from == overlay_index(network@, node_count as int, self@.ids, way.node_refs@[k as int]));
        if from == to {
            return;
        }
        match measures[k] {
            None => {},
            Some(measure) => match direction {
                TravelDirection::Both => {
                    self.push_overlay_directed_edge(from, to, measure, way.way_id, Ghost(node_count as int));
                    self.push_overlay_directed_edge(to, from, measure, way.way_id, Ghost(node_count as int));
                },
                TravelDirection::ForwardOnly => {
                    self.push_overlay_directed_edge(from, to, measure, way.way_id, Ghost(node_count as int));
                },
                TravelDirection::ReverseOnly => {
                    self.push_overlay_directed_edge(to, from, measure, way.way_id, Ghost(node_count as int));
                },
            },
        }
    }
}

/// The ways that take the places of others, in the order of their store.
pub open spec fn override_list(overrides: KeyedStore<StreetOverlayWay>) -> Seq<OverrideView> {
    Seq::new(overrides.slots().len(), |i: int| overrides@[overrides.slots()[i]]@)
}

/// Measures as sequences.
pub open spec fn measures_view(measures: Seq<Vec<Option<Measure>>>) -> Seq<Seq<Option<Measure>>> {
    Seq::new(measures.len(), |i: int| measures[i]@)
}

/// How many nodes the first `n` ways may add.
pub open spec fn node_bound(ways: Seq<OverrideView>, n: int) -> int
    decreases n,
{
    if n <= 0 { 0 } else { node_bound(ways, n - 1) + 2 * placed_stretches(ways[n - 1]) }
}

proof fn node_bound_ascends(ways: Seq<OverrideView>, n: int, m: int)
    requires
        n <= m,
    ensures
        node_bound(ways, n) <= node_bound(ways, m),
    decreases m - n,
{
    if n < m {
        node_bound_ascends(ways, n, m - 1);
    }
}

/// What is laid over a network, with the places of the nodes that were added.
pub struct BuiltOverlay {
    pub edges: StreetOverlayEdges,
    pub node_osm_ids: Vec<i64>,
    pub coordinates: Vec<PolylinePoint>,
}

/// Lays the ways that took the places of others over a network, given the measure
/// of each of their stretches.
pub fn build_overlay_graph(network: &HashMap<i64, usize>, node_count: usize, mode: StreetMode, draft: &StreetOverlayDraft, measures: &Vec<Vec<Option<Measure>>>) -> (built: BuiltOverlay)
    requires
        draft.wf(),
        measures@.len() == draft.overrides.slots().len(),
        forall|i: int| 0 <= i < measures@.len() ==> (#[trigger] measures@[i])@.len() >= placed_stretches(override_list(draft.overrides)[i]),
        forall|id: i64| #[trigger] network@.dom().contains(id) ==> network@[id] < node_count,
        node_count + node_bound(override_list(draft.overrides), measures@.len() as int) + 2 < usize::MAX,
    ensures
        ({
            let laid = overlay_of(network@, node_count as int, mode, override_list(draft.overrides), measures_view(measures@), measures@.len() as int);
            &&& built.node_osm_ids@ == laid.ids
            &&& built.coordinates@ == laid.places
            &&& built.edges.added_node_count == laid.ids.len()
            &&& edge_lists(built.edges.forward_adjacency@) == laid.forward
            &&& edge_lists(built.edges.reverse_adjacency@) == laid.reverse
            &&& overlay_consistent(laid, node_count as int)
            &&& forall|way: i64| #[trigger] built.edges.blocked_way_ids@.contains(way) <==> exists|key: StoreKey| #[trigger] draft.blocked@.dom().contains(key) && draft.blocked@[key] == way
        }),
{
    let ghost ways = override_list(draft.overrides);
    let ghost all_measures = measures_view(measures@);
    let mut laid: OverlayDraft = OverlayDraft { ids: Vec::new(), places: Vec::new(), lookup: HashMap::new(), forward: HashMap::new(), reverse: HashMap::new() };
    proof {
        let empty = overlay_of(network@, node_count as int, mode, ways, all_measures, 0);
        assert(laid@.ids =~= empty.ids);
        assert(laid@.places =~= empty.places);
        assert(laid@.forward =~= empty.forward);
        assert(laid@.reverse =~= empty.reverse);
    }
    let count: usize = measures.len();
    let mut w: usize = 0;
    while w < count
        invariant
            w <= count,
            count == measures@.len(),
            draft.wf(),
            ways == override_list(draft.overrides),
            all_measures == measures_view(measures@),
            measures@.len() == draft.overrides.slots().len(),
            forall|i: int| 0 <= i < measures@.len() ==> (#[trigger] measures@[i])@.len() >= placed_stretches(ways[i]),
            forall|id: i64| #[trigger] network@.dom().contains(id) ==> network@[id] < node_count,
            node_count + node_bound(ways, count as int) + 2 < usize::MAX,
            laid.wf(node_count as int),
            laid.ids@.len() <= node_bound(ways, w as int),
            laid@ == overlay_of(network@, node_count as int, mode, ways, all_measures, w as int),
        decreases count - w,
    {
        let way: &StreetOverlayWay = draft.overrides.value_at(w);
        let row: &Vec<Option<Measure>> = &measures[w];
        let ghost start = laid@;
        let ghost said = way@;
        assert(ways[w as int] == said);
        assert(all_measures[w as int] == row@);
        let direction: TravelDirection = way_direction(mode, &way.tags);
        let nodes: usize = if way.node_refs.len() <= way.coordinates.len() { way.node_refs.len() } else { way.coordinates.len() };
        let stretches: usize = if nodes > 0 { nodes - 1 } else { 0 };
        let ghost known = laid.ids@.len();
        proof {
            node_bound_ascends(ways, w + 1, count as int);
            assert(stretches == placed_stretches(said));
            assert(measures@[w as int]@.len() >= placed_stretches(ways[w as int]));
        }
        let mut k: usize = 0;
        while k < stretches
            invariant
                k <= stretches,
                said == way@,
                stretches == placed_stretches(said),
                stretches <= row@.len(),
                stretches < way.node_refs.len() || stretches == 0,
                stretches < way.coordinates.len() || stretches == 0,
                direction == direction_of(mode, way.tags@),
                forall|id: i64| #[trigger] network@.dom().contains(id) ==> network@[id] < node_count,
                node_count + known + 2 * stretches + 2 < usize::MAX,
                laid.wf(node_count as int),
                laid.ids@.len() <= known + 2 * k,
                laid@ == after_overlay_way(start, network@, node_count as int, mode, said, row@, k as int),
            decreases stretches - k,
        {
            laid.add_stretch(network, node_count, direction, way, row, k, Ghost(mode));
            k = k + 1;
        }
        w = w + 1;
    }
    let mut blocked: HashSet<i64> = HashSet::new();
    let mut b: usize = 0;
    proof {
        draft.blocked.slots_match();
    }
    let blocked_count: usize = draft.blocked.len();
    while b < blocked_count
        invariant
            b <= blocked_count,
            draft.wf(),
            blocked_count == draft.blocked.slots().len(),
            forall|way: i64| #[trigger] blocked@.contains(way) <==> exists|i: int| 0 <= i < b && draft.blocked@[#[trigger] draft.blocked.slots()[i]] == way,
        decreases blocked_count - b,
    {
        let way: i64 = *draft.blocked.value_at(b);
        let ghost before = blocked@;
        blocked.insert(way);
        proof {
            assert forall|other: i64| #[trigger] blocked@.contains(other) <==> exists|i: int| 0 <= i < b + 1 && draft.blocked@[#[trigger] draft.blocked.slots()[i]] == other by {
                if before.contains(other) {
                    let i = choose|i: int| 0 <= i < b && draft.blocked@[#[trigger] draft.blocked.slots()[i]] == other;
                    assert(draft.blocked@[draft.blocked.slots()[i]] == other);
                }
                assert(draft.blocked@[draft.blocked.slots()[b as int]] == way);
            }
        }
        b = b + 1;
    }
    proof {
        assert forall|way: i64| #[trigger] blocked@.contains(way) <==> exists|key: StoreKey| #[trigger] draft.blocked@.dom().contains(key) && draft.blocked@[key] == way by {
            if blocked@.contains(way) {
                let i = choose|i: int| 0 <= i < b && draft.blocked@[#[trigger] draft.blocked.slots()[i]] == way;
                assert(draft.blocked.slots().contains(draft.blocked.slots()[i]));
                assert(draft.blocked@.dom().contains(draft.blocked.slots()[i]));
            }
            if exists|key: StoreKey| #[trigger] draft.blocked@.dom().contains(key) && draft.blocked@[key] == way {
                let key = choose|key: StoreKey| #[trigger] draft.blocked@.dom().contains(key) && draft.blocked@[key] == way;
                assert(draft.blocked.slots().contains(key));
                let i = choose|i: int| 0 <= i < draft.blocked.slots().len() && draft.blocked.slots()[i] == key;
                assert(draft.blocked@[draft.blocked.slots()[i]] == way);
            }
        }
    }
    BuiltOverlay {
        edges: StreetOverlayEdges {
            blocked_way_ids: blocked,
            added_node_count: laid.ids.len(),
            forward_adjacency: laid.forward,
            reverse_adjacency: laid.reverse,
        },
        node_osm_ids: laid.ids,
        coordinates: laid.places,
    }
}

proof fn open_edges_are_open(edges: Seq<StreetEdge>, blocked: Set<i64>, n: int, edge: StreetEdge)
    requires
        0 <= n <= edges.len(),
    ensures
        open_edges(edges, blocked, n).contains(edge) <==> edges.take(n).contains(edge) && !blocked.contains(edge.way_id),
    decreases n,
{
    if n > 0 {
        open_edges_are_open(edges, blocked, n - 1, edge);
        let shorter = edges.take(n - 1);
        let longer = edges.take(n);
        assert(longer =~= shorter.push(edges[n - 1]));
        let before = open_edges(edges, blocked, n - 1);
        let after = open_edges(edges, blocked, n);
        if longer.contains(edge) {
            let at = choose|at: int| 0 <= at < longer.len() && longer[at] == edge;
            if at < n - 1 {
                assert(shorter[at] == edge);
            }
        }
        if shorter.contains(edge) {
            let at = choose|at: int| 0 <= at < shorter.len() && shorter[at] == edge;
            assert(longer[at] == edge);
        }
        if before.contains(edge) {
            let at = choose|at: int| 0 <= at < before.len() && before[at] == edge;
            assert(after[at] == edge);
        }
        if after.contains(edge) {
            let at = choose|at: int| 0 <= at < after.len() && after[at] == edge;
            if at < before.len() {
                assert(before[at] == edge);
            }
        }
        if !blocked.contains(edges[n - 1].way_id) {
            assert(after[before.len() as int] == edges[n - 1]);
        }
        assert(longer[n - 1] == edges[n - 1]);
    }
}

/// A network with what is laid over it can be searched: the stretches into its
/// nodes are those out of them.
pub proof fn overlaid_networks_are_consistent(network: StreetNetwork, overlay: StreetOverlayEdges, laid: OverlayView)
    requires
        network_consistent(network),
        overlay_consistent(laid, network.node_count as int),
        overlay.added_node_count == laid.ids.len(),
        edge_lists(overlay.forward_adjacency@) == laid.forward,
        edge_lists(overlay.reverse_adjacency@) == laid.reverse,
        network.node_count + overlay.added_node_count <= u32::MAX,
    ensures
        streets_consistent((StreetView { network: network, overlay: overlay })),
{
    let streets = StreetView { network: network, overlay: overlay };
    assert forall|reverse: bool, node: usize, i: int| #![trigger adjacent(streets, reverse, node)[i]] 0 <= i < adjacent(streets, reverse, node).len() implies has_counterpart(
        streets,
        reverse,
        node,
        adjacent(streets, reverse, node)[i],
    ) by {
        let edge = adjacent(streets, reverse, node)[i];
        let row = if node >= network.node_count { Seq::empty() } else { network_row(network, reverse, node as int) };
        let opened = open_edges(row, overlay.blocked_way_ids@, row.len() as int);
        let added = list_at(overlay_lists(laid, reverse), node);
        assert(added == if reverse { added_edges(overlay.reverse_adjacency@, node) } else { added_edges(overlay.forward_adjacency@, node) });
        assert(adjacent(streets, reverse, node) == opened + added);
        let back = turned(edge, node);
        let target = edge.to as usize;
        let other_row = if target >= network.node_count { Seq::empty() } else { network_row(network, !reverse, target as int) };
        let other_open = open_edges(other_row, overlay.blocked_way_ids@, other_row.len() as int);
        let other_added = list_at(overlay_lists(laid, !reverse), target);
        assert(other_added == if !reverse { added_edges(overlay.reverse_adjacency@, target) } else { added_edges(overlay.forward_adjacency@, target) });
        let other = adjacent(streets, !reverse, target);
        assert(other == other_open + other_added);
        if i < opened.len() {
            assert(opened[i] == edge);
            assert(opened.contains(edge));
            open_edges_are_open(row, overlay.blocked_way_ids@, row.len() as int, edge);
            assert(row.take(row.len() as int) =~= row);
            let at = choose|at: int| 0 <= at < row.len() && row[at] == edge;
            assert(node < network.node_count);
            assert(network_row(network, reverse, node as int)[at] == edge);
            assert(other_row.contains(back));
            open_edges_are_open(other_row, overlay.blocked_way_ids@, other_row.len() as int, back);
            assert(other_row.take(other_row.len() as int) =~= other_row);
            let place = choose|place: int| 0 <= place < other_open.len() && other_open[place] == back;
            assert(other[place] == back);
        } else {
            assert(added[i - opened.len()] == edge);
            assert(is_mirrored(laid, network.node_count as int, reverse, node, i - opened.len()));
            assert(other_added.contains(back));
            let place = choose|place: int| 0 <= place < other_added.len() && other_added[place] == back;
            assert(other[other_open.len() + place] == back);
        }
    }
}

/// A place on a network, with its distance.
#[derive(Clone, Copy, Debug, PartialEq, Eq, Structural)]
pub struct SnapResult {
    pub node_index: usize,
    pub distance_meters: Real,
}

/// Why a place is not on a network.
#[derive(Clone, Copy, Debug, PartialEq, Eq, Structural)]
pub enum SnapError {
    /// The network has no nodes.
    EmptyGraph,
    /// No node is near enough.
    TooFar,
}

/// Whether a distance is at most another.
pub open spec fn at_most_as_far(a: Real, b: Real) -> bool {
    !a.is_nan_spec() && !b.is_nan_spec() && a.rank() <= b.rank()
}

/// The nearest of the first `n` candidates: of equally near ones the first.
pub open spec fn nearest_of(candidates: Seq<SnapResult>, n: int) -> Option<SnapResult>
    decreases n,
{
    if n <= 0 {
        None
    } else {
        match nearest_of(candidates, n - 1) {
            Some(best) => if at_most_as_far(best.distance_meters, candidates[n - 1].distance_meters) { Some(best) } else { Some(candidates[n - 1]) },
            None => Some(candidates[n - 1]),
        }
    }
}

/// Picks the node of a network that a place is on, of candidates in the network
/// and behind them those laid over it.
pub fn pick_snap(candidates: &Vec<SnapResult>, max_distance: Real) -> (result: Result<SnapResult, SnapError>)
    ensures
        match nearest_of(candidates@, candidates@.len() as int) {
            None => result == Err::<SnapResult, SnapError>(SnapError::EmptyGraph),
            Some(best) => if !best.distance_meters.is_nan_spec() && !max_distance.is_nan_spec() && max_distance.rank() < best.distance_meters.rank() {
                result == Err::<SnapResult, SnapError>(SnapError::TooFar)
            } else {
                result == Ok::<SnapResult, SnapError>(best)
            },
        },
{
    let mut best: Option<SnapResult> = None;
    let mut i: usize = 0;
    while i < candidates.len()
        invariant
            i <= candidates@.len(),
            best == nearest_of(candidates@, i as int),
        decreases candidates.len() - i,
    {
        let candidate: SnapResult = candidates[i];
        let keep: bool = match best {
            Some(found) => !found.distance_meters.is_nan() && !candidate.distance_meters.is_nan() && found.distance_meters.numeric_rank() <= candidate.distance_meters.numeric_rank(),
            None => false,
        };
        if !keep {
            best = Some(candidate);
        }
        i = i + 1;
    }
    match best {
        None => Err(SnapError::EmptyGraph),
        Some(found) => if max_distance.less_than(found.distance_meters) { Err(SnapError::TooFar) } else { Ok(found) },
    }
}

/// The time of a route: that through the network and that between the places and
/// the network.
pub fn route_duration(network_secs: u32, connector_secs: u32) -> (secs: u32)
    ensures
        secs == if network_secs + connector_secs > u32::MAX { u32::MAX as int } else { network_secs + connector_secs },
{
    if connector_secs > 0xFFFF_FFFF - network_secs { 0xFFFF_FFFF } else { network_secs + connector_secs }
}

/// A line with a point behind it, unless that is where the line ends.
pub open spec fn with_geometry_point(line: WalkView, point: PolylinePoint, way: Option<i64>, apart: bool) -> WalkView {
    if line.points.len() > 0 && !apart {
        line
    } else {
        WalkView { points: line.points.push(point), ways: if line.points.len() > 0 { line.ways.push(way) } else { line.ways } }
    }
}

/// Puts a point behind a line, with the way that leads to it, unless it is told
/// that the line ends there.
pub fn push_geometry_point(line: &mut WalkGeometry, point: PolylinePoint, incoming_way_id: Option<i64>, apart: bool)
    ensures
        final(line)@ == with_geometry_point(old(line)@, point, incoming_way_id, apart),
{
    let begun: bool = line.polyline.len() > 0;
    if begun && !apart {
        return;
    }
    if begun {
        line.segment_way_ids.push(incoming_way_id);
    }
    line.polyline.push(point);
}

/// The line of a route: as it was put together if it has two points, else the
/// straight one between its places.
pub fn finish_street_geometry(line: WalkGeometry, from: PolylinePoint, to: PolylinePoint) -> (geometry: WalkGeometry)
    ensures
        geometry@ == if line@.points.len() >= 2 { line@ } else { WalkView { points: seq![from, to], ways: seq![None] } },
{
    if line.polyline.len() >= 2 {
        return line;
    }
    let mut polyline: Vec<PolylinePoint> = Vec::new();
    polyline.push(from);
    polyline.push(to);
    let mut segment_way_ids: Vec<Option<i64>> = Vec::new();
    segment_way_ids.push(None);
    let geometry: WalkGeometry = WalkGeometry { polyline: polyline, segment_way_ids: segment_way_ids };
    assert(geometry@.points =~= seq![from, to]);
    assert(geometry@.ways =~= seq![None::<i64>]);
    geometry
}

/// The place of a node: in the network, or among those laid over it. A number
/// beyond both has the place of the last node of the network.
pub open spec fn node_place(coordinates: Seq<PolylinePoint>, added: Seq<PolylinePoint>, node: int) -> Option<PolylinePoint> {
    if node < coordinates.len() {
        Some(coordinates[node])
    } else if node - coordinates.len() < added.len() {
        Some(added[node - coordinates.len()])
    } else if coordinates.len() > 0 {
        Some(coordinates.last())
    } else {
        None
    }
}

/// The place of a node; nothing where there are no nodes at all.
pub fn coordinate_for_node(coordinates: &Vec<PolylinePoint>, added: &Vec<PolylinePoint>, node_index: usize) -> (place: Option<PolylinePoint>)
    ensures
        place == node_place(coordinates@, added@, node_index as int),
{
    let count: usize = coordinates.len();
    if node_index < count {
        return Some(coordinates[node_index]);
    }
    let offset: usize = node_index - count;
    if offset < added.len() {
        return Some(added[offset]);
    }
    if count > 0 { Some(coordinates[count - 1]) } else { None }
}

} // verus!
