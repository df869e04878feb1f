//! Street networks built from the ways of a map, and from ways that took their
//! places.

use crate::model::PolylinePoint;
use crate::number::ShortReal;
use crate::street_search::{edge_row, turned, StreetEdge, StreetNetwork};
use crate::street_tags::{direction_of, tagged_name, way_direction, way_name, StreetMode, Tags, TravelDirection};
use std::collections::HashMap;
use vstd::prelude::*;

verus! {

/// How long a stretch is, and how long it takes.
#[derive(Clone, Copy, Debug, PartialEq, Eq, Structural)]
pub struct Measure {
    pub duration_secs: u32,
    pub distance_meters: ShortReal,
}

/// A way of a map, with the measure of each stretch between two of its nodes that
/// has a length.
pub struct OsmWay {
    pub id: i64,
    pub nodes: Vec<i64>,
    pub tags: Tags,
    pub measures: Vec<Option<Measure>>,
}

/// Why there is no network.
#[derive(Clone, Copy, Debug, PartialEq, Eq, Structural)]
pub enum GraphError {
    /// There are more nodes than can be numbered.
    TooManyNodes,
    /// There are more stretches than can be numbered.
    TooManyEdges,
    /// There is no node.
    Empty,
}

/// A network being built: the ids and places of its nodes, and the stretches out
/// of and into each.
pub struct GraphView {
    pub ids: Seq<i64>,
    pub places: Seq<PolylinePoint>,
    pub forward: Seq<Seq<StreetEdge>>,
    pub reverse: Seq<Seq<StreetEdge>>,
}

/// The place of an id among others, from the `k`th on; behind them all where it
/// is not.
pub open spec fn place_from(ids: Seq<i64>, id: i64, k: int) -> int
    decreases ids.len() - k,
{
    if k < 0 || k >= ids.len() {
        ids.len() as int
    } else if ids[k] == id {
        k
    } else {
        place_from(ids, id, k + 1)
    }
}

/// The place of an id among others.
pub open spec fn place_of(ids: Seq<i64>, id: i64) -> int {
    place_from(ids, id, 0)
}

proof fn place_facts(ids: Seq<i64>, id: i64, k: int)
    requires
        0 <= k <= ids.len(),
    ensures
        k <= place_from(ids, id, k) <= ids.len(),
        place_from(ids, id, k) < ids.len() ==> ids[place_from(ids, id, k)] == id,
        forall|j: int| k <= j < place_from(ids, id, k) ==> ids[j] != id,
    decreases ids.len() - k,
{
    if k < ids.len() {
        place_facts(ids, id, k + 1);
    }
}

proof fn place_is_first(ids: Seq<i64>, id: i64, at: int)
    requires
        0 <= at <= ids.len(),
        at < ids.len() ==> ids[at] == id,
        forall|j: int| 0 <= j < at ==> ids[j] != id,
    ensures
        place_of(ids, id) == at,
{
    place_facts(ids, id, 0);
}

/// The place of an id is that of the id, or behind all.
pub proof fn place_bounds(ids: Seq<i64>, id: i64)
    ensures
        0 <= place_of(ids, id) <= ids.len(),
        place_of(ids, id) < ids.len() ==> ids[place_of(ids, id)] == id,
{
    place_facts(ids, id, 0);
}

/// Ids keep their places when another is put behind them.
pub proof fn places_after_push(ids: Seq<i64>, id: i64)
    requires
        place_of(ids, id) == ids.len(),
    ensures
        place_of(ids.push(id), id) == ids.len(),
        forall|other: i64| place_of(ids, other) < ids.len() ==> #[trigger] place_of(ids.push(id), other) == place_of(ids, other),
{
    let longer = ids.push(id);
    place_facts(ids, id, 0);
    place_is_first(longer, id, ids.len() as int);
    assert forall|other: i64| place_of(ids, other) < ids.len() implies #[trigger] place_of(longer, other) == place_of(ids, other) by {
        place_facts(ids, other, 0);
        place_is_first(longer, other, place_of(ids, other));
    }
}

/// A network with a node, if it does not have it yet.
pub open spec fn with_node(graph: GraphView, id: i64, place: PolylinePoint) -> GraphView {
    if place_of(graph.ids, id) < graph.ids.len() {
        graph
    } else {
        GraphView {
            ids: graph.ids.push(id),
            places: graph.places.push(place),
            forward: graph.forward.push(Seq::empty()),
            reverse: graph.reverse.push(Seq::empty()),
        }
    }
}

/// A stretch to a node.
pub open spec fn stretch(to: int, measure: Measure, way_id: i64) -> StreetEdge {
    StreetEdge { to: to as u32, duration_secs: measure.duration_secs, distance_meters: measure.distance_meters, way_id: way_id }
}

/// A network with a stretch from one node to another.
pub open spec fn with_stretch(graph: GraphView, from: int, to: int, measure: Measure, way_id: i64) -> GraphView {
    GraphView {
        forward: graph.forward.update(from, graph.forward[from].push(stretch(to, measure, way_id))),
        reverse: graph.reverse.update(to, graph.reverse[to].push(stretch(from, measure, way_id))),
        ..graph
    }
}

/// A network with a stretch in the directions in which it is travelled.
pub open spec fn with_stretches(graph: GraphView, direction: TravelDirection, from: int, to: int, measure: Measure, way_id: i64) -> GraphView {
    match direction {
        TravelDirection::Both => with_stretch(with_stretch(graph, from, to, measure, way_id), to, from, measure, way_id),
        TravelDirection::ForwardOnly => with_stretch(graph, from, to, measure, way_id),
        TravelDirection::ReverseOnly => with_stretch(graph, to, from, measure, way_id),
    }
}

/// A network after the stretch behind the `k`th node of a way. Stretches to or
/// from nodes without a place are left out, and so are those without a length.
pub open spec fn after_stretch(graph: GraphView, places: Map<i64, PolylinePoint>, mode: StreetMode, way: OsmWay, k: int) -> Result<GraphView, GraphError> {
    let a = way.nodes@[k];
    let b = way.nodes@[k + 1];
    if !places.dom().contains(a) || !places.dom().contains(b) {
        Ok(graph)
    } else {
        let noded = with_node(with_node(graph, a, places[a]), b, places[b]);
        let from = place_of(noded.ids, a);
        let to = place_of(noded.ids, b);
        if from == to {
            Ok(noded)
        } else {
            match way.measures@[k] {
                None => Ok(noded),
                Some(measure) => if from > u32::MAX || to > u32::MAX {
                    Err(GraphError::TooManyNodes)
                } else {
                    Ok(with_stretches(noded, direction_of(mode, way.tags@), from, to, measure, way.id))
                },
            }
        }
    }
}

/// A network after the first `n` stretches of a way.
pub open spec fn after_way(graph: GraphView, places: Map<i64, PolylinePoint>, mode: StreetMode, way: OsmWay, n: int) -> Result<GraphView, GraphError>
    decreases n,
{
    if n <= 0 {
        Ok(graph)
    } else {
        match after_way(graph, places, mode, way, n - 1) {
            Err(error) => Err(error),
            Ok(before) => after_stretch(before, places, mode, way, n - 1),
        }
    }
}

/// How many stretches a way has.
pub open spec fn stretch_count(way: OsmWay) -> int {
    if way.nodes@.len() > 0 { way.nodes@.len() - 1 } else { 0 }
}

/// The network of the first `n` ways.
pub open spec fn graph_of(places: Map<i64, PolylinePoint>, mode: StreetMode, ways: Seq<OsmWay>, n: int) -> Result<GraphView, GraphError>
    decreases n,
{
    if n <= 0 {
        Ok(GraphView { ids: Seq::empty(), places: Seq::empty(), forward: Seq::empty(), reverse: Seq::empty() })
    } else {
        match graph_of(places, mode, ways, n - 1) {
            Err(error) => Err(error),
            Ok(before) => after_way(before, places, mode, ways[n - 1], stretch_count(ways[n - 1])),
        }
    }
}

/// The stretches out of the nodes, or into them.
pub open spec fn lists(graph: GraphView, reverse: bool) -> Seq<Seq<StreetEdge>> {
    if reverse { graph.reverse } else { graph.forward }
}

/// Whether the stretches into the nodes are those out of the nodes.
pub open spec fn graph_consistent(graph: GraphView) -> bool {
    &&& graph.forward.len() == graph.ids.len()
    &&& graph.reverse.len() == graph.ids.len()
    &&& graph.places.len() == graph.ids.len()
    &&& forall|reverse: bool, node: int, i: int| 0 <= node < graph.ids.len() && 0 <= i < lists(graph, reverse)[node].len() ==> {
        let edge = #[trigger] lists(graph, reverse)[node][i];
        edge.to < graph.ids.len() && node <= u32::MAX && lists(graph, !reverse)[edge.to as int].contains(turned(edge, node as usize))
    }
}

proof fn node_keeps_consistency(graph: GraphView, id: i64, place: PolylinePoint)
    requires
        graph_consistent(graph),
    ensures
        graph_consistent(with_node(graph, id, place)),
        graph.ids.len() <= with_node(graph, id, place).ids.len(),
        place_of(with_node(graph, id, place).ids, id) < with_node(graph, id, place).ids.len(),
        forall|other: i64| place_of(graph.ids, other) < graph.ids.len() ==> #[trigger] place_of(with_node(graph, id, place).ids, other) == place_of(graph.ids, other),
{
    let after = with_node(graph, id, place);
    place_facts(graph.ids, id, 0);
    if place_of(graph.ids, id) == graph.ids.len() {
        place_is_first(after.ids, id, graph.ids.len() as int);
        assert forall|other: i64| place_of(graph.ids, other) < graph.ids.len() implies #[trigger] place_of(after.ids, other) == place_of(graph.ids, other) by {
            place_facts(graph.ids, other, 0);
            place_is_first(after.ids, other, place_of(graph.ids, other));
        }
        assert forall|reverse: bool, node: int, i: int| 0 <= node < after.ids.len() && 0 <= i < lists(after, reverse)[node].len() implies ({
            let edge = #[trigger] lists(after, reverse)[node][i];
            edge.to < after.ids.len() && node <= u32::MAX && lists(after, !reverse)[edge.to as int].contains(turned(edge, node as usize))
        }) by {
            assert(node < graph.ids.len());
            let edge = lists(graph, reverse)[node][i];
            assert(lists(after, reverse)[node][i] == edge);
            assert(lists(after, !reverse)[edge.to as int] == lists(graph, !reverse)[edge.to as int]);
        }
    }
}

proof fn stretch_keeps_consistency(graph: GraphView, from: int, to: int, measure: Measure, way_id: i64)
    requires
        graph_consistent(graph),
        0 <= from < graph.ids.len(),
        0 <= to < graph.ids.len(),
        from <= u32::MAX,
        to <= u32::MAX,
    ensures
        graph_consistent(with_stretch(graph, from, to, measure, way_id)),
        with_stretch(graph, from, to, measure, way_id).ids == graph.ids,
{
    let after = with_stretch(graph, from, to, measure, way_id);
    let out = stretch(to, measure, way_id);
    let back = stretch(from, measure, way_id);
    assert forall|reverse: bool, node: int, i: int| 0 <= node < after.ids.len() && 0 <= i < lists(after, reverse)[node].len() implies ({
        let edge = #[trigger] lists(after, reverse)[node][i];
        edge.to < after.ids.len() && node <= u32::MAX && lists(after, !reverse)[edge.to as int].contains(turned(edge, node as usize))
    }) by {
        let edge = lists(after, reverse)[node][i];
        let own = if reverse { to } else { from };
        if node == own && i == lists(graph, reverse)[node].len() {
            let other = if reverse { from } else { to };
            let partner = if reverse { out } else { back };
            assert(edge == if reverse { back } else { out });
            assert(turned(edge, node as usize) == partner);
            assert(lists(after, !reverse)[other][lists(graph, !reverse)[other].len() as int] == partner);
            assert(edge.to == other);
        } else {
            assert(lists(graph, reverse)[node][i] == edge);
            let list = lists(graph, !reverse)[edge.to as int];
            assert(list.contains(turned(edge, node as usize)));
            let at = choose|at: int| 0 <= at < list.len() && list[at] == turned(edge, node as usize);
            assert(lists(after, !reverse)[edge.to as int][at] == turned(edge, node as usize));
        }
    }
}

struct GraphDraft {
    ids: Vec<i64>,
    places: Vec<PolylinePoint>,
    lookup: HashMap<i64, usize>,
    forward: Vec<Vec<StreetEdge>>,
    reverse: Vec<Vec<StreetEdge>>,
}

/// Lists of stretches as sequences.
pub open spec fn edges_view(edges: Seq<Vec<StreetEdge>>) -> Seq<Seq<StreetEdge>> {
    Seq::new(edges.len(), |i: int| edges[i]@)
}

spec fn lookup_fits(lookup: Map<i64, usize>, ids: Seq<i64>) -> bool {
    &&& forall|id: i64| #[trigger] lookup.dom().contains(id) ==> lookup[id] == place_of(ids, id) && lookup[id] < ids.len()
    &&& forall|k: int| 0 <= k < ids.len() ==> lookup.dom().contains(#[trigger] ids[k])
}

impl GraphDraft {
    spec fn view(&self) -> GraphView {
        GraphView { ids: self.ids@, places: self.places@, forward: edges_view(self.forward@), reverse: edges_view(self.reverse@) }
    }

    spec fn wf(&self) -> bool {
        graph_consistent(self@) && lookup_fits(self.lookup@, self.ids@)
    }

    fn node_index(&mut self, id: i64, place: PolylinePoint) -> (index: usize)
        requires
            old(self).wf(),
        ensures
            final(self).wf(),
            final(self)@ == with_node(old(self)@, id, place),
            index == place_of(final(self)@.ids, id),
            index < final(self)@.ids.len(),
    {
        proof {
            node_keeps_consistency(self@, id, place);
            place_facts(self.ids@, id, 0);
        }
        match self.lookup.get(&id) {
            Some(index) => {
                return *index;
            },
            None => {},
        }
        let ghost before = *self;
        proof {
            if place_of(self.ids@, id) < self.ids@.len() {
                assert(self.lookup@.dom().contains(self.ids@[place_of(self.ids@, id)]));
            }
        }
        let index: usize = self.ids.len();
        self.ids.push(id);
        self.places.push(place);
        self.forward.push(Vec::new());
        self.reverse.push(Vec::new());
        self.lookup.insert(id, index);
        proof {
            let after = with_node(before@, id, place);
            place_is_first(self.ids@, id, index as int);
            assert(self.lookup@.dom().contains(id) && self.lookup@[id] == index);
            assert(self.forward@.last()@ =~= Seq::<StreetEdge>::empty());
            assert(self.reverse@.last()@ =~= Seq::<StreetEdge>::empty());
            assert(self@.forward =~= after.forward);
            assert(self@.reverse =~= after.reverse);
            assert forall|other: i64| #[trigger] self.lookup@.dom().contains(other) implies self.lookup@[other] == place_of(self.ids@, other) && self.lookup@[other] < self.ids@.len() by {
                if other != id {
                    assert(before.lookup@.dom().contains(other));
                    assert(place_of(after.ids, other) == place_of(before@.ids, other));
                }
            }
            assert forall|k: int| 0 <= k < self.ids@.len() implies self.lookup@.dom().contains(#[trigger] self.ids@[k]) by {
                if k < index {
                    assert(before.lookup@.dom().contains(before.ids@[k]));
                }
            }
        }
        index
    }

    fn push_directed_edge(&mut self, from: usize, to: usize, measure: Measure, way_id: i64)
        requires
            old(self).wf(),
            from < old(self)@.ids.len(),
            to < old(self)@.ids.len(),
            from <= u32::MAX,
            to <= u32::MAX,
        ensures
            final(self).wf(),
            final(self)@ == with_stretch(old(self)@, from as int, to as int, measure, way_id),
            final(self)@.ids == old(self)@.ids,
    {
        let ghost before = *self;
        proof {
            stretch_keeps_consistency(self@, from as int, to as int, measure, way_id);
        }
        let out: StreetEdge = StreetEdge {
            to: to as u32,
            duration_secs: measure.duration_secs,
            distance_meters: measure.distance_meters,
            way_id: way_id,
        };
        let back: StreetEdge = StreetEdge {
            to: from as u32,
            duration_secs: measure.duration_secs,
            distance_meters: measure.distance_meters,
            way_id: way_id,
        };
        self.forward[from].push(out);
        self.reverse[to].push(back);
        assert(self@.forward =~= before@.forward.update(from as int, before@.forward[from as int].push(out)));
        assert(self@.reverse =~= before@.reverse.update(to as int, before@.reverse[to as int].push(back)));
    }

    fn add_stretch(&mut self, places: &HashMap<i64, PolylinePoint>, direction: TravelDirection, way: &OsmWay, k: usize, Ghost(mode): Ghost<StreetMode>) -> (result: Result<(), GraphError>)
        requires
            old(self).wf(),
            k + 1 < way.nodes.len(),
            k < way.measures@.len(),
            direction == direction_of(mode, way.tags@),
        ensures
            final(self).wf(),
            match result {
                Ok(_) => after_stretch(old(self)@, places@, mode, *way, k as int) == Ok::<GraphView, GraphError>(final(self)@),
                Err(error) => after_stretch(old(self)@, places@, mode, *way, k as int) == Err::<GraphView, GraphError>(error),
            },
    {
        let a: i64 = way.nodes[k];
        let b: i64 = way.nodes[k + 1];
        let first: PolylinePoint = match places.get(&a) {
            Some(place) => *place,
            None => {
                return Ok(());
            },
        };
        let second: PolylinePoint = match places.get(&b) {
            Some(place) => *place,
            None => {
                return Ok(());
            },
        };
        let from: usize = self.node_index(a, first);
        proof {
            node_keeps_consistency(self@, b, second);
        }
        let to: usize = self.node_index(b, second);
        assert(from == place_of(self@.ids, a));
        if from == to {
            return Ok(());
        }
        match way.measures[k] {
            None => Ok(()),
            Some(measure) => {
                if from > 0xFFFF_FFFF || to > 0xFFFF_FFFF {
                    return Err(GraphError::TooManyNodes);
                }
                match direction {
                    TravelDirection::Both => {
                        self.push_directed_edge(from, to, measure, way.id);
                        self.push_directed_edge(to, from, measure, way.id);
                    },
                    TravelDirection::ForwardOnly => {
                        self.push_directed_edge(from, to, measure, way.id);
                    },
                    TravelDirection::ReverseOnly => {
                        self.push_directed_edge(to, from, measure, way.id);
                    },
                }
                Ok(())
            },
        }
    }
}

proof fn way_keeps_error(graph: GraphView, places: Map<i64, PolylinePoint>, mode: StreetMode, way: OsmWay, n: int, m: int)
    requires
        n <= m,
        after_way(graph, places, mode, way, n) is Err,
    ensures
        after_way(graph, places, mode, way, m) == after_way(graph, places, mode, way, n),
    decreases m - n,
{
    if n < m {
        way_keeps_error(graph, places, mode, way, n, m - 1);
    }
}

proof fn graph_keeps_error(places: Map<i64, PolylinePoint>, mode: StreetMode, ways: Seq<OsmWay>, n: int, m: int)
    requires
        n <= m,
        graph_of(places, mode, ways, n) is Err,
    ensures
        graph_of(places, mode, ways, m) == graph_of(places, mode, ways, n),
    decreases m - n,
{
    if n < m {
        graph_keeps_error(places, mode, ways, n, m - 1);
    }
}

/// How many stretches the first `n` nodes have.
pub open spec fn total_edges(edges: Seq<Seq<StreetEdge>>, n: int) -> int
    decreases n,
{
    if n <= 0 { 0 } else { total_edges(edges, n - 1) + edges[n - 1].len() }
}

proof fn total_edges_ascend(edges: Seq<Seq<StreetEdge>>, n: int, m: int)
    requires
        n <= m,
    ensures
        total_edges(edges, n) <= total_edges(edges, m),
    decreases m - n,
{
    if n < m {
        total_edges_ascend(edges, n, m - 1);
    }
}

/// Whether the stretches of a node stand in their place in a row.
pub open spec fn stands_at(edges: Seq<Seq<StreetEdge>>, flat: Seq<StreetEdge>, k: int) -> bool {
    flat.subrange(total_edges(edges, k), total_edges(edges, k + 1)) == edges[k]
}

/// Whether the stretches of the first `n` nodes stand in a row.
pub open spec fn in_row(edges: Seq<Seq<StreetEdge>>, flat: Seq<StreetEdge>, n: int) -> bool {
    &&& flat.len() == total_edges(edges, n)
    &&& forall|k: int| 0 <= k < n ==> #[trigger] stands_at(edges, flat, k)
}

proof fn part_of_longer(flat: Seq<StreetEdge>, more: Seq<StreetEdge>, from: int, to: int)
    requires
        0 <= from <= to <= flat.len(),
    ensures
        (flat + more).subrange(from, to) == flat.subrange(from, to),
        (flat + more).subrange(flat.len() as int, (flat.len() + more.len()) as int) == more,
{
    assert((flat + more).subrange(from, to) =~= flat.subrange(from, to));
    assert((flat + more).subrange(flat.len() as int, (flat.len() + more.len()) as int) =~= more);
}

proof fn row_grows(edges: Seq<Seq<StreetEdge>>, flat: Seq<StreetEdge>, n: int)
    requires
        0 <= n < edges.len(),
        in_row(edges, flat, n),
    ensures
        in_row(edges, flat + edges[n], n + 1),
{
    let longer = flat + edges[n];
    assert forall|k: int| 0 <= k < n + 1 implies #[trigger] stands_at(edges, longer, k) by {
        if k < n {
            assert(stands_at(edges, flat, k));
            total_edges_ascend(edges, 0, k);
            total_edges_ascend(edges, k, k + 1);
            total_edges_ascend(edges, k + 1, n);
            part_of_longer(flat, edges[n], total_edges(edges, k), total_edges(edges, k + 1));
        } else {
            part_of_longer(flat, edges[n], 0, 0);
        }
    }
}

fn append_row(flat: &mut Vec<StreetEdge>, row: &Vec<StreetEdge>)
    ensures
        final(flat)@ == old(flat)@ + row@,
{
    let ghost before = flat@;
    let mut i: usize = 0;
    while i < row.len()
        invariant
            i <= row@.len(),
            flat@ =~= before + row@.take(i as int),
        decreases row.len() - i,
    {
        flat.push(row[i]);
        i = i + 1;
    }
    assert(flat@ =~= before + row@);
}

/// Puts the stretches of all nodes in a row, with the place where those of each
/// begin.
pub fn flatten_edges(adjacency: &Vec<Vec<StreetEdge>>) -> (flat: Option<(Vec<u32>, Vec<StreetEdge>)>)
    ensures
        match flat {
            Some((offsets, edges)) => {
                &&& offsets@.len() == adjacency@.len() + 1
                &&& edges@.len() == total_edges(edges_view(adjacency@), adjacency@.len() as int) <= u32::MAX
                &&& forall|node: int| 0 <= node <= adjacency@.len() ==> #[trigger] offsets@[node] == total_edges(edges_view(adjacency@), node)
                &&& forall|node: int| 0 <= node < adjacency@.len() ==> edge_row(offsets@, edges@, node) == (#[trigger] adjacency@[node])@
            },
            None => total_edges(edges_view(adjacency@), adjacency@.len() as int) > u32::MAX,
        },
{
    let ghost all = edges_view(adjacency@);
    let mut offsets: Vec<u32> = Vec::new();
    let mut edges: Vec<StreetEdge> = Vec::new();
    offsets.push(0);
    let mut node: usize = 0;
    while node < adjacency.len()
        invariant
            node <= adjacency@.len(),
            all == edges_view(adjacency@),
            offsets@.len() == node + 1,
            in_row(all, edges@, node as int),
            edges@.len() <= u32::MAX,
            forall|k: int| 0 <= k <= node ==> #[trigger] offsets@[k] == total_edges(all, k),
        decreases adjacency.len() - node,
    {
        proof {
            row_grows(all, edges@, node as int);
            assert(all[node as int] == adjacency@[node as int]@);
        }
        append_row(&mut edges, &adjacency[node]);
        if edges.len() > 0xFFFF_FFFF {
            proof {
                total_edges_ascend(all, node + 1, all.len() as int);
            }
            return None;
        }
        offsets.push(edges.len() as u32);
        node = node + 1;
    }
    proof {
        assert forall|k: int| 0 <= k < adjacency@.len() implies edge_row(offsets@, edges@, k) == (#[trigger] adjacency@[k])@ by {
            total_edges_ascend(all, k, k + 1);
            total_edges_ascend(all, k + 1, node as int);
            assert(offsets@[k] == total_edges(all, k));
            assert(offsets@[k + 1] == total_edges(all, k + 1));
            assert(stands_at(all, edges@, k));
            assert(all[k] == adjacency@[k]@);
        }
    }
    Some((offsets, edges))
}

/// A network with its nodes and the names of its ways.
pub struct StreetGraph {
    pub network: StreetNetwork,
    pub node_osm_ids: Vec<i64>,
    pub coordinates: Vec<PolylinePoint>,
    pub node_lookup: HashMap<i64, usize>,
    pub way_names: HashMap<i64, String>,
}

/// The names that the first `n` ways have.
pub open spec fn names_of(ways: Seq<OsmWay>, n: int) -> Map<i64, Seq<char>>
    decreases n,
{
    if n <= 0 {
        Map::empty()
    } else {
        match tagged_name(ways[n - 1].tags@) {
            Some(name) => names_of(ways, n - 1).insert(ways[n - 1].id, name),
            None => names_of(ways, n - 1),
        }
    }
}

/// Names as texts.
pub open spec fn names_view(names: Map<i64, String>) -> Map<i64, Seq<char>> {
    Map::new(|id: i64| names.dom().contains(id), |id: i64| names[id]@)
}

/// The stretches of a network, out of the nodes or into them.
pub open spec fn network_row(network: StreetNetwork, reverse: bool, node: int) -> Seq<StreetEdge> {
    if reverse { edge_row(network.reverse_node_offsets@, network.reverse_edges@, node) } else { edge_row(network.node_offsets@, network.forward_edges@, node) }
}

/// Whether the stretches into the nodes of a network are those out of them.
pub open spec fn network_consistent(network: StreetNetwork) -> bool {
    forall|reverse: bool, node: int, i: int| 0 <= node < network.node_count && 0 <= i < network_row(network, reverse, node).len() ==> {
        let edge = #[trigger] network_row(network, reverse, node)[i];
        edge.to < network.node_count && node <= u32::MAX && network_row(network, !reverse, edge.to as int).contains(turned(edge, node as usize))
    }
}

/// Whether a network is that of a graph.
pub open spec fn is_network_of(built: StreetGraph, graph: GraphView) -> bool {
    &&& built.node_osm_ids@ == graph.ids
    &&& built.coordinates@ == graph.places
    &&& built.network.node_count == graph.ids.len()
    &&& forall|node: int| 0 <= node < graph.ids.len() ==> #[trigger] network_row(built.network, false, node) == graph.forward[node]
    &&& forall|node: int| 0 <= node < graph.ids.len() ==> #[trigger] network_row(built.network, true, node) == graph.reverse[node]
    &&& forall|id: i64| built.node_lookup@.dom().contains(id) <==> place_of(graph.ids, id) < graph.ids.len()
    &&& forall|id: i64| #[trigger] built.node_lookup@.dom().contains(id) ==> built.node_lookup@[id] == place_of(graph.ids, id)
}

/// Whether ways can be built of: each of their stretches was measured.
pub open spec fn ways_measured(ways: Seq<OsmWay>) -> bool {
    forall|i: int| 0 <= i < ways.len() ==> (#[trigger] ways[i]).measures@.len() >= stretch_count(ways[i])
}

/// Builds the network of ways.
pub fn build_graph_cache(mode: StreetMode, places: &HashMap<i64, PolylinePoint>, ways: &Vec<OsmWay>) -> (result: Result<StreetGraph, GraphError>)
    requires
        ways_measured(ways@),
    ensures
        match result {
            Ok(built) => {
                let graph = graph_of(places@, mode, ways@, ways@.len() as int);
                &&& graph is Ok
                &&& graph->Ok_0.ids.len() > 0
                &&& total_edges(graph->Ok_0.forward, graph->Ok_0.ids.len() as int) <= u32::MAX
                &&& total_edges(graph->Ok_0.reverse, graph->Ok_0.ids.len() as int) <= u32::MAX
                &&& is_network_of(built, graph->Ok_0)
                &&& names_view(built.way_names@) == names_of(ways@, ways@.len() as int)
                &&& network_consistent(built.network)
            },
            Err(GraphError::TooManyEdges) => {
                let graph = graph_of(places@, mode, ways@, ways@.len() as int);
                &&& graph is Ok
                &&& total_edges(graph->Ok_0.forward, graph->Ok_0.ids.len() as int) > u32::MAX || total_edges(graph->Ok_0.reverse, graph->Ok_0.ids.len() as int) > u32::MAX
            },
            Err(GraphError::Empty) => {
                let graph = graph_of(places@, mode, ways@, ways@.len() as int);
                graph is Ok && graph->Ok_0.ids.len() == 0
            },
            Err(error) => graph_of(places@, mode, ways@, ways@.len() as int) == Err::<GraphView, GraphError>(error),
        },
{
    let mut draft: GraphDraft = GraphDraft { ids: Vec::new(), places: Vec::new(), lookup: HashMap::new(), forward: Vec::new(), reverse: Vec::new() };
    let mut way_names: HashMap<i64, String> = HashMap::new();
    proof {
        let empty = graph_of(places@, mode, ways@, 0)->Ok_0;
        assert(draft@.ids =~= empty.ids);
        assert(draft@.places =~= empty.places);
        assert(draft@.forward =~= empty.forward);
        assert(draft@.reverse =~= empty.reverse);
        assert(names_view(way_names@) =~= Map::<i64, Seq<char>>::empty());
    }
    let mut w: usize = 0;
    while w < ways.len()
        invariant
            w <= ways@.len(),
            ways_measured(ways@),
            draft.wf(),
            graph_of(places@, mode, ways@, w as int) == Ok::<GraphView, GraphError>(draft@),
            names_view(way_names@) == names_of(ways@, w as int),
        decreases ways.len() - w,
    {
        let way: &OsmWay = &ways[w];
        let ghost named = way_names@;
        match way_name(&way.tags) {
            Some(name) => {
                let ghost shown = name@;
                way_names.insert(way.id, name);
                assert(names_view(way_names@) =~= names_view(named).insert(way.id, shown));
            },
            None => {},
        }
        let direction: TravelDirection = way_direction(mode, &way.tags);
        let ghost start = draft@;
        assert(ways@[w as int].measures@.len() >= stretch_count(ways@[w as int]));
        let count: usize = if way.nodes.len() > 0 { way.nodes.len() - 1 } else { 0 };
        let mut k: usize = 0;
        while k < count
            invariant
                k <= count,
                count == stretch_count(*way),
                count <= way.measures@.len(),
                w < ways@.len(),
                *way == ways@[w as int],
                graph_of(places@, mode, ways@, w as int) == Ok::<GraphView, GraphError>(start),
                direction == direction_of(mode, way.tags@),
                draft.wf(),
                after_way(start, places@, mode, *way, k as int) == Ok::<GraphView, GraphError>(draft@),
            decreases count - k,
        {
            match draft.add_stretch(places, direction, way, k, Ghost(mode)) {
                Ok(_) => {},
                Err(error) => {
                    proof {
                        way_keeps_error(start, places@, mode, *way, k + 1, count as int);
                        assert(graph_of(places@, mode, ways@, w + 1) == Err::<GraphView, GraphError>(error));
                        graph_keeps_error(places@, mode, ways@, w + 1, ways@.len() as int);
                        assert(error == GraphError::TooManyNodes);
                    }
                    return Err(error);
                },
            }
            k = k + 1;
        }
        w = w + 1;
    }
    let ghost graph = draft@;
    if draft.ids.len() == 0 {
        return Err(GraphError::Empty);
    }
    let (node_offsets, forward_edges) = match flatten_edges(&draft.forward) {
        Some(flat) => flat,
        None => {
            return Err(GraphError::TooManyEdges);
        },
    };
    let (reverse_node_offsets, reverse_edges) = match flatten_edges(&draft.reverse) {
        Some(flat) => flat,
        None => {
            return Err(GraphError::TooManyEdges);
        },
    };
    let ghost forward = draft.forward@;
    let ghost reverse = draft.reverse@;
    let network: StreetNetwork = StreetNetwork {
        node_count: draft.ids.len(),
        node_offsets: node_offsets,
        forward_edges: forward_edges,
        reverse_node_offsets: reverse_node_offsets,
        reverse_edges: reverse_edges,
    };
    proof {
        assert forall|node: int| 0 <= node < graph.ids.len() implies #[trigger] network_row(network, false, node) == graph.forward[node] by {
            assert(edge_row(network.node_offsets@, network.forward_edges@, node) == forward[node]@);
        }
        assert forall|node: int| 0 <= node < graph.ids.len() implies #[trigger] network_row(network, true, node) == graph.reverse[node] by {
            assert(edge_row(network.reverse_node_offsets@, network.reverse_edges@, node) == reverse[node]@);
        }
        assert forall|back: bool, node: int, i: int| 0 <= node < network.node_count && 0 <= i < network_row(network, back, node).len() implies ({
            let edge = #[trigger] network_row(network, back, node)[i];
            edge.to < network.node_count && node <= u32::MAX && network_row(network, !back, edge.to as int).contains(turned(edge, node as usize))
        }) by {
            assert(network_row(network, back, node) == lists(graph, back)[node]);
            let edge = lists(graph, back)[node][i];
            assert(network_row(network, !back, edge.to as int) == lists(graph, !back)[edge.to as int]);
        }
        assert forall|id: i64| draft.lookup@.dom().contains(id) <==> place_of(graph.ids, id) < graph.ids.len() by {
            place_facts(graph.ids, id, 0);
            if place_of(graph.ids, id) < graph.ids.len() {
                assert(draft.lookup@.dom().contains(graph.ids[place_of(graph.ids, id)]));
            }
        }
    }
    Ok(
        StreetGraph {
            network: network,
            node_osm_ids: draft.ids,
            coordinates: draft.places,
            node_lookup: draft.lookup,
            way_names: way_names,
        },
    )
}

} // verus!
