//! Shortest ways through a street network, searched from both ends.

use crate::cost_heap::{no_later, CostHeap, HeapState};
use crate::number::ShortReal;
use std::collections::{HashMap, HashSet};
use vstd::prelude::*;

verus! {

/// A stretch of street from one node to another.
#[derive(Clone, Copy, Debug, PartialEq, Eq, Structural)]
pub struct StreetEdge {
    pub to: u32,
    pub duration_secs: u32,
    pub distance_meters: ShortReal,
    pub way_id: i64,
}

/// The stretches of a street network: those out of each node, and those into it
/// (which lead back), each node's in a row.
pub struct StreetNetwork {
    pub node_count: usize,
    pub node_offsets: Vec<u32>,
    pub forward_edges: Vec<StreetEdge>,
    pub reverse_node_offsets: Vec<u32>,
    pub reverse_edges: Vec<StreetEdge>,
}

/// Changes to a network: ways that are closed, and stretches that were added.
/// Nodes that were added have numbers from the network's on.
pub struct StreetOverlayEdges {
    pub blocked_way_ids: HashSet<i64>,
    pub added_node_count: usize,
    pub forward_adjacency: HashMap<usize, Vec<StreetEdge>>,
    pub reverse_adjacency: HashMap<usize, Vec<StreetEdge>>,
}

/// The stretches of a node in the rows of a network; none beyond the rows.
pub open spec fn edge_row(offsets: Seq<u32>, edges: Seq<StreetEdge>, node: int) -> Seq<StreetEdge> {
    if node + 1 < offsets.len() && offsets[node] <= offsets[node + 1] <= edges.len() {
        edges.subrange(offsets[node] as int, offsets[node + 1] as int)
    } else {
        Seq::empty()
    }
}

/// The first `n` stretches without those on closed ways.
pub open spec fn open_edges(edges: Seq<StreetEdge>, blocked: Set<i64>, n: int) -> Seq<StreetEdge>
    decreases n,
{
    if n <= 0 {
        Seq::empty()
    } else if blocked.contains(edges[n - 1].way_id) {
        open_edges(edges, blocked, n - 1)
    } else {
        open_edges(edges, blocked, n - 1).push(edges[n - 1])
    }
}

/// The stretches that an overlay adds to a node.
pub open spec fn added_edges(adjacency: Map<usize, Vec<StreetEdge>>, node: usize) -> Seq<StreetEdge> {
    if adjacency.dom().contains(node) { adjacency[node]@ } else { Seq::empty() }
}

/// A network with its overlay.
pub struct StreetView {
    pub network: StreetNetwork,
    pub overlay: StreetOverlayEdges,
}

/// The stretches out of a node, or those into it: the open ones of the network,
/// then those that the overlay adds.
pub open spec fn adjacent(streets: StreetView, reverse: bool, node: usize) -> Seq<StreetEdge> {
    let network = streets.network;
    let overlay = streets.overlay;
    let row = if node >= network.node_count {
        Seq::empty()
    } else if reverse {
        edge_row(network.reverse_node_offsets@, network.reverse_edges@, node as int)
    } else {
        edge_row(network.node_offsets@, network.forward_edges@, node as int)
    };
    let added = if reverse { added_edges(overlay.reverse_adjacency@, node) } else { added_edges(overlay.forward_adjacency@, node) };
    open_edges(row, overlay.blocked_way_ids@, row.len() as int) + added
}

/// Number of nodes of a network with its overlay.
pub open spec fn street_nodes(streets: StreetView) -> int {
    streets.network.node_count + streets.overlay.added_node_count
}

/// The same stretch seen from its other end.
pub open spec fn turned(edge: StreetEdge, from: usize) -> StreetEdge {
    StreetEdge { to: from as u32, ..edge }
}

/// Whether the stretches into the nodes are those out of the nodes, and all lead
/// to nodes.
pub open spec fn streets_consistent(streets: StreetView) -> bool {
    &&& street_nodes(streets) <= u32::MAX
    &&& streets.network.node_count + streets.overlay.added_node_count <= usize::MAX
    &&& forall|reverse: bool, node: usize, i: int|
        #![trigger adjacent(streets, reverse, node)[i]]
        0 <= i < adjacent(streets, reverse, node).len() ==> has_counterpart(streets, reverse, node, adjacent(streets, reverse, node)[i])
}

/// Whether a stretch leads between nodes and is found from its other end.
pub open spec fn has_counterpart(streets: StreetView, reverse: bool, node: usize, edge: StreetEdge) -> bool {
    &&& node < street_nodes(streets)
    &&& edge.to < street_nodes(streets)
    &&& adjacent(streets, !reverse, edge.to as usize).contains(turned(edge, node))
}

/// A step along a stretch.
#[derive(Clone, Copy, Debug, PartialEq, Eq, Structural)]
pub struct Hop {
    pub from: usize,
    pub edge: StreetEdge,
}

/// Where a way ends.
pub open spec fn way_end(start: usize, hops: Seq<Hop>) -> usize {
    if hops.len() == 0 { start } else { hops.last().edge.to as usize }
}

/// Whether hops make a way from a node along stretches of the network.
pub open spec fn is_way(streets: StreetView, reverse: bool, start: usize, hops: Seq<Hop>) -> bool
    decreases hops.len(),
{
    if hops.len() == 0 {
        true
    } else {
        let before = hops.drop_last();
        &&& is_way(streets, reverse, start, before)
        &&& hops.last().from == way_end(start, before)
        &&& adjacent(streets, reverse, hops.last().from).contains(hops.last().edge)
    }
}

/// How long a way takes.
pub open spec fn way_cost(hops: Seq<Hop>) -> int
    decreases hops.len(),
{
    if hops.len() == 0 { 0 } else { way_cost(hops.drop_last()) + hops.last().edge.duration_secs }
}

/// How a node was reached: from which node, by which stretch.
#[derive(Clone, Copy, Debug, PartialEq, Eq, Structural)]
pub struct StepParent {
    pub node: usize,
    pub edge: StreetEdge,
}

/// A search from one end.
pub struct SearchSide {
    pub distances: HashMap<usize, u32>,
    pub parents: HashMap<usize, StepParent>,
    pub heap: CostHeap,
    pub explored: usize,
    pub settled: Ghost<Set<usize>>,
    pub ways: Ghost<Map<usize, Seq<Hop>>>,
}

/// How many nodes there are; the greatest number where that cannot be counted.
pub open spec fn number_of(nodes: Set<usize>) -> usize {
    if nodes.len() > usize::MAX { usize::MAX } else { nodes.len() as usize }
}

/// Whether a node can be reached within a time.
pub open spec fn within_reach(streets: StreetView, reverse: bool, start: usize, node: usize, time: int) -> bool {
    exists|hops: Seq<Hop>| #[trigger] is_way(streets, reverse, start, hops) && way_end(start, hops) == node && way_cost(hops) <= time
}

/// Whether nodes are those that a search has explored up to a time: each can be reached
/// within it, and each that can be reached in less, and in less than a bound, is among
/// them.
pub open spec fn explored_up_to(streets: StreetView, reverse: bool, start: usize, bound: int, nodes: Set<usize>, time: int) -> bool {
    &&& nodes.finite()
    &&& forall|v: usize| #[trigger] nodes.contains(v) ==> within_reach(streets, reverse, start, v, time)
    &&& forall|hops: Seq<Hop>| #[trigger] is_way(streets, reverse, start, hops) && way_cost(hops) < time && way_cost(hops) < bound ==> nodes.contains(way_end(start, hops))
}

/// Whether so many nodes are those that a search has explored up to some time.
pub open spec fn explored_count(streets: StreetView, reverse: bool, start: usize, bound: int, count: usize) -> bool {
    exists|nodes: Set<usize>, time: int| #[trigger] explored_up_to(streets, reverse, start, bound, nodes, time) && count == number_of(nodes)
}

/// What is left of the distances that could still fall.
pub open spec fn slack(distances: Map<usize, u32>, n: int) -> int
    decreases n,
{
    if n <= 0 {
        0
    } else {
        slack(distances, n - 1) + (if distances.dom().contains((n - 1) as usize) { distances[(n - 1) as usize] as int } else { u32::MAX as int })
    }
}

impl SearchSide {
    /// Whether no entry waits twice, and none that is up to date waits for a settled
    /// node.
    #[verifier::opaque]
    pub open spec fn waits_once(&self) -> bool {
        &&& forall|e: HeapState| #[trigger] self.heap@.to_multiset().count(e) <= 1
        &&& forall|u: usize| #[trigger] self.settled@.contains(u) ==> !self.heap@.contains(HeapState { node_index: u, cost: self.distances@[u] as u64 })
    }

    /// Whether the settled nodes were counted.
    pub open spec fn counted(&self) -> bool {
        self.waits_once() && self.settled@.finite() && self.explored == number_of(self.settled@)
    }

    /// Whether a search from a node is sound: every distance is that of a way, in
    /// steps from settled nodes; every node that is not settled waits in the
    /// queue; no settled node is farther than a waiting one; and from settled
    /// nodes every stretch was followed unless it leads beyond the bound.
    #[verifier::opaque]
    pub open spec fn sound(&self, streets: StreetView, reverse: bool, start: usize, bound: u32) -> bool {
        let distances = self.distances@;
        let parents = self.parents@;
        let settled = self.settled@;
        let ways = self.ways@;
        &&& self.heap.wf()
        &&& distances.dom().contains(start)
        &&& distances[start] == 0
        &&& ways.dom().contains(start)
        &&& ways[start] == Seq::<Hop>::empty()
        &&& !parents.dom().contains(start)
        &&& forall|v: usize| #[trigger] distances.dom().contains(v) ==> {
            &&& v < street_nodes(streets)
            &&& ways.dom().contains(v)
            &&& is_way(streets, reverse, start, ways[v])
            &&& way_end(start, ways[v]) == v
            &&& way_cost(ways[v]) == distances[v]
        }
        &&& forall|v: usize| #[trigger] distances.dom().contains(v) && v != start ==> {
            &&& parents.dom().contains(v)
            &&& settled.contains(parents[v].node)
            &&& parents[v].edge.to == v
            &&& ways[v] == ways[parents[v].node].push(Hop { from: parents[v].node, edge: parents[v].edge })
        }
        &&& forall|v: usize| #[trigger] settled.contains(v) ==> distances.dom().contains(v)
        &&& forall|v: usize| #[trigger] distances.dom().contains(v) && !settled.contains(v) ==> self.heap@.contains(
            HeapState { node_index: v, cost: distances[v] as u64 },
        )
        &&& forall|e: HeapState| #[trigger] self.heap@.contains(e) ==> distances.dom().contains(e.node_index) && distances[e.node_index] <= e.cost
        &&& forall|u: usize, e: HeapState| #[trigger] settled.contains(u) && #[trigger] self.heap@.contains(e) ==> distances[u] <= e.cost
        &&& forall|u: usize, i: int| #[trigger] settled.contains(u) && 0 <= i < adjacent(streets, reverse, u).len() ==> followed(
            distances,
            u,
            #[trigger] adjacent(streets, reverse, u)[i],
            bound,
        )
    }

    /// Whether a search is sound but for a node that was just taken from the
    /// queue: it is not settled yet, and no settled node is farther, no waiting
    /// one nearer.
    pub open spec fn sound_except(&self, streets: StreetView, reverse: bool, start: usize, bound: u32, node: usize, cost: u32) -> bool {
        let distances = self.distances@;
        let parents = self.parents@;
        let settled = self.settled@;
        let ways = self.ways@;
        &&& self.heap.wf()
        &&& distances.dom().contains(start)
        &&& distances[start] == 0
        &&& ways.dom().contains(start)
        &&& ways[start] == Seq::<Hop>::empty()
        &&& !parents.dom().contains(start)
        &&& forall|v: usize| #[trigger] distances.dom().contains(v) ==> {
            &&& v < street_nodes(streets)
            &&& ways.dom().contains(v)
            &&& is_way(streets, reverse, start, ways[v])
            &&& way_end(start, ways[v]) == v
            &&& way_cost(ways[v]) == distances[v]
        }
        &&& forall|v: usize| #[trigger] distances.dom().contains(v) && v != start ==> {
            &&& parents.dom().contains(v)
            &&& settled.contains(parents[v].node)
            &&& parents[v].edge.to == v
            &&& ways[v] == ways[parents[v].node].push(Hop { from: parents[v].node, edge: parents[v].edge })
        }
        &&& forall|v: usize| #[trigger] settled.contains(v) ==> distances.dom().contains(v)
        &&& forall|v: usize| #[trigger] distances.dom().contains(v) && !settled.contains(v) && v != node ==> self.heap@.contains(
            HeapState { node_index: v, cost: distances[v] as u64 },
        )
        &&& forall|e: HeapState| #[trigger] self.heap@.contains(e) ==> distances.dom().contains(e.node_index) && distances[e.node_index] <= e.cost
        &&& forall|u: usize, e: HeapState| #[trigger] settled.contains(u) && #[trigger] self.heap@.contains(e) ==> distances[u] <= e.cost
        &&& forall|e: HeapState| #[trigger] self.heap@.contains(e) ==> cost <= e.cost
        &&& forall|u: usize| #[trigger] settled.contains(u) ==> distances[u] <= cost
        &&& forall|u: usize, i: int| #[trigger] settled.contains(u) && 0 <= i < adjacent(streets, reverse, u).len() ==> followed(
            distances,
            u,
            #[trigger] adjacent(streets, reverse, u)[i],
            bound,
        )
    }
}

/// Whether a stretch from a settled node was followed, or leads beyond the bound.
pub open spec fn followed(distances: Map<usize, u32>, u: usize, edge: StreetEdge, bound: u32) -> bool {
    ||| distances[u] + edge.duration_secs >= bound
    ||| distances.dom().contains(edge.to as usize) && distances[edge.to as usize] <= distances[u] + edge.duration_secs
}

fn start_side(start: usize, Ghost(streets): Ghost<StreetView>, Ghost(reverse): Ghost<bool>) -> (side: SearchSide)
    requires
        start < street_nodes(streets),
    ensures
        side.sound(streets, reverse, start, u32::MAX),
        side.settled@ == Set::<usize>::empty(),
        side.distances@ == Map::<usize, u32>::empty().insert(start, 0),
        side.counted(),
        side.explored == 0,
        side.heap@.len() == 1,
        side.heap.wf(),
{
    proof {
        reveal(SearchSide::sound);
        reveal(SearchSide::waits_once);
    }
    let mut distances: HashMap<usize, u32> = HashMap::new();
    distances.insert(start, 0);
    let parents: HashMap<usize, StepParent> = HashMap::new();
    let mut heap: CostHeap = CostHeap::new();
    proof {
        heap@.to_multiset_ensures();
    }
    heap.push(HeapState { node_index: start, cost: 0 as u64 });
    let side = SearchSide {
        distances: distances,
        parents: parents,
        heap: heap,
        explored: 0,
        settled: Ghost(Set::empty()),
        ways: Ghost(Map::empty().insert(start, Seq::empty())),
    };
    assert(side.distances@ =~= Map::<usize, u32>::empty().insert(start, 0));
    side
}

proof fn slack_falls(before: Map<usize, u32>, v: usize, cost: u32, n: int)
    requires
        0 <= n <= usize::MAX,
        v < n,
        before.dom().contains(v) ==> cost < before[v],
        cost < u32::MAX,
    ensures
        slack(before.insert(v, cost), n) < slack(before, n),
    decreases n,
{
    let after = before.insert(v, cost);
    if v == n - 1 {
        slack_same(before, v, cost, n - 1);
    } else {
        slack_falls(before, v, cost, n - 1);
    }
}

proof fn slack_same(before: Map<usize, u32>, v: usize, cost: u32, n: int)
    requires
        0 <= n <= v,
    ensures
        slack(before.insert(v, cost), n) == slack(before, n),
    decreases n,
{
    if n > 0 {
        slack_same(before, v, cost, n - 1);
    }
}

proof fn slack_positive(distances: Map<usize, u32>, n: int)
    ensures
        slack(distances, n) >= 0,
    decreases n,
{
    if n > 0 {
        slack_positive(distances, n - 1);
    }
}

fn collect_adjacent(network: &StreetNetwork, overlay: &StreetOverlayEdges, reverse: bool, node: usize) -> (edges: Vec<StreetEdge>)
    ensures
        edges@ == adjacent((StreetView { network: *network, overlay: *overlay }), reverse, node),
{
    let mut edges: Vec<StreetEdge> = Vec::new();
    let ghost row = if node >= network.node_count {
        Seq::empty()
    } else if reverse {
        edge_row(network.reverse_node_offsets@, network.reverse_edges@, node as int)
    } else {
        edge_row(network.node_offsets@, network.forward_edges@, node as int)
    };
    let ghost blocked = overlay.blocked_way_ids@;
    let offsets: &Vec<u32> = if reverse { &network.reverse_node_offsets } else { &network.node_offsets };
    let all: &Vec<StreetEdge> = if reverse { &network.reverse_edges } else { &network.forward_edges };
    if node < network.node_count && offsets.len() > 0 && node < offsets.len() - 1 {
        let from: usize = offsets[node] as usize;
        let to: usize = offsets[node + 1] as usize;
        if from <= to && to <= all.len() {
            assert(row =~= all@.subrange(from as int, to as int));
            let mut i: usize = from;
            while i < to
                invariant
                    from <= i <= to <= all.len(),
                    row == all@.subrange(from as int, to as int),
                    blocked == overlay.blocked_way_ids@,
                    edges@ == open_edges(row, blocked, i - from),
                decreases to - i,
            {
                let edge: StreetEdge = all[i];
                assert(row[i - from] == edge);
                if !overlay.blocked_way_ids.contains(&edge.way_id) {
                    edges.push(edge);
                }
                i = i + 1;
            }
        }
    }
    assert(edges@ =~= open_edges(row, blocked, row.len() as int));
    let adjacency: &HashMap<usize, Vec<StreetEdge>> = if reverse { &overlay.reverse_adjacency } else { &overlay.forward_adjacency };
    let ghost open = edges@;
    match adjacency.get(&node) {
        None => {
            assert(edges@ =~= open + Seq::<StreetEdge>::empty());
        },
        Some(added) => {
            let mut j: usize = 0;
            while j < added.len()
                invariant
                    j <= added.len(),
                    edges@ == open + added@.take(j as int),
                decreases added.len() - j,
            {
                edges.push(added[j]);
                j = j + 1;
                assert(edges@ =~= open + added@.take(j as int));
            }
            assert(added@.take(j as int) =~= added@);
        },
    }
    edges
}

impl SearchSide {
    /// Whether a search is sound while the stretches of a node just settled are
    /// followed, up to the `i`th.
    #[verifier::opaque]
    pub open spec fn following(&self, streets: StreetView, reverse: bool, start: usize, bound: u32, node: usize, cost: u32, i: int) -> bool {
        let distances = self.distances@;
        let parents = self.parents@;
        let settled = self.settled@;
        let ways = self.ways@;
        &&& self.heap.wf()
        &&& settled.contains(node)
        &&& distances.dom().contains(node)
        &&& distances[node] == cost
        &&& distances.dom().contains(start)
        &&& distances[start] == 0
        &&& ways.dom().contains(start)
        &&& ways[start] == Seq::<Hop>::empty()
        &&& !parents.dom().contains(start)
        &&& forall|v: usize| #[trigger] distances.dom().contains(v) ==> {
            &&& v < street_nodes(streets)
            &&& ways.dom().contains(v)
            &&& is_way(streets, reverse, start, ways[v])
            &&& way_end(start, ways[v]) == v
            &&& way_cost(ways[v]) == distances[v]
        }
        &&& forall|v: usize| #[trigger] distances.dom().contains(v) && v != start ==> {
            &&& parents.dom().contains(v)
            &&& settled.contains(parents[v].node)
            &&& parents[v].edge.to == v
            &&& ways[v] == ways[parents[v].node].push(Hop { from: parents[v].node, edge: parents[v].edge })
        }
        &&& forall|v: usize| #[trigger] settled.contains(v) ==> distances.dom().contains(v)
        &&& forall|v: usize| #[trigger] distances.dom().contains(v) && !settled.contains(v) ==> self.heap@.contains(
            HeapState { node_index: v, cost: distances[v] as u64 },
        )
        &&& forall|e: HeapState| #[trigger] self.heap@.contains(e) ==> distances.dom().contains(e.node_index) && distances[e.node_index] <= e.cost
        &&& forall|e: HeapState| #[trigger] self.heap@.contains(e) ==> cost <= e.cost
        &&& forall|u: usize| #[trigger] settled.contains(u) ==> distances[u] <= cost
        &&& forall|u: usize, k: int| #[trigger] settled.contains(u) && 0 <= k < adjacent(streets, reverse, u).len() && (u != node || k < i) ==> followed(
            distances,
            u,
            #[trigger] adjacent(streets, reverse, u)[k],
            bound,
        )
    }

    /// Follows one stretch of a node just settled, unless it leads beyond the
    /// bound.
    fn follow(
        &mut self,
        edge: StreetEdge,
        node: usize,
        cost: u32,
        bound: u32,
        Ghost(streets): Ghost<StreetView>,
        Ghost(reverse): Ghost<bool>,
        Ghost(start): Ghost<usize>,
        Ghost(i): Ghost<int>,
    )
        requires
            streets_consistent(streets),
            old(self).following(streets, reverse, start, bound, node, cost, i),
            old(self).waits_once(),
            0 <= i < adjacent(streets, reverse, node).len(),
            adjacent(streets, reverse, node)[i] == edge,
        ensures
            final(self).following(streets, reverse, start, bound, node, cost, i + 1),
            final(self).waits_once(),
            final(self).settled@ == old(self).settled@,
            final(self).explored == old(self).explored,
            forall|v: usize| #[trigger] old(self).distances@.dom().contains(v) ==> final(self).distances@.dom().contains(v) && final(self).distances@[v] <= old(self).distances@[v],
            forall|v: usize| #[trigger] old(self).settled@.contains(v) ==> final(self).distances@[v] == old(self).distances@[v],
            slack(final(self).distances@, street_nodes(streets)) < slack(old(self).distances@, street_nodes(streets)) || (final(self).distances@ == old(self).distances@
                && final(self).heap@.len() == old(self).heap@.len()),
    {
        let ghost n = street_nodes(streets);
        let ghost settled = self.settled@;
        proof {
            reveal(SearchSide::following);
        }
        let target: usize = edge.to as usize;
        assert(target < n);
        let beyond: bool = edge.duration_secs >= u32::MAX - cost || cost + edge.duration_secs >= bound;
        if beyond {
            return;
        }
        let candidate: u32 = cost + edge.duration_secs;
        let update: bool = match self.distances.get(&target) {
            Some(current) => candidate < *current,
            None => true,
        };
        if !update {
            return;
        }
        let ghost before = *self;
        let ghost old_distances = self.distances@;
        let ghost old_ways = self.ways@;
        let ghost old_parents = self.parents@;
        let ghost old_heap = self.heap@;
        let ghost way = old_ways[node].push(Hop { from: node, edge: edge });
        proof {
            if settled.contains(target) {
                assert(old_distances[target] <= cost);
                assert(false);
            }
            assert(way.drop_last() =~= old_ways[node]);
            assert(adjacent(streets, reverse, node).contains(edge));
            slack_falls(old_distances, target, candidate, n);
        }
        self.distances.insert(target, candidate);
        self.parents.insert(target, StepParent { node: node, edge: edge });
        let ghost entry = HeapState { node_index: target, cost: candidate as u64 };
        proof {
            reveal(SearchSide::waits_once);
            old_heap.to_multiset_ensures();
            assert(!old_heap.contains(entry));
            assert(old_heap.to_multiset().count(entry) == 0);
        }
        self.heap.push(HeapState { node_index: target, cost: candidate as u64 });
        proof {
            assert forall|e: HeapState| #[trigger] self.heap@.to_multiset().count(e) <= 1 by {
                assert(old_heap.to_multiset().count(e) <= 1);
            }
            assert forall|u: usize| #[trigger] settled.contains(u) implies !self.heap@.contains(HeapState { node_index: u, cost: self.distances@[u] as u64 }) by {
                assert(u != target);
                assert(!old_heap.contains(HeapState { node_index: u, cost: old_distances[u] as u64 }));
            }
            self.ways = Ghost(old_ways.insert(target, way));
            assert(self.distances@ == old_distances.insert(target, candidate));
            assert(self.parents@ == old_parents.insert(target, StepParent { node: node, edge: edge }));
            assert forall|v: usize| #[trigger] self.distances@.dom().contains(v) && v != start implies {
                &&& self.parents@.dom().contains(v)
                &&& settled.contains(self.parents@[v].node)
                &&& self.parents@[v].edge.to == v
                &&& self.ways@[v] == self.ways@[self.parents@[v].node].push(Hop { from: self.parents@[v].node, edge: self.parents@[v].edge })
            } by {
                if v != target {
                    assert(old_distances.dom().contains(v));
                    assert(settled.contains(old_parents[v].node));
                    assert(old_parents[v].node != target);
                }
            }
            assert forall|v: usize| #[trigger] self.distances@.dom().contains(v) && !settled.contains(v) implies self.heap@.contains(
                HeapState { node_index: v, cost: self.distances@[v] as u64 },
            ) by {
                if v != target {
                    assert(old_heap.contains(HeapState { node_index: v, cost: old_distances[v] as u64 }));
                }
            }
            assert forall|u: usize, k: int| #[trigger] settled.contains(u) && 0 <= k < adjacent(streets, reverse, u).len() && (u != node || k < i + 1) implies followed(
                self.distances@,
                u,
                #[trigger] adjacent(streets, reverse, u)[k],
                bound,
            ) by {
                if u != node || k < i {
                    assert(followed(old_distances, u, adjacent(streets, reverse, u)[k], bound));
                }
            }
        }
    }

    /// Settles a node that was taken from the queue: follows its stretches that
    /// do not lead beyond the bound.
    fn settle(&mut self, network: &StreetNetwork, overlay: &StreetOverlayEdges, reverse: bool, node: usize, cost: u32, bound: u32, Ghost(start): Ghost<usize>)
        requires
            streets_consistent((StreetView { network: *network, overlay: *overlay })),
            old(self).distances@.dom().contains(node),
            old(self).distances@[node] == cost,
            old(self).sound_except((StreetView { network: *network, overlay: *overlay }), reverse, start, bound, node, cost),
            old(self).waits_once(),
            !old(self).heap@.contains(HeapState { node_index: node, cost: cost as u64 }),
        ensures
            final(self).sound((StreetView { network: *network, overlay: *overlay }), reverse, start, bound),
            final(self).waits_once(),
            final(self).heap.wf(),
            final(self).settled@ == old(self).settled@.insert(node),
            forall|v: usize| #[trigger] old(self).distances@.dom().contains(v) ==> final(self).distances@.dom().contains(v) && final(self).distances@[v] <= old(self).distances@[v],
            forall|v: usize| #[trigger] final(self).settled@.contains(v) ==> final(self).distances@[v] == old(self).distances@[v],
            final(self).explored == old(self).explored,
            ({
                let n = street_nodes((StreetView { network: *network, overlay: *overlay }));
                slack(final(self).distances@, n) < slack(old(self).distances@, n) || (slack(final(self).distances@, n) == slack(old(self).distances@, n)
                    && final(self).heap@.len() == old(self).heap@.len())
            }),
    {
        let ghost streets = StreetView { network: *network, overlay: *overlay };
        let ghost n = street_nodes(streets);
        let ghost settled = self.settled@.insert(node);
        let edges: Vec<StreetEdge> = collect_adjacent(network, overlay, reverse, node);
        let ghost before = *self;
        proof {
            reveal(SearchSide::waits_once);
            self.settled = Ghost(settled);
            assert(self.waits_once());
            reveal(SearchSide::following);
            assert(self.following(streets, reverse, start, bound, node, cost, 0));
        }
        let mut i: usize = 0;
        while i < edges.len()
            invariant
                i <= edges.len(),
                streets == (StreetView { network: *network, overlay: *overlay }),
                streets_consistent(streets),
                n == street_nodes(streets),
                edges@ == adjacent(streets, reverse, node),
                self.settled@ == settled,
                self.explored == before.explored,
                self.following(streets, reverse, start, bound, node, cost, i as int),
                self.waits_once(),
                forall|v: usize| #[trigger] before.distances@.dom().contains(v) ==> self.distances@.dom().contains(v) && self.distances@[v] <= before.distances@[v],
                forall|v: usize| #[trigger] settled.contains(v) ==> self.distances@[v] == before.distances@[v],
                slack(self.distances@, n) < slack(before.distances@, n) || (self.distances@ == before.distances@ && self.heap@.len() == before.heap@.len()),
            decreases edges.len() - i,
        {
            self.follow(edges[i], node, cost, bound, Ghost(streets), Ghost(reverse), Ghost(start), Ghost(i as int));
            i = i + 1;
        }
        proof {
            reveal(SearchSide::following);
            reveal(SearchSide::sound);
        }
    }
}

/// The best meeting of two searches so far.
#[derive(Clone, Copy, Debug, PartialEq, Eq, Structural)]
pub struct Meeting {
    pub cost_secs: u32,
    pub node: Option<usize>,
}

/// Whether the best meeting accounts for everything that both searches have
/// settled: nodes that both settled, stretches from a node settled on one side to
/// one settled on the other, and each end settled from the other.
#[verifier::opaque]
pub open spec fn meeting_accounts(streets: StreetView, forward: SearchSide, backward: SearchSide, source: usize, target: usize, meeting: Meeting) -> bool {
    let f = forward.distances@;
    let b = backward.distances@;
    &&& forall|v: usize| #[trigger] forward.settled@.contains(v) && #[trigger] backward.settled@.contains(v) ==> meeting.cost_secs <= f[v] + b[v]
    &&& forall|u: usize, i: int| #[trigger] forward.settled@.contains(u) && 0 <= i < adjacent(streets, false, u).len()
        && backward.settled@.contains((#[trigger] adjacent(streets, false, u)[i]).to as usize) ==> meeting.cost_secs <= f[u] + adjacent(streets, false, u)[i].duration_secs
        + b[adjacent(streets, false, u)[i].to as usize]
    &&& forward.settled@.contains(target) ==> meeting.cost_secs <= f[target]
    &&& backward.settled@.contains(source) ==> meeting.cost_secs <= b[source]
    &&& meeting.node is None ==> meeting.cost_secs == u32::MAX
    &&& meeting.node is Some ==> {
        let m = meeting.node->0;
        f.dom().contains(m) && b.dom().contains(m) && f[m] + b[m] <= meeting.cost_secs && meeting.cost_secs < u32::MAX
    }
}

/// Whether neither search can improve on the best meeting any more: either both
/// queues are empty, or their first entries add up to no less.
pub open spec fn meeting_final(forward: SearchSide, backward: SearchSide, meeting: Meeting) -> bool {
    forall|x: HeapState, y: HeapState| #[trigger] forward.heap@.contains(x) && #[trigger] backward.heap@.contains(y) ==> x.cost + y.cost >= meeting.cost_secs
}

impl SearchSide {
    /// Takes one step of a search: settles the nearest waiting node, and looks
    /// whether the other search has been there.
    #[verifier::rlimit(30)]
    fn step(
        &mut self,
        other: &SearchSide,
        network: &StreetNetwork,
        overlay: &StreetOverlayEdges,
        reverse: bool,
        meeting: &mut Meeting,
        Ghost(start): Ghost<usize>,
    ) -> (settled_node: Option<usize>)
        requires
            streets_consistent((StreetView { network: *network, overlay: *overlay })),
            old(self).sound((StreetView { network: *network, overlay: *overlay }), reverse, start, old(meeting).cost_secs),
            old(self).counted(),
            old(self).heap@.len() > 0,
            old(self).heap.wf(),
            old(meeting).node is None ==> old(meeting).cost_secs == u32::MAX,
        ensures
            final(self).sound((StreetView { network: *network, overlay: *overlay }), reverse, start, final(meeting).cost_secs),
            final(self).counted(),
            final(self).heap.wf(),
            final(meeting).cost_secs <= old(meeting).cost_secs,
            final(self).settled@ == (match settled_node { Some(v) => old(self).settled@.insert(v), None => old(self).settled@ }),
            settled_node is Some ==> {
                let v = settled_node->0;
                &&& old(self).distances@.dom().contains(v)
                &&& final(self).distances@[v] == old(self).distances@[v]
                &&& other.distances@.dom().contains(v) ==> final(meeting).cost_secs <= final(self).distances@[v] + other.distances@[v]
            },
            forall|v: usize| #[trigger] old(self).distances@.dom().contains(v) ==> final(self).distances@.dom().contains(v) && final(self).distances@[v] <= old(self).distances@[v],
            forall|v: usize| #[trigger] old(self).settled@.contains(v) ==> final(self).distances@[v] == old(self).distances@[v],
            *final(meeting) == *old(meeting) || ({
                &&& settled_node is Some
                &&& final(meeting).node == settled_node
                &&& other.distances@.dom().contains(settled_node->0)
                &&& final(meeting).cost_secs == final(self).distances@[settled_node->0] + other.distances@[settled_node->0]
                &&& final(meeting).cost_secs < u32::MAX
            }),
            ({
                let n = street_nodes((StreetView { network: *network, overlay: *overlay }));
                slack(final(self).distances@, n) < slack(old(self).distances@, n) || (slack(final(self).distances@, n) == slack(old(self).distances@, n)
                    && final(self).heap@.len() < old(self).heap@.len())
            }),
    {
        let ghost streets = StreetView { network: *network, overlay: *overlay };
        let ghost before = *self;
        proof {
            reveal(SearchSide::sound);
        }
        let state: HeapState = self.heap.pop();
        let ghost popped = self.heap@;
        proof {
            popped_waits_no_more(before, *self, state);
            assert forall|e: HeapState| #[trigger] popped.contains(e) implies state.cost <= e.cost by {
                assert(before.heap@.contains(e));
                let k = choose|k: int| 0 <= k < before.heap@.len() && before.heap@[k] == e;
                assert(no_later(state, before.heap@[k]));
            }
        }
        let known: u32 = match self.distances.get(&state.node_index) {
            Some(cost) => *cost,
            None => {
                assert(false);
                0
            },
        };
        if state.cost > known as u64 {
            proof {
                assert forall|v: usize| #[trigger] self.distances@.dom().contains(v) && !self.settled@.contains(v) implies self.heap@.contains(
                    HeapState { node_index: v, cost: self.distances@[v] as u64 },
                ) by {
                    assert(before.heap@.contains(HeapState { node_index: v, cost: self.distances@[v] as u64 }));
                }
                assert forall|e: HeapState| #[trigger] self.heap@.contains(e) implies self.distances@.dom().contains(e.node_index) && self.distances@[e.node_index] <= e.cost by {
                    assert(before.heap@.contains(e));
                }
                assert forall|u: usize, e: HeapState| #[trigger] self.settled@.contains(u) && #[trigger] self.heap@.contains(e) implies self.distances@[u] <= e.cost by {
                    assert(before.heap@.contains(e));
                }
            }
            return None;
        }
        let node: usize = state.node_index;
        let cost: u32 = known;
        assert(state.cost == cost as u64);
        assert(state == (HeapState { node_index: node, cost: cost as u64 }));
        self.explored = if self.explored < usize::MAX { self.explored + 1 } else { self.explored };
        assert(self.waits_once()) by {
            reveal(SearchSide::waits_once);
        }
        let ghost bound_before = meeting.cost_secs;
        match other.distances.get(&node) {
            Some(other_cost) => {
                if *other_cost < u32::MAX - cost {
                    let total: u32 = cost + *other_cost;
                    if total < meeting.cost_secs {
                        meeting.cost_secs = total;
                        meeting.node = Some(node);
                    }
                }
            },
            None => {},
        }
        proof {
            assert(self.sound_except(streets, reverse, start, meeting.cost_secs, node, cost)) by {
                assert forall|v: usize| #[trigger] self.distances@.dom().contains(v) && !self.settled@.contains(v) && v != node implies self.heap@.contains(
                    HeapState { node_index: v, cost: self.distances@[v] as u64 },
                ) by {
                    assert(before.heap@.contains(HeapState { node_index: v, cost: self.distances@[v] as u64 }));
                }
                assert forall|e: HeapState| #[trigger] self.heap@.contains(e) implies self.distances@.dom().contains(e.node_index) && self.distances@[e.node_index] <= e.cost by {
                    assert(before.heap@.contains(e));
                }
                assert forall|u: usize, e: HeapState| #[trigger] self.settled@.contains(u) && #[trigger] self.heap@.contains(e) implies self.distances@[u] <= e.cost by {
                    assert(before.heap@.contains(e));
                }
                assert forall|u: usize| #[trigger] self.settled@.contains(u) implies self.distances@[u] <= cost by {
                    assert(before.heap@.contains(state));
                }
                assert forall|u: usize, i: int| #[trigger] self.settled@.contains(u) && 0 <= i < adjacent(streets, reverse, u).len() implies followed(
                    self.distances@,
                    u,
                    #[trigger] adjacent(streets, reverse, u)[i],
                    meeting.cost_secs,
                ) by {
                    assert(followed(before.distances@, u, adjacent(streets, reverse, u)[i], bound_before));
                }
            }
        }
        self.settle(network, overlay, reverse, node, cost, meeting.cost_secs, Ghost(start));
        Some(node)
    }
}

proof fn popped_waits_no_more(before: SearchSide, after: SearchSide, state: HeapState)
    requires
        before.waits_once(),
        before.heap@.contains(state),
        after.heap@.to_multiset() == before.heap@.to_multiset().remove(state),
        after.settled == before.settled,
        after.distances == before.distances,
    ensures
        after.waits_once(),
        !after.heap@.contains(state),
        before.distances@.dom().contains(state.node_index) && before.distances@[state.node_index] == state.cost ==> !before.settled@.contains(state.node_index),
{
    reveal(SearchSide::waits_once);
    before.heap@.to_multiset_ensures();
    after.heap@.to_multiset_ensures();
    assert(before.heap@.to_multiset().count(state) <= 1);
    assert forall|e: HeapState| #[trigger] after.heap@.to_multiset().count(e) <= 1 by {
        assert(before.heap@.to_multiset().count(e) <= 1);
    }
    assert(after.heap@.to_multiset().count(state) == 0);
    assert forall|u: usize| #[trigger] after.settled@.contains(u) implies !after.heap@.contains(HeapState { node_index: u, cost: after.distances@[u] as u64 }) by {
        let e = HeapState { node_index: u, cost: before.distances@[u] as u64 };
        assert(!before.heap@.contains(e));
        assert(before.heap@.to_multiset().count(e) == 0);
        assert(after.heap@.to_multiset().count(e) == 0);
    }
}

/// Two searches that have met.
pub struct MeetingSearch {
    pub meeting: usize,
    pub cost_secs: u32,
    pub forward: SearchSide,
    pub backward: SearchSide,
}

/// A shortest way: its cost, its steps, how many of them lead up to where the
/// searches met, and how many nodes each search settled.
#[derive(Clone, Debug)]
pub struct StreetWay {
    pub cost_secs: u32,
    pub hops: Vec<Hop>,
    pub meeting_hop: usize,
    pub explored_forward_nodes: usize,
    pub explored_backward_nodes: usize,
}

/// Whether hops make a way from one node to another.
pub open spec fn leads(streets: StreetView, source: usize, target: usize, hops: Seq<Hop>) -> bool {
    is_way(streets, false, source, hops) && way_end(source, hops) == target
}

/// Whether no way from one node to another takes less time.
pub open spec fn none_shorter(streets: StreetView, source: usize, target: usize, cost: int) -> bool {
    forall|hops: Seq<Hop>| #[trigger] leads(streets, source, target, hops) ==> way_cost(hops) >= cost
}

proof fn cost_is_positive(hops: Seq<Hop>)
    ensures
        way_cost(hops) >= 0,
    decreases hops.len(),
{
    if hops.len() > 0 {
        cost_is_positive(hops.drop_last());
    }
}

proof fn way_prefix(streets: StreetView, reverse: bool, start: usize, hops: Seq<Hop>, k: int)
    requires
        is_way(streets, reverse, start, hops),
        0 <= k <= hops.len(),
    ensures
        is_way(streets, reverse, start, hops.take(k)),
        way_cost(hops.take(k)) <= way_cost(hops),
        k < hops.len() ==> hops[k].from == way_end(start, hops.take(k)) && adjacent(streets, reverse, hops[k].from).contains(hops[k].edge)
            && way_cost(hops.take(k + 1)) == way_cost(hops.take(k)) + hops[k].edge.duration_secs && way_end(start, hops.take(k + 1)) == hops[k].edge.to,
    decreases hops.len(),
{
    if k == hops.len() {
        assert(hops.take(k) =~= hops);
    } else {
        let before = hops.drop_last();
        way_prefix(streets, reverse, start, before, k);
        assert(before.take(k) =~= hops.take(k));
        assert(hops.take(k + 1).drop_last() =~= hops.take(k));
        if k < before.len() {
            assert(before.take(k + 1) =~= hops.take(k + 1));
        } else {
            assert(hops.take(k) =~= before);
        }
    }
}

/// The node of a way after `k` hops.
spec fn node_at(start: usize, hops: Seq<Hop>, k: int) -> usize {
    way_end(start, hops.take(k))
}

spec fn good_forward(forward: SearchSide, start: usize, hops: Seq<Hop>, k: int) -> bool {
    let v = node_at(start, hops, k);
    forward.settled@.contains(v) && forward.distances@[v] <= way_cost(hops.take(k))
}

spec fn good_backward(backward: SearchSide, start: usize, hops: Seq<Hop>, k: int) -> bool {
    let v = node_at(start, hops, k);
    backward.settled@.contains(v) && backward.distances@[v] <= way_cost(hops) - way_cost(hops.take(k))
}

proof fn first_bad_forward(streets: StreetView, forward: SearchSide, source: usize, bound: u32, hops: Seq<Hop>, k: int) -> (i: int)
    requires
        forward.sound(streets, false, source, bound),
        is_way(streets, false, source, hops),
        way_cost(hops) < bound,
        0 <= k <= hops.len() + 1,
        forall|j: int| 0 <= j < k ==> good_forward(forward, source, hops, j),
    ensures
        k <= i <= hops.len() + 1,
        forall|j: int| 0 <= j < i ==> good_forward(forward, source, hops, j),
        i <= hops.len() ==> exists|x: HeapState| #[trigger] forward.heap@.contains(x) && x.cost <= way_cost(hops.take(i)),
        i <= hops.len() ==> !good_forward(forward, source, hops, i),
    decreases hops.len() + 1 - k,
{
    reveal(SearchSide::sound);
    reveal(meeting_accounts);
    if k == hops.len() + 1 {
        k
    } else if good_forward(forward, source, hops, k) {
        first_bad_forward(streets, forward, source, bound, hops, k + 1)
    } else {
        way_prefix(streets, false, source, hops, k);
        let v = node_at(source, hops, k);
        if k == 0 {
            assert(hops.take(0) =~= Seq::<Hop>::empty());
            assert(v == source);
        } else {
            way_prefix(streets, false, source, hops, k - 1);
            let u = node_at(source, hops, k - 1);
            assert(good_forward(forward, source, hops, k - 1));
            let edges = adjacent(streets, false, u);
            let i = choose|i: int| 0 <= i < edges.len() && edges[i] == hops[k - 1].edge;
            assert(followed(forward.distances@, u, adjacent(streets, false, u)[i], bound));
        }
        assert(forward.distances@.dom().contains(v));
        assert(forward.distances@[v] <= way_cost(hops.take(k)));
        assert(!forward.settled@.contains(v));
        assert(forward.heap@.contains(HeapState { node_index: v, cost: forward.distances@[v] as u64 }));
        k
    }
}

proof fn last_bad_backward(streets: StreetView, backward: SearchSide, source: usize, target: usize, bound: u32, hops: Seq<Hop>, k: int) -> (j: int)
    requires
        streets_consistent(streets),
        backward.sound(streets, true, target, bound),
        is_way(streets, false, source, hops),
        way_end(source, hops) == target,
        way_cost(hops) < bound,
        -1 <= k <= hops.len(),
        source < street_nodes(streets),
        forall|i: int| k < i <= hops.len() ==> good_backward(backward, source, hops, i),
    ensures
        -1 <= j <= k,
        forall|i: int| j < i <= hops.len() ==> good_backward(backward, source, hops, i),
        j >= 0 ==> exists|y: HeapState| #[trigger] backward.heap@.contains(y) && y.cost <= way_cost(hops) - way_cost(hops.take(j)),
        j >= 0 ==> !good_backward(backward, source, hops, j),
    decreases k + 1,
{
    reveal(SearchSide::sound);
    reveal(meeting_accounts);
    if k == -1 {
        k
    } else if good_backward(backward, source, hops, k) {
        last_bad_backward(streets, backward, source, target, bound, hops, k - 1)
    } else {
        way_prefix(streets, false, source, hops, k);
        let v = node_at(source, hops, k);
        if k == hops.len() {
            assert(hops.take(k) =~= hops);
            assert(v == target);
        } else {
            let w = node_at(source, hops, k + 1);
            way_prefix(streets, false, source, hops, k + 1);
            assert(good_backward(backward, source, hops, k + 1));
            let edge = hops[k].edge;
            let edges = adjacent(streets, false, v);
            let at = choose|at: int| 0 <= at < edges.len() && edges[at] == edge;
            assert(adjacent(streets, false, v)[at] == edge);
            let back = adjacent(streets, true, edge.to as usize);
            assert(back.contains(turned(edge, v)));
            let i = choose|i: int| 0 <= i < back.len() && back[i] == turned(edge, v);
            assert(w == edge.to as usize);
            assert(followed(backward.distances@, w, adjacent(streets, true, w)[i], bound));
            cost_is_positive(hops.take(k));
        }
        assert(backward.distances@.dom().contains(v));
        assert(backward.distances@[v] <= way_cost(hops) - way_cost(hops.take(k)));
        assert(!backward.settled@.contains(v));
        assert(backward.heap@.contains(HeapState { node_index: v, cost: backward.distances@[v] as u64 }));
        k
    }
}

/// Where neither search can improve on the best meeting, no way is shorter.
proof fn no_way_is_shorter(streets: StreetView, forward: SearchSide, backward: SearchSide, source: usize, target: usize, meeting: Meeting, hops: Seq<Hop>)
    requires
        streets_consistent(streets),
        source < street_nodes(streets),
        forward.sound(streets, false, source, meeting.cost_secs),
        backward.sound(streets, true, target, meeting.cost_secs),
        meeting_accounts(streets, forward, backward, source, target, meeting),
        meeting_final(forward, backward, meeting),
        is_way(streets, false, source, hops),
        way_end(source, hops) == target,
    ensures
        way_cost(hops) >= meeting.cost_secs,
{
    reveal(SearchSide::sound);
    reveal(meeting_accounts);
    let total = way_cost(hops);
    if total < meeting.cost_secs {
        let n = hops.len() as int;
        let i = first_bad_forward(streets, forward, source, meeting.cost_secs, hops, 0);
        let j = last_bad_backward(streets, backward, source, target, meeting.cost_secs, hops, n);
        assert(hops.take(n) =~= hops);
        assert(hops.take(0) =~= Seq::<Hop>::empty());
        if i == n + 1 {
            assert(good_forward(forward, source, hops, n));
            assert(node_at(source, hops, n) == target);
            assert(false);
        }
        if j == -1 {
            assert(good_backward(backward, source, hops, 0));
            assert(node_at(source, hops, 0) == source);
            assert(false);
        }
        let x = choose|x: HeapState| #[trigger] forward.heap@.contains(x) && x.cost <= way_cost(hops.take(i));
        let y = choose|y: HeapState| #[trigger] backward.heap@.contains(y) && y.cost <= total - way_cost(hops.take(j));
        if i <= j {
            way_prefix(streets, false, source, hops, j);
            way_prefix(streets, false, source, hops.take(j), i);
            assert(hops.take(j).take(i) =~= hops.take(i));
            assert(x.cost + y.cost >= meeting.cost_secs);
            assert(false);
        } else if i - 1 > j {
            let m = i - 1;
            assert(good_forward(forward, source, hops, m));
            assert(good_backward(backward, source, hops, m));
            let v = node_at(source, hops, m);
            assert(forward.settled@.contains(v) && backward.settled@.contains(v));
            assert(false);
        } else {
            assert(good_forward(forward, source, hops, j));
            assert(good_backward(backward, source, hops, i));
            way_prefix(streets, false, source, hops, j);
            let u = node_at(source, hops, j);
            let edges = adjacent(streets, false, u);
            let at = choose|at: int| 0 <= at < edges.len() && edges[at] == hops[j].edge;
            assert(backward.settled@.contains(adjacent(streets, false, u)[at].to as usize));
            assert(false);
        }
    }
}

proof fn way_is_settled(side: SearchSide, streets: StreetView, reverse: bool, start: usize, bound: u32, hops: Seq<Hop>)
    requires
        side.sound(streets, reverse, start, bound),
        is_way(streets, reverse, start, hops),
        way_cost(hops) < bound,
        forall|e: HeapState| #[trigger] side.heap@.contains(e) ==> e.cost > way_cost(hops),
    ensures
        side.settled@.contains(way_end(start, hops)),
        side.distances@[way_end(start, hops)] <= way_cost(hops),
    decreases hops.len(),
{
    reveal(SearchSide::sound);
    let distances = side.distances@;
    let end = way_end(start, hops);
    if hops.len() > 0 {
        let before = hops.drop_last();
        let hop = hops.last();
        way_is_settled(side, streets, reverse, start, bound, before);
        let edges = adjacent(streets, reverse, hop.from);
        let i = choose|i: int| 0 <= i < edges.len() && edges[i] == hop.edge;
        assert(followed(distances, hop.from, adjacent(streets, reverse, hop.from)[i], bound));
    }
    if !side.settled@.contains(end) {
        assert(side.heap@.contains(HeapState { node_index: end, cost: distances[end] as u64 }));
        assert(false);
    }
}

proof fn least_entry(entries: Seq<HeapState>) -> (k: int)
    requires
        entries.len() > 0,
    ensures
        0 <= k < entries.len(),
        forall|i: int| 0 <= i < entries.len() ==> entries[k].cost <= (#[trigger] entries[i]).cost,
    decreases entries.len(),
{
    if entries.len() == 1 {
        0
    } else {
        let k = least_entry(entries.drop_last());
        assert forall|i: int| 0 <= i < entries.len() - 1 implies entries[k].cost <= (#[trigger] entries[i]).cost by {
            assert(entries.drop_last()[i] == entries[i]);
        }
        if entries[k].cost <= entries.last().cost { k } else { entries.len() - 1 }
    }
}

proof fn side_is_explored(side: SearchSide, streets: StreetView, reverse: bool, start: usize, bound: u32)
    requires
        side.sound(streets, reverse, start, bound),
        side.counted(),
    ensures
        explored_count(streets, reverse, start, bound as int, side.explored),
{
    reveal(SearchSide::sound);
    let nodes = side.settled@;
    let mut k: int = 0;
    if side.heap@.len() > 0 {
        k = least_entry(side.heap@);
    }
    let time: int = if side.heap@.len() > 0 { side.heap@[k].cost as int } else { u32::MAX as int };
    assert forall|v: usize| #[trigger] nodes.contains(v) implies within_reach(streets, reverse, start, v, time) by {
        assert(is_way(streets, reverse, start, side.ways@[v]));
        if side.heap@.len() > 0 {
            assert(side.heap@.contains(side.heap@[k]));
        }
    }
    assert forall|hops: Seq<Hop>| #[trigger] is_way(streets, reverse, start, hops) && way_cost(hops) < time && way_cost(hops) < bound implies nodes.contains(
        way_end(start, hops),
    ) by {
        assert forall|e: HeapState| #[trigger] side.heap@.contains(e) implies e.cost > way_cost(hops) by {
            let i = choose|i: int| 0 <= i < side.heap@.len() && side.heap@[i] == e;
            assert(side.heap@[k].cost <= side.heap@[i].cost);
        }
        way_is_settled(side, streets, reverse, start, bound, hops);
    }
    assert(explored_up_to(streets, reverse, start, bound as int, nodes, time));
}

/// Searches from both ends until the searches meet in the best place. Nothing is
/// found only where every way takes longer than can be counted.
pub fn bidirectional_search(network: &StreetNetwork, overlay: &StreetOverlayEdges, source: usize, target: usize) -> (found: Option<MeetingSearch>)
    requires
        streets_consistent((StreetView { network: *network, overlay: *overlay })),
        source < network.node_count + overlay.added_node_count,
        target < network.node_count + overlay.added_node_count,
    ensures
        ({
            let streets = StreetView { network: *network, overlay: *overlay };
            match found {
                None => none_shorter(streets, source, target, u32::MAX as int),
                Some(search) => {
                    &&& none_shorter(streets, source, target, search.cost_secs as int)
                    &&& search.cost_secs < u32::MAX
                    &&& search.forward.sound(streets, false, source, search.cost_secs)
                    &&& search.backward.sound(streets, true, target, search.cost_secs)
                    &&& search.forward.counted()
                    &&& search.backward.counted()
                    &&& explored_count(streets, false, source, search.cost_secs as int, search.forward.explored)
                    &&& explored_count(streets, true, target, search.cost_secs as int, search.backward.explored)
                    &&& search.forward.distances@.dom().contains(search.meeting)
                    &&& search.backward.distances@.dom().contains(search.meeting)
                    &&& search.forward.distances@[search.meeting] + search.backward.distances@[search.meeting] <= search.cost_secs
                },
            }
        }),
{
    let ghost streets = StreetView { network: *network, overlay: *overlay };
    let ghost n = street_nodes(streets);
    let mut forward: SearchSide = start_side(source, Ghost(streets), Ghost(false));
    let mut backward: SearchSide = start_side(target, Ghost(streets), Ghost(true));
    let mut meeting: Meeting = Meeting { cost_secs: u32::MAX, node: None };
    proof {
        reveal(meeting_accounts);
    }
    while !forward.heap.is_empty() || !backward.heap.is_empty()
        invariant
            streets == (StreetView { network: *network, overlay: *overlay }),
            streets_consistent(streets),
            n == street_nodes(streets),
            forward.heap.wf(),
            backward.heap.wf(),
            meeting.node is None ==> meeting.cost_secs == u32::MAX,
            meeting.node is Some ==> meeting.cost_secs < u32::MAX,
            forward.sound(streets, false, source, meeting.cost_secs),
            backward.sound(streets, true, target, meeting.cost_secs),
            forward.counted(),
            backward.counted(),
            meeting_accounts(streets, forward, backward, source, target, meeting),
        ensures
            meeting_final(forward, backward, meeting),
        decreases slack(forward.distances@, n) + slack(backward.distances@, n), forward.heap@.len() + backward.heap@.len(),
    {
        proof {
            slack_positive(forward.distances@, n);
            slack_positive(backward.distances@, n);
        }
        let next_forward: u64 = forward.heap.least_cost();
        let next_backward: u64 = backward.heap.least_cost();
        if next_forward >= 0xFFFF_FFFF || next_backward >= 0xFFFF_FFFF || next_forward + next_backward >= meeting.cost_secs as u64 {
            assert(meeting_final(forward, backward, meeting)) by {
                assert forall|x: HeapState, y: HeapState| #[trigger] forward.heap@.contains(x) && #[trigger] backward.heap@.contains(y) implies x.cost + y.cost >= meeting.cost_secs by {
                    let a = choose|a: int| 0 <= a < forward.heap@.len() && forward.heap@[a] == x;
                    let b = choose|b: int| 0 <= b < backward.heap@.len() && backward.heap@[b] == y;
                    assert(next_forward <= forward.heap@[a].cost);
                    assert(next_backward <= backward.heap@[b].cost);
                }
            }
            break;
        }
        let ghost meeting_before = meeting;
        if next_forward <= next_backward {
            let ghost before = forward;
            if forward.heap.is_empty() {
                assert(next_forward == u32::MAX);
                assert(false);
            }
            let settled: Option<usize> = forward.step(&backward, network, overlay, false, &mut meeting, Ghost(source));
            proof {
                account_forward(streets, before, forward, backward, source, target, meeting_before, meeting, settled);
            }
        } else {
            let ghost before = backward;
            if backward.heap.is_empty() {
                assert(next_backward == u32::MAX);
                assert(false);
            }
            let settled: Option<usize> = backward.step(&forward, network, overlay, true, &mut meeting, Ghost(target));
            proof {
                account_backward(streets, forward, before, backward, source, target, meeting_before, meeting, settled);
            }
        }
        proof {
            slack_positive(forward.distances@, n);
            slack_positive(backward.distances@, n);
        }
    }
    proof {
        assert forall|hops: Seq<Hop>| #[trigger] leads(streets, source, target, hops) implies way_cost(hops) >= meeting.cost_secs by {
            no_way_is_shorter(streets, forward, backward, source, target, meeting, hops);
        }
        reveal(meeting_accounts);
        side_is_explored(forward, streets, false, source, meeting.cost_secs);
        side_is_explored(backward, streets, true, target, meeting.cost_secs);
    }
    match meeting.node {
        None => None,
        Some(node) => Some(MeetingSearch { meeting: node, cost_secs: meeting.cost_secs, forward: forward, backward: backward }),
    }
}

proof fn account_forward(
    streets: StreetView,
    before: SearchSide,
    forward: SearchSide,
    backward: SearchSide,
    source: usize,
    target: usize,
    old_meeting: Meeting,
    meeting: Meeting,
    settled: Option<usize>,
)
    requires
        streets_consistent(streets),
        before.sound(streets, false, source, old_meeting.cost_secs),
        forward.sound(streets, false, source, meeting.cost_secs),
        backward.sound(streets, true, target, old_meeting.cost_secs),
        meeting_accounts(streets, before, backward, source, target, old_meeting),
        meeting.cost_secs <= old_meeting.cost_secs,
        forward.settled@ == (match settled { Some(v) => before.settled@.insert(v), None => before.settled@ }),
        settled is Some ==> {
            let v = settled->0;
            &&& before.distances@.dom().contains(v)
            &&& forward.distances@[v] == before.distances@[v]
            &&& backward.distances@.dom().contains(v) ==> meeting.cost_secs <= forward.distances@[v] + backward.distances@[v]
        },
        forall|v: usize| #[trigger] before.distances@.dom().contains(v) ==> forward.distances@.dom().contains(v) && forward.distances@[v] <= before.distances@[v],
        forall|v: usize| #[trigger] before.settled@.contains(v) ==> forward.distances@[v] == before.distances@[v],
        meeting == old_meeting || ({
            &&& settled is Some
            &&& meeting.node == settled
            &&& backward.distances@.dom().contains(settled->0)
            &&& meeting.cost_secs == forward.distances@[settled->0] + backward.distances@[settled->0]
            &&& meeting.cost_secs < u32::MAX
        }),
    ensures
        meeting_accounts(streets, forward, backward, source, target, meeting),
        backward.sound(streets, true, target, meeting.cost_secs),
{
    reveal(SearchSide::sound);
    reveal(meeting_accounts);
    assert forall|u: usize, i: int| #[trigger] backward.settled@.contains(u) && 0 <= i < adjacent(streets, true, u).len() implies followed(
        backward.distances@,
        u,
        #[trigger] adjacent(streets, true, u)[i],
        meeting.cost_secs,
    ) by {
        assert(followed(backward.distances@, u, adjacent(streets, true, u)[i], old_meeting.cost_secs));
    }
    let f = forward.distances@;
    let b = backward.distances@;
    assert forall|v: usize| #[trigger] forward.settled@.contains(v) && #[trigger] backward.settled@.contains(v) implies meeting.cost_secs <= f[v] + b[v] by {
        if before.settled@.contains(v) {
            assert(old_meeting.cost_secs <= before.distances@[v] + b[v]);
        }
    }
    assert forall|u: usize, i: int| #[trigger] forward.settled@.contains(u) && 0 <= i < adjacent(streets, false, u).len()
        && backward.settled@.contains((#[trigger] adjacent(streets, false, u)[i]).to as usize) implies meeting.cost_secs <= f[u] + adjacent(streets, false, u)[i].duration_secs
        + b[adjacent(streets, false, u)[i].to as usize] by {
        let edge = adjacent(streets, false, u)[i];
        if before.settled@.contains(u) {
            assert(old_meeting.cost_secs <= before.distances@[u] + edge.duration_secs + b[edge.to as usize]);
        } else {
            let w = edge.to as usize;
            let back = adjacent(streets, true, w);
            assert(back.contains(turned(edge, u)));
            let k = choose|k: int| 0 <= k < back.len() && back[k] == turned(edge, u);
            assert(followed(b, w, adjacent(streets, true, w)[k], old_meeting.cost_secs));
        }
    }
    if forward.settled@.contains(target) && !before.settled@.contains(target) {
        assert(b.dom().contains(target));
    }
}

proof fn account_backward(
    streets: StreetView,
    forward: SearchSide,
    before: SearchSide,
    backward: SearchSide,
    source: usize,
    target: usize,
    old_meeting: Meeting,
    meeting: Meeting,
    settled: Option<usize>,
)
    requires
        streets_consistent(streets),
        before.sound(streets, true, target, old_meeting.cost_secs),
        backward.sound(streets, true, target, meeting.cost_secs),
        forward.sound(streets, false, source, old_meeting.cost_secs),
        meeting_accounts(streets, forward, before, source, target, old_meeting),
        meeting.cost_secs <= old_meeting.cost_secs,
        backward.settled@ == (match settled { Some(v) => before.settled@.insert(v), None => before.settled@ }),
        settled is Some ==> {
            let v = settled->0;
            &&& before.distances@.dom().contains(v)
            &&& backward.distances@[v] == before.distances@[v]
            &&& forward.distances@.dom().contains(v) ==> meeting.cost_secs <= backward.distances@[v] + forward.distances@[v]
        },
        forall|v: usize| #[trigger] before.distances@.dom().contains(v) ==> backward.distances@.dom().contains(v) && backward.distances@[v] <= before.distances@[v],
        forall|v: usize| #[trigger] before.settled@.contains(v) ==> backward.distances@[v] == before.distances@[v],
        meeting == old_meeting || ({
            &&& settled is Some
            &&& meeting.node == settled
            &&& forward.distances@.dom().contains(settled->0)
            &&& meeting.cost_secs == backward.distances@[settled->0] + forward.distances@[settled->0]
            &&& meeting.cost_secs < u32::MAX
        }),
    ensures
        meeting_accounts(streets, forward, backward, source, target, meeting),
        forward.sound(streets, false, source, meeting.cost_secs),
{
    reveal(SearchSide::sound);
    reveal(meeting_accounts);
    assert forall|u: usize, i: int| #[trigger] forward.settled@.contains(u) && 0 <= i < adjacent(streets, false, u).len() implies followed(
        forward.distances@,
        u,
        #[trigger] adjacent(streets, false, u)[i],
        meeting.cost_secs,
    ) by {
        assert(followed(forward.distances@, u, adjacent(streets, false, u)[i], old_meeting.cost_secs));
    }
    let f = forward.distances@;
    let b = backward.distances@;
    assert forall|v: usize| #[trigger] forward.settled@.contains(v) && #[trigger] backward.settled@.contains(v) implies meeting.cost_secs <= f[v] + b[v] by {
        if before.settled@.contains(v) {
            assert(old_meeting.cost_secs <= f[v] + before.distances@[v]);
        }
    }
    assert forall|u: usize, i: int| #[trigger] forward.settled@.contains(u) && 0 <= i < adjacent(streets, false, u).len()
        && backward.settled@.contains((#[trigger] adjacent(streets, false, u)[i]).to as usize) implies meeting.cost_secs <= f[u] + adjacent(streets, false, u)[i].duration_secs
        + b[adjacent(streets, false, u)[i].to as usize] by {
        let edge = adjacent(streets, false, u)[i];
        let w = edge.to as usize;
        if before.settled@.contains(w) {
            assert(old_meeting.cost_secs <= f[u] + edge.duration_secs + before.distances@[w]);
        } else {
            assert(followed(f, u, adjacent(streets, false, u)[i], old_meeting.cost_secs));
        }
    }
    if backward.settled@.contains(source) && !before.settled@.contains(source) {
        assert(f.dom().contains(source));
    }
}

spec fn reversed_hops(hops: Seq<Hop>) -> Seq<Hop> {
    Seq::new(hops.len(), |i: int| hops[hops.len() - 1 - i])
}

impl MeetingSearch {
    /// Reads the way back from where the searches met: the steps from the source
    /// to there, then on to the target. Gives also how many lead up to there.
    fn reconstruct_path(&self, source: usize, target: usize, Ghost(streets): Ghost<StreetView>) -> (result: (Vec<Hop>, usize))
        requires
            streets_consistent(streets),
            self.forward.sound(streets, false, source, self.cost_secs),
            self.backward.sound(streets, true, target, self.cost_secs),
            self.forward.distances@.dom().contains(self.meeting),
            self.backward.distances@.dom().contains(self.meeting),
        ensures
            leads(streets, source, target, result.0@),
            way_cost(result.0@) == self.forward.distances@[self.meeting] + self.backward.distances@[self.meeting],
            result.1 <= result.0@.len(),
            way_end(source, result.0@.take(result.1 as int)) == self.meeting,
    {
        let ghost ways = self.forward.ways@;
        proof {
            reveal(SearchSide::sound);
        }
        let mut back: Vec<Hop> = Vec::new();
        let mut cursor: usize = self.meeting;
        assert(ways[cursor] + reversed_hops(back@) =~= ways[self.meeting]);
        while cursor != source
            invariant
                ways == self.forward.ways@,
                self.forward.sound(streets, false, source, self.cost_secs),
                self.forward.distances@.dom().contains(cursor),
                ways[cursor] + reversed_hops(back@) == ways[self.meeting],
            decreases ways[cursor].len(),
        {
            proof {
                reveal(SearchSide::sound);
            }
            let parent: StepParent = match self.forward.parents.get(&cursor) {
                Some(parent) => *parent,
                None => {
                    assert(false);
                    return (Vec::new(), 0);
                },
            };
            let hop: Hop = Hop { from: parent.node, edge: parent.edge };
            let ghost shorter = back@;
            back.push(hop);
            proof {
                assert(ways[cursor] == ways[parent.node].push(hop));
                assert(reversed_hops(back@) =~= seq![hop] + reversed_hops(shorter));
                assert(ways[parent.node] + reversed_hops(back@) =~= ways[cursor] + reversed_hops(shorter));
                assert(self.forward.settled@.contains(parent.node));
            }
            cursor = parent.node;
        }
        assert(ways[source] + reversed_hops(back@) =~= reversed_hops(back@));
        let mut hops: Vec<Hop> = Vec::new();
        let mut i: usize = back.len();
        while i > 0
            invariant
                i <= back.len(),
                hops@.len() == back.len() - i,
                forall|k: int| 0 <= k < hops@.len() ==> #[trigger] hops@[k] == reversed_hops(back@)[k],
            decreases i,
        {
            i = i - 1;
            hops.push(back[i]);
        }
        assert(hops@ =~= ways[self.meeting]);
        let split: usize = hops.len();
        let ghost first = hops@;
        let ghost total = self.forward.distances@[self.meeting] + self.backward.distances@[self.meeting];
        assert(hops@.take(split as int) =~= first);
        cursor = self.meeting;
        while cursor != target
            invariant
                streets_consistent(streets),
                self.backward.sound(streets, true, target, self.cost_secs),
                self.backward.distances@.dom().contains(cursor),
                split <= hops@.len(),
                hops@.take(split as int) == first,
                is_way(streets, false, source, hops@),
                way_end(source, hops@) == cursor,
                way_cost(hops@) + self.backward.distances@[cursor] == total,
                first == ways[self.meeting],
            decreases self.backward.ways@[cursor].len(),
        {
            proof {
                reveal(SearchSide::sound);
            }
            let parent: StepParent = match self.backward.parents.get(&cursor) {
                Some(parent) => *parent,
                None => {
                    assert(false);
                    return (Vec::new(), 0);
                },
            };
            let ghost from_parent = self.backward.ways@[parent.node];
            let ghost whole = self.backward.ways@[cursor];
            proof {
                assert(self.backward.settled@.contains(parent.node));
                assert(self.backward.distances@.dom().contains(parent.node));
                assert(whole == from_parent.push(Hop { from: parent.node, edge: parent.edge }));
                assert(whole.drop_last() =~= from_parent);
                assert(is_way(streets, true, target, whole));
                assert(adjacent(streets, true, parent.node).contains(parent.edge));
                let edges = adjacent(streets, true, parent.node);
                let k = choose|k: int| 0 <= k < edges.len() && edges[k] == parent.edge;
                assert(adjacent(streets, true, parent.node)[k] == parent.edge);
                assert(adjacent(streets, false, cursor).contains(turned(parent.edge, parent.node)));
                assert(parent.node < street_nodes(streets));
            }
            let edge: StreetEdge = StreetEdge {
                to: parent.node as u32,
                duration_secs: parent.edge.duration_secs,
                distance_meters: parent.edge.distance_meters,
                way_id: parent.edge.way_id,
            };
            let ghost shorter = hops@;
            hops.push(Hop { from: cursor, edge: edge });
            proof {
                assert(edge == turned(parent.edge, parent.node));
                assert(hops@.drop_last() =~= shorter);
                assert(hops@.take(split as int) =~= shorter.take(split as int));
            }
            cursor = parent.node;
        }
        assert(self.backward.ways@[target] == Seq::<Hop>::empty());
        (hops, split)
    }
}

/// Finds a shortest way between two nodes. Nothing is found only where every way
/// takes longer than can be counted.
pub fn shortest_street_way(network: &StreetNetwork, overlay: &StreetOverlayEdges, source: usize, target: usize) -> (found: Option<StreetWay>)
    requires
        streets_consistent((StreetView { network: *network, overlay: *overlay })),
        source < network.node_count + overlay.added_node_count,
        target < network.node_count + overlay.added_node_count,
    ensures
        ({
            let streets = StreetView { network: *network, overlay: *overlay };
            match found {
                None => none_shorter(streets, source, target, u32::MAX as int),
                Some(way) => {
                    &&& leads(streets, source, target, way.hops@)
                    &&& way_cost(way.hops@) == way.cost_secs
                    &&& none_shorter(streets, source, target, way.cost_secs as int)
                    &&& way.meeting_hop <= way.hops@.len()
                    &&& source == target ==> way.hops@.len() == 0 && way.explored_forward_nodes == 1 && way.explored_backward_nodes == 1
                    &&& source != target ==> {
                        &&& explored_count(streets, false, source, way.cost_secs as int, way.explored_forward_nodes)
                        &&& explored_count(streets, true, target, way.cost_secs as int, way.explored_backward_nodes)
                    }
                },
            }
        }),
        source == target ==> found is Some,
{
    let ghost streets = StreetView { network: *network, overlay: *overlay };
    if source == target {
        let none: Vec<Hop> = Vec::new();
        proof {
            assert(leads(streets, source, target, none@));
            assert forall|hops: Seq<Hop>| #[trigger] leads(streets, source, target, hops) implies way_cost(hops) >= 0 by {
                cost_is_positive(hops);
            }
        }
        return Some(StreetWay { cost_secs: 0, hops: none, meeting_hop: 0, explored_forward_nodes: 1, explored_backward_nodes: 1 });
    }
    match bidirectional_search(network, overlay, source, target) {
        None => None,
        Some(search) => {
            let (hops, split) = search.reconstruct_path(source, target, Ghost(streets));
            assert(leads(streets, source, target, hops@));
            Some(
                StreetWay {
                    cost_secs: search.cost_secs,
                    hops: hops,
                    meeting_hop: split,
                    explored_forward_nodes: search.forward.explored,
                    explored_backward_nodes: search.backward.explored,
                },
            )
        },
    }
}

} // verus!
