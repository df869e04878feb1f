//! Walks followed from all stops at once: each node of the pedestrian network is
//! given to the stop that is nearest to it.

use crate::cost_heap::{no_later, CostHeap, HeapState};
use crate::hpf::{PedestrianEdge, NO_PARENT};
use crate::number::{Real, INFINITY_BITS, SIGN_WEIGHT};
use crate::shape::numerically_less;
use crate::street_overlay::SnapResult;
use vstd::prelude::*;

verus! {

/// The place of a distance in the total order, counted from zero.
pub open spec fn order_of(distance: Real) -> u64 {
    (distance.total_rank() + SIGN_WEIGHT) as u64
}

fn to_order(distance: Real) -> (order: u64)
    ensures
        order == order_of(distance),
{
    if distance.bits >= SIGN_WEIGHT { 0xFFFF_FFFF_FFFF_FFFF - distance.bits } else { distance.bits + SIGN_WEIGHT }
}

fn from_order(order: u64) -> (distance: Real)
    ensures
        order_of(distance) == order,
{
    if order >= SIGN_WEIGHT { Real { bits: order - SIGN_WEIGHT } } else { Real { bits: 0xFFFF_FFFF_FFFF_FFFF - order } }
}

/// A distance is known by its place in the total order.
pub proof fn orders_tell_distances(a: Real, b: Real)
    requires
        order_of(a) == order_of(b),
    ensures
        a == b,
{
}

/// What is known of the nodes: how far each is, from which stop, and from which
/// node it was reached.
pub struct ForestView {
    pub distances: Seq<Real>,
    pub roots: Seq<u32>,
    pub parents: Seq<Option<usize>>,
}

/// Whether two distances are the same number.
pub open spec fn numerically_equal(a: Real, b: Real) -> bool {
    !a.is_nan_spec() && !b.is_nan_spec() && a.rank() == b.rank()
}

/// Whether a way to a node takes the place of the one that is known: it is
/// shorter, or as short and from a stop with a smaller number.
pub open spec fn is_better(view: ForestView, node: int, distance: Real, root: u32) -> bool {
    numerically_less(distance, view.distances[node]) || numerically_equal(distance, view.distances[node]) && root < view.roots[node]
}

/// What is known after a way to a node was taken over.
pub open spec fn with_way(view: ForestView, node: int, distance: Real, root: u32, parent: Option<usize>) -> ForestView {
    ForestView {
        distances: view.distances.update(node, distance),
        roots: view.roots.update(node, root),
        parents: view.parents.update(node, parent),
    }
}

/// What is known after a way to a node was found: nothing else where it is too
/// long or not better.
pub open spec fn after_found(view: ForestView, node: int, distance: Real, root: u32, parent: Option<usize>, max_distance: Real) -> ForestView {
    if !numerically_less(max_distance, distance) && is_better(view, node, distance, root) { with_way(view, node, distance, root, parent) } else { view }
}

/// What is known after the first `n` stops were put on their nodes.
pub open spec fn after_seeds(view: ForestView, anchors: Seq<Option<SnapResult>>, max_distance: Real, n: int) -> ForestView
    decreases n,
{
    if n <= 0 {
        view
    } else {
        let before = after_seeds(view, anchors, max_distance, n - 1);
        match anchors[n - 1] {
            Some(anchor) => after_found(before, anchor.node_index as int, anchor.distance_meters, (n - 1) as u32, None, max_distance),
            None => before,
        }
    }
}

/// What is known after the first `n` stretches from a node were followed.
pub open spec fn after_edges(view: ForestView, node: usize, root: u32, edges: Seq<PedestrianEdge>, distances: Seq<Real>, max_distance: Real, n: int) -> ForestView
    decreases n,
{
    if n <= 0 {
        view
    } else {
        after_found(
            after_edges(view, node, root, edges, distances, max_distance, n - 1),
            edges[n - 1].to as int,
            distances[n - 1],
            root,
            Some(node),
            max_distance,
        )
    }
}

/// What is known of so many nodes before anything is.
pub open spec fn nothing_known(count: int) -> ForestView {
    ForestView {
        distances: Seq::new(count as nat, |i: int| Real { bits: INFINITY_BITS }),
        roots: Seq::new(count as nat, |i: int| NO_PARENT),
        parents: Seq::new(count as nat, |i: int| None),
    }
}

/// What is done next.
#[derive(Clone, Copy, Debug, PartialEq, Eq, Structural)]
pub enum ForestStep {
    /// The search is over.
    Done,
    /// What came up is out of date.
    Stale,
    /// The stretches from a node are followed, at a distance.
    Expand { node: usize, distance: Real },
}

/// A search from all stops at once.
pub struct ForestSearch {
    distances: Vec<Real>,
    roots: Vec<u32>,
    parents: Vec<Option<usize>>,
    heap: CostHeap,
    max_distance: Real,
}

/// Whether the way to a node, its length or the stop it begins at, has changed.
pub open spec fn way_changed(before: ForestView, after: ForestView, node: int) -> bool {
    after.distances[node] != before.distances[node] || after.roots[node] != before.roots[node]
}

/// The entry of a node at a distance.
pub open spec fn entry_of(node: int, distance: Real) -> HeapState {
    HeapState { node_index: node as usize, cost: order_of(distance) }
}

impl ForestSearch {
    /// What is known.
    pub closed spec fn view(&self) -> ForestView {
        ForestView { distances: self.distances@, roots: self.roots@, parents: self.parents@ }
    }

    /// What waits to be followed.
    pub closed spec fn waiting(&self) -> Seq<HeapState> {
        self.heap@
    }

    /// The greatest distance that is followed.
    pub closed spec fn limit(&self) -> Real {
        self.max_distance
    }

    /// Whether the parts fit each other.
    pub closed spec fn wf(&self) -> bool {
        &&& self.heap.wf()
        &&& self.roots@.len() == self.distances@.len()
        &&& self.parents@.len() == self.distances@.len()
        &&& forall|e: HeapState| #[trigger] self.heap@.contains(e) ==> e.node_index < self.distances@.len()
    }

    fn find_way(&mut self, node: usize, distance: Real, root: u32, parent: Option<usize>)
        requires
            old(self).wf(),
            node < old(self)@.distances.len(),
        ensures
            final(self).wf(),
            final(self).limit() == old(self).limit(),
            final(self)@ == after_found(old(self)@, node as int, distance, root, parent, old(self).limit()),
            final(self)@.distances.len() == old(self)@.distances.len(),
            forall|e: HeapState| #[trigger] old(self).waiting().contains(e) ==> final(self).waiting().contains(e),
            forall|e: HeapState| #[trigger] final(self).waiting().contains(e) ==> old(self).waiting().contains(e) || e == entry_of(node as int, distance),
            !numerically_less(old(self).limit(), distance) && is_better(old(self)@, node as int, distance, root) ==> final(self).waiting().contains(entry_of(node as int, distance)),
    {
        if self.max_distance.less_than(distance) {
            return;
        }
        let better: bool = distance.less_than(self.distances[node]) || (distance.equals(self.distances[node]) && root < self.roots[node]);
        if !better {
            return;
        }
        let ghost before = self.heap@;
        self.distances.set(node, distance);
        self.roots.set(node, root);
        self.parents.set(node, parent);
        let entry: HeapState = HeapState { node_index: node, cost: to_order(distance) };
        self.heap.push(entry);
        assert(self.heap@.contains(entry));
    }

    /// Begins a search of a network of so many nodes from stops on its nodes.
    pub fn new(node_count: usize, anchors: &Vec<Option<SnapResult>>, max_distance: Real) -> (search: ForestSearch)
        requires
            anchors@.len() <= NO_PARENT,
            forall|i: int| 0 <= i < anchors@.len() && (#[trigger] anchors@[i]) is Some ==> anchors@[i]->0.node_index < node_count,
        ensures
            search.wf(),
            search.limit() == max_distance,
            search@ == after_seeds(nothing_known(node_count as int), anchors@, max_distance, anchors@.len() as int),
            search@.distances.len() == node_count,
            forall|e: HeapState| #[trigger] search.waiting().contains(e) ==> exists|i: int| 0 <= i < anchors@.len() && (#[trigger] anchors@[i]) is Some && e == entry_of(
                anchors@[i]->0.node_index as int,
                anchors@[i]->0.distance_meters,
            ),
            forall|v: int| 0 <= v < node_count && #[trigger] search@.roots[v] != NO_PARENT ==> search.waiting().contains(entry_of(v, search@.distances[v])),
    {
        let mut distances: Vec<Real> = Vec::new();
        let mut roots: Vec<u32> = Vec::new();
        let mut parents: Vec<Option<usize>> = Vec::new();
        let mut k: usize = 0;
        while k < node_count
            invariant
                k <= node_count,
                distances@ =~= nothing_known(k as int).distances,
                roots@ =~= nothing_known(k as int).roots,
                parents@ =~= nothing_known(k as int).parents,
            decreases node_count - k,
        {
            distances.push(Real { bits: 9218868437227405312 });
            roots.push(NO_PARENT);
            parents.push(None);
            k = k + 1;
        }
        let mut search: ForestSearch = ForestSearch { distances: distances, roots: roots, parents: parents, heap: CostHeap::new(), max_distance: max_distance };
        let ghost start = nothing_known(node_count as int);
        assert(search@ == start);
        let mut i: usize = 0;
        while i < anchors.len()
            invariant
                i <= anchors@.len(),
                anchors@.len() <= NO_PARENT,
                forall|j: int| 0 <= j < anchors@.len() && (#[trigger] anchors@[j]) is Some ==> anchors@[j]->0.node_index < node_count,
                search.wf(),
                search.limit() == max_distance,
                search@.distances.len() == node_count,
                search@ == after_seeds(start, anchors@, max_distance, i as int),
                forall|e: HeapState| #[trigger] search.waiting().contains(e) ==> exists|j: int| 0 <= j < i && (#[trigger] anchors@[j]) is Some && e == entry_of(
                    anchors@[j]->0.node_index as int,
                    anchors@[j]->0.distance_meters,
                ),
                search@.roots.len() == node_count,
                forall|v: int| 0 <= v < node_count && #[trigger] search@.roots[v] != NO_PARENT ==> search.waiting().contains(entry_of(v, search@.distances[v])),
            decreases anchors.len() - i,
        {
            let ghost before = search.waiting();
            let ghost known = search@;
            match anchors[i] {
                Some(anchor) => {
                    assert(anchors@[i as int] is Some);
                    search.find_way(anchor.node_index, anchor.distance_meters, i as u32, None);
                    assert forall|e: HeapState| #[trigger] search.waiting().contains(e) implies exists|j: int| 0 <= j < i + 1 && (#[trigger] anchors@[j]) is Some && e == entry_of(
                        anchors@[j]->0.node_index as int,
                        anchors@[j]->0.distance_meters,
                    ) by {
                        if before.contains(e) {
                            let j = choose|j: int| 0 <= j < i && (#[trigger] anchors@[j]) is Some && e == entry_of(anchors@[j]->0.node_index as int, anchors@[j]->0.distance_meters);
                            assert(anchors@[j] is Some);
                        } else {
                            assert(anchors@[i as int] is Some);
                        }
                    }
                    assert forall|v: int| 0 <= v < node_count && #[trigger] search@.roots[v] != NO_PARENT implies search.waiting().contains(
                        entry_of(v, search@.distances[v]),
                    ) by {
                        if search@.distances[v] == known.distances[v] && search@.roots[v] == known.roots[v] {
                            assert(before.contains(entry_of(v, known.distances[v])));
                        }
                    }
                },
                None => {},
            }
            i = i + 1;
        }
        search
    }

    /// Takes the nearest node that waits. One at a greater distance than is known
    /// by now is out of date, and one beyond the greatest distance ends the
    /// search.
    pub fn next(&mut self) -> (step: ForestStep)
        requires
            old(self).wf(),
        ensures
            final(self).wf(),
            final(self)@ == old(self)@,
            final(self).limit() == old(self).limit(),
            old(self).waiting().len() == 0 ==> step == ForestStep::Done,
            old(self).waiting().len() > 0 ==> final(self).waiting().len() < old(self).waiting().len() && exists|e: HeapState, distance: Real| {
                &&& #[trigger] old(self).waiting().contains(e)
                &&& #[trigger] order_of(distance) == e.cost
                &&& final(self).waiting().to_multiset() == old(self).waiting().to_multiset().remove(e)
                &&& forall|i: int| 0 <= i < old(self).waiting().len() ==> no_later(e, #[trigger] old(self).waiting()[i])
                &&& forall|other: HeapState| #[trigger] old(self).waiting().contains(other) && other != e ==> final(self).waiting().contains(other)
                &&& step == if numerically_less(old(self)@.distances[e.node_index as int], distance) {
                    ForestStep::Stale
                } else if numerically_less(old(self).limit(), distance) {
                    ForestStep::Done
                } else {
                    ForestStep::Expand { node: e.node_index, distance: distance }
                }
            },
            match step {
                ForestStep::Expand { node, .. } => node < old(self)@.distances.len(),
                _ => true,
            },
    {
        if self.heap.is_empty() {
            return ForestStep::Done;
        }
        let entry: HeapState = self.heap.pop();
        let distance: Real = from_order(entry.cost);
        assert(old(self).waiting().contains(entry));
        assert(order_of(distance) == entry.cost);
        if self.distances[entry.node_index].less_than(distance) {
            return ForestStep::Stale;
        }
        if self.max_distance.less_than(distance) {
            return ForestStep::Done;
        }
        ForestStep::Expand { node: entry.node_index, distance: distance }
    }

    /// Follows the stretches from a node, given the distance at which each leads
    /// to its end.
    pub fn expand(&mut self, node: usize, edges: &Vec<PedestrianEdge>, candidates: &Vec<Real>)
        requires
            old(self).wf(),
            node < old(self)@.distances.len(),
            edges@.len() == candidates@.len(),
            forall|i: int| 0 <= i < edges@.len() ==> (#[trigger] edges@[i]).to < old(self)@.distances.len(),
        ensures
            final(self).wf(),
            final(self).limit() == old(self).limit(),
            final(self)@.distances.len() == old(self)@.distances.len(),
            final(self)@ == after_edges(old(self)@, node, old(self)@.roots[node as int], edges@, candidates@, old(self).limit(), edges@.len() as int),
            forall|e: HeapState| #[trigger] old(self).waiting().contains(e) ==> final(self).waiting().contains(e),
            forall|e: HeapState| #[trigger] final(self).waiting().contains(e) ==> old(self).waiting().contains(e) || exists|i: int|
                0 <= i < edges@.len() && e == entry_of((#[trigger] edges@[i]).to as int, candidates@[i]),
            forall|v: int| 0 <= v < final(self)@.distances.len() && #[trigger] way_changed(old(self)@, final(self)@, v) ==> final(self).waiting().contains(
                entry_of(v, final(self)@.distances[v]),
            ),
    {
        let root: u32 = self.roots[node];
        let ghost start = self@;
        let ghost first = self.waiting();
        let mut i: usize = 0;
        while i < edges.len()
            invariant
                i <= edges@.len(),
                edges@.len() == candidates@.len(),
                forall|k: int| 0 <= k < edges@.len() ==> (#[trigger] edges@[k]).to < start.distances.len(),
                self.wf(),
                self.limit() == old(self).limit(),
                self@.distances.len() == start.distances.len(),
                self@ == after_edges(start, node, root, edges@, candidates@, old(self).limit(), i as int),
                forall|e: HeapState| #[trigger] first.contains(e) ==> self.waiting().contains(e),
                forall|e: HeapState| #[trigger] self.waiting().contains(e) ==> first.contains(e) || exists|k: int|
                    0 <= k < i && e == entry_of((#[trigger] edges@[k]).to as int, candidates@[k]),
                forall|v: int| 0 <= v < start.distances.len() && #[trigger] way_changed(start, self@, v) ==> self.waiting().contains(entry_of(v, self@.distances[v])),
            decreases edges.len() - i,
        {
            let ghost before = self.waiting();
            let ghost known = self@;
            assert(edges@[i as int].to < start.distances.len());
            self.find_way(edges[i].to, candidates[i], root, Some(node));
            proof {
                assert forall|e: HeapState| #[trigger] self.waiting().contains(e) implies first.contains(e) || exists|k: int|
                    0 <= k < i + 1 && e == entry_of((#[trigger] edges@[k]).to as int, candidates@[k]) by {
                    if before.contains(e) {
                        if !first.contains(e) {
                            let k = choose|k: int| 0 <= k < i && e == entry_of((#[trigger] edges@[k]).to as int, candidates@[k]);
                            assert(e == entry_of(edges@[k].to as int, candidates@[k]));
                        }
                    } else {
                        assert(e == entry_of(edges@[i as int].to as int, candidates@[i as int]));
                    }
                }
                assert forall|v: int| 0 <= v < start.distances.len() && #[trigger] way_changed(start, self@, v) implies self.waiting().contains(
                    entry_of(v, self@.distances[v]),
                ) by {
                    if !way_changed(known, self@, v) {
                        assert(way_changed(start, known, v));
                        assert(before.contains(entry_of(v, known.distances[v])));
                    }
                }
            }
            i = i + 1;
        }
    }

    /// How far each node is, from which stop, and from which node it was reached.
    pub fn finish(self) -> (reached: (Vec<Real>, Vec<u32>, Vec<Option<usize>>))
        ensures
            reached.0@ == self@.distances,
            reached.1@ == self@.roots,
            reached.2@ == self@.parents,
    {
        (self.distances, self.roots, self.parents)
    }
}

/// Whether a way to a node has been looked at: it is too long, or no better than the
/// one that is known.
pub open spec fn is_followed(view: ForestView, node: int, distance: Real, root: u32, max_distance: Real) -> bool {
    numerically_less(max_distance, distance) || !is_better(view, node, distance, root)
}

/// A way that has been looked at stays so, whatever other way is found.
pub proof fn followed_ways_stay_followed(
    view: ForestView,
    node: int,
    distance: Real,
    root: u32,
    other: int,
    other_distance: Real,
    other_root: u32,
    parent: Option<usize>,
    max_distance: Real,
)
    requires
        is_followed(view, node, distance, root, max_distance),
        0 <= node < view.distances.len() == view.roots.len(),
        0 <= other < view.distances.len(),
        !view.distances[node].is_nan_spec(),
    ensures
        is_followed(after_found(view, other, other_distance, other_root, parent, max_distance), node, distance, root, max_distance),
{
}

/// All stretches from a node that was expanded have been followed: no end of one is
/// known at a greater distance than over it, unless that is too far.
pub proof fn expanded_stretches_are_followed(
    view: ForestView,
    node: usize,
    root: u32,
    edges: Seq<PedestrianEdge>,
    distances: Seq<Real>,
    max_distance: Real,
    n: int,
    i: int,
)
    requires
        0 <= i < n <= edges.len(),
        edges.len() == distances.len(),
        view.distances.len() == view.roots.len() == view.parents.len(),
        forall|k: int| 0 <= k < edges.len() ==> (#[trigger] edges[k]).to < view.distances.len(),
        forall|v: int| 0 <= v < view.distances.len() ==> !(#[trigger] view.distances[v]).is_nan_spec(),
    ensures
        is_followed(after_edges(view, node, root, edges, distances, max_distance, n), edges[i].to as int, distances[i], root, max_distance),
    decreases n,
{
    let before = after_edges(view, node, root, edges, distances, max_distance, n - 1);
    assert(edges[i].to < view.distances.len());
    assert(edges[n - 1].to < view.distances.len());
    following_keeps_shape(view, node, root, edges, distances, max_distance, n - 1);
    following_never_worsens(view, node, root, edges, distances, max_distance, n - 1, edges[i].to as int);
    if i < n - 1 {
        expanded_stretches_are_followed(view, node, root, edges, distances, max_distance, n - 1, i);
        followed_ways_stay_followed(before, edges[i].to as int, distances[i], root, edges[n - 1].to as int, distances[n - 1], root, Some(node), max_distance);
    }
}

proof fn following_keeps_shape(view: ForestView, node: usize, root: u32, edges: Seq<PedestrianEdge>, distances: Seq<Real>, max_distance: Real, n: int)
    requires
        n <= edges.len(),
        view.distances.len() == view.roots.len(),
        forall|k: int| 0 <= k < edges.len() ==> (#[trigger] edges[k]).to < view.distances.len(),
    ensures
        after_edges(view, node, root, edges, distances, max_distance, n).distances.len() == view.distances.len(),
        after_edges(view, node, root, edges, distances, max_distance, n).roots.len() == view.roots.len(),
    decreases n,
{
    if n > 0 {
        following_keeps_shape(view, node, root, edges, distances, max_distance, n - 1);
        assert(edges[n - 1].to < view.distances.len());
    }
}

/// Following stretches never makes a node farther than it was known to be.
pub proof fn following_never_worsens(view: ForestView, node: usize, root: u32, edges: Seq<PedestrianEdge>, distances: Seq<Real>, max_distance: Real, n: int, other: int)
    requires
        0 <= n <= edges.len(),
        0 <= other < view.distances.len(),
        !view.distances[other].is_nan_spec(),
        forall|i: int| 0 <= i < edges.len() ==> (#[trigger] edges[i]).to < view.distances.len(),
    ensures
        after_edges(view, node, root, edges, distances, max_distance, n).distances.len() == view.distances.len(),
        !after_edges(view, node, root, edges, distances, max_distance, n).distances[other].is_nan_spec(),
        after_edges(view, node, root, edges, distances, max_distance, n).distances[other].rank() <= view.distances[other].rank(),
    decreases n,
{
    if n > 0 {
        following_never_worsens(view, node, root, edges, distances, max_distance, n - 1, other);
        assert(edges[n - 1].to < view.distances.len());
    }
}

} // verus!
