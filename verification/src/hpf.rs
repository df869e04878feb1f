//! The forest of walks to stops: which of its nodes are looked at around a place,
//! which way to each stop is the best, and how the forest is laid out.

use crate::keyed_store::{KeyedStore, StoreKey};
use crate::model::{PolylinePoint, StopRecord};
use crate::number::{Real, ShortReal};
use crate::order::{arranged, is_stable_order, stable_order, stable_order_covers, stable_order_of, OrderKey};
use crate::query_input::at_most;
use crate::shape::numerically_less;
use crate::sources::{optional_number_writes, optional_text_writes, text_writes};
use crate::street_graph::{place_bounds, place_of, places_after_push};
use crate::street_overlay::SnapResult;
use crate::text::text_view;
use std::collections::hash_map::DefaultHasher;
use std::collections::HashMap;
use vstd::prelude::*;
use vstd::std_specs::hash::DefaultHasherAdditionalSpecFns;

verus! {

/// The parent of a node that has none.
pub const NO_PARENT: u32 = 4294967295;

/// A node of the forest: its code, the node it leads to on the way to its stop,
/// the stop, and how far that is.
#[derive(Clone, Copy, Debug, PartialEq, Eq, Structural)]
pub struct HpfNode {
    pub morton: u64,
    pub parent_index: u32,
    pub root_stop_index: u32,
    pub cost_meters: ShortReal,
}

/// Whether nodes are in the order of their codes.
pub open spec fn by_code(nodes: Seq<HpfNode>) -> bool {
    forall|i: int, j: int| 0 <= i <= j < nodes.len() ==> (#[trigger] nodes[i]).morton <= (#[trigger] nodes[j]).morton
}

/// Whether a place in the order of codes is that of a code: that of a node with
/// the code, or where one would be put.
pub open spec fn is_place_of_code(nodes: Seq<HpfNode>, code: u64, at: int) -> bool {
    &&& 0 <= at <= nodes.len()
    &&& if exists|i: int| 0 <= i < nodes.len() && (#[trigger] nodes[i]).morton == code {
        at < nodes.len() && nodes[at].morton == code
    } else {
        &&& forall|i: int| 0 <= i < at ==> (#[trigger] nodes[i]).morton < code
        &&& forall|i: int| at <= i < nodes.len() ==> (#[trigger] nodes[i]).morton > code
    }
}

/// Finds the place of a code in the order of codes.
pub fn code_place(nodes: &Vec<HpfNode>, code: u64) -> (at: usize)
    requires
        by_code(nodes@),
    ensures
        is_place_of_code(nodes@, code, at as int),
{
    let mut low: usize = 0;
    let mut high: usize = nodes.len();
    while low < high
        invariant
            low <= high <= nodes@.len(),
            by_code(nodes@),
            forall|i: int| 0 <= i < low ==> (#[trigger] nodes@[i]).morton < code,
            forall|i: int| high <= i < nodes@.len() ==> (#[trigger] nodes@[i]).morton > code,
        decreases high - low,
    {
        let middle: usize = low + (high - low) / 2;
        let found: u64 = nodes[middle].morton;
        if found == code {
            assert(nodes@[middle as int].morton == code);
            return middle;
        }
        if found < code {
            assert forall|i: int| 0 <= i < middle + 1 implies (#[trigger] nodes@[i]).morton < code by {
                assert(nodes@[i].morton <= nodes@[middle as int].morton);
            }
            low = middle + 1;
        } else {
            assert forall|i: int| middle <= i < nodes@.len() implies (#[trigger] nodes@[i]).morton > code by {
                assert(nodes@[middle as int].morton <= nodes@[i].morton);
            }
            high = middle;
        }
    }
    low
}

/// Which nodes are looked at around a place in the order of codes.
pub struct ConnectorScan {
    count: usize,
    center: usize,
    window: usize,
    left: usize,
    right: usize,
}

/// Which nodes are looked at around a place: those from `left` up to `right` have
/// been, and next those within the window will be.
pub struct ScanView {
    pub count: int,
    pub center: int,
    pub window: int,
    pub left: int,
    pub right: int,
}

/// The nodes that are looked at next: from one number up to before another, on
/// both sides.
#[derive(Clone, Copy, Debug, PartialEq, Eq, Structural)]
pub struct ScanStep {
    pub left_from: usize,
    pub left_to: usize,
    pub right_from: usize,
    pub right_to: usize,
}

impl ScanView {
    /// Whether what was looked at is around the place.
    pub open spec fn wf(self) -> bool {
        0 <= self.left <= self.center <= self.right <= self.count && self.window >= 1 && 0 <= self.center <= self.count
    }

    /// Whether all nodes have been looked at.
    pub open spec fn complete(self) -> bool {
        self.left == 0 && self.right == self.count
    }

    /// Which nodes have been looked at when those within the window have been,
    /// and twice as wide a window.
    pub open spec fn widened(self) -> ScanView {
        ScanView {
            left: if self.center >= self.window { self.center - self.window } else { 0 },
            right: if self.center + self.window <= self.count { self.center + self.window } else { self.count },
            window: if self.window * 2 <= self.count { self.window * 2 } else { self.count },
            ..self
        }
    }
}

/// The window that a search begins with: what is usual, no more than there are
/// nodes, but enough for what is wanted.
pub open spec fn first_window(count: int, search_window: int, limit: int) -> int {
    let usual = if search_window <= count { search_window } else { count };
    if usual >= limit * 64 { usual } else { limit * 64 }
}

impl ConnectorScan {
    /// Which nodes are looked at.
    pub closed spec fn view(&self) -> ScanView {
        ScanView { count: self.count as int, center: self.center as int, window: self.window as int, left: self.left as int, right: self.right as int }
    }

    /// Begins to look around a place in the order of codes.
    pub fn new(count: usize, center: usize, search_window: usize, limit: usize) -> (scan: ConnectorScan)
        requires
            center <= count,
            1 <= limit,
            limit * 64 <= usize::MAX,
        ensures
            scan@ == (ScanView { count: count as int, center: center as int, window: first_window(count as int, search_window as int, limit as int), left: center as int, right: center as int }),
            scan@.wf(),
    {
        let usual: usize = if search_window <= count { search_window } else { count };
        let wanted: usize = limit * 64;
        ConnectorScan { count: count, center: center, window: if usual >= wanted { usual } else { wanted }, left: center, right: center }
    }

    /// Widens what is looked at, and tells which nodes come in by it.
    pub fn widen(&mut self) -> (step: ScanStep)
        requires
            old(self)@.wf(),
            old(self)@.count >= 1,
        ensures
            final(self)@ == old(self)@.widened(),
            step.left_from == final(self)@.left,
            step.left_to == old(self)@.left,
            step.right_from == old(self)@.right,
            step.right_to == final(self)@.right,
    {
        let left: usize = if self.center >= self.window { self.center - self.window } else { 0 };
        let right: usize = if self.window <= self.count - self.center { self.center + self.window } else { self.count };
        let step: ScanStep = ScanStep { left_from: left, left_to: self.left, right_from: self.right, right_to: right };
        self.left = left;
        self.right = right;
        self.window = if self.window <= self.count / 2 { self.window * 2 } else { self.count };
        step
    }

    /// Whether the search is over: enough was found, or there is nothing left to
    /// look at.
    pub fn is_done(&self, found: usize, limit: usize) -> (done: bool)
        ensures
            done == (found >= limit || self@.complete()),
    {
        found >= limit || (self.left == 0 && self.right == self.count)
    }
}

/// A search that finds too little looks at all nodes in the end: a window that
/// does not cover them grows, and one that does leaves nothing out.
pub proof fn windows_grow_to_all(scan: ScanView)
    requires
        scan.wf(),
        scan.count >= 1,
    ensures
        scan.window >= scan.count ==> scan.widened().complete(),
        scan.window < scan.count ==> scan.widened().window > scan.window,
        scan.widened().window >= 1,
{
}

/// The best way that was found to a stop: the node at which it begins, how long
/// it is, and whether it begins far from the network.
#[derive(Clone, Copy, Debug, PartialEq, Eq, Structural)]
pub struct ConnectorCandidate {
    pub node_index: usize,
    pub stop_index: usize,
    pub distance_meters: Real,
    pub used_asymptotic_penalty: bool,
}

/// The best ways that were found, by their stops.
pub struct BestConnectors {
    store: KeyedStore<ConnectorCandidate>,
}

/// The key of a stop.
pub open spec fn stop_key(stop: int) -> StoreKey {
    (0i32, stop as u64, 0u64)
}

/// The best ways after one more was found: it takes the place of the one to the
/// same stop if it is shorter.
pub open spec fn after_offer(best: Map<StoreKey, ConnectorCandidate>, candidate: ConnectorCandidate) -> Map<StoreKey, ConnectorCandidate> {
    let key = stop_key(candidate.stop_index as int);
    if best.dom().contains(key) && !numerically_less(candidate.distance_meters, best[key].distance_meters) { best } else { best.insert(key, candidate) }
}

impl BestConnectors {
    /// The best ways by the keys of their stops.
    pub closed spec fn view(&self) -> Map<StoreKey, ConnectorCandidate> {
        self.store@
    }

    /// Whether the ways are under the keys of their stops.
    pub closed spec fn wf(&self) -> bool {
        self.store.wf()
    }

    /// The keys of the stops, in a fixed order.
    pub closed spec fn keys(&self) -> Seq<StoreKey> {
        self.store.slots()
    }

    /// No ways.
    pub fn new() -> (best: BestConnectors)
        ensures
            best.wf(),
            best@ == Map::<StoreKey, ConnectorCandidate>::empty(),
    {
        BestConnectors { store: KeyedStore::new() }
    }

    /// To how many stops ways were found.
    pub fn len(&self) -> (len: usize)
        requires
            self.wf(),
        ensures
            len == self.keys().len(),
            len == self@.dom().len(),
    {
        self.store.len()
    }

    /// Takes note of a way that was found.
    pub fn offer(&mut self, candidate: ConnectorCandidate)
        requires
            old(self).wf(),
        ensures
            final(self).wf(),
            final(self)@ == after_offer(old(self)@, candidate),
    {
        let key: StoreKey = (0, candidate.stop_index as u64, 0);
        let better: bool = match self.store.get(key) {
            Some(current) => candidate.distance_meters.less_than(current.distance_meters),
            None => true,
        };
        if better {
            self.store.insert(key, candidate);
        }
    }

    /// The ways that were found.
    pub fn candidates(&self) -> (list: Vec<ConnectorCandidate>)
        requires
            self.wf(),
        ensures
            list@ == Seq::new(self.keys().len(), |i: int| self@[self.keys()[i]]),
            self.keys().no_duplicates(),
            forall|key: StoreKey| #[trigger] self.keys().contains(key) <==> self@.dom().contains(key),
    {
        proof {
            self.store.slots_match();
        }
        let mut list: Vec<ConnectorCandidate> = Vec::new();
        let count: usize = self.store.len();
        let mut i: usize = 0;
        while i < count
            invariant
                self.wf(),
                count == self.keys().len(),
                i <= count,
                list@ =~= Seq::new(i as nat, |k: int| self@[self.keys()[k]]),
            decreases count - i,
        {
            list.push(*self.store.value_at(i));
            i = i + 1;
        }
        list
    }
}

/// No way to a stop that was found is shorter than the one that is kept, unless
/// one of the two lengths is not a number.
pub proof fn kept_way_is_shortest(best: Map<StoreKey, ConnectorCandidate>, candidate: ConnectorCandidate)
    ensures
        after_offer(best, candidate).dom().contains(stop_key(candidate.stop_index as int)),
        !numerically_less(candidate.distance_meters, after_offer(best, candidate)[stop_key(candidate.stop_index as int)].distance_meters),
        best.dom().contains(stop_key(candidate.stop_index as int)) ==> !numerically_less(
            best[stop_key(candidate.stop_index as int)].distance_meters,
            after_offer(best, candidate)[stop_key(candidate.stop_index as int)].distance_meters,
        ),
{
}

/// A way with the time that it takes.
#[derive(Clone, Copy, Debug, PartialEq, Eq, Structural)]
pub struct TimedConnector {
    pub candidate: ConnectorCandidate,
    pub duration_secs: i32,
}

/// The keys by which ways are ordered: the time, the length, and the stop.
pub open spec fn connector_keys(ways: Seq<TimedConnector>) -> Seq<OrderKey> {
    Seq::new(ways.len(), |i: int| (ways[i].duration_secs as i128, ways[i].candidate.distance_meters.total_rank() as i128, ways[i].candidate.stop_index as i128))
}

/// Picks the best of ways to different stops.
pub fn rank_connectors(ways: &Vec<TimedConnector>, limit: usize) -> (best: Vec<TimedConnector>)
    ensures
        best@ == at_most(arranged(ways@, stable_order_of(connector_keys(ways@))), limit as int),
{
    let mut keys: Vec<OrderKey> = Vec::new();
    let mut i: usize = 0;
    while i < ways.len()
        invariant
            i <= ways@.len(),
            keys@ =~= connector_keys(ways@).take(i as int),
        decreases ways.len() - i,
    {
        keys.push((ways[i].duration_secs as i128, ways[i].candidate.distance_meters.total_order_rank(), ways[i].candidate.stop_index as i128));
        i = i + 1;
    }
    assert(keys@ =~= connector_keys(ways@));
    let order: Vec<usize> = stable_order(&keys);
    let mut best: Vec<TimedConnector> = Vec::new();
    let mut k: usize = 0;
    while k < order.len()
        invariant
            k <= order@.len(),
            is_stable_order(keys@, order@),
            keys@.len() == ways@.len(),
            best@.len() == k,
            forall|j: int| 0 <= j < k ==> #[trigger] best@[j] == ways@[order@[j] as int],
        decreases order.len() - k,
    {
        assert(order@[k as int] < keys@.len());
        best.push(ways[order[k]]);
        k = k + 1;
    }
    assert(best@ =~= arranged(ways@, stable_order_of(connector_keys(ways@))));
    if best.len() > limit {
        best.truncate(limit);
        assert(best@ =~= arranged(ways@, stable_order_of(connector_keys(ways@))).take(limit as int));
    }
    best
}

/// The nodes from one on to the stop, no more than a number of them; nothing where
/// they do not end by then, or lead out of the forest.
pub open spec fn chain_from(nodes: Seq<HpfNode>, cursor: int, fuel: int) -> Option<Seq<usize>>
    decreases fuel,
{
    if fuel <= 0 || cursor >= nodes.len() {
        None
    } else if nodes[cursor].parent_index == NO_PARENT {
        Some(seq![cursor as usize])
    } else {
        match chain_from(nodes, nodes[cursor].parent_index as int, fuel - 1) {
            Some(rest) => Some(seq![cursor as usize] + rest),
            None => None,
        }
    }
}

/// A list that may be missing.
pub open spec fn places_view(list: Option<Vec<usize>>) -> Option<Seq<usize>> {
    match list {
        Some(places) => Some(places@),
        None => None,
    }
}

/// The nodes from one on to the stop that it leads to.
pub fn chain_to_stop(nodes: &Vec<HpfNode>, start: usize) -> (chain: Option<Vec<usize>>)
    ensures
        places_view(chain) == chain_from(nodes@, start as int, nodes@.len() as int),
{
    let mut chain: Vec<usize> = Vec::new();
    let mut cursor: usize = start;
    let mut fuel: usize = nodes.len();
    let ghost whole = chain_from(nodes@, start as int, nodes@.len() as int);
    proof {
        if whole is Some {
            assert(chain@ + whole->0 =~= whole->0);
        }
    }
    while fuel > 0 && cursor < nodes.len()
        invariant
            fuel <= nodes@.len(),
            whole == chain_from(nodes@, start as int, nodes@.len() as int),
            whole is Some <==> chain_from(nodes@, cursor as int, fuel as int) is Some,
            whole is Some ==> whole->0 == chain@ + chain_from(nodes@, cursor as int, fuel as int)->0,
        decreases fuel,
    {
        let ghost before = chain@;
        chain.push(cursor);
        let parent: u32 = nodes[cursor].parent_index;
        if parent == NO_PARENT {
            assert(chain@ =~= before + seq![cursor]);
            return Some(chain);
        }
        proof {
            let rest = chain_from(nodes@, parent as int, fuel - 1);
            if rest is Some {
                assert(chain@ + rest->0 =~= before + (seq![cursor] + rest->0));
            }
        }
        cursor = parent as usize;
        fuel = fuel - 1;
    }
    None
}

/// What is known of a node of the pedestrian network after walks were followed
/// from the stops: its code, how far it is, from which stop, and from which node
/// it was reached.
#[derive(Clone, Copy, Debug, PartialEq, Eq, Structural)]
pub struct ReachedNode {
    pub morton: u64,
    pub distance_meters: Real,
    pub cost_meters: ShortReal,
    pub root_stop_index: u32,
    pub parent: Option<usize>,
}

/// Whether a node is in the forest: a stop leads to it, at a distance that is a
/// number and not beyond the greatest.
pub open spec fn in_forest(node: ReachedNode, max_distance: Real) -> bool {
    node.distance_meters.magnitude() < crate::number::INFINITY_BITS && !numerically_less(max_distance, node.distance_meters) && node.root_stop_index != NO_PARENT
}

/// The nodes of the first `n` that are in the forest.
pub open spec fn forest_nodes(reached: Seq<ReachedNode>, max_distance: Real, n: int) -> Seq<usize>
    decreases n,
{
    if n <= 0 {
        Seq::empty()
    } else {
        let before = forest_nodes(reached, max_distance, n - 1);
        if in_forest(reached[n - 1], max_distance) { before.push((n - 1) as usize) } else { before }
    }
}

/// The keys by which nodes are laid out: their codes, then their numbers.
pub open spec fn code_keys(reached: Seq<ReachedNode>, kept: Seq<usize>) -> Seq<OrderKey> {
    Seq::new(kept.len(), |i: int| (reached[kept[i] as int].morton as i128, kept[i] as i128, 0i128))
}

/// The nodes of the forest as they are laid out.
pub open spec fn laid_out(reached: Seq<ReachedNode>, max_distance: Real) -> Seq<usize> {
    let kept = forest_nodes(reached, max_distance, reached.len() as int);
    arranged(kept, stable_order_of(code_keys(reached, kept)))
}

/// Whether a node of the forest is one of the network in its place: its parent is
/// where that of the other is laid out, if it is.
pub open spec fn is_forest_node(node: HpfNode, reached: Seq<ReachedNode>, layout: Seq<usize>, at: int) -> bool {
    let source = reached[layout[at] as int];
    &&& node.morton == source.morton
    &&& node.root_stop_index == source.root_stop_index
    &&& node.cost_meters == source.cost_meters
    &&& match source.parent {
        Some(parent) => if layout.contains(parent) {
            node.parent_index < layout.len() && layout[node.parent_index as int] == parent
        } else {
            node.parent_index == NO_PARENT
        },
        None => node.parent_index == NO_PARENT,
    }
}

proof fn forest_nodes_facts(reached: Seq<ReachedNode>, max_distance: Real, n: int)
    requires
        0 <= n <= reached.len() <= usize::MAX,
    ensures
        forest_nodes(reached, max_distance, n).len() <= n,
        forall|i: int| 0 <= i < forest_nodes(reached, max_distance, n).len() ==> (#[trigger] forest_nodes(reached, max_distance, n)[i]) < n,
        forest_nodes(reached, max_distance, n).no_duplicates(),
    decreases n,
{
    if n > 0 {
        forest_nodes_facts(reached, max_distance, n - 1);
    }
}

/// Lays out the forest: the nodes that walks from stops reach, in the order of
/// their codes. There are fewer than can be numbered.
pub fn arrange_forest(reached: &Vec<ReachedNode>, max_distance: Real) -> (nodes: Vec<HpfNode>)
    requires
        reached@.len() < NO_PARENT,
    ensures
        nodes@.len() == laid_out(reached@, max_distance).len(),
        forall|i: int| 0 <= i < nodes@.len() ==> is_forest_node(#[trigger] nodes@[i], reached@, laid_out(reached@, max_distance), i),
        by_code(nodes@),
{
    let mut kept: Vec<usize> = Vec::new();
    let mut keys: Vec<OrderKey> = Vec::new();
    let mut i: usize = 0;
    assert(kept@ =~= Seq::<usize>::empty());
    while i < reached.len()
        invariant
            i <= reached@.len(),
            kept@ == forest_nodes(reached@, max_distance, i as int),
            keys@ =~= code_keys(reached@, kept@),
        decreases reached.len() - i,
    {
        let node: ReachedNode = reached[i];
        if node.distance_meters.is_finite() && !max_distance.less_than(node.distance_meters) && node.root_stop_index != NO_PARENT {
            kept.push(i);
            keys.push((node.morton as i128, i as i128, 0));
        }
        i = i + 1;
    }
    let order: Vec<usize> = stable_order(&keys);
    let ghost layout = arranged(kept@, order@);
    proof {
        assert(layout == laid_out(reached@, max_distance));
        forest_nodes_facts(reached@, max_distance, reached.len() as int);
        stable_order_covers(keys@, order@);
        assert forall|a: int, b: int| 0 <= a < layout.len() && 0 <= b < layout.len() && a != b implies layout[a] != layout[b] by {
            assert(order@[a] != order@[b]);
            assert(order@[a] < keys@.len() && order@[b] < keys@.len());
        }
    }
    let mut places: HashMap<usize, u32> = HashMap::new();
    let mut p: usize = 0;
    while p < order.len()
        invariant
            p <= order@.len(),
            order@.len() < NO_PARENT,
            layout == arranged(kept@, order@),
            is_stable_order(keys@, order@),
            keys@.len() == kept@.len(),
            layout.no_duplicates(),
            forall|node: usize| #[trigger] places@.dom().contains(node) ==> places@[node] < p && layout[places@[node] as int] == node,
            forall|k: int| 0 <= k < p ==> places@.dom().contains(#[trigger] layout[k]),
        decreases order.len() - p,
    {
        assert(order@[p as int] < keys@.len());
        let node: usize = kept[order[p]];
        assert(layout[p as int] == node);
        places.insert(node, p as u32);
        p = p + 1;
    }
    let mut nodes: Vec<HpfNode> = Vec::new();
    let mut n: usize = 0;
    while n < order.len()
        invariant
            n <= order@.len(),
            order@.len() < NO_PARENT,
            layout == arranged(kept@, order@),
            is_stable_order(keys@, order@),
            keys@ == code_keys(reached@, kept@),
            layout.len() == order@.len(),
            forall|k: int| 0 <= k < kept@.len() ==> (#[trigger] kept@[k]) < reached@.len(),
            forall|node: usize| #[trigger] places@.dom().contains(node) ==> places@[node] < order@.len() && layout[places@[node] as int] == node,
            forall|k: int| 0 <= k < order@.len() ==> places@.dom().contains(#[trigger] layout[k]),
            nodes@.len() == n,
            forall|k: int| 0 <= k < n ==> is_forest_node(#[trigger] nodes@[k], reached@, layout, k),
        decreases order.len() - n,
    {
        assert(order@[n as int] < keys@.len());
        let at: usize = kept[order[n]];
        assert(layout[n as int] == at);
        let source: ReachedNode = reached[at];
        let parent_index: u32 = match source.parent {
            Some(parent) => match places.get(&parent) {
                Some(place) => {
                    assert(layout.contains(parent));
                    *place
                },
                None => {
                    proof {
                        if layout.contains(parent) {
                            let k = choose|k: int| 0 <= k < layout.len() && layout[k] == parent;
                            assert(places@.dom().contains(layout[k]));
                        }
                    }
                    NO_PARENT
                },
            },
            None => NO_PARENT,
        };
        nodes.push(HpfNode { morton: source.morton, parent_index: parent_index, root_stop_index: source.root_stop_index, cost_meters: source.cost_meters });
        n = n + 1;
    }
    proof {
        assert forall|a: int, b: int| 0 <= a <= b < nodes@.len() implies (#[trigger] nodes@[a]).morton <= (#[trigger] nodes@[b]).morton by {
            assert(is_forest_node(nodes@[a], reached@, layout, a));
            assert(is_forest_node(nodes@[b], reached@, layout, b));
            if a < b {
                assert(crate::order::position_before(keys@, order@[a] as int, order@[b] as int));
                assert(keys@[order@[a] as int].0 == nodes@[a].morton as i128);
                assert(keys@[order@[b] as int].0 == nodes@[b].morton as i128);
            }
        }
    }
    nodes
}

/// The node of the network that a stop is brought to: the nearest of candidates,
/// if it is near enough.
pub open spec fn anchor_of(candidates: Seq<SnapResult>, n: int) -> Option<SnapResult>
    decreases n,
{
    if n <= 0 {
        None
    } else {
        let best = anchor_of(candidates, n - 1);
        let here = candidates[n - 1];
        let limit = match best {
            Some(found) => found.distance_meters,
            None => Real { bits: crate::number::INFINITY_BITS },
        };
        if numerically_less(here.distance_meters, limit) { Some(here) } else { best }
    }
}

/// Picks the node of the network that a stop is brought to.
pub fn snap_stop_to_graph(candidates: &Vec<SnapResult>, max_distance: Real) -> (anchor: Option<SnapResult>)
    ensures
        anchor == match anchor_of(candidates@, candidates@.len() as int) {
            Some(best) => if crate::street_overlay::at_most_as_far(best.distance_meters, max_distance) { Some(best) } else { None },
            None => None,
        },
{
    let mut best: Option<SnapResult> = None;
    let mut i: usize = 0;
    while i < candidates.len()
        invariant
            i <= candidates@.len(),
            best == anchor_of(candidates@, i as int),
        decreases candidates.len() - i,
    {
        let limit: Real = match best {
            Some(found) => found.distance_meters,
            None => Real { bits: 9218868437227405312 },
        };
        if candidates[i].distance_meters.less_than(limit) {
            best = Some(candidates[i]);
        }
        i = i + 1;
    }
    match best {
        Some(found) => if !found.distance_meters.is_nan() && !max_distance.is_nan() && found.distance_meters.numeric_rank() <= max_distance.numeric_rank() {
            Some(found)
        } else {
            None
        },
        None => None,
    }
}

/// A stretch of the pedestrian network.
#[derive(Clone, Copy, Debug, PartialEq, Eq, Structural)]
pub struct PedestrianEdge {
    pub to: usize,
    pub distance_meters: Real,
}

/// A walkable way, with the length of each stretch between two of its nodes that
/// has one.
pub struct WalkableWay {
    pub nodes: Vec<i64>,
    pub lengths: Vec<Option<Real>>,
}

/// The pedestrian network as it is built.
pub struct PedestrianView {
    pub ids: Seq<i64>,
    pub places: Seq<PolylinePoint>,
    pub edges: Seq<Seq<PedestrianEdge>>,
}

/// A network with a node, if it does not have it yet.
pub open spec fn with_walk_node(graph: PedestrianView, id: i64, place: PolylinePoint) -> PedestrianView {
    if place_of(graph.ids, id) < graph.ids.len() {
        graph
    } else {
        PedestrianView { ids: graph.ids.push(id), places: graph.places.push(place), edges: graph.edges.push(Seq::empty()) }
    }
}

/// A network with a stretch in both directions.
pub open spec fn with_walk_edge(graph: PedestrianView, from: int, to: int, length: Real) -> PedestrianView {
    let once = graph.edges.update(from, graph.edges[from].push(PedestrianEdge { to: to as usize, distance_meters: length }));
    PedestrianView { edges: once.update(to, once[to].push(PedestrianEdge { to: from as usize, distance_meters: length })), ..graph }
}

/// A network after the stretch behind the `k`th node of a way.
pub open spec fn after_walk_stretch(graph: PedestrianView, places: Map<i64, PolylinePoint>, way: WalkableWay, k: int) -> PedestrianView {
    let a = way.nodes@[k];
    let b = way.nodes@[k + 1];
    if !places.dom().contains(a) || !places.dom().contains(b) {
        graph
    } else {
        let noded = with_walk_node(with_walk_node(graph, a, places[a]), b, places[b]);
        let from = place_of(noded.ids, a);
        let to = place_of(noded.ids, b);
        if from == to || way.lengths@[k] is None { noded } else { with_walk_edge(noded, from, to, way.lengths@[k]->0) }
    }
}

/// A network after the first `n` stretches of a way.
pub open spec fn after_walk_way(graph: PedestrianView, places: Map<i64, PolylinePoint>, way: WalkableWay, n: int) -> PedestrianView
    decreases n,
{
    if n <= 0 { graph } else { after_walk_stretch(after_walk_way(graph, places, way, n - 1), places, way, n - 1) }
}

/// How many stretches a way has.
pub open spec fn walk_stretches(way: WalkableWay) -> int {
    if way.nodes@.len() > 0 { way.nodes@.len() - 1 } else { 0 }
}

/// The network of the first `n` ways.
pub open spec fn pedestrian_graph(places: Map<i64, PolylinePoint>, ways: Seq<WalkableWay>, n: int) -> PedestrianView
    decreases n,
{
    if n <= 0 {
        PedestrianView { ids: Seq::empty(), places: Seq::empty(), edges: Seq::empty() }
    } else {
        after_walk_way(pedestrian_graph(places, ways, n - 1), places, ways[n - 1], walk_stretches(ways[n - 1]))
    }
}

/// Lists of stretches as sequences.
pub open spec fn walk_edges_view(edges: Seq<Vec<PedestrianEdge>>) -> Seq<Seq<PedestrianEdge>> {
    Seq::new(edges.len(), |i: int| edges[i]@)
}

struct PedestrianDraft {
    ids: Vec<i64>,
    places: Vec<PolylinePoint>,
    lookup: HashMap<i64, usize>,
    edges: Vec<Vec<PedestrianEdge>>,
}

impl PedestrianDraft {
    spec fn view(&self) -> PedestrianView {
        PedestrianView { ids: self.ids@, places: self.places@, edges: walk_edges_view(self.edges@) }
    }

    spec fn wf(&self) -> bool {
        &&& self.edges@.len() == self.ids@.len()
        &&& forall|id: i64| #[trigger] self.lookup@.dom().contains(id) ==> self.lookup@[id] == place_of(self.ids@, id) && self.lookup@[id] < self.ids@.len()
        &&& forall|k: int| 0 <= k < self.ids@.len() ==> self.lookup@.dom().contains(#[trigger] self.ids@[k])
    }

    fn node_index(&mut self, id: i64, place: PolylinePoint) -> (index: usize)
        requires
            old(self).wf(),
        ensures
            final(self).wf(),
            final(self)@ == with_walk_node(old(self)@, id, place),
            index == place_of(final(self)@.ids, id),
            index < final(self)@.ids.len(),
            forall|other: i64| place_of(old(self)@.ids, other) < old(self)@.ids.len() ==> #[trigger] place_of(final(self)@.ids, other) == place_of(old(self)@.ids, other),
    {
        match self.lookup.get(&id) {
            Some(index) => {
                return *index;
            },
            None => {},
        }
        let ghost before = *self;
        proof {
            place_bounds(self.ids@, id);
            if place_of(self.ids@, id) < self.ids@.len() {
                assert(self.lookup@.dom().contains(self.ids@[place_of(self.ids@, id)]));
            }
            places_after_push(self.ids@, id);
        }
        let index: usize = self.ids.len();
        self.ids.push(id);
        self.places.push(place);
        self.edges.push(Vec::new());
        self.lookup.insert(id, index);
        proof {
            assert(self.edges@.last()@ =~= Seq::<PedestrianEdge>::empty());
            assert(self@.edges =~= before@.edges.push(Seq::empty()));
            assert forall|other: i64| #[trigger] self.lookup@.dom().contains(other) implies self.lookup@[other] == place_of(self.ids@, other) && self.lookup@[other] < self.ids@.len() by {
                if other != id {
                    assert(before.lookup@.dom().contains(other));
                    assert(place_of(before.ids@.push(id), other) == place_of(before.ids@, other));
                }
            }
            assert forall|k: int| 0 <= k < self.ids@.len() implies self.lookup@.dom().contains(#[trigger] self.ids@[k]) by {
                if k < index {
                    assert(before.lookup@.dom().contains(before.ids@[k]));
                }
            }
        }
        index
    }

    fn add_stretch(&mut self, places: &HashMap<i64, PolylinePoint>, way: &WalkableWay, k: usize)
        requires
            old(self).wf(),
            k + 1 < way.nodes.len(),
            k < way.lengths@.len(),
        ensures
            final(self).wf(),
            final(self)@ == after_walk_stretch(old(self)@, places@, *way, k as int),
    {
        let a: i64 = way.nodes[k];
        let b: i64 = way.nodes[k + 1];
        let first: PolylinePoint = match places.get(&a) {
            Some(place) => *place,
            None => {
                return;
            },
        };
        let second: PolylinePoint = match places.get(&b) {
            Some(place) => *place,
            None => {
                return;
            },
        };
        let from: usize = self.node_index(a, first);
        let to: usize = self.node_index(b, second);
        assert(from == place_of(self@.ids, a));
        if from == to {
            return;
        }
        match way.lengths[k] {
            None => {},
            Some(length) => {
                let ghost before = self@;
                self.edges[from].push(PedestrianEdge { to: to, distance_meters: length });
                self.edges[to].push(PedestrianEdge { to: from, distance_meters: length });
                assert(self@.edges =~= with_walk_edge(before, from as int, to as int, length).edges);
            },
        }
    }
}

/// Builds the pedestrian network of ways: the places of its nodes and the
/// stretches from each.
pub fn build_pedestrian_graph(places: &HashMap<i64, PolylinePoint>, ways: &Vec<WalkableWay>) -> (graph: (Vec<PolylinePoint>, Vec<Vec<PedestrianEdge>>))
    requires
        forall|i: int| 0 <= i < ways@.len() ==> (#[trigger] ways@[i]).lengths@.len() >= walk_stretches(ways@[i]),
    ensures
        graph.0@ == pedestrian_graph(places@, ways@, ways@.len() as int).places,
        walk_edges_view(graph.1@) == pedestrian_graph(places@, ways@, ways@.len() as int).edges,
{
    let mut draft: PedestrianDraft = PedestrianDraft { ids: Vec::new(), places: Vec::new(), lookup: HashMap::new(), edges: Vec::new() };
    proof {
        let empty = pedestrian_graph(places@, ways@, 0);
        assert(draft@.ids =~= empty.ids);
        assert(draft@.places =~= empty.places);
        assert(draft@.edges =~= empty.edges);
    }
    let mut w: usize = 0;
    while w < ways.len()
        invariant
            w <= ways@.len(),
            forall|i: int| 0 <= i < ways@.len() ==> (#[trigger] ways@[i]).lengths@.len() >= walk_stretches(ways@[i]),
            draft.wf(),
            draft@ == pedestrian_graph(places@, ways@, w as int),
        decreases ways.len() - w,
    {
        let way: &WalkableWay = &ways[w];
        let ghost start = draft@;
        assert(ways@[w as int].lengths@.len() >= walk_stretches(ways@[w as int]));
        let count: usize = if way.nodes.len() > 0 { way.nodes.len() - 1 } else { 0 };
        let mut k: usize = 0;
        while k < count
            invariant
                k <= count,
                count == walk_stretches(*way),
                count <= way.lengths@.len(),
                draft.wf(),
                draft@ == after_walk_way(start, places@, *way, k as int),
            decreases count - k,
        {
            draft.add_stretch(places, way, k);
            k = k + 1;
        }
        w = w + 1;
    }
    (draft.places, draft.edges)
}

/// What is written to a hasher for a stop.
pub open spec fn stop_writes(stop: StopRecord) -> Seq<Seq<u8>> {
    text_writes(stop.id@) + optional_text_writes(text_view(stop.code)) + optional_number_writes(bits_of(stop.latitude)) + optional_number_writes(bits_of(stop.longitude))
}

/// The bits of a number that may be missing.
pub open spec fn bits_of(value: Option<Real>) -> Option<u64> {
    match value {
        Some(number) => Some(number.bits),
        None => None,
    }
}

/// What is written to a hasher for the first `n` stops.
pub open spec fn stops_writes(stops: Seq<StopRecord>, n: int) -> Seq<Seq<u8>>
    decreases n,
{
    if n <= 0 { Seq::empty() } else { stops_writes(stops, n - 1) + stop_writes(stops[n - 1]) }
}

/// The number by which stops are told from others: a hash of their ids, codes and
/// places.
pub fn stop_fingerprint(stops: &Vec<StopRecord>) -> (hash: u64)
    ensures
        hash == DefaultHasher::spec_finish(stops_writes(stops@, stops@.len() as int)),
{
    let mut hasher: crate::sources::RecordHasher = crate::sources::RecordHasher::new();
    let mut i: usize = 0;
    while i < stops.len()
        invariant
            i <= stops@.len(),
            hasher@ == stops_writes(stops@, i as int),
        decreases stops.len() - i,
    {
        let stop: &StopRecord = &stops[i];
        let ghost before = hasher@;
        hasher.write_text(stop.id.as_str());
        hasher.write_optional_text(&stop.code);
        hasher.write_optional_number(
            match stop.latitude {
                Some(number) => Some(number.bits),
                None => None,
            },
        );
        hasher.write_optional_number(
            match stop.longitude {
                Some(number) => Some(number.bits),
                None => None,
            },
        );
        assert(hasher@ =~= before + stop_writes(*stop));
        i = i + 1;
    }
    hasher.finish()
}

} // verus!
