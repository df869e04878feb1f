//! Walking on from the stops that a round has reached.

use crate::leg::{ParentStep, ParentView};
use crate::model::{StaticData, TransferRelaxIndex, TransferTile, WalkTransfer, INF_TIME};
use crate::search::{count_up, counted, improvement_keeps_labels, labels_valid, parent_valid, with_improvement, RoundMetrics, SearchContext, SearchState, SearchView};
use crate::transfer_index::{cell_in_matrix, cell_index, index_correct, shortest_walk_is_shortest, walks_of, HubKey, EMPTY_TRANSFER_SLOT};
use vstd::prelude::*;

verus! {

/// Whether every walk leads to one of the stops and takes a time that can be
/// added to any arrival.
pub open spec fn walks_valid(transfers: Seq<Vec<WalkTransfer>>, stop_count: int) -> bool {
    forall|s: int, slot: int| 0 <= s < transfers.len() && 0 <= slot < transfers[s]@.len() ==> {
        &&& (#[trigger] transfers[s]@[slot]).to_stop < stop_count
        &&& 0 <= transfers[s]@[slot].duration_secs <= i32::MAX - INF_TIME
    }
}

/// Whether the cells of a tile are walks of the stops of a group.
pub open spec fn tile_valid(tile: TransferTile, stops: Seq<usize>, transfers: Seq<Vec<WalkTransfer>>, stop_count: int) -> bool {
    let targets = tile.target_stop_indices@;
    &&& tile.durations@.len() == stops.len() * targets.len()
    &&& tile.transfer_slots@.len() == stops.len() * targets.len()
    &&& forall|j: int| 0 <= j < targets.len() ==> (#[trigger] targets[j]) < stop_count
    &&& forall|i: int, j: int| 0 <= i < stops.len() && 0 <= j < targets.len() ==> {
        let slot = tile.transfer_slots@[#[trigger] cell_index(i, j, targets.len() as int)];
        slot != EMPTY_TRANSFER_SLOT ==> {
            &&& stops[i] < transfers.len()
            &&& slot < transfers[stops[i] as int]@.len()
            &&& transfers[stops[i] as int]@[slot as int].to_stop == targets[j]
            &&& transfers[stops[i] as int]@[slot as int].duration_secs == tile.durations@[cell_index(i, j, targets.len() as int)]
        }
    }
}

/// Whether the index holds walks of the timetable.
pub open spec fn walk_index_valid(index: TransferRelaxIndex, transfers: Seq<Vec<WalkTransfer>>, stop_count: int) -> bool {
    &&& index.stop_to_hub@.len() == index.stop_to_hub_offset@.len()
    &&& index.stop_to_hub@.len() <= stop_count
    &&& forall|s: int| 0 <= s < index.stop_to_hub@.len() ==> {
        let hub = #[trigger] index.stop_to_hub@[s];
        &&& hub < index.hubs@.len()
        &&& index.stop_to_hub_offset@[s] < index.hubs@[hub as int].stop_indices@.len()
        &&& index.hubs@[hub as int].stop_indices@[index.stop_to_hub_offset@[s] as int] == s
    }
    &&& forall|h: int, k: int| 0 <= h < index.hubs@.len() && 0 <= k < index.hubs@[h].outgoing_tiles@.len() ==> tile_valid(
        #[trigger] index.hubs@[h].outgoing_tiles@[k],
        index.hubs@[h].stop_indices@,
        transfers,
        stop_count,
    )
}

/// An index that was built from the walks of the timetable holds those walks.
pub proof fn built_index_is_valid(index: TransferRelaxIndex, keys: Seq<HubKey>, transfers: Seq<Vec<WalkTransfer>>)
    requires
        index_correct(index, keys, transfers),
        walks_valid(transfers, keys.len() as int),
    ensures
        walk_index_valid(index, transfers, keys.len() as int),
{
    assert forall|h: int, k: int| 0 <= h < index.hubs@.len() && 0 <= k < index.hubs@[h].outgoing_tiles@.len() implies tile_valid(
        #[trigger] index.hubs@[h].outgoing_tiles@[k],
        index.hubs@[h].stop_indices@,
        transfers,
        keys.len() as int,
    ) by {
        let hub = index.hubs@[h];
        let tile = hub.outgoing_tiles@[k];
        let stops = hub.stop_indices@;
        let targets = tile.target_stop_indices@;
        assert(crate::transfer_index::hub_correct(hub, index.stop_to_hub@, transfers));
        assert(crate::transfer_index::tile_correct(tile, stops, index.stop_to_hub@, transfers));
        assert forall|j: int| 0 <= j < targets.len() implies (#[trigger] targets[j]) < keys.len() by {
            assert(targets.contains(targets[j]));
        }
        assert forall|i: int, j: int| 0 <= i < stops.len() && 0 <= j < targets.len() implies ({
            let slot = tile.transfer_slots@[#[trigger] cell_index(i, j, targets.len() as int)];
            slot != EMPTY_TRANSFER_SLOT ==> {
                &&& stops[i] < transfers.len()
                &&& slot < transfers[stops[i] as int]@.len()
                &&& transfers[stops[i] as int]@[slot as int].to_stop == targets[j]
                &&& transfers[stops[i] as int]@[slot as int].duration_secs == tile.durations@[cell_index(i, j, targets.len() as int)]
            }
        }) by {
            let walks = walks_of(transfers, stops[i] as int);
            shortest_walk_is_shortest(walks, targets[j], walks.len() as int);
        }
    }
}

/// A stop to walk on from: the stop, its row in the matrices of its group, and
/// the arrival there.
pub type WalkSource = (usize, usize, i32);

/// Whether a round can walk on from a stop: it was reached before the
/// destination.
pub open spec fn worth_walking(arrivals: Seq<i32>, bound: i32, stop: usize) -> bool {
    arrivals[stop as int] < INF_TIME && arrivals[stop as int] < bound
}

/// The stops to walk on from among the first `n` of a frontier.
pub open spec fn walk_sources(index: TransferRelaxIndex, arrivals: Seq<i32>, bound: i32, frontier: Seq<usize>, n: int) -> Seq<WalkSource>
    decreases n,
{
    if n <= 0 {
        Seq::empty()
    } else {
        let before = walk_sources(index, arrivals, bound, frontier, n - 1);
        let stop = frontier[n - 1];
        if stop < index.stop_to_hub@.len() && worth_walking(arrivals, bound, stop) {
            before.push((stop, index.stop_to_hub_offset@[stop as int], arrivals[stop as int]))
        } else {
            before
        }
    }
}

/// How many of the first `n` stops of a frontier are not worth walking on from.
pub open spec fn pruned_sources(index: TransferRelaxIndex, arrivals: Seq<i32>, bound: i32, frontier: Seq<usize>, n: int) -> int
    decreases n,
{
    if n <= 0 {
        0
    } else {
        let stop = frontier[n - 1];
        pruned_sources(index, arrivals, bound, frontier, n - 1) + (if stop < index.stop_to_hub@.len() && !worth_walking(arrivals, bound, stop) { 1int } else { 0int })
    }
}

/// The groups of the first `n` sources, in order of first appearance.
pub open spec fn source_hubs(index: TransferRelaxIndex, sources: Seq<WalkSource>, n: int) -> Seq<usize>
    decreases n,
{
    if n <= 0 {
        Seq::empty()
    } else {
        let before = source_hubs(index, sources, n - 1);
        let hub = index.stop_to_hub@[sources[n - 1].0 as int];
        if before.contains(hub) { before } else { before.push(hub) }
    }
}

/// Those of the first `n` sources that belong to a group.
pub open spec fn sources_of_hub(index: TransferRelaxIndex, sources: Seq<WalkSource>, hub: usize, n: int) -> Seq<WalkSource>
    decreases n,
{
    if n <= 0 {
        Seq::empty()
    } else {
        let before = sources_of_hub(index, sources, hub, n - 1);
        if index.stop_to_hub@[sources[n - 1].0 as int] == hub { before.push(sources[n - 1]) } else { before }
    }
}

/// The best arrival at a target, the walk that gives it, and how many walks were
/// looked at.
pub struct BestWalk {
    pub arrival: int,
    pub edge: Option<(usize, usize)>,
    pub looked: int,
}

/// The best arrival at a column of a tile from the first `n` sources, if better
/// than `known`.
pub open spec fn best_walk(tile: TransferTile, sources: Seq<WalkSource>, column: int, known: int, n: int) -> BestWalk
    decreases n,
{
    if n <= 0 {
        BestWalk { arrival: known, edge: None, looked: 0 }
    } else {
        let before = best_walk(tile, sources, column, known, n - 1);
        let source = sources[n - 1];
        let cell = cell_index(source.1 as int, column, tile.target_stop_indices@.len() as int);
        let slot = tile.transfer_slots@[cell];
        if slot == EMPTY_TRANSFER_SLOT {
            before
        } else {
            let candidate = source.2 + tile.durations@[cell];
            if candidate < before.arrival {
                BestWalk { arrival: candidate, edge: Some((source.0, slot as usize)), looked: before.looked + 1 }
            } else {
                BestWalk { looked: before.looked + 1, ..before }
            }
        }
    }
}

/// The labels after the walks from a group to one target.
pub open spec fn after_target(view: SearchView, transfers: Seq<Vec<WalkTransfer>>, round: int, tile: TransferTile, sources: Seq<WalkSource>, column: int) -> SearchView {
    let target = tile.target_stop_indices@[column];
    let best = best_walk(tile, sources, column, view.best[target as int] as int, sources.len() as int);
    let m = view.metrics;
    let looked = RoundMetrics { transfer_relaxations: counted(m.transfer_relaxations, best.looked), ..m };
    match best.edge {
        None => SearchView { metrics: looked, ..view },
        Some(edge) => {
            let walk = transfers[edge.0 as int]@[edge.1 as int];
            let improved = with_improvement(
                SearchView { metrics: looked, ..view },
                round,
                walk.to_stop as int,
                best.arrival as i32,
                ParentView::Walk { from_stop: edge.0, duration_secs: walk.duration_secs, distance_meters: walk.distance_meters },
            );
            if best.arrival < view.best[walk.to_stop as int] {
                SearchView {
                    metrics: RoundMetrics { transfer_improvements: counted(looked.transfer_improvements, 1), ..looked },
                    ..improved
                }
            } else {
                improved
            }
        },
    }
}

/// The labels after the walks from a group to the first `n` targets of a tile.
pub open spec fn after_tile(view: SearchView, transfers: Seq<Vec<WalkTransfer>>, round: int, tile: TransferTile, sources: Seq<WalkSource>, n: int) -> SearchView
    decreases n,
{
    if n <= 0 {
        view
    } else {
        after_target(after_tile(view, transfers, round, tile, sources, n - 1), transfers, round, tile, sources, n - 1)
    }
}

/// The labels after the first `n` tiles of a group.
pub open spec fn after_tiles(view: SearchView, transfers: Seq<Vec<WalkTransfer>>, round: int, tiles: Seq<TransferTile>, sources: Seq<WalkSource>, n: int) -> SearchView
    decreases n,
{
    if n <= 0 {
        view
    } else {
        let tile = tiles[n - 1];
        after_tile(after_tiles(view, transfers, round, tiles, sources, n - 1), transfers, round, tile, sources, tile.target_stop_indices@.len() as int)
    }
}

/// The labels after the first `n` of the groups.
pub open spec fn after_hubs(view: SearchView, data: StaticData, round: int, sources: Seq<WalkSource>, hubs: Seq<usize>, n: int) -> SearchView
    decreases n,
{
    if n <= 0 {
        view
    } else {
        let hub = hubs[n - 1];
        let tiles = data.transfer_index.hubs@[hub as int].outgoing_tiles@;
        after_tiles(
            after_hubs(view, data, round, sources, hubs, n - 1),
            data.transfers@,
            round,
            tiles,
            sources_of_hub(data.transfer_index, sources, hub, sources.len() as int),
            tiles.len() as int,
        )
    }
}

/// The labels after walking on from a frontier.
pub open spec fn after_walks(view: SearchView, data: StaticData, round: int, destination: int, frontier: Seq<usize>) -> SearchView {
    let index = data.transfer_index;
    if frontier.len() == 0 || index.hubs@.len() == 0 {
        view
    } else {
        let bound = view.best[destination];
        let sources = walk_sources(index, view.arrivals[round], bound, frontier, frontier.len() as int);
        let m = view.metrics;
        let pruned = pruned_sources(index, view.arrivals[round], bound, frontier, frontier.len() as int);
        let begun = SearchView { metrics: RoundMetrics { destination_bound_prunes: counted(m.destination_bound_prunes, pruned), ..m }, ..view };
        let hubs = source_hubs(index, sources, sources.len() as int);
        after_hubs(begun, data, round, sources, hubs, hubs.len() as int)
    }
}

/// Whether sources are stops of a group with their rows, reached in time.
pub open spec fn sources_valid(index: TransferRelaxIndex, sources: Seq<WalkSource>) -> bool {
    forall|i: int| 0 <= i < sources.len() ==> {
        let source = #[trigger] sources[i];
        &&& source.0 < index.stop_to_hub@.len()
        &&& source.1 == index.stop_to_hub_offset@[source.0 as int]
        &&& source.2 < INF_TIME
    }
}

/// The sources of a group are sources.
pub proof fn sources_of_hub_valid(index: TransferRelaxIndex, sources: Seq<WalkSource>, hub: usize, n: int)
    requires
        sources_valid(index, sources),
        0 <= n <= sources.len(),
    ensures
        sources_valid(index, sources_of_hub(index, sources, hub, n)),
        forall|i: int| 0 <= i < sources_of_hub(index, sources, hub, n).len() ==> index.stop_to_hub@[(#[trigger] sources_of_hub(index, sources, hub, n)[i]).0 as int] == hub,
    decreases n,
{
    if n > 0 {
        sources_of_hub_valid(index, sources, hub, n - 1);
        let before = sources_of_hub(index, sources, hub, n - 1);
        let after = sources_of_hub(index, sources, hub, n);
        assert forall|i: int| 0 <= i < after.len() implies ({
            let source = #[trigger] after[i];
            &&& source.0 < index.stop_to_hub@.len()
            &&& source.1 == index.stop_to_hub_offset@[source.0 as int]
            &&& source.2 < INF_TIME
            &&& index.stop_to_hub@[source.0 as int] == hub
        }) by {
            if i < before.len() {
                assert(after[i] == before[i]);
            } else {
                assert(sources[n - 1].0 < index.stop_to_hub@.len());
            }
        }
    }
}

fn select_of_hub(index: &TransferRelaxIndex, sources: &Vec<WalkSource>, hub: usize) -> (selected: Vec<WalkSource>)
    requires
        sources_valid(*index, sources@),
    ensures
        selected@ == sources_of_hub(*index, sources@, hub, sources@.len() as int),
{
    let mut selected: Vec<WalkSource> = Vec::new();
    let mut i: usize = 0;
    while i < sources.len()
        invariant
            i <= sources.len(),
            sources_valid(*index, sources@),
            selected@ == sources_of_hub(*index, sources@, hub, i as int),
        decreases sources.len() - i,
    {
        assert(sources@[i as int].0 < index.stop_to_hub@.len());
        if index.stop_to_hub[sources[i].0] == hub {
            selected.push(sources[i]);
        }
        i = i + 1;
    }
    selected
}

fn list_hubs(index: &TransferRelaxIndex, sources: &Vec<WalkSource>) -> (hubs: Vec<usize>)
    requires
        sources_valid(*index, sources@),
    ensures
        hubs@ == source_hubs(*index, sources@, sources@.len() as int),
        forall|i: int| 0 <= i < hubs@.len() ==> exists|k: int| 0 <= k < sources@.len() && index.stop_to_hub@[(#[trigger] sources@[k]).0 as int] == #[trigger] hubs@[i],
{
    let mut hubs: Vec<usize> = Vec::new();
    let mut i: usize = 0;
    while i < sources.len()
        invariant
            i <= sources.len(),
            sources_valid(*index, sources@),
            hubs@ == source_hubs(*index, sources@, i as int),
            forall|a: int| 0 <= a < hubs@.len() ==> exists|k: int| 0 <= k < sources@.len() && index.stop_to_hub@[(#[trigger] sources@[k]).0 as int] == #[trigger] hubs@[a],
        decreases sources.len() - i,
    {
        assert(sources@[i as int].0 < index.stop_to_hub@.len());
        let hub: usize = index.stop_to_hub[sources[i].0];
        let mut k: usize = 0;
        while k < hubs.len() && hubs[k] != hub
            invariant
                k <= hubs.len(),
                forall|a: int| 0 <= a < k ==> hubs@[a] != hub,
            decreases hubs.len() - k,
        {
            k = k + 1;
        }
        if k < hubs.len() {
            assert(hubs@.contains(hub));
        } else {
            assert(!hubs@.contains(hub));
            let ghost before = hubs@;
            hubs.push(hub);
            assert forall|a: int| 0 <= a < hubs@.len() implies exists|k: int| 0 <= k < sources@.len() && index.stop_to_hub@[(#[trigger] sources@[k]).0 as int] == #[trigger] hubs@[a] by {
                if a < before.len() {
                    assert(before[a] == hubs@[a]);
                } else {
                    assert(index.stop_to_hub@[sources@[i as int].0 as int] == hubs@[a]);
                }
            }
        }
        i = i + 1;
    }
    hubs
}

/// Whether the labels and the index fit the timetable.
pub open spec fn relax_ready(view: SearchView, data: StaticData, round: int) -> bool {
    &&& view.wf(view.best.len() as int, view.arrivals.len() as int)
    &&& data.stops@.len() <= view.best.len()
    &&& round < view.arrivals.len()
    &&& walks_valid(data.transfers@, data.stops@.len() as int)
    &&& walk_index_valid(data.transfer_index, data.transfers@, data.stops@.len() as int)
}

/// What the best walk is: one of the timetable, and better than what was known.
pub proof fn best_walk_facts(data: StaticData, hub: usize, tile: TransferTile, sources: Seq<WalkSource>, column: int, known: int, n: int)
    requires
        hub < data.transfer_index.hubs@.len(),
        walk_index_valid(data.transfer_index, data.transfers@, data.stops@.len() as int),
        tile_valid(tile, data.transfer_index.hubs@[hub as int].stop_indices@, data.transfers@, data.stops@.len() as int),
        sources_valid(data.transfer_index, sources),
        forall|i: int| 0 <= i < sources.len() ==> data.transfer_index.stop_to_hub@[(#[trigger] sources[i]).0 as int] == hub,
        0 <= column < tile.target_stop_indices@.len(),
        0 <= n <= sources.len(),
    ensures
        ({
            let best = best_walk(tile, sources, column, known, n);
            &&& 0 <= best.looked <= n
            &&& best.edge is None ==> best.arrival == known
            &&& best.edge is Some ==> {
                &&& best.arrival < known
                &&& (best.edge->0).0 < data.transfers@.len()
                &&& (best.edge->0).0 < data.stops@.len()
                &&& (best.edge->0).1 < data.transfers@[(best.edge->0).0 as int]@.len()
                &&& data.transfers@[(best.edge->0).0 as int]@[(best.edge->0).1 as int].to_stop == tile.target_stop_indices@[column]
            }
        }),
    decreases n,
{
    if n > 0 {
        best_walk_facts(data, hub, tile, sources, column, known, n - 1);
        let source = sources[n - 1];
        let index = data.transfer_index;
        assert(index.stop_to_hub@[source.0 as int] == hub);
        assert(index.stop_to_hub_offset@[source.0 as int] == source.1);
        cell_in_matrix(source.1 as int, column, tile.target_stop_indices@.len() as int, index.hubs@[hub as int].stop_indices@.len() as int);
        assert(index.hubs@[hub as int].stop_indices@[source.1 as int] == source.0);
    }
}

fn relax_target(data: &StaticData, hub: usize, tile: &TransferTile, sources: &Vec<WalkSource>, column: usize, round: usize, state: &mut SearchState)
    requires
        relax_ready(old(state)@, *data, round as int),
        hub < data.transfer_index.hubs@.len(),
        tile_valid(*tile, data.transfer_index.hubs@[hub as int].stop_indices@, data.transfers@, data.stops@.len() as int),
        sources_valid(data.transfer_index, sources@),
        forall|i: int| 0 <= i < sources@.len() ==> data.transfer_index.stop_to_hub@[(#[trigger] sources@[i]).0 as int] == hub,
        column < tile.target_stop_indices@.len(),
        labels_valid(old(state)@, *data),
    ensures
        labels_valid(final(state)@, *data),
        final(state)@.origin == old(state)@.origin,
        final(state)@ == after_target(old(state)@, data.transfers@, round as int, *tile, sources@, column as int),
        final(state)@.wf(old(state)@.best.len() as int, old(state)@.arrivals.len() as int),
{
    let width: usize = tile.target_stop_indices.len();
    let target: usize = tile.target_stop_indices[column];
    assert(tile.target_stop_indices@[column as int] < data.stops@.len());
    let ghost start = state@;
    let ghost known = state@.best[target as int] as int;
    let mut best_candidate: i32 = state.best[target];
    let mut best_edge: Option<(usize, usize)> = None;
    let mut i: usize = 0;
    while i < sources.len()
        invariant
            i <= sources.len(),
            start == old(state)@,
            relax_ready(start, *data, round as int),
            state@ == (SearchView {
                metrics: RoundMetrics {
                    transfer_relaxations: counted(start.metrics.transfer_relaxations, best_walk(*tile, sources@, column as int, known, i as int).looked),
                    ..start.metrics
                },
                ..start
            }),
            hub < data.transfer_index.hubs@.len(),
            tile_valid(*tile, data.transfer_index.hubs@[hub as int].stop_indices@, data.transfers@, data.stops@.len() as int),
            sources_valid(data.transfer_index, sources@),
            forall|k: int| 0 <= k < sources@.len() ==> data.transfer_index.stop_to_hub@[(#[trigger] sources@[k]).0 as int] == hub,
            column < width,
            width == tile.target_stop_indices@.len(),
            ({
                let best = best_walk(*tile, sources@, column as int, known, i as int);
                &&& best.arrival == best_candidate
                &&& best.edge == best_edge
                &&& 0 <= best.looked <= i
            }),
        decreases sources.len() - i,
    {
        let source: WalkSource = sources[i];
        let ghost index = data.transfer_index;
        proof {
            best_walk_facts(*data, hub, *tile, sources@, column as int, known, i as int);
            assert(index.stop_to_hub@[source.0 as int] == hub);
            cell_in_matrix(source.1 as int, column as int, width as int, index.hubs@[hub as int].stop_indices@.len() as int);
            assert(index.hubs@[hub as int].stop_indices@[source.1 as int] == source.0);
            assert(source.1 * width + column < tile.durations.len());
            assert(0 <= source.1 * width) by (nonlinear_arith)
                requires
                    0 <= source.1,
                    0 <= width,
            ;
        }
        let cell: usize = source.1 * width + column;
        assert(cell == cell_index(source.1 as int, column as int, width as int));
        let slot: u16 = tile.transfer_slots[cell];
        if slot != EMPTY_TRANSFER_SLOT {
            state.metrics.transfer_relaxations = count_up(state.metrics.transfer_relaxations, 1);
            assert(data.transfers@[source.0 as int]@[slot as int].duration_secs == tile.durations@[cell as int]);
            let candidate: i32 = source.2 + tile.durations[cell];
            if candidate < best_candidate {
                best_candidate = candidate;
                best_edge = Some((source.0, slot as usize));
            }
        }
        i = i + 1;
    }
    proof {
        best_walk_facts(*data, hub, *tile, sources@, column as int, known, sources@.len() as int);
    }
    let ghost looked = state@;
    assert(looked.wf(start.best.len() as int, start.arrivals.len() as int)) by {
        assert(start.wf(start.best.len() as int, start.arrivals.len() as int));
    }
    match best_edge {
        Some((source_stop, transfer_slot)) => {
            let walk: &WalkTransfer = &data.transfers[source_stop][transfer_slot];
            proof {
                assert(labels_valid(looked, *data));
                assert(source_stop < start.best.len());
                reveal(parent_valid);
                improvement_keeps_labels(
                    looked,
                    *data,
                    round as int,
                    walk.to_stop as int,
                    best_candidate,
                    ParentView::Walk { from_stop: source_stop, duration_secs: walk.duration_secs, distance_meters: walk.distance_meters },
                );
            }
            let improved: bool = state.record_stop_improvement(
                round,
                walk.to_stop,
                best_candidate,
                ParentStep::Walk { from_stop: source_stop, duration_secs: walk.duration_secs, distance_meters: walk.distance_meters },
            );
            if improved {
                let ghost recorded = state@;
                state.metrics.transfer_improvements = count_up(state.metrics.transfer_improvements, 1);
                assert(state@ == (SearchView { metrics: state@.metrics, ..recorded }));
            }
        },
        None => {},
    }
}

fn relax_hub(data: &StaticData, hub: usize, sources: &Vec<WalkSource>, round: usize, state: &mut SearchState)
    requires
        relax_ready(old(state)@, *data, round as int),
        hub < data.transfer_index.hubs@.len(),
        sources_valid(data.transfer_index, sources@),
        forall|i: int| 0 <= i < sources@.len() ==> data.transfer_index.stop_to_hub@[(#[trigger] sources@[i]).0 as int] == hub,
        labels_valid(old(state)@, *data),
    ensures
        labels_valid(final(state)@, *data),
        final(state)@.origin == old(state)@.origin,
        final(state)@ == after_tiles(
            old(state)@,
            data.transfers@,
            round as int,
            data.transfer_index.hubs@[hub as int].outgoing_tiles@,
            sources@,
            data.transfer_index.hubs@[hub as int].outgoing_tiles@.len() as int,
        ),
        final(state)@.wf(old(state)@.best.len() as int, old(state)@.arrivals.len() as int),
        final(state)@.best.len() == old(state)@.best.len(),
        final(state)@.arrivals.len() == old(state)@.arrivals.len(),
{
    let tiles: &Vec<TransferTile> = &data.transfer_index.hubs[hub].outgoing_tiles;
    let ghost start = state@;
    let ghost stops = start.best.len() as int;
    let ghost rounds = start.arrivals.len() as int;
    let mut k: usize = 0;
    while k < tiles.len()
        invariant
            k <= tiles.len(),
            start == old(state)@,
            stops == start.best.len(),
            rounds == start.arrivals.len(),
            relax_ready(start, *data, round as int),
            labels_valid(state@, *data),
            state@.origin == old(state)@.origin,
            state@.wf(stops, rounds),
            *tiles == data.transfer_index.hubs@[hub as int].outgoing_tiles,
            hub < data.transfer_index.hubs@.len(),
            sources_valid(data.transfer_index, sources@),
            forall|i: int| 0 <= i < sources@.len() ==> data.transfer_index.stop_to_hub@[(#[trigger] sources@[i]).0 as int] == hub,
            state@ == after_tiles(start, data.transfers@, round as int, tiles@, sources@, k as int),
        decreases tiles.len() - k,
    {
        let tile: &TransferTile = &tiles[k];
        assert(tile_valid(data.transfer_index.hubs@[hub as int].outgoing_tiles@[k as int], data.transfer_index.hubs@[hub as int].stop_indices@, data.transfers@, data.stops@.len() as int));
        let ghost before = state@;
        let mut column: usize = 0;
        while column < tile.target_stop_indices.len()
            invariant
                column <= tile.target_stop_indices.len(),
                relax_ready(start, *data, round as int),
                stops == start.best.len(),
                rounds == start.arrivals.len(),
                labels_valid(state@, *data),
                state@.origin == old(state)@.origin,
                state@.wf(stops, rounds),
                tile_valid(*tile, data.transfer_index.hubs@[hub as int].stop_indices@, data.transfers@, data.stops@.len() as int),
                hub < data.transfer_index.hubs@.len(),
                sources_valid(data.transfer_index, sources@),
                forall|i: int| 0 <= i < sources@.len() ==> data.transfer_index.stop_to_hub@[(#[trigger] sources@[i]).0 as int] == hub,
                state@ == after_tile(before, data.transfers@, round as int, *tile, sources@, column as int),
            decreases tile.target_stop_indices.len() - column,
        {
            relax_target(data, hub, tile, sources, column, round, state);
            column = column + 1;
        }
        k = k + 1;
    }
}

impl<'a> SearchContext<'a> {
    /// Walks on from the stops of a frontier, group by group.
    pub fn relax_transfers_tiled(&self, destination_stop: usize, frontier: &Vec<usize>, round: usize, state: &mut SearchState)
        requires
            relax_ready(old(state)@, *self.data, round as int),
            destination_stop < old(state)@.best.len(),
            forall|i: int| 0 <= i < frontier@.len() ==> (#[trigger] frontier@[i]) < old(state)@.best.len(),
            labels_valid(old(state)@, *self.data),
        ensures
            labels_valid(final(state)@, *self.data),
            final(state)@.origin == old(state)@.origin,
            final(state)@ == after_walks(old(state)@, *self.data, round as int, destination_stop as int, frontier@),
            final(state)@.wf(old(state)@.best.len() as int, old(state)@.arrivals.len() as int),
    {
        let index: &TransferRelaxIndex = &self.data.transfer_index;
        if frontier.len() == 0 || index.hubs.len() == 0 {
            return;
        }
        let ghost start = state@;
        let ghost stops = start.best.len() as int;
        let ghost rounds = start.arrivals.len() as int;
        let ghost arrivals = start.arrivals[round as int];
        let bound: i32 = state.best[destination_stop];
        assert(start.arrivals[round as int].len() == stops);
        let mut sources: Vec<WalkSource> = Vec::new();
        let mut i: usize = 0;
        while i < frontier.len()
            invariant
                i <= frontier.len(),
                start == old(state)@,
                relax_ready(start, *self.data, round as int),
                arrivals == start.arrivals[round as int],
                arrivals.len() == start.best.len(),
                *index == self.data.transfer_index,
                forall|k: int| 0 <= k < frontier@.len() ==> (#[trigger] frontier@[k]) < start.best.len(),
                sources_valid(*index, sources@),
                sources@ == walk_sources(*index, arrivals, bound, frontier@, i as int),
                0 <= pruned_sources(*index, arrivals, bound, frontier@, i as int),
                state@ == (SearchView {
                    metrics: RoundMetrics {
                        destination_bound_prunes: counted(start.metrics.destination_bound_prunes, pruned_sources(*index, arrivals, bound, frontier@, i as int)),
                        ..start.metrics
                    },
                    ..start
                }),
            decreases frontier.len() - i,
        {
            let stop: usize = frontier[i];
            assert(frontier@[i as int] < start.best.len());
            if stop < index.stop_to_hub.len() {
                assert(state@.arrivals[round as int] == arrivals);
                let arrival: i32 = state.arrivals[round][stop];
                if arrival >= INF_TIME || arrival >= bound {
                    state.metrics.destination_bound_prunes = count_up(state.metrics.destination_bound_prunes, 1);
                } else {
                    let ghost before = sources@;
                    sources.push((stop, index.stop_to_hub_offset[stop], arrival));
                    assert forall|k: int| 0 <= k < sources@.len() implies ({
                        let source = #[trigger] sources@[k];
                        &&& source.0 < index.stop_to_hub@.len()
                        &&& source.1 == index.stop_to_hub_offset@[source.0 as int]
                        &&& source.2 < INF_TIME
                    }) by {
                        if k < before.len() {
                            assert(sources@[k] == before[k]);
                        }
                    }
                }
            }
            i = i + 1;
        }
        let hubs: Vec<usize> = list_hubs(index, &sources);
        let ghost begun = state@;
        assert(begun.wf(stops, rounds)) by {
            assert(start.wf(stops, rounds));
        }
        assert(labels_valid(begun, *self.data)) by {
            assert(labels_valid(start, *self.data));
        }
        let mut h: usize = 0;
        while h < hubs.len()
            invariant
                h <= hubs.len(),
                *index == self.data.transfer_index,
                relax_ready(begun, *self.data, round as int),
                stops == begun.best.len(),
                rounds == begun.arrivals.len(),
                labels_valid(state@, *self.data),
                state@.origin == old(state)@.origin,
                state@.wf(stops, rounds),
                state@.best.len() == stops,
                state@.arrivals.len() == rounds,
                sources_valid(*index, sources@),
                hubs@ == source_hubs(*index, sources@, sources@.len() as int),
                forall|a: int| 0 <= a < hubs@.len() ==> exists|k: int| 0 <= k < sources@.len() && index.stop_to_hub@[(#[trigger] sources@[k]).0 as int] == #[trigger] hubs@[a],
                state@ == after_hubs(begun, *self.data, round as int, sources@, hubs@, h as int),
            decreases hubs.len() - h,
        {
            let hub: usize = hubs[h];
            proof {
                let k = choose|k: int| 0 <= k < sources@.len() && index.stop_to_hub@[(#[trigger] sources@[k]).0 as int] == hubs@[h as int];
                assert(sources@[k].0 < index.stop_to_hub@.len());
                assert(index.stop_to_hub@[sources@[k].0 as int] < index.hubs@.len());
                sources_of_hub_valid(*index, sources@, hub, sources@.len() as int);
            }
            let selected: Vec<WalkSource> = select_of_hub(index, &sources, hub);
            relax_hub(self.data, hub, &selected, round, state);
            h = h + 1;
        }
    }
}

} // verus!
