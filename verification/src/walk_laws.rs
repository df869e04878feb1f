//! What walking on from a frontier finds: no walk arrives earlier.

use crate::model::{StaticData, TransferTile, WalkTransfer, INF_TIME};
use crate::relax::{
    after_hubs, after_target, after_tile, after_tiles, after_walks, best_walk, best_walk_facts, pruned_sources, source_hubs, sources_of_hub,
    sources_of_hub_valid, sources_valid, tile_valid, walk_index_valid, walk_sources, walks_valid, worth_walking, WalkSource,
};
use crate::search::{counted, RoundMetrics, SearchView};
use crate::search_laws::no_worse;
use crate::transfer_index::{
    cell_in_matrix, cell_index, has_walk, hub_correct, hub_reaches, index_correct, shortest_walk, shortest_walk_is_shortest, tile_correct, walks_of, HubKey,
    EMPTY_TRANSFER_SLOT,
};
use vstd::prelude::*;

verus! {

/// Whether labels, walks and their index fit each other.
pub open spec fn walks_ready(view: SearchView, data: StaticData) -> bool {
    &&& data.stops@.len() <= view.best.len()
    &&& walks_valid(data.transfers@, data.stops@.len() as int)
    &&& walk_index_valid(data.transfer_index, data.transfers@, data.stops@.len() as int)
}

/// Whether sources are those of a group.
pub open spec fn sources_in_hub(data: StaticData, hub: usize, sources: Seq<WalkSource>) -> bool {
    &&& sources_valid(data.transfer_index, sources)
    &&& forall|i: int| 0 <= i < sources.len() ==> data.transfer_index.stop_to_hub@[(#[trigger] sources[i]).0 as int] == hub
    &&& hub < data.transfer_index.hubs@.len()
}

proof fn best_walk_is_best(data: StaticData, hub: usize, tile: TransferTile, sources: Seq<WalkSource>, column: int, known: int, n: int)
    requires
        walks_valid(data.transfers@, data.stops@.len() as int),
        walk_index_valid(data.transfer_index, data.transfers@, data.stops@.len() as int),
        sources_in_hub(data, hub, sources),
        tile_valid(tile, data.transfer_index.hubs@[hub as int].stop_indices@, data.transfers@, data.stops@.len() as int),
        0 <= column < tile.target_stop_indices@.len(),
        0 <= n <= sources.len(),
        i32::MIN <= known,
    ensures
        ({
            let best = best_walk(tile, sources, column, known, n);
            &&& i32::MIN <= best.arrival <= known
            &&& forall|i: int| 0 <= i < n ==> {
                let cell = cell_index((#[trigger] sources[i]).1 as int, column, tile.target_stop_indices@.len() as int);
                tile.transfer_slots@[cell] != EMPTY_TRANSFER_SLOT ==> best.arrival <= sources[i].2 + tile.durations@[cell]
            }
        }),
    decreases n,
{
    if n > 0 {
        best_walk_is_best(data, hub, tile, sources, column, known, n - 1);
        let source = sources[n - 1];
        let index = data.transfer_index;
        assert(index.stop_to_hub@[source.0 as int] == hub);
        assert(index.stop_to_hub_offset@[source.0 as int] == source.1);
        cell_in_matrix(source.1 as int, column, tile.target_stop_indices@.len() as int, index.hubs@[hub as int].stop_indices@.len() as int);
        assert(index.hubs@[hub as int].stop_indices@[source.1 as int] == source.0);
        let cell = cell_index(source.1 as int, column, tile.target_stop_indices@.len() as int);
        if tile.transfer_slots@[cell] != EMPTY_TRANSFER_SLOT {
            let slot = tile.transfer_slots@[cell] as int;
            assert(data.transfers@[source.0 as int]@[slot].duration_secs >= 0);
        }
    }
}

proof fn target_is_reached(view: SearchView, data: StaticData, hub: usize, tile: TransferTile, sources: Seq<WalkSource>, column: int, round: int)
    requires
        walks_ready(view, data),
        sources_in_hub(data, hub, sources),
        tile_valid(tile, data.transfer_index.hubs@[hub as int].stop_indices@, data.transfers@, data.stops@.len() as int),
        0 <= column < tile.target_stop_indices@.len(),
    ensures
        ({
            let after = after_target(view, data.transfers@, round, tile, sources, column);
            let target = tile.target_stop_indices@[column];
            &&& no_worse(view, after)
            &&& forall|i: int| 0 <= i < sources.len() ==> {
                let cell = cell_index((#[trigger] sources[i]).1 as int, column, tile.target_stop_indices@.len() as int);
                tile.transfer_slots@[cell] != EMPTY_TRANSFER_SLOT ==> after.best[target as int] <= sources[i].2 + tile.durations@[cell]
            }
        }),
{
    let target = tile.target_stop_indices@[column];
    let known = view.best[target as int] as int;
    best_walk_facts(data, hub, tile, sources, column, known, sources.len() as int);
    best_walk_is_best(data, hub, tile, sources, column, known, sources.len() as int);
    let best = best_walk(tile, sources, column, known, sources.len() as int);
    let after = after_target(view, data.transfers@, round, tile, sources, column);
    assert(after.best[target as int] <= best.arrival);
}

/// Whether a stop is reached no later than on foot from a source, by a column of a tile.
pub open spec fn column_reached(view: SearchView, tile: TransferTile, source: WalkSource, column: int) -> bool {
    let cell = cell_index(source.1 as int, column, tile.target_stop_indices@.len() as int);
    tile.transfer_slots@[cell] != EMPTY_TRANSFER_SLOT ==> view.best[tile.target_stop_indices@[column] as int] <= source.2 + tile.durations@[cell]
}

proof fn tile_is_reached(view: SearchView, data: StaticData, hub: usize, tile: TransferTile, sources: Seq<WalkSource>, round: int, n: int, i: int, column: int)
    requires
        walks_ready(view, data),
        sources_in_hub(data, hub, sources),
        tile_valid(tile, data.transfer_index.hubs@[hub as int].stop_indices@, data.transfers@, data.stops@.len() as int),
        0 <= n <= tile.target_stop_indices@.len(),
        0 <= i < sources.len(),
        0 <= column < tile.target_stop_indices@.len(),
    ensures
        no_worse(view, after_tile(view, data.transfers@, round, tile, sources, n)),
        column < n ==> column_reached(after_tile(view, data.transfers@, round, tile, sources, n), tile, sources[i], column),
    decreases n,
{
    if n > 0 {
        tile_is_reached(view, data, hub, tile, sources, round, n - 1, i, column);
        let before = after_tile(view, data.transfers@, round, tile, sources, n - 1);
        target_is_reached(before, data, hub, tile, sources, n - 1, round);
        assert(tile.target_stop_indices@[column] < data.stops@.len());
    }
}

proof fn tiles_are_reached(view: SearchView, data: StaticData, hub: usize, sources: Seq<WalkSource>, round: int, n: int, i: int, k: int, column: int)
    requires
        walks_ready(view, data),
        sources_in_hub(data, hub, sources),
        0 <= n <= data.transfer_index.hubs@[hub as int].outgoing_tiles@.len(),
        0 <= i < sources.len(),
        0 <= k < data.transfer_index.hubs@[hub as int].outgoing_tiles@.len(),
        0 <= column < data.transfer_index.hubs@[hub as int].outgoing_tiles@[k].target_stop_indices@.len(),
    ensures
        ({
            let tiles = data.transfer_index.hubs@[hub as int].outgoing_tiles@;
            let after = after_tiles(view, data.transfers@, round, tiles, sources, n);
            &&& no_worse(view, after)
            &&& k < n ==> column_reached(after, tiles[k], sources[i], column)
        }),
    decreases n,
{
    let tiles = data.transfer_index.hubs@[hub as int].outgoing_tiles@;
    assert(tile_valid(data.transfer_index.hubs@[hub as int].outgoing_tiles@[k], data.transfer_index.hubs@[hub as int].stop_indices@, data.transfers@, data.stops@.len() as int));
    assert(tiles[k].target_stop_indices@[column] < data.stops@.len());
    if n > 0 {
        tiles_are_reached(view, data, hub, sources, round, n - 1, i, k, column);
        let before = after_tiles(view, data.transfers@, round, tiles, sources, n - 1);
        let tile = tiles[n - 1];
        assert(tile_valid(data.transfer_index.hubs@[hub as int].outgoing_tiles@[n - 1], data.transfer_index.hubs@[hub as int].stop_indices@, data.transfers@, data.stops@.len() as int));
        let width = tile.target_stop_indices@.len() as int;
        if k == n - 1 {
            tile_is_reached(before, data, hub, tile, sources, round, width, i, column);
        } else {
            tile_never_worsens(before, data, hub, tile, sources, round, width);
        }
    }
}

proof fn hubs_are_reached(view: SearchView, data: StaticData, sources: Seq<WalkSource>, hubs: Seq<usize>, round: int, n: int, h: int, i: int, k: int, column: int)
    requires
        walks_ready(view, data),
        sources_valid(data.transfer_index, sources),
        0 <= n <= hubs.len(),
        forall|a: int| 0 <= a < hubs.len() ==> (#[trigger] hubs[a]) < data.transfer_index.hubs@.len(),
        0 <= h < hubs.len(),
        0 <= i < sources_of_hub(data.transfer_index, sources, hubs[h], sources.len() as int).len(),
        0 <= k < data.transfer_index.hubs@[hubs[h] as int].outgoing_tiles@.len(),
        0 <= column < data.transfer_index.hubs@[hubs[h] as int].outgoing_tiles@[k].target_stop_indices@.len(),
    ensures
        ({
            let after = after_hubs(view, data, round, sources, hubs, n);
            let tile = data.transfer_index.hubs@[hubs[h] as int].outgoing_tiles@[k];
            &&& no_worse(view, after)
            &&& h < n ==> column_reached(after, tile, sources_of_hub(data.transfer_index, sources, hubs[h], sources.len() as int)[i], column)
        }),
    decreases n,
{
    let tile = data.transfer_index.hubs@[hubs[h] as int].outgoing_tiles@[k];
    assert(tile_valid(data.transfer_index.hubs@[hubs[h] as int].outgoing_tiles@[k], data.transfer_index.hubs@[hubs[h] as int].stop_indices@, data.transfers@, data.stops@.len() as int));
    assert(tile.target_stop_indices@[column] < data.stops@.len());
    if n > 0 {
        hubs_are_reached(view, data, sources, hubs, round, n - 1, h, i, k, column);
        let before = after_hubs(view, data, round, sources, hubs, n - 1);
        let hub = hubs[n - 1];
        let own = sources_of_hub(data.transfer_index, sources, hub, sources.len() as int);
        sources_of_hub_valid(data.transfer_index, sources, hub, sources.len() as int);
        let tiles = data.transfer_index.hubs@[hub as int].outgoing_tiles@;
        if h == n - 1 {
            tiles_are_reached(before, data, hub, own, round, tiles.len() as int, i, k, column);
        } else {
            tiles_never_worsen(before, data, hub, own, round, tiles.len() as int);
        }
    }
}

proof fn tiles_never_worsen(view: SearchView, data: StaticData, hub: usize, sources: Seq<WalkSource>, round: int, n: int)
    requires
        walks_ready(view, data),
        sources_in_hub(data, hub, sources),
        0 <= n <= data.transfer_index.hubs@[hub as int].outgoing_tiles@.len(),
    ensures
        no_worse(view, after_tiles(view, data.transfers@, round, data.transfer_index.hubs@[hub as int].outgoing_tiles@, sources, n)),
    decreases n,
{
    if n > 0 {
        let tiles = data.transfer_index.hubs@[hub as int].outgoing_tiles@;
        tiles_never_worsen(view, data, hub, sources, round, n - 1);
        let before = after_tiles(view, data.transfers@, round, tiles, sources, n - 1);
        assert(tile_valid(data.transfer_index.hubs@[hub as int].outgoing_tiles@[n - 1], data.transfer_index.hubs@[hub as int].stop_indices@, data.transfers@, data.stops@.len() as int));
        tile_never_worsens(before, data, hub, tiles[n - 1], sources, round, tiles[n - 1].target_stop_indices@.len() as int);
    }
}

proof fn tile_never_worsens(view: SearchView, data: StaticData, hub: usize, tile: TransferTile, sources: Seq<WalkSource>, round: int, n: int)
    requires
        walks_ready(view, data),
        sources_in_hub(data, hub, sources),
        tile_valid(tile, data.transfer_index.hubs@[hub as int].stop_indices@, data.transfers@, data.stops@.len() as int),
        0 <= n <= tile.target_stop_indices@.len(),
    ensures
        no_worse(view, after_tile(view, data.transfers@, round, tile, sources, n)),
    decreases n,
{
    if n > 0 {
        tile_never_worsens(view, data, hub, tile, sources, round, n - 1);
        let before = after_tile(view, data.transfers@, round, tile, sources, n - 1);
        target_is_reached(before, data, hub, tile, sources, n - 1, round);
    }
}

/// The stops to walk on from are sources, and each that is worth it is among them.
pub proof fn sources_hold(data: StaticData, arrivals: Seq<i32>, bound: i32, frontier: Seq<usize>, n: int, f: int)
    requires
        0 <= n <= frontier.len(),
    ensures
        ({
            let index = data.transfer_index;
            let sources = walk_sources(index, arrivals, bound, frontier, n);
            &&& sources_valid(index, sources)
            &&& 0 <= f < n && frontier[f] < index.stop_to_hub@.len() && worth_walking(arrivals, bound, frontier[f]) ==> sources.contains(
                (frontier[f], index.stop_to_hub_offset@[frontier[f] as int], arrivals[frontier[f] as int]),
            )
        }),
    decreases n,
{
    if n > 0 {
        let index = data.transfer_index;
        sources_hold(data, arrivals, bound, frontier, n - 1, f);
        let before = walk_sources(index, arrivals, bound, frontier, n - 1);
        let after = walk_sources(index, arrivals, bound, frontier, n);
        assert forall|i: int| 0 <= i < after.len() implies ({
            let source = #[trigger] after[i];
            &&& source.0 < index.stop_to_hub@.len()
            &&& source.1 == index.stop_to_hub_offset@[source.0 as int]
            &&& source.2 < INF_TIME
        }) by {
            if i < before.len() {
                assert(after[i] == before[i]);
            }
        }
        if 0 <= f < n && frontier[f] < index.stop_to_hub@.len() && worth_walking(arrivals, bound, frontier[f]) {
            let source = (frontier[f], index.stop_to_hub_offset@[frontier[f] as int], arrivals[frontier[f] as int]);
            if f == n - 1 {
                assert(after.last() == source);
            } else {
                let at = before.index_of(source);
                assert(after[at] == source);
            }
        }
    }
}

/// The groups of sources exist, and each source has its group among them.
pub proof fn hubs_hold(data: StaticData, sources: Seq<WalkSource>, n: int, i: int)
    requires
        walk_index_valid(data.transfer_index, data.transfers@, data.stops@.len() as int),
        sources_valid(data.transfer_index, sources),
        0 <= n <= sources.len(),
    ensures
        ({
            let hubs = source_hubs(data.transfer_index, sources, n);
            &&& forall|a: int| 0 <= a < hubs.len() ==> (#[trigger] hubs[a]) < data.transfer_index.hubs@.len()
            &&& 0 <= i < n ==> hubs.contains(data.transfer_index.stop_to_hub@[sources[i].0 as int])
        }),
    decreases n,
{
    if n > 0 {
        hubs_hold(data, sources, n - 1, i);
        let before = source_hubs(data.transfer_index, sources, n - 1);
        let after = source_hubs(data.transfer_index, sources, n);
        let hub = data.transfer_index.stop_to_hub@[sources[n - 1].0 as int];
        assert(sources[n - 1].0 < data.transfer_index.stop_to_hub@.len());
        assert(hub < data.transfer_index.hubs@.len());
        assert forall|a: int| 0 <= a < after.len() implies (#[trigger] after[a]) < data.transfer_index.hubs@.len() by {
            if a < before.len() {
                assert(after[a] == before[a]);
            }
        }
        if i == n - 1 {
            if !before.contains(hub) {
                assert(after.last() == hub);
            }
        } else if 0 <= i < n {
            let wanted = data.transfer_index.stop_to_hub@[sources[i].0 as int];
            let at = before.index_of(wanted);
            assert(after[at] == wanted);
        }
    }
}

proof fn hub_sources_hold(data: StaticData, sources: Seq<WalkSource>, hub: usize, n: int, i: int)
    requires
        0 <= n <= sources.len(),
    ensures
        0 <= i < n && data.transfer_index.stop_to_hub@[sources[i].0 as int] == hub ==> sources_of_hub(data.transfer_index, sources, hub, n).contains(sources[i]),
    decreases n,
{
    if n > 0 {
        hub_sources_hold(data, sources, hub, n - 1, i);
        let before = sources_of_hub(data.transfer_index, sources, hub, n - 1);
        let after = sources_of_hub(data.transfer_index, sources, hub, n);
        if 0 <= i < n && data.transfer_index.stop_to_hub@[sources[i].0 as int] == hub {
            if i == n - 1 {
                assert(after.last() == sources[i]);
            } else {
                let at = before.index_of(sources[i]);
                assert(after[at] == sources[i]);
            }
        }
    }
}

/// Walking on misses no walk: from a stop of the frontier that was reached before the
/// destination, every stop that a walk of the timetable leads to is reached no later
/// than on that walk. (The index has room for so many walks of a stop as there are
/// numbers of 16 bits but the greatest; walks that take as long as never are not in it.)
pub proof fn rounds_miss_no_walk(view: SearchView, data: StaticData, keys: Seq<HubKey>, round: int, destination: int, frontier: Seq<usize>, f: int, slot: int)
    requires
        walks_ready(view, data),
        index_correct(data.transfer_index, keys, data.transfers@),
        data.transfer_index.stop_to_hub@.len() == data.stops@.len(),
        0 <= f < frontier.len(),
        frontier[f] < data.stops@.len() == data.transfers@.len(),
        worth_walking(view.arrivals[round], view.best[destination], frontier[f]),
        0 <= slot < data.transfers@[frontier[f] as int]@.len(),
        data.transfers@[frontier[f] as int]@.len() <= EMPTY_TRANSFER_SLOT,
        data.transfers@[frontier[f] as int]@[slot].duration_secs < INF_TIME,
    ensures
        ({
            let walk = data.transfers@[frontier[f] as int]@[slot];
            after_walks(view, data, round, destination, frontier).best[walk.to_stop as int] <= view.arrivals[round][frontier[f] as int] + walk.duration_secs
        }),
{
    let index = data.transfer_index;
    let stop = frontier[f];
    let walks = data.transfers@[stop as int]@;
    let walk = walks[slot];
    let bound = view.best[destination];
    let arrivals = view.arrivals[round];
    let n = frontier.len() as int;
    let sources = walk_sources(index, arrivals, bound, frontier, n);
    sources_hold(data, arrivals, bound, frontier, n, f);
    let source: WalkSource = (stop, index.stop_to_hub_offset@[stop as int], arrivals[stop as int]);
    let i = sources.index_of(source);
    let hubs = source_hubs(index, sources, sources.len() as int);
    hubs_hold(data, sources, sources.len() as int, i);
    let hub = index.stop_to_hub@[stop as int];
    let h = hubs.index_of(hub);
    hub_sources_hold(data, sources, hub, sources.len() as int, i);
    let own = sources_of_hub(index, sources, hub, sources.len() as int);
    let at = own.index_of(source);
    let stops = index.hubs@[hub as int].stop_indices@;
    let row = source.1 as int;
    assert(stops[row] == stop);
    assert(data.transfers@[stop as int]@[slot].to_stop < data.stops@.len());
    assert(walks_of(data.transfers@, stops[row] as int)[slot].to_stop == walk.to_stop);
    assert(has_walk(walks_of(data.transfers@, stops[row] as int), walk.to_stop));
    assert(hub_reaches(stops, data.transfers@, walk.to_stop));
    assert(hub_correct(index.hubs@[hub as int], index.stop_to_hub@, data.transfers@));
    let k = choose|k: int|
        0 <= k < index.hubs@[hub as int].outgoing_tiles@.len() && (#[trigger] index.hubs@[hub as int].outgoing_tiles@[k]).target_hub == index.stop_to_hub@[walk.to_stop as int];
    let tile = index.hubs@[hub as int].outgoing_tiles@[k];
    assert(tile_correct(tile, stops, index.stop_to_hub@, data.transfers@));
    let targets = tile.target_stop_indices@;
    assert(targets.contains(walk.to_stop));
    let column = targets.index_of(walk.to_stop);
    let cell = cell_index(row, column, targets.len() as int);
    shortest_walk_is_shortest(walks, walk.to_stop, walks.len() as int);
    let best = shortest_walk(walks, walk.to_stop, walks.len() as int);
    assert(tile.durations@[cell] == best.0 && tile.transfer_slots@[cell] == best.1);
    assert(best.0 <= walks[slot].duration_secs || best.0 == INF_TIME);
    let m = view.metrics;
    let pruned = pruned_sources(index, arrivals, bound, frontier, n);
    let begun = SearchView { metrics: RoundMetrics { destination_bound_prunes: counted(m.destination_bound_prunes, pruned), ..m }, ..view };
    hubs_are_reached(begun, data, sources, hubs, round, hubs.len() as int, h, at, k, column);
    let after = after_hubs(begun, data, round, sources, hubs, hubs.len() as int);
    assert(column_reached(after, tile, source, column));
    slot_is_kept(walks, walk.to_stop, walks.len() as int, slot);
}

proof fn slot_is_kept(walks: Seq<WalkTransfer>, target: usize, n: int, slot: int)
    requires
        0 <= n <= walks.len(),
        0 <= slot < n,
        slot < EMPTY_TRANSFER_SLOT,
        walks[slot].to_stop == target,
        walks[slot].duration_secs < INF_TIME,
    ensures
        shortest_walk(walks, target, n).0 <= walks[slot].duration_secs,
    decreases n,
{
    if slot < n - 1 {
        slot_is_kept(walks, target, n - 1, slot);
    }
}

} // verus!
