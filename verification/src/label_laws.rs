//! How the labels of a search change in a round: only for the better, and every stop that
//! is reached earlier is marked.

use crate::leg::ParentView;
use crate::model::{LineRecord, StaticData, TransferTile, INF_TIME};
use crate::relax::{
    after_hubs, after_target, after_tile, after_tiles, after_walks, best_walk, best_walk_facts, pruned_sources, source_hubs, sources_of_hub,
    sources_of_hub_valid, sources_valid, tile_valid, walk_index_valid, walk_sources, walks_valid, worth_walking, WalkSource,
};
use crate::search::{
    after_call, after_line_from, after_onboard, after_ride, can_ride_on, counted, line_valid, with_improvement, LineScan, RoundMetrics, SearchContext,
    SearchView, SVRT_WIDTH,
};
use crate::search_laws::no_worse;
use crate::subquery::{after_lines, after_rides, queue_of, queued_count, round_begun, search_ready, NOT_QUEUED};
use crate::timing::{best_walk_in_time, queue_of_length};
use crate::walk_laws::{hubs_hold, sources_hold, sources_in_hub};
use vstd::prelude::*;

verus! {

/// Whether a round has the label of the best arrival at a stop.
pub open spec fn noted_in(view: SearchView, stop: int, round: int) -> bool {
    0 <= round < view.arrivals.len() && view.arrivals[round][stop] == view.best[stop] && view.parents[round][stop] is Some
}

/// Whether the best arrival at the destination is the label of a round, and no label is
/// earlier.
pub open spec fn arrival_noted(view: SearchView, destination: int) -> bool {
    &&& view.best[destination] < INF_TIME ==> exists|r: int| #[trigger] noted_in(view, destination, r)
    &&& forall|r: int| 0 <= r < view.arrivals.len() ==> (#[trigger] view.arrivals[r])[destination] >= view.best[destination]
}

/// Whether the labels are for so many stops and rounds.
pub open spec fn labels_shaped(view: SearchView, stops: int, rounds: int) -> bool {
    &&& stops <= usize::MAX
    &&& view.best.len() == stops
    &&& view.flags.len() == stops
    &&& view.arrivals.len() == rounds
    &&& view.parents.len() == rounds
    &&& forall|r: int| 0 <= r < rounds ==> (#[trigger] view.arrivals[r]).len() == stops
    &&& forall|r: int| 0 <= r < rounds ==> (#[trigger] view.parents[r]).len() == stops
}

/// Whether every stop that the round has marked is listed, and its best arrival is the
/// label of the round.
pub open spec fn marks_kept(view: SearchView, destination: int, round: int) -> bool {
    &&& forall|s: int| 0 <= s < view.flags.len() && (#[trigger] view.flags[s]) ==> view.improved.contains(s as usize)
    &&& forall|s: int| 0 <= s < view.flags.len() && (#[trigger] view.flags[s]) && s != destination ==> view.arrivals[round][s] == view.best[s]
    &&& forall|i: int| 0 <= i < view.improved.len() ==> (#[trigger] view.improved[i]) < view.flags.len() && view.flags[view.improved[i] as int]
}

/// Whether the labels of a round are in order.
#[verifier::opaque]
pub open spec fn labels_tidy(view: SearchView, destination: int, round: int, stops: int, rounds: int) -> bool {
    &&& labels_shaped(view, stops, rounds)
    &&& 0 <= destination < stops
    &&& 0 <= round < rounds
    &&& arrival_noted(view, destination)
    &&& marks_kept(view, destination, round)
}

/// Whether labels have changed only for the better, and every stop that is reached earlier
/// is marked.
pub open spec fn only_better(before: SearchView, after: SearchView) -> bool {
    &&& no_worse(before, after)
    &&& after.flags.len() == before.flags.len()
    &&& forall|s: int| 0 <= s < before.flags.len() && (#[trigger] before.flags[s]) ==> after.flags[s]
    &&& forall|s: int| 0 <= s < before.best.len() && (#[trigger] after.best[s]) != before.best[s] ==> after.flags[s]
    &&& before.improved.len() <= after.improved.len()
    &&& forall|i: int| 0 <= i < before.improved.len() ==> #[trigger] after.improved[i] == before.improved[i]
}

/// Changes for the better add up.
pub proof fn better_and_better(a: SearchView, b: SearchView, c: SearchView)
    requires
        only_better(a, b),
        only_better(b, c),
        a.flags.len() == a.best.len(),
    ensures
        only_better(a, c),
{
    assert forall|s: int| 0 <= s < a.best.len() && (#[trigger] c.best[s]) != a.best[s] implies c.flags[s] by {
        if b.best[s] != a.best[s] {
            assert(b.flags[s]);
        }
    }
    assert forall|s: int| 0 <= s < a.best.len() implies (#[trigger] c.best[s]) <= a.best[s] by {
        assert(b.best[s] <= a.best[s]);
    }
    assert forall|s: int| 0 <= s < a.flags.len() && (#[trigger] a.flags[s]) implies c.flags[s] by {
        assert(b.flags[s]);
    }
    assert forall|i: int| 0 <= i < a.improved.len() implies #[trigger] c.improved[i] == a.improved[i] by {
        assert(b.improved[i] == a.improved[i]);
    }
}

proof fn work_leaves_labels(view: SearchView, other: SearchView, destination: int, round: int, stops: int, rounds: int)
    requires
        labels_tidy(view, destination, round, stops, rounds),
        other == (SearchView { metrics: other.metrics, ..view }),
    ensures
        labels_tidy(other, destination, round, stops, rounds),
        only_better(view, other),
        view.flags.len() == view.best.len(),
{
    reveal(labels_tidy);
    if view.best[destination] < INF_TIME {
        let r = choose|r: int| #[trigger] noted_in(view, destination, r);
        assert(noted_in(other, destination, r));
    }
}

/// A better arrival leaves the labels in order.
pub proof fn improvement_is_tidy(view: SearchView, round: int, stop: int, arrival: i32, parent: ParentView, destination: int, stops: int, rounds: int)
    requires
        labels_tidy(view, destination, round, stops, rounds),
        0 <= stop < stops,
    ensures
        labels_tidy(with_improvement(view, round, stop, arrival, parent), destination, round, stops, rounds),
        only_better(view, with_improvement(view, round, stop, arrival, parent)),
        view.flags.len() == view.best.len() == stops,
{
    reveal(labels_tidy);
    let after = with_improvement(view, round, stop, arrival, parent);
    if arrival < view.best[stop] {
        assert(view.arrivals[round].len() == stops);
        assert(view.parents[round].len() == stops);
        assert forall|r: int| 0 <= r < rounds implies (#[trigger] after.arrivals[r]).len() == stops by {
            assert(view.arrivals[r].len() == stops);
        }
        assert forall|r: int| 0 <= r < rounds implies (#[trigger] after.parents[r]).len() == stops by {
            assert(view.parents[r].len() == stops);
        }
        assert forall|r: int| 0 <= r < rounds implies (#[trigger] after.arrivals[r])[destination] >= after.best[destination] by {
            assert(view.arrivals[r][destination] >= view.best[destination]);
        }
        if after.best[destination] < INF_TIME {
            if stop == destination {
                assert(noted_in(after, destination, round));
            } else {
                let r = choose|r: int| #[trigger] noted_in(view, destination, r);
                assert(view.arrivals[r].len() == stops && view.parents[r].len() == stops);
                assert(noted_in(after, destination, r));
            }
        }
        assert forall|s: int| 0 <= s < after.flags.len() && (#[trigger] after.flags[s]) implies after.improved.contains(s as usize) by {
            if s == stop && !view.flags[stop] {
                assert(after.improved.last() == s as usize);
            } else {
                assert(view.flags[s]);
                let at = view.improved.index_of(s as usize);
                assert(after.improved[at] == s as usize);
            }
        }
        assert forall|s: int| 0 <= s < after.flags.len() && (#[trigger] after.flags[s]) && s != destination implies after.arrivals[round][s] == after.best[s] by {
            if s != stop {
                assert(view.flags[s]);
            }
        }
        assert forall|i: int| 0 <= i < after.improved.len() implies (#[trigger] after.improved[i]) < after.flags.len() && after.flags[after.improved[i] as int] by {
            if i < view.improved.len() {
                assert(after.improved[i] == view.improved[i]);
                assert(view.flags[view.improved[i] as int]);
            }
        }
    }
}

proof fn onboard_is_tidy(view: SearchView, ctx: SearchContext, line: LineRecord, stop_pos: int, destination: int, round: int, trip: usize, boarded_at: usize, stops: int, rounds: int)
    requires
        labels_tidy(view, destination, round, stops, rounds),
        ctx.data.stops@.len() <= stops,
        line_valid(line, ctx.data.trips@, ctx.data.stops@.len() as int),
        0 <= stop_pos < line.stop_indices@.len(),
    ensures
        labels_tidy(after_onboard(view, ctx, line, stop_pos, destination, round, trip, boarded_at), destination, round, stops, rounds),
        only_better(view, after_onboard(view, ctx, line, stop_pos, destination, round, trip, boarded_at)),
{
    let after = after_onboard(view, ctx, line, stop_pos, destination, round, trip, boarded_at);
    let stop = line.stop_indices@[stop_pos];
    assert(stop < ctx.data.stops@.len());
    let begun = SearchView { metrics: after.metrics, ..view };
    work_leaves_labels(view, begun, destination, round, stops, rounds);
    let parent = ParentView::Transit { trip_index: trip, board_stop: line.stop_indices@[boarded_at as int], board_pos: boarded_at, alight_stop: stop, alight_pos: stop_pos as usize };
    let arrival = ctx.arrival(trip as int, stop_pos) as i32;
    improvement_is_tidy(begun, round, stop as int, arrival, parent, destination, stops, rounds);
    better_and_better(view, begun, with_improvement(begun, round, stop as int, arrival, parent));
}

proof fn ride_is_tidy(view: SearchView, ctx: SearchContext, line: LineRecord, stop_pos: int, n: int, destination: int, round: int, trip: usize, boarded_at: usize, stops: int, rounds: int)
    requires
        labels_tidy(view, destination, round, stops, rounds),
        ctx.data.stops@.len() <= stops,
        line_valid(line, ctx.data.trips@, ctx.data.stops@.len() as int),
        0 <= stop_pos,
        stop_pos + n <= line.stop_indices@.len(),
    ensures
        labels_tidy(after_ride(view, ctx, line, stop_pos, n, destination, round, trip, boarded_at), destination, round, stops, rounds),
        only_better(view, after_ride(view, ctx, line, stop_pos, n, destination, round, trip, boarded_at)),
        view.flags.len() == view.best.len(),
    decreases n,
{
    work_leaves_labels(view, view, destination, round, stops, rounds);
    if n > 0 {
        ride_is_tidy(view, ctx, line, stop_pos, n - 1, destination, round, trip, boarded_at, stops, rounds);
        let before = after_ride(view, ctx, line, stop_pos, n - 1, destination, round, trip, boarded_at);
        onboard_is_tidy(before, ctx, line, stop_pos + n - 1, destination, round, trip, boarded_at, stops, rounds);
        better_and_better(view, before, after_ride(view, ctx, line, stop_pos, n, destination, round, trip, boarded_at));
    }
}

proof fn line_from_is_tidy(
    scan: LineScan,
    ctx: SearchContext,
    line: LineRecord,
    stop_pos: int,
    destination: int,
    round: int,
    lookback: i32,
    best_before: Seq<i32>,
    stops: int,
    rounds: int,
)
    requires
        labels_tidy(scan.view, destination, round, stops, rounds),
        ctx.data.stops@.len() <= stops,
        line_valid(line, ctx.data.trips@, ctx.data.stops@.len() as int),
        0 <= stop_pos,
    ensures
        labels_tidy(after_line_from(scan, ctx, line, stop_pos, destination, round, lookback, best_before), destination, round, stops, rounds),
        only_better(scan.view, after_line_from(scan, ctx, line, stop_pos, destination, round, lookback, best_before)),
        scan.view.flags.len() == scan.view.best.len(),
    decreases line.stop_indices@.len() - stop_pos,
{
    work_leaves_labels(scan.view, scan.view, destination, round, stops, rounds);
    let after = after_line_from(scan, ctx, line, stop_pos, destination, round, lookback, best_before);
    if stop_pos < line.stop_indices@.len() {
        if can_ride_on(scan, ctx, line, stop_pos, best_before) {
            let n = SVRT_WIDTH as int;
            ride_is_tidy(scan.view, ctx, line, stop_pos, n, destination, round, scan.current->0, scan.boarded_at, stops, rounds);
            let view = after_ride(scan.view, ctx, line, stop_pos, n, destination, round, scan.current->0, scan.boarded_at);
            line_from_is_tidy(LineScan { view: view, ..scan }, ctx, line, stop_pos + SVRT_WIDTH, destination, round, lookback, best_before, stops, rounds);
            better_and_better(scan.view, view, after);
        } else {
            let view = match scan.current {
                Some(trip) => after_onboard(scan.view, ctx, line, stop_pos, destination, round, trip, scan.boarded_at),
                None => scan.view,
            };
            match scan.current {
                Some(trip) => onboard_is_tidy(scan.view, ctx, line, stop_pos, destination, round, trip, scan.boarded_at, stops, rounds),
                None => {},
            }
            let next = after_call(scan, ctx, line, stop_pos, destination, round, lookback, best_before);
            assert(next.view == (SearchView { metrics: next.view.metrics, ..view }));
            work_leaves_labels(view, next.view, destination, round, stops, rounds);
            better_and_better(scan.view, view, next.view);
            line_from_is_tidy(next, ctx, line, stop_pos + 1, destination, round, lookback, best_before, stops, rounds);
            better_and_better(scan.view, next.view, after);
        }
    }
}

proof fn lines_are_tidy(view: SearchView, ctx: SearchContext, queue: Seq<usize>, destination: int, round: int, best_before: Seq<i32>, n: int, stops: int, rounds: int)
    requires
        ctx.wf(),
        labels_tidy(view, destination, round, stops, rounds),
        ctx.data.stops@.len() <= stops,
        n <= queue.len() <= ctx.data.lines@.len(),
    ensures
        labels_tidy(after_lines(view, ctx, queue, destination, round, best_before, n), destination, round, stops, rounds),
        only_better(view, after_lines(view, ctx, queue, destination, round, best_before, n)),
        view.flags.len() == view.best.len(),
    decreases n,
{
    work_leaves_labels(view, view, destination, round, stops, rounds);
    if n > 0 {
        lines_are_tidy(view, ctx, queue, destination, round, best_before, n - 1, stops, rounds);
        let before = after_lines(view, ctx, queue, destination, round, best_before, n - 1);
        if queue[n - 1] != NOT_QUEUED {
            let line = ctx.data.lines@[n - 1];
            assert(line_valid(line, ctx.data.trips@, ctx.data.stops@.len() as int));
            let m = RoundMetrics { lines_scanned: counted(before.metrics.lines_scanned, 1), ..before.metrics };
            let start_pos = queue[n - 1] as int;
            let calls = line.stop_indices@.len() - start_pos;
            let begun = RoundMetrics { stop_positions_scanned: counted(m.stop_positions_scanned, if calls > 0 { calls } else { 0 }), ..m };
            let scan = LineScan { view: SearchView { metrics: begun, ..before }, current: None, boarded_at: 0 };
            work_leaves_labels(before, scan.view, destination, round, stops, rounds);
            line_from_is_tidy(scan, ctx, line, start_pos, destination, round, ctx.line_max_positive_delay_secs@[n - 1], best_before, stops, rounds);
            let after = after_lines(view, ctx, queue, destination, round, best_before, n);
            better_and_better(before, scan.view, after);
            better_and_better(view, before, after);
        }
    }
}

/// The labels at the start of a round are in order.
pub proof fn begun_is_tidy(view: SearchView, queued: nat, destination: int, round: int, stops: int, rounds: int)
    requires
        labels_shaped(view, stops, rounds),
        arrival_noted(view, destination),
        0 <= destination < stops,
        0 <= round < rounds,
    ensures
        labels_tidy(round_begun(view, queued), destination, round, stops, rounds),
{
    reveal(labels_tidy);
    let begun = round_begun(view, queued);
    if view.best[destination] < INF_TIME {
        let r = choose|r: int| #[trigger] noted_in(view, destination, r);
        assert(noted_in(begun, destination, r));
    }
}

/// The rides of a round leave the labels in order, and change them only for the better.
pub proof fn rides_are_tidy(view: SearchView, ctx: SearchContext, destination: int, round: int, marked: Seq<usize>, stops: int, rounds: int)
    requires
        search_ready(ctx),
        labels_shaped(view, stops, rounds),
        arrival_noted(view, destination),
        ctx.data.stops@.len() <= stops,
        0 <= destination < stops,
        0 <= round < rounds,
    ensures
        labels_tidy(after_rides(view, ctx, destination, round, marked), destination, round, stops, rounds),
        no_worse(view, after_rides(view, ctx, destination, round, marked)),
        forall|s: int| 0 <= s < stops && (#[trigger] after_rides(view, ctx, destination, round, marked).best[s]) != view.best[s] ==> after_rides(
            view,
            ctx,
            destination,
            round,
            marked,
        ).flags[s],
{
    let queue = queue_of(*ctx.data, view.best, view.best[destination], marked, marked.len() as int);
    queue_of_length(*ctx.data, view.best, view.best[destination], marked, marked.len() as int);
    let begun = round_begun(view, queued_count(queue, queue.len() as int));
    begun_is_tidy(view, queued_count(queue, queue.len() as int), destination, round, stops, rounds);
    lines_are_tidy(begun, ctx, queue, destination, round, view.best, queue.len() as int, stops, rounds);
}

/// Whether a walk from one of the sources leads to a stop at a time.
pub open spec fn walk_gives(data: StaticData, sources: Seq<WalkSource>, i: int, slot: int, stop: int, arrival: int) -> bool {
    &&& 0 <= i < sources.len()
    &&& sources[i].0 < data.transfers@.len()
    &&& 0 <= slot < data.transfers@[sources[i].0 as int]@.len()
    &&& data.transfers@[sources[i].0 as int]@[slot].to_stop == stop
    &&& arrival == sources[i].2 + data.transfers@[sources[i].0 as int]@[slot].duration_secs
}

/// Whether every stop that is reached earlier is reached by a walk from one of the
/// sources.
pub open spec fn reached_on_foot(before: SearchView, after: SearchView, data: StaticData, sources: Seq<WalkSource>) -> bool {
    forall|s: int| 0 <= s < before.best.len() && (#[trigger] after.best[s]) != before.best[s] ==> exists|i: int, slot: int|
        #[trigger] walk_gives(data, sources, i, slot, s, after.best[s] as int)
}

spec fn walking(start: SearchView, view: SearchView, data: StaticData, all: Seq<WalkSource>, destination: int, round: int, stops: int, rounds: int) -> bool {
    &&& labels_tidy(view, destination, round, stops, rounds)
    &&& only_better(start, view)
    &&& start.flags.len() == start.best.len() == stops
    &&& reached_on_foot(start, view, data, all)
}

proof fn target_is_walked(start: SearchView, view: SearchView, data: StaticData, hub: usize, tile: TransferTile, all: Seq<WalkSource>, sources: Seq<WalkSource>, column: int, round: int, destination: int, stops: int, rounds: int)
    requires
        walking(start, view, data, all, destination, round, stops, rounds),
        data.stops@.len() <= stops,
        walk_index_valid(data.transfer_index, data.transfers@, data.stops@.len() as int),
        walks_valid(data.transfers@, data.stops@.len() as int),
        sources_in_hub(data, hub, sources),
        forall|i: int| 0 <= i < sources.len() ==> all.contains(#[trigger] sources[i]),
        tile_valid(tile, data.transfer_index.hubs@[hub as int].stop_indices@, data.transfers@, data.stops@.len() as int),
        0 <= column < tile.target_stop_indices@.len(),
    ensures
        walking(start, after_target(view, data.transfers@, round, tile, sources, column), data, all, destination, round, stops, rounds),
{
    let after = after_target(view, data.transfers@, round, tile, sources, column);
    let target = tile.target_stop_indices@[column];
    assert(target < data.stops@.len());
    let known = view.best[target as int] as int;
    let best = best_walk(tile, sources, column, known, sources.len() as int);
    best_walk_facts(data, hub, tile, sources, column, known, sources.len() as int);
    best_walk_in_time(data, hub, tile, sources, column, known, sources.len() as int);
    let worked = SearchView { metrics: after.metrics, ..view };
    work_leaves_labels(view, worked, destination, round, stops, rounds);
    better_and_better(start, view, worked);
    match best.edge {
        None => {
            assert(after == worked);
        },
        Some(edge) => {
            let walk = data.transfers@[edge.0 as int]@[edge.1 as int];
            let k = choose|k: int| {
                &&& 0 <= k < sources.len()
                &&& (#[trigger] sources[k]).0 == edge.0
                &&& best.arrival == sources[k].2 + data.transfers@[edge.0 as int]@[edge.1 as int].duration_secs
            };
            assert(0 <= walk.duration_secs);
            let arrival = best.arrival as i32;
            assert(arrival == best.arrival);
            let parent = ParentView::Walk { from_stop: edge.0, duration_secs: walk.duration_secs, distance_meters: walk.distance_meters };
            let improved = with_improvement(worked, round, walk.to_stop as int, arrival, parent);
            improvement_is_tidy(worked, round, walk.to_stop as int, arrival, parent, destination, stops, rounds);
            better_and_better(start, worked, improved);
            assert(after == improved);
            let i = all.index_of(sources[k]);
            assert(all[i] == sources[k]);
            assert forall|s: int| 0 <= s < start.best.len() && (#[trigger] after.best[s]) != start.best[s] implies exists|i: int, slot: int|
                #[trigger] walk_gives(data, all, i, slot, s, after.best[s] as int) by {
                if s == target {
                    assert(walk_gives(data, all, i, edge.1 as int, s, after.best[s] as int));
                } else {
                    assert(view.best[s] == after.best[s]);
                    let (j, slot) = choose|j: int, slot: int| #[trigger] walk_gives(data, all, j, slot, s, view.best[s] as int);
                    assert(walk_gives(data, all, j, slot, s, after.best[s] as int));
                }
            }
        },
    }
}

proof fn tile_is_walked(start: SearchView, view: SearchView, data: StaticData, hub: usize, tile: TransferTile, all: Seq<WalkSource>, sources: Seq<WalkSource>, n: int, round: int, destination: int, stops: int, rounds: int)
    requires
        walking(start, view, data, all, destination, round, stops, rounds),
        data.stops@.len() <= stops,
        walk_index_valid(data.transfer_index, data.transfers@, data.stops@.len() as int),
        walks_valid(data.transfers@, data.stops@.len() as int),
        sources_in_hub(data, hub, sources),
        forall|i: int| 0 <= i < sources.len() ==> all.contains(#[trigger] sources[i]),
        tile_valid(tile, data.transfer_index.hubs@[hub as int].stop_indices@, data.transfers@, data.stops@.len() as int),
        n <= tile.target_stop_indices@.len(),
    ensures
        walking(start, after_tile(view, data.transfers@, round, tile, sources, n), data, all, destination, round, stops, rounds),
    decreases n,
{
    if n > 0 {
        tile_is_walked(start, view, data, hub, tile, all, sources, n - 1, round, destination, stops, rounds);
        let before = after_tile(view, data.transfers@, round, tile, sources, n - 1);
        target_is_walked(start, before, data, hub, tile, all, sources, n - 1, round, destination, stops, rounds);
    }
}

proof fn tiles_are_walked(start: SearchView, view: SearchView, data: StaticData, hub: usize, all: Seq<WalkSource>, sources: Seq<WalkSource>, n: int, round: int, destination: int, stops: int, rounds: int)
    requires
        walking(start, view, data, all, destination, round, stops, rounds),
        data.stops@.len() <= stops,
        walk_index_valid(data.transfer_index, data.transfers@, data.stops@.len() as int),
        walks_valid(data.transfers@, data.stops@.len() as int),
        sources_in_hub(data, hub, sources),
        forall|i: int| 0 <= i < sources.len() ==> all.contains(#[trigger] sources[i]),
        n <= data.transfer_index.hubs@[hub as int].outgoing_tiles@.len(),
    ensures
        walking(
            start,
            after_tiles(view, data.transfers@, round, data.transfer_index.hubs@[hub as int].outgoing_tiles@, sources, n),
            data,
            all,
            destination,
            round,
            stops,
            rounds,
        ),
    decreases n,
{
    if n > 0 {
        let tiles = data.transfer_index.hubs@[hub as int].outgoing_tiles@;
        tiles_are_walked(start, view, data, hub, all, sources, n - 1, round, destination, stops, rounds);
        let before = after_tiles(view, data.transfers@, round, tiles, sources, n - 1);
        assert(tile_valid(data.transfer_index.hubs@[hub as int].outgoing_tiles@[n - 1], data.transfer_index.hubs@[hub as int].stop_indices@, data.transfers@, data.stops@.len() as int));
        tile_is_walked(start, before, data, hub, tiles[n - 1], all, sources, tiles[n - 1].target_stop_indices@.len() as int, round, destination, stops, rounds);
    }
}

proof fn hub_sources_are_sources(data: StaticData, sources: Seq<WalkSource>, hub: usize, n: int)
    requires
        0 <= n <= sources.len(),
    ensures
        forall|i: int| 0 <= i < sources_of_hub(data.transfer_index, sources, hub, n).len() ==> sources.contains(#[trigger] sources_of_hub(data.transfer_index, sources, hub, n)[i]),
    decreases n,
{
    if n > 0 {
        hub_sources_are_sources(data, sources, hub, n - 1);
        let before = sources_of_hub(data.transfer_index, sources, hub, n - 1);
        let after = sources_of_hub(data.transfer_index, sources, hub, n);
        assert forall|i: int| 0 <= i < after.len() implies sources.contains(#[trigger] after[i]) by {
            if i < before.len() {
                assert(after[i] == before[i]);
            } else {
                assert(after[i] == sources[n - 1]);
            }
        }
    }
}

proof fn hubs_are_walked(start: SearchView, view: SearchView, data: StaticData, sources: Seq<WalkSource>, hubs: Seq<usize>, n: int, round: int, destination: int, stops: int, rounds: int)
    requires
        walking(start, view, data, sources, destination, round, stops, rounds),
        data.stops@.len() <= stops,
        walk_index_valid(data.transfer_index, data.transfers@, data.stops@.len() as int),
        walks_valid(data.transfers@, data.stops@.len() as int),
        sources_valid(data.transfer_index, sources),
        forall|a: int| 0 <= a < hubs.len() ==> (#[trigger] hubs[a]) < data.transfer_index.hubs@.len(),
        n <= hubs.len(),
    ensures
        walking(start, after_hubs(view, data, round, sources, hubs, n), data, sources, destination, round, stops, rounds),
    decreases n,
{
    if n > 0 {
        hubs_are_walked(start, view, data, sources, hubs, n - 1, round, destination, stops, rounds);
        let before = after_hubs(view, data, round, sources, hubs, n - 1);
        let hub = hubs[n - 1];
        let own = sources_of_hub(data.transfer_index, sources, hub, sources.len() as int);
        sources_of_hub_valid(data.transfer_index, sources, hub, sources.len() as int);
        hub_sources_are_sources(data, sources, hub, sources.len() as int);
        tiles_are_walked(start, before, data, hub, sources, own, data.transfer_index.hubs@[hub as int].outgoing_tiles@.len() as int, round, destination, stops, rounds);
    }
}

/// Whether a walk from a stop of the frontier that is worth walking on from leads to a
/// stop at a time.
pub open spec fn walk_from_frontier(view: SearchView, data: StaticData, round: int, destination: int, frontier: Seq<usize>, f: int, slot: int, stop: int, arrival: int) -> bool {
    &&& 0 <= f < frontier.len()
    &&& frontier[f] < data.stops@.len()
    &&& worth_walking(view.arrivals[round], view.best[destination], frontier[f])
    &&& 0 <= slot < data.transfers@[frontier[f] as int]@.len()
    &&& data.transfers@[frontier[f] as int]@[slot].to_stop == stop
    &&& arrival == view.arrivals[round][frontier[f] as int] + data.transfers@[frontier[f] as int]@[slot].duration_secs
}

proof fn sources_are_of_frontier(data: StaticData, arrivals: Seq<i32>, bound: i32, frontier: Seq<usize>, n: int, i: int)
    requires
        0 <= n <= frontier.len(),
        0 <= i < walk_sources(data.transfer_index, arrivals, bound, frontier, n).len(),
    ensures
        ({
            let source = walk_sources(data.transfer_index, arrivals, bound, frontier, n)[i];
            exists|f: int| 0 <= f < n && #[trigger] frontier[f] == source.0 && worth_walking(arrivals, bound, frontier[f]) && source.2 == arrivals[frontier[f] as int]
        }),
    decreases n,
{
    if n > 0 {
        let before = walk_sources(data.transfer_index, arrivals, bound, frontier, n - 1);
        if i < before.len() {
            sources_are_of_frontier(data, arrivals, bound, frontier, n - 1, i);
            let source = before[i];
            let f = choose|f: int|
                0 <= f < n - 1 && #[trigger] frontier[f] == source.0 && worth_walking(arrivals, bound, frontier[f]) && source.2 == arrivals[frontier[f] as int];
            assert(frontier[f] == source.0);
        } else {
            assert(frontier[n - 1] == walk_sources(data.transfer_index, arrivals, bound, frontier, n)[i].0);
        }
    }
}

/// The walks of a round leave the labels in order and change them only for the better, and
/// every stop that they reach earlier is reached by a walk from the frontier.
pub proof fn walks_are_tidy(view: SearchView, ctx: SearchContext, destination: int, round: int, frontier: Seq<usize>, stops: int, rounds: int)
    requires
        search_ready(ctx),
        labels_tidy(view, destination, round, stops, rounds),
        ctx.data.stops@.len() <= stops,
    ensures
        ({
            let after = after_walks(view, *ctx.data, round, destination, frontier);
            &&& labels_tidy(after, destination, round, stops, rounds)
            &&& only_better(view, after)
            &&& view.flags.len() == view.best.len() == stops
            &&& forall|s: int| 0 <= s < stops && (#[trigger] after.best[s]) != view.best[s] ==> exists|f: int, slot: int|
                #[trigger] walk_from_frontier(view, *ctx.data, round, destination, frontier, f, slot, s, after.best[s] as int)
        }),
{
    let data = *ctx.data;
    let index = data.transfer_index;
    work_leaves_labels(view, view, destination, round, stops, rounds);
    assert(view.best.len() == stops) by {
        reveal(labels_tidy);
    }
    if frontier.len() > 0 && index.hubs@.len() > 0 {
        let bound = view.best[destination];
        let n = frontier.len() as int;
        let sources = walk_sources(index, view.arrivals[round], bound, frontier, n);
        sources_hold(data, view.arrivals[round], bound, frontier, n, 0);
        let hubs = source_hubs(index, sources, sources.len() as int);
        hubs_hold(data, sources, sources.len() as int, 0);
        let m = view.metrics;
        let pruned = pruned_sources(index, view.arrivals[round], bound, frontier, n);
        let begun = SearchView { metrics: RoundMetrics { destination_bound_prunes: counted(m.destination_bound_prunes, pruned), ..m }, ..view };
        work_leaves_labels(view, begun, destination, round, stops, rounds);
        assert(walking(view, begun, data, sources, destination, round, stops, rounds));
        hubs_are_walked(view, begun, data, sources, hubs, hubs.len() as int, round, destination, stops, rounds);
        let after = after_walks(view, data, round, destination, frontier);
        assert forall|s: int| 0 <= s < stops && (#[trigger] after.best[s]) != view.best[s] implies exists|f: int, slot: int|
            #[trigger] walk_from_frontier(view, data, round, destination, frontier, f, slot, s, after.best[s] as int) by {
            let (i, slot) = choose|i: int, slot: int| #[trigger] walk_gives(data, sources, i, slot, s, after.best[s] as int);
            sources_are_of_frontier(data, view.arrivals[round], bound, frontier, n, i);
            let source = sources[i];
            let f = choose|f: int|
                0 <= f < n && #[trigger] frontier[f] == source.0 && worth_walking(view.arrivals[round], bound, frontier[f]) && source.2 == view.arrivals[round][frontier[f] as int];
            assert(source.0 < index.stop_to_hub@.len());
            assert(walk_from_frontier(view, data, round, destination, frontier, f, slot, s, after.best[s] as int));
        }
    }
}

} // verus!
